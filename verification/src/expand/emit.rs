//! The emitter: a replacement plan written out as a fragment that the shell
//! evaluates. Every text that comes from the user goes in quoted.

use crate::config::abbrev::{texts, Snippet, SnippetView};
use crate::expand::{ExpandResult, ExpandResultView};
use crate::text::slice;
use vstd::prelude::*;
use vstd::string::StringExecFns;
use vstd::string::StringSliceAdditionalSpecFns;
use vstd::utf8::*;

verus! {

/// The characters that a Unix shell takes as they stand.
pub open spec fn is_plain(c: char) -> bool {
    ||| 'a' <= c <= 'z'
    ||| 'A' <= c <= 'Z'
    ||| '0' <= c <= '9'
    ||| c == '-'
    ||| c == '_'
    ||| c == '='
    ||| c == '/'
    ||| c == ','
    ||| c == '.'
    ||| c == '+'
}

/// One character as it stands between single quotes. A single quote and an
/// exclamation mark leave the quotes, escaped by a backslash.
pub open spec fn quoted_char(c: char) -> Seq<char> {
    if c == '\'' || c == '!' {
        seq!['\'', '\\', c, '\'']
    } else {
        seq![c]
    }
}

/// A text as it stands between single quotes.
pub open spec fn quoted_chars(s: Seq<char>) -> Seq<char>
    decreases s.len(),
{
    if s.len() == 0 {
        Seq::empty()
    } else {
        quoted_chars(s.drop_last()) + quoted_char(s.last())
    }
}

/// A text quoted for a Unix shell: as it stands where it is not empty and
/// holds plain characters only, and between single quotes otherwise.
pub open spec fn quoted(s: Seq<char>) -> Seq<char> {
    if s.len() > 0 && (forall|i: int| 0 <= i < s.len() ==> is_plain(#[trigger] s[i])) {
        s
    } else {
        seq!['\''] + quoted_chars(s) + seq!['\'']
    }
}

/// Quotes `s` with `shell_escape::unix::escape`. The contract claims the
/// whole of what that function does: a text that is not empty and holds
/// only letters, digits and `-_=/,.+` comes back as it is; any other comes
/// back between single quotes, with `'\` before and `'` after each single
/// quote and each exclamation mark.
#[verifier::external_body]
fn shell_quote(s: &str) -> (r: String)
    ensures
        r@ == quoted(s@),
{
    shell_escape::unix::escape(std::borrow::Cow::Borrowed(s)).into_owned()
}

/// What a shell reads in a word: between single quotes every character
/// stands for itself up to the next single quote; outside them a backslash
/// makes the next character stand for itself. `inside` says whether the
/// word is read from inside single quotes.
pub open spec fn read_word(word: Seq<char>, inside: bool) -> Seq<char>
    decreases word.len(),
{
    if word.len() == 0 {
        Seq::empty()
    } else if word[0] == '\'' {
        read_word(word.skip(1), !inside)
    } else if !inside && word[0] == '\\' && word.len() >= 2 {
        seq![word[1]] + read_word(word.skip(2), false)
    } else {
        seq![word[0]] + read_word(word.skip(1), inside)
    }
}

/// Inside single quotes, a quoted text is read back as it was, and the
/// reading goes on inside them.
proof fn lemma_read_quoted_chars(s: Seq<char>, rest: Seq<char>)
    ensures
        read_word(quoted_chars(s) + rest, true) == s + read_word(rest, true),
    decreases s.len(),
{
    if s.len() == 0 {
        assert(quoted_chars(s) + rest =~= rest);
        assert(s + read_word(rest, true) =~= read_word(rest, true));
    } else {
        let c = s.last();
        let front = s.drop_last();
        let tail = quoted_char(c) + rest;
        assert(quoted_chars(s) + rest =~= quoted_chars(front) + tail);
        lemma_read_quoted_chars(front, tail);
        if c == '\'' || c == '!' {
            let escaped = tail.skip(1);
            let reopened = escaped.skip(2);
            assert(tail[0] == '\'');
            assert(escaped[0] == '\\' && escaped[1] == c);
            assert(reopened[0] == '\'');
            assert(reopened.skip(1) =~= rest);
            assert(read_word(reopened, false) == read_word(rest, true));
            assert(read_word(escaped, false) == seq![c] + read_word(reopened, false));
            assert(read_word(tail, true) == read_word(escaped, false));
        } else {
            assert(tail[0] == c);
            assert(tail.skip(1) =~= rest);
        }
        assert(read_word(tail, true) == seq![c] + read_word(rest, true));
        assert(front + (seq![c] + read_word(rest, true)) =~= s + read_word(rest, true));
    }
}

/// A text of plain characters is read back as it is.
proof fn lemma_read_plain(s: Seq<char>)
    requires
        forall|i: int| 0 <= i < s.len() ==> is_plain(#[trigger] s[i]),
    ensures
        read_word(s, false) == s,
    decreases s.len(),
{
    if s.len() == 0 {
        assert(s =~= Seq::<char>::empty());
    } else {
        let rest = s.skip(1);
        assert(is_plain(s[0]));
        assert forall|i: int| 0 <= i < rest.len() implies is_plain(#[trigger] rest[i]) by {
            assert(rest[i] == s[i + 1]);
        }
        lemma_read_plain(rest);
        assert(seq![s[0]] + rest =~= s);
    }
}

/// Quoting is faithful: the shell reads a quoted text back as the text that
/// went in, whatever that text holds.
pub proof fn lemma_quoted_reads_back(s: Seq<char>)
    ensures
        read_word(quoted(s), false) == s,
{
    if s.len() > 0 && (forall|i: int| 0 <= i < s.len() ==> is_plain(#[trigger] s[i])) {
        lemma_read_plain(s);
    } else {
        let closing = seq!['\''];
        let word = quoted(s);
        assert(word.skip(1) =~= quoted_chars(s) + closing);
        lemma_read_quoted_chars(s, closing);
        assert(closing[0] == '\'');
        assert(closing.skip(1) =~= Seq::<char>::empty());
        assert(read_word(closing.skip(1), false) =~= Seq::<char>::empty());
        assert(read_word(closing, true) =~= Seq::<char>::empty());
        assert(word[0] == '\'');
        assert(s + Seq::<char>::empty() =~= s);
    }
}

/// The arguments from `from` up to `to`, each quoted and after a space.
pub open spec fn quoted_args(args: Seq<Seq<char>>, from: int, to: int) -> Seq<char>
    decreases to - from,
{
    if to <= from {
        Seq::empty()
    } else {
        quoted_args(args, from, to - 1) + " "@ + quoted(args[to - 1])
    }
}

/// The command that binds the positional parameters to the arguments that
/// follow the context.
pub open spec fn set_parameters(args: Seq<Seq<char>>, context_size: int) -> Seq<char> {
    "set --"@ + quoted_args(args, context_size, args.len() as int) + ";"@
}

/// The flag that has the shell expand a parameter's value.
pub open spec fn expansion_flag(evaluate: bool) -> Seq<char> {
    if evaluate {
        "(e)"@
    } else {
        ""@
    }
}

/// A space, where one is asked for.
pub open spec fn joint(wanted: bool) -> Seq<char> {
    if wanted {
        " "@
    } else {
        ""@
    }
}

/// What comes before the assignments: the request to redraw, and the
/// positional parameters for a snippet that is evaluated.
pub open spec fn preamble(plan: ExpandResultView) -> Seq<char> {
    (if plan.redraw {
        "__zabbrev_redraw=1;"@
    } else {
        ""@
    }) + (if plan.evaluate {
        set_parameters(plan.args, plan.context_size)
    } else {
        ""@
    })
}

/// The assignments for a snippet that goes in whole: it is joined to what
/// stays of the left buffer, and the right buffer stays as it is.
pub open spec fn simple_assignments(plan: ExpandResultView, snippet: Seq<char>) -> Seq<char> {
    "local snippet="@ + quoted(snippet) + ";snippet=\"${"@ + expansion_flag(plan.evaluate)
        + "snippet}\" && { LBUFFER="@ + quoted(plan.kept_before()) + "\""@ + joint(plan.append)
        + "${(pj: :)${(@f)snippet}}"@ + joint(plan.prepend) + "\""@ + quoted(plan.kept_after())
        + ";RBUFFER="@ + quoted(plan.rbuffer) + ";};"@
}

/// The assignments for a snippet in two halves: the first ends the left
/// buffer and the second begins the right buffer, so that the cursor stands
/// between them, and no space is added after the expansion.
pub open spec fn divided_assignments(
    plan: ExpandResultView,
    first: Seq<char>,
    second: Seq<char>,
) -> Seq<char> {
    "local snippet1="@ + quoted(first) + ";local snippet2="@ + quoted(second) + ";snippet1=\"${"@
        + expansion_flag(plan.evaluate) + "snippet1}\" && snippet2=\"${"@ + expansion_flag(
        plan.evaluate,
    ) + "snippet2}\" && { LBUFFER="@ + quoted(plan.kept_before()) + "\""@ + joint(plan.append)
        + "${(pj: :)${(@f)snippet1}}\";RBUFFER=\"${(pj: :)${(@f)snippet2}}"@ + joint(plan.prepend)
        + "\""@ + quoted(plan.kept_after()) + quoted(plan.rbuffer) + ";__zabbrev_no_space=1;};"@
}

/// The fragment that carries out a plan, ended by a newline.
pub open spec fn fragment(plan: ExpandResultView) -> Seq<char> {
    preamble(plan) + (match plan.snippet {
        SnippetView::Simple(snippet) => simple_assignments(plan, snippet),
        SnippetView::Divided(first, second) => divided_assignments(plan, first, second),
    }) + "\n"@
}

impl<'a> ExpandResult<'a> {
    /// Whether the plan can be written out.
    pub fn can_be_cut(&self) -> (r: bool)
        ensures
            r == self@.can_be_cut(),
    {
        let len: usize = self.lbuffer.as_bytes().len();
        self.start_index_of_replacement <= self.end_index_of_replacement
            && self.end_index_of_replacement <= len && self.lbuffer.is_char_boundary(
            self.start_index_of_replacement,
        ) && self.lbuffer.is_char_boundary(self.end_index_of_replacement) && self.context_size
            <= self.args.len()
    }
}

/// The command that binds the positional parameters.
fn render_parameters(args: &Vec<&str>, context_size: usize) -> (r: String)
    requires
        context_size <= args@.len(),
    ensures
        r@ == set_parameters(texts(args@), context_size as int),
{
    let ghost all = texts(args@);
    let n: usize = args.len();
    let mut list = String::from_str("");
    let mut i: usize = context_size;
    proof {
        reveal_strlit("");
        assert(list@ =~= quoted_args(all, context_size as int, i as int));
    }
    while i < n
        invariant
            all == texts(args@),
            n == args@.len(),
            context_size <= i <= n,
            list@ == quoted_args(all, context_size as int, i as int),
        decreases n - i,
    {
        let arg = shell_quote(args[i]);
        assert(all[i as int] == args@[i as int]@);
        list.append(" ");
        list.append(arg.as_str());
        i = i + 1;
    }
    let mut out = String::from_str("set --");
    out.append(list.as_str());
    out.append(";");
    out
}

/// Writes a plan out as a fragment for the shell.
pub fn render(plan: &ExpandResult<'_>) -> (r: String)
    requires
        plan@.can_be_cut(),
    ensures
        r@ == fragment(plan@),
{
    let len: usize = plan.lbuffer.as_bytes().len();
    proof {
        encode_utf8_valid_utf8(plan.lbuffer@);
        is_char_boundary_start_end_of_seq(plan.lbuffer.spec_bytes());
    }
    let before = shell_quote(slice(plan.lbuffer, 0, plan.start_index_of_replacement));
    let after = shell_quote(slice(plan.lbuffer, plan.end_index_of_replacement, len));
    let rbuffer = shell_quote(plan.rbuffer);
    let flag: &str = if plan.evaluate {
        "(e)"
    } else {
        ""
    };
    let joint_append: &str = if plan.append {
        " "
    } else {
        ""
    };
    let joint_prepend: &str = if plan.prepend {
        " "
    } else {
        ""
    };
    let mut out = String::from_str(
        if plan.redraw {
            "__zabbrev_redraw=1;"
        } else {
            ""
        },
    );
    if plan.evaluate {
        let parameters = render_parameters(&plan.args, plan.context_size);
        out.append(parameters.as_str());
    } else {
        out.append("");
    }
    let mut body: String;
    match plan.snippet {
        Snippet::Simple(snippet) => {
            let snippet = shell_quote(snippet);
            body = String::from_str("local snippet=");
            body.append(snippet.as_str());
            body.append(";snippet=\"${");
            body.append(flag);
            body.append("snippet}\" && { LBUFFER=");
            body.append(before.as_str());
            body.append("\"");
            body.append(joint_append);
            body.append("${(pj: :)${(@f)snippet}}");
            body.append(joint_prepend);
            body.append("\"");
            body.append(after.as_str());
            body.append(";RBUFFER=");
            body.append(rbuffer.as_str());
            body.append(";};");
        },
        Snippet::Divided(first, second) => {
            let first = shell_quote(first);
            let second = shell_quote(second);
            body = String::from_str("local snippet1=");
            body.append(first.as_str());
            body.append(";local snippet2=");
            body.append(second.as_str());
            body.append(";snippet1=\"${");
            body.append(flag);
            body.append("snippet1}\" && snippet2=\"${");
            body.append(flag);
            body.append("snippet2}\" && { LBUFFER=");
            body.append(before.as_str());
            body.append("\"");
            body.append(joint_append);
            body.append("${(pj: :)${(@f)snippet1}}\";RBUFFER=\"${(pj: :)${(@f)snippet2}}");
            body.append(joint_prepend);
            body.append("\"");
            body.append(after.as_str());
            body.append(rbuffer.as_str());
            body.append(";__zabbrev_no_space=1;};");
        },
    }
    out.append(body.as_str());
    out.append("\n");
    out
}

/// Writes a plan out as a fragment for the shell, if it can be written out.
pub fn try_render(plan: &ExpandResult<'_>) -> (r: Option<String>)
    ensures
        match r {
            Some(text) => plan@.can_be_cut() && text@ == fragment(plan@),
            None => !plan@.can_be_cut(),
        },
{
    if plan.can_be_cut() {
        Some(render(plan))
    } else {
        None
    }
}

} // verus!
