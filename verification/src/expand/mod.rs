//! The expansion pipeline: from the text left of the cursor to a
//! replacement plan.

pub mod characters;
pub mod emit;
pub mod segment;
pub mod split;

pub use crate::expand::emit::{render, try_render};
pub use crate::expand::segment::find_last_command_index;
pub use crate::expand::split::split_args;

use crate::config::abbrev::{
    lemma_context_size_bounds, texts, AbbrevView, MatchResult, Operation, OperationView, Snippet,
    SnippetView,
};
use crate::config::{
    diagnosed, first_applying, invalid_rules, lemma_first_applying, name_their_rules, Config,
    Diagnostic,
};
use crate::expand::emit::fragment;
use crate::expand::segment::{
    find_segment_start, lemma_boundary_in_segment, lemma_last_command_index,
    lemma_segment_on_boundary, lemma_segment_start, segment, segment_start,
};
use crate::expand::split::{
    cut, is_gap, lemma_first_token_start, lemma_spans_can_be_cut, lemma_tokens_cover,
    lemma_tokens_on_boundaries, scan, span_views, split_spans, token_bytes, tokens, Span,
};
use crate::opt::ExpandArgs;
use crate::text::slice;
use vstd::prelude::*;
use vstd::slice::slice_subrange;
use vstd::string::StringSliceAdditionalSpecFns;
use vstd::utf8::*;

verus! {

/// A replacement plan: which bytes of the left buffer are overwritten, and
/// with what.
#[derive(Debug, PartialEq)]
pub struct ExpandResult<'a> {
    pub lbuffer: &'a str,
    pub rbuffer: &'a str,
    /// The offset in `lbuffer` of the first byte that is replaced.
    pub start_index_of_replacement: usize,
    /// The offset in `lbuffer` of the first byte after the replaced ones.
    pub end_index_of_replacement: usize,
    /// The arguments of the current segment.
    pub args: Vec<&'a str>,
    /// How many of them the context of the rule took up.
    pub context_size: usize,
    pub snippet: Snippet<'a>,
    /// Whether a space goes between what stays before and the snippet.
    pub append: bool,
    /// Whether a space goes between the snippet and what stays after.
    pub prepend: bool,
    pub evaluate: bool,
    pub redraw: bool,
}

/// A replacement plan as a value, with offsets as integers and texts as
/// sequences of characters.
pub struct ExpandResultView {
    pub lbuffer: Seq<char>,
    pub rbuffer: Seq<char>,
    pub start_index_of_replacement: int,
    pub end_index_of_replacement: int,
    pub args: Seq<Seq<char>>,
    pub context_size: int,
    pub snippet: SnippetView,
    pub append: bool,
    pub prepend: bool,
    pub evaluate: bool,
    pub redraw: bool,
}

impl<'a> View for ExpandResult<'a> {
    type V = ExpandResultView;

    open spec fn view(&self) -> ExpandResultView {
        ExpandResultView {
            lbuffer: self.lbuffer@,
            rbuffer: self.rbuffer@,
            start_index_of_replacement: self.start_index_of_replacement as int,
            end_index_of_replacement: self.end_index_of_replacement as int,
            args: texts(self.args@),
            context_size: self.context_size as int,
            snippet: self.snippet@,
            append: self.append,
            prepend: self.prepend,
            evaluate: self.evaluate,
            redraw: self.redraw,
        }
    }
}

impl ExpandResultView {
    /// Whether the plan can be written out: the replaced range lies inside
    /// the left buffer, between characters, and the context took up no more
    /// arguments than there are.
    pub open spec fn can_be_cut(self) -> bool {
        let bytes = encode_utf8(self.lbuffer);
        &&& 0 <= self.start_index_of_replacement <= self.end_index_of_replacement <= bytes.len()
        &&& is_char_boundary(bytes, self.start_index_of_replacement)
        &&& is_char_boundary(bytes, self.end_index_of_replacement)
        &&& 0 <= self.context_size <= self.args.len()
    }

    /// The text that stays before the replaced range.
    pub open spec fn kept_before(self) -> Seq<char> {
        decode_utf8(encode_utf8(self.lbuffer).subrange(0, self.start_index_of_replacement))
    }

    /// The text that stays after the replaced range.
    pub open spec fn kept_after(self) -> Seq<char> {
        let bytes = encode_utf8(self.lbuffer);
        decode_utf8(bytes.subrange(self.end_index_of_replacement, bytes.len() as int))
    }
}

/// The arguments of the current segment of a left buffer, as text.
pub open spec fn arguments(lbuffer: Seq<u8>) -> Seq<Seq<char>> {
    let command = segment(lbuffer);
    Seq::new(tokens(command).len(), |i: int| decode_utf8(token_bytes(command, i)))
}

/// The bytes that an operation replaces, as offsets in the left buffer.
/// `start` is where the current segment begins, `len` the length of the
/// left buffer, `args` the arguments as offsets in the segment, and
/// `context_size` the number of arguments that the context took up.
pub open spec fn replaced_range(
    operation: OperationView,
    start: int,
    len: int,
    args: Seq<(int, int)>,
    context_size: int,
) -> (int, int) {
    match operation {
        OperationView::ReplaceSelf(_) => (len - (args.last().1 - args.last().0), len),
        OperationView::ReplaceFirst(_) => (start, start + (args[0].1 - args[0].0)),
        OperationView::ReplaceContext(_) => if context_size == 0 {
            (start, start)
        } else {
            (start, start + args[context_size - 1].1)
        },
        OperationView::ReplaceAll(_) => (start, len),
        OperationView::Append(_) => (len, len),
        OperationView::Prepend(_) => (start, start),
    }
}

/// Whether a space goes between what stays before and the snippet.
pub open spec fn appends(operation: OperationView) -> bool {
    operation is Append
}

/// Whether a space goes between the snippet and what stays after.
pub open spec fn prepends(operation: OperationView, context_size: int) -> bool {
    operation is Prepend || (operation is ReplaceContext && context_size == 0)
}

/// The plan for a rule that applies to the left buffer with a context of
/// `context_size` arguments.
pub open spec fn planned(
    lbuffer: Seq<char>,
    rbuffer: Seq<char>,
    rule: AbbrevView,
    context_size: int,
) -> ExpandResultView {
    let bytes = encode_utf8(lbuffer);
    let range = replaced_range(
        rule.function.operation,
        segment_start(bytes),
        bytes.len() as int,
        tokens(segment(bytes)),
        context_size,
    );
    ExpandResultView {
        lbuffer,
        rbuffer,
        start_index_of_replacement: range.0,
        end_index_of_replacement: range.1,
        args: arguments(bytes),
        context_size,
        snippet: rule.function.snippet(),
        append: appends(rule.function.operation),
        prepend: prepends(rule.function.operation, context_size),
        evaluate: rule.function.evaluate,
        redraw: rule.function.redraw,
    }
}

/// Every plan replaces a range that lies inside the left buffer.
pub proof fn lemma_range_valid(lbuffer: Seq<u8>, operation: OperationView, context_size: int)
    requires
        0 <= context_size < tokens(segment(lbuffer)).len(),
    ensures
        ({
            let range = replaced_range(
                operation,
                segment_start(lbuffer),
                lbuffer.len() as int,
                tokens(segment(lbuffer)),
                context_size,
            );
            0 <= range.0 <= range.1 <= lbuffer.len()
        }),
{
    lemma_last_command_index(lbuffer);
    lemma_segment_start(lbuffer);
    lemma_tokens_cover(segment(lbuffer));
    let args = tokens(segment(lbuffer));
    assert(segment(lbuffer).len() == lbuffer.len() - segment_start(lbuffer));
    assert(0 <= args[0].0);
    assert(0 <= args[args.len() - 1].0);
    if context_size > 0 {
        assert(0 <= args[context_size - 1].0);
    }
}

/// The first argument begins where the segment begins: the segment begins
/// with no white space, and it holds no newline that could follow a
/// backslash, since a newline is a separator.
pub proof fn lemma_segment_begins_with_argument(lbuffer: Seq<u8>)
    ensures
        tokens(segment(lbuffer))[0].0 == 0,
{
    let inner = segment(lbuffer);
    lemma_last_command_index(lbuffer);
    lemma_segment_start(lbuffer);
    if inner.len() > 0 {
        assert(inner[0] == lbuffer[segment_start(lbuffer)]);
        if inner.len() > 1 {
            assert(inner[1] == lbuffer[segment_start(lbuffer) + 1]);
        }
        assert(!is_gap(inner, 0));
    }
    lemma_first_token_start(inner);
}

/// Every plan can be written out: the range that it replaces lies inside
/// the left buffer and between characters, and its context took up
/// arguments that are there.
pub proof fn lemma_plan_can_be_cut(
    lbuffer: Seq<char>,
    rbuffer: Seq<char>,
    rule: AbbrevView,
    context_size: int,
)
    requires
        0 <= context_size < tokens(segment(encode_utf8(lbuffer))).len(),
    ensures
        planned(lbuffer, rbuffer, rule, context_size).can_be_cut(),
{
    let bytes = encode_utf8(lbuffer);
    let inner = segment(bytes);
    let args = tokens(inner);
    encode_utf8_valid_utf8(lbuffer);
    lemma_range_valid(bytes, rule.function.operation, context_size);
    lemma_segment_start(bytes);
    lemma_segment_begins_with_argument(bytes);
    lemma_boundary_in_segment(bytes, 0);
    lemma_tokens_cover(inner);
    lemma_tokens_on_boundaries(inner);
    is_char_boundary_start_end_of_seq(bytes);
    assert(inner.len() == bytes.len() - segment_start(bytes));
    lemma_boundary_in_segment(bytes, args[0].1);
    lemma_boundary_in_segment(bytes, args[args.len() - 1].0);
    if context_size > 0 {
        lemma_boundary_in_segment(bytes, args[context_size - 1].1);
    }
}

/// The current segment of a left buffer, cut into arguments.
#[derive(Debug)]
pub struct Command<'a> {
    pub lbuffer: &'a str,
    /// Where the segment begins in `lbuffer`.
    pub start: usize,
    /// The arguments, as offsets in the segment.
    pub spans: Vec<Span>,
    /// The arguments, as slices of `lbuffer`.
    pub args: Vec<&'a str>,
}

impl<'a> Command<'a> {
    /// A command holds what the locator and the tokenizer find in its left
    /// buffer.
    pub open spec fn wf(&self) -> bool {
        let bytes = self.lbuffer.spec_bytes();
        &&& self.start == segment_start(bytes)
        &&& span_views(self.spans@) == tokens(segment(bytes))
        &&& texts(self.args@) == arguments(bytes)
    }

    /// Finds the current segment of `lbuffer` and cuts it into arguments.
    pub fn parse(lbuffer: &'a str) -> (r: Command<'a>)
        ensures
            r.wf(),
            r.lbuffer == lbuffer,
            r.args@.len() >= 1,
            r.args@.len() == r.spans@.len(),
    {
        let ghost bytes = lbuffer.spec_bytes();
        let start = find_segment_start(lbuffer);
        let end: usize = lbuffer.as_bytes().len();
        proof {
            encode_utf8_valid_utf8(lbuffer@);
            lemma_segment_on_boundary(bytes);
            is_char_boundary_start_end_of_seq(bytes);
        }
        let command = slice(lbuffer, start, end);
        let spans = split_spans(command.as_bytes());
        proof {
            encode_utf8_valid_utf8(command@);
            lemma_spans_can_be_cut(command.spec_bytes(), spans@);
            lemma_tokens_cover(command.spec_bytes());
            assert(span_views(spans@).len() == spans@.len());
        }
        let args = cut(command, &spans);
        proof {
            assert forall|i: int| 0 <= i < args@.len() implies texts(args@)[i] == arguments(
                bytes,
            )[i] by {
                assert(spans@[i]@ == span_views(spans@)[i]);
            }
        }
        assert(texts(args@) =~= arguments(bytes));
        Command { lbuffer, start, spans, args }
    }
}

/// Plans the replacement for a rule that applies to a command.
pub fn plan<'a>(command: Command<'a>, rbuffer: &'a str, found: MatchResult<'a>) -> (r:
    ExpandResult<'a>)
    requires
        command.wf(),
        found.context_size < command.args@.len(),
    ensures
        r@ == planned(command.lbuffer@, rbuffer@, found@.abbrev, found@.context_size),
        r.lbuffer == command.lbuffer,
        r.rbuffer == rbuffer,
        r.start_index_of_replacement <= r.end_index_of_replacement
            <= command.lbuffer.spec_bytes().len(),
        r@.can_be_cut(),
{
    let ghost bytes = command.lbuffer.spec_bytes();
    let ghost args = tokens(segment(bytes));
    let len: usize = command.lbuffer.as_bytes().len();
    let start: usize = command.start;
    let count: usize = command.spans.len();
    let context_size: usize = found.context_size;
    let function = &found.abbrev.function;
    proof {
        assert(texts(command.args@).len() == args.len());
        assert(span_views(command.spans@).len() == args.len());
        lemma_range_valid(bytes, function.operation@, context_size as int);
        lemma_plan_can_be_cut(command.lbuffer@, rbuffer@, found.abbrev@, context_size as int);
        lemma_last_command_index(bytes);
        lemma_segment_start(bytes);
        lemma_tokens_cover(segment(bytes));
        assert(segment(bytes).len() == len - start);
    }
    let (from, to, append, prepend): (usize, usize, bool, bool) = match &function.operation {
        Operation::ReplaceSelf(_) => {
            let last = command.spans[count - 1];
            assert(last@ == span_views(command.spans@)[count - 1]);
            (len - (last.end - last.start), len, false, false)
        },
        Operation::ReplaceFirst(_) => {
            let first = command.spans[0];
            assert(first@ == span_views(command.spans@)[0]);
            (start, start + (first.end - first.start), false, false)
        },
        Operation::ReplaceContext(_) => if context_size == 0 {
            (start, start, false, true)
        } else {
            let last_of_context = command.spans[context_size - 1];
            assert(last_of_context@ == span_views(command.spans@)[context_size - 1]);
            (start, start + last_of_context.end, false, false)
        },
        Operation::ReplaceAll(_) => (start, len, false, false),
        Operation::Append(_) => (len, len, true, false),
        Operation::Prepend(_) => (start, start, false, true),
    };
    ExpandResult {
        lbuffer: command.lbuffer,
        rbuffer,
        start_index_of_replacement: from,
        end_index_of_replacement: to,
        args: command.args,
        context_size,
        snippet: function.get_snippet(),
        append,
        prepend,
        evaluate: function.evaluate,
        redraw: function.redraw,
    }
}

/// The plan for a line and a list of rules, if a rule applies. There is
/// none where the last argument is empty: nothing is being typed that could
/// be an abbreviation. Otherwise the first rule that applies decides.
pub open spec fn expansion(
    lbuffer: Seq<char>,
    rbuffer: Seq<char>,
    rules: Seq<AbbrevView>,
) -> Option<ExpandResultView> {
    let args = arguments(encode_utf8(lbuffer));
    let last_arg = args.last();
    let args_until_last = args.drop_last();
    if last_arg.len() == 0 {
        None
    } else {
        match first_applying(rules, args_until_last, last_arg, 0) {
            None => None,
            Some(i) => Some(
                planned(
                    lbuffer,
                    rbuffer,
                    rules[i],
                    rules[i].outcome(args_until_last, last_arg)->0,
                ),
            ),
        }
    }
}

/// The rules that are tried on a line and found invalid. No rule is tried
/// where the last argument is empty.
pub open spec fn invalid_rules_tried(lbuffer: Seq<char>, rules: Seq<AbbrevView>) -> Seq<int> {
    let args = arguments(encode_utf8(lbuffer));
    if args.last().len() == 0 {
        Seq::empty()
    } else {
        invalid_rules(rules, args.drop_last(), args.last(), 0)
    }
}

/// Where the last argument is empty there is no plan, whatever the rules
/// are, and no rule is tried.
pub proof fn lemma_empty_last_argument(
    lbuffer: Seq<char>,
    rbuffer: Seq<char>,
    rules: Seq<AbbrevView>,
)
    requires
        arguments(encode_utf8(lbuffer)).last().len() == 0,
    ensures
        expansion(lbuffer, rbuffer, rules) is None,
        invalid_rules_tried(lbuffer, rules).len() == 0,
{
}

/// The last argument is empty exactly where the tokenizer stops between
/// arguments: where the segment is empty, or ends with a delimiter that no
/// quote and no backslash protects.
pub proof fn lemma_last_argument_empty(lbuffer: Seq<char>)
    ensures
        arguments(encode_utf8(lbuffer)).last().len() == 0 <==> scan(
            segment(encode_utf8(lbuffer)),
            segment(encode_utf8(lbuffer)).len() as int,
        ).state is Delimiter,
{
    let bytes = encode_utf8(lbuffer);
    let inner = segment(bytes);
    let last = tokens(inner).len() - 1;
    encode_utf8_valid_utf8(lbuffer);
    lemma_boundary_in_segment(bytes, 0);
    lemma_tokens_cover(inner);
    lemma_tokens_on_boundaries(inner);
    let piece = token_bytes(inner, last);
    assert(arguments(bytes).last() == decode_utf8(piece));
    if tokens(inner)[last].0 < tokens(inner)[last].1 {
        valid_utf8_split(inner, tokens(inner)[last].0);
        let tail = inner.subrange(tokens(inner)[last].0, inner.len() as int);
        assert(piece =~= tail);
        assert(valid_first_scalar(piece));
        assert(decode_utf8(piece).len() > 0);
    } else {
        assert(piece.len() == 0);
    }
}

/// Every plan replaces a range that lies inside the left buffer, and can
/// be written out.
pub proof fn lemma_expansion_range(lbuffer: Seq<char>, rbuffer: Seq<char>, rules: Seq<AbbrevView>)
    ensures
        expansion(lbuffer, rbuffer, rules) matches Some(plan) ==> 0
            <= plan.start_index_of_replacement <= plan.end_index_of_replacement <= encode_utf8(
            lbuffer,
        ).len() && plan.can_be_cut(),
{
    let bytes = encode_utf8(lbuffer);
    let args = arguments(bytes);
    let last_arg = args.last();
    let args_until_last = args.drop_last();
    lemma_tokens_cover(segment(bytes));
    if last_arg.len() != 0 {
        lemma_first_applying(rules, args_until_last, last_arg, 0);
        if first_applying(rules, args_until_last, last_arg, 0) is Some {
            let rule = rules[first_applying(rules, args_until_last, last_arg, 0)->0];
            let size = rule.outcome(args_until_last, last_arg)->0;
            lemma_context_size_bounds(rule.context.context, rule.context.global, args_until_last);
            lemma_range_valid(bytes, rule.function.operation, size);
            lemma_plan_can_be_cut(lbuffer, rbuffer, rule, size);
        }
    }
}

/// What expanding a line comes to.
#[derive(Debug)]
pub struct Expansion<'a> {
    /// The plan, if a rule applies.
    pub result: Option<ExpandResult<'a>>,
    /// The rules that could not be tested on the way.
    pub diagnostics: Vec<Diagnostic>,
}

/// Expands the abbreviation under the cursor, and reports the rules that
/// were tried in vain because their regular expression does not compile.
pub fn expand_with_diagnostics<'a>(args: &'a ExpandArgs, config: &'a Config) -> (r: Expansion<'a>)
    ensures
        match expansion(args@.lbuffer, args@.rbuffer, config@) {
            Some(plan) => r.result matches Some(result) && result@ == plan,
            None => r.result is None,
        },
        r.result matches Some(result) ==> result@.can_be_cut(),
        diagnosed(r.diagnostics@) == invalid_rules_tried(args@.lbuffer, config@),
        name_their_rules(r.diagnostics@, config@),
{
    let lbuffer = args.lbuffer.as_str();
    let rbuffer = args.rbuffer.as_str();
    let command = Command::parse(lbuffer);
    let count: usize = command.args.len();
    let last_arg: &str = command.args[count - 1];
    if last_arg.is_empty() {
        return Expansion { result: None, diagnostics: Vec::new() };
    }
    let args_until_last = slice_subrange(command.args.as_slice(), 0, count - 1);
    let search = config.search(args_until_last, last_arg);
    proof {
        let all = arguments(lbuffer.spec_bytes());
        assert(texts(command.args@) == all);
        assert(last_arg@ == texts(command.args@)[count - 1]);
        assert(texts(args_until_last@) =~= all.drop_last()) by {
            assert forall|k: int| 0 <= k < count - 1 implies texts(args_until_last@)[k]
                == all.drop_last()[k] by {
                assert(args_until_last@[k] == command.args@[k]);
                assert(texts(command.args@)[k] == command.args@[k]@);
            }
        }
        lemma_first_applying(config@, all.drop_last(), all.last(), 0);
        if first_applying(config@, all.drop_last(), all.last(), 0) is Some {
            let rule = config@[first_applying(config@, all.drop_last(), all.last(), 0)->0];
            lemma_context_size_bounds(rule.context.context, rule.context.global, all.drop_last());
        }
    }
    match search.found {
        None => Expansion { result: None, diagnostics: search.diagnostics },
        Some(found) => Expansion {
            result: Some(plan(command, rbuffer, found)),
            diagnostics: search.diagnostics,
        },
    }
}

/// Expands the abbreviation under the cursor.
pub fn expand<'a>(args: &'a ExpandArgs, config: &'a Config) -> (r: Option<ExpandResult<'a>>)
    ensures
        match expansion(args@.lbuffer, args@.rbuffer, config@) {
            Some(plan) => r matches Some(result) && result@ == plan,
            None => r is None,
        },
        r matches Some(result) ==> result@.can_be_cut(),
{
    expand_with_diagnostics(args, config).result
}

/// What the program puts out for a line.
#[derive(Debug)]
pub struct Output {
    /// The fragment for the shell to evaluate; empty where no rule applies.
    pub fragment: String,
    /// The rules that were tried and could not be tested.
    pub diagnostics: Vec<Diagnostic>,
}

/// Expands the abbreviation under the cursor and writes the plan out. Where
/// no rule applies nothing is written.
pub fn run(args: &ExpandArgs, config: &Config) -> (r: Output)
    ensures
        r.fragment@ == (match expansion(args@.lbuffer, args@.rbuffer, config@) {
            Some(plan) => fragment(plan),
            None => Seq::empty(),
        }),
        diagnosed(r.diagnostics@) == invalid_rules_tried(args@.lbuffer, config@),
        name_their_rules(r.diagnostics@, config@),
{
    let expansion = expand_with_diagnostics(args, config);
    let fragment = match &expansion.result {
        Some(plan) => render(plan),
        None => String::new(),
    };
    Output { fragment, diagnostics: expansion.diagnostics }
}

} // verus!
