//! A rule: the context in which it applies, the trigger that fires it, and
//! what it does to the line.

use crate::text::{
    chars_of, ends_with, eq, first_occurrence, first_offset, is_white_space, is_whitespace,
    lemma_first_offset, lemma_least_occurrence, occurs_at, occurs_in, skip_whitespace, split_once,
    starts_with, trim_start,
};
use vstd::prelude::*;
use vstd::string::StringExecFns;

verus! {

/// The arguments that must stand at the head of the command for a rule to
/// apply.
#[derive(Debug)]
pub struct Context {
    /// The arguments, separated by white space.
    pub context: String,
    /// Whether further arguments may stand between the context and the last
    /// argument.
    pub global: bool,
}

/// A context as a value: its text and its flag.
pub struct ContextView {
    pub context: Seq<char>,
    pub global: bool,
}

impl View for Context {
    type V = ContextView;

    open spec fn view(&self) -> ContextView {
        ContextView { context: self.context@, global: self.global }
    }
}

/// How many leading arguments a context took up.
#[derive(Debug, PartialEq)]
pub struct ContextMatchResult {
    pub context_size: usize,
}

/// The texts of a list of arguments.
pub open spec fn texts(args: Seq<&str>) -> Seq<Seq<char>> {
    Seq::new(args.len(), |i: int| args[i]@)
}

/// `context` begins with `word`, and the word ends there: what follows it is
/// white space or nothing.
///
/// The word is compared as it stands. An argument that holds white space can
/// therefore stand for several words of the context, while the context can
/// never stand for an argument cut short.
pub open spec fn begins_with_word(context: Seq<char>, word: Seq<char>) -> bool {
    word.is_prefix_of(context) && (context.len() == word.len() || is_white_space(
        context[word.len() as int],
    ))
}

/// The number of arguments, counted from `from`, that a context takes up
/// once the arguments before `from` have been taken off it. `context` begins
/// with no white space. `None` where an argument is missing or is not the
/// next word of the context.
pub open spec fn covers(context: Seq<char>, args: Seq<Seq<char>>, from: int) -> Option<int>
    decreases args.len() - from,
{
    if context.len() == 0 {
        Some(from)
    } else if from < 0 || from >= args.len() {
        None
    } else if begins_with_word(context, args[from]) {
        covers(trim_start(context.skip(args[from].len() as int)), args, from + 1)
    } else {
        None
    }
}

/// The number of leading arguments that a context takes up, if it matches
/// the arguments before the last one. A context that is not global must take
/// them all up.
pub open spec fn context_size(context: Seq<char>, global: bool, args: Seq<Seq<char>>) -> Option<
    int,
> {
    match covers(trim_start(context), args, 0) {
        Some(size) => if global || size == args.len() {
            Some(size)
        } else {
            None
        },
        None => None,
    }
}

impl ContextView {
    /// The number of leading arguments that the context takes up, if it
    /// matches the arguments before the last one.
    pub open spec fn size(self, args: Seq<Seq<char>>) -> Option<int> {
        context_size(self.context, self.global, args)
    }
}

/// A context takes up arguments that are there: no more than there are.
pub proof fn lemma_covers_bounds(context: Seq<char>, args: Seq<Seq<char>>, from: int)
    requires
        0 <= from <= args.len(),
    ensures
        covers(context, args, from) matches Some(size) ==> from <= size <= args.len(),
    decreases args.len() - from,
{
    if context.len() > 0 && from < args.len() && begins_with_word(context, args[from]) {
        lemma_covers_bounds(
            trim_start(context.skip(args[from].len() as int)),
            args,
            from + 1,
        );
    }
}

/// The size of a context that matches is a number of arguments that are
/// there, and for a context that is not global it is their number.
pub proof fn lemma_context_size_bounds(context: Seq<char>, global: bool, args: Seq<Seq<char>>)
    ensures
        context_size(context, global, args) matches Some(size) ==> 0 <= size <= args.len() && (
        !global ==> size == args.len()),
{
    lemma_covers_bounds(trim_start(context), args, 0);
}

/// A context that holds nothing but white space takes up no argument.
/// Where it is global it matches whatever the arguments are; where it is
/// not, it matches only where no argument stands before the last one.
pub proof fn lemma_blank_context(context: Seq<char>, global: bool, args: Seq<Seq<char>>)
    requires
        trim_start(context).len() == 0,
    ensures
        global ==> context_size(context, global, args) == Some(0int),
        !global ==> context_size(context, global, args) == (if args.len() == 0 {
            Some(0int)
        } else {
            None
        }),
{
}

/// The empty context takes up no argument. Where it is global it matches
/// whatever the arguments are; where it is not, it matches only where the
/// last argument is the only one.
pub proof fn lemma_empty_context(global: bool, args: Seq<Seq<char>>)
    ensures
        global ==> context_size(Seq::empty(), global, args) == Some(0int),
        !global ==> context_size(Seq::empty(), global, args) == (if args.len() == 0 {
            Some(0int)
        } else {
            None
        }),
{
    lemma_blank_context(Seq::empty(), global, args);
}

/// The first word of a text: what stands before its first white space.
pub open spec fn first_word(s: Seq<char>) -> Seq<char>
    decreases s.len(),
{
    if s.len() == 0 || is_white_space(s[0]) {
        Seq::empty()
    } else {
        seq![s[0]] + first_word(s.drop_first())
    }
}

/// Whether a text holds no white space.
pub open spec fn is_one_word(s: Seq<char>) -> bool {
    forall|i: int| 0 <= i < s.len() ==> !is_white_space(#[trigger] s[i])
}

/// A word with which a text begins, and which ends there, is its first
/// word.
proof fn lemma_first_word(context: Seq<char>, word: Seq<char>)
    requires
        begins_with_word(context, word),
        is_one_word(word),
    ensures
        first_word(context) == word,
    decreases word.len(),
{
    if word.len() == 0 {
        assert(first_word(context) =~= word);
    } else {
        let rest = context.drop_first();
        let tail = word.drop_first();
        assert(context[0] == context.subrange(0, word.len() as int)[0]);
        assert(tail =~= rest.subrange(0, tail.len() as int));
        assert(rest.len() > tail.len() ==> rest[tail.len() as int] == context[word.len() as int]);
        assert forall|i: int| 0 <= i < tail.len() implies !is_white_space(#[trigger] tail[i]) by {
            assert(tail[i] == word[i + 1]);
        }
        lemma_first_word(rest, tail);
        assert(seq![word[0]] + tail =~= word);
    }
}

/// Words are matched whole. Where a context that holds a word matches,
/// there is a first argument, the context begins with it, and it ends where
/// a word of the context ends; so a first argument without white space is
/// the first word of the context, and neither more nor less of it.
pub proof fn lemma_word_boundary(context: Seq<char>, global: bool, args: Seq<Seq<char>>)
    requires
        context_size(context, global, args) is Some,
        trim_start(context).len() > 0,
    ensures
        args.len() > 0,
        begins_with_word(trim_start(context), args[0]),
        is_one_word(args[0]) ==> args[0] == first_word(trim_start(context)),
{
    if is_one_word(args[0]) {
        lemma_first_word(trim_start(context), args[0]);
    }
}

/// Whether `word` stands in `s` at offset `at`.
fn word_at(s: &Vec<char>, at: usize, word: &Vec<char>) -> (r: bool)
    requires
        at <= s@.len(),
    ensures
        r == word@.is_prefix_of(s@.skip(at as int)),
{
    let n: usize = s.len();
    let w: usize = word.len();
    if w > n - at {
        return false;
    }
    let mut i: usize = 0;
    while i < w
        invariant
            n == s@.len(),
            w == word@.len(),
            at + w <= n,
            i <= w,
            forall|j: int| 0 <= j < i ==> s@[at + j] == word@[j],
        decreases w - i,
    {
        if s[at + i] != word[i] {
            assert(s@.skip(at as int).subrange(0, w as int)[i as int] != word@[i as int]);
            return false;
        }
        i = i + 1;
    }
    assert(s@.skip(at as int).subrange(0, w as int) =~= word@);
    true
}

impl Context {
    /// Matches the context against the arguments before the last one.
    pub fn matches(&self, args_until_last: &[&str]) -> (r: Option<ContextMatchResult>)
        ensures
            match self@.size(texts(args_until_last@)) {
                Some(size) => r matches Some(m) && m.context_size == size,
                None => r is None,
            },
    {
        let context = chars_of(self.context.as_str());
        let ghost args = texts(args_until_last@);
        let n: usize = context.len();
        let count: usize = args_until_last.len();
        let mut at: usize = skip_whitespace(&context, 0);
        let mut i: usize = 0;
        assert(context@.skip(0) =~= context@);
        while at < n
            invariant
                n == context@.len(),
                count == args_until_last@.len(),
                args == texts(args_until_last@),
                at <= n,
                i <= count,
                covers(trim_start(self.context@), args, 0) == covers(
                    context@.skip(at as int),
                    args,
                    i as int,
                ),
            decreases count - i,
        {
            if i >= count {
                return None;
            }
            let word = chars_of(args_until_last[i]);
            assert(word@ == args[i as int]);
            if !word_at(&context, at, &word) {
                return None;
            }
            let after: usize = at + word.len();
            if after < n && !is_whitespace(context[after]) {
                assert(context@.skip(at as int)[word@.len() as int] == context@[after as int]);
                return None;
            }
            proof {
                if after < n {
                    assert(context@.skip(at as int)[word@.len() as int] == context@[after as int]);
                }
                assert(context@.skip(at as int).skip(word@.len() as int) =~= context@.skip(
                    after as int,
                ));
            }
            at = skip_whitespace(&context, after);
            i = i + 1;
        }
        if self.global || i == count {
            Some(ContextMatchResult { context_size: i })
        } else {
            None
        }
    }
}

/// What fires a rule: a test on the last argument.
#[derive(Debug)]
pub enum Trigger {
    /// The last argument is this text.
    AbbrString(String),
    /// The last argument ends with this text.
    AbbrSuffix(String),
    /// The last argument begins with this text.
    AbbrPrefix(String),
    /// This regular expression matches somewhere in the last argument.
    AbbrRegex(String),
}

/// A trigger as a value.
pub enum TriggerView {
    AbbrString(Seq<char>),
    AbbrSuffix(Seq<char>),
    AbbrPrefix(Seq<char>),
    AbbrRegex(Seq<char>),
}

impl View for Trigger {
    type V = TriggerView;

    open spec fn view(&self) -> TriggerView {
        match self {
            Trigger::AbbrString(abbr) => TriggerView::AbbrString(abbr@),
            Trigger::AbbrSuffix(suffix) => TriggerView::AbbrSuffix(suffix@),
            Trigger::AbbrPrefix(prefix) => TriggerView::AbbrPrefix(prefix@),
            Trigger::AbbrRegex(regex) => TriggerView::AbbrRegex(regex@),
        }
    }
}

/// Whether `regex::Regex::new` accepts `pattern`.
pub uninterp spec fn regex_compiles(pattern: Seq<char>) -> bool;

/// Whether `regex::Regex::is_match` finds a match anywhere in `haystack`,
/// for the regular expression compiled from `pattern`.
pub uninterp spec fn regex_is_match(pattern: Seq<char>, haystack: Seq<char>) -> bool;

impl TriggerView {
    /// The text that the trigger was configured with.
    pub open spec fn abbr(self) -> Seq<char> {
        match self {
            TriggerView::AbbrString(abbr) => abbr,
            TriggerView::AbbrSuffix(suffix) => suffix,
            TriggerView::AbbrPrefix(prefix) => prefix,
            TriggerView::AbbrRegex(regex) => regex,
        }
    }

    /// Whether the trigger can be tested at all: a regular expression has to
    /// compile.
    pub open spec fn is_valid(self) -> bool {
        self matches TriggerView::AbbrRegex(regex) ==> regex_compiles(regex)
    }

    /// Whether a trigger that can be tested fires on `last_arg`.
    pub open spec fn fires(self, last_arg: Seq<char>) -> bool {
        match self {
            TriggerView::AbbrString(abbr) => last_arg == abbr,
            TriggerView::AbbrSuffix(suffix) => suffix.is_suffix_of(last_arg),
            TriggerView::AbbrPrefix(prefix) => prefix.is_prefix_of(last_arg),
            TriggerView::AbbrRegex(regex) => regex_is_match(regex, last_arg),
        }
    }
}

/// `regex::Error`, the error of `regex::Regex::new`. Nothing is known of
/// what a value of it holds.
#[verifier::external_type_specification]
#[verifier::external_body]
pub struct ExRegexError(regex::Error);

/// Why a trigger could not be tested.
#[derive(Debug, PartialEq)]
pub enum TriggerError {
    /// The regular expression did not compile; the text says why.
    InvalidRegex(String),
}

/// Compiles `pattern` with `regex::Regex::new` and, if that succeeds, tests
/// `haystack` with `regex::Regex::is_match`. The contract claims that the
/// call fails exactly when the pattern does not compile, and that it
/// otherwise returns what `is_match` finds; it says nothing of which
/// patterns compile or match.
#[verifier::external_body]
fn regex_match(pattern: &str, haystack: &str) -> (r: Result<bool, regex::Error>)
    ensures
        r is Ok <==> regex_compiles(pattern@),
        r matches Ok(found) ==> found == regex_is_match(pattern@, haystack@),
{
    match regex::Regex::new(pattern) {
        Ok(compiled) => Ok(compiled.is_match(haystack)),
        Err(err) => Err(err),
    }
}

/// The message of a `regex::Error`, as its `Display` impl writes it. Nothing
/// is claimed of the text.
#[verifier::external_body]
fn regex_error_text(err: &regex::Error) -> String {
    format!("{}", err)
}

impl Trigger {
    /// The text that the trigger was configured with.
    pub fn get_abbr(&self) -> (r: &str)
        ensures
            r@ == self@.abbr(),
    {
        match self {
            Trigger::AbbrString(abbr) => abbr.as_str(),
            Trigger::AbbrSuffix(suffix) => suffix.as_str(),
            Trigger::AbbrPrefix(prefix) => prefix.as_str(),
            Trigger::AbbrRegex(regex) => regex.as_str(),
        }
    }

    /// Tests the trigger on the last argument. Only a regular expression
    /// that does not compile gives an error.
    pub fn matches(&self, last_arg: &str) -> (r: Result<bool, TriggerError>)
        ensures
            r is Ok <==> self@.is_valid(),
            r matches Ok(fired) ==> fired == self@.fires(last_arg@),
    {
        match self {
            Trigger::AbbrString(abbr) => Ok(eq(last_arg, abbr.as_str())),
            Trigger::AbbrSuffix(suffix) => Ok(ends_with(last_arg, suffix.as_str())),
            Trigger::AbbrPrefix(prefix) => Ok(starts_with(last_arg, prefix.as_str())),
            Trigger::AbbrRegex(regex) => match regex_match(regex.as_str(), last_arg) {
                Ok(found) => Ok(found),
                Err(err) => Err(TriggerError::InvalidRegex(regex_error_text(&err))),
            },
        }
    }
}

/// What a rule does to the line, with the snippet that it puts there.
#[derive(Debug, PartialEq)]
pub enum Operation {
    /// Replaces the last argument.
    ReplaceSelf(String),
    /// Replaces the first argument.
    ReplaceFirst(String),
    /// Replaces the arguments that the context took up.
    ReplaceContext(String),
    /// Replaces the whole command.
    ReplaceAll(String),
    /// Adds the snippet after the last argument.
    Append(String),
    /// Adds the snippet before the first argument.
    Prepend(String),
}

/// An operation as a value.
pub enum OperationView {
    ReplaceSelf(Seq<char>),
    ReplaceFirst(Seq<char>),
    ReplaceContext(Seq<char>),
    ReplaceAll(Seq<char>),
    Append(Seq<char>),
    Prepend(Seq<char>),
}

impl View for Operation {
    type V = OperationView;

    open spec fn view(&self) -> OperationView {
        match self {
            Operation::ReplaceSelf(snippet) => OperationView::ReplaceSelf(snippet@),
            Operation::ReplaceFirst(snippet) => OperationView::ReplaceFirst(snippet@),
            Operation::ReplaceContext(snippet) => OperationView::ReplaceContext(snippet@),
            Operation::ReplaceAll(snippet) => OperationView::ReplaceAll(snippet@),
            Operation::Append(snippet) => OperationView::Append(snippet@),
            Operation::Prepend(snippet) => OperationView::Prepend(snippet@),
        }
    }
}

impl OperationView {
    /// The snippet that the operation carries.
    pub open spec fn snippet(self) -> Seq<char> {
        match self {
            OperationView::ReplaceSelf(snippet) => snippet,
            OperationView::ReplaceFirst(snippet) => snippet,
            OperationView::ReplaceContext(snippet) => snippet,
            OperationView::ReplaceAll(snippet) => snippet,
            OperationView::Append(snippet) => snippet,
            OperationView::Prepend(snippet) => snippet,
        }
    }
}

impl Operation {
    /// The snippet that the operation carries.
    pub fn snippet(&self) -> (r: &str)
        ensures
            r@ == self@.snippet(),
    {
        match self {
            Operation::ReplaceSelf(snippet) => snippet.as_str(),
            Operation::ReplaceFirst(snippet) => snippet.as_str(),
            Operation::ReplaceContext(snippet) => snippet.as_str(),
            Operation::ReplaceAll(snippet) => snippet.as_str(),
            Operation::Append(snippet) => snippet.as_str(),
            Operation::Prepend(snippet) => snippet.as_str(),
        }
    }
}

/// A snippet as it goes into the line: whole, or in two halves with the
/// cursor between them.
#[derive(Debug, PartialEq)]
pub enum Snippet<'a> {
    Simple(&'a str),
    Divided(&'a str, &'a str),
}

/// A snippet in its form, as a value.
pub enum SnippetView {
    Simple(Seq<char>),
    Divided(Seq<char>, Seq<char>),
}

impl<'a> View for Snippet<'a> {
    type V = SnippetView;

    open spec fn view(&self) -> SnippetView {
        match self {
            Snippet::Simple(whole) => SnippetView::Simple(whole@),
            Snippet::Divided(before, after) => SnippetView::Divided(before@, after@),
        }
    }
}

/// The form of a snippet. Where a cursor marker is given and occurs in the
/// snippet, the snippet is cut around the first occurrence and the marker
/// is dropped; otherwise it stays whole. An empty marker occurs at the very
/// start.
pub open spec fn snippet_form(snippet: Seq<char>, cursor: Option<Seq<char>>) -> SnippetView {
    match cursor {
        Some(marker) => if occurs_in(snippet, marker) {
            let at = first_offset(snippet, marker);
            SnippetView::Divided(snippet.take(at), snippet.skip(at + marker.len()))
        } else {
            SnippetView::Simple(snippet)
        },
        None => SnippetView::Simple(snippet),
    }
}

/// Cutting at the cursor loses nothing but the marker. Where the marker
/// occurs in the snippet, the two halves with the marker between them make
/// up the snippet, and the marker does not occur earlier than it was cut
/// out; where it does not occur, or none is given, the snippet stays
/// whole.
pub proof fn lemma_snippet_form(snippet: Seq<char>, cursor: Option<Seq<char>>)
    ensures
        match cursor {
            Some(marker) => if occurs_in(snippet, marker) {
                snippet_form(snippet, cursor) matches SnippetView::Divided(before, after)
                    && before + marker + after == snippet && first_occurrence(
                    snippet,
                    marker,
                    before.len() as int,
                )
            } else {
                snippet_form(snippet, cursor) == SnippetView::Simple(snippet)
            },
            None => snippet_form(snippet, cursor) == SnippetView::Simple(snippet),
        },
{
    if cursor is Some && occurs_in(snippet, cursor->0) {
        let marker = cursor->0;
        let some = choose|at: int| occurs_at(snippet, marker, at);
        lemma_least_occurrence(snippet, marker, some);
        let at = first_offset(snippet, marker);
        assert(first_occurrence(snippet, marker, at));
        assert(snippet.take(at) + marker + snippet.skip(at + marker.len()) =~= snippet);
    }
}

/// The text of an optional string.
pub open spec fn optional_text(s: Option<&str>) -> Option<Seq<char>> {
    match s {
        Some(s) => Some(s@),
        None => None,
    }
}

impl<'a> Snippet<'a> {
    fn new_impl(snippet_string: &'a str, cursor: Option<&str>) -> (r: Option<Snippet<'a>>)
        ensures
            match snippet_form(snippet_string@, optional_text(cursor)) {
                SnippetView::Divided(before, after) => r matches Some(s) && s@
                    == SnippetView::Divided(before, after),
                SnippetView::Simple(_) => r is None,
            },
            r matches Some(Snippet::Divided(before, after)) ==> cursor matches Some(marker)
                && before@ + marker@ + after@ == snippet_string@,
    {
        match cursor {
            None => None,
            Some(marker) => match split_once(snippet_string, marker) {
                None => None,
                Some((first, second)) => {
                    proof {
                        lemma_first_offset(snippet_string@, marker@, first@.len() as int);
                    }
                    Some(Snippet::Divided(first, second))
                },
            },
        }
    }

    /// Puts a snippet into its form.
    pub fn new(snippet_string: &'a str, cursor: Option<&str>) -> (r: Self)
        ensures
            r@ == snippet_form(snippet_string@, optional_text(cursor)),
            r matches Snippet::Divided(before, after) ==> cursor matches Some(marker) && before@
                + marker@ + after@ == snippet_string@,
    {
        match Snippet::new_impl(snippet_string, cursor) {
            Some(divided) => divided,
            None => Snippet::Simple(snippet_string),
        }
    }
}

/// What a rule does once it has fired.
#[derive(Debug)]
pub struct Function {
    pub operation: Operation,
    /// Where the cursor goes: the first occurrence of this text in the
    /// snippet.
    pub cursor: Option<String>,
    /// Whether the shell expands parameters and commands in the snippet.
    pub evaluate: bool,
    /// Whether the shell redraws the prompt afterwards.
    pub redraw: bool,
}

/// A function as a value.
pub struct FunctionView {
    pub operation: OperationView,
    pub cursor: Option<Seq<char>>,
    pub evaluate: bool,
    pub redraw: bool,
}

impl View for Function {
    type V = FunctionView;

    open spec fn view(&self) -> FunctionView {
        FunctionView {
            operation: self.operation@,
            cursor: match self.cursor {
                Some(marker) => Some(marker@),
                None => None,
            },
            evaluate: self.evaluate,
            redraw: self.redraw,
        }
    }
}

impl FunctionView {
    /// The form in which the snippet goes into the line.
    pub open spec fn snippet(self) -> SnippetView {
        snippet_form(self.operation.snippet(), self.cursor)
    }
}

impl Function {
    /// The marker of the cursor, if one is set.
    pub fn cursor(&self) -> (r: Option<&str>)
        ensures
            optional_text(r) == self@.cursor,
    {
        match &self.cursor {
            Some(marker) => Some(marker.as_str()),
            None => None,
        }
    }

    /// The form in which the snippet goes into the line.
    pub fn get_snippet(&self) -> (r: Snippet<'_>)
        ensures
            r@ == self@.snippet(),
    {
        Snippet::new(self.operation.snippet(), self.cursor())
    }
}

/// A configured abbreviation.
#[derive(Debug)]
pub struct Abbrev {
    /// A name for messages.
    pub name: Option<String>,
    pub context: Context,
    pub trigger: Trigger,
    pub function: Function,
}

/// A rule as a value.
pub struct AbbrevView {
    pub name: Option<Seq<char>>,
    pub context: ContextView,
    pub trigger: TriggerView,
    pub function: FunctionView,
}

impl View for Abbrev {
    type V = AbbrevView;

    open spec fn view(&self) -> AbbrevView {
        AbbrevView {
            name: match self.name {
                Some(name) => Some(name@),
                None => None,
            },
            context: self.context@,
            trigger: self.trigger@,
            function: self.function@,
        }
    }
}

/// What comes of trying one rule on a command.
pub enum Outcome {
    /// The rule applies; its context took up this many arguments.
    Matched(int),
    /// The rule does not apply.
    Unmatched,
    /// The context matches, but the trigger cannot be tested.
    Invalid,
}

impl AbbrevView {
    /// The name by which messages call the rule: its name, or else its
    /// snippet.
    pub open spec fn display_name(self) -> Seq<char> {
        match self.name {
            Some(name) => name,
            None => self.function.operation.snippet(),
        }
    }

    /// What comes of trying the rule. The context is matched first, and the
    /// trigger is tested only where the context matches.
    pub open spec fn outcome(
        self,
        args_until_last: Seq<Seq<char>>,
        last_arg: Seq<char>,
    ) -> Outcome {
        match self.context.size(args_until_last) {
            None => Outcome::Unmatched,
            Some(size) => if !self.trigger.is_valid() {
                Outcome::Invalid
            } else if self.trigger.fires(last_arg) {
                Outcome::Matched(size)
            } else {
                Outcome::Unmatched
            },
        }
    }

    /// Whether the rule applies.
    pub open spec fn applies(self, args_until_last: Seq<Seq<char>>, last_arg: Seq<char>) -> bool {
        self.outcome(args_until_last, last_arg) is Matched
    }
}

/// The rule that applies, and the number of arguments that its context took
/// up.
#[derive(Debug)]
pub struct MatchResult<'a> {
    pub abbrev: &'a Abbrev,
    pub context_size: usize,
}

/// A match as a value.
pub struct MatchResultView {
    pub abbrev: AbbrevView,
    pub context_size: int,
}

impl<'a> View for MatchResult<'a> {
    type V = MatchResultView;

    open spec fn view(&self) -> MatchResultView {
        MatchResultView { abbrev: self.abbrev@, context_size: self.context_size as int }
    }
}

/// What came of trying one rule on a command.
#[derive(Debug)]
pub enum Evaluation<'a> {
    Matched(MatchResult<'a>),
    Unmatched,
    Invalid(TriggerError),
}

impl<'a> View for Evaluation<'a> {
    type V = Outcome;

    open spec fn view(&self) -> Outcome {
        match self {
            Evaluation::Matched(found) => Outcome::Matched(found.context_size as int),
            Evaluation::Unmatched => Outcome::Unmatched,
            Evaluation::Invalid(_) => Outcome::Invalid,
        }
    }
}

impl TriggerError {
    /// Why the trigger could not be tested.
    pub open spec fn reason(&self) -> Seq<char> {
        match self {
            TriggerError::InvalidRegex(reason) => reason@,
        }
    }
}

/// How the message begins that reports a trigger that cannot be tested: it
/// names the rule.
pub open spec fn diagnostic_head(name: Seq<char>) -> Seq<char> {
    "invalid regex in abbrev '"@ + name + "': "@
}

/// The message that reports a trigger that cannot be tested.
pub open spec fn diagnostic_text(name: Seq<char>, reason: Seq<char>) -> Seq<char> {
    diagnostic_head(name) + reason
}

impl Abbrev {
    /// What the rule comes to, given how many arguments its context took up
    /// and what the test of its trigger returned.
    pub fn conclude(&self, context_size: usize, fired: Result<bool, TriggerError>) -> (r:
        Evaluation<'_>)
        ensures
            match fired {
                Ok(true) => r matches Evaluation::Matched(found) && found.abbrev == self
                    && found.context_size == context_size,
                Ok(false) => r is Unmatched,
                Err(err) => r == Evaluation::Invalid(err),
            },
    {
        match fired {
            Ok(true) => Evaluation::Matched(MatchResult { abbrev: self, context_size }),
            Ok(false) => Evaluation::Unmatched,
            Err(err) => Evaluation::Invalid(err),
        }
    }

    /// Tries the rule on a command: the context first, then the trigger.
    pub fn evaluate(&self, args_until_last: &[&str], last_arg: &str) -> (r: Evaluation<'_>)
        ensures
            r@ == self@.outcome(texts(args_until_last@), last_arg@),
            r matches Evaluation::Matched(found) ==> found.abbrev == self,
    {
        match self.context.matches(args_until_last) {
            None => Evaluation::Unmatched,
            Some(context) => self.conclude(context.context_size, self.trigger.matches(last_arg)),
        }
    }

    /// Tries the rule on a command. A rule whose trigger cannot be tested
    /// does not apply.
    pub fn matches(&self, args_until_last: &[&str], last_arg: &str) -> (r: Option<
        MatchResult<'_>,
    >)
        ensures
            match self@.outcome(texts(args_until_last@), last_arg@) {
                Outcome::Matched(size) => r matches Some(found) && found.abbrev == self
                    && found.context_size == size,
                _ => r is None,
            },
    {
        match self.evaluate(args_until_last, last_arg) {
            Evaluation::Matched(found) => Some(found),
            _ => None,
        }
    }

    /// The name by which messages call the rule: its name, or else its
    /// snippet.
    #[inline]
    pub fn get_name(&self) -> (r: &str)
        ensures
            r@ == self@.display_name(),
    {
        match &self.name {
            Some(name) => name.as_str(),
            None => self.function.operation.snippet(),
        }
    }

    /// The message that reports that the trigger of this rule cannot be
    /// tested.
    pub fn diagnostic(&self, err: &TriggerError) -> (r: String)
        ensures
            r@ == diagnostic_text(self@.display_name(), err.reason()),
    {
        let mut text = String::from_str("invalid regex in abbrev '");
        text.append(self.get_name());
        text.append("': ");
        match err {
            TriggerError::InvalidRegex(reason) => text.append(reason.as_str()),
        }
        text
    }
}

/// The value of a flag that the configuration leaves out.
pub fn default_as_false() -> (r: bool)
    ensures
        !r,
{
    false
}

} // verus!
