//! The argument tokenizer: a small state machine over the bytes of a command
//! that honours quotes and backslashes, and never looks at `$`, `*` or any
//! other shell metacharacter.
//!
//! It works on bytes. Every byte that the machine singles out is ASCII, and
//! no byte of a multi-byte character is, so a multi-byte character is
//! consumed as one ordinary character and the arguments begin and end
//! between characters; the module `characters` proves it.

use crate::expand::characters::{lemma_tokens_by_character, word_tokens};
use crate::text::{lemma_boundary_after_ascii, slice};
use vstd::prelude::*;
use vstd::string::StringSliceAdditionalSpecFns;
use vstd::utf8::*;

verus! {

pub const SPACE: u8 = 0x20;

pub const TAB: u8 = 0x09;

pub const NEWLINE: u8 = 0x0a;

pub const BACKSLASH: u8 = 0x5c;

pub const SINGLE_QUOTE: u8 = 0x27;

pub const DOUBLE_QUOTE: u8 = 0x22;

/// Where the tokenizer stands between two bytes.
#[derive(Clone, Copy, Debug, PartialEq, Eq)]
pub enum SplitState {
    /// Between arguments.
    Delimiter,
    /// Just after a backslash that followed a delimiter.
    Backslash,
    /// Inside an argument, outside quotes.
    InWord { is_escaped: bool },
    /// Inside a quoted stretch of an argument, opened by `quot`.
    InQuot { quot: u8, is_escaped: bool },
}

impl Default for SplitState {
    fn default() -> (r: Self)
        ensures
            r == SplitState::Delimiter,
    {
        SplitState::Delimiter
    }
}

/// The bytes that separate arguments: space, tab and newline.
pub open spec fn is_delimiter(b: u8) -> bool {
    b == SPACE || b == TAB || b == NEWLINE
}

/// The bytes that open a quoted stretch.
pub open spec fn is_quote(b: u8) -> bool {
    b == SINGLE_QUOTE || b == DOUBLE_QUOTE
}

/// The transition function of the tokenizer.
pub open spec fn next_state(state: SplitState, b: u8) -> SplitState {
    match state {
        SplitState::Delimiter => if b == BACKSLASH {
            SplitState::Backslash
        } else if is_quote(b) {
            SplitState::InQuot { quot: b, is_escaped: false }
        } else if is_delimiter(b) {
            SplitState::Delimiter
        } else {
            SplitState::InWord { is_escaped: false }
        },
        SplitState::InWord { is_escaped: false } => if b == BACKSLASH {
            SplitState::InWord { is_escaped: true }
        } else if is_quote(b) {
            SplitState::InQuot { quot: b, is_escaped: false }
        } else if is_delimiter(b) {
            SplitState::Delimiter
        } else {
            SplitState::InWord { is_escaped: false }
        },
        SplitState::InWord { is_escaped: true } => SplitState::InWord { is_escaped: false },
        SplitState::InQuot { quot, is_escaped: false } => if b == quot {
            SplitState::InWord { is_escaped: false }
        } else if b == BACKSLASH {
            SplitState::InQuot { quot, is_escaped: true }
        } else {
            SplitState::InQuot { quot, is_escaped: false }
        },
        SplitState::InQuot { quot, is_escaped: true } => SplitState::InQuot {
            quot,
            is_escaped: false,
        },
        SplitState::Backslash => if b == NEWLINE {
            SplitState::Delimiter
        } else {
            SplitState::InWord { is_escaped: false }
        },
    }
}

/// A byte that starts an argument: any byte but a delimiter, met between
/// arguments.
pub open spec fn opens_token(state: SplitState, b: u8) -> bool {
    state is Delimiter && !is_delimiter(b)
}

/// A byte that ends an argument: a delimiter met in a word, outside quotes
/// and not escaped.
pub open spec fn closes_token(state: SplitState, b: u8) -> bool {
    state == (SplitState::InWord { is_escaped: false }) && is_delimiter(b)
}

/// What the tokenizer knows after some bytes: its state, where the argument
/// under way began, and the arguments closed so far as pairs of offsets.
pub struct Scan {
    pub state: SplitState,
    pub start: int,
    pub spans: Seq<(int, int)>,
}

/// The tokenizer after one more byte `b`, found at offset `at`.
pub open spec fn step(s: Scan, at: int, b: u8) -> Scan {
    Scan {
        state: next_state(s.state, b),
        start: if opens_token(s.state, b) {
            at
        } else {
            s.start
        },
        spans: if closes_token(s.state, b) {
            s.spans.push((s.start, at))
        } else {
            s.spans
        },
    }
}

/// The tokenizer after the first `n` bytes.
pub open spec fn scan(bytes: Seq<u8>, n: int) -> Scan
    decreases n,
{
    if n <= 0 {
        Scan { state: SplitState::Delimiter, start: 0, spans: Seq::empty() }
    } else {
        step(scan(bytes, n - 1), n - 1, bytes[n - 1])
    }
}

/// The arguments of a command, each as the offsets of its first byte and of
/// the byte after its last. At the end of the input the argument under way
/// is closed; between arguments an empty one is added there, so the last
/// pair is always the argument that is being typed.
pub open spec fn tokens(bytes: Seq<u8>) -> Seq<(int, int)> {
    let s = scan(bytes, bytes.len() as int);
    let n = bytes.len() as int;
    if s.state is Delimiter {
        s.spans.push((n, n))
    } else {
        s.spans.push((s.start, n))
    }
}

/// The text of the `i`-th argument.
pub open spec fn token_bytes(bytes: Seq<u8>, i: int) -> Seq<u8> {
    bytes.subrange(tokens(bytes)[i].0, tokens(bytes)[i].1)
}

/// How the arguments closed after `n` bytes lie in the input: each one is
/// not empty and ends at a delimiter, they follow one another without
/// touching, and the one under way begins after them all.
spec fn scan_ordered(bytes: Seq<u8>, n: int) -> bool {
    let s = scan(bytes, n);
    &&& 0 <= s.start <= n
    &&& (!(s.state is Delimiter) ==> s.start < n)
    &&& forall|i: int|
        0 <= i < s.spans.len() ==> 0 <= (#[trigger] s.spans[i]).0 < s.spans[i].1 < n
            && is_delimiter(bytes[s.spans[i].1])
    &&& forall|i: int, j: int|
        0 <= i < j < s.spans.len() ==> (#[trigger] s.spans[i]).1 < (#[trigger] s.spans[j]).0
    &&& (!(s.state is Delimiter) ==> forall|i: int|
        0 <= i < s.spans.len() ==> (#[trigger] s.spans[i]).1 < s.start)
}

/// The arguments closed so far lie in order, whatever the input is.
proof fn lemma_scan_ordered(bytes: Seq<u8>, n: int)
    requires
        0 <= n <= bytes.len(),
    ensures
        scan_ordered(bytes, n),
    decreases n,
{
    if n > 0 {
        lemma_scan_ordered(bytes, n - 1);
        let p = scan(bytes, n - 1);
        let s = scan(bytes, n);
        let b = bytes[n - 1];
        assert(s == step(p, n - 1, b));
        if closes_token(p.state, b) {
            assert forall|i: int| 0 <= i < s.spans.len() implies 0 <= (#[trigger] s.spans[i]).0
                < s.spans[i].1 < n && is_delimiter(bytes[s.spans[i].1]) by {
                if i < p.spans.len() {
                    assert(s.spans[i] == p.spans[i]);
                }
            }
            assert forall|i: int, j: int| 0 <= i < j < s.spans.len() implies (
            #[trigger] s.spans[i]).1 < (#[trigger] s.spans[j]).0 by {
                assert(s.spans[i] == p.spans[i]);
                if j < p.spans.len() {
                    assert(s.spans[j] == p.spans[j]);
                }
            }
        }
    }
}

/// How the tokenizer lies among the characters of well-formed text after
/// `n` bytes: the arguments closed so far and the one under way begin and
/// end between characters.
spec fn scan_on_boundaries(bytes: Seq<u8>, n: int) -> bool {
    let s = scan(bytes, n);
    &&& (s.state is Delimiter ==> is_char_boundary(bytes, n))
    &&& (!(s.state is Delimiter) ==> is_char_boundary(bytes, s.start))
    &&& forall|i: int|
        0 <= i < s.spans.len() ==> is_char_boundary(bytes, (#[trigger] s.spans[i]).0)
            && is_char_boundary(bytes, s.spans[i].1)
}

/// The tokenizer never stops inside a character of well-formed text.
proof fn lemma_scan_on_boundaries(bytes: Seq<u8>, n: int)
    requires
        valid_utf8(bytes),
        0 <= n <= bytes.len(),
    ensures
        scan_on_boundaries(bytes, n),
    decreases n,
{
    if n > 0 {
        lemma_scan_on_boundaries(bytes, n - 1);
        let p = scan(bytes, n - 1);
        let s = scan(bytes, n);
        let b = bytes[n - 1];
        assert(s == step(p, n - 1, b));
        if s.state is Delimiter {
            assert(b <= 0x7f);
            lemma_boundary_after_ascii(bytes, n - 1);
        }
        if closes_token(p.state, b) {
            lemma_boundary_after_ascii(bytes, n - 1);
            assert forall|i: int| 0 <= i < s.spans.len() implies is_char_boundary(
                bytes,
                (#[trigger] s.spans[i]).0,
            ) && is_char_boundary(bytes, s.spans[i].1) by {
                if i < p.spans.len() {
                    assert(s.spans[i] == p.spans[i]);
                }
            }
        }
    }
}

/// The arguments cover the input in order: there is at least one; each lies
/// inside the input; each but the last is not empty and ends at a
/// delimiter; they follow one another without touching; and the last one
/// ends where the input ends, empty exactly when the tokenizer stopped
/// between arguments.
pub proof fn lemma_tokens_cover(bytes: Seq<u8>)
    ensures
        tokens(bytes).len() >= 1,
        forall|i: int|
            0 <= i < tokens(bytes).len() ==> 0 <= (#[trigger] tokens(bytes)[i]).0 <= tokens(
                bytes,
            )[i].1 <= bytes.len(),
        forall|i: int|
            0 <= i < tokens(bytes).len() - 1 ==> (#[trigger] tokens(bytes)[i]).0 < tokens(
                bytes,
            )[i].1 && is_delimiter(bytes[tokens(bytes)[i].1]),
        forall|i: int, j: int|
            0 <= i < j < tokens(bytes).len() ==> (#[trigger] tokens(bytes)[i]).1 < (
            #[trigger] tokens(bytes)[j]).0,
        tokens(bytes).last().1 == bytes.len(),
        tokens(bytes).last().0 == bytes.len() <==> scan(bytes, bytes.len() as int).state
            is Delimiter,
{
    let n = bytes.len() as int;
    let s = scan(bytes, n);
    let t = tokens(bytes);
    lemma_scan_ordered(bytes, n);
    assert forall|i: int| 0 <= i < t.len() implies 0 <= (#[trigger] t[i]).0 <= t[i].1 <= n by {
        if i < s.spans.len() {
            assert(t[i] == s.spans[i]);
        }
    }
    assert forall|i: int| 0 <= i < t.len() - 1 implies (#[trigger] t[i]).0 < t[i].1
        && is_delimiter(bytes[t[i].1]) by {
        assert(t[i] == s.spans[i]);
    }
    assert forall|i: int, j: int| 0 <= i < j < t.len() implies (#[trigger] t[i]).1 < (
    #[trigger] t[j]).0 by {
        assert(t[i] == s.spans[i]);
        if j < s.spans.len() {
            assert(t[j] == s.spans[j]);
        }
    }
}

/// Whether the byte at offset `at` belongs to one of the arguments.
pub open spec fn in_token(spans: Seq<(int, int)>, at: int) -> bool {
    exists|i: int| 0 <= i < spans.len() && (#[trigger] spans[i]).0 <= at < spans[i].1
}

/// What may stand between arguments: a delimiter, or a backslash right
/// before a newline.
pub open spec fn is_gap(bytes: Seq<u8>, at: int) -> bool {
    is_delimiter(bytes[at]) || (bytes[at] == BACKSLASH && at + 1 < bytes.len() && bytes[at + 1]
        == NEWLINE)
}

/// After `n` bytes, each of them belongs to an argument that is closed or
/// to the one under way, or may stand between arguments.
spec fn scan_accounts(bytes: Seq<u8>, n: int) -> bool {
    let s = scan(bytes, n);
    &&& forall|k: int|
        0 <= k < n ==> in_token(s.spans, k) || is_gap(bytes, k) || (!(s.state is Delimiter)
            && s.start <= k)
    &&& (s.state is Backslash ==> s.start == n - 1 && bytes[s.start] == BACKSLASH)
}

/// The tokenizer accounts for every byte, whatever the input is.
proof fn lemma_scan_accounts(bytes: Seq<u8>, n: int)
    requires
        0 <= n <= bytes.len(),
    ensures
        scan_accounts(bytes, n),
    decreases n,
{
    if n > 0 {
        lemma_scan_accounts(bytes, n - 1);
        lemma_scan_ordered(bytes, n - 1);
        let p = scan(bytes, n - 1);
        let s = scan(bytes, n);
        let b = bytes[n - 1];
        assert(s == step(p, n - 1, b));
        assert forall|k: int| 0 <= k < n implies in_token(s.spans, k) || is_gap(bytes, k) || (!(
        s.state is Delimiter) && s.start <= k) by {
            if k < n - 1 && in_token(p.spans, k) {
                let i = choose|i: int| 0 <= i < p.spans.len() && (#[trigger] p.spans[i]).0 <= k
                    < p.spans[i].1;
                assert(s.spans[i] == p.spans[i]);
            } else if closes_token(p.state, b) {
                if k < n - 1 && !is_gap(bytes, k) {
                    assert(s.spans[p.spans.len() as int] == (p.start, n - 1));
                }
            }
        }
    }
}

/// Nothing of the input is lost: every byte belongs to an argument, or is a
/// delimiter, or is a backslash right before a newline. So the arguments,
/// put back in order with what stood between them, make up the input.
pub proof fn lemma_tokens_account(bytes: Seq<u8>)
    ensures
        forall|k: int| 0 <= k < bytes.len() ==> in_token(tokens(bytes), k) || is_gap(bytes, k),
{
    let n = bytes.len() as int;
    let s = scan(bytes, n);
    let t = tokens(bytes);
    lemma_scan_accounts(bytes, n);
    lemma_scan_ordered(bytes, n);
    assert forall|k: int| 0 <= k < n implies in_token(t, k) || is_gap(bytes, k) by {
        if in_token(s.spans, k) {
            let i = choose|i: int| 0 <= i < s.spans.len() && (#[trigger] s.spans[i]).0 <= k
                < s.spans[i].1;
            assert(t[i] == s.spans[i]);
        } else if !is_gap(bytes, k) {
            assert(t[s.spans.len() as int] == (s.start, n));
        }
    }
}

/// Until the first argument is closed, an input that begins with neither a
/// delimiter nor a backslash and a newline has its first argument under
/// way from offset 0.
spec fn scan_begins_at_start(bytes: Seq<u8>, n: int) -> bool {
    let s = scan(bytes, n);
    if s.spans.len() > 0 {
        s.spans[0].0 == 0
    } else {
        !(s.state is Delimiter) && s.start == 0 && (s.state is Backslash ==> n == 1)
    }
}

/// The first argument of such an input begins at offset 0.
proof fn lemma_scan_begins_at_start(bytes: Seq<u8>, n: int)
    requires
        1 <= n <= bytes.len(),
        !is_gap(bytes, 0),
    ensures
        scan_begins_at_start(bytes, n),
    decreases n,
{
    let s = scan(bytes, n);
    let p = scan(bytes, n - 1);
    assert(s == step(p, n - 1, bytes[n - 1]));
    if n == 1 {
        assert(p == scan(bytes, 0));
    } else {
        lemma_scan_begins_at_start(bytes, n - 1);
        lemma_scan_accounts(bytes, n - 1);
        if p.spans.len() > 0 {
            assert(s.spans[0] == p.spans[0]);
        }
    }
}

/// The first argument begins where the command begins, unless the command
/// begins with a delimiter or with a backslash and a newline.
pub proof fn lemma_first_token_start(bytes: Seq<u8>)
    requires
        bytes.len() == 0 || !is_gap(bytes, 0),
    ensures
        tokens(bytes)[0].0 == 0,
{
    let n = bytes.len() as int;
    if n > 0 {
        lemma_scan_begins_at_start(bytes, n);
        let s = scan(bytes, n);
        if s.spans.len() > 0 {
            assert(tokens(bytes)[0] == s.spans[0]);
        }
    }
}

/// In well-formed text every argument begins and ends between characters.
pub proof fn lemma_tokens_on_boundaries(bytes: Seq<u8>)
    requires
        valid_utf8(bytes),
    ensures
        forall|i: int|
            0 <= i < tokens(bytes).len() ==> is_char_boundary(
                bytes,
                (#[trigger] tokens(bytes)[i]).0,
            ) && is_char_boundary(bytes, tokens(bytes)[i].1),
{
    let n = bytes.len() as int;
    let s = scan(bytes, n);
    let t = tokens(bytes);
    lemma_scan_on_boundaries(bytes, n);
    is_char_boundary_start_end_of_seq(bytes);
    assert forall|i: int| 0 <= i < t.len() implies is_char_boundary(bytes, (#[trigger] t[i]).0)
        && is_char_boundary(bytes, t[i].1) by {
        if i < s.spans.len() {
            assert(t[i] == s.spans[i]);
        }
    }
}

/// One argument, as the offsets of its first byte and of the byte after its
/// last.
#[derive(Clone, Copy, Debug, PartialEq, Eq)]
pub struct Span {
    pub start: usize,
    pub end: usize,
}

impl View for Span {
    type V = (int, int);

    open spec fn view(&self) -> (int, int) {
        (self.start as int, self.end as int)
    }
}

/// The offsets that a list of spans holds.
pub open spec fn span_views(spans: Seq<Span>) -> Seq<(int, int)> {
    Seq::new(spans.len(), |i: int| spans[i]@)
}

/// Whether `b` separates arguments.
pub fn delimits(b: u8) -> (r: bool)
    ensures
        r == is_delimiter(b),
{
    b == SPACE || b == TAB || b == NEWLINE
}

/// Whether `b` opens a quoted stretch.
pub fn quotes(b: u8) -> (r: bool)
    ensures
        r == is_quote(b),
{
    b == SINGLE_QUOTE || b == DOUBLE_QUOTE
}

impl SplitState {
    /// The state after one more byte.
    pub fn next(self, b: u8) -> (r: SplitState)
        ensures
            r == next_state(self, b),
    {
        match self {
            SplitState::Delimiter => if b == BACKSLASH {
                SplitState::Backslash
            } else if quotes(b) {
                SplitState::InQuot { quot: b, is_escaped: false }
            } else if delimits(b) {
                SplitState::Delimiter
            } else {
                SplitState::InWord { is_escaped: false }
            },
            SplitState::InWord { is_escaped: false } => if b == BACKSLASH {
                SplitState::InWord { is_escaped: true }
            } else if quotes(b) {
                SplitState::InQuot { quot: b, is_escaped: false }
            } else if delimits(b) {
                SplitState::Delimiter
            } else {
                SplitState::InWord { is_escaped: false }
            },
            SplitState::InWord { is_escaped: true } => SplitState::InWord { is_escaped: false },
            SplitState::InQuot { quot, is_escaped: false } => if b == quot {
                SplitState::InWord { is_escaped: false }
            } else if b == BACKSLASH {
                SplitState::InQuot { quot, is_escaped: true }
            } else {
                SplitState::InQuot { quot, is_escaped: false }
            },
            SplitState::InQuot { quot, is_escaped: true } => SplitState::InQuot {
                quot,
                is_escaped: false,
            },
            SplitState::Backslash => if b == NEWLINE {
                SplitState::Delimiter
            } else {
                SplitState::InWord { is_escaped: false }
            },
        }
    }

    /// Whether `b`, met in this state, starts an argument.
    pub fn opens(self, b: u8) -> (r: bool)
        ensures
            r == opens_token(self, b),
    {
        match self {
            SplitState::Delimiter => !delimits(b),
            _ => false,
        }
    }

    /// Whether `b`, met in this state, ends an argument.
    pub fn closes(self, b: u8) -> (r: bool)
        ensures
            r == closes_token(self, b),
    {
        match self {
            SplitState::InWord { is_escaped: false } => delimits(b),
            _ => false,
        }
    }
}

/// Splits the bytes of a command into arguments.
pub fn split_spans(bytes: &[u8]) -> (spans: Vec<Span>)
    ensures
        span_views(spans@) == tokens(bytes@),
{
    let n: usize = bytes.len();
    let mut state = SplitState::default();
    let mut start: usize = 0;
    let mut spans: Vec<Span> = Vec::new();
    let mut idx: usize = 0;
    assert(span_views(spans@) =~= Seq::<(int, int)>::empty());
    while idx < n
        invariant
            n == bytes@.len(),
            idx <= n,
            start <= idx,
            scan(bytes@, idx as int) == (Scan {
                state,
                start: start as int,
                spans: span_views(spans@),
            }),
        decreases n - idx,
    {
        let b = bytes[idx];
        let ghost before = spans@;
        if state.closes(b) {
            spans.push(Span { start, end: idx });
            assert(span_views(spans@) =~= span_views(before).push((start as int, idx as int)));
        }
        if state.opens(b) {
            start = idx;
        }
        state = state.next(b);
        idx = idx + 1;
    }
    let ghost before = spans@;
    match state {
        SplitState::Delimiter => spans.push(Span { start: n, end: n }),
        _ => spans.push(Span { start, end: n }),
    }
    assert(span_views(spans@) =~= span_views(before).push(spans@.last()@));
    spans
}

/// Cuts the slices out of `text` that a list of spans marks.
pub fn cut<'a>(text: &'a str, spans: &Vec<Span>) -> (slices: Vec<&'a str>)
    requires
        forall|i: int|
            0 <= i < spans@.len() ==> (#[trigger] spans@[i]).start <= spans@[i].end
                <= text.spec_bytes().len() && is_char_boundary(
                text.spec_bytes(),
                spans@[i].start as int,
            ) && is_char_boundary(text.spec_bytes(), spans@[i].end as int),
    ensures
        slices@.len() == spans@.len(),
        forall|i: int|
            0 <= i < slices@.len() ==> (#[trigger] slices@[i]).spec_bytes()
                == text.spec_bytes().subrange(spans@[i].start as int, spans@[i].end as int),
        forall|i: int|
            0 <= i < slices@.len() ==> (#[trigger] slices@[i])@ == decode_utf8(
                text.spec_bytes().subrange(spans@[i].start as int, spans@[i].end as int),
            ),
{
    let mut slices: Vec<&'a str> = Vec::new();
    let mut i: usize = 0;
    while i < spans.len()
        invariant
            i <= spans@.len(),
            slices@.len() == i,
            forall|k: int|
                0 <= k < spans@.len() ==> (#[trigger] spans@[k]).start <= spans@[k].end
                    <= text.spec_bytes().len() && is_char_boundary(
                    text.spec_bytes(),
                    spans@[k].start as int,
                ) && is_char_boundary(text.spec_bytes(), spans@[k].end as int),
            forall|k: int|
                0 <= k < i ==> (#[trigger] slices@[k]).spec_bytes() == text.spec_bytes().subrange(
                    spans@[k].start as int,
                    spans@[k].end as int,
                ),
            forall|k: int|
                0 <= k < i ==> (#[trigger] slices@[k])@ == decode_utf8(
                    text.spec_bytes().subrange(spans@[k].start as int, spans@[k].end as int),
                ),
        decreases spans@.len() - i,
    {
        let span = spans[i];
        slices.push(slice(text, span.start, span.end));
        i = i + 1;
    }
    slices
}

/// The spans of the arguments of well-formed text can be cut out of it.
pub proof fn lemma_spans_can_be_cut(bytes: Seq<u8>, spans: Seq<Span>)
    requires
        valid_utf8(bytes),
        span_views(spans) == tokens(bytes),
    ensures
        forall|i: int|
            0 <= i < spans.len() ==> (#[trigger] spans[i]).start <= spans[i].end <= bytes.len()
                && is_char_boundary(bytes, spans[i].start as int) && is_char_boundary(
                bytes,
                spans[i].end as int,
            ),
{
    lemma_tokens_cover(bytes);
    lemma_tokens_on_boundaries(bytes);
    assert forall|i: int| 0 <= i < spans.len() implies (#[trigger] spans[i]).start <= spans[i].end
        <= bytes.len() && is_char_boundary(bytes, spans[i].start as int) && is_char_boundary(
        bytes,
        spans[i].end as int,
    ) by {
        assert(spans[i]@ == span_views(spans)[i]);
        assert(spans[i]@ == tokens(bytes)[i]);
    }
}

/// Splits a command into arguments. Each argument is a slice of `command`:
/// nothing is copied. There is always a last argument, the one that is
/// being typed; it is empty where the command ends between arguments.
pub fn split_args<'a>(command: &'a str) -> (args: Vec<&'a str>)
    ensures
        args@.len() == tokens(command.spec_bytes()).len(),
        args@.len() >= 1,
        forall|i: int|
            0 <= i < args@.len() ==> (#[trigger] args@[i]).spec_bytes() == token_bytes(
                command.spec_bytes(),
                i,
            ),
        tokens(command.spec_bytes()) == word_tokens(command@),
{
    let spans = split_spans(command.as_bytes());
    proof {
        lemma_tokens_by_character(command@);
        encode_utf8_valid_utf8(command@);
        lemma_spans_can_be_cut(command.spec_bytes(), spans@);
        lemma_tokens_cover(command.spec_bytes());
        assert(span_views(spans@).len() == spans@.len());
    }
    let args = cut(command, &spans);
    proof {
        assert forall|i: int| 0 <= i < args@.len() implies (#[trigger] args@[i]).spec_bytes()
            == token_bytes(command.spec_bytes(), i) by {
            assert(spans@[i]@ == span_views(spans@)[i]);
        }
    }
    args
}

} // verus!
