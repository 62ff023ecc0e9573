//! The locator and the tokenizer, read character by character.
//!
//! Both are defined over characters here, with every offset counted in
//! bytes of the UTF-8 text, and shown to find what their counterparts over
//! bytes find: the characters that they single out are ASCII, and a
//! character of several bytes is consumed as one ordinary character.

use crate::expand::segment::{
    is_ascii_space, is_separator, last_command_index, segment_start, skip_spaces,
};
use crate::expand::split::{
    closes_token, is_delimiter, is_quote, next_state, opens_token, scan, step, tokens, Scan,
    SplitState, BACKSLASH, NEWLINE,
};
use crate::text::lemma_encode_concat;
use vstd::prelude::*;
use vstd::utf8::*;

verus! {

/// The characters that separate arguments: space, tab and newline.
pub open spec fn is_delimiter_char(c: char) -> bool {
    c == ' ' || c == '\t' || c == '\n'
}

/// The characters that open a quoted stretch.
pub open spec fn is_quote_char(c: char) -> bool {
    c == '\'' || c == '"'
}

/// Where the tokenizer stands between two characters.
pub enum WordState {
    Delimiter,
    Backslash,
    InWord { is_escaped: bool },
    InQuot { quot: char, is_escaped: bool },
}

/// The transition function, character by character.
pub open spec fn next_word_state(state: WordState, c: char) -> WordState {
    match state {
        WordState::Delimiter => if c == '\\' {
            WordState::Backslash
        } else if is_quote_char(c) {
            WordState::InQuot { quot: c, is_escaped: false }
        } else if is_delimiter_char(c) {
            WordState::Delimiter
        } else {
            WordState::InWord { is_escaped: false }
        },
        WordState::InWord { is_escaped: false } => if c == '\\' {
            WordState::InWord { is_escaped: true }
        } else if is_quote_char(c) {
            WordState::InQuot { quot: c, is_escaped: false }
        } else if is_delimiter_char(c) {
            WordState::Delimiter
        } else {
            WordState::InWord { is_escaped: false }
        },
        WordState::InWord { is_escaped: true } => WordState::InWord { is_escaped: false },
        WordState::InQuot { quot, is_escaped: false } => if c == quot {
            WordState::InWord { is_escaped: false }
        } else if c == '\\' {
            WordState::InQuot { quot, is_escaped: true }
        } else {
            WordState::InQuot { quot, is_escaped: false }
        },
        WordState::InQuot { quot, is_escaped: true } => WordState::InQuot {
            quot,
            is_escaped: false,
        },
        WordState::Backslash => if c == '\n' {
            WordState::Delimiter
        } else {
            WordState::InWord { is_escaped: false }
        },
    }
}

/// What the tokenizer knows after some characters. The offsets count bytes.
pub struct WordScan {
    pub state: WordState,
    pub start: int,
    pub spans: Seq<(int, int)>,
}

/// The offset in bytes of the `i`-th character.
pub open spec fn offset_of(chars: Seq<char>, i: int) -> int {
    encode_utf8(chars.take(i)).len() as int
}

/// The tokenizer after one more character `c`, found at offset `at`.
pub open spec fn word_step(s: WordScan, at: int, c: char) -> WordScan {
    WordScan {
        state: next_word_state(s.state, c),
        start: if s.state is Delimiter && !is_delimiter_char(c) {
            at
        } else {
            s.start
        },
        spans: if s.state == (WordState::InWord { is_escaped: false }) && is_delimiter_char(c) {
            s.spans.push((s.start, at))
        } else {
            s.spans
        },
    }
}

/// The tokenizer after the first `n` characters.
pub open spec fn word_scan(chars: Seq<char>, n: int) -> WordScan
    decreases n,
{
    if n <= 0 {
        WordScan { state: WordState::Delimiter, start: 0, spans: Seq::empty() }
    } else {
        word_step(word_scan(chars, n - 1), offset_of(chars, n - 1), chars[n - 1])
    }
}

/// The arguments of a command, found character by character.
pub open spec fn word_tokens(chars: Seq<char>) -> Seq<(int, int)> {
    let s = word_scan(chars, chars.len() as int);
    let end = offset_of(chars, chars.len() as int);
    if s.state is Delimiter {
        s.spans.push((end, end))
    } else {
        s.spans.push((s.start, end))
    }
}

/// The state over bytes that stands for a state over characters.
pub open spec fn byte_state(state: WordState) -> SplitState {
    match state {
        WordState::Delimiter => SplitState::Delimiter,
        WordState::Backslash => SplitState::Backslash,
        WordState::InWord { is_escaped } => SplitState::InWord { is_escaped },
        WordState::InQuot { quot, is_escaped } => SplitState::InQuot {
            quot: quot as u8,
            is_escaped,
        },
    }
}

/// A quoted stretch was opened by a quote.
pub open spec fn opened_by_quote(state: WordState) -> bool {
    state matches WordState::InQuot { quot, .. } ==> is_quote_char(quot)
}

/// The state after a character of several bytes.
pub open spec fn after_ordinary(state: SplitState) -> SplitState {
    match state {
        SplitState::InQuot { quot, .. } => SplitState::InQuot { quot, is_escaped: false },
        _ => SplitState::InWord { is_escaped: false },
    }
}

/// A character that is ASCII is encoded as the one byte of its value.
proof fn lemma_encode_ascii(c: char)
    requires
        c <= '\u{7f}',
    ensures
        encode_scalar(c as u32) == seq![c as u8],
{
    let v = c as u32;
    assert(leading_byte_width_1(v) == v as u8) by (bit_vector)
        requires
            v <= 0x7f,
    ;
}

/// A character that is not ASCII is encoded as two to four bytes, none of
/// which is ASCII.
proof fn lemma_encode_beyond_ascii(c: char)
    requires
        c > '\u{7f}',
    ensures
        2 <= encode_scalar(c as u32).len() <= 4,
        forall|j: int|
            0 <= j < encode_scalar(c as u32).len() ==> (#[trigger] encode_scalar(c as u32)[j])
                >= 0x80,
{
    let v = c as u32;
    char_is_scalar(c);
    assert(leading_byte_width_2(v) >= 0x80 && leading_byte_width_3(v) >= 0x80
        && leading_byte_width_4(v) >= 0x80 && last_continuation_byte(v) >= 0x80
        && second_last_continuation_byte(v) >= 0x80 && third_last_continuation_byte(v) >= 0x80)
        by (bit_vector);
}

/// The bytes of the `i`-th character stand at its offset, and the next
/// character follows them.
proof fn lemma_bytes_of_character(chars: Seq<char>, i: int)
    requires
        0 <= i < chars.len(),
    ensures
        offset_of(chars, i + 1) == offset_of(chars, i) + encode_scalar(chars[i] as u32).len(),
        offset_of(chars, i + 1) <= encode_utf8(chars).len(),
        forall|j: int|
            0 <= j < encode_scalar(chars[i] as u32).len() ==> encode_utf8(chars)[offset_of(chars, i)
                + j] == #[trigger] encode_scalar(chars[i] as u32)[j],
{
    let head = chars.take(i);
    let one = seq![chars[i]];
    let tail = chars.skip(i + 1);
    assert(chars.take(i + 1) =~= head + one);
    assert(chars =~= chars.take(i + 1) + tail);
    lemma_encode_concat(head, one);
    lemma_encode_concat(chars.take(i + 1), tail);
    assert(one.len() == 1 && one[0] == chars[i]);
    assert(one.drop_first() =~= Seq::<char>::empty());
    assert(encode_utf8(one.drop_first()) =~= Seq::<u8>::empty());
    assert(encode_utf8(one) =~= encode_scalar(chars[i] as u32));
}

/// A run of bytes that are not ASCII is consumed as one ordinary character.
proof fn lemma_ordinary_run(bytes: Seq<u8>, from: int, count: int)
    requires
        0 <= from,
        1 <= count,
        from + count <= bytes.len(),
        forall|j: int| from <= j < from + count ==> bytes[j] >= 0x80,
        scan(bytes, from).state matches SplitState::InQuot { quot, .. } ==> quot < 0x80,
    ensures
        scan(bytes, from + count) == (Scan {
            state: after_ordinary(scan(bytes, from).state),
            start: if scan(bytes, from).state is Delimiter {
                from
            } else {
                scan(bytes, from).start
            },
            spans: scan(bytes, from).spans,
        }),
    decreases count,
{
    let last = from + count - 1;
    assert(scan(bytes, from + count) == step(scan(bytes, last), last, bytes[last]));
    if count > 1 {
        lemma_ordinary_run(bytes, from, count - 1);
    }
}

/// On an ASCII character the two machines take the same step.
proof fn lemma_ascii_step(state: WordState, c: char)
    requires
        c <= '\u{7f}',
        opened_by_quote(state),
    ensures
        next_state(byte_state(state), c as u8) == byte_state(next_word_state(state, c)),
        opens_token(byte_state(state), c as u8) == (state is Delimiter && !is_delimiter_char(c)),
        closes_token(byte_state(state), c as u8) == (state == (WordState::InWord {
            is_escaped: false,
        }) && is_delimiter_char(c)),
        opened_by_quote(next_word_state(state, c)),
{
    let b = c as u8;
    assert(is_delimiter_char(c) == is_delimiter(b));
    assert(is_quote_char(c) == is_quote(b));
    assert((c == '\\') == (b == BACKSLASH));
    assert((c == '\n') == (b == NEWLINE));
    match state {
        WordState::InQuot { quot, .. } => {
            assert((c == quot) == (b == quot as u8));
        },
        _ => {},
    }
}

/// On a character that is not ASCII the machine over characters takes the
/// step of an ordinary character.
proof fn lemma_ordinary_step(state: WordState, c: char)
    requires
        c > '\u{7f}',
        opened_by_quote(state),
    ensures
        after_ordinary(byte_state(state)) == byte_state(next_word_state(state, c)),
        !is_delimiter_char(c),
        opened_by_quote(next_word_state(state, c)),
        byte_state(state) matches SplitState::InQuot { quot, .. } ==> quot < 0x80,
{
}

/// After the same text, the machine over bytes and the machine over
/// characters stand alike.
pub proof fn lemma_scan_by_character(chars: Seq<char>, i: int)
    requires
        0 <= i <= chars.len(),
    ensures
        0 <= offset_of(chars, i) <= encode_utf8(chars).len(),
        opened_by_quote(word_scan(chars, i).state),
        scan(encode_utf8(chars), offset_of(chars, i)) == (Scan {
            state: byte_state(word_scan(chars, i).state),
            start: word_scan(chars, i).start,
            spans: word_scan(chars, i).spans,
        }),
    decreases i,
{
    let bytes = encode_utf8(chars);
    if i == 0 {
        assert(chars.take(0) =~= Seq::<char>::empty());
        assert(offset_of(chars, 0) == 0);
    } else {
        lemma_scan_by_character(chars, i - 1);
        lemma_bytes_of_character(chars, i - 1);
        let c = chars[i - 1];
        let at = offset_of(chars, i - 1);
        let before = word_scan(chars, i - 1);
        assert(word_scan(chars, i) == word_step(before, at, c));
        if c <= '\u{7f}' {
            lemma_encode_ascii(c);
            let b = bytes[at];
            assert(bytes[at + 0] == encode_scalar(c as u32)[0]);
            assert(b == c as u8);
            assert(scan(bytes, at + 1) == step(scan(bytes, at), at, b));
            lemma_ascii_step(before.state, c);
        } else {
            lemma_encode_beyond_ascii(c);
            let count = encode_scalar(c as u32).len() as int;
            assert forall|j: int| at <= j < at + count implies bytes[j] >= 0x80 by {
                assert(bytes[at + (j - at)] == encode_scalar(c as u32)[j - at]);
            }
            lemma_ordinary_run(bytes, at, count);
            lemma_ordinary_step(before.state, c);
        }
    }
}

/// The arguments found byte by byte in the UTF-8 text are the arguments
/// found character by character.
pub proof fn lemma_tokens_by_character(chars: Seq<char>)
    ensures
        tokens(encode_utf8(chars)) == word_tokens(chars),
{
    lemma_scan_by_character(chars, chars.len() as int);
    assert(chars.take(chars.len() as int) =~= chars);
}

/// The characters after which a new command begins.
pub open spec fn is_separator_char(c: char) -> bool {
    c == ';' || c == '&' || c == '|' || c == '(' || c == '`' || c == '\n'
}

/// The characters that are ASCII white space.
pub open spec fn is_ascii_space_char(c: char) -> bool {
    c == ' ' || c == '\t' || c == '\n' || c == '\u{c}' || c == '\r'
}

/// The number of characters up to the last separator, that one counted; 0
/// where there is none.
pub open spec fn last_separator(chars: Seq<char>) -> int
    decreases chars.len(),
{
    if chars.len() == 0 {
        0
    } else if is_separator_char(chars.last()) {
        chars.len() as int
    } else {
        last_separator(chars.drop_last())
    }
}

/// The index at or after `from` of the first character that is no ASCII
/// white space.
pub open spec fn skip_space_chars(chars: Seq<char>, from: int) -> int
    decreases chars.len() - from,
{
    if 0 <= from < chars.len() && is_ascii_space_char(chars[from]) {
        skip_space_chars(chars, from + 1)
    } else {
        from
    }
}

/// The index of the character with which the current segment begins.
pub open spec fn first_of_segment(chars: Seq<char>) -> int {
    skip_space_chars(chars, last_separator(chars))
}

/// Bytes that are no separators can be left off the end of a left buffer.
proof fn lemma_separator_free_tail(head: Seq<u8>, tail: Seq<u8>)
    requires
        forall|j: int| 0 <= j < tail.len() ==> !is_separator(#[trigger] tail[j]),
    ensures
        last_command_index(head + tail) == last_command_index(head),
    decreases tail.len(),
{
    if tail.len() == 0 {
        assert(head + tail =~= head);
    } else {
        let whole = head + tail;
        assert(whole.last() == tail[tail.len() - 1]);
        assert(whole.drop_last() =~= head + tail.drop_last());
        assert forall|j: int| 0 <= j < tail.drop_last().len() implies !is_separator(
            #[trigger] tail.drop_last()[j],
        ) by {
            assert(tail.drop_last()[j] == tail[j]);
        }
        lemma_separator_free_tail(head, tail.drop_last());
    }
}

/// A byte of a character is a separator only if it is the character, and
/// the character a separator; likewise for ASCII white space.
proof fn lemma_singled_out(c: char)
    ensures
        c <= '\u{7f}' ==> is_separator(c as u8) == is_separator_char(c) && is_ascii_space(c as u8)
            == is_ascii_space_char(c),
        c > '\u{7f}' ==> !is_separator_char(c) && !is_ascii_space_char(c),
{
}

/// The offset just after the last separator, found byte by byte, is the
/// offset of the character after the last separator.
pub proof fn lemma_last_separator(chars: Seq<char>)
    ensures
        0 <= last_separator(chars) <= chars.len(),
        last_command_index(encode_utf8(chars)) == offset_of(chars, last_separator(chars)),
    decreases chars.len(),
{
    if chars.len() == 0 {
        assert(chars.take(0) =~= chars);
    } else {
        let n = chars.len() as int;
        let c = chars.last();
        let front = chars.drop_last();
        let bytes = encode_utf8(chars);
        let piece = encode_scalar(c as u32);
        lemma_bytes_of_character(chars, n - 1);
        lemma_singled_out(c);
        assert(chars.take(n) =~= chars);
        assert(chars.take(n - 1) =~= front);
        assert(bytes =~= encode_utf8(front) + piece) by {
            assert(chars =~= front + seq![c]);
            lemma_encode_concat(front, seq![c]);
            assert(seq![c].drop_first() =~= Seq::<char>::empty());
            assert(encode_utf8(seq![c].drop_first()) =~= Seq::<u8>::empty());
            assert(encode_utf8(seq![c]) =~= piece);
        }
        if c <= '\u{7f}' {
            lemma_encode_ascii(c);
            assert(bytes.last() == piece[0]);
        } else {
            lemma_encode_beyond_ascii(c);
        }
        if is_separator_char(c) {
        } else {
            lemma_separator_free_tail(encode_utf8(front), piece);
            lemma_last_separator(front);
            assert(front.take(last_separator(front)) =~= chars.take(last_separator(front)));
        }
    }
}

/// Skipping ASCII white space byte by byte is skipping it character by
/// character.
pub proof fn lemma_skip_space_chars(chars: Seq<char>, from: int)
    requires
        0 <= from <= chars.len(),
    ensures
        from <= skip_space_chars(chars, from) <= chars.len(),
        skip_spaces(encode_utf8(chars), offset_of(chars, from)) == offset_of(
            chars,
            skip_space_chars(chars, from),
        ),
    decreases chars.len() - from,
{
    let bytes = encode_utf8(chars);
    let at = offset_of(chars, from);
    if from < chars.len() {
        let c = chars[from];
        lemma_bytes_of_character(chars, from);
        lemma_singled_out(c);
        if c <= '\u{7f}' {
            lemma_encode_ascii(c);
        } else {
            lemma_encode_beyond_ascii(c);
        }
        assert(bytes[at + 0] == encode_scalar(c as u32)[0]);
        if is_ascii_space_char(c) {
            lemma_skip_space_chars(chars, from + 1);
        }
    } else {
        assert(chars.take(from) =~= chars);
    }
}

/// The segment found byte by byte begins with the character with which the
/// segment found character by character begins.
pub proof fn lemma_segment_by_character(chars: Seq<char>)
    ensures
        segment_start(encode_utf8(chars)) == offset_of(chars, first_of_segment(chars)),
{
    lemma_last_separator(chars);
    lemma_skip_space_chars(chars, last_separator(chars));
}

} // verus!
