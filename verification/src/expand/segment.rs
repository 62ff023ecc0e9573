//! The command that is being typed: what follows the last separator of the
//! left buffer.
//!
//! The separators are found byte by byte, with no regard for quotes: a
//! separator inside a quoted argument of an earlier command cuts as well.
//! The module `characters` shows that reading character by character finds
//! the same place.

use crate::expand::characters::{
    first_of_segment, last_separator, lemma_last_separator, lemma_segment_by_character, offset_of,
};
use crate::expand::split::{NEWLINE, SPACE, TAB};
use crate::text::lemma_boundary_after_ascii;
use vstd::prelude::*;
use vstd::string::StringSliceAdditionalSpecFns;
use vstd::utf8::*;

verus! {

pub const SEMICOLON: u8 = 0x3b;

pub const AMPERSAND: u8 = 0x26;

pub const PIPE: u8 = 0x7c;

pub const OPEN_PARENTHESIS: u8 = 0x28;

pub const BACKQUOTE: u8 = 0x60;

pub const FORM_FEED: u8 = 0x0c;

pub const CARRIAGE_RETURN: u8 = 0x0d;

/// The bytes after which a new command begins: `;`, `&`, `|`, `(`, a
/// backquote and newline.
pub open spec fn is_separator(b: u8) -> bool {
    b == SEMICOLON || b == AMPERSAND || b == PIPE || b == OPEN_PARENTHESIS || b == BACKQUOTE || b
        == NEWLINE
}

/// ASCII white space: space, tab, line feed, form feed and carriage return.
pub open spec fn is_ascii_space(b: u8) -> bool {
    b == SPACE || b == TAB || b == NEWLINE || b == FORM_FEED || b == CARRIAGE_RETURN
}

/// Whether a new command begins after `b`.
pub fn separates(b: u8) -> (r: bool)
    ensures
        r == is_separator(b),
{
    b == SEMICOLON || b == AMPERSAND || b == PIPE || b == OPEN_PARENTHESIS || b == BACKQUOTE || b
        == NEWLINE
}

/// Whether `b` is ASCII white space.
pub fn is_space(b: u8) -> (r: bool)
    ensures
        r == is_ascii_space(b),
{
    b == SPACE || b == TAB || b == NEWLINE || b == FORM_FEED || b == CARRIAGE_RETURN
}

/// The offset just after the last separator, or 0 where there is none.
pub open spec fn last_command_index(bytes: Seq<u8>) -> int
    decreases bytes.len(),
{
    if bytes.len() == 0 {
        0
    } else if is_separator(bytes.last()) {
        bytes.len() as int
    } else {
        last_command_index(bytes.drop_last())
    }
}

/// The first offset at or after `from` that holds no ASCII white space.
pub open spec fn skip_spaces(bytes: Seq<u8>, from: int) -> int
    decreases bytes.len() - from,
{
    if 0 <= from < bytes.len() && is_ascii_space(bytes[from]) {
        skip_spaces(bytes, from + 1)
    } else {
        from
    }
}

/// Where the current segment begins: after the last separator and the ASCII
/// white space that follows it.
pub open spec fn segment_start(bytes: Seq<u8>) -> int {
    skip_spaces(bytes, last_command_index(bytes))
}

/// The current segment: the left buffer from `segment_start` on.
pub open spec fn segment(bytes: Seq<u8>) -> Seq<u8> {
    bytes.skip(segment_start(bytes))
}

/// The offset just after the last separator is the one offset that a
/// separator precedes, unless it is 0, and that no separator follows.
pub proof fn lemma_last_command_index(bytes: Seq<u8>)
    ensures
        0 <= last_command_index(bytes) <= bytes.len(),
        last_command_index(bytes) > 0 ==> is_separator(bytes[last_command_index(bytes) - 1]),
        forall|i: int| last_command_index(bytes) <= i < bytes.len() ==> !is_separator(bytes[i]),
    decreases bytes.len(),
{
    if bytes.len() > 0 && !is_separator(bytes.last()) {
        let front = bytes.drop_last();
        lemma_last_command_index(front);
        assert forall|i: int| last_command_index(bytes) <= i < bytes.len() implies !is_separator(
            bytes[i],
        ) by {
            if i < front.len() {
                assert(front[i] == bytes[i]);
            }
        }
        if last_command_index(bytes) > 0 {
            assert(front[last_command_index(bytes) - 1] == bytes[last_command_index(bytes) - 1]);
        }
    }
}

/// The segment begins inside the left buffer, after nothing but ASCII white
/// space since the last separator, and not with ASCII white space.
pub proof fn lemma_segment_start(bytes: Seq<u8>)
    ensures
        0 <= last_command_index(bytes) <= segment_start(bytes) <= bytes.len(),
        forall|i: int|
            last_command_index(bytes) <= i < segment_start(bytes) ==> is_ascii_space(bytes[i]),
        segment_start(bytes) < bytes.len() ==> !is_ascii_space(bytes[segment_start(bytes)]),
{
    lemma_last_command_index(bytes);
    lemma_skip_spaces(bytes, last_command_index(bytes));
}

proof fn lemma_skip_spaces(bytes: Seq<u8>, from: int)
    requires
        0 <= from <= bytes.len(),
    ensures
        from <= skip_spaces(bytes, from) <= bytes.len(),
        forall|i: int| from <= i < skip_spaces(bytes, from) ==> is_ascii_space(bytes[i]),
        skip_spaces(bytes, from) < bytes.len() ==> !is_ascii_space(bytes[skip_spaces(bytes, from)]),
    decreases bytes.len() - from,
{
    if from < bytes.len() && is_ascii_space(bytes[from]) {
        lemma_skip_spaces(bytes, from + 1);
    }
}

/// The segment of well-formed text begins between two characters.
pub proof fn lemma_segment_on_boundary(bytes: Seq<u8>)
    requires
        valid_utf8(bytes),
    ensures
        is_char_boundary(bytes, segment_start(bytes)),
{
    lemma_segment_start(bytes);
    lemma_last_command_index(bytes);
    let at = segment_start(bytes);
    if at > 0 {
        assert(at > last_command_index(bytes) ==> is_ascii_space(bytes[at - 1]));
        lemma_boundary_after_ascii(bytes, at - 1);
    }
}

/// The segment of well-formed text is well-formed, and a place between two
/// of its characters is one in the left buffer.
pub proof fn lemma_boundary_in_segment(bytes: Seq<u8>, at: int)
    requires
        valid_utf8(bytes),
        0 <= at <= segment(bytes).len(),
    ensures
        valid_utf8(segment(bytes)),
        is_char_boundary(segment(bytes), at) ==> is_char_boundary(
            bytes,
            segment_start(bytes) + at,
        ),
{
    let start = segment_start(bytes);
    let inner = segment(bytes);
    lemma_segment_start(bytes);
    lemma_segment_on_boundary(bytes);
    valid_utf8_split(bytes, start);
    if at < inner.len() {
        assert(inner[at] == bytes[start + at]);
        is_char_boundary_iff_not_is_continuation_byte(inner, at);
        is_char_boundary_iff_not_is_continuation_byte(bytes, start + at);
    } else {
        is_char_boundary_start_end_of_seq(bytes);
    }
}

fn last_separator_end(bytes: &[u8]) -> (r: usize)
    ensures
        r == last_command_index(bytes@),
{
    let mut at: usize = bytes.len();
    assert(bytes@.take(at as int) =~= bytes@);
    while at > 0
        invariant
            at <= bytes@.len(),
            last_command_index(bytes@) == last_command_index(bytes@.take(at as int)),
        decreases at,
    {
        let b = bytes[at - 1];
        assert(bytes@.take(at as int).last() == b);
        if separates(b) {
            return at;
        }
        assert(bytes@.take(at as int).drop_last() =~= bytes@.take(at - 1));
        at = at - 1;
    }
    at
}

/// Finds the offset just after the last separator of `line`.
pub fn find_last_command_index(line: &str) -> (r: usize)
    ensures
        r == last_command_index(line.spec_bytes()),
        r <= line.spec_bytes().len(),
        r > 0 ==> is_separator(line.spec_bytes()[r - 1]),
        forall|i: int| r <= i < line.spec_bytes().len() ==> !is_separator(line.spec_bytes()[i]),
        r == offset_of(line@, last_separator(line@)),
{
    proof {
        lemma_last_command_index(line.spec_bytes());
        lemma_last_separator(line@);
    }
    last_separator_end(line.as_bytes())
}

/// Finds where the current segment of `line` begins.
pub fn find_segment_start(line: &str) -> (r: usize)
    ensures
        r == segment_start(line.spec_bytes()),
        r <= line.spec_bytes().len(),
        r == offset_of(line@, first_of_segment(line@)),
{
    proof {
        lemma_segment_by_character(line@);
    }
    let bytes = line.as_bytes();
    let n: usize = bytes.len();
    let mut at: usize = find_last_command_index(line);
    proof {
        lemma_last_command_index(bytes@);
        lemma_segment_start(bytes@);
    }
    while at < n && is_space(bytes[at])
        invariant
            n == bytes@.len(),
            at <= n,
            skip_spaces(bytes@, at as int) == segment_start(bytes@),
        decreases n - at,
    {
        at = at + 1;
    }
    at
}

} // verus!
