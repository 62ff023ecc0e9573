//! Strings as UTF-8: the facts about character boundaries that let byte
//! offsets be used to cut a `&str`, and the comparisons built on them.

use vstd::prelude::*;
use vstd::std_specs::iter::IteratorSpec;
use vstd::string::StringSliceAdditionalSpecFns;
use vstd::utf8::*;

verus! {

/// Encoding distributes over concatenation.
pub proof fn lemma_encode_concat(a: Seq<char>, b: Seq<char>)
    ensures
        encode_utf8(a + b) == encode_utf8(a) + encode_utf8(b),
    decreases a.len(),
{
    if a.len() == 0 {
        assert(a + b =~= b);
        assert(encode_utf8(a) + encode_utf8(b) =~= encode_utf8(b));
    } else {
        lemma_encode_concat(a.drop_first(), b);
        assert((a + b).drop_first() =~= a.drop_first() + b);
        assert((a + b)[0] == a[0]);
        assert(encode_utf8(a + b) =~= encode_utf8(a) + encode_utf8(b));
    }
}

/// Where one well-formed byte string begins another, it ends on a character
/// boundary of the longer one.
pub proof fn lemma_prefix_boundary(x: Seq<u8>, y: Seq<u8>)
    requires
        valid_utf8(x),
        valid_utf8(y),
        x.is_prefix_of(y),
    ensures
        is_char_boundary(y, x.len() as int),
    decreases x.len(),
{
    if x.len() == 0 {
    } else {
        let k = length_of_first_scalar(x);
        assert(x[0] == y[0]);
        assert(forall|i: int| 0 <= i < x.len() ==> x[i] == y[i]);
        assert(length_of_first_scalar(y) == k);
        assert(pop_first_scalar(x).is_prefix_of(pop_first_scalar(y)));
        lemma_prefix_boundary(pop_first_scalar(x), pop_first_scalar(y));
    }
}

/// Decoding distributes over the concatenation of well-formed byte strings.
pub proof fn lemma_decode_concat(x: Seq<u8>, y: Seq<u8>)
    requires
        valid_utf8(x),
        valid_utf8(y),
    ensures
        valid_utf8(x + y),
        decode_utf8(x + y) == decode_utf8(x) + decode_utf8(y),
{
    let z = x + y;
    valid_utf8_concat(x, y);
    assert(x =~= z.subrange(0, x.len() as int));
    assert(y =~= z.subrange(x.len() as int, z.len() as int));
    lemma_prefix_boundary(x, z);
    decode_utf8_split(z, x.len() as int);
}

/// The byte that follows a single-byte character starts a character.
pub proof fn lemma_boundary_after_ascii(y: Seq<u8>, i: int)
    requires
        valid_utf8(y),
        0 <= i < y.len(),
        y[i] <= 0x7f,
    ensures
        is_char_boundary(y, i),
        is_char_boundary(y, i + 1),
{
    is_char_boundary_iff_not_is_continuation_byte(y, i);
    valid_utf8_split(y, i);
    let tail = y.subrange(i, y.len() as int);
    assert(tail[0] == y[i]);
    assert(length_of_first_scalar(tail) == 1);
    let rest = pop_first_scalar(tail);
    assert(valid_utf8(rest));
    if i + 1 < y.len() {
        assert(rest[0] == y[i + 1]);
        assert(valid_first_scalar(rest));
        is_char_boundary_iff_not_is_continuation_byte(y, i + 1);
    } else {
        is_char_boundary_start_end_of_seq(y);
    }
}

/// `needle` stands in `hay` at offset `at`.
pub open spec fn occurs_at<T>(hay: Seq<T>, needle: Seq<T>, at: int) -> bool {
    0 <= at && at + needle.len() <= hay.len() && hay.subrange(at, at + needle.len()) == needle
}

/// `at` is the least offset at which `needle` stands in `hay`.
pub open spec fn first_occurrence<T>(hay: Seq<T>, needle: Seq<T>, at: int) -> bool {
    occurs_at(hay, needle, at) && forall|j: int| 0 <= j < at ==> !occurs_at(hay, needle, j)
}

/// `needle` stands somewhere in `hay`.
pub open spec fn occurs_in<T>(hay: Seq<T>, needle: Seq<T>) -> bool {
    exists|at: int| occurs_at(hay, needle, at)
}

/// The least offset at which `needle` stands in `hay`, where it stands
/// there at all.
pub open spec fn first_offset<T>(hay: Seq<T>, needle: Seq<T>) -> int {
    choose|at: int| first_occurrence(hay, needle, at)
}

/// Where a needle stands at all, it stands at a least offset.
pub proof fn lemma_least_occurrence<T>(hay: Seq<T>, needle: Seq<T>, at: int)
    requires
        occurs_at(hay, needle, at),
    ensures
        exists|least: int| 0 <= least <= at && first_occurrence(hay, needle, least),
    decreases at,
{
    if exists|j: int| 0 <= j < at && occurs_at(hay, needle, j) {
        let j = choose|j: int| 0 <= j < at && occurs_at(hay, needle, j);
        lemma_least_occurrence(hay, needle, j);
    } else {
        assert(first_occurrence(hay, needle, at));
    }
}

/// There is one least offset only.
pub proof fn lemma_first_offset<T>(hay: Seq<T>, needle: Seq<T>, at: int)
    requires
        first_occurrence(hay, needle, at),
    ensures
        first_offset(hay, needle) == at,
        occurs_in(hay, needle),
{
    let other = first_offset(hay, needle);
    assert(first_occurrence(hay, needle, other));
    if other < at {
        assert(!occurs_at(hay, needle, other));
    }
    if at < other {
        assert(!occurs_at(hay, needle, at));
    }
}

/// A non-empty slice of well-formed text encodes to at least one byte.
pub proof fn lemma_encode_nonempty(a: Seq<char>)
    requires
        a.len() > 0,
    ensures
        encode_utf8(a).len() > 0,
{
    assert(encode_scalar(a[0] as u32).len() > 0);
}

/// A well-formed needle found among the bytes of well-formed text lies
/// between two character boundaries, provided that it starts on one or is
/// not empty.
pub proof fn lemma_occurrence_boundaries(hay: Seq<u8>, needle: Seq<u8>, at: int)
    requires
        valid_utf8(hay),
        valid_utf8(needle),
        occurs_at(hay, needle, at),
        needle.len() > 0 || is_char_boundary(hay, at),
    ensures
        is_char_boundary(hay, at),
        is_char_boundary(hay, at + needle.len()),
{
    let n = needle.len() as int;
    if n > 0 {
        assert(hay[at] == hay.subrange(at, at + n)[0]);
        assert(valid_first_scalar(needle));
        is_char_boundary_iff_not_is_continuation_byte(hay, at);
    }
    valid_utf8_split(hay, at);
    let tail = hay.subrange(at, hay.len() as int);
    assert(needle =~= tail.subrange(0, n));
    lemma_prefix_boundary(needle, tail);
    if at + n < hay.len() {
        is_char_boundary_iff_not_is_continuation_byte(tail, n);
        assert(tail[n] == hay[at + n]);
        is_char_boundary_iff_not_is_continuation_byte(hay, at + n);
    } else {
        is_char_boundary_start_end_of_seq(hay);
    }
}

/// Cuts `s` between two byte offsets that are character boundaries.
pub fn slice<'a>(s: &'a str, from: usize, to: usize) -> (r: &'a str)
    requires
        from <= to <= s.spec_bytes().len(),
        is_char_boundary(s.spec_bytes(), from as int),
        is_char_boundary(s.spec_bytes(), to as int),
    ensures
        r.spec_bytes() == s.spec_bytes().subrange(from as int, to as int),
        r@ == decode_utf8(s.spec_bytes().subrange(from as int, to as int)),
{
    let (head, _) = s.split_at(to);
    proof {
        broadcast use group_utf8_lib;
        assert(head.spec_bytes() == s.spec_bytes().subrange(0, to as int));
        if from < to {
            is_char_boundary_iff_not_is_continuation_byte(s.spec_bytes(), from as int);
            is_char_boundary_iff_not_is_continuation_byte(head.spec_bytes(), from as int);
        }
    }
    let (_, tail) = head.split_at(from);
    proof {
        broadcast use encode_utf8_decode_utf8;
        assert(tail.spec_bytes() =~= s.spec_bytes().subrange(from as int, to as int));
    }
    tail
}

/// Whether `needle` stands in `hay` at offset `at`.
pub fn bytes_match_at(hay: &[u8], at: usize, needle: &[u8]) -> (r: bool)
    requires
        at + needle@.len() <= hay@.len(),
    ensures
        r == occurs_at(hay@, needle@, at as int),
{
    let h: usize = hay.len();
    let n: usize = needle.len();
    let mut i: usize = 0;
    while i < n
        invariant
            h == hay@.len(),
            n == needle@.len(),
            at + n <= h,
            i <= n,
            forall|j: int| 0 <= j < i ==> hay@[at + j] == needle@[j],
        decreases n - i,
    {
        if hay[at + i] != needle[i] {
            assert(hay@.subrange(at as int, at + n)[i as int] != needle@[i as int]);
            return false;
        }
        i = i + 1;
    }
    assert(hay@.subrange(at as int, at + n) =~= needle@);
    true
}

/// The least offset at which `needle` stands in `hay`, if there is one.
pub fn find_bytes(hay: &[u8], needle: &[u8]) -> (r: Option<usize>)
    ensures
        match r {
            Some(at) => first_occurrence(hay@, needle@, at as int),
            None => !occurs_in(hay@, needle@),
        },
{
    let h: usize = hay.len();
    let n: usize = needle.len();
    if n > h {
        return None;
    }
    let last: usize = h - n;
    let mut at: usize = 0;
    loop
        invariant
            h == hay@.len(),
            n == needle@.len(),
            last == h - n,
            at <= last,
            forall|j: int| 0 <= j < at ==> !occurs_at(hay@, needle@, j),
        decreases last - at,
    {
        if bytes_match_at(hay, at, needle) {
            return Some(at);
        }
        if at == last {
            return None;
        }
        at = at + 1;
    }
}

/// Whether two strings hold the same text.
pub fn eq(a: &str, b: &str) -> (r: bool)
    ensures
        r == (a@ == b@),
{
    let x = a.as_bytes();
    let y = b.as_bytes();
    proof {
        encode_utf8_decode_utf8(a@);
        encode_utf8_decode_utf8(b@);
    }
    if x.len() != y.len() {
        return false;
    }
    let r = bytes_match_at(x, 0, y);
    assert(x@.subrange(0, y@.len() as int) =~= x@);
    r
}

/// Whether `s` begins with `prefix`.
pub fn starts_with(s: &str, prefix: &str) -> (r: bool)
    ensures
        r == prefix@.is_prefix_of(s@),
{
    let x = s.as_bytes();
    let y = prefix.as_bytes();
    if y.len() > x.len() {
        proof {
            if prefix@.is_prefix_of(s@) {
                lemma_chars_prefix_bytes(prefix@, s@);
            }
        }
        return false;
    }
    let r = bytes_match_at(x, 0, y);
    proof {
        if r {
            lemma_bytes_prefix_chars(prefix@, s@);
        }
        if prefix@.is_prefix_of(s@) {
            lemma_chars_prefix_bytes(prefix@, s@);
        }
    }
    r
}

/// Whether `s` ends with `suffix`.
pub fn ends_with(s: &str, suffix: &str) -> (r: bool)
    ensures
        r == suffix@.is_suffix_of(s@),
{
    let x = s.as_bytes();
    let y = suffix.as_bytes();
    if y.len() > x.len() {
        proof {
            if suffix@.is_suffix_of(s@) {
                lemma_chars_suffix_bytes(suffix@, s@);
            }
        }
        return false;
    }
    let r = bytes_match_at(x, x.len() - y.len(), y);
    proof {
        if r {
            lemma_bytes_suffix_chars(suffix@, s@);
        }
        if suffix@.is_suffix_of(s@) {
            lemma_chars_suffix_bytes(suffix@, s@);
        }
    }
    r
}

/// A prefix in characters is a prefix in bytes.
pub proof fn lemma_chars_prefix_bytes(p: Seq<char>, s: Seq<char>)
    requires
        p.is_prefix_of(s),
    ensures
        encode_utf8(p).is_prefix_of(encode_utf8(s)),
{
    let rest = s.skip(p.len() as int);
    assert(s =~= p + rest);
    lemma_encode_concat(p, rest);
}

/// A prefix in bytes is a prefix in characters.
pub proof fn lemma_bytes_prefix_chars(p: Seq<char>, s: Seq<char>)
    requires
        encode_utf8(p).is_prefix_of(encode_utf8(s)),
    ensures
        p.is_prefix_of(s),
{
    broadcast use {encode_utf8_valid_utf8, encode_utf8_decode_utf8};

    let x = encode_utf8(p);
    let y = encode_utf8(s);
    lemma_prefix_boundary(x, y);
    decode_utf8_split(y, x.len() as int);
    assert(y.subrange(0, x.len() as int) =~= x);
    let rest = decode_utf8(y.subrange(x.len() as int, y.len() as int));
    assert(s =~= p + rest);
    assert(s.subrange(0, p.len() as int) =~= p);
}

/// A suffix in characters is a suffix in bytes.
pub proof fn lemma_chars_suffix_bytes(p: Seq<char>, s: Seq<char>)
    requires
        p.is_suffix_of(s),
    ensures
        encode_utf8(p).is_suffix_of(encode_utf8(s)),
{
    let head = s.take(s.len() - p.len());
    assert(s =~= head + p);
    lemma_encode_concat(head, p);
    let x = encode_utf8(p);
    let y = encode_utf8(s);
    assert(y.subrange(y.len() - x.len(), y.len() as int) =~= x);
}

/// A suffix in bytes is a suffix in characters.
pub proof fn lemma_bytes_suffix_chars(p: Seq<char>, s: Seq<char>)
    requires
        encode_utf8(p).is_suffix_of(encode_utf8(s)),
    ensures
        p.is_suffix_of(s),
{
    broadcast use {encode_utf8_valid_utf8, encode_utf8_decode_utf8};

    let x = encode_utf8(p);
    let y = encode_utf8(s);
    let at = y.len() - x.len();
    assert(occurs_at(y, x, at));
    if x.len() == 0 {
        is_char_boundary_start_end_of_seq(y);
    }
    lemma_occurrence_boundaries(y, x, at);
    decode_utf8_split(y, at);
    let head = decode_utf8(y.subrange(0, at));
    assert(y.subrange(at, y.len() as int) =~= x);
    assert(s =~= head + p);
    assert(s.subrange(s.len() - p.len(), s.len() as int) =~= p);
}

/// An occurrence in characters is an occurrence in bytes, at the offset that
/// the characters before it take up.
pub proof fn lemma_chars_occurrence_bytes(s: Seq<char>, p: Seq<char>, at: int)
    requires
        occurs_at(s, p, at),
    ensures
        occurs_at(encode_utf8(s), encode_utf8(p), encode_utf8(s.take(at)).len() as int),
{
    let head = s.take(at);
    let tail = s.skip(at + p.len());
    assert(s =~= head + (p + tail));
    lemma_encode_concat(head, p + tail);
    lemma_encode_concat(p, tail);
    let x = encode_utf8(s);
    let k = encode_utf8(head).len() as int;
    assert(x.subrange(k, k + encode_utf8(p).len()) =~= encode_utf8(p));
}

/// Cuts `s` around the first occurrence of `pat`: the text before it and
/// the text after it. An empty `pat` occurs at the very start.
pub fn split_once<'a>(s: &'a str, pat: &str) -> (r: Option<(&'a str, &'a str)>)
    ensures
        match r {
            Some((head, tail)) => {
                &&& first_occurrence(s@, pat@, head@.len() as int)
                &&& head@ == s@.take(head@.len() as int)
                &&& tail@ == s@.skip((head@.len() + pat@.len()) as int)
                &&& s@ == head@ + pat@ + tail@
            },
            None => !occurs_in(s@, pat@),
        },
{
    let hay = s.as_bytes();
    let needle = pat.as_bytes();
    let ghost x = s.spec_bytes();
    let ghost y = pat.spec_bytes();
    proof {
        encode_utf8_valid_utf8(s@);
        encode_utf8_valid_utf8(pat@);
        encode_utf8_decode_utf8(s@);
        encode_utf8_decode_utf8(pat@);
    }
    match find_bytes(hay, needle) {
        None => {
            proof {
                if occurs_in(s@, pat@) {
                    let q = choose|q: int| occurs_at(s@, pat@, q);
                    lemma_chars_occurrence_bytes(s@, pat@, q);
                }
            }
            None
        },
        Some(at) => {
            let n: usize = needle.len();
            proof {
                if n == 0 {
                    assert(occurs_at(x, y, 0)) by {
                        assert(x.subrange(0, 0) =~= y);
                    }
                    is_char_boundary_start_end_of_seq(x);
                }
                lemma_occurrence_boundaries(x, y, at as int);
                is_char_boundary_start_end_of_seq(x);
            }
            let h: usize = hay.len();
            assert(at + n <= h);
            let head = slice(s, 0, at);
            let tail = slice(s, at + n, h);
            proof {
                let k = at as int;
                let xh = x.subrange(0, k);
                let xm = x.subrange(k, x.len() as int);
                let xt = x.subrange(k + n, x.len() as int);
                valid_utf8_split(x, k);
                valid_utf8_split(x, k + n);
                decode_utf8_split(x, k);
                assert(xm =~= y + xt);
                lemma_decode_concat(y, xt);
                assert(s@ =~= head@ + pat@ + tail@);
                assert(s@.subrange(head@.len() as int, (head@.len() + pat@.len()) as int) =~= pat@);
                assert(s@.take(head@.len() as int) =~= head@);
                assert(s@.skip((head@.len() + pat@.len()) as int) =~= tail@);
                decode_utf8_encode_utf8(xh);
                assert forall|q: int| 0 <= q < head@.len() implies !occurs_at(s@, pat@, q) by {
                    if occurs_at(s@, pat@, q) {
                        lemma_chars_occurrence_bytes(s@, pat@, q);
                        let before = s@.take(q);
                        let gap = head@.skip(q);
                        assert(head@ =~= before + gap);
                        lemma_encode_concat(before, gap);
                        lemma_encode_nonempty(gap);
                        assert(encode_utf8(before).len() < k);
                    }
                }
            }
            Some((head, tail))
        },
    }
}

/// Whether `c` is white space, as Unicode defines the property.
pub open spec fn is_white_space(c: char) -> bool {
    ||| '\u{9}' <= c <= '\u{d}'
    ||| c == ' '
    ||| c == '\u{85}'
    ||| c == '\u{a0}'
    ||| c == '\u{1680}'
    ||| '\u{2000}' <= c <= '\u{200a}'
    ||| c == '\u{2028}'
    ||| c == '\u{2029}'
    ||| c == '\u{202f}'
    ||| c == '\u{205f}'
    ||| c == '\u{3000}'
}

/// Whether `c` is white space, as Unicode defines the property.
pub fn is_whitespace(c: char) -> (r: bool)
    ensures
        r == is_white_space(c),
{
    ('\u{9}' <= c && c <= '\u{d}') || c == ' ' || c == '\u{85}' || c == '\u{a0}' || c == '\u{1680}'
        || ('\u{2000}' <= c && c <= '\u{200a}') || c == '\u{2028}' || c == '\u{2029}' || c
        == '\u{202f}' || c == '\u{205f}' || c == '\u{3000}'
}

/// The characters of `s`, in order.
pub fn chars_of(s: &str) -> (v: Vec<char>)
    ensures
        v@ == s@,
{
    let mut v: Vec<char> = Vec::new();
    let mut it = s.chars();
    loop
        invariant
            it.decrease() is Some,
            v@ + it.remaining() == s@,
        decreases it.decrease()->0,
    {
        let ghost before = it.remaining();
        match it.next() {
            Some(c) => {
                v.push(c);
                assert(v@ + it.remaining() =~= v@.drop_last() + before);
            },
            None => {
                assert(v@ + it.remaining() =~= v@);
                return v;
            },
        }
    }
}

/// Text without the white space that it begins with.
pub open spec fn trim_start(s: Seq<char>) -> Seq<char>
    decreases s.len(),
{
    if s.len() > 0 && is_white_space(s[0]) {
        trim_start(s.drop_first())
    } else {
        s
    }
}

/// The offset at or after `from` of the first character that is not white
/// space, or the length of `s` if there is none.
pub fn skip_whitespace(s: &Vec<char>, from: usize) -> (at: usize)
    requires
        from <= s@.len(),
    ensures
        from <= at <= s@.len(),
        s@.skip(at as int) == trim_start(s@.skip(from as int)),
{
    let n: usize = s.len();
    let mut at: usize = from;
    while at < n && is_whitespace(s[at])
        invariant
            n == s@.len(),
            from <= at <= n,
            trim_start(s@.skip(at as int)) == trim_start(s@.skip(from as int)),
        decreases n - at,
    {
        assert(s@.skip(at as int).drop_first() =~= s@.skip(at + 1));
        at = at + 1;
    }
    at
}

} // verus!
