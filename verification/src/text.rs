//! Byte positions in the text of a line.

use vstd::prelude::*;
use vstd::string::*;
use vstd::utf8::*;

verus! {

/// The length of `line` in bytes.
pub open spec fn byte_len(line: Seq<char>) -> usize {
    encode_utf8(line).len() as usize
}

/// Whether `pos` lies between two characters of `line`, or at an end of it.
pub open spec fn is_boundary(line: Seq<char>, pos: usize) -> bool {
    is_char_boundary(encode_utf8(line), pos as int)
}

/// The first character boundary of `line` at or after `n`; the line's end if
/// there is none.
pub open spec fn boundary_from(line: Seq<char>, n: int) -> int
    decreases encode_utf8(line).len() - n,
{
    if n >= encode_utf8(line).len() {
        encode_utf8(line).len() as int
    } else if is_char_boundary(encode_utf8(line), n) {
        n
    } else {
        boundary_from(line, n + 1)
    }
}

/// The byte position of the character after the one at `pos`, if there is one.
pub open spec fn next_char(line: Seq<char>, pos: usize) -> Option<usize> {
    let n = boundary_from(line, pos + 1);
    if n < encode_utf8(line).len() && n <= usize::MAX {
        Some(n as usize)
    } else {
        None
    }
}

/// The text of `line` between the bytes `s` and `e`, where these are
/// character boundaries in order.
pub open spec fn slice(line: Seq<char>, s: usize, e: usize) -> Option<Seq<char>> {
    let bytes = encode_utf8(line);
    if s <= e <= bytes.len() && is_char_boundary(bytes, s as int) && is_char_boundary(bytes, e as int) {
        Some(decode_utf8(bytes.subrange(s as int, e as int)))
    } else {
        None
    }
}

/// Whether a byte is an ASCII whitespace character.
pub open spec fn is_space(b: u8) -> bool {
    b == 32 || 9 <= b <= 13
}

/// Whether `line` is empty or a single whitespace byte, such as a newline.
pub open spec fn is_blank(line: Seq<char>) -> bool {
    let bytes = encode_utf8(line);
    bytes.len() == 0 || (bytes.len() == 1 && is_space(bytes[0]))
}

/// See [`next_char`].
pub fn next_char_start(line: &str, pos: usize) -> (r: Option<usize>)
    ensures
        r == next_char(line@, pos),
{
    let len: usize = line.as_bytes().len();
    if pos >= len {
        return None;
    }
    let mut n: usize = pos + 1;
    while n < len
        invariant
            len == encode_utf8(line@).len(),
            pos < n <= len,
            boundary_from(line@, n as int) == boundary_from(line@, pos + 1),
        decreases len - n,
    {
        if line.is_char_boundary(n) {
            return Some(n);
        }
        n += 1;
    }
    None
}

proof fn lemma_boundary_in_prefix(bytes: Seq<u8>, s: int, e: int)
    requires
        valid_utf8(bytes),
        0 <= s <= e <= bytes.len(),
        is_char_boundary(bytes, s),
        is_char_boundary(bytes, e),
    ensures
        valid_utf8(bytes.subrange(0, e)),
        is_char_boundary(bytes.subrange(0, e), s),
{
    valid_utf8_split(bytes, e);
    let prefix = bytes.subrange(0, e);
    if s == e {
        is_char_boundary_start_end_of_seq(prefix);
    } else {
        is_char_boundary_iff_not_is_continuation_byte(bytes, s);
        is_char_boundary_iff_not_is_continuation_byte(prefix, s);
    }
}

/// See [`slice`].
pub fn slice_of<'a>(line: &'a str, s: usize, e: usize) -> (r: Option<&'a str>)
    ensures
        match r {
            Some(t) => slice(line@, s, e) == Some(t@),
            None => slice(line@, s, e) is None,
        },
{
    let len: usize = line.as_bytes().len();
    proof {
        encode_utf8_valid_utf8(line@);
    }
    if s <= e && e <= len && line.is_char_boundary(s) && line.is_char_boundary(e) {
        let prefix = line.split_at(e).0;
        proof {
            lemma_boundary_in_prefix(encode_utf8(line@), s as int, e as int);
        }
        let text = prefix.split_at(s).1;
        proof {
            assert(encode_utf8(text@) =~= encode_utf8(line@).subrange(s as int, e as int));
            encode_utf8_decode_utf8(text@);
        }
        Some(text)
    } else {
        None
    }
}

/// See [`is_blank`].
pub fn is_blank_line(line: &str) -> (r: bool)
    ensures
        r == is_blank(line@),
{
    let bytes = line.as_bytes();
    if bytes.len() == 0 {
        true
    } else if bytes.len() == 1 {
        let b: u8 = bytes[0];
        b == 32 || (9 <= b && b <= 13)
    } else {
        false
    }
}

} // verus!
