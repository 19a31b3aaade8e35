//! The character/byte index table.
//!
//! The break oracle reports positions as byte offsets into the UTF-8 text,
//! while the scanner and the line assembler advance one character (Unicode
//! scalar value) at a time.  This module gives the byte offset of every
//! character position and converts oracle byte offsets back to character
//! indices.
use vstd::prelude::*;

verus! {

/// Number of bytes of the UTF-8 encoding of `c`.
pub open spec fn char_bytes(c: char) -> int {
    let u = c as u32;
    if u < 0x80 {
        1
    } else if u < 0x800 {
        2
    } else if u < 0x10000 {
        3
    } else {
        4
    }
}

/// Byte offset of character position `i` in `s`: the total UTF-8 length of
/// the first `i` characters.
pub open spec fn byte_offset(s: Seq<char>, i: int) -> int
    decreases i,
{
    if i <= 0 {
        0
    } else {
        byte_offset(s, i - 1) + char_bytes(s[i - 1])
    }
}

/// True when byte offset `b` is the offset of some character position of
/// `s` (including the end of the text).
pub open spec fn byte_boundary(s: Seq<char>, b: int) -> bool {
    exists|i: int| 0 <= i <= s.len() && byte_offset(s, i) == b
}

/// The character position whose byte offset is `b`, assuming `b` is a
/// boundary; counts whole characters while `b` bytes remain.
pub open spec fn char_of_byte(s: Seq<char>, b: int) -> int
    decreases s.len(),
{
    if b <= 0 || s.len() == 0 {
        0
    } else {
        1 + char_of_byte(s.drop_first(), b - char_bytes(s[0]))
    }
}

/// Byte offsets grow by the width of each character.
pub proof fn lemma_byte_offset_step(s: Seq<char>, i: int)
    requires
        1 <= i,
    ensures
        byte_offset(s, i) == byte_offset(s, i - 1) + char_bytes(s[i - 1]),
{
}

/// Byte offsets are strictly increasing in the character position.
pub proof fn lemma_byte_offset_lt(s: Seq<char>, i: int, j: int)
    requires
        0 <= i < j,
    ensures
        byte_offset(s, i) < byte_offset(s, j),
    decreases j - i,
{
    if i + 1 < j {
        lemma_byte_offset_lt(s, i, j - 1);
    }
}

/// Byte offsets are monotone in the character position.
pub proof fn lemma_byte_offset_le(s: Seq<char>, i: int, j: int)
    requires
        0 <= i <= j,
    ensures
        byte_offset(s, i) <= byte_offset(s, j),
{
    if i < j {
        lemma_byte_offset_lt(s, i, j);
    }
}

/// Dropping the first character shifts byte offsets by its width.
proof fn lemma_byte_offset_drop_first(s: Seq<char>, i: int)
    requires
        1 <= i <= s.len(),
    ensures
        byte_offset(s, i) == char_bytes(s[0]) + byte_offset(s.drop_first(), i - 1),
    decreases i,
{
    if i == 1 {
        assert(byte_offset(s, 1) == byte_offset(s, 0) + char_bytes(s[0]));
        assert(byte_offset(s.drop_first(), 0) == 0);
    } else {
        lemma_byte_offset_drop_first(s, i - 1);
        assert(s.drop_first()[i - 2] == s[i - 1]);
        assert(byte_offset(s, i) == byte_offset(s, i - 1) + char_bytes(s[i - 1]));
        assert(byte_offset(s.drop_first(), i - 1) == byte_offset(s.drop_first(), i - 2) + char_bytes(
            s.drop_first()[i - 2],
        ));
    }
}

/// `char_of_byte` inverts `byte_offset` on character positions.
pub proof fn lemma_char_of_byte_offset(s: Seq<char>, i: int)
    requires
        0 <= i <= s.len(),
    ensures
        char_of_byte(s, byte_offset(s, i)) == i,
    decreases s.len(),
{
    if i > 0 && s.len() > 0 {
        lemma_byte_offset_drop_first(s, i);
        assert(byte_offset(s, i) > 0) by {
            lemma_byte_offset_lt(s, 0, i);
        }
        lemma_char_of_byte_offset(s.drop_first(), i - 1);
    }
}

/// Number of bytes of the UTF-8 encoding of `c`, executable form.
pub fn utf8_len(c: char) -> (n: usize)
    ensures
        n as int == char_bytes(c),
{
    let u = c as u32;
    if u < 0x80 {
        1
    } else if u < 0x800 {
        2
    } else if u < 0x10000 {
        3
    } else {
        4
    }
}

} // verus!
