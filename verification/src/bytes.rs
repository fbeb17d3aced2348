//! Byte-level helpers shared by the header codec and the archive engine:
//! little-endian integer fields, UTF-8 validity of path bytes, and a few
//! verified buffer operations.

use vstd::arithmetic::div_mod::{lemma_div_denominator, lemma_fundamental_div_mod};
use vstd::prelude::*;

verus! {

/// The value of a 2-byte little-endian field.
pub open spec fn u16_from_le(b0: u8, b1: u8) -> int {
    b0 + 256 * b1
}

/// The value of a 4-byte little-endian field.
pub open spec fn u32_from_le(b0: u8, b1: u8, b2: u8, b3: u8) -> int {
    b0 + 256 * b1 + 65536 * b2 + 16777216 * b3
}

/// The 2-byte little-endian encoding of `v`.
pub open spec fn u16_le_bytes(v: int) -> Seq<u8> {
    seq![(v % 256) as u8, ((v / 256) % 256) as u8]
}

/// The 4-byte little-endian encoding of `v`.
pub open spec fn u32_le_bytes(v: int) -> Seq<u8> {
    seq![
        (v % 256) as u8,
        ((v / 256) % 256) as u8,
        ((v / 65536) % 256) as u8,
        ((v / 16777216) % 256) as u8,
    ]
}

/// Decoding a 2-byte little-endian encoding yields the value back.
pub proof fn lemma_u16_le_round_trip(v: int)
    requires
        0 <= v < 0x10000,
    ensures
        u16_from_le(u16_le_bytes(v)[0], u16_le_bytes(v)[1]) == v,
{
    lemma_fundamental_div_mod(v, 256);
}

/// Decoding a 4-byte little-endian encoding yields the value back.
pub proof fn lemma_u32_le_round_trip(v: int)
    requires
        0 <= v < 0x1_0000_0000,
    ensures
        u32_from_le(
            u32_le_bytes(v)[0],
            u32_le_bytes(v)[1],
            u32_le_bytes(v)[2],
            u32_le_bytes(v)[3],
        ) == v,
{
    lemma_fundamental_div_mod(v, 256);
    lemma_fundamental_div_mod(v / 256, 256);
    lemma_fundamental_div_mod(v / 65536, 256);
    lemma_div_denominator(v, 256, 256);
    lemma_div_denominator(v, 65536, 256);
}

/// Whether `b` is a UTF-8 continuation byte.
pub open spec fn is_utf8_cont(b: u8) -> bool {
    0x80 <= b <= 0xBF
}

/// The length of the well-formed UTF-8 sequence starting at `i`, or 0 when
/// no well-formed sequence starts there.
pub open spec fn utf8_step(s: Seq<u8>, i: int) -> int {
    if !(0 <= i < s.len()) {
        0
    } else if s[i] < 0x80 {
        1
    } else if 0xC2 <= s[i] <= 0xDF {
        if i + 2 <= s.len() && is_utf8_cont(s[i + 1]) {
            2
        } else {
            0
        }
    } else if s[i] == 0xE0 {
        if i + 3 <= s.len() && 0xA0 <= s[i + 1] <= 0xBF && is_utf8_cont(s[i + 2]) {
            3
        } else {
            0
        }
    } else if 0xE1 <= s[i] <= 0xEC || 0xEE <= s[i] <= 0xEF {
        if i + 3 <= s.len() && is_utf8_cont(s[i + 1]) && is_utf8_cont(s[i + 2]) {
            3
        } else {
            0
        }
    } else if s[i] == 0xED {
        if i + 3 <= s.len() && 0x80 <= s[i + 1] <= 0x9F && is_utf8_cont(s[i + 2]) {
            3
        } else {
            0
        }
    } else if s[i] == 0xF0 {
        if i + 4 <= s.len() && 0x90 <= s[i + 1] <= 0xBF && is_utf8_cont(s[i + 2]) && is_utf8_cont(
            s[i + 3],
        ) {
            4
        } else {
            0
        }
    } else if 0xF1 <= s[i] <= 0xF3 {
        if i + 4 <= s.len() && is_utf8_cont(s[i + 1]) && is_utf8_cont(s[i + 2]) && is_utf8_cont(
            s[i + 3],
        ) {
            4
        } else {
            0
        }
    } else if s[i] == 0xF4 {
        if i + 4 <= s.len() && 0x80 <= s[i + 1] <= 0x8F && is_utf8_cont(s[i + 2]) && is_utf8_cont(
            s[i + 3],
        ) {
            4
        } else {
            0
        }
    } else {
        0
    }
}

/// The bytes from `i` on form a sequence of well-formed UTF-8 characters.
pub open spec fn is_utf8_from(s: Seq<u8>, i: int) -> bool
    decreases s.len() - i when 0 <= i <= s.len()
{
    if i >= s.len() {
        true
    } else {
        utf8_step(s, i) > 0 && is_utf8_from(s, i + utf8_step(s, i))
    }
}

/// The byte sequence is well-formed UTF-8.
pub open spec fn is_utf8(s: Seq<u8>) -> bool {
    is_utf8_from(s, 0)
}

/// Check whether `v` holds well-formed UTF-8.
pub fn check_utf8(v: &Vec<u8>) -> (r: bool)
    ensures
        r == is_utf8(v@),
{
    let n = v.len();
    let mut i: usize = 0;
    while i < n
        invariant
            0 <= i <= n,
            n == v@.len(),
            is_utf8(v@) == is_utf8_from(v@, i as int),
        decreases n - i,
    {
        let b0 = v[i];
        let step: usize = if b0 < 0x80 {
            1
        } else if b0 < 0xC2 {
            0
        } else if b0 <= 0xDF {
            if n - i >= 2 && 0x80 <= v[i + 1] && v[i + 1] <= 0xBF {
                2
            } else {
                0
            }
        } else if b0 == 0xE0 {
            if n - i >= 3 && 0xA0 <= v[i + 1] && v[i + 1] <= 0xBF && 0x80 <= v[i + 2] && v[i + 2]
                <= 0xBF {
                3
            } else {
                0
            }
        } else if b0 <= 0xEC {
            if n - i >= 3 && 0x80 <= v[i + 1] && v[i + 1] <= 0xBF && 0x80 <= v[i + 2] && v[i + 2]
                <= 0xBF {
                3
            } else {
                0
            }
        } else if b0 == 0xED {
            if n - i >= 3 && 0x80 <= v[i + 1] && v[i + 1] <= 0x9F && 0x80 <= v[i + 2] && v[i + 2]
                <= 0xBF {
                3
            } else {
                0
            }
        } else if b0 <= 0xEF {
            if n - i >= 3 && 0x80 <= v[i + 1] && v[i + 1] <= 0xBF && 0x80 <= v[i + 2] && v[i + 2]
                <= 0xBF {
                3
            } else {
                0
            }
        } else if b0 == 0xF0 {
            if n - i >= 4 && 0x90 <= v[i + 1] && v[i + 1] <= 0xBF && 0x80 <= v[i + 2] && v[i + 2]
                <= 0xBF && 0x80 <= v[i + 3] && v[i + 3] <= 0xBF {
                4
            } else {
                0
            }
        } else if b0 <= 0xF3 {
            if n - i >= 4 && 0x80 <= v[i + 1] && v[i + 1] <= 0xBF && 0x80 <= v[i + 2] && v[i + 2]
                <= 0xBF && 0x80 <= v[i + 3] && v[i + 3] <= 0xBF {
                4
            } else {
                0
            }
        } else if b0 == 0xF4 {
            if n - i >= 4 && 0x80 <= v[i + 1] && v[i + 1] <= 0x8F && 0x80 <= v[i + 2] && v[i + 2]
                <= 0xBF && 0x80 <= v[i + 3] && v[i + 3] <= 0xBF {
                4
            } else {
                0
            }
        } else {
            0
        };
        assert(step as int == utf8_step(v@, i as int));
        if step == 0 {
            assert(!is_utf8_from(v@, i as int));
            return false;
        }
        i = i + step;
    }
    true
}

/// Copy the bytes of `data` in `[start, end)` into a fresh vector.
pub fn copy_range(data: &Vec<u8>, start: usize, end: usize) -> (r: Vec<u8>)
    requires
        start <= end <= data@.len(),
    ensures
        r@ == data@.subrange(start as int, end as int),
{
    let mut out: Vec<u8> = Vec::new();
    let mut i: usize = start;
    while i < end
        invariant
            start <= i <= end <= data@.len(),
            out@ == data@.subrange(start as int, i as int),
        decreases end - i,
    {
        out.push(data[i]);
        i = i + 1;
        assert(out@ =~= data@.subrange(start as int, i as int));
    }
    out
}

/// Append all of `src` to `dst`.
pub fn push_bytes(dst: &mut Vec<u8>, src: &Vec<u8>)
    ensures
        final(dst)@ == old(dst)@ + src@,
{
    let mut i: usize = 0;
    let n = src.len();
    while i < n
        invariant
            0 <= i <= n,
            n == src@.len(),
            dst@ == old(dst)@ + src@.subrange(0, i as int),
        decreases n - i,
    {
        dst.push(src[i]);
        i = i + 1;
        assert(dst@ =~= old(dst)@ + src@.subrange(0, i as int));
    }
    assert(dst@ =~= old(dst)@ + src@);
}

/// Append `count` zero bytes to `dst`.
pub fn push_zeros(dst: &mut Vec<u8>, count: usize)
    ensures
        final(dst)@ == old(dst)@ + Seq::new(count as nat, |i: int| 0u8),
{
    let mut i: usize = 0;
    while i < count
        invariant
            0 <= i <= count,
            dst@ == old(dst)@ + Seq::new(i as nat, |j: int| 0u8),
        decreases count - i,
    {
        dst.push(0u8);
        i = i + 1;
        assert(dst@ =~= old(dst)@ + Seq::new(i as nat, |j: int| 0u8));
    }
}

} // verus!
