//! Byte classes of the mangled-name grammar, and small executable helpers
//! on byte vectors that the decoder and the scanner share.

use vstd::prelude::*;

verus! {

/// ASCII decimal digit, `0` through `9`.
pub open spec fn is_ascii_digit(b: u8) -> bool {
    48 <= b <= 57
}

/// ASCII lowercase hexadecimal digit, `0`-`9` or `a`-`f`.
pub open spec fn is_lower_hex_digit(b: u8) -> bool {
    is_ascii_digit(b) || (97 <= b <= 102)
}

/// A byte that may appear inside a candidate token span: ASCII
/// alphanumerics, `.`, `_` and `$`.
pub open spec fn is_token_byte(b: u8) -> bool {
    is_ascii_digit(b)
        || (65 <= b <= 90)
        || (97 <= b <= 122)
        || b == 36
        || b == 46
        || b == 95
}

pub fn check_ascii_digit(b: u8) -> (r: bool)
    ensures
        r == is_ascii_digit(b),
{
    48 <= b && b <= 57
}

pub fn check_lower_hex_digit(b: u8) -> (r: bool)
    ensures
        r == is_lower_hex_digit(b),
{
    (48 <= b && b <= 57) || (97 <= b && b <= 102)
}

pub fn check_token_byte(b: u8) -> (r: bool)
    ensures
        r == is_token_byte(b),
{
    (48 <= b && b <= 57)
        || (65 <= b && b <= 90)
        || (97 <= b && b <= 122)
        || b == 36
        || b == 46
        || b == 95
}

/// Copies the bytes of `v` at indices `i..j` into a fresh vector.
pub fn subvec(v: &Vec<u8>, i: usize, j: usize) -> (out: Vec<u8>)
    requires
        i <= j <= v@.len(),
    ensures
        out@ == v@.subrange(i as int, j as int),
{
    let mut out: Vec<u8> = Vec::new();
    let mut k: usize = i;
    while k < j
        invariant
            i <= k <= j <= v@.len(),
            out@ == v@.subrange(i as int, k as int),
        decreases j - k,
    {
        out.push(v[k]);
        proof {
            assert(out@ =~= v@.subrange(i as int, k as int + 1));
        }
        k = k + 1;
    }
    out
}

/// Appends all bytes of `src` to `dst`.
pub fn push_all(dst: &mut Vec<u8>, src: &Vec<u8>)
    ensures
        final(dst)@ == old(dst)@ + src@,
{
    let ghost start = dst@;
    let mut k: usize = 0;
    while k < src.len()
        invariant
            k <= src@.len(),
            dst@ == start + src@.subrange(0, k as int),
        decreases src@.len() - k,
    {
        dst.push(src[k]);
        proof {
            assert(dst@ =~= start + src@.subrange(0, k as int + 1));
        }
        k = k + 1;
    }
    proof {
        assert(start + src@.subrange(0, src@.len() as int) =~= start + src@);
    }
}

} // verus!
