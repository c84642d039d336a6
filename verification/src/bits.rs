//! Fixed-width integer arithmetic as the reproducible generators use it:
//! wrapping multiply and add, and bit rotation.

use vstd::prelude::*;

verus! {

/// `a * b`, wrapped to 32 bits as `u32::wrapping_mul` does.
pub open spec fn mul32(a: u32, b: u32) -> u32 {
    ((a as int * b as int) % 0x1_0000_0000) as u32
}

/// `a + b`, wrapped to 32 bits as `u32::wrapping_add` does.
pub open spec fn add32(a: u32, b: u32) -> u32 {
    ((a as int + b as int) % 0x1_0000_0000) as u32
}

pub fn wrapping_mul32(a: u32, b: u32) -> (p: u32)
    ensures
        p == mul32(a, b),
{
    assert(a as int * b as int <= 0xFFFF_FFFF * 0xFFFF_FFFF) by (nonlinear_arith)
        requires
            a <= 0xFFFF_FFFF,
            b <= 0xFFFF_FFFF,
    ;
    ((a as u64 * b as u64) % 0x1_0000_0000) as u32
}

pub fn wrapping_add32(a: u32, b: u32) -> (s: u32)
    ensures
        s == add32(a, b),
{
    ((a as u64 + b as u64) % 0x1_0000_0000) as u32
}

/// `x` rotated left by `n` bits, as `u64::rotate_left` does, for `n` in
/// `1..64`.
pub open spec fn rotl64(x: u64, n: u64) -> u64 {
    (x << n) | (x >> (64 - n) as u64)
}

/// Rotate `x` left by `n` bits.
pub fn rotate_left64(x: u64, n: u64) -> (r: u64)
    requires
        1 <= n < 64,
    ensures
        r == rotl64(x, n),
{
    (x << n) | (x >> (64 - n))
}

} // verus!
