//! IEEE 754 binary32 arithmetic on bit patterns: round to nearest, ties to
//! even, as single-precision hardware computes it.
//!
//! The deep field is baked once on the CPU so that a golden frame comes out
//! the same on every machine; it is defined by a chain of single-precision
//! operations, and this module carries that chain out on the operands' bit
//! patterns with integer arithmetic alone. A value is `(-1)^sign × mant ×
//! 2^scale`; every operation works out the exact result as an integer times a
//! power of two and rounds it once, the way the standard prescribes.

use vstd::prelude::*;
use vstd::arithmetic::power2::{pow2, lemma_pow2_pos, lemma_pow2_unfold, lemma_pow2_adds, lemma_pow2_strictly_increases};
use vstd::bits::{lemma_u64_shr_is_div, lemma_u64_shl_is_mul, lemma_u64_pow2_no_overflow, lemma_u64_low_bits_mask_is_mod, low_bits_mask};
use vstd::std_specs::bits::u64_leading_zeros;

verus! {

/// The bit pattern of `+0.0`.
pub const ZERO: u32 = 0;
/// The bit pattern of `0.5`.
pub const HALF: u32 = 0x3F00_0000;
/// The bit pattern of `1.0`.
pub const ONE: u32 = 0x3F80_0000;
/// The bit pattern of `2.0`.
pub const TWO: u32 = 0x4000_0000;
/// The bit pattern of `3.0`.
pub const THREE: u32 = 0x4040_0000;
/// The bit pattern of a quiet NaN.
pub const NAN: u32 = 0x7FC0_0000;
/// The bit pattern of `16_777_216.0`, `2^24`: a 24-bit integer over it is a
/// value in `0..1`.
pub const TWO_POW_24: u32 = 0x4B80_0000;

/// The sign bit.
pub open spec fn sign_of(b: u32) -> bool {
    b >= 0x8000_0000
}

/// The biased exponent field.
pub open spec fn biased_of(b: u32) -> int {
    (b as int / 0x80_0000) % 256
}

/// The fraction field.
pub open spec fn frac_of(b: u32) -> int {
    b as int % 0x80_0000
}

/// Not a number: the top exponent with a fraction.
pub open spec fn is_nan(b: u32) -> bool {
    biased_of(b) == 255 && frac_of(b) != 0
}

/// An infinity: the top exponent without a fraction.
pub open spec fn is_inf(b: u32) -> bool {
    biased_of(b) == 255 && frac_of(b) == 0
}

/// A zero of either sign.
pub open spec fn is_zero(b: u32) -> bool {
    biased_of(b) == 0 && frac_of(b) == 0
}

/// The significand as an integer: the fraction, with the hidden bit for a
/// normal number.
pub open spec fn mant_of(b: u32) -> nat {
    if biased_of(b) == 0 {
        frac_of(b) as nat
    } else {
        (frac_of(b) + 0x80_0000) as nat
    }
}

/// The power of two the significand is scaled by.
pub open spec fn scale_of(b: u32) -> int {
    if biased_of(b) == 0 {
        -149
    } else {
        biased_of(b) - 150
    }
}

/// The number of binary digits of `m`.
pub open spec fn bit_len(m: nat) -> nat
    decreases m,
{
    if m == 0 {
        0
    } else {
        1 + bit_len(m / 2)
    }
}

/// The significand shifted up into `2^23..2^24`, and its scale, for a finite
/// non-zero value.
pub open spec fn norm_mant(b: u32) -> nat {
    mant_of(b) * pow2((24 - bit_len(mant_of(b))) as nat)
}

pub open spec fn norm_scale(b: u32) -> int {
    scale_of(b) - (24 - bit_len(mant_of(b)))
}

/// A signed zero.
pub open spec fn signed_zero(sign: bool) -> u32 {
    if sign {
        0x8000_0000u32
    } else {
        0u32
    }
}

/// The bit pattern of `±q × 2^k` for `q` in `1..2^24` that is either in
/// `2^23..2^24` or subnormal (`k == -149`); too large a value is infinite.
pub open spec fn pack(sign: bool, q: nat, k: int) -> u32 {
    let sbit: int = if sign { 0x8000_0000 } else { 0 };
    if q == 0 {
        signed_zero(sign)
    } else if q >= 0x80_0000 {
        if k + 150 >= 255 {
            (sbit + 0x7F80_0000) as u32
        } else {
            (sbit + (k + 150) * 0x80_0000 + (q - 0x80_0000)) as u32
        }
    } else {
        (sbit + q) as u32
    }
}

/// `±(m + ε) × 2^k`, rounded to the nearest binary32 value, ties to the even
/// significand; `ε` is a positive amount less than one unit of `m` when
/// `sticky` is set, and nothing otherwise.
#[verifier::opaque]
pub open spec fn round_pack(sign: bool, m: nat, k: int, sticky: bool) -> u32 {
    if m == 0 {
        signed_zero(sign)
    } else {
        let l = bit_len(m) as int;
        let s: int = if l - 24 >= -149 - k { l - 24 } else { -149 - k };
        if s <= 0 {
            pack(sign, m * pow2((-s) as nat), k + s)
        } else {
            let q = m / pow2(s as nat);
            let r = m % pow2(s as nat);
            let half = pow2((s - 1) as nat);
            let up = r > half || (r == half && (sticky || q % 2 == 1));
            let q1 = if up { q + 1 } else { q };
            if q1 >= 0x100_0000 {
                pack(sign, q1 / 2, k + s + 1)
            } else {
                pack(sign, q1, k + s)
            }
        }
    }
}

/// `-b`: the sign bit flipped.
pub open spec fn spec_neg(b: u32) -> u32 {
    if sign_of(b) {
        (b - 0x8000_0000) as u32
    } else {
        (b + 0x8000_0000) as u32
    }
}

/// `a × b`.
#[verifier::opaque]
pub open spec fn spec_mul(a: u32, b: u32) -> u32 {
    let sign = sign_of(a) != sign_of(b);
    if is_nan(a) || is_nan(b) || (is_inf(a) && is_zero(b)) || (is_zero(a) && is_inf(b)) {
        NAN
    } else if is_inf(a) || is_inf(b) {
        (signed_zero(sign) + 0x7F80_0000) as u32
    } else if is_zero(a) || is_zero(b) {
        signed_zero(sign)
    } else {
        round_pack(sign, norm_mant(a) * norm_mant(b), norm_scale(a) + norm_scale(b), false)
    }
}

/// `a + b`.
#[verifier::opaque]
pub open spec fn spec_add(a: u32, b: u32) -> u32 {
    if is_nan(a) || is_nan(b) || (is_inf(a) && is_inf(b) && sign_of(a) != sign_of(b)) {
        NAN
    } else if is_inf(a) {
        a
    } else if is_inf(b) {
        b
    } else if is_zero(a) && is_zero(b) {
        signed_zero(sign_of(a) && sign_of(b))
    } else if is_zero(a) {
        b
    } else if is_zero(b) {
        a
    } else {
        let ka = norm_scale(a);
        let kb = norm_scale(b);
        if ka - kb > 39 {
            a
        } else if kb - ka > 39 {
            b
        } else {
            let k = if ka < kb { ka } else { kb };
            let x = norm_mant(a) * pow2((ka - k) as nat);
            let y = norm_mant(b) * pow2((kb - k) as nat);
            if sign_of(a) == sign_of(b) {
                round_pack(sign_of(a), x + y, k, false)
            } else if x > y {
                round_pack(sign_of(a), (x - y) as nat, k, false)
            } else if y > x {
                round_pack(sign_of(b), (y - x) as nat, k, false)
            } else {
                ZERO
            }
        }
    }
}

/// `a - b`.
pub open spec fn spec_sub(a: u32, b: u32) -> u32 {
    spec_add(a, spec_neg(b))
}

/// `a / b`.
#[verifier::opaque]
pub open spec fn spec_div(a: u32, b: u32) -> u32 {
    let sign = sign_of(a) != sign_of(b);
    if is_nan(a) || is_nan(b) || (is_inf(a) && is_inf(b)) || (is_zero(a) && is_zero(b)) {
        NAN
    } else if is_inf(a) || is_zero(b) {
        (signed_zero(sign) + 0x7F80_0000) as u32
    } else if is_inf(b) || is_zero(a) {
        signed_zero(sign)
    } else {
        let n = norm_mant(a) * pow2(39);
        round_pack(sign, n / norm_mant(b), norm_scale(a) - norm_scale(b) - 39, n % norm_mant(b) != 0)
    }
}

/// The largest integer not above `a`.
#[verifier::opaque]
pub open spec fn spec_floor(a: u32) -> u32 {
    if biased_of(a) == 255 || is_zero(a) || scale_of(a) >= 0 {
        a
    } else {
        let shift = (-scale_of(a)) as nat;
        let q = mant_of(a) / pow2(shift);
        let r = mant_of(a) % pow2(shift);
        if !sign_of(a) {
            round_pack(false, q, 0, false)
        } else if r == 0 {
            round_pack(true, q, 0, false)
        } else {
            round_pack(true, q + 1, 0, false)
        }
    }
}

/// The exact value of a finite `a`, truncated toward zero.
pub open spec fn trunc_value(a: u32) -> int {
    let t: int = if scale_of(a) >= 0 {
        (mant_of(a) * pow2(scale_of(a) as nat)) as int
    } else {
        (mant_of(a) / pow2((-scale_of(a)) as nat)) as int
    };
    if sign_of(a) { -t } else { t }
}

/// `a as i32`: truncated toward zero, saturating, and `0` for NaN.
#[verifier::opaque]
pub open spec fn spec_to_i32(a: u32) -> i32 {
    if is_nan(a) {
        0
    } else if is_inf(a) {
        if sign_of(a) { i32::MIN } else { i32::MAX }
    } else if trunc_value(a) > i32::MAX {
        i32::MAX
    } else if trunc_value(a) < i32::MIN {
        i32::MIN
    } else {
        trunc_value(a) as i32
    }
}

/// `a as u8`: truncated toward zero, saturating, and `0` for NaN.
#[verifier::opaque]
pub open spec fn spec_to_u8(a: u32) -> u8 {
    if is_nan(a) {
        0
    } else if is_inf(a) {
        if sign_of(a) { 0 } else { 255 }
    } else if trunc_value(a) > 255 {
        255
    } else if trunc_value(a) < 0 {
        0
    } else {
        trunc_value(a) as u8
    }
}

/// `n as f32`.
pub open spec fn spec_from_u32(n: u32) -> u32 {
    round_pack(false, n as nat, 0, false)
}

/// `n as f32`.
pub open spec fn spec_from_i32(n: i32) -> u32 {
    if n < 0 {
        round_pack(true, (-n) as nat, 0, false)
    } else {
        round_pack(false, n as nat, 0, false)
    }
}

/// The position of a non-NaN value on the number line, as an integer that
/// orders values the way `<` does (both zeros at the same place).
pub open spec fn order_key(b: u32) -> int {
    if sign_of(b) {
        -(b as int - 0x8000_0000)
    } else {
        b as int
    }
}

/// `a < b`.
pub open spec fn spec_lt(a: u32, b: u32) -> bool {
    !is_nan(a) && !is_nan(b) && order_key(a) < order_key(b)
}

/// `a.clamp(lo, hi)`: `lo` below it, `hi` above it, NaN passed through.
pub open spec fn spec_clamp(a: u32, lo: u32, hi: u32) -> u32 {
    let x = if spec_lt(a, lo) { lo } else { a };
    if spec_lt(hi, x) { hi } else { x }
}

/// A number of `l` binary digits lies in `2^(l-1)..2^l`.
pub proof fn lemma_bit_len_bounds(m: nat)
    ensures
        m < pow2(bit_len(m)),
        m > 0 ==> pow2((bit_len(m) - 1) as nat) <= m,
        m == 0 <==> bit_len(m) == 0,
    decreases m,
{
    vstd::arithmetic::power2::lemma2_to64();
    if m > 0 {
        let bl = bit_len(m / 2);
        lemma_bit_len_bounds(m / 2);
        lemma_pow2_unfold(bit_len(m));
        assert(pow2(bit_len(m)) == 2 * pow2(bl));
        if m / 2 > 0 {
            lemma_pow2_unfold(bl);
        }
    }
}

/// A number under `2^n` has at most `n` binary digits.
pub proof fn lemma_bit_len_at_most(m: nat, n: nat)
    requires
        m < pow2(n),
    ensures
        bit_len(m) <= n,
{
    lemma_bit_len_bounds(m);
    if bit_len(m) > n {
        lemma_pow2_increases(n, (bit_len(m) - 1) as nat);
    }
}

/// Powers of two grow with their exponent.
pub proof fn lemma_pow2_increases(a: nat, b: nat)
    requires
        a <= b,
    ensures
        pow2(a) <= pow2(b),
{
    if a < b {
        lemma_pow2_strictly_increases(a, b);
    }
}

/// std's `leading_zeros` counts what [`bit_len`] does not.
proof fn lemma_leading_zeros_bit_len(x: u64)
    ensures
        u64_leading_zeros(x) == 64 - bit_len(x as nat),
    decreases x,
{
    reveal(u64_leading_zeros);
    if x > 0 {
        lemma_leading_zeros_bit_len(x / 2);
        lemma_bit_len_bounds(x as nat);
    }
}

/// The binary digits of `m`.
fn bit_len64(m: u64) -> (l: u32)
    ensures
        l as nat == bit_len(m as nat),
        l <= 64,
{
    proof {
        lemma_leading_zeros_bit_len(m);
        vstd::arithmetic::power2::lemma2_to64_rest();
        lemma_bit_len_at_most(m as nat, 64);
    }
    64 - m.leading_zeros()
}

/// `2^n` as a `u64`, for `n` under 64.
fn pow2_u64(n: u64) -> (p: u64)
    requires
        n < 64,
    ensures
        p == pow2(n as nat),
        p > 0,
{
    proof {
        lemma_u64_pow2_no_overflow(n as nat);
        lemma_u64_shl_is_mul(1, n);
    }
    1u64 << n
}

/// Pack `±q × 2^k` into its bit pattern.
fn pack_exec(sign: bool, q: u64, k: i64) -> (bits: u32)
    requires
        q < 0x100_0000,
        q >= 0x80_0000 ==> k + 150 >= 1,
        q < 0x80_0000 && q > 0 ==> k == -149,
        -2_000_000 < k < 2_000_000,
    ensures
        bits == pack(sign, q as nat, k as int),
{
    let sbit: u32 = if sign {
        0x8000_0000
    } else {
        0
    };
    if q == 0 {
        return sbit;
    }
    if q >= 0x80_0000 {
        if k + 150 >= 255 {
            sbit + 0x7F80_0000
        } else {
            sbit + ((k + 150) as u32) * 0x80_0000 + (q - 0x80_0000) as u32
        }
    } else {
        sbit + q as u32
    }
}

/// Round `±(m + ε) × 2^k` to the nearest binary32 value.
fn round_pack_exec(sign: bool, m: u64, k: i64, sticky: bool) -> (bits: u32)
    requires
        -1_000_000 < k < 1_000_000,
    ensures
        bits == round_pack(sign, m as nat, k as int, sticky),
{
    proof {
        reveal(round_pack);
    }
    if m == 0 {
        return if sign {
            0x8000_0000
        } else {
            0
        };
    }
    let l = bit_len64(m) as i64;
    proof {
        lemma_bit_len_bounds(m as nat);
    }
    let s: i64 = if l - 24 >= -149 - k {
        l - 24
    } else {
        -149 - k
    };
    if s <= 0 {
        let sh = (-s) as u64;
        proof {
            lemma_pow2_adds(l as nat, sh as nat);
            lemma_pow2_pos(sh as nat);
            lemma_pow2_increases((l + sh) as nat, 24);
            assert(m as nat * pow2(sh as nat) < pow2(l as nat) * pow2(sh as nat)) by (nonlinear_arith)
                requires
                    m < pow2(l as nat),
                    pow2(sh as nat) > 0,
            ;
            vstd::arithmetic::power2::lemma2_to64();
            lemma_u64_shl_is_mul(m, sh);
            if l - 24 < -149 - k {
                lemma_pow2_increases((l + sh) as nat, 23);
            } else {
                lemma_pow2_adds((l - 1) as nat, sh as nat);
                assert(pow2((l - 1) as nat) * pow2(sh as nat) <= m as nat * pow2(sh as nat)) by (nonlinear_arith)
                    requires
                        pow2((l - 1) as nat) <= m,
                ;
            }
        }
        let q = m << sh;
        return pack_exec(sign, q, k + s);
    }
    let mut q: u64 = 0;
    let mut up = false;
    if s >= 64 {
        proof {
            vstd::arithmetic::power2::lemma2_to64_rest();
            if s >= 65 {
                lemma_pow2_increases(64, (s - 1) as nat);
            }
            lemma_pow2_increases(64, s as nat);
            vstd::arithmetic::div_mod::lemma_basic_div(m as int, pow2(s as nat) as int);
            vstd::arithmetic::div_mod::lemma_small_mod(m as nat, pow2(s as nat));
        }
        if s == 64 {
            proof {
                lemma_pow2_unfold(64);
            }
            up = m > 0x8000_0000_0000_0000 || (m == 0x8000_0000_0000_0000 && sticky);
        }
    } else {
        let su = s as u64;
        let p = pow2_u64(su);
        q = m / p;
        let r = m % p;
        let half = p / 2;
        proof {
            lemma_pow2_unfold(su as nat);
        }
        up = r > half || (r == half && (sticky || q % 2 == 1));
    }
    proof {
        assert(q as nat == m as nat / pow2(s as nat));
        lemma_quotient_below(m as nat, l as nat, s as nat, (l - s) as nat);
        if s == l - 24 {
            lemma_quotient_below(m as nat, l as nat, s as nat, 24);
            lemma_quotient_above(m as nat, s as nat, 23);
            assert(pow2(24) == 0x100_0000 && pow2(23) == 0x80_0000) by {
                vstd::arithmetic::power2::lemma2_to64();
            }
        } else {
            lemma_quotient_below(m as nat, l as nat, s as nat, 23);
            assert(pow2(23) == 0x80_0000) by {
                vstd::arithmetic::power2::lemma2_to64();
            }
        }
    }
    let q1 = if up {
        q + 1
    } else {
        q
    };
    if q1 >= 0x100_0000 {
        pack_exec(sign, q1 / 2, k + s + 1)
    } else {
        pack_exec(sign, q1, k + s)
    }
}

/// A number below `2^l` divided by `2^s` is below `2^w` when `l <= s + w`.
proof fn lemma_quotient_below(m: nat, l: nat, s: nat, w: nat)
    requires
        m < pow2(l),
        l <= s + w,
    ensures
        m / pow2(s) < pow2(w),
{
    lemma_pow2_increases(l, s + w);
    lemma_pow2_adds(s, w);
    lemma_pow2_pos(s);
    vstd::arithmetic::div_mod::lemma_multiply_divide_lt(m as int, pow2(s) as int, pow2(w) as int);
}

/// A number at least `2^(s + w)` divided by `2^s` is at least `2^w`.
proof fn lemma_quotient_above(m: nat, s: nat, w: nat)
    requires
        pow2(s + w) <= m,
    ensures
        pow2(w) <= m / pow2(s),
{
    lemma_pow2_adds(s, w);
    lemma_pow2_pos(s);
    vstd::arithmetic::div_mod::lemma_div_is_ordered((pow2(s) * pow2(w)) as int, m as int, pow2(s) as int);
    vstd::arithmetic::mul::lemma_mul_is_commutative(pow2(s) as int, pow2(w) as int);
    vstd::arithmetic::div_mod::lemma_div_by_multiple(pow2(w) as int, pow2(s) as int);
}

/// The sign, biased exponent and fraction fields of `b`.
fn fields(b: u32) -> (r: (bool, u32, u32))
    ensures
        r.0 == sign_of(b),
        r.1 == biased_of(b),
        r.2 == frac_of(b),
        r.1 < 256,
        r.2 < 0x80_0000,
{
    let biased = (b >> 23u32) & 0xFFu32;
    let frac = b & 0x7F_FFFFu32;
    assert((b >> 23u32) & 0xFFu32 == (b / 0x80_0000u32) % 256u32) by (bit_vector);
    assert(b & 0x7F_FFFFu32 == b % 0x80_0000u32) by (bit_vector);
    (b >= 0x8000_0000u32, biased, frac)
}

/// A finite, non-zero value.
pub open spec fn is_finite_nonzero(b: u32) -> bool {
    biased_of(b) < 255 && !is_zero(b)
}

/// The normalized significand lies in `2^23..2^24`, and its scale is no more
/// than the biased exponent says.
pub proof fn lemma_norm_bounds(b: u32)
    requires
        is_finite_nonzero(b),
    ensures
        0x80_0000 <= norm_mant(b) < 0x100_0000,
        -172 <= norm_scale(b) <= biased_of(b) - 150,
        biased_of(b) != 0 ==> norm_scale(b) == biased_of(b) - 150,
        norm_scale(b) <= 104,
{
    let mant = mant_of(b);
    let l = bit_len(mant);
    vstd::arithmetic::power2::lemma2_to64();
    lemma_bit_len_bounds(mant);
    lemma_bit_len_at_most(mant, 24);
    if biased_of(b) == 0 {
        lemma_bit_len_at_most(mant, 23);
    } else {
        assert(bit_len(mant) == 24) by {
            if bit_len(mant) < 24 {
                lemma_pow2_increases(bit_len(mant), 23);
            }
        }
    }
    let sh = (24 - l) as nat;
    lemma_pow2_adds(l, sh);
    lemma_pow2_adds((l - 1) as nat, sh);
    lemma_pow2_pos(sh);
    assert(mant * pow2(sh) < pow2(l) * pow2(sh)) by (nonlinear_arith)
        requires
            mant < pow2(l),
            pow2(sh) > 0,
    ;
    assert(pow2((l - 1) as nat) * pow2(sh) <= mant * pow2(sh)) by (nonlinear_arith)
        requires
            pow2((l - 1) as nat) <= mant,
    ;
}

/// The normalized significand and scale of a finite non-zero value.
fn normalized(b: u32) -> (r: (u64, i64))
    requires
        is_finite_nonzero(b),
    ensures
        r.0 == norm_mant(b),
        r.1 == norm_scale(b),
        0x80_0000 <= r.0 < 0x100_0000,
        -172 <= r.1 <= 104,
{
    let (_, biased, frac) = fields(b);
    let mant: u64;
    let scale: i64;
    if biased == 0 {
        mant = frac as u64;
        scale = -149;
    } else {
        mant = frac as u64 + 0x80_0000;
        scale = biased as i64 - 150;
    }
    let l = bit_len64(mant);
    proof {
        lemma_norm_bounds(b);
        vstd::arithmetic::power2::lemma2_to64();
        lemma_bit_len_bounds(mant as nat);
        lemma_bit_len_at_most(mant as nat, 24);
    }
    let sh = (24 - l) as u64;
    proof {
        lemma_u64_shl_is_mul(mant, sh);
    }
    (mant << sh, scale - sh as i64)
}

/// The bit pattern of an infinity with the given sign.
fn infinity(sign: bool) -> (bits: u32)
    ensures
        bits == (signed_zero(sign) + 0x7F80_0000) as u32,
{
    if sign {
        0xFF80_0000
    } else {
        0x7F80_0000
    }
}

/// A signed zero.
fn zero_of(sign: bool) -> (bits: u32)
    ensures
        bits == signed_zero(sign),
{
    if sign {
        0x8000_0000
    } else {
        0
    }
}

/// `a × b`, rounded to nearest, ties to even.
pub fn mul(a: u32, b: u32) -> (r: u32)
    ensures
        r == spec_mul(a, b),
{
    proof {
        reveal(spec_mul);
    }
    let (sa, ea, fa) = fields(a);
    let (sb, eb, fb) = fields(b);
    let sign = sa != sb;
    let nan_a = ea == 255 && fa != 0;
    let nan_b = eb == 255 && fb != 0;
    let inf_a = ea == 255 && fa == 0;
    let inf_b = eb == 255 && fb == 0;
    let zero_a = ea == 0 && fa == 0;
    let zero_b = eb == 0 && fb == 0;
    if nan_a || nan_b || (inf_a && zero_b) || (zero_a && inf_b) {
        return NAN;
    }
    if inf_a || inf_b {
        return infinity(sign);
    }
    if zero_a || zero_b {
        return zero_of(sign);
    }
    let (ma, ka) = normalized(a);
    let (mb, kb) = normalized(b);
    assert(ma * mb < 0x1_0000_0000_0000) by (nonlinear_arith)
        requires
            ma < 0x100_0000,
            mb < 0x100_0000,
    ;
    round_pack_exec(sign, ma * mb, ka + kb, false)
}

/// `-b`.
pub fn neg(b: u32) -> (r: u32)
    ensures
        r == spec_neg(b),
{
    if b >= 0x8000_0000 {
        b - 0x8000_0000
    } else {
        b + 0x8000_0000
    }
}

/// `a + b`, rounded to nearest, ties to even.
pub fn add(a: u32, b: u32) -> (r: u32)
    ensures
        r == spec_add(a, b),
{
    proof {
        reveal(spec_add);
    }
    let (sa, ea, fa) = fields(a);
    let (sb, eb, fb) = fields(b);
    let nan_a = ea == 255 && fa != 0;
    let nan_b = eb == 255 && fb != 0;
    let inf_a = ea == 255 && fa == 0;
    let inf_b = eb == 255 && fb == 0;
    let zero_a = ea == 0 && fa == 0;
    let zero_b = eb == 0 && fb == 0;
    if nan_a || nan_b || (inf_a && inf_b && sa != sb) {
        return NAN;
    }
    if inf_a {
        return a;
    }
    if inf_b {
        return b;
    }
    if zero_a && zero_b {
        return zero_of(sa && sb);
    }
    if zero_a {
        return b;
    }
    if zero_b {
        return a;
    }
    let (ma, ka) = normalized(a);
    let (mb, kb) = normalized(b);
    if ka - kb > 39 {
        return a;
    }
    if kb - ka > 39 {
        return b;
    }
    let k = if ka < kb {
        ka
    } else {
        kb
    };
    let da = (ka - k) as u64;
    let db = (kb - k) as u64;
    proof {
        vstd::arithmetic::power2::lemma2_to64_rest();
        lemma_pow2_increases(da as nat, 39);
        lemma_pow2_increases(db as nat, 39);
        assert(ma * pow2(da as nat) < 0x8000_0000_0000_0000) by (nonlinear_arith)
            requires
                ma < 0x100_0000,
                pow2(da as nat) <= pow2(39),
                pow2(39) == 0x80_0000_0000,
        ;
        assert(mb * pow2(db as nat) < 0x8000_0000_0000_0000) by (nonlinear_arith)
            requires
                mb < 0x100_0000,
                pow2(db as nat) <= pow2(39),
                pow2(39) == 0x80_0000_0000,
        ;
        lemma_u64_shl_is_mul(ma, da);
        lemma_u64_shl_is_mul(mb, db);
    }
    let x = ma << da;
    let y = mb << db;
    if sa == sb {
        round_pack_exec(sa, x + y, k, false)
    } else if x > y {
        round_pack_exec(sa, x - y, k, false)
    } else if y > x {
        round_pack_exec(sb, y - x, k, false)
    } else {
        ZERO
    }
}

/// `a - b`, rounded to nearest, ties to even.
pub fn sub(a: u32, b: u32) -> (r: u32)
    ensures
        r == spec_sub(a, b),
{
    self::add(a, neg(b))
}

/// `a / b`, rounded to nearest, ties to even.
pub fn div(a: u32, b: u32) -> (r: u32)
    ensures
        r == spec_div(a, b),
{
    proof {
        reveal(spec_div);
    }
    let (sa, ea, fa) = fields(a);
    let (sb, eb, fb) = fields(b);
    let sign = sa != sb;
    let nan_a = ea == 255 && fa != 0;
    let nan_b = eb == 255 && fb != 0;
    let inf_a = ea == 255 && fa == 0;
    let inf_b = eb == 255 && fb == 0;
    let zero_a = ea == 0 && fa == 0;
    let zero_b = eb == 0 && fb == 0;
    if nan_a || nan_b || (inf_a && inf_b) || (zero_a && zero_b) {
        return NAN;
    }
    if inf_a || zero_b {
        return infinity(sign);
    }
    if inf_b || zero_a {
        return zero_of(sign);
    }
    let (ma, ka) = normalized(a);
    let (mb, kb) = normalized(b);
    proof {
        vstd::arithmetic::power2::lemma2_to64_rest();
        assert(ma * pow2(39) < 0x8000_0000_0000_0000) by (nonlinear_arith)
            requires
                ma < 0x100_0000,
                pow2(39) == 0x80_0000_0000,
        ;
        lemma_u64_shl_is_mul(ma, 39);
    }
    let n = ma << 39u64;
    round_pack_exec(sign, n / mb, ka - kb - 39, n % mb != 0)
}

/// The significand: the fraction, with the hidden bit for a normal exponent.
fn significand(biased: u32, frac: u32) -> (m: u64)
    requires
        biased < 256,
        frac < 0x80_0000,
    ensures
        m < 0x100_0000,
        biased == 0 ==> m == frac,
        biased != 0 ==> m == frac + 0x80_0000,
{
    if biased == 0 {
        frac as u64
    } else {
        frac as u64 + 0x80_0000
    }
}

/// `m / 2^shift` and `m % 2^shift` for a significand `m`.
fn split_at(m: u64, shift: u64) -> (r: (u64, u64))
    requires
        m < 0x100_0000,
    ensures
        r.0 == m as nat / pow2(shift as nat),
        r.1 == m as nat % pow2(shift as nat),
        r.0 <= m,
{
    if shift >= 24 {
        proof {
            vstd::arithmetic::power2::lemma2_to64();
            lemma_pow2_increases(24, shift as nat);
            vstd::arithmetic::div_mod::lemma_basic_div(m as int, pow2(shift as nat) as int);
            vstd::arithmetic::div_mod::lemma_small_mod(m as nat, pow2(shift as nat));
        }
        (0, m)
    } else {
        let p = pow2_u64(shift);
        (m / p, m % p)
    }
}

/// The largest integer not above `a`.
pub fn floor(a: u32) -> (r: u32)
    ensures
        r == spec_floor(a),
{
    proof {
        reveal(spec_floor);
    }
    let (sa, ea, fa) = fields(a);
    if ea == 255 || (ea == 0 && fa == 0) || ea >= 150 {
        return a;
    }
    let m = significand(ea, fa);
    let shift: u64 = if ea == 0 {
        149
    } else {
        150 - ea as u64
    };
    let (q, r) = split_at(m, shift);
    if !sa {
        round_pack_exec(false, q, 0, false)
    } else if r == 0 {
        round_pack_exec(true, q, 0, false)
    } else {
        round_pack_exec(true, q + 1, 0, false)
    }
}

/// The magnitude of a finite `a` under `2^31`, truncated toward zero.
fn truncated(biased: u32, frac: u32) -> (t: u64)
    requires
        biased < 158,
        frac < 0x80_0000,
    ensures
        t < 0x8000_0000,
        forall|b: u32|
            biased_of(b) == biased && frac_of(b) == frac ==> #[trigger] trunc_value(b) == if sign_of(b) {
                -t
            } else {
                t as int
            },
{
    let m = significand(biased, frac);
    if biased >= 150 {
        let sh = (biased - 150) as u64;
        proof {
            vstd::arithmetic::power2::lemma2_to64();
            lemma_pow2_increases(sh as nat, 7);
            assert(m * pow2(sh as nat) < 0x8000_0000) by (nonlinear_arith)
                requires
                    m < 0x100_0000,
                    pow2(sh as nat) <= pow2(7),
                    pow2(7) == 128,
            ;
            lemma_u64_shl_is_mul(m, sh);
        }
        m << sh
    } else {
        let shift: u64 = if biased == 0 {
            149
        } else {
            150 - biased as u64
        };
        let (q, _) = split_at(m, shift);
        q
    }
}

/// `a as i32`: truncated toward zero, saturating, and `0` for NaN.
pub fn to_i32(a: u32) -> (r: i32)
    ensures
        r == spec_to_i32(a),
{
    proof {
        reveal(spec_to_i32);
    }
    let (sa, ea, fa) = fields(a);
    if ea == 255 && fa != 0 {
        return 0;
    }
    if ea == 255 {
        return if sa {
            i32::MIN
        } else {
            i32::MAX
        };
    }
    if ea >= 158 {
        proof {
            let sc = scale_of(a) as nat;
            vstd::arithmetic::power2::lemma2_to64();
            lemma_pow2_increases(8, sc);
            assert(mant_of(a) * pow2(sc) >= 0x8000_0000) by (nonlinear_arith)
                requires
                    mant_of(a) >= 0x80_0000,
                    pow2(sc) >= pow2(8),
                    pow2(8) == 256,
            ;
        }
        return if sa {
            i32::MIN
        } else {
            i32::MAX
        };
    }
    let t = truncated(ea, fa);
    if sa {
        (-(t as i64)) as i32
    } else {
        t as i32
    }
}

/// `a as u8`: truncated toward zero, saturating, and `0` for NaN.
pub fn to_u8(a: u32) -> (r: u8)
    ensures
        r == spec_to_u8(a),
{
    proof {
        reveal(spec_to_u8);
    }
    let (sa, ea, fa) = fields(a);
    if ea == 255 && fa != 0 {
        return 0;
    }
    if ea == 255 {
        return if sa {
            0
        } else {
            255
        };
    }
    if ea >= 150 {
        proof {
            let sc = scale_of(a) as nat;
            lemma_pow2_pos(sc);
            assert(mant_of(a) * pow2(sc) >= 0x80_0000) by (nonlinear_arith)
                requires
                    mant_of(a) >= 0x80_0000,
                    pow2(sc) >= 1,
            ;
        }
        return if sa {
            0
        } else {
            255
        };
    }
    let t = truncated(ea, fa);
    if sa {
        0
    } else if t > 255 {
        255
    } else {
        t as u8
    }
}

/// `n as f32`, rounded to nearest, ties to even.
pub fn from_u32(n: u32) -> (r: u32)
    ensures
        r == spec_from_u32(n),
{
    round_pack_exec(false, n as u64, 0, false)
}

/// `n as f32`, rounded to nearest, ties to even.
pub fn from_i32(n: i32) -> (r: u32)
    ensures
        r == spec_from_i32(n),
{
    if n < 0 {
        round_pack_exec(true, (-(n as i64)) as u64, 0, false)
    } else {
        round_pack_exec(false, n as u64, 0, false)
    }
}

/// Where a non-NaN value stands on the number line.
fn key(b: u32) -> (k: i64)
    ensures
        k == order_key(b),
{
    if b >= 0x8000_0000 {
        -((b - 0x8000_0000) as i64)
    } else {
        b as i64
    }
}

/// `a < b`; false when either is NaN.
pub fn lt(a: u32, b: u32) -> (r: bool)
    ensures
        r == spec_lt(a, b),
{
    let (_, ea, fa) = fields(a);
    let (_, eb, fb) = fields(b);
    if (ea == 255 && fa != 0) || (eb == 255 && fb != 0) {
        return false;
    }
    key(a) < key(b)
}

/// `a.clamp(lo, hi)`, for bounds that are numbers in order.
pub fn clamp(a: u32, lo: u32, hi: u32) -> (r: u32)
    requires
        !is_nan(lo),
        !is_nan(hi),
        !spec_lt(hi, lo),
    ensures
        r == spec_clamp(a, lo, hi),
{
    let x = if lt(a, lo) {
        lo
    } else {
        a
    };
    if lt(hi, x) {
        hi
    } else {
        x
    }
}

/// The fields of a packed value: a normal significand gives exponent
/// `k + 150` (infinity once that reaches 255), a smaller one a subnormal.
proof fn lemma_pack_fields(sign: bool, q: nat, k: int)
    requires
        0 < q < 0x100_0000,
        q >= 0x80_0000 ==> k + 150 >= 1,
    ensures
        sign_of(pack(sign, q, k)) == sign,
        q >= 0x80_0000 && k + 150 < 255 ==> biased_of(pack(sign, q, k)) == k + 150 && frac_of(
            pack(sign, q, k),
        ) == q - 0x80_0000,
        q >= 0x80_0000 && k + 150 >= 255 ==> biased_of(pack(sign, q, k)) == 255 && frac_of(
            pack(sign, q, k),
        ) == 0,
        q < 0x80_0000 ==> biased_of(pack(sign, q, k)) == 0 && frac_of(pack(sign, q, k)) == q,
{
    let sbit: int = if sign { 0x8000_0000 } else { 0 };
    let b = pack(sign, q, k);
    if q >= 0x80_0000 {
        if k + 150 >= 255 {
            assert(b as int == sbit + 0x7F80_0000);
        } else {
            let e = k + 150;
            let f = q - 0x80_0000;
            assert(b as int == sbit + e * 0x80_0000 + f);
            assert((sbit + e * 0x80_0000 + f) / 0x80_0000 == sbit / 0x80_0000 + e) by (nonlinear_arith)
                requires
                    0 <= f < 0x80_0000,
                    sbit == 0 || sbit == 0x8000_0000,
            ;
            assert((sbit + e * 0x80_0000 + f) % 0x80_0000 == f) by (nonlinear_arith)
                requires
                    0 <= f < 0x80_0000,
                    sbit == 0 || sbit == 0x8000_0000,
            ;
        }
    } else {
        assert(b as int == sbit + q);
    }
}

/// A signed zero has exponent and fraction zero.
proof fn lemma_signed_zero_fields(sign: bool)
    ensures
        biased_of(signed_zero(sign)) == 0,
        frac_of(signed_zero(sign)) == 0,
        sign_of(signed_zero(sign)) == sign,
{
}

/// Rounding never gives NaN, and the exponent it gives is bounded by the
/// position of the leading digit: one more than it when the rounding carries
/// into a new binade, which cannot happen to a significand of 24 digits or
/// fewer.
pub proof fn lemma_round_pack_biased(sign: bool, m: nat, k: int, sticky: bool)
    ensures
        !is_nan(round_pack(sign, m, k, sticky)),
        biased_of(round_pack(sign, m, k, sticky)) <= 1 || biased_of(round_pack(sign, m, k, sticky))
            <= k + bit_len(m) + 127,
        bit_len(m) <= 24 ==> biased_of(round_pack(sign, m, k, sticky)) <= 1 || biased_of(
            round_pack(sign, m, k, sticky),
        ) <= k + bit_len(m) + 126,
{
    reveal(round_pack);
    if m == 0 {
        lemma_signed_zero_fields(sign);
    } else {
        let l = bit_len(m) as int;
        let s: int = if l - 24 >= -149 - k { l - 24 } else { -149 - k };
        if s <= 0 {
            lemma_exact_branch(sign, m, k);
        } else {
            lemma_rounding_branch(sign, m, k, sticky);
        }
    }
}

/// The exponent of a value that fits its significand without rounding.
proof fn lemma_exact_branch(sign: bool, m: nat, k: int)
    requires
        m > 0,
        bit_len(m) - 24 <= 0,
        -149 - k <= 0,
    ensures
        ({
            let l = bit_len(m) as int;
            let s: int = if l - 24 >= -149 - k { l - 24 } else { -149 - k };
            let b = pack(sign, m * pow2((-s) as nat), k + s);
            !is_nan(b) && (biased_of(b) <= 1 || biased_of(b) <= k + l + 126)
        }),
{
    let l = bit_len(m) as int;
    let s: int = if l - 24 >= -149 - k { l - 24 } else { -149 - k };
    let sh = (-s) as nat;
    let q = m * pow2(sh);
    assert(0 < q < 0x100_0000 && (s == l - 24 ==> q >= 0x80_0000) && (s != l - 24 ==> q
        < 0x80_0000)) by {
        vstd::arithmetic::power2::lemma2_to64();
        lemma_bit_len_bounds(m);
        lemma_pow2_adds(l as nat, sh);
        lemma_pow2_pos(sh);
        lemma_pow2_increases((l + sh) as nat, 24);
        assert(m * pow2(sh) < pow2(l as nat) * pow2(sh)) by (nonlinear_arith)
            requires
                m < pow2(l as nat),
                pow2(sh) > 0,
        ;
        assert(q > 0) by (nonlinear_arith)
            requires
                q == m * pow2(sh),
                m > 0,
                pow2(sh) > 0,
        ;
        if s != l - 24 {
            lemma_pow2_increases((l + sh) as nat, 23);
        } else {
            lemma_pow2_adds((l - 1) as nat, sh);
            assert(pow2((l - 1) as nat) * pow2(sh) <= m * pow2(sh)) by (nonlinear_arith)
                requires
                    pow2((l - 1) as nat) <= m,
            ;
        }
    }
    lemma_pack_fields(sign, q, k + s);
}

/// The exponent of a value whose significand is rounded to 24 digits.
proof fn lemma_rounding_branch(sign: bool, m: nat, k: int, sticky: bool)
    requires
        m > 0,
        bit_len(m) - 24 > 0 || -149 - k > 0,
    ensures
        ({
            let l = bit_len(m) as int;
            let b = round_pack(sign, m, k, sticky);
            !is_nan(b) && (biased_of(b) <= 1 || biased_of(b) <= k + l + 127) && (l <= 24 ==> (
            biased_of(b) <= 1 || biased_of(b) <= k + l + 126))
        }),
{
    reveal(round_pack);
    let l = bit_len(m) as int;
    let s: int = if l - 24 >= -149 - k { l - 24 } else { -149 - k };
    let q = m / pow2(s as nat);
    assert(q < 0x100_0000 && (s == l - 24 ==> q >= 0x80_0000) && (s != l - 24 ==> q < 0x80_0000))
        by {
        vstd::arithmetic::power2::lemma2_to64();
        lemma_bit_len_bounds(m);
        if s == l - 24 {
            lemma_quotient_below(m, l as nat, s as nat, 24);
            lemma_quotient_above(m, s as nat, 23);
        } else {
            lemma_quotient_below(m, l as nat, s as nat, 23);
        }
    }
    let r = m % pow2(s as nat);
    let half = pow2((s - 1) as nat);
    let up = r > half || (r == half && (sticky || q % 2 == 1));
    lemma_rounded_pack(sign, q, up, k + s, s == l - 24);
}

/// Packing a rounded quotient: a carry out of the top moves it up a binade.
proof fn lemma_rounded_pack(sign: bool, q: nat, up: bool, e: int, normal: bool)
    requires
        q < 0x100_0000,
        normal ==> q >= 0x80_0000 && e >= -149,
        !normal ==> q < 0x80_0000 && e == -149,
    ensures
        ({
            let q1: nat = if up { q + 1 } else { q };
            let b = if q1 >= 0x100_0000 {
                pack(sign, q1 / 2, e + 1)
            } else {
                pack(sign, q1, e)
            };
            !is_nan(b) && (biased_of(b) <= 1 || (normal && biased_of(b) <= e + 151))
        }),
{
    let q1: nat = if up { q + 1 } else { q };
    if q1 >= 0x100_0000 {
        lemma_pack_fields(sign, q1 / 2, e + 1);
    } else if q1 == 0 {
        lemma_signed_zero_fields(sign);
    } else {
        lemma_pack_fields(sign, q1, e);
    }
}

/// A product's exponent is at most the sum of its factors' exponents less the
/// bias, give or take the one a carry adds; a product of numbers is a number.
pub proof fn lemma_mul_biased(a: u32, b: u32)
    requires
        biased_of(a) < 255,
        biased_of(b) < 255,
    ensures
        !is_nan(spec_mul(a, b)),
        biased_of(spec_mul(a, b)) <= 1 || biased_of(spec_mul(a, b)) <= biased_of(a) + biased_of(b)
            - 125,
{
    reveal(spec_mul);
    let sign = sign_of(a) != sign_of(b);
    if is_zero(a) || is_zero(b) {
        lemma_signed_zero_fields(sign);
    } else {
        lemma_norm_bounds(a);
        lemma_norm_bounds(b);
        let m = norm_mant(a) * norm_mant(b);
        assert(bit_len(m) <= 48) by {
            vstd::arithmetic::power2::lemma2_to64_rest();
            assert(m < 0x1_0000_0000_0000) by (nonlinear_arith)
                requires
                    m == norm_mant(a) * norm_mant(b),
                    norm_mant(a) < 0x100_0000,
                    norm_mant(b) < 0x100_0000,
            ;
            lemma_bit_len_at_most(m, 48);
        }
        lemma_round_pack_biased(sign, m, norm_scale(a) + norm_scale(b), false);
    }
}

/// A quotient's exponent is at most the dividend's less the divisor's scale,
/// give or take the bias; a number divided by a non-zero number is a number.
pub proof fn lemma_div_biased(a: u32, b: u32)
    requires
        biased_of(a) < 255,
        is_finite_nonzero(b),
    ensures
        !is_nan(spec_div(a, b)),
        biased_of(spec_div(a, b)) <= 1 || biased_of(spec_div(a, b)) <= biased_of(a) - norm_scale(b)
            - 22,
{
    reveal(spec_div);
    let sign = sign_of(a) != sign_of(b);
    if is_zero(a) {
        lemma_signed_zero_fields(sign);
    } else {
        lemma_norm_bounds(a);
        lemma_norm_bounds(b);
        let n = norm_mant(a) * pow2(39);
        let q = n / norm_mant(b);
        assert(bit_len(q) <= 40) by {
            vstd::arithmetic::power2::lemma2_to64_rest();
            assert(q < 0x100_0000_0000) by (nonlinear_arith)
                requires
                    q == n / norm_mant(b),
                    n == norm_mant(a) * 0x80_0000_0000,
                    norm_mant(a) < 0x100_0000,
                    norm_mant(b) >= 0x80_0000,
            {
                vstd::arithmetic::div_mod::lemma_div_is_ordered_by_denominator(
                    n as int,
                    0x80_0000,
                    norm_mant(b) as int,
                );
                vstd::arithmetic::div_mod::lemma_multiply_divide_lt(
                    n as int,
                    0x80_0000,
                    0x100_0000_0000,
                );
            }
            lemma_bit_len_at_most(q, 40);
        }
        lemma_round_pack_biased(
            sign,
            q,
            norm_scale(a) - norm_scale(b) - 39,
            n % norm_mant(b) != 0,
        );
    }
}

/// A finite value with exponent at most 152 truncates to an integer of at
/// most 26 binary digits.
pub proof fn lemma_trunc_bound(b: u32)
    requires
        biased_of(b) <= 152,
    ensures
        -0x400_0000 <= trunc_value(b) <= 0x400_0000,
{
    vstd::arithmetic::power2::lemma2_to64();
    let mant = mant_of(b);
    if scale_of(b) >= 0 {
        let sc = scale_of(b) as nat;
        lemma_pow2_increases(sc, 2);
        assert(mant * pow2(sc) <= 0x400_0000) by (nonlinear_arith)
            requires
                mant < 0x100_0000,
                pow2(sc) <= 4,
        ;
    } else {
        let sh = (-scale_of(b)) as nat;
        lemma_pow2_pos(sh);
        vstd::arithmetic::div_mod::lemma_div_is_ordered_by_denominator(mant as int, 1, pow2(sh) as int);
    }
}

/// The floor of a value under `2^31` in magnitude converts to an integer
/// below `i32::MAX`, so the lattice coordinate after it is still an `i32`.
pub proof fn lemma_floor_bound(x: u32)
    requires
        biased_of(x) <= 157,
    ensures
        spec_to_i32(spec_floor(x)) < i32::MAX,
{
    reveal(spec_floor);
    reveal(spec_to_i32);
    if is_zero(x) {
        lemma_trunc_bound(x);
    } else if biased_of(x) >= 150 {
        let sc = scale_of(x) as nat;
        assert(mant_of(x) * pow2(sc) < 0x7FFF_FFFF) by {
            vstd::arithmetic::power2::lemma2_to64();
            lemma_pow2_increases(sc, 7);
            assert(mant_of(x) * pow2(sc) <= 0xFF_FFFF * 128) by (nonlinear_arith)
                requires
                    mant_of(x) < 0x100_0000,
                    pow2(sc) <= 128,
            ;
        }
    } else {
        let shift = (-scale_of(x)) as nat;
        let q = mant_of(x) / pow2(shift);
        assert(q < 0x100_0000) by {
            lemma_pow2_pos(shift);
            vstd::arithmetic::div_mod::lemma_div_is_ordered_by_denominator(
                mant_of(x) as int,
                1,
                pow2(shift) as int,
            );
        }
        assert(q + 1 <= 0x100_0000) by (nonlinear_arith)
            requires
                q < 0x100_0000,
        ;
        lemma_bit_len_at_most_25(q);
        lemma_bit_len_at_most_25(q + 1);
        lemma_round_pack_biased(sign_of(x), q, 0, false);
        lemma_round_pack_biased(sign_of(x), q + 1, 0, false);
        lemma_trunc_bound(spec_floor(x));
    }
}

/// A number up to `2^24` has at most 25 binary digits.
proof fn lemma_bit_len_at_most_25(q: nat)
    requires
        q <= 0x100_0000,
    ensures
        bit_len(q) <= 25,
{
    vstd::arithmetic::power2::lemma2_to64();
    lemma_bit_len_at_most(q, 25);
}

/// A positive integer under `2^24` converts exactly: its significand shifted
/// up to 24 digits, scaled back down by the same power of two.
proof fn lemma_from_small(n: u32)
    requires
        0 < n < 0x100_0000,
    ensures
        ({
            let l = bit_len(n as nat);
            let a = spec_from_u32(n);
            &&& 1 <= l <= 24
            &&& is_finite_nonzero(a)
            &&& !sign_of(a)
            &&& biased_of(a) == l + 126
            &&& norm_mant(a) == n * pow2((24 - l) as nat)
            &&& norm_scale(a) == l - 24
        }),
{
    reveal(round_pack);
    let l = bit_len(n as nat);
    let sh = (24 - l) as nat;
    let q: nat = (n * pow2(sh)) as nat;
    assert(1 <= l <= 24 && 0x80_0000 <= q < 0x100_0000) by {
        vstd::arithmetic::power2::lemma2_to64();
        lemma_bit_len_bounds(n as nat);
        lemma_bit_len_at_most(n as nat, 24);
        lemma_pow2_adds(l, sh);
        lemma_pow2_adds((l - 1) as nat, sh);
        lemma_pow2_pos(sh);
        assert(n * pow2(sh) < pow2(l) * pow2(sh)) by (nonlinear_arith)
            requires
                n < pow2(l),
                pow2(sh) > 0,
        ;
        assert(pow2((l - 1) as nat) * pow2(sh) <= n * pow2(sh)) by (nonlinear_arith)
            requires
                pow2((l - 1) as nat) <= n,
        ;
    }
    let a = spec_from_u32(n);
    assert(a == pack(false, q, l - 24));
    lemma_pack_fields(false, q, l - 24);
    assert(mant_of(a) == q);
    assert(bit_len(q) == 24) by {
        vstd::arithmetic::power2::lemma2_to64();
        lemma_bit_len_bounds(q);
        lemma_bit_len_at_most(q, 24);
        if bit_len(q) < 24 {
            lemma_pow2_increases(bit_len(q), 23);
        }
    }
    assert(pow2(0) == 1) by {
        vstd::arithmetic::power2::lemma2_to64();
    }
    assert(is_finite_nonzero(a));
    assert(!sign_of(a));
    assert(biased_of(a) == l + 126);
    assert(norm_mant(a) == q * pow2(0));
    assert(q * pow2(0) == q) by (nonlinear_arith)
        requires
            pow2(0) == 1,
    ;
    assert(norm_scale(a) == l - 24);
}

/// Rounding a value that already fits 24 digits after the shift is exact.
proof fn lemma_round_exact_shift(q: nat, k: int)
    requires
        0x80_0000 <= q < 0x100_0000,
        -149 <= k - 16 + 16,
        k + 16 + 150 >= 1,
    ensures
        round_pack(false, q * 0x1_0000, k, false) == pack(false, q, k + 16),
{
    reveal(round_pack);
    let m: nat = q * 0x1_0000;
    assert(bit_len(m) == 40) by {
        vstd::arithmetic::power2::lemma2_to64_rest();
        lemma_bit_len_bounds(m);
        lemma_bit_len_at_most(m, 40);
        if bit_len(m) < 40 {
            lemma_pow2_increases(bit_len(m), 39);
        }
    }
    assert(pow2(16) == 0x1_0000 && pow2(15) == 0x8000) by {
        vstd::arithmetic::power2::lemma2_to64();
    }
    assert(m / 0x1_0000 == q && m % 0x1_0000 == 0) by (nonlinear_arith)
        requires
            m == q * 0x1_0000,
    ;
}

/// A 24-bit integer over `2^24` is a value in `0..1`: not negative, not NaN,
/// and below one.
pub proof fn lemma_unit_fraction(n: u32)
    requires
        n < 0x100_0000,
    ensures
        !is_nan(spec_div(spec_from_u32(n), TWO_POW_24)),
        !sign_of(spec_div(spec_from_u32(n), TWO_POW_24)),
        !spec_lt(spec_div(spec_from_u32(n), TWO_POW_24), ZERO),
        spec_lt(spec_div(spec_from_u32(n), TWO_POW_24), ONE),
{
    reveal(spec_div);
    let u = spec_div(spec_from_u32(n), TWO_POW_24);
    if n == 0 {
        reveal(round_pack);
        assert(spec_from_u32(n) == 0);
        lemma_signed_zero_fields(false);
    } else {
        lemma_from_small(n);
        let a = spec_from_u32(n);
        let l = bit_len(n as nat);
        let ma = norm_mant(a);
        lemma_norm_bounds(TWO_POW_24);
        assert(biased_of(TWO_POW_24) == 151);
        assert(norm_mant(TWO_POW_24) == 0x80_0000) by {
            reveal_with_fuel(bit_len, 25);
            vstd::arithmetic::power2::lemma2_to64();
            assert(bit_len(0x80_0000) == 24);
        }
        let nn: nat = ma * pow2(39);
        assert(nn / 0x80_0000 == ma * 0x1_0000 && nn % 0x80_0000 == 0) by {
            vstd::arithmetic::power2::lemma2_to64_rest();
            assert(nn == (ma * 0x1_0000) * 0x80_0000) by (nonlinear_arith)
                requires
                    nn == ma * pow2(39),
                    pow2(39) == 0x80_0000_0000,
            ;
            vstd::arithmetic::div_mod::lemma_div_by_multiple((ma * 0x1_0000) as int, 0x80_0000);
            vstd::arithmetic::div_mod::lemma_mod_multiples_basic((ma * 0x1_0000) as int, 0x80_0000);
        }
        lemma_norm_bounds(a);
        lemma_round_exact_shift(ma, l - 64);
        lemma_pack_fields(false, ma, l - 48);
    }
}

/// Scaling by `2^0` changes nothing.
proof fn lemma_times_one(m: nat)
    ensures
        m * pow2(0) == m,
        pow2(0) == 1,
{
    vstd::arithmetic::power2::lemma2_to64();
}

/// A 24-digit significand shifted up by 23 places: 47 digits, and shifting
/// back gives it again exactly.
proof fn lemma_shifted_up(mb: nat)
    requires
        0x80_0000 <= mb < 0x100_0000,
    ensures
        bit_len(0x80_0000 * mb) == 47,
        (0x80_0000 * mb) / pow2(23) == mb,
        (0x80_0000 * mb) % pow2(23) == 0,
{
    let m: nat = 0x80_0000 * mb;
    vstd::arithmetic::power2::lemma2_to64_rest();
    vstd::arithmetic::power2::lemma2_to64();
    assert(0x4000_0000_0000 <= m < 0x8000_0000_0000) by (nonlinear_arith)
        requires
            m == 0x80_0000 * mb,
            0x80_0000 <= mb < 0x100_0000,
    ;
    lemma_bit_len_bounds(m);
    lemma_bit_len_at_most(m, 47);
    if bit_len(m) < 47 {
        lemma_pow2_increases(bit_len(m), 46);
    }
    assert(m / 0x80_0000 == mb && m % 0x80_0000 == 0) by (nonlinear_arith)
        requires
            m == 0x80_0000 * mb,
    ;
}

/// A bit pattern is its sign, exponent and fraction fields: two patterns with
/// the same fields are the same pattern.
proof fn lemma_fields_determine(a: u32, b: u32)
    requires
        sign_of(a) == sign_of(b),
        biased_of(a) == biased_of(b),
        frac_of(a) == frac_of(b),
    ensures
        a == b,
{
    assert(a as int == (a as int / 0x8000_0000) * 0x8000_0000 + biased_of(a) * 0x80_0000 + frac_of(a));
    assert(b as int == (b as int / 0x8000_0000) * 0x8000_0000 + biased_of(b) * 0x80_0000 + frac_of(b));
}

/// A normal value is packed back from its normalized significand and scale.
proof fn lemma_repack_normal(b: u32)
    requires
        1 <= biased_of(b) < 255,
    ensures
        pack(sign_of(b), norm_mant(b), norm_scale(b)) == b,
{
    lemma_norm_bounds(b);
    lemma_pack_fields(sign_of(b), norm_mant(b), norm_scale(b));
    let mant = mant_of(b);
    assert(bit_len(mant) == 24) by {
        vstd::arithmetic::power2::lemma2_to64();
        lemma_bit_len_bounds(mant);
        lemma_bit_len_at_most(mant, 24);
        if bit_len(mant) < 24 {
            lemma_pow2_increases(bit_len(mant), 23);
        }
    }
    assert(norm_mant(b) == mant * pow2(0));
    lemma_times_one(mant);
    lemma_fields_determine(pack(sign_of(b), norm_mant(b), norm_scale(b)), b);
}

/// One times a positive normal value is that value.
pub proof fn lemma_one_times(b: u32)
    requires
        1 <= biased_of(b) < 255,
        !sign_of(b),
    ensures
        spec_mul(ONE, b) == b,
{
    reveal(spec_mul);
    reveal(round_pack);
    lemma_norm_bounds(b);
    lemma_norm_bounds(ONE);
    assert(biased_of(ONE) == 127 && frac_of(ONE) == 0);
    let mb = norm_mant(b);
    assert(bit_len(0x80_0000) == 24) by {
        reveal_with_fuel(bit_len, 25);
    }
    assert(mant_of(ONE) == 0x80_0000);
    assert(norm_mant(ONE) == 0x80_0000 * pow2(0));
    lemma_times_one(0x80_0000);
    lemma_shifted_up(mb);
    lemma_pow2_pos(22);
    lemma_repack_normal(b);
}

/// Zero times a positive finite value is `+0`.
pub proof fn lemma_zero_times(b: u32)
    requires
        biased_of(b) < 255,
        !sign_of(b),
    ensures
        spec_mul(ZERO, b) == ZERO,
{
    reveal(spec_mul);
}

/// A whole number under `2^24` converts exactly: its floor is itself, and it
/// converts back to the same integer.
pub proof fn lemma_whole_number(p: i32)
    requires
        0 < p < 0x100_0000,
    ensures
        1 <= biased_of(spec_from_i32(p)) < 255,
        !sign_of(spec_from_i32(p)),
        spec_floor(spec_from_i32(p)) == spec_from_i32(p),
        spec_to_i32(spec_from_i32(p)) == p,
{
    reveal(spec_floor);
    reveal(spec_to_i32);
    let n = p as u32;
    assert(spec_from_i32(p) == spec_from_u32(n));
    lemma_from_small(n);
    let a = spec_from_u32(n);
    let l = bit_len(n as nat);
    lemma_norm_bounds(a);
    let mant = mant_of(a);
    assert(bit_len(mant) == 24) by {
        vstd::arithmetic::power2::lemma2_to64();
        lemma_bit_len_bounds(mant);
        lemma_bit_len_at_most(mant, 24);
        if bit_len(mant) < 24 {
            lemma_pow2_increases(bit_len(mant), 23);
        }
    }
    let sh = (24 - l) as nat;
    assert(norm_mant(a) == mant * pow2(0));
    lemma_times_one(mant);
    assert(mant == n * pow2(sh));
    lemma_pow2_pos(sh);
    assert(mant / pow2(sh) == n && mant % pow2(sh) == 0) by {
        vstd::arithmetic::div_mod::lemma_div_by_multiple(n as int, pow2(sh) as int);
        vstd::arithmetic::div_mod::lemma_mod_multiples_basic(n as int, pow2(sh) as int);
    }
    assert(scale_of(a) == l - 24);
    if l == 24 {
        lemma_times_one(n as nat);
        assert(mant == n);
        assert(trunc_value(a) == mant * pow2(0));
    } else {
        assert((-scale_of(a)) as nat == sh);
        assert(trunc_value(a) == mant / pow2(sh));
    }
    assert(trunc_value(a) == n);
}

/// A finite value less itself is `+0`.
pub proof fn lemma_less_itself(x: u32)
    requires
        biased_of(x) < 255,
    ensures
        spec_sub(x, x) == ZERO,
{
    reveal(spec_add);
    let y = spec_neg(x);
    assert(biased_of(y) == biased_of(x) && frac_of(y) == frac_of(x) && sign_of(y) != sign_of(x));
    if is_zero(x) {
    } else {
        assert(norm_mant(y) == norm_mant(x) && norm_scale(y) == norm_scale(x));
    }
}

/// Zero is a whole number: its floor is itself, it converts to the integer
/// zero, and zero less zero is zero.
pub proof fn lemma_zero_is_whole()
    ensures
        spec_floor(ZERO) == ZERO,
        spec_to_i32(ZERO) == 0,
        spec_sub(ZERO, ZERO) == ZERO,
{
    reveal(spec_floor);
    reveal(spec_to_i32);
    lemma_pow2_pos(149);
    assert(trunc_value(ZERO) == 0);
    lemma_less_itself(ZERO);
}

} // verus!
