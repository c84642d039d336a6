//! The deep field's density, baked once on the CPU.
//!
//! The Arena's sky has weather: two coloured cloud layers, a finer filament
//! layer over them at a higher frequency, and a soft envelope that leaves parts
//! of the field genuinely empty. The backdrop shader reads all four out of one
//! texture.
//!
//! It is baked here rather than in a shader because a golden frame has to come
//! out the same on every machine. The lattice is hashed with integer multiply,
//! shift and xor, and the smooth interpolation between lattice points is a
//! fixed chain of single-precision operations, carried out bit for bit by
//! [`crate::binary32`]. Every octave wraps at its own period, so the texture
//! tiles.

use vstd::prelude::*;
use vstd::arithmetic::power2::{pow2, lemma_pow2_unfold, lemma_pow2_pos};
use crate::bits::{add32, mul32, wrapping_add32, wrapping_mul32};
use crate::binary32::{
    spec_add, spec_sub, spec_mul, spec_div, spec_floor, spec_to_i32, spec_to_u8, spec_from_u32,
    spec_from_i32, spec_clamp, spec_lt, is_nan, biased_of, norm_scale, is_finite_nonzero, bit_len,
    ZERO, HALF, ONE, TWO, THREE, TWO_POW_24, floor, to_i32, to_u8, from_u32, from_i32, clamp, lemma_floor_bound,
    lemma_mul_biased, lemma_div_biased, lemma_round_pack_biased, lemma_bit_len_at_most,
    lemma_norm_bounds, lemma_pow2_increases, lemma_unit_fraction, lemma_zero_is_whole,
    lemma_whole_number, lemma_less_itself, lemma_one_times, lemma_zero_times,
};

verus! {

/// The baked texture's edge, in texels.
pub const SIZE: u32 = 256;

/// The lattice hash of point `(x, y)` under `seed`, before it is scaled into
/// `0..1`: the lattice coordinates reinterpreted as `u32` and mixed by three
/// multiply-xorshift rounds, keeping the top 24 bits.
pub open spec fn spec_lattice_hash(x: i32, y: i32, seed: u32) -> u32 {
    let h0 = mul32(x as u32, 0x27D4_EB2D) ^ mul32(y as u32, 0x1656_67B1) ^ seed;
    let h1 = h0 ^ (h0 >> 15u32);
    let h2 = mul32(h1, 0x2C1B_3C6D);
    let h3 = h2 ^ (h2 >> 12u32);
    let h4 = mul32(h3, 0x2974_5B71);
    let h5 = h4 ^ (h4 >> 16u32);
    h5 >> 8u32
}

/// An integer hash of a lattice point, as 24 bits; divided by `2^24` it is
/// the point's value in `0..1`.
pub fn lattice_hash(x: i32, y: i32, seed: u32) -> (h: u32)
    ensures
        h == spec_lattice_hash(x, y, seed),
        h < 0x100_0000,
{
    let mut h = wrapping_mul32(x as u32, 0x27D4_EB2D) ^ wrapping_mul32(y as u32, 0x1656_67B1) ^ seed;
    h = h ^ (h >> 15u32);
    h = wrapping_mul32(h, 0x2C1B_3C6D);
    h = h ^ (h >> 12u32);
    h = wrapping_mul32(h, 0x2974_5B71);
    h = h ^ (h >> 16u32);
    let top = h >> 8u32;
    assert(h >> 8u32 < 0x100_0000) by (bit_vector);
    top
}

/// The seed of one octave of the noise: the layer's seed moved along by the
/// golden-ratio constant once per octave.
pub fn octave_seed(seed: u32, octave: u32) -> (s: u32)
    ensures
        s == add32(seed, mul32(octave, 0x9E37_79B9)),
{
    wrapping_add32(seed, wrapping_mul32(octave, 0x9E37_79B9))
}

/// A lattice coordinate wrapped into the octave's period, `0..period`, so
/// every octave tiles.
pub fn lattice_wrap(value: i32, period: i32) -> (wrapped: i32)
    requires
        period > 0,
    ensures
        wrapped == value % period,
        0 <= wrapped < period,
{
    match value.checked_rem_euclid(period) {
        Some(r) => r,
        None => 0,
    }
}

/// The lattice tiles: a coordinate one period over wraps to the same lattice
/// point, which is why the field has no seam where it repeats.
pub proof fn lemma_lattice_tiles(value: int, period: int, laps: int)
    requires
        period > 0,
    ensures
        (value + laps * period) % period == value % period,
{
    vstd::arithmetic::div_mod::lemma_mod_multiples_vanish(laps, value, period);
}

/// One seed per channel, so re-baking one layer leaves the others alone.
pub const SEED_BROAD_A: u32 = 0x0DEE_9F1D;
pub const SEED_BROAD_B: u32 = 0x0DEE_5A17;
pub const SEED_FILAMENT: u32 = 0x0DEE_2024;
pub const SEED_ENVELOPE: u32 = 0x0DEE_B1E5;

/// Where each layer's density starts to register and where it saturates, as
/// single-precision bit patterns. The broad layers open late so the field
/// keeps real emptiness between clouds; the second opens a little earlier,
/// because its own noise runs colder.
/// `0.42`
pub const BROAD_FLOOR: u32 = 0x3ED7_0A3D;
/// `0.37`
pub const BROAD_B_FLOOR: u32 = 0x3EBD_70A4;
/// `0.92`
pub const BROAD_CEIL: u32 = 0x3F6B_851F;
/// `0.54`
pub const FILAMENT_FLOOR: u32 = 0x3F0A_3D71;
/// `0.86`
pub const FILAMENT_CEIL: u32 = 0x3F5C_28F6;
/// `0.30`
pub const ENVELOPE_FLOOR: u32 = 0x3E99_999A;
/// `0.78`
pub const ENVELOPE_CEIL: u32 = 0x3F47_AE14;

/// `255.0`: a channel in `0..1` times it is a byte.
pub const BYTE_RANGE: u32 = 0x437F_0000;

/// The value of a lattice point: its 24-bit hash as a fraction of `2^24`.
pub open spec fn spec_hash_value(x: i32, y: i32, seed: u32) -> u32 {
    spec_div(spec_from_u32(spec_lattice_hash(x, y, seed)), TWO_POW_24)
}

/// `a + (b - a) * t`.
pub open spec fn spec_mix(a: u32, b: u32, t: u32) -> u32 {
    spec_add(a, spec_mul(spec_sub(b, a), t))
}

/// `t * t * (3 - 2 * t)`: the smoothstep curve.
pub open spec fn spec_ease(t: u32) -> u32 {
    spec_mul(spec_mul(t, t), spec_sub(THREE, spec_mul(TWO, t)))
}

/// One octave at `(x, y)`: the lattice hashed at the four corners of the cell
/// around the point and interpolated along the smoothstep curve, the lattice
/// wrapping at `period`.
#[verifier::opaque]
pub open spec fn spec_value_noise(x: u32, y: u32, period: i32, seed: u32) -> u32 {
    let fx = spec_floor(x);
    let fy = spec_floor(y);
    let sx = spec_ease(spec_sub(x, fx));
    let sy = spec_ease(spec_sub(y, fy));
    let ix = spec_to_i32(fx) as int;
    let iy = spec_to_i32(fy) as int;
    let x0 = (ix % period as int) as i32;
    let y0 = (iy % period as int) as i32;
    let x1 = ((ix + 1) % period as int) as i32;
    let y1 = ((iy + 1) % period as int) as i32;
    let top = spec_mix(spec_hash_value(x0, y0, seed), spec_hash_value(x1, y0, seed), sx);
    let bottom = spec_mix(spec_hash_value(x0, y1, seed), spec_hash_value(x1, y1, seed), sx);
    spec_mix(top, bottom, sy)
}

/// The fractal sum after `done` octaves: the weighted sum, the total weight,
/// the next octave's amplitude, and its period. Each octave halves the
/// amplitude and doubles the period.
pub open spec fn fbm_after(u: u32, v: u32, base: int, seed: u32, done: nat) -> (u32, u32, u32, int)
    decreases done,
{
    if done == 0 {
        (ZERO, ZERO, HALF, base)
    } else {
        let prev = fbm_after(u, v, base, seed, (done - 1) as nat);
        let period = prev.3;
        let scale = spec_from_i32(period as i32);
        let noise = spec_value_noise(
            spec_mul(u, scale),
            spec_mul(v, scale),
            period as i32,
            add32(seed, mul32((done - 1) as u32, 0x9E37_79B9)),
        );
        (
            spec_add(prev.0, spec_mul(prev.2, noise)),
            spec_add(prev.1, prev.2),
            spec_mul(prev.2, HALF),
            period * 2,
        )
    }
}

/// Fractal value noise: the weighted sum of the octaves over their weight.
#[verifier::opaque]
pub open spec fn spec_fbm(u: u32, v: u32, base: i32, octaves: u32, seed: u32) -> u32 {
    let last = fbm_after(u, v, base as int, seed, octaves as nat);
    spec_div(last.0, last.1)
}

/// The smoothstep window between two edges: nothing below `floor`, solid above
/// `ceil`.
pub open spec fn spec_window(value: u32, floor: u32, ceil: u32) -> u32 {
    spec_ease(spec_clamp(spec_div(spec_sub(value, floor), spec_sub(ceil, floor)), ZERO, ONE))
}

/// A texel coordinate as a fraction of the edge: `n as f32 / SIZE as f32`.
pub open spec fn spec_unit(n: u32) -> u32 {
    spec_div(spec_from_u32(n), spec_from_u32(SIZE))
}

/// The density of one layer at `(u, v)`: broad cloud A, broad cloud B,
/// filament detail, and the envelope, in channel order.
pub open spec fn spec_layer(u: u32, v: u32, channel: int) -> u32 {
    if channel == 0 {
        spec_window(spec_fbm(u, v, 3, 5, SEED_BROAD_A), BROAD_FLOOR, BROAD_CEIL)
    } else if channel == 1 {
        spec_window(spec_fbm(u, v, 4, 5, SEED_BROAD_B), BROAD_B_FLOOR, BROAD_CEIL)
    } else if channel == 2 {
        spec_window(spec_fbm(u, v, 6, 4, SEED_FILAMENT), FILAMENT_FLOOR, FILAMENT_CEIL)
    } else {
        spec_window(spec_fbm(u, v, 2, 3, SEED_ENVELOPE), ENVELOPE_FLOOR, ENVELOPE_CEIL)
    }
}

/// One channel of texel `(x, y)` as a byte: `(density * 255 + 0.5) as u8`.
pub open spec fn spec_texel(x: u32, y: u32, channel: int) -> u8 {
    spec_to_u8(spec_add(spec_mul(spec_layer(spec_unit(x), spec_unit(y), channel), BYTE_RANGE), HALF))
}

/// Byte `i` of the baked texture, rows of texels from the top, four channels
/// to a texel.
pub open spec fn spec_pixel(i: int) -> u8 {
    let texel = i / 4;
    spec_texel((texel % SIZE as int) as u32, (texel / SIZE as int) as u32, i % 4)
}

/// The value of a lattice point in `0..1`.
fn hash_value(x: i32, y: i32, seed: u32) -> (value: u32)
    ensures
        value == spec_hash_value(x, y, seed),
{
    crate::binary32::div(from_u32(lattice_hash(x, y, seed)), TWO_POW_24)
}

/// `a + (b - a) * t`.
fn mix(a: u32, b: u32, t: u32) -> (r: u32)
    ensures
        r == spec_mix(a, b, t),
{
    crate::binary32::add(a, crate::binary32::mul(crate::binary32::sub(b, a), t))
}

/// The smoothstep curve.
fn ease(t: u32) -> (r: u32)
    ensures
        r == spec_ease(t),
{
    crate::binary32::mul(
        crate::binary32::mul(t, t),
        crate::binary32::sub(THREE, crate::binary32::mul(TWO, t)),
    )
}

/// One octave of value noise at `(x, y)`, for a positive period and
/// coordinates whose lattice cell, and the one after it, are `i32`
/// coordinates.
pub fn value_noise(x: u32, y: u32, period: i32, seed: u32) -> (value: u32)
    requires
        period > 0,
        spec_to_i32(spec_floor(x)) < i32::MAX,
        spec_to_i32(spec_floor(y)) < i32::MAX,
    ensures
        value == spec_value_noise(x, y, period, seed),
{
    proof {
        reveal(spec_value_noise);
    }
    let fx = floor(x);
    let fy = floor(y);
    let sx = ease(crate::binary32::sub(x, fx));
    let sy = ease(crate::binary32::sub(y, fy));
    let ix = to_i32(fx);
    let iy = to_i32(fy);
    let x0 = lattice_wrap(ix, period);
    let y0 = lattice_wrap(iy, period);
    let x1 = lattice_wrap(ix + 1, period);
    let y1 = lattice_wrap(iy + 1, period);
    let top = mix(hash_value(x0, y0, seed), hash_value(x1, y0, seed), sx);
    let bottom = mix(hash_value(x0, y1, seed), hash_value(x1, y1, seed), sx);
    mix(top, bottom, sy)
}

/// A lattice period under `2^28` converts to a float with exponent at most
/// 155, small enough that a coordinate under 2 scaled by it stays under
/// `2^31`.
proof fn lemma_period_scale(period: i32)
    requires
        0 < period < 0x1000_0000,
    ensures
        biased_of(spec_from_i32(period)) <= 155,
{
    vstd::arithmetic::power2::lemma2_to64();
    lemma_bit_len_at_most(period as nat, 28);
    lemma_round_pack_biased(false, period as nat, 0, false);
}

/// Fractal value noise over `u, v` (under 2 in magnitude; the field samples
/// `0..1`), `octaves` octaves from period `base` up, every octave wrapping at
/// its own period so the whole field tiles. The period doubles after every
/// octave, the last one included, and stays below `2^29`.
pub fn fbm(u: u32, v: u32, base: i32, octaves: u32, seed: u32) -> (value: u32)
    requires
        biased_of(u) <= 127,
        biased_of(v) <= 127,
        base >= 1,
        base * pow2(octaves as nat) < 0x2000_0000,
    ensures
        value == spec_fbm(u, v, base, octaves, seed),
{
    let mut sum = ZERO;
    let mut weight = ZERO;
    let mut amplitude = HALF;
    let mut period = base;
    let mut octave: u32 = 0;
    proof {
        vstd::arithmetic::power2::lemma2_to64();
    }
    while octave < octaves
        invariant
            octave <= octaves,
            (sum, weight, amplitude, period as int) == fbm_after(u, v, base as int, seed, octave as nat),
            period as int == base * pow2(octave as nat),
            biased_of(u) <= 127,
            biased_of(v) <= 127,
            base >= 1,
            base * pow2(octaves as nat) < 0x2000_0000,
        decreases octaves - octave,
    {
        proof {
            lemma_pow2_unfold((octave + 1) as nat);
            lemma_pow2_increases((octave + 1) as nat, octaves as nat);
            lemma_pow2_pos(octave as nat);
            assert(base * pow2((octave + 1) as nat) <= base * pow2(octaves as nat)) by (nonlinear_arith)
                requires
                    base >= 1,
                    pow2((octave + 1) as nat) <= pow2(octaves as nat),
            ;
            assert(base * pow2(octave as nat) >= 1) by (nonlinear_arith)
                requires
                    base >= 1,
                    pow2(octave as nat) > 0,
            ;
            assert(base * pow2((octave + 1) as nat) == 2 * (base * pow2(octave as nat))) by (nonlinear_arith)
                requires
                    pow2((octave + 1) as nat) == 2 * pow2(octave as nat),
            ;
            lemma_period_scale(period);
            lemma_mul_biased(u, spec_from_i32(period));
            lemma_mul_biased(v, spec_from_i32(period));
            lemma_floor_bound(spec_mul(u, spec_from_i32(period)));
            lemma_floor_bound(spec_mul(v, spec_from_i32(period)));
        }
        let scale = from_i32(period);
        let noise = value_noise(
            crate::binary32::mul(u, scale),
            crate::binary32::mul(v, scale),
            period,
            octave_seed(seed, octave),
        );
        sum = crate::binary32::add(sum, crate::binary32::mul(amplitude, noise));
        weight = crate::binary32::add(weight, amplitude);
        amplitude = crate::binary32::mul(amplitude, HALF);
        period = period * 2;
        octave = octave + 1;
    }
    proof {
        reveal(spec_fbm);
    }
    crate::binary32::div(sum, weight)
}

/// The smoothstep window between two edges.
fn window(value: u32, low: u32, high: u32) -> (r: u32)
    ensures
        r == spec_window(value, low, high),
{
    let t = clamp(
        crate::binary32::div(crate::binary32::sub(value, low), crate::binary32::sub(high, low)),
        ZERO,
        ONE,
    );
    ease(t)
}

/// `SIZE as f32` is `256.0`, exponent 135.
proof fn lemma_edge()
    ensures
        spec_from_u32(SIZE) == 0x4380_0000u32,
        is_finite_nonzero(0x4380_0000u32),
        norm_scale(0x4380_0000u32) == -15,
{
    reveal(crate::binary32::round_pack);
    reveal_with_fuel(bit_len, 10);
    vstd::arithmetic::power2::lemma2_to64();
    assert(bit_len(256) == 9);
    assert(biased_of(0x4380_0000u32) == 135);
    lemma_norm_bounds(0x4380_0000u32);
}

/// A texel coordinate as a fraction of the edge is under 1, exponent at most
/// 127.
proof fn lemma_unit_small(n: u32)
    requires
        n < SIZE,
    ensures
        biased_of(spec_unit(n)) <= 127,
{
    lemma_edge();
    vstd::arithmetic::power2::lemma2_to64();
    lemma_bit_len_at_most(n as nat, 8);
    lemma_round_pack_biased(false, n as nat, 0, false);
    lemma_div_biased(spec_from_u32(n), spec_from_u32(SIZE));
}

/// One channel's density as a byte, rounded to nearest.
fn density_byte(density: u32) -> (byte: u8)
    ensures
        byte == spec_to_u8(spec_add(spec_mul(density, BYTE_RANGE), HALF)),
{
    to_u8(crate::binary32::add(crate::binary32::mul(density, BYTE_RANGE), HALF))
}

/// The four densities of the texel at `(u, v)`.
fn texel_densities(u: u32, v: u32) -> (d: [u32; 4])
    requires
        biased_of(u) <= 127,
        biased_of(v) <= 127,
    ensures
        forall|c: int| 0 <= c < 4 ==> d[c] == spec_layer(u, v, c),
{
    proof {
        vstd::arithmetic::power2::lemma2_to64();
    }
    let broad_a = window(fbm(u, v, 3, 5, SEED_BROAD_A), BROAD_FLOOR, BROAD_CEIL);
    let broad_b = window(fbm(u, v, 4, 5, SEED_BROAD_B), BROAD_B_FLOOR, BROAD_CEIL);
    let filament = window(fbm(u, v, 6, 4, SEED_FILAMENT), FILAMENT_FLOOR, FILAMENT_CEIL);
    let envelope = window(fbm(u, v, 2, 3, SEED_ENVELOPE), ENVELOPE_FLOOR, ENVELOPE_CEIL);
    [broad_a, broad_b, filament, envelope]
}

/// The deep field: `SIZE × SIZE` texels of RGBA8, rows from the top, holding
/// broad cloud A, broad cloud B, filament detail, and the envelope that
/// decides where any of it is allowed to be.
pub fn bake() -> (pixels: Vec<u8>)
    ensures
        pixels.len() == SIZE * SIZE * 4,
        forall|i: int| 0 <= i < pixels.len() ==> pixels[i] == spec_pixel(i),
        forall|x: int, y: int, c: int|
            0 <= x < SIZE && 0 <= y < SIZE && 0 <= c < 4 ==> #[trigger] pixels[4 * (SIZE * y + x)
                + c] == spec_texel(x as u32, y as u32, c),
{
    proof {
        lemma_edge();
    }
    let edge = from_u32(SIZE);
    let mut pixels: Vec<u8> = Vec::with_capacity((SIZE * SIZE * 4) as usize);
    let mut y: u32 = 0;
    while y < SIZE
        invariant
            y <= SIZE,
            edge == spec_from_u32(SIZE),
            pixels.len() == 1024 * y,
            forall|i: int| 0 <= i < pixels.len() ==> pixels[i] == spec_pixel(i),
        decreases SIZE - y,
    {
        let v = crate::binary32::div(from_u32(y), edge);
        proof {
            lemma_unit_small(y);
        }
        let mut x: u32 = 0;
        while x < SIZE
            invariant
                x <= SIZE,
                y < SIZE,
                edge == spec_from_u32(SIZE),
                v == spec_unit(y),
                biased_of(v) <= 127,
                pixels.len() == 1024 * y + 4 * x,
                forall|i: int| 0 <= i < pixels.len() ==> pixels[i] == spec_pixel(i),
            decreases SIZE - x,
        {
            let u = crate::binary32::div(from_u32(x), edge);
            proof {
                lemma_unit_small(x);
            }
            let d = texel_densities(u, v);
            let start = pixels.len();
            let mut c: usize = 0;
            while c < 4
                invariant
                    c <= 4,
                    x < SIZE,
                    y < SIZE,
                    start == 1024 * y + 4 * x,
                    pixels.len() == start + c,
                    forall|i: int| 0 <= i < start ==> pixels[i] == spec_pixel(i),
                    forall|j: int|
                        0 <= j < c ==> #[trigger] pixels[start + j] == spec_texel(x, y, j),
                    forall|j: int| 0 <= j < 4 ==> d[j] == spec_layer(spec_unit(x), spec_unit(y), j),
                    u == spec_unit(x),
                    v == spec_unit(y),
                decreases 4 - c,
            {
                pixels.push(density_byte(d[c]));
                c = c + 1;
            }
            proof {
                assert forall|i: int| 0 <= i < pixels.len() implies pixels[i] == spec_pixel(i) by {
                    if i >= start {
                        let j = i - start;
                        assert(pixels[start + j] == spec_texel(x, y, j));
                        assert(i / 4 == 256 * y + x);
                        assert((256 * y + x) % 256 == x);
                        assert((256 * y + x) / 256 == y);
                        assert(i % 4 == j);
                    }
                }
            }
            x = x + 1;
        }
        y = y + 1;
    }
    proof {
        assert forall|x: int, y: int, c: int|
            0 <= x < SIZE && 0 <= y < SIZE && 0 <= c < 4 implies #[trigger] pixels[4 * (SIZE * y + x)
                + c] == spec_texel(x as u32, y as u32, c) by {
            let i = 4 * (SIZE * y + x) + c;
            assert(i < pixels.len()) by (nonlinear_arith)
                requires
                    0 <= x < SIZE,
                    0 <= y < SIZE,
                    0 <= c < 4,
                    i == 4 * (SIZE * y + x) + c,
                    pixels.len() == SIZE * SIZE * 4,
                    SIZE == 256,
            ;
            assert(pixels[i] == spec_pixel(i));
            assert(i / 4 == 256 * y + x);
            assert((256 * y + x) % 256 == x);
            assert((256 * y + x) / 256 == y);
            assert(i % 4 == c);
        }
    }
    pixels
}

/// The field is baked the same way every time: any two textures that meet
/// [`bake`]'s contract are byte for byte the same.
pub proof fn lemma_the_field_is_reproducible(first: Seq<u8>, second: Seq<u8>)
    requires
        first.len() == SIZE * SIZE * 4,
        second.len() == SIZE * SIZE * 4,
        forall|i: int| 0 <= i < first.len() ==> #[trigger] first[i] == spec_pixel(i),
        forall|i: int| 0 <= i < second.len() ==> #[trigger] second[i] == spec_pixel(i),
    ensures
        first == second,
{
    assert forall|i: int| 0 <= i < first.len() implies first[i] == second[i] by {
        assert(first[i] == spec_pixel(i));
        assert(second[i] == spec_pixel(i));
    }
    assert(first =~= second);
}

/// Every lattice point's value lies in `0..1`.
pub proof fn lemma_lattice_values_are_fractions(x: i32, y: i32, seed: u32)
    ensures
        !is_nan(spec_hash_value(x, y, seed)),
        !spec_lt(spec_hash_value(x, y, seed), ZERO),
        spec_lt(spec_hash_value(x, y, seed), ONE),
{
    let h5 = spec_lattice_hash(x, y, seed);
    assert(h5 < 0x100_0000) by {
        let h0 = mul32(x as u32, 0x27D4_EB2D) ^ mul32(y as u32, 0x1656_67B1) ^ seed;
        let h1 = h0 ^ (h0 >> 15u32);
        let h2 = mul32(h1, 0x2C1B_3C6D);
        let h3 = h2 ^ (h2 >> 12u32);
        let h4 = mul32(h3, 0x2974_5B71);
        let h = h4 ^ (h4 >> 16u32);
        assert(h >> 8u32 < 0x100_0000) by (bit_vector);
    }
    lemma_unit_fraction(h5);
}

/// One octave closes on itself: sampled at the lattice's start and one whole
/// period along, in either direction, it gives the same value.
pub proof fn lemma_octave_has_no_seam(x: u32, y: u32, period: i32, seed: u32)
    requires
        0 < period < 0x100_0000,
    ensures
        spec_value_noise(ZERO, y, period, seed) == spec_value_noise(spec_from_i32(period), y, period, seed),
        spec_value_noise(x, ZERO, period, seed) == spec_value_noise(x, spec_from_i32(period), period, seed),
{
    reveal(spec_value_noise);
    let p = spec_from_i32(period);
    lemma_zero_is_whole();
    lemma_whole_number(period);
    lemma_less_itself(p);
    let q = period as int;
    vstd::arithmetic::div_mod::lemma_mod_self_0(q);
    vstd::arithmetic::div_mod::lemma_mod_add_multiples_vanish(1, q);
    assert(0int % q == 0) by {
        vstd::arithmetic::div_mod::lemma_small_mod(0, q as nat);
    }
    assert((0int + 1) % q == (q + 1) % q);
}

/// The period the fractal sum has reached after `done` octaves.
proof fn lemma_fbm_period(u: u32, v: u32, base: int, seed: u32, done: nat)
    ensures
        fbm_after(u, v, base, seed, done).3 == base * pow2(done),
    decreases done,
{
    if done == 0 {
        vstd::arithmetic::power2::lemma2_to64();
    } else {
        lemma_fbm_period(u, v, base, seed, (done - 1) as nat);
        lemma_pow2_unfold(done);
        assert(base * pow2((done - 1) as nat) * 2 == base * pow2(done)) by (nonlinear_arith)
            requires
                pow2(done) == 2 * pow2((done - 1) as nat),
        ;
    }
}

/// The fractal sum after `done` octaves is the same at the lattice's start and
/// one whole period along, in either direction.
proof fn lemma_fbm_after_has_no_seam(u: u32, v: u32, base: int, seed: u32, done: nat)
    requires
        base >= 1,
        base * pow2(done) <= 0x100_0000,
    ensures
        fbm_after(ZERO, v, base, seed, done) == fbm_after(ONE, v, base, seed, done),
        fbm_after(u, ZERO, base, seed, done) == fbm_after(u, ONE, base, seed, done),
    decreases done,
{
    if done > 0 {
        let prev = (done - 1) as nat;
        lemma_pow2_unfold(done);
        lemma_pow2_pos(prev);
        assert(1 <= base * pow2(prev) && base * pow2(prev) < 0x100_0000 && base * pow2(prev) <= base
            * pow2(done)) by (nonlinear_arith)
            requires
                base >= 1,
                pow2(prev) >= 1,
                pow2(done) == 2 * pow2(prev),
                base * pow2(done) <= 0x100_0000,
        ;
        lemma_fbm_after_has_no_seam(u, v, base, seed, prev);
        lemma_fbm_period(ZERO, v, base, seed, prev);
        lemma_fbm_period(u, ZERO, base, seed, prev);
        let period = (base * pow2(prev)) as i32;
        let p = spec_from_i32(period);
        let octave_seed = add32(seed, mul32(prev as u32, 0x9E37_79B9));
        lemma_whole_number(period);
        lemma_one_times(p);
        lemma_zero_times(p);
        lemma_octave_has_no_seam(spec_mul(u, p), spec_mul(v, p), period, octave_seed);
    }
}

/// The field has no seam: every layer's fractal sum takes the same value on
/// the left edge as on the right, and on the top edge as on the bottom, so the
/// texture tiles.
pub proof fn lemma_the_field_has_no_seam(u: u32, v: u32, base: i32, octaves: u32, seed: u32)
    requires
        base >= 1,
        base * pow2(octaves as nat) <= 0x100_0000,
    ensures
        spec_fbm(ZERO, v, base, octaves, seed) == spec_fbm(ONE, v, base, octaves, seed),
        spec_fbm(u, ZERO, base, octaves, seed) == spec_fbm(u, ONE, base, octaves, seed),
{
    reveal(spec_fbm);
    lemma_fbm_after_has_no_seam(u, v, base as int, seed, octaves as nat);
}

} // verus!
