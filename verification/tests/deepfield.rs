use neuroarena::deepfield::{
    bake, fbm, value_noise, SEED_BROAD_A, SEED_BROAD_B, SEED_ENVELOPE, SEED_FILAMENT, SIZE,
};

#[test]
fn the_field_is_baked_the_same_way_every_time() {
    let first = bake();
    let second = bake();
    assert_eq!(first.len(), (SIZE * SIZE * 4) as usize);
    assert_eq!(first, second);
}

#[test]
fn every_layer_wraps_so_the_filaments_have_no_seam() {
    // The filament layer is sampled at three times the frequency with a
    // repeating address mode: the lattice has to close on itself, or a hard
    // line runs down the Arena.
    for octaves in 1..=5 {
        for base in [2, 3, 4, 6] {
            let left = f32::from_bits(fbm(0.0f32.to_bits(), 0.37f32.to_bits(), base, octaves, SEED_FILAMENT));
            let right = f32::from_bits(fbm(1.0f32.to_bits(), 0.37f32.to_bits(), base, octaves, SEED_FILAMENT));
            assert!((left - right).abs() < 1e-6, "u seam at base {base}");
            let top = f32::from_bits(fbm(0.63f32.to_bits(), 0.0f32.to_bits(), base, octaves, SEED_FILAMENT));
            let bottom = f32::from_bits(fbm(0.63f32.to_bits(), 1.0f32.to_bits(), base, octaves, SEED_FILAMENT));
            assert!((top - bottom).abs() < 1e-6, "v seam at base {base}");
        }
    }
}

#[test]
fn the_sky_has_both_cloud_and_genuine_emptiness() {
    let pixels = bake();
    let texels = (SIZE * SIZE) as usize;
    for (channel, name) in [(0, "broad a"), (1, "broad b"), (2, "filament")] {
        let values: Vec<u8> = (0..texels).map(|i| pixels[i * 4 + channel]).collect();
        let empty = values.iter().filter(|v| **v < 8).count();
        let dense = values.iter().filter(|v| **v > 180).count();
        // A layer that is everywhere is fog, and a layer that is nowhere is
        // a wasted channel.
        assert!(
            empty > texels / 8,
            "{name} leaves no empty sky: {empty}/{texels}"
        );
        assert!(
            dense > texels / 200,
            "{name} has no cores: {dense}/{texels}"
        );
    }
}

// The same field computed with the machine's own single-precision arithmetic,
// step for step: the baked bytes must agree with it everywhere.

fn float_hash(x: i32, y: i32, seed: u32) -> f32 {
    let mut h = (x as u32).wrapping_mul(0x27D4_EB2D) ^ (y as u32).wrapping_mul(0x1656_67B1) ^ seed;
    h ^= h >> 15;
    h = h.wrapping_mul(0x2C1B_3C6D);
    h ^= h >> 12;
    h = h.wrapping_mul(0x2974_5B71);
    h ^= h >> 16;
    (h >> 8) as f32 / 16_777_216.0
}

fn float_mix(a: f32, b: f32, t: f32) -> f32 {
    a + (b - a) * t
}

fn float_value_noise(x: f32, y: f32, period: i32, seed: u32) -> f32 {
    let (fx, fy) = (x.floor(), y.floor());
    let (tx, ty) = (x - fx, y - fy);
    let sx = tx * tx * (3.0 - 2.0 * tx);
    let sy = ty * ty * (3.0 - 2.0 * ty);
    let wrap = |value: i32| value.rem_euclid(period);
    let (x0, y0) = (wrap(fx as i32), wrap(fy as i32));
    let (x1, y1) = (wrap(fx as i32 + 1), wrap(fy as i32 + 1));
    let top = float_mix(float_hash(x0, y0, seed), float_hash(x1, y0, seed), sx);
    let bottom = float_mix(float_hash(x0, y1, seed), float_hash(x1, y1, seed), sx);
    float_mix(top, bottom, sy)
}

fn float_fbm(u: f32, v: f32, base: i32, octaves: u32, seed: u32) -> f32 {
    let mut sum = 0.0f32;
    let mut weight = 0.0f32;
    let mut amplitude = 0.5f32;
    let mut period = base;
    for octave in 0..octaves {
        sum += amplitude
            * float_value_noise(
                u * period as f32,
                v * period as f32,
                period,
                seed.wrapping_add(octave.wrapping_mul(0x9E37_79B9)),
            );
        weight += amplitude;
        amplitude *= 0.5;
        period *= 2;
    }
    sum / weight
}

fn float_window(value: f32, floor: f32, ceil: f32) -> f32 {
    let t = ((value - floor) / (ceil - floor)).clamp(0.0, 1.0);
    t * t * (3.0 - 2.0 * t)
}

fn float_bake() -> Vec<u8> {
    let mut pixels = Vec::with_capacity((SIZE * SIZE * 4) as usize);
    for y in 0..SIZE {
        for x in 0..SIZE {
            let u = x as f32 / SIZE as f32;
            let v = y as f32 / SIZE as f32;
            let broad_a = float_window(float_fbm(u, v, 3, 5, SEED_BROAD_A), 0.42, 0.92);
            let broad_b = float_window(float_fbm(u, v, 4, 5, SEED_BROAD_B), 0.37, 0.92);
            let filament = float_window(float_fbm(u, v, 6, 4, SEED_FILAMENT), 0.54, 0.86);
            let envelope = float_window(float_fbm(u, v, 2, 3, SEED_ENVELOPE), 0.30, 0.78);
            for channel in [broad_a, broad_b, filament, envelope] {
                pixels.push((channel * 255.0 + 0.5) as u8);
            }
        }
    }
    pixels
}

#[test]
fn the_baked_field_agrees_with_hardware_single_precision_bit_for_bit() {
    let baked = bake();
    let reference = float_bake();
    assert_eq!(baked.len(), reference.len());
    let differing = baked.iter().zip(reference.iter()).filter(|(a, b)| a != b).count();
    assert_eq!(differing, 0);
}

#[test]
fn one_octave_agrees_with_hardware_at_scattered_points() {
    let mut state: u32 = 0x1234_5678;
    for _ in 0..2000 {
        state = state.wrapping_mul(1_664_525).wrapping_add(1_013_904_223);
        let x = (state >> 8) as f32 / 16_777_216.0 * 96.0;
        state = state.wrapping_mul(1_664_525).wrapping_add(1_013_904_223);
        let y = (state >> 8) as f32 / 16_777_216.0 * 96.0 - 48.0;
        let period = 1 + (state % 40) as i32;
        let ours = f32::from_bits(value_noise(x.to_bits(), y.to_bits(), period, state));
        let theirs = float_value_noise(x, y, period, state);
        assert_eq!(ours.to_bits(), theirs.to_bits(), "at ({x}, {y}) period {period}");
    }
}

#[test]
fn fbm_agrees_with_hardware_across_the_unit_square() {
    for i in 0..64u32 {
        let u = i as f32 / 64.0;
        let v = 1.0 - (i * 7 % 64) as f32 / 64.0;
        for (base, octaves) in [(3, 5), (4, 5), (6, 4), (2, 3)] {
            let ours = f32::from_bits(fbm(u.to_bits(), v.to_bits(), base, octaves, SEED_BROAD_A));
            let theirs = float_fbm(u, v, base, octaves, SEED_BROAD_A);
            assert_eq!(ours.to_bits(), theirs.to_bits());
        }
    }
}

#[test]
fn an_octave_stays_in_the_unit_interval() {
    let mut state: u32 = 99;
    for _ in 0..2000 {
        state = state.wrapping_mul(1_664_525).wrapping_add(1_013_904_223);
        let x = (state >> 8) as f32 / 16_777_216.0 * 40.0;
        let y = (state & 0xFFFF) as f32 / 65_536.0 * 40.0;
        let value = f32::from_bits(value_noise(x.to_bits(), y.to_bits(), 7, state));
        assert!((0.0..=1.0).contains(&value), "{value} at ({x}, {y})");
    }
}

#[test]
fn opposite_edges_of_every_layer_are_the_same_value() {
    for (base, octaves, seed) in [
        (3, 5, SEED_BROAD_A),
        (4, 5, SEED_BROAD_B),
        (6, 4, SEED_FILAMENT),
        (2, 3, SEED_ENVELOPE),
    ] {
        for i in 0..=32u32 {
            let t = (i as f32 / 32.0).to_bits();
            let left = fbm(0.0f32.to_bits(), t, base, octaves, seed);
            let right = fbm(1.0f32.to_bits(), t, base, octaves, seed);
            assert_eq!(left, right);
            let top = fbm(t, 0.0f32.to_bits(), base, octaves, seed);
            let bottom = fbm(t, 1.0f32.to_bits(), base, octaves, seed);
            assert_eq!(top, bottom);
        }
    }
}
