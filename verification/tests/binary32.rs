use neuroarena::binary32::{add, clamp, div, floor, from_i32, from_u32, lt, mul, neg, sub, to_i32, to_u8};

fn next(state: &mut u64) -> u32 {
    *state = state.wrapping_mul(6_364_136_223_846_793_005).wrapping_add(1_442_695_040_888_963_407);
    (*state >> 32) as u32
}

/// Bit patterns worth trying: every special class, the edges of each binade,
/// and random values of every magnitude.
fn samples() -> Vec<u32> {
    let mut out = vec![
        0x0000_0000, 0x8000_0000, 0x0000_0001, 0x8000_0001, 0x007F_FFFF, 0x0080_0000,
        0x3F80_0000, 0xBF80_0000, 0x3F00_0000, 0x4000_0000, 0x4040_0000, 0x7F7F_FFFF,
        0xFF7F_FFFF, 0x7F80_0000, 0xFF80_0000, 0x7FC0_0000, 0x3F7F_FFFF, 0x3F80_0001,
        0x4B7F_FFFF, 0x4B80_0000, 0x4B80_0001, 0xCB80_0001, 0x3EFF_FFFF, 0x4F00_0000,
        0xCF00_0000, 0x4EFF_FFFF, 0xCF00_0001, 0x437F_0000, 0x4380_0000, 0x3F00_0001,
    ];
    let mut state: u64 = 42;
    for _ in 0..600 {
        out.push(next(&mut state));
    }
    for _ in 0..400 {
        // values near one another in magnitude, where cancellation happens
        let bits = 0x3F00_0000 + (next(&mut state) % 0x0200_0000);
        out.push(bits ^ (next(&mut state) & 0x8000_0000));
    }
    out
}

fn same(ours: u32, theirs: f32) -> bool {
    if theirs.is_nan() {
        f32::from_bits(ours).is_nan()
    } else {
        ours == theirs.to_bits()
    }
}

#[test]
fn arithmetic_rounds_as_the_hardware_does() {
    let xs = samples();
    let mut state: u64 = 7;
    for &a in &xs {
        for _ in 0..40 {
            let b = xs[(next(&mut state) as usize) % xs.len()];
            let (fa, fb) = (f32::from_bits(a), f32::from_bits(b));
            assert!(same(mul(a, b), fa * fb), "{a:#x} * {b:#x}");
            assert!(same(add(a, b), fa + fb), "{a:#x} + {b:#x}");
            assert!(same(sub(a, b), fa - fb), "{a:#x} - {b:#x}");
            assert!(same(div(a, b), fa / fb), "{a:#x} / {b:#x}");
            assert_eq!(lt(a, b), fa < fb, "{a:#x} < {b:#x}");
        }
    }
}

#[test]
fn conversions_and_floor_match_the_hardware() {
    for &a in &samples() {
        let fa = f32::from_bits(a);
        assert!(same(floor(a), fa.floor()), "floor {a:#x}");
        assert_eq!(to_i32(a), fa as i32, "{a:#x} as i32");
        assert_eq!(to_u8(a), fa as u8, "{a:#x} as u8");
        assert_eq!(neg(a), (-fa).to_bits(), "-{a:#x}");
        assert!(same(clamp(a, 0, 0x3F80_0000), fa.clamp(0.0, 1.0)), "clamp {a:#x}");
    }
    let mut state: u64 = 99;
    for _ in 0..5000 {
        let n = next(&mut state);
        assert_eq!(from_u32(n), (n as f32).to_bits(), "{n} as f32");
        assert_eq!(from_i32(n as i32), (n as i32 as f32).to_bits(), "{} as f32", n as i32);
    }
    for n in [0u32, 1, 255, 256, 16_777_215, 16_777_216, 16_777_217, 16_777_219, u32::MAX] {
        assert_eq!(from_u32(n), (n as f32).to_bits());
    }
    for n in [i32::MIN, i32::MIN + 1, -16_777_217, -1, 0, 1, i32::MAX] {
        assert_eq!(from_i32(n), (n as f32).to_bits());
    }
}

#[test]
fn exact_small_results() {
    let one = 1.0f32.to_bits();
    let two = 2.0f32.to_bits();
    let three = 3.0f32.to_bits();
    assert_eq!(add(one, two), three);
    assert_eq!(mul(two, 1.5f32.to_bits()), three);
    assert_eq!(div(three, two), 1.5f32.to_bits());
    assert_eq!(sub(one, one), 0);
    assert_eq!(floor((-0.5f32).to_bits()), (-1.0f32).to_bits());
    assert_eq!(floor(2.75f32.to_bits()), two);
    assert_eq!(to_u8((0.999f32 * 255.0 + 0.5).to_bits()), 255);
    assert_eq!(to_i32((-7.9f32).to_bits()), -7);
}
