use neuroarena::renderer::{bloom_sizes, BLOOM_LEVELS, BLOOM_MIN_EDGE};

#[test]
fn the_bloom_chain_halves_down_and_never_reaches_nothing() {
    // A normal window: six levels, each half the one above, the first at
    // half the frame.
    let levels = bloom_sizes(1440, 900);
    assert_eq!(levels.len(), BLOOM_LEVELS as usize);
    assert_eq!(levels[0], (720, 450));
    for pair in levels.windows(2) {
        assert_eq!(pair[1], (pair[0].0 / 2, pair[0].1 / 2));
    }
    assert!(levels
        .iter()
        .all(|(w, h)| *w >= BLOOM_MIN_EDGE && *h >= BLOOM_MIN_EDGE));

    // A short window stops early rather than making a level with no area.
    let short = bloom_sizes(1200, 40);
    assert_eq!(short, vec![(600, 20), (300, 10)]);

    // And a frame too small for any level still gets one to render into:
    // an empty chain would leave the composite sampling nothing.
    for (width, height) in [(1, 1), (8, 4), (0, 0)] {
        let tiny = bloom_sizes(width, height);
        assert_eq!(tiny.len(), 1);
        assert!(tiny[0].0 >= 1 && tiny[0].1 >= 1, "{tiny:?} has no area");
    }
}

#[test]
fn a_frame_too_small_for_a_level_gets_its_own_size() {
    assert_eq!(bloom_sizes(8, 4), vec![(8, 4)]);
    assert_eq!(bloom_sizes(0, 0), vec![(1, 1)]);
    assert_eq!(bloom_sizes(0, 900), vec![(1, 900)]);
    assert_eq!(bloom_sizes(16, 16), vec![(8, 8)]);
    assert_eq!(
        bloom_sizes(u32::MAX, u32::MAX)[5],
        (u32::MAX / 2 / 32, u32::MAX / 2 / 32)
    );
}
