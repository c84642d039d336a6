use neuroarena::atlas::{Atlas, GlyphCache, Slot};
use neuroarena::text::{glyph_rgba, inked, reserve_glyph, GlyphContent};

fn overlaps(a: (u32, u32, u32, u32), b: (u32, u32, u32, u32)) -> bool {
    a.0 < b.0 + b.2 && b.0 < a.0 + a.2 && a.1 < b.1 + b.3 && b.1 < a.1 + a.3
}

#[test]
fn glyphs_fill_a_shelf_then_open_the_next() {
    let mut atlas = Atlas::new();
    assert_eq!(atlas.size(), Atlas::SIZE);
    assert_eq!(atlas.allocate(10, 12), Some((0, 0)));
    assert_eq!(atlas.allocate(20, 5), Some((11, 0)));
    // Off the right edge: a new shelf one texel under the tallest glyph.
    assert_eq!(atlas.allocate(1000, 7), Some((0, 13)));
    assert_eq!(atlas.allocate(30, 3), Some((0, 21)));
}

#[test]
fn impossible_requests_are_refused_without_moving_the_pen() {
    let mut atlas = Atlas::new();
    assert_eq!(atlas.allocate(0, 5), None);
    assert_eq!(atlas.allocate(5, 0), None);
    assert_eq!(atlas.allocate(1025, 5), None);
    assert_eq!(atlas.allocate(5, 1025), None);
    assert_eq!(atlas.allocate(4, 4), Some((0, 0)));
}

#[test]
fn a_full_atlas_says_so_until_it_is_reset() {
    let mut atlas = Atlas::new();
    assert_eq!(atlas.allocate(1024, 1000), Some((0, 0)));
    assert_eq!(atlas.allocate(1024, 100), None);
    atlas.reset();
    assert_eq!(atlas.allocate(1024, 100), Some((0, 0)));
}

#[test]
fn no_two_glyphs_share_a_texel() {
    let mut atlas = Atlas::new();
    let mut placed: Vec<(u32, u32, u32, u32)> = Vec::new();
    let mut seed: u32 = 7;
    for _ in 0..2000 {
        seed = seed.wrapping_mul(1_664_525).wrapping_add(1_013_904_223);
        let w = 1 + (seed >> 8) % 40;
        let h = 1 + (seed >> 16) % 40;
        if let Some((x, y)) = atlas.allocate(w, h) {
            let r = (x, y, w, h);
            assert!(x + w <= Atlas::SIZE && y + h <= Atlas::SIZE);
            assert!(placed.iter().all(|p| !overlaps(*p, r)));
            placed.push(r);
        }
    }
    assert!(placed.len() > 100);
}

#[test]
fn a_glyph_cache_remembers_and_forgets() {
    let mut cache: GlyphCache<u64> = GlyphCache::new();
    assert!(cache.is_empty());
    let slot = Slot { x: 1, y: 2, width: 3, height: 4, left: -1, top: 9 };
    cache.insert(5, slot);
    assert_eq!(cache.get(&5), Some(slot));
    assert_eq!(cache.get(&6), None);
    assert_eq!(cache.len(), 1);
    cache.clear();
    assert!(cache.is_empty());
    assert_eq!(cache.len(), 0);
}

#[test]
fn a_coverage_mask_becomes_white_with_alpha() {
    assert_eq!(
        glyph_rgba(GlyphContent::Mask, &[0, 128, 255]),
        vec![255, 255, 255, 0, 255, 255, 255, 128, 255, 255, 255, 255]
    );
    assert_eq!(
        glyph_rgba(GlyphContent::Color, &[1, 2, 3, 4, 5, 6, 7, 8, 9]),
        vec![1, 2, 3, 4, 5, 6, 7, 8]
    );
    assert_eq!(
        glyph_rgba(GlyphContent::SubpixelMask, &[1, 2, 3]),
        Vec::<u8>::new()
    );
}

#[test]
fn a_glyph_without_ink_is_remembered_as_nothing_to_draw() {
    let mut atlas = Atlas::new();
    let mut cache: GlyphCache<u32> = GlyphCache::new();
    assert_eq!(reserve_glyph(&mut atlas, &mut cache, 1, 0, 10, 2, 3), None);
    let empty = cache.get(&1).unwrap();
    assert_eq!((empty.width, empty.height, empty.left, empty.top), (0, 0, 2, 3));
    assert_eq!(inked(empty), None);
    // The pen did not move.
    assert_eq!(atlas.allocate(1, 1), Some((0, 0)));
}

#[test]
fn a_full_atlas_drops_the_cache_and_starts_over() {
    let mut atlas = Atlas::new();
    let mut cache: GlyphCache<u32> = GlyphCache::new();
    let first = reserve_glyph(&mut atlas, &mut cache, 1, 1024, 1000, 0, 0).unwrap();
    assert_eq!((first.x, first.y), (0, 0));
    assert_eq!(inked(first), Some(first));
    let second = reserve_glyph(&mut atlas, &mut cache, 2, 8, 100, -2, 5).unwrap();
    assert_eq!(
        second,
        Slot { x: 0, y: 0, width: 8, height: 100, left: -2, top: 5 }
    );
    assert_eq!(cache.get(&1), None);
    assert_eq!(cache.get(&2), Some(second));
    assert_eq!(cache.len(), 1);
}
