//! The text renderer's glyph bookkeeping: what a rasterized glyph's bitmap
//! becomes in the atlas, and where in the atlas it goes.
//!
//! Shaping and rasterizing are the font stack's work and the upload is the
//! GPU's; between the two sits the decision made here, once per glyph the
//! cache has not seen.

use vstd::prelude::*;
use std::hash::Hash;
use crate::atlas::{shelf_step, corner, disjoint, inside, Atlas, GlyphCache, Region, ShelfState, Slot};

verus! {

/// What a rasterized glyph's pixels are: a coverage mask (one byte a pixel),
/// or colour pixels that arrive as RGBA already (emoji, and subpixel masks).
#[derive(Clone, Copy, Debug, PartialEq, Eq, Structural)]
pub enum GlyphContent {
    Mask,
    Color,
    SubpixelMask,
}

/// The atlas texels for a glyph's pixels: a coverage mask becomes white with
/// the coverage in alpha; colour pixels are taken four bytes at a time, and a
/// trailing partial pixel is dropped.
pub open spec fn spec_glyph_rgba(content: GlyphContent, data: Seq<u8>) -> Seq<u8> {
    match content {
        GlyphContent::Mask => Seq::new(
            4 * data.len(),
            |i: int|
                if i % 4 == 3 {
                    data[i / 4]
                } else {
                    255u8
                },
        ),
        _ => data.take(data.len() - data.len() % 4),
    }
}

/// Expand a glyph's pixels into the RGBA8 texels the atlas stores.
pub fn glyph_rgba(content: GlyphContent, data: &[u8]) -> (rgba: Vec<u8>)
    ensures
        rgba@ == spec_glyph_rgba(content, data@),
{
    let mut rgba: Vec<u8> = Vec::new();
    match content {
        GlyphContent::Mask => {
            let mut i: usize = 0;
            while i < data.len()
                invariant
                    i <= data@.len(),
                    content == GlyphContent::Mask,
                    rgba@ =~= spec_glyph_rgba(content, data@).take(4 * i as int),
                    spec_glyph_rgba(content, data@).len() == 4 * data@.len(),
                decreases data@.len() - i,
            {
                let ghost before = rgba@;
                let alpha = data[i];
                rgba.push(255u8);
                rgba.push(255u8);
                rgba.push(255u8);
                rgba.push(alpha);
                proof {
                    let full = spec_glyph_rgba(content, data@);
                    assert forall|k: int| 0 <= k < 4 * (i + 1) implies rgba@[k] == full[k] by {
                        if k < 4 * i {
                            assert(rgba@[k] == before[k]);
                        } else {
                            assert((k - 4 * i) / 1 == k - 4 * i);
                            assert(k / 4 == i as int) by (nonlinear_arith)
                                requires
                                    4 * i <= k < 4 * (i + 1),
                            ;
                            assert(k % 4 == k - 4 * i) by (nonlinear_arith)
                                requires
                                    4 * i <= k < 4 * (i + 1),
                            ;
                        }
                    }
                    assert(rgba@ =~= full.take(4 * (i + 1) as int));
                }
                i = i + 1;
            }
            proof {
                assert(spec_glyph_rgba(content, data@).take(4 * data@.len() as int) =~= spec_glyph_rgba(
                    content,
                    data@,
                ));
            }
        },
        _ => {
            let whole = data.len() - data.len() % 4;
            let mut i: usize = 0;
            while i < whole
                invariant
                    i <= whole,
                    whole == data@.len() - data@.len() % 4,
                    rgba@ =~= data@.take(i as int),
                decreases whole - i,
            {
                rgba.push(data[i]);
                i = i + 1;
            }
        },
    }
    rgba
}

/// A cached slot, as the renderer draws it: a glyph that was found to have no
/// ink is remembered with an empty slot and reported as nothing to draw.
pub fn inked(slot: Slot) -> (ink: Option<Slot>)
    ensures
        ink == (if slot.width > 0 && slot.height > 0 {
            Some(slot)
        } else {
            None
        }),
{
    if slot.width > 0 && slot.height > 0 {
        Some(slot)
    } else {
        None
    }
}

/// The slot a glyph of `width` × `height` texels is given, its pen offset
/// carried along.
pub open spec fn glyph_slot(p: (int, int), width: u32, height: u32, left: i32, top: i32) -> Slot {
    Slot { x: p.0 as u32, y: p.1 as u32, width, height, left, top }
}

/// Place a freshly rasterized glyph: a glyph with no ink is remembered as
/// such and gets nothing; otherwise it takes the next shelf slot, and when
/// the atlas is full the cache is dropped and the atlas started over before
/// one more try. The slot given is remembered under `key`.
pub fn reserve_glyph<K: Eq + Hash>(
    atlas: &mut Atlas,
    cache: &mut GlyphCache<K>,
    key: K,
    width: u32,
    height: u32,
    left: i32,
    top: i32,
) -> (slot: Option<Slot>)
    requires
        old(atlas).wf(),
    ensures
        final(atlas).wf(),
        width == 0 || height == 0 ==> {
            &&& slot is None
            &&& final(atlas)@ == old(atlas)@
            &&& final(atlas).placed() == old(atlas).placed()
            &&& vstd::std_specs::hash::obeys_key_model::<K>() ==> final(cache)@ == old(cache)@.insert(
                key,
                Slot { x: 0, y: 0, width: 0, height: 0, left, top },
            )
        },
        width > 0 && height > 0 ==> {
            let (first_state, first) = shelf_step(old(atlas)@, width as int, height as int);
            let fresh = ShelfState { size: old(atlas)@.size, cursor_x: 0, cursor_y: 0, shelf_height: 0 };
            let (second_state, second) = shelf_step(fresh, width as int, height as int);
            match first {
                Some(p) => {
                    &&& slot == Some(glyph_slot(p, width, height, left, top))
                    &&& final(atlas)@ == first_state
                    &&& vstd::std_specs::hash::obeys_key_model::<K>() ==> final(cache)@
                        == old(cache)@.insert(key, glyph_slot(p, width, height, left, top))
                },
                None => {
                    &&& final(atlas)@ == second_state
                    &&& match second {
                        Some(p) => {
                            &&& slot == Some(glyph_slot(p, width, height, left, top))
                            &&& vstd::std_specs::hash::obeys_key_model::<K>() ==> final(cache)@
                                == Map::<K, Slot>::empty().insert(
                                key,
                                glyph_slot(p, width, height, left, top),
                            )
                        },
                        None => {
                            &&& slot is None
                            &&& final(cache)@ == Map::<K, Slot>::empty()
                        },
                    }
                },
            }
        },
        slot matches Some(s) ==> {
            let r: Region = (s.x as int, s.y as int, s.width as int, s.height as int);
            &&& inside(r, Atlas::SIZE as int)
            &&& final(atlas).placed().len() > 0
            &&& final(atlas).placed().last() == r
            &&& forall|i: int|
                0 <= i < final(atlas).placed().len() - 1 ==> disjoint(
                    #[trigger] final(atlas).placed()[i],
                    r,
                )
        },
{
    if width == 0 || height == 0 {
        // A glyph with no ink still advances the pen; nothing to draw.
        cache.insert(key, Slot { x: 0, y: 0, width: 0, height: 0, left, top });
        return None;
    }
    let (x, y) = match atlas.allocate(width, height) {
        Some(position) => position,
        None => {
            // The atlas filled up: drop the cache and start a fresh shelf run.
            cache.clear();
            atlas.reset();
            match atlas.allocate(width, height) {
                Some(position) => position,
                None => {
                    return None;
                },
            }
        },
    };
    let slot = Slot { x, y, width, height, left, top };
    cache.insert(key, slot);
    Some(slot)
}

} // verus!
