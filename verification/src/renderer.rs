//! The renderer's frame graph sizing: how many bloom levels a frame gets and
//! how large each one is.

use vstd::prelude::*;

verus! {

/// The most levels the bloom chain builds.
pub const BLOOM_LEVELS: u32 = 6;

/// The smallest edge a bloom level may have.
pub const BLOOM_MIN_EDGE: u32 = 8;

/// The levels that start at `w` × `h` and halve down, for at most `room`
/// levels, stopping before a level with an edge under [`BLOOM_MIN_EDGE`].
pub open spec fn halving_levels(w: int, h: int, room: nat) -> Seq<(u32, u32)>
    decreases room,
{
    if room == 0 || w < BLOOM_MIN_EDGE || h < BLOOM_MIN_EDGE {
        Seq::empty()
    } else {
        seq![(w as u32, h as u32)] + halving_levels(w / 2, h / 2, (room - 1) as nat)
    }
}

/// The bloom chain of a `width` × `height` frame: half resolution first, then
/// halving, and a single level the size of the frame (at least one texel a
/// side) when not even one half-resolution level fits.
pub open spec fn bloom_chain(width: u32, height: u32) -> Seq<(u32, u32)> {
    let levels = halving_levels((width / 2) as int, (height / 2) as int, BLOOM_LEVELS as nat);
    if levels.len() == 0 {
        seq![(if width >= 1 { width } else { 1u32 }, if height >= 1 { height } else { 1u32 })]
    } else {
        levels
    }
}

/// What every halving chain is made of: no more than `room` levels, each at
/// least [`BLOOM_MIN_EDGE`] a side, the first at `w` × `h`, and each level half
/// the one above it.
pub proof fn lemma_halving_levels_shape(w: int, h: int, room: nat)
    requires
        0 <= w <= u32::MAX,
        0 <= h <= u32::MAX,
    ensures
        halving_levels(w, h, room).len() <= room,
        halving_levels(w, h, room).len() > 0 ==> halving_levels(w, h, room)[0] == (
            w as u32,
            h as u32,
        ),
        forall|i: int|
            0 <= i < halving_levels(w, h, room).len() ==> {
                &&& #[trigger] halving_levels(w, h, room)[i].0 >= BLOOM_MIN_EDGE
                &&& halving_levels(w, h, room)[i].1 >= BLOOM_MIN_EDGE
            },
        forall|i: int|
            0 < i < halving_levels(w, h, room).len() ==> #[trigger] halving_levels(w, h, room)[i]
                == (halving_levels(w, h, room)[i - 1].0 / 2, halving_levels(w, h, room)[i - 1].1 / 2),
    decreases room,
{
    if room == 0 || w < BLOOM_MIN_EDGE || h < BLOOM_MIN_EDGE {
    } else {
        lemma_halving_levels_shape(w / 2, h / 2, (room - 1) as nat);
        let rest = halving_levels(w / 2, h / 2, (room - 1) as nat);
        let all = halving_levels(w, h, room);
        assert(all == seq![(w as u32, h as u32)] + rest);
        assert forall|i: int| 0 < i < all.len() implies #[trigger] all[i] == (
            all[i - 1].0 / 2,
            all[i - 1].1 / 2,
        ) by {
            if i == 1 {
                assert(all[1] == rest[0]);
            } else {
                assert(all[i] == rest[i - 1]);
                assert(all[i - 1] == rest[i - 2]);
            }
        }
        assert forall|i: int| 0 <= i < all.len() implies {
            &&& #[trigger] all[i].0 >= BLOOM_MIN_EDGE
            &&& all[i].1 >= BLOOM_MIN_EDGE
        } by {
            if i > 0 {
                assert(all[i] == rest[i - 1]);
            }
        }
    }
}

/// The sizes of the bloom chain's levels for a frame of `width` × `height`.
///
/// Starts at half resolution and halves, stopping at [`BLOOM_LEVELS`] or once a
/// level would have an edge under [`BLOOM_MIN_EDGE`]; a frame too small for
/// even one level still gets one, the frame's own size, so the composite never
/// samples nothing.
pub fn bloom_sizes(width: u32, height: u32) -> (sizes: Vec<(u32, u32)>)
    ensures
        sizes@ == bloom_chain(width, height),
        1 <= sizes@.len() <= BLOOM_LEVELS,
        forall|i: int| 0 <= i < sizes@.len() ==> #[trigger] sizes@[i].0 >= 1 && sizes@[i].1 >= 1,
        forall|i: int|
            0 < i < sizes@.len() ==> #[trigger] sizes@[i] == (sizes@[i - 1].0 / 2, sizes@[i
                - 1].1 / 2),
        width / 2 >= BLOOM_MIN_EDGE && height / 2 >= BLOOM_MIN_EDGE ==> sizes@[0] == (
            width / 2,
            height / 2,
        ),
{
    let mut sizes: Vec<(u32, u32)> = Vec::new();
    let mut w: u32 = width / 2;
    let mut h: u32 = height / 2;
    while sizes.len() < BLOOM_LEVELS as usize && w >= BLOOM_MIN_EDGE && h >= BLOOM_MIN_EDGE
        invariant
            sizes@.len() <= BLOOM_LEVELS,
            sizes@ + halving_levels(w as int, h as int, (BLOOM_LEVELS - sizes@.len()) as nat)
                == halving_levels((width / 2) as int, (height / 2) as int, BLOOM_LEVELS as nat),
        decreases BLOOM_LEVELS - sizes@.len(),
    {
        let ghost before = sizes@;
        let ghost room = (BLOOM_LEVELS - sizes@.len()) as nat;
        let ghost (w0, h0) = (w, h);
        assert(halving_levels(w as int, h as int, room) == seq![(w, h)] + halving_levels(
            w as int / 2,
            h as int / 2,
            (room - 1) as nat,
        ));
        sizes.push((w, h));
        w = w / 2;
        h = h / 2;
        assert(sizes@ + halving_levels(w as int, h as int, (BLOOM_LEVELS - sizes@.len()) as nat)
            =~= before + halving_levels(w0 as int, h0 as int, room));
    }
    proof {
        let room = (BLOOM_LEVELS - sizes@.len()) as nat;
        assert(halving_levels(w as int, h as int, room) == Seq::<(u32, u32)>::empty());
        assert(sizes@ =~= halving_levels((width / 2) as int, (height / 2) as int, BLOOM_LEVELS as nat));
        lemma_halving_levels_shape((width / 2) as int, (height / 2) as int, BLOOM_LEVELS as nat);
    }
    if sizes.len() == 0 {
        let fw: u32 = if width >= 1 { width } else { 1 };
        let fh: u32 = if height >= 1 { height } else { 1 };
        sizes.push((fw, fh));
    }
    sizes
}

} // verus!
