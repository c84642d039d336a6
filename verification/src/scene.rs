//! The Arena scene's decisions: the starfield's generator, a Numerical-Recipes
//! linear congruential generator written out so the sky is laid the same on
//! every machine, and which of the near boundary's sampled bearings are joined.
//!
//! The sky is laid out once from fixed seeds; every position and size in it is
//! drawn from this sequence of values in `0..1`.

use vstd::prelude::*;
use crate::bits::{add32, mul32, wrapping_add32, wrapping_mul32};
use crate::binary32::{
    spec_div, spec_from_u32, spec_lt, div, from_u32, lemma_unit_fraction, TWO_POW_24, ZERO, ONE,
};

verus! {

/// One step of the generator: `seed * 1664525 + 1013904223`, wrapped to 32
/// bits.
pub open spec fn spec_lcg_next(seed: u32) -> u32 {
    add32(mul32(seed, 1_664_525), 1_013_904_223)
}

/// The next value in `0..1` from the generator, high bits first: the new
/// state's top 24 bits over `2^24`, as a single-precision bit pattern.
pub fn lcg_unit(seed: &mut u32) -> (unit: u32)
    ensures
        *final(seed) == spec_lcg_next(*old(seed)),
        unit == spec_div(spec_from_u32(*final(seed) >> 8u32), TWO_POW_24),
        !spec_lt(unit, ZERO),
        spec_lt(unit, ONE),
{
    *seed = wrapping_add32(wrapping_mul32(*seed, 1_664_525), 1_013_904_223);
    let high = *seed >> 8u32;
    proof {
        let s = *seed;
        assert(s >> 8u32 < 0x100_0000) by (bit_vector);
        lemma_unit_fraction(high);
    }
    div(from_u32(high), TWO_POW_24)
}

/// Whether the near boundary joins the sample at `slot` to the one after it:
/// only neighbours, and only when both bearings found something, so no edge is
/// ever drawn across a bearing that read nothing.
pub fn boundary_joins<T>(samples: &[Option<T>], slot: usize) -> (joins: bool)
    requires
        slot < usize::MAX,
    ensures
        joins == (slot + 1 < samples@.len() && samples@[slot as int] is Some && samples@[slot
            + 1] is Some),
{
    slot + 1 < samples.len() && samples[slot].is_some() && samples[slot + 1].is_some()
}

} // verus!
