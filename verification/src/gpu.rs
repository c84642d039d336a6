//! The GPU's failure record: the first error the GPU reports is kept for the
//! window to show, until the window takes it. The record itself is a slot the
//! application keeps behind a lock; the rules for filling and emptying it are
//! here.

use vstd::prelude::*;

verus! {

/// The slot after `message` has been noted: an empty slot takes it, and a
/// slot already holding an error keeps the one it has.
pub open spec fn noted(slot: Option<String>, message: String) -> Option<String> {
    match slot {
        None => Some(message),
        Some(_) => slot,
    }
}

/// The slot after every message of `messages` has been noted, in order.
pub open spec fn noted_all(slot: Option<String>, messages: Seq<String>) -> Option<String>
    decreases messages.len(),
{
    if messages.len() == 0 {
        slot
    } else {
        noted(noted_all(slot, messages.drop_last()), messages.last())
    }
}

/// Record a GPU-side failure without unwinding. Only the first failure since
/// the last [`take_error`] is kept: the first error is the one that explains
/// the rest. Returns whether this message was the one kept, so the caller can
/// log it once.
pub fn note_error(slot: &mut Option<String>, message: String) -> (recorded: bool)
    ensures
        *final(slot) == noted(*old(slot), message),
        recorded == (*old(slot) is None),
{
    if slot.is_none() {
        *slot = Some(message);
        true
    } else {
        false
    }
}

/// Take the pending GPU error, if any, leaving the slot empty.
pub fn take_error(slot: &mut Option<String>) -> (error: Option<String>)
    ensures
        error == *old(slot),
        *final(slot) is None,
{
    slot.take()
}

/// Between two takes, the error the window is shown is the first one noted:
/// noting any run of messages into an empty slot leaves the first of them.
pub proof fn lemma_first_error_wins(messages: Seq<String>)
    ensures
        noted_all(None, messages) == (if messages.len() == 0 {
            None
        } else {
            Some(messages[0])
        }),
    decreases messages.len(),
{
    if messages.len() > 1 {
        lemma_first_error_wins(messages.drop_last());
        assert(messages.drop_last()[0] == messages[0]);
    } else if messages.len() == 1 {
        assert(messages.drop_last().len() == 0);
        assert(noted_all(None, messages.drop_last()) == None::<String>);
        assert(messages.last() == messages[0]);
    }
}

/// The seed for "New seed": the clock's sub-second nanoseconds folded with its
/// whole seconds, never zero. Seed choice is not part of a run; it comes from
/// the clock, never from a seeded stream, so "New seed" is genuinely new. A
/// clock before the epoch reads as zero on both counts.
pub fn fresh_seed(subsec_nanos: u32, secs: u64) -> (seed: u32)
    ensures
        seed == (if (subsec_nanos ^ (secs as u32)) >= 1 {
            subsec_nanos ^ (secs as u32)
        } else {
            1u32
        }),
        seed >= 1,
{
    let nanos = subsec_nanos ^ (secs as u32);
    if nanos >= 1 {
        nanos
    } else {
        1
    }
}

} // verus!
