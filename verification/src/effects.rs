//! The bounded bookkeeping behind the Arena's cosmetic light: which changes
//! of the World are events, how many events are kept, and the seed each
//! event's pattern is drawn from.
//!
//! The light itself — its shape, its age on the simulation clock, its fade —
//! is floating point and is drawn by the application.

use vstd::prelude::*;
use std::collections::VecDeque;
use crate::bits::{rotl64, rotate_left64};
use crate::scene::{lcg_unit, spec_lcg_next};

verus! {

/// The queue after `item` joins a queue bounded at `cap`: the oldest entry
/// gives way once the queue is full.
pub open spec fn capped_push<T>(queue: Seq<T>, item: T, cap: nat) -> Seq<T> {
    if queue.len() == cap {
        queue.drop_first().push(item)
    } else {
        queue.push(item)
    }
}

/// Record one event in a history bounded at `cap` entries, dropping the
/// oldest first when it is full: a storm of events costs a fixed amount.
pub fn push_capped<T>(queue: &mut VecDeque<T>, item: T, cap: usize)
    requires
        cap > 0,
        old(queue)@.len() <= cap,
    ensures
        final(queue)@ == capped_push(old(queue)@, item, cap as nat),
        final(queue)@.len() <= cap,
        final(queue)@.last() == item,
{
    if queue.len() == cap {
        queue.pop_front();
    }
    queue.push_back(item);
}

/// A history kept with [`push_capped`] never holds more than its cap, however
/// many events arrive.
pub proof fn lemma_capped_history_stays_bounded<T>(queue: Seq<T>, items: Seq<T>, cap: nat)
    requires
        cap > 0,
        queue.len() <= cap,
    ensures
        capped_all(queue, items, cap).len() <= cap,
        items.len() > 0 ==> capped_all(queue, items, cap).last() == items.last(),
    decreases items.len(),
{
    if items.len() > 0 {
        lemma_capped_history_stays_bounded(queue, items.drop_last(), cap);
    }
}

/// A history kept with [`push_capped`] holds exactly the newest events: after
/// any run of pushes it is the last `cap` of everything pushed (all of it while
/// there are fewer), oldest first, so a storm drops its oldest events and never
/// a new one.
pub proof fn lemma_capped_history_keeps_the_newest<T>(queue: Seq<T>, items: Seq<T>, cap: nat)
    requires
        cap > 0,
        queue.len() <= cap,
    ensures
        capped_all(queue, items, cap) == (queue + items).skip(
            if queue.len() + items.len() > cap {
                queue.len() + items.len() - cap
            } else {
                0
            },
        ),
    decreases items.len(),
{
    if items.len() == 0 {
        assert(queue + items =~= queue);
        assert(queue.skip(0) =~= queue);
    } else {
        let rest = items.drop_last();
        let x = items.last();
        lemma_capped_history_keeps_the_newest(queue, rest, cap);
        let before = queue + rest;
        let all = queue + items;
        assert(all =~= before.push(x));
        let k_before: int = if queue.len() + rest.len() > cap {
            queue.len() + rest.len() - cap
        } else {
            0
        };
        let prev = capped_all(queue, rest, cap);
        assert(prev == before.skip(k_before));
        if prev.len() == cap {
            assert(capped_all(queue, items, cap) == prev.drop_first().push(x));
            assert(all.skip(k_before + 1) =~= before.skip(k_before).drop_first().push(x));
        } else {
            assert(capped_all(queue, items, cap) == prev.push(x));
            assert(all.skip(0) =~= before.skip(0).push(x));
        }
    }
}

/// A bounded history after each of `items` has been pushed, in order.
pub open spec fn capped_all<T>(queue: Seq<T>, items: Seq<T>, cap: nat) -> Seq<T>
    decreases items.len(),
{
    if items.len() == 0 {
        queue
    } else {
        capped_push(capped_all(queue, items.drop_last(), cap), items.last(), cap)
    }
}

/// A Wave counter that goes up means the field was cleared. The first look at
/// an Episode (`seen` is `None`) only records the count, so arriving
/// mid-Episode never fires a spurious pulse.
pub fn wave_cleared(seen: Option<u32>, wave: u32) -> (cleared: bool)
    ensures
        cleared == (match seen {
            Some(previous) => wave > previous,
            None => false,
        }),
{
    let previous = match seen {
        Some(previous) => previous,
        None => wave,
    };
    wave > previous
}

/// A live Ship that stops being alive has died. The first look at an Episode
/// (`seen` is `None`) records the flag without firing, for the same reason.
pub fn ship_died(seen: Option<bool>, alive: bool) -> (died: bool)
    ensures
        died == (match seen {
            Some(was_alive) => was_alive && !alive,
            None => false,
        }),
{
    let was_alive = match seen {
        Some(was_alive) => was_alive,
        None => alive,
    };
    was_alive && !alive
}

/// The seed for one event's radiating pattern, from its identity quantized
/// into integers — position in 1/64 Arena units, birth in simulation steps —
/// folded into 32 bits and advanced one generator step, so neighbouring
/// identities start far apart.
pub open spec fn spec_spark_seed(qx: u64, qy: u64, steps: u64) -> u32 {
    let mixed = qx ^ rotl64(qy, 21) ^ rotl64(steps, 42);
    spec_lcg_next((mixed ^ (mixed >> 32u64)) as u32)
}

/// Fold an event's quantized identity into the seed its pattern is drawn
/// from.
pub fn spark_seed(qx: u64, qy: u64, steps: u64) -> (seed: u32)
    ensures
        seed == spec_spark_seed(qx, qy, steps),
{
    // Fold the whole 64-bit mix down, so a rotated low quantity is never lost.
    let mixed = qx ^ rotate_left64(qy, 21) ^ rotate_left64(steps, 42);
    let mut seed = (mixed ^ (mixed >> 32u64)) as u32;
    // One warm-up step, so neighbouring identities start far apart.
    lcg_unit(&mut seed);
    seed
}

} // verus!
