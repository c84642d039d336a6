//! The Cohort: the Agents of one Generation, as the app records them.
//!
//! One slot per member, empty until that member's Episode lands, and the
//! previous Generation kept whole behind it as the ghost the current one is
//! moving away from. A member appears in the record when the pool reports its
//! outcome and not before, so the instrument can never show an Episode that
//! has not been run.

use vstd::prelude::*;
use vstd::relations::{sorted_by, total_ordering};

verus! {

/// One evaluated member, reduced to what the instrument draws. The
/// measurements are single-precision values, held as their bit patterns.
#[derive(Clone, Copy, Debug, PartialEq, Eq, Structural)]
pub struct Member {
    /// Seconds the Agent stayed alive: raw Competence, not Fitness.
    pub alive: u32,
    /// The fraction of the Arena the Agent visited.
    pub coverage: u32,
    /// The Fitness that breeds: shaped score plus the novelty bonus.
    pub fitness: u32,
    /// The Wave the Episode reached.
    pub wave: u32,
    /// How far this member's behaviour sits from the archive of earlier
    /// Generations.
    pub novelty: u32,
}

/// Where the single-precision value with bit pattern `b` stands in
/// `f32::total_cmp`'s order: negative values below positive ones, `-0` just
/// below `+0`, and NaNs at the two ends by their sign.
pub open spec fn total_key(b: u32) -> int {
    if b < 0x8000_0000 {
        b as int
    } else {
        0x7FFF_FFFF - b as int
    }
}

/// `f32::total_cmp`'s order on bit patterns.
pub open spec fn total_leq() -> spec_fn(u32, u32) -> bool {
    |a: u32, b: u32| total_key(a) <= total_key(b)
}

/// The integers' own order.
pub open spec fn natural_leq() -> spec_fn(u32, u32) -> bool {
    |a: u32, b: u32| a <= b
}

/// The order a column is sorted by: `total_cmp` for a measurement, the
/// integers' own for a count.
pub open spec fn column_leq(measured: bool) -> spec_fn(u32, u32) -> bool {
    if measured {
        total_leq()
    } else {
        natural_leq()
    }
}

/// The middle of a column: the element at half its length once sorted, the
/// upper of the two middles when the count is even.
pub open spec fn middle_of(column: Seq<u32>, leq: spec_fn(u32, u32) -> bool) -> u32 {
    column.sort_by(leq)[(column.len() / 2) as int]
}

/// Both column orders are total orders.
pub proof fn lemma_column_orders_are_total(measured: bool)
    ensures
        total_ordering(column_leq(measured)),
{
}

/// A column's sort key: `total_cmp`'s for a measurement.
fn column_key(b: u32, measured: bool) -> (k: i64)
    ensures
        k == (if measured {
            total_key(b)
        } else {
            b as int
        }),
{
    if !measured {
        b as i64
    } else if b < 0x8000_0000 {
        b as i64
    } else {
        0x7FFF_FFFF - b as i64
    }
}

/// A column sorted by its order.
fn sorted_column(column: &Vec<u32>, measured: bool) -> (sorted: Vec<u32>)
    ensures
        sorted@ == column@.sort_by(column_leq(measured)),
        sorted@.len() == column@.len(),
{
    broadcast use vstd::seq_lib::group_to_multiset_ensures;

    let ghost leq = column_leq(measured);
    let mut sorted: Vec<u32> = Vec::new();
    let mut i: usize = 0;
    while i < column.len()
        invariant
            i <= column@.len(),
            leq == column_leq(measured),
            sorted_by(sorted@, leq),
            sorted@.to_multiset() == column@.take(i as int).to_multiset(),
        decreases column@.len() - i,
    {
        let x = column[i];
        let kx = column_key(x, measured);
        let mut pos: usize = 0;
        while pos < sorted.len() && column_key(sorted[pos], measured) <= kx
            invariant
                pos <= sorted@.len(),
                leq == column_leq(measured),
                kx == (if measured { total_key(x) } else { x as int }),
                sorted_by(sorted@, leq),
                forall|k: int| 0 <= k < pos ==> #[trigger] leq(sorted@[k], x),
            decreases sorted@.len() - pos,
        {
            pos = pos + 1;
        }
        proof {
            assert forall|k: int| pos <= k < sorted@.len() implies #[trigger] leq(x, sorted@[k])
                && !leq(sorted@[k], x) by {
                assert(leq(sorted@[pos as int], sorted@[k]) || k == pos);
            }
            assert(column@.take(i + 1) =~= column@.take(i as int).push(x));
        }
        let ghost before = sorted@;
        sorted.insert(pos, x);
        proof {
            vstd::seq_lib::to_multiset_insert(before, pos as int, x);
            vstd::seq_lib::to_multiset_build(column@.take(i as int), x);
            assert forall|a: int, b: int| 0 <= a < b < sorted@.len() implies #[trigger] leq(
                sorted@[a],
                sorted@[b],
            ) by {
                if b < pos {
                } else if a < pos && b == pos {
                } else if a < pos {
                    assert(sorted@[b] == before[b - 1]);
                    assert(leq(before[a], x));
                } else if a == pos {
                    assert(sorted@[b] == before[b - 1]);
                } else {
                    assert(sorted@[a] == before[a - 1]);
                    assert(sorted@[b] == before[b - 1]);
                }
            }
        }
        i = i + 1;
    }
    proof {
        assert(column@.take(column@.len() as int) =~= column@);
        lemma_column_orders_are_total(measured);
        column@.lemma_sort_by_ensures(leq);
        vstd::seq_lib::lemma_sorted_unique(sorted@, column@.sort_by(leq), leq);
        vstd::seq_lib::to_multiset_len(sorted@);
        vstd::seq_lib::to_multiset_len(column@);
    }
    sorted
}

/// The median member of a landed Generation: each measurement's middle,
/// taken column by column, with no Fitness or novelty of its own.
pub open spec fn spec_median(members: Seq<Member>) -> Member {
    Member {
        alive: middle_of(members.map_values(|m: Member| m.alive), total_leq()),
        coverage: middle_of(members.map_values(|m: Member| m.coverage), total_leq()),
        fitness: 0,
        wave: middle_of(members.map_values(|m: Member| m.wave), natural_leq()),
        novelty: 0,
    }
}

/// The members that have landed, in member order.
pub open spec fn landed(slots: Seq<Option<Member>>) -> Seq<Member>
    decreases slots.len(),
{
    if slots.len() == 0 {
        Seq::empty()
    } else {
        match slots.last() {
            Some(m) => landed(slots.drop_last()).push(m),
            None => landed(slots.drop_last()),
        }
    }
}

/// The Population of one Generation, filling in as the pool reports.
pub struct Cohort {
    generation: u32,
    live: Vec<Option<Member>>,
    previous: Vec<Member>,
    watched: usize,
}

impl Cohort {
    /// The Generation being recorded.
    pub closed spec fn spec_generation(&self) -> u32 {
        self.generation
    }

    /// One slot per member, `None` until that member's Episode lands.
    pub closed spec fn spec_slots(&self) -> Seq<Option<Member>> {
        self.live@
    }

    /// The previous Generation's landed members.
    pub closed spec fn spec_ghost(&self) -> Seq<Member> {
        self.previous@
    }

    /// The member the Arena shows.
    pub closed spec fn spec_watched(&self) -> usize {
        self.watched
    }

    /// An empty record: Generation 0, no slots, no ghost.
    pub fn new() -> (cohort: Self)
        ensures
            cohort.spec_generation() == 0,
            cohort.spec_slots() == Seq::<Option<Member>>::empty(),
            cohort.spec_ghost() == Seq::<Member>::empty(),
            cohort.spec_watched() == 0,
    {
        Cohort { generation: 0, live: Vec::new(), previous: Vec::new(), watched: 0 }
    }

    /// Start recording a Generation: whatever of the last one has landed
    /// becomes the ghost (a Generation that banked nothing leaves the ghost as
    /// it was), and `size` empty slots wait for the pool.
    pub fn begin(&mut self, generation: u32, size: usize, watched: usize)
        ensures
            final(self).spec_generation() == generation,
            final(self).spec_slots() == Seq::new(size as nat, |i: int| None::<Member>),
            final(self).spec_ghost() == (if landed(old(self).spec_slots()).len() > 0 {
                landed(old(self).spec_slots())
            } else {
                old(self).spec_ghost()
            }),
            final(self).spec_watched() == (if watched < size {
                watched
            } else if size > 0 {
                (size - 1) as usize
            } else {
                0
            }),
    {
        let settled = self.landed_members();
        if settled.len() > 0 {
            self.previous = settled;
        }
        self.generation = generation;
        let mut live: Vec<Option<Member>> = Vec::new();
        let mut i: usize = 0;
        while i < size
            invariant
                i <= size,
                live@ =~= Seq::new(i as nat, |k: int| None::<Member>),
            decreases size - i,
        {
            live.push(None);
            i = i + 1;
        }
        self.live = live;
        let last = if size > 0 {
            size - 1
        } else {
            0
        };
        self.watched = if watched < last {
            watched
        } else {
            last
        };
    }

    /// The landed members of this Generation, in member order.
    fn landed_members(&self) -> (members: Vec<Member>)
        ensures
            members@ == landed(self.live@),
    {
        let mut members: Vec<Member> = Vec::new();
        let mut i: usize = 0;
        while i < self.live.len()
            invariant
                i <= self.live@.len(),
                members@ == landed(self.live@.take(i as int)),
            decreases self.live@.len() - i,
        {
            assert(self.live@.take(i + 1).drop_last() =~= self.live@.take(i as int));
            match self.live[i] {
                Some(m) => members.push(m),
                None => {},
            }
            i = i + 1;
        }
        assert(self.live@.take(self.live@.len() as int) =~= self.live@);
        members
    }

    /// Forget everything: a new seed, a restart, a load.
    pub fn clear(&mut self)
        ensures
            final(self).spec_generation() == 0,
            final(self).spec_slots() == Seq::<Option<Member>>::empty(),
            final(self).spec_ghost() == Seq::<Member>::empty(),
            final(self).spec_watched() == 0,
    {
        self.generation = 0;
        self.live.clear();
        self.previous.clear();
        self.watched = 0;
    }

    /// Bank one member's Episode. Out-of-range members are ignored rather than
    /// panicking: the instrument is never worth a crash.
    pub fn record(&mut self, member: usize, landed_member: Member)
        ensures
            final(self).spec_generation() == old(self).spec_generation(),
            final(self).spec_ghost() == old(self).spec_ghost(),
            final(self).spec_watched() == old(self).spec_watched(),
            final(self).spec_slots() == (if member < old(self).spec_slots().len() {
                old(self).spec_slots().update(member as int, Some(landed_member))
            } else {
                old(self).spec_slots()
            }),
    {
        if member < self.live.len() {
            self.live.set(member, Some(landed_member));
        }
    }

    pub fn generation(&self) -> (generation: u32)
        ensures
            generation == self.spec_generation(),
    {
        self.generation
    }

    pub fn size(&self) -> (size: usize)
        ensures
            size == self.spec_slots().len(),
    {
        self.live.len()
    }

    pub fn watched(&self) -> (watched: usize)
        ensures
            watched == self.spec_watched(),
    {
        self.watched
    }

    /// How many Episodes of this Generation have landed.
    pub fn settled(&self) -> (settled: usize)
        ensures
            settled == landed(self.spec_slots()).len(),
    {
        let mut count: usize = 0;
        let mut i: usize = 0;
        while i < self.live.len()
            invariant
                i <= self.live@.len(),
                count == landed(self.live@.take(i as int)).len(),
                count <= i,
            decreases self.live@.len() - i,
        {
            assert(self.live@.take(i + 1).drop_last() =~= self.live@.take(i as int));
            if self.live[i].is_some() {
                count = count + 1;
            }
            i = i + 1;
        }
        assert(self.live@.take(self.live@.len() as int) =~= self.live@);
        count
    }

    /// The slots, in member order, so a caller can tell the watched member from
    /// the rest and an unfinished Episode from a finished one.
    pub fn slots(&self) -> (slots: &[Option<Member>])
        ensures
            slots@ == self.spec_slots(),
    {
        self.live.as_slice()
    }

    /// The Population's middle over the members that have landed: the median
    /// alive time, coverage and Wave, the crosshair the cloud is read
    /// against. `None` until something has landed.
    pub fn median(&self) -> (middle: Option<Member>)
        ensures
            landed(self.spec_slots()).len() == 0 ==> middle is None,
            landed(self.spec_slots()).len() > 0 ==> middle == Some(
                spec_median(landed(self.spec_slots())),
            ),
    {
        let members = self.landed_members();
        if members.len() == 0 {
            return None;
        }
        let mut alive: Vec<u32> = Vec::new();
        let mut coverage: Vec<u32> = Vec::new();
        let mut wave: Vec<u32> = Vec::new();
        let mut i: usize = 0;
        while i < members.len()
            invariant
                i <= members@.len(),
                alive@ == members@.take(i as int).map_values(|m: Member| m.alive),
                coverage@ == members@.take(i as int).map_values(|m: Member| m.coverage),
                wave@ == members@.take(i as int).map_values(|m: Member| m.wave),
            decreases members@.len() - i,
        {
            let m = members[i];
            alive.push(m.alive);
            coverage.push(m.coverage);
            wave.push(m.wave);
            proof {
                assert(members@.take(i + 1) =~= members@.take(i as int).push(m));
                assert(alive@ =~= members@.take(i + 1).map_values(|m: Member| m.alive));
                assert(coverage@ =~= members@.take(i + 1).map_values(|m: Member| m.coverage));
                assert(wave@ =~= members@.take(i + 1).map_values(|m: Member| m.wave));
            }
            i = i + 1;
        }
        proof {
            assert(members@.take(members@.len() as int) =~= members@);
        }
        let alive = sorted_column(&alive, true);
        let coverage = sorted_column(&coverage, true);
        let wave = sorted_column(&wave, false);
        let mid = members.len() / 2;
        Some(Member { alive: alive[mid], coverage: coverage[mid], fitness: 0, wave: wave[mid], novelty: 0 })
    }

    /// The previous Generation's landed members.
    pub fn ghost(&self) -> (members: &[Member])
        ensures
            members@ == self.spec_ghost(),
    {
        self.previous.as_slice()
    }
}

/// A fresh Generation's record has nothing landed, and the ghost never
/// vanishes for a Generation that banked nothing: beginning twice in a row
/// keeps the ghost the first begin made.
pub proof fn lemma_empty_generation_keeps_the_ghost(size: nat)
    ensures
        landed(Seq::new(size, |i: int| None::<Member>)) == Seq::<Member>::empty(),
    decreases size,
{
    if size > 0 {
        assert(Seq::new(size, |i: int| None::<Member>).drop_last() =~= Seq::new((size - 1) as nat, |i: int| None::<Member>));
        lemma_empty_generation_keeps_the_ghost((size - 1) as nat);
    }
}

/// The median is made of landed values: its alive time, coverage and Wave are
/// each some landed member's, never an average or a value from outside the
/// Generation.
pub proof fn lemma_median_is_made_of_landed_values(members: Seq<Member>)
    requires
        members.len() > 0,
    ensures
        exists|i: int| 0 <= i < members.len() && #[trigger] members[i].alive == spec_median(members).alive,
        exists|i: int|
            0 <= i < members.len() && #[trigger] members[i].coverage == spec_median(members).coverage,
        exists|i: int| 0 <= i < members.len() && #[trigger] members[i].wave == spec_median(members).wave,
{
    lemma_middle_is_in_the_column(members.map_values(|m: Member| m.alive), total_leq());
    lemma_middle_is_in_the_column(members.map_values(|m: Member| m.coverage), total_leq());
    lemma_middle_is_in_the_column(members.map_values(|m: Member| m.wave), natural_leq());
}

/// The middle of a non-empty column is one of its elements.
proof fn lemma_middle_is_in_the_column(column: Seq<u32>, leq: spec_fn(u32, u32) -> bool)
    requires
        column.len() > 0,
        leq == total_leq() || leq == natural_leq(),
    ensures
        exists|i: int| 0 <= i < column.len() && column[i] == middle_of(column, leq),
{
    broadcast use vstd::seq_lib::group_to_multiset_ensures;

    lemma_column_orders_are_total(true);
    lemma_column_orders_are_total(false);
    column.lemma_sort_by_ensures(leq);
    let sorted = column.sort_by(leq);
    vstd::seq_lib::to_multiset_len(sorted);
    vstd::seq_lib::to_multiset_len(column);
    let x = sorted[(column.len() / 2) as int];
    assert(sorted.contains(x));
    assert(sorted.to_multiset().count(x) > 0);
    assert(column.to_multiset().count(x) > 0);
    assert(column.contains(x));
}

/// How many elements of `s` satisfy `p`.
pub open spec fn count_where(s: Seq<u32>, p: spec_fn(u32) -> bool) -> nat
    decreases s.len(),
{
    if s.len() == 0 {
        0
    } else {
        count_where(s.drop_last(), p) + if p(s.last()) {
            1nat
        } else {
            0nat
        }
    }
}

/// The elements strictly below `x` in the order `leq`.
pub open spec fn below(leq: spec_fn(u32, u32) -> bool, x: u32) -> spec_fn(u32) -> bool {
    |y: u32| leq(y, x) && !leq(x, y)
}

/// The elements strictly above `x` in the order `leq`.
pub open spec fn above(leq: spec_fn(u32, u32) -> bool, x: u32) -> spec_fn(u32) -> bool {
    |y: u32| leq(x, y) && !leq(y, x)
}

/// Counting over two sequences laid end to end.
proof fn lemma_count_concat(s: Seq<u32>, t: Seq<u32>, p: spec_fn(u32) -> bool)
    ensures
        count_where(s + t, p) == count_where(s, p) + count_where(t, p),
    decreases t.len(),
{
    if t.len() > 0 {
        assert((s + t).drop_last() =~= s + t.drop_last());
        lemma_count_concat(s, t.drop_last(), p);
    } else {
        assert(s + t =~= s);
    }
}

/// No more elements satisfy `p` than there are, and none when no element does.
proof fn lemma_count_bounds(s: Seq<u32>, p: spec_fn(u32) -> bool)
    ensures
        count_where(s, p) <= s.len(),
        (forall|i: int| 0 <= i < s.len() ==> !p(#[trigger] s[i])) ==> count_where(s, p) == 0,
    decreases s.len(),
{
    if s.len() > 0 {
        lemma_count_bounds(s.drop_last(), p);
        assert forall|i: int| 0 <= i < s.drop_last().len() implies s.drop_last()[i] == s[i] by {}
    }
}

/// Taking one element out of a sequence takes it out of the count.
proof fn lemma_count_remove(s: Seq<u32>, i: int, p: spec_fn(u32) -> bool)
    requires
        0 <= i < s.len(),
    ensures
        count_where(s, p) == count_where(s.remove(i), p) + if p(s[i]) {
            1nat
        } else {
            0nat
        },
{
    let front = s.subrange(0, i);
    let back = s.subrange(i + 1, s.len() as int);
    assert(s =~= front + seq![s[i]] + back);
    assert(s.remove(i) =~= front + back);
    lemma_count_concat(front + seq![s[i]], back, p);
    lemma_count_concat(front, seq![s[i]], p);
    lemma_count_concat(front, back, p);
    let one = seq![s[i]];
    assert(one.drop_last() =~= Seq::<u32>::empty());
    assert(count_where(Seq::<u32>::empty(), p) == 0);
    assert(one.last() == s[i]);
    assert(count_where(one, p) == if p(s[i]) {
        1nat
    } else {
        0nat
    });
    assert(count_where(s, p) == count_where(front + one + back, p));
    assert(count_where(s.remove(i), p) == count_where(front + back, p));
}

/// A count does not depend on the order of the elements.
proof fn lemma_count_permutation(a: Seq<u32>, b: Seq<u32>, p: spec_fn(u32) -> bool)
    requires
        a.to_multiset() == b.to_multiset(),
    ensures
        count_where(a, p) == count_where(b, p),
    decreases a.len(),
{
    broadcast use vstd::seq_lib::group_to_multiset_ensures;
    broadcast use vstd::multiset::group_multiset_axioms;

    vstd::seq_lib::to_multiset_len(a);
    vstd::seq_lib::to_multiset_len(b);
    if a.len() > 0 {
        let e = a.last();
        let rest = a.drop_last();
        assert(a =~= rest.push(e));
        vstd::seq_lib::to_multiset_build(rest, e);
        assert(b.to_multiset().count(e) > 0);
        assert(b.contains(e));
        let i = choose|i: int| 0 <= i < b.len() && b[i] == e;
        vstd::seq_lib::to_multiset_remove(b, i);
        assert(rest.to_multiset() =~= b.remove(i).to_multiset());
        lemma_count_permutation(rest, b.remove(i), p);
        lemma_count_remove(b, i, p);
    }
}

/// Only elements before the middle of a sorted sequence can lie strictly
/// below it.
proof fn lemma_sorted_middle_bounds_below(s: Seq<u32>, leq: spec_fn(u32, u32) -> bool)
    requires
        s.len() > 0,
        sorted_by(s, leq),
        total_ordering(leq),
    ensures
        count_where(s, below(leq, s[(s.len() / 2) as int])) <= s.len() / 2,
{
    let mid = (s.len() / 2) as int;
    let x = s[mid];
    let front = s.subrange(0, mid);
    let back = s.subrange(mid, s.len() as int);
    assert(s =~= front + back);
    lemma_count_concat(front, back, below(leq, x));
    lemma_count_bounds(front, below(leq, x));
    assert forall|j: int| 0 <= j < back.len() implies !(below(leq, x))(#[trigger] back[j]) by {
        assert(back[j] == s[mid + j]);
        if j > 0 {
            assert(leq(s[mid], s[mid + j]));
        }
    }
    lemma_count_bounds(back, below(leq, x));
}

/// Only elements after the middle of a sorted sequence can lie strictly
/// above it.
proof fn lemma_sorted_middle_bounds_above(s: Seq<u32>, leq: spec_fn(u32, u32) -> bool)
    requires
        s.len() > 0,
        sorted_by(s, leq),
        total_ordering(leq),
    ensures
        count_where(s, above(leq, s[(s.len() / 2) as int])) <= (s.len() - 1) / 2,
{
    let mid = (s.len() / 2) as int;
    let x = s[mid];
    let front = s.subrange(0, mid + 1);
    let back = s.subrange(mid + 1, s.len() as int);
    assert(s =~= front + back);
    lemma_count_concat(front, back, above(leq, x));
    lemma_count_bounds(back, above(leq, x));
    assert forall|j: int| 0 <= j < front.len() implies !(above(leq, x))(#[trigger] front[j]) by {
        assert(front[j] == s[j]);
        if j < mid {
            assert(leq(s[j], s[mid]));
        }
    }
    lemma_count_bounds(front, above(leq, x));
}

/// The middle of a column splits it: of its `n` values at most `n / 2` lie
/// strictly below the middle and at most `(n - 1) / 2` strictly above, so the
/// middle stands at position `n / 2` of the sorted column.
pub proof fn lemma_middle_splits_the_column(column: Seq<u32>, measured: bool)
    requires
        column.len() > 0,
    ensures
        count_where(column, below(column_leq(measured), middle_of(column, column_leq(measured))))
            <= column.len() / 2,
        count_where(column, above(column_leq(measured), middle_of(column, column_leq(measured))))
            <= (column.len() - 1) / 2,
{
    broadcast use vstd::seq_lib::group_to_multiset_ensures;

    let leq = column_leq(measured);
    lemma_column_orders_are_total(measured);
    column.lemma_sort_by_ensures(leq);
    let sorted = column.sort_by(leq);
    vstd::seq_lib::to_multiset_len(sorted);
    vstd::seq_lib::to_multiset_len(column);
    lemma_sorted_middle_bounds_below(sorted, leq);
    lemma_sorted_middle_bounds_above(sorted, leq);
    let x = middle_of(column, leq);
    lemma_count_permutation(column, sorted, below(leq, x));
    lemma_count_permutation(column, sorted, above(leq, x));
}

/// The median is the crosshair of what has landed: in each column (alive time
/// and coverage in `total_cmp` order, the Wave in the integers' order) at most
/// half the landed members lie strictly below it and at most half strictly
/// above it.
pub proof fn lemma_median_splits_each_column(members: Seq<Member>)
    requires
        members.len() > 0,
    ensures
        ({
            let n = members.len();
            let med = spec_median(members);
            let alive = members.map_values(|m: Member| m.alive);
            let coverage = members.map_values(|m: Member| m.coverage);
            let wave = members.map_values(|m: Member| m.wave);
            &&& count_where(alive, |y: u32| total_key(y) < total_key(med.alive)) <= n / 2
            &&& count_where(alive, |y: u32| total_key(y) > total_key(med.alive)) <= (n - 1) / 2
            &&& count_where(coverage, |y: u32| total_key(y) < total_key(med.coverage)) <= n / 2
            &&& count_where(coverage, |y: u32| total_key(y) > total_key(med.coverage)) <= (n - 1) / 2
            &&& count_where(wave, |y: u32| y < med.wave) <= n / 2
            &&& count_where(wave, |y: u32| y > med.wave) <= (n - 1) / 2
        }),
{
    let med = spec_median(members);
    let alive = members.map_values(|m: Member| m.alive);
    let coverage = members.map_values(|m: Member| m.coverage);
    let wave = members.map_values(|m: Member| m.wave);
    lemma_middle_splits_the_column(alive, true);
    lemma_middle_splits_the_column(coverage, true);
    lemma_middle_splits_the_column(wave, false);
    assert(below(total_leq(), med.alive) =~= (|y: u32| total_key(y) < total_key(med.alive)));
    assert(above(total_leq(), med.alive) =~= (|y: u32| total_key(y) > total_key(med.alive)));
    assert(below(total_leq(), med.coverage) =~= (|y: u32| total_key(y) < total_key(med.coverage)));
    assert(above(total_leq(), med.coverage) =~= (|y: u32| total_key(y) > total_key(med.coverage)));
    assert(below(natural_leq(), med.wave) =~= (|y: u32| y < med.wave));
    assert(above(natural_leq(), med.wave) =~= (|y: u32| y > med.wave));
}

/// What has landed is exactly what the slots hold: every filled slot's member
/// is among the landed ones, every landed member fills some slot, there are
/// never more of them than slots, and once every slot is filled they are the
/// slots' members in member order.
pub proof fn lemma_landed_is_what_the_slots_hold(slots: Seq<Option<Member>>)
    ensures
        landed(slots).len() <= slots.len(),
        forall|i: int| 0 <= i < slots.len() && (#[trigger] slots[i]) is Some ==> landed(
            slots,
        ).contains(slots[i]->Some_0),
        forall|j: int| 0 <= j < landed(slots).len() ==> slots.contains(
            Some(#[trigger] landed(slots)[j]),
        ),
        (forall|i: int| 0 <= i < slots.len() ==> (#[trigger] slots[i]) is Some) ==> landed(
            slots,
        ).len() == slots.len() && forall|i: int|
            0 <= i < slots.len() ==> Some(#[trigger] landed(slots)[i]) == slots[i],
    decreases slots.len(),
{
    if slots.len() > 0 {
        let rest = slots.drop_last();
        lemma_landed_is_what_the_slots_hold(rest);
        let l = landed(slots);
        let lr = landed(rest);
        assert forall|i: int| 0 <= i < slots.len() && (#[trigger] slots[i]) is Some implies l.contains(
            slots[i]->Some_0,
        ) by {
            if i < slots.len() - 1 {
                assert(rest[i] == slots[i]);
                let k = choose|k: int| 0 <= k < lr.len() && lr[k] == slots[i]->Some_0;
                assert(l[k] == lr[k]);
            } else {
                assert(l[l.len() - 1] == slots[i]->Some_0);
            }
        }
        assert forall|j: int| 0 <= j < l.len() implies slots.contains(Some(#[trigger] l[j])) by {
            if j < lr.len() {
                assert(l[j] == lr[j]);
                let k = choose|k: int| 0 <= k < rest.len() && rest[k] == Some(lr[j]);
                assert(slots[k] == rest[k]);
            } else {
                assert(slots[slots.len() - 1] == Some(l[j]));
            }
        }
        if forall|i: int| 0 <= i < slots.len() ==> (#[trigger] slots[i]) is Some {
            assert forall|i: int| 0 <= i < rest.len() implies (#[trigger] rest[i]) is Some by {
                assert(rest[i] == slots[i]);
            }
            assert(slots[slots.len() - 1] is Some);
            assert forall|i: int| 0 <= i < slots.len() implies Some(#[trigger] l[i]) == slots[i] by {
                if i < slots.len() - 1 {
                    assert(l[i] == lr[i]);
                    assert(rest[i] == slots[i]);
                }
            }
        }
    }
}

} // verus!
