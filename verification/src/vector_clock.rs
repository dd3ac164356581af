use vstd::prelude::*;

verus! {

use core::cmp::Ordering;

/// Upper bound on the number of peers; the counter array has this fixed
/// capacity so the wire layout does not depend on the world size.
pub const MAX_PEERS: usize = 32;

/// Mathematical model of a vector clock: the full counter array together
/// with the count of live entries.
#[verifier::ext_equal]
pub ghost struct ClockV {
    pub vals: Seq<i32>,
    pub size: nat,
}

impl ClockV {
    pub open spec fn wf(self) -> bool {
        self.vals.len() == MAX_PEERS && self.size <= MAX_PEERS
    }
}

/// A vector clock: `MAX_PEERS` counters of which only the prefix
/// `[0, size)` is live; the rest is padding kept for wire-layout stability.
#[derive(Clone, Copy)]
pub struct VectorClock {
    pub clock: [i32; MAX_PEERS],
    pub size: usize,
}

impl View for VectorClock {
    type V = ClockV;

    open spec fn view(&self) -> ClockV {
        ClockV { vals: self.clock@, size: self.size as nat }
    }
}

/// Lexicographic comparison of `a` against `b` over indexes `[i, n)`,
/// yielding -1, 0 or 1.
pub open spec fn lex_cmp_from(a: Seq<i32>, b: Seq<i32>, i: int, n: int) -> int
    decreases n - i,
{
    if i >= n {
        0
    } else if a[i] < b[i] {
        -1
    } else if a[i] > b[i] {
        1
    } else {
        lex_cmp_from(a, b, i + 1, n)
    }
}

/// Order of two clocks: lexicographic over the live prefix of `a`.
pub open spec fn clock_cmp(a: ClockV, b: ClockV) -> int {
    lex_cmp_from(a.vals, b.vals, 0, a.size as int)
}

pub open spec fn clock_lt(a: ClockV, b: ClockV) -> bool {
    clock_cmp(a, b) == -1
}

pub open spec fn clock_eq(a: ClockV, b: ClockV) -> bool {
    clock_cmp(a, b) == 0
}

/// The live prefix of each clock, all counters zero and size 0 by default.
pub open spec fn zero_clock_vals() -> Seq<i32> {
    Seq::new(MAX_PEERS as nat, |i: int| 0i32)
}

/// Pointwise maximum over the live prefix; the padding and the active size
/// keep this clock's own values.
pub open spec fn clock_merge(a: ClockV, b: ClockV) -> ClockV {
    ClockV {
        vals: Seq::new(
            a.vals.len(),
            |i: int| if i < a.size && b.vals[i] > a.vals[i] {
                b.vals[i]
            } else {
                a.vals[i]
            },
        ),
        size: a.size,
    }
}

/// A clock with one counter advanced by one.
pub open spec fn clock_inc(a: ClockV, rank: int) -> ClockV {
    ClockV { vals: a.vals.update(rank, (a.vals[rank] + 1) as i32), size: a.size }
}

pub proof fn lemma_lex_range(a: Seq<i32>, b: Seq<i32>, i: int, n: int)
    ensures
        -1 <= lex_cmp_from(a, b, i, n) <= 1,
    decreases n - i,
{
    if i < n && a[i] == b[i] {
        lemma_lex_range(a, b, i + 1, n);
    }
}

pub proof fn lemma_lex_reflexive(a: Seq<i32>, i: int, n: int)
    ensures
        lex_cmp_from(a, a, i, n) == 0,
    decreases n - i,
{
    if i < n {
        lemma_lex_reflexive(a, i + 1, n);
    }
}

pub proof fn lemma_lex_antisymmetric(a: Seq<i32>, b: Seq<i32>, i: int, n: int)
    ensures
        lex_cmp_from(a, b, i, n) == -lex_cmp_from(b, a, i, n),
    decreases n - i,
{
    if i < n && a[i] == b[i] {
        lemma_lex_antisymmetric(a, b, i + 1, n);
    }
}

pub proof fn lemma_lex_transitive_lt(a: Seq<i32>, b: Seq<i32>, c: Seq<i32>, i: int, n: int)
    requires
        lex_cmp_from(a, b, i, n) == -1,
        lex_cmp_from(b, c, i, n) == -1,
    ensures
        lex_cmp_from(a, c, i, n) == -1,
    decreases n - i,
{
    if i < n && a[i] == b[i] && b[i] == c[i] {
        lemma_lex_transitive_lt(a, b, c, i + 1, n);
    }
}

/// Two clocks compare equal exactly when their compared prefixes agree
/// pointwise.
pub proof fn lemma_lex_eq_pointwise(a: Seq<i32>, b: Seq<i32>, i: int, n: int)
    ensures
        lex_cmp_from(a, b, i, n) == 0 <==> (forall|j: int| i <= j < n ==> a[j] == b[j]),
    decreases n - i,
{
    if i < n && a[i] == b[i] {
        lemma_lex_eq_pointwise(a, b, i + 1, n);
    }
}

/// Law: comparing the other way round flips the sign, and a clock compares
/// equal to itself.
pub proof fn lemma_compare_round_trip(a: ClockV, b: ClockV)
    requires
        a.size == b.size,
    ensures
        clock_cmp(a, b) == -clock_cmp(b, a),
        clock_cmp(a, a) == 0,
{
    lemma_lex_antisymmetric(a.vals, b.vals, 0, a.size as int);
    lemma_lex_reflexive(a.vals, 0, a.size as int);
}

/// Law: merging a clock with itself gives it back unchanged.
pub proof fn lemma_merge_idempotent(a: ClockV)
    ensures
        clock_merge(a, a) == a,
{
    assert(clock_merge(a, a).vals =~= a.vals);
    assert(clock_merge(a, a) =~= a);
}

/// Law: merge is commutative on the live prefix. The padding keeps each
/// clock's own values, so only the live counters are interchangeable.
pub proof fn lemma_merge_commutative(a: ClockV, b: ClockV)
    requires
        a.wf(),
        b.wf(),
        a.size == b.size,
    ensures
        clock_merge(a, b).vals.take(a.size as int) == clock_merge(b, a).vals.take(a.size as int),
        clock_merge(a, b).size == clock_merge(b, a).size,
{
    assert(clock_merge(a, b).vals.take(a.size as int) =~= clock_merge(b, a).vals.take(
        a.size as int,
    ));
}

/// Law: merge is associative.
pub proof fn lemma_merge_associative(a: ClockV, b: ClockV, c: ClockV)
    requires
        a.wf(),
        b.wf(),
        c.wf(),
        a.size == b.size,
        b.size == c.size,
    ensures
        clock_merge(clock_merge(a, b), c) == clock_merge(a, clock_merge(b, c)),
{
    assert(clock_merge(clock_merge(a, b), c).vals =~= clock_merge(a, clock_merge(b, c)).vals);
    assert(clock_merge(clock_merge(a, b), c) =~= clock_merge(a, clock_merge(b, c)));
}

impl VectorClock {
    /// A clock of active size `size`, all counters zero.
    pub fn new(size: i32) -> (r: Self)
        requires
            0 <= size <= MAX_PEERS,
        ensures
            r@.size == size as nat,
            r@.vals == zero_clock_vals(),
            r@.wf(),
    {
        let r = VectorClock { clock: [0; MAX_PEERS], size: size as usize };
        proof {
            assert(r@.vals =~= zero_clock_vals());
        }
        r
    }

    /// Lexicographic comparison over this clock's live prefix.
    pub fn compare(&self, other: &Self) -> (r: Ordering)
        requires
            self@.wf(),
        ensures
            (r == Ordering::Less) <==> clock_cmp(self@, other@) == -1,
            (r == Ordering::Equal) <==> clock_cmp(self@, other@) == 0,
            (r == Ordering::Greater) <==> clock_cmp(self@, other@) == 1,
    {
        let mut i: usize = 0;
        while i < self.size
            invariant
                self@.wf(),
                i <= self.size,
                lex_cmp_from(self.clock@, other.clock@, 0, self.size as int) == lex_cmp_from(
                    self.clock@,
                    other.clock@,
                    i as int,
                    self.size as int,
                ),
            decreases self.size - i,
        {
            if self.clock[i] != other.clock[i] {
                if self.clock[i] < other.clock[i] {
                    return Ordering::Less;
                } else {
                    return Ordering::Greater;
                }
            }
            i = i + 1;
        }
        Ordering::Equal
    }

    /// Advance the counter of one live rank by one.
    pub fn increment(&mut self, rank: usize)
        requires
            old(self)@.wf(),
            rank < old(self)@.size,
            old(self)@.vals[rank as int] < i32::MAX,
        ensures
            final(self)@ == clock_inc(old(self)@, rank as int),
    {
        let v = self.clock[rank];
        self.clock[rank] = v + 1;
        proof {
            assert(final(self)@ =~= clock_inc(old(self)@, rank as int));
        }
    }

    /// Merge another clock into this one by pointwise maximum over the live
    /// prefix. Both clocks must have the same active size.
    pub fn merge(&mut self, other: &Self)
        requires
            old(self)@.wf(),
            old(self)@.size == other@.size,
        ensures
            final(self)@ == clock_merge(old(self)@, other@),
    {
        let mut i: usize = 0;
        while i < self.size
            invariant
                self.size == old(self).size,
                self.size <= MAX_PEERS,
                i <= self.size,
                forall|j: int|
                    0 <= j < i ==> self.clock@[j] == clock_merge(old(self)@, other@).vals[j],
                forall|j: int| i <= j < MAX_PEERS ==> self.clock@[j] == old(self).clock@[j],
            decreases self.size - i,
        {
            if other.clock[i] > self.clock[i] {
                self.clock[i] = other.clock[i];
            }
            i = i + 1;
        }
        proof {
            assert(self@.vals =~= clock_merge(old(self)@, other@).vals);
            assert(self@ =~= clock_merge(old(self)@, other@));
        }
    }
}

impl Default for VectorClock {
    /// The default clock: active size zero, all counters zero.
    fn default() -> (r: Self)
        ensures
            r@.size == 0,
            r@.vals == zero_clock_vals(),
            r@.wf(),
    {
        let r = VectorClock { clock: [0; MAX_PEERS], size: 0 };
        proof {
            assert(r@.vals =~= zero_clock_vals());
        }
        r
    }
}

} // verus!
