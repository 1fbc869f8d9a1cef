//! The trial simulator: rolls three dice into a three-digit number, counts
//! how many of four such numbers are divisible by nine, and tallies the
//! outcomes into a worker's local counter batch.

use vstd::prelude::*;
use crate::seq_sum;

verus! {

/// Declares fastrand's generator so its values can pass through signatures;
/// the verifier sees nothing inside it.
#[verifier::external_type_specification]
#[verifier::external_body]
pub struct ExRng(fastrand::Rng);

/// Relies on fastrand::Rng::u64: a draw from the range `1..=6` lies within
/// that range.
#[verifier::external_body]
fn dice(rng: &mut fastrand::Rng) -> (r: usize)
    ensures
        1 <= r <= 6,
{
    rng.u64(1..=6) as usize
}

/// Relies on fastrand::Rng::bool: a fair coin; nothing is promised of the
/// outcome.
#[verifier::external_body]
fn coin(rng: &mut fastrand::Rng) -> (r: bool)
{
    rng.bool()
}

/// The abstract value of one local table.
pub open spec fn utbl(v: Seq<usize>) -> Seq<int> {
    v.map_values(|x: usize| x as int)
}

/// A worker's local counter batch, tallied over one bounded run of trials.
pub struct Collector {
    pub three_digit_number: Vec<usize>,
    pub mod_by_9: Vec<usize>,
    pub divided_by_9_count: Vec<usize>,
    pub coin_head_calc: Vec<usize>,
    pub coin_tail_calc: Vec<usize>,
}

/// The same tables with the same counts, ready for the wire.
pub struct CollectorVec {
    pub three_digit_number: Vec<usize>,
    pub mod_by_9: Vec<usize>,
    pub divided_by_9_count: Vec<usize>,
    pub coin_head_calc: Vec<usize>,
    pub coin_tail_calc: Vec<usize>,
}

/// A zero-filled local table of the given length.
fn zero_usize_table(n: usize) -> (r: Vec<usize>)
    ensures
        r@.len() == n,
        forall|k: int| 0 <= k < n ==> r@[k] == 0usize,
        seq_sum(utbl(r@)) == 0,
{
    let mut r: Vec<usize> = Vec::new();
    let mut i: usize = 0;
    while i < n
        invariant
            i <= n,
            r@.len() == i,
            forall|k: int| 0 <= k < i ==> r@[k] == 0usize,
        decreases n - i,
    {
        r.push(0);
        i = i + 1;
    }
    proof {
        assert(utbl(r@) =~= Seq::new(n as nat, |i: int| 0int));
        crate::database::lemma_seq_sum_zeros(n as nat);
    }
    r
}

/// A sum of non-negative entries bounds each entry.
pub proof fn lemma_seq_sum_elem_le(s: Seq<int>, i: int)
    requires
        0 <= i < s.len(),
        forall|k: int| 0 <= k < s.len() ==> #[trigger] s[k] >= 0,
    ensures
        s[i] <= seq_sum(s),
    decreases s.len(),
{
    crate::database::lemma_seq_sum_nonneg(s.drop_last());
    if i == s.len() - 1 {
    } else {
        lemma_seq_sum_elem_le(s.drop_last(), i);
    }
}

/// Raising one entry raises the sum by the same amount.
pub proof fn lemma_seq_sum_update(s: Seq<int>, i: int, v: int)
    requires
        0 <= i < s.len(),
    ensures
        seq_sum(s.update(i, v)) == seq_sum(s) - s[i] + v,
    decreases s.len(),
{
    if i == s.len() - 1 {
        assert(s.update(i, v).drop_last() =~= s.drop_last());
        assert(s.update(i, v).last() == v);
    } else {
        lemma_seq_sum_update(s.drop_last(), i, v);
        assert(s.update(i, v).drop_last() =~= s.drop_last().update(i, v));
        assert(s.update(i, v).last() == s.last());
    }
}

/// Bumps one cell of a local table by one.
fn bump(t: &mut Vec<usize>, i: usize)
    requires
        i < old(t)@.len(),
        old(t)@[i as int] < usize::MAX,
    ensures
        final(t)@ == old(t)@.update(i as int, (old(t)@[i as int] + 1) as usize),
        final(t)@.len() == old(t)@.len(),
        seq_sum(utbl(final(t)@)) == seq_sum(utbl(old(t)@)) + 1,
        forall|k: int|
            0 <= k < old(t)@.len() ==> old(t)@[k] <= #[trigger] final(t)@[k] <= old(t)@[k] + 1,
{
    let v = t[i] + 1;
    t.set(i, v);
    proof {
        lemma_seq_sum_update(utbl(old(t)@), i as int, old(t)@[i as int] + 1);
        assert(utbl(t@) =~= utbl(old(t)@).update(i as int, old(t)@[i as int] + 1));
    }
}

impl Collector {
    /// The batch has the fixed five-table shape.
    pub open spec fn wf(&self) -> bool {
        &&& self.three_digit_number@.len() == 670
        &&& self.mod_by_9@.len() == 9
        &&& self.divided_by_9_count@.len() == 5
        &&& self.coin_head_calc@.len() == 17
        &&& self.coin_tail_calc@.len() == 6
    }

    /// Room for one more trial: every cell a trial can touch stays in range.
    pub open spec fn headroom(&self) -> bool {
        &&& forall|k: int|
            0 <= k < 670 ==> #[trigger] self.three_digit_number@[k] <= usize::MAX - 4
        &&& forall|k: int| 0 <= k < 9 ==> #[trigger] self.mod_by_9@[k] <= usize::MAX - 4
        &&& forall|k: int| 0 <= k < 5 ==> #[trigger] self.divided_by_9_count@[k] < usize::MAX
        &&& forall|k: int| 0 <= k < 17 ==> #[trigger] self.coin_head_calc@[k] < usize::MAX
        &&& forall|k: int| 0 <= k < 6 ==> #[trigger] self.coin_tail_calc@[k] < usize::MAX
    }

    /// A fresh all-zero local batch.
    pub fn new() -> (r: Collector)
        ensures
            r.wf(),
            seq_sum(utbl(r.three_digit_number@)) == 0,
            seq_sum(utbl(r.mod_by_9@)) == 0,
            seq_sum(utbl(r.divided_by_9_count@)) == 0,
            seq_sum(utbl(r.coin_head_calc@)) == 0,
            seq_sum(utbl(r.coin_tail_calc@)) == 0,
            forall|k: int| 0 <= k < 670 ==> #[trigger] r.three_digit_number@[k] == 0,
            forall|k: int| 0 <= k < 9 ==> #[trigger] r.mod_by_9@[k] == 0,
            forall|k: int| 0 <= k < 5 ==> #[trigger] r.divided_by_9_count@[k] == 0,
            forall|k: int| 0 <= k < 17 ==> #[trigger] r.coin_head_calc@[k] == 0,
            forall|k: int| 0 <= k < 6 ==> #[trigger] r.coin_tail_calc@[k] == 0,
    {
        Collector {
            three_digit_number: zero_usize_table(670),
            mod_by_9: zero_usize_table(9),
            divided_by_9_count: zero_usize_table(5),
            coin_head_calc: zero_usize_table(17),
            coin_tail_calc: zero_usize_table(6),
        }
    }

    /// Hands the tables over for submission, counts unchanged.
    pub fn into_vec(self) -> (r: CollectorVec)
        ensures
            r.three_digit_number@ == self.three_digit_number@,
            r.mod_by_9@ == self.mod_by_9@,
            r.divided_by_9_count@ == self.divided_by_9_count@,
            r.coin_head_calc@ == self.coin_head_calc@,
            r.coin_tail_calc@ == self.coin_tail_calc@,
    {
        CollectorVec {
            three_digit_number: self.three_digit_number,
            mod_by_9: self.mod_by_9,
            divided_by_9_count: self.divided_by_9_count,
            coin_head_calc: self.coin_head_calc,
            coin_tail_calc: self.coin_tail_calc,
        }
    }
}

/// Rolls three dice into the number `3 + d1 + 10*d2 + 100*d3` and tallies
/// it; the result always lies in the table.
fn three_digit_number(rng: &mut fastrand::Rng, collector: &mut Collector) -> (r: usize)
    requires
        old(collector).wf(),
        forall|k: int| 0 <= k < 670 ==> #[trigger] old(collector).three_digit_number@[k]
            < usize::MAX,
    ensures
        final(collector).wf(),
        114 <= r <= 669,
        final(collector).three_digit_number@ == old(collector).three_digit_number@.update(
            r as int,
            (old(collector).three_digit_number@[r as int] + 1) as usize,
        ),
        seq_sum(utbl(final(collector).three_digit_number@)) == seq_sum(
            utbl(old(collector).three_digit_number@),
        ) + 1,
        forall|k: int|
            0 <= k < 670 ==> old(collector).three_digit_number@[k] <= #[trigger] final(collector).three_digit_number@[k] <= old(collector).three_digit_number@[k] + 1,
        final(collector).mod_by_9@ == old(collector).mod_by_9@,
        final(collector).divided_by_9_count@ == old(collector).divided_by_9_count@,
        final(collector).coin_head_calc@ == old(collector).coin_head_calc@,
        final(collector).coin_tail_calc@ == old(collector).coin_tail_calc@,
{
    let mut number: usize = 3;
    number += dice(rng);
    number += dice(rng) * 10;
    number += dice(rng) * 100;
    bump(&mut collector.three_digit_number, number);
    number
}

/// One round of four three-digit numbers: tallies each number's remainder
/// modulo nine and how many of the four were divisible by nine.
fn divided_by_9_count(rng: &mut fastrand::Rng, collector: &mut Collector) -> (r: usize)
    requires
        old(collector).wf(),
        old(collector).headroom(),
    ensures
        final(collector).wf(),
        r <= 4,
        seq_sum(utbl(final(collector).three_digit_number@)) == seq_sum(
            utbl(old(collector).three_digit_number@),
        ) + 4,
        seq_sum(utbl(final(collector).mod_by_9@)) == seq_sum(utbl(old(collector).mod_by_9@)) + 4,
        seq_sum(utbl(final(collector).divided_by_9_count@)) == seq_sum(
            utbl(old(collector).divided_by_9_count@),
        ) + 1,
        final(collector).divided_by_9_count@ == old(collector).divided_by_9_count@.update(
            r as int,
            (old(collector).divided_by_9_count@[r as int] + 1) as usize,
        ),
        final(collector).coin_head_calc@ == old(collector).coin_head_calc@,
        final(collector).coin_tail_calc@ == old(collector).coin_tail_calc@,
        forall|k: int|
            0 <= k < 670 ==> old(collector).three_digit_number@[k] <= #[trigger] final(collector).three_digit_number@[k] <= old(collector).three_digit_number@[k] + 4,
        forall|k: int|
            0 <= k < 9 ==> old(collector).mod_by_9@[k] <= #[trigger] final(collector).mod_by_9@[k] <= old(collector).mod_by_9@[k] + 4,
        forall|k: int|
            0 <= k < 5 ==> old(collector).divided_by_9_count@[k] <= #[trigger] final(collector).divided_by_9_count@[k] <= old(collector).divided_by_9_count@[k] + 1,
{
    let mut count: usize = 0;

    let a = three_digit_number(rng, collector) % 9;
    let b = three_digit_number(rng, collector) % 9;
    let c = three_digit_number(rng, collector) % 9;
    let d = three_digit_number(rng, collector) % 9;
    bump(&mut collector.mod_by_9, a);
    bump(&mut collector.mod_by_9, b);
    bump(&mut collector.mod_by_9, c);
    bump(&mut collector.mod_by_9, d);

    if a == 0 {
        count += 1;
    }
    if b == 0 {
        count += 1;
    }
    if c == 0 {
        count += 1;
    }
    if d == 0 {
        count += 1;
    }
    bump(&mut collector.divided_by_9_count, count);
    count
}

/// One full trial: a round of four numbers, then a coin flip deciding which
/// derived tally is bumped.
pub fn round(rng: &mut fastrand::Rng, collector: &mut Collector) -> (r: usize)
    requires
        old(collector).wf(),
        old(collector).headroom(),
    ensures
        final(collector).wf(),
        r <= 16,
        seq_sum(utbl(final(collector).three_digit_number@)) == seq_sum(
            utbl(old(collector).three_digit_number@),
        ) + 4,
        seq_sum(utbl(final(collector).mod_by_9@)) == seq_sum(utbl(old(collector).mod_by_9@)) + 4,
        seq_sum(utbl(final(collector).divided_by_9_count@)) == seq_sum(
            utbl(old(collector).divided_by_9_count@),
        ) + 1,
        seq_sum(utbl(final(collector).coin_head_calc@)) + seq_sum(
            utbl(final(collector).coin_tail_calc@),
        ) == seq_sum(utbl(old(collector).coin_head_calc@)) + seq_sum(
            utbl(old(collector).coin_tail_calc@),
        ) + 1,
        (final(collector).coin_head_calc@ == old(collector).coin_head_calc@.update(
            r as int,
            (old(collector).coin_head_calc@[r as int] + 1) as usize,
        ) && final(collector).coin_tail_calc@ == old(collector).coin_tail_calc@) || (final(
            collector
        ).coin_tail_calc@ == old(collector).coin_tail_calc@.update(
            r as int,
            (old(collector).coin_tail_calc@[r as int] + 1) as usize,
        ) && final(collector).coin_head_calc@ == old(collector).coin_head_calc@ && 1 <= r <= 5),
        forall|k: int|
            0 <= k < 670 ==> old(collector).three_digit_number@[k] <= #[trigger] final(collector).three_digit_number@[k] <= old(collector).three_digit_number@[k] + 4,
        forall|k: int|
            0 <= k < 9 ==> old(collector).mod_by_9@[k] <= #[trigger] final(collector).mod_by_9@[k] <= old(collector).mod_by_9@[k] + 4,
        forall|k: int|
            0 <= k < 5 ==> old(collector).divided_by_9_count@[k] <= #[trigger] final(collector).divided_by_9_count@[k] <= old(collector).divided_by_9_count@[k] + 1,
        forall|k: int|
            0 <= k < 17 ==> old(collector).coin_head_calc@[k] <= #[trigger] final(collector).coin_head_calc@[k] <= old(collector).coin_head_calc@[k] + 1,
        forall|k: int|
            0 <= k < 6 ==> old(collector).coin_tail_calc@[k] <= #[trigger] final(collector).coin_tail_calc@[k] <= old(collector).coin_tail_calc@[k] + 1,
{
    let mut x = divided_by_9_count(rng, collector);
    if coin(rng) {
        proof {
            assert(x as int * x as int <= 16) by (nonlinear_arith)
                requires
                    0 <= x <= 4,
            ;
        }
        x = x * x;
        bump(&mut collector.coin_head_calc, x);
        x
    } else {
        x = x + 1;
        bump(&mut collector.coin_tail_calc, x);
        x
    }
}

/// Runs `rounds` trials into a fresh local batch. The bound on `rounds`
/// keeps every tally within the machine word.
pub fn run_rounds(rng: &mut fastrand::Rng, rounds: usize) -> (r: Collector)
    requires
        4 * rounds as int <= usize::MAX,
    ensures
        r.wf(),
        seq_sum(utbl(r.three_digit_number@)) == 4 * rounds as int,
        seq_sum(utbl(r.mod_by_9@)) == 4 * rounds as int,
        seq_sum(utbl(r.divided_by_9_count@)) == rounds as int,
        seq_sum(utbl(r.coin_head_calc@)) + seq_sum(utbl(r.coin_tail_calc@)) == rounds as int,
{
    let mut collector = Collector::new();
    let mut done: usize = 0;
    while done < rounds
        invariant
            done <= rounds,
            4 * rounds as int <= usize::MAX,
            collector.wf(),
            seq_sum(utbl(collector.three_digit_number@)) == 4 * done as int,
            seq_sum(utbl(collector.mod_by_9@)) == 4 * done as int,
            seq_sum(utbl(collector.divided_by_9_count@)) == done as int,
            seq_sum(utbl(collector.coin_head_calc@)) + seq_sum(utbl(collector.coin_tail_calc@))
                == done as int,
            forall|k: int| 0 <= k < 670 ==> #[trigger] collector.three_digit_number@[k] >= 0,
        decreases rounds - done,
    {
        proof {
            assert forall|k: int| 0 <= k < 670 implies #[trigger] collector.three_digit_number@[k]
                <= usize::MAX - 4 by {
                assert(utbl(collector.three_digit_number@)[k] >= 0);
                lemma_seq_sum_elem_le(utbl(collector.three_digit_number@), k);
            }
            assert forall|k: int| 0 <= k < 9 implies #[trigger] collector.mod_by_9@[k] <= usize::MAX
                - 4 by {
                lemma_seq_sum_elem_le(utbl(collector.mod_by_9@), k);
            }
            assert forall|k: int| 0 <= k < 5 implies #[trigger] collector.divided_by_9_count@[k]
                < usize::MAX by {
                lemma_seq_sum_elem_le(utbl(collector.divided_by_9_count@), k);
            }
            assert forall|k: int| 0 <= k < 17 implies #[trigger] collector.coin_head_calc@[k]
                < usize::MAX by {
                lemma_seq_sum_elem_le(utbl(collector.coin_head_calc@), k);
                crate::database::lemma_seq_sum_nonneg(utbl(collector.coin_tail_calc@));
            }
            assert forall|k: int| 0 <= k < 6 implies #[trigger] collector.coin_tail_calc@[k]
                < usize::MAX by {
                lemma_seq_sum_elem_le(utbl(collector.coin_tail_calc@), k);
                crate::database::lemma_seq_sum_nonneg(utbl(collector.coin_head_calc@));
            }
        }
        round(rng, &mut collector);
        done = done + 1;
    }
    collector
}

} // verus!
