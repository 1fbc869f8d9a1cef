//! The aggregation core: counter batches, their merge, and the store that
//! owns the running total.

use vstd::prelude::*;
use crate::seq_sum;

verus! {

/// Fixed lengths of the five counter tables.
pub const THREE_DIGIT_NUMBER_LEN: usize = 670;

pub const MOD_BY_9_LEN: usize = 9;

pub const DIVIDED_BY_9_COUNT_LEN: usize = 5;

pub const COIN_HEAD_CALC_LEN: usize = 17;

pub const COIN_TAIL_CALC_LEN: usize = 6;

/// Index of the designated table whose entries sum to the grand total.
pub const GRAND_TOTAL_TABLE: usize = 2;

/// A batch of frequency counters: five fixed-length tables of non-negative
/// integers, wide enough not to wrap under any realistic accumulation.
pub struct Collector {
    pub three_digit_number: Vec<u128>,
    pub mod_by_9: Vec<u128>,
    pub divided_by_9_count: Vec<u128>,
    pub coin_head_calc: Vec<u128>,
    pub coin_tail_calc: Vec<u128>,
}

/// The abstract value of one table.
pub open spec fn tbl(v: Seq<u128>) -> Seq<int> {
    v.map_values(|x: u128| x as int)
}

/// Element-wise sums of two equal-length tables stay in range.
pub open spec fn tables_fit(a: Seq<u128>, b: Seq<u128>) -> bool {
    forall|i: int| 0 <= i < a.len() ==> #[trigger] a[i] + b[i] <= u128::MAX
}

impl View for Collector {
    type V = Seq<Seq<int>>;

    /// A batch is modelled as its five tables, in snapshot order.
    open spec fn view(&self) -> Seq<Seq<int>> {
        seq![
            tbl(self.three_digit_number@),
            tbl(self.mod_by_9@),
            tbl(self.divided_by_9_count@),
            tbl(self.coin_head_calc@),
            tbl(self.coin_tail_calc@),
        ]
    }
}

/// The five fixed table lengths, in snapshot order.
pub open spec fn table_lens() -> Seq<int> {
    seq![670int, 9int, 5int, 17int, 6int]
}

/// The fixed five-table shape, lengths only.
pub open spec fn shape_wf(c: Seq<Seq<int>>) -> bool {
    &&& c.len() == 5
    &&& forall|t: int| 0 <= t < 5 ==> (#[trigger] c[t]).len() == table_lens()[t]
}

/// The fixed shape every stored and submitted batch must have, with every
/// counter in the representable range.
pub open spec fn counters_wf(c: Seq<Seq<int>>) -> bool {
    &&& shape_wf(c)
    &&& forall|t: int, i: int|
        0 <= t < 5 && 0 <= i < c[t].len() ==> 0 <= #[trigger] c[t][i] <= u128::MAX
}

/// Two table collections have the same shape.
pub open spec fn same_shape(a: Seq<Seq<int>>, b: Seq<Seq<int>>) -> bool {
    &&& a.len() == b.len()
    &&& forall|t: int| 0 <= t < a.len() ==> (#[trigger] a[t]).len() == b[t].len()
}

/// Element-wise sum of two table collections of the same shape.
pub open spec fn merged(a: Seq<Seq<int>>, b: Seq<Seq<int>>) -> Seq<Seq<int>> {
    Seq::new(a.len(), |t: int| Seq::new(a[t].len(), |i: int| a[t][i] + b[t][i]))
}

/// The grand total: the sum of the designated table's entries.
pub open spec fn grand_total_of(c: Seq<Seq<int>>) -> int {
    seq_sum(c[GRAND_TOTAL_TABLE as int])
}

/// All-zero tables of the fixed shape.
pub open spec fn zero_counters() -> Seq<Seq<int>> {
    Seq::new(5, |t: int| Seq::new(table_lens()[t] as nat, |i: int| 0int))
}

impl Collector {
    /// The batch has the fixed five-table shape.
    pub open spec fn wf(&self) -> bool {
        counters_wf(self@)
    }

    /// A fresh all-zero batch.
    pub fn new_zero() -> (r: Collector)
        ensures
            r.wf(),
            r@ == zero_counters(),
    {
        let r = Collector {
            three_digit_number: zero_table(THREE_DIGIT_NUMBER_LEN),
            mod_by_9: zero_table(MOD_BY_9_LEN),
            divided_by_9_count: zero_table(DIVIDED_BY_9_COUNT_LEN),
            coin_head_calc: zero_table(COIN_HEAD_CALC_LEN),
            coin_tail_calc: zero_table(COIN_TAIL_CALC_LEN),
        };
        proof {
            assert forall|t: int| 0 <= t < 5 implies #[trigger] r@[t] =~= zero_counters()[t] by {
            }
            assert(r@ =~~= zero_counters());
        }
        r
    }

    /// Whether `other` has the same shape as `self`.
    pub fn same_shape_as(&self, other: &Collector) -> (r: bool)
        ensures
            r == same_shape(self@, other@),
    {
        let r = self.three_digit_number.len() == other.three_digit_number.len()
            && self.mod_by_9.len() == other.mod_by_9.len()
            && self.divided_by_9_count.len() == other.divided_by_9_count.len()
            && self.coin_head_calc.len() == other.coin_head_calc.len()
            && self.coin_tail_calc.len() == other.coin_tail_calc.len();
        r
    }

    /// Whether merging `batch` in would keep every counter and the grand
    /// total within range.
    pub open spec fn fits(&self, batch: &Collector) -> bool {
        &&& tables_fit(self.three_digit_number@, batch.three_digit_number@)
        &&& tables_fit(self.mod_by_9@, batch.mod_by_9@)
        &&& tables_fit(self.divided_by_9_count@, batch.divided_by_9_count@)
        &&& tables_fit(self.coin_head_calc@, batch.coin_head_calc@)
        &&& tables_fit(self.coin_tail_calc@, batch.coin_tail_calc@)
        &&& grand_total_of(self@) + grand_total_of(batch@) <= u128::MAX
    }

    /// Checks that merging `batch` in would keep every counter and the
    /// grand total within range. `self` must hold the fixed shape and a
    /// grand total that fits, as the store's accumulator always does.
    pub fn can_merge(&self, batch: &Collector) -> (r: bool)
        requires
            self.wf(),
            batch.wf(),
            0 <= grand_total_of(self@) <= u128::MAX,
        ensures
            r == self.fits(batch),
    {
        if !self.same_shape_as(batch) {
            return false;
        }
        let a = check_table_fits(&self.three_digit_number, &batch.three_digit_number);
        let b = check_table_fits(&self.mod_by_9, &batch.mod_by_9);
        let c = check_table_fits(&self.divided_by_9_count, &batch.divided_by_9_count);
        let d = check_table_fits(&self.coin_head_calc, &batch.coin_head_calc);
        let e = check_table_fits(&self.coin_tail_calc, &batch.coin_tail_calc);
        if !(a && b && c && d && e) {
            return false;
        }
        proof {
            assert(forall|k: int| 0 <= k < self@[2].len() ==> #[trigger] self@[2][k] >= 0);
            lemma_seq_sum_nonneg(self@[2]);
            assert(forall|k: int| 0 <= k < batch@[2].len() ==> #[trigger] batch@[2][k] >= 0);
            lemma_seq_sum_nonneg(batch@[2]);
        }
        let own_total = table_sum(&self.divided_by_9_count);
        let batch_total = match table_sum_checked(&batch.divided_by_9_count) {
            Some(x) => x,
            None => {
                return false;
            },
        };
        own_total <= u128::MAX - batch_total
    }

    /// Merges `batch` element-wise into `self`: pure addition, no precision
    /// loss, no table reshaped.
    pub fn merge(&mut self, batch: &Collector)
        requires
            old(self).wf(),
            batch.wf(),
            tables_fit(old(self).three_digit_number@, batch.three_digit_number@),
            tables_fit(old(self).mod_by_9@, batch.mod_by_9@),
            tables_fit(old(self).divided_by_9_count@, batch.divided_by_9_count@),
            tables_fit(old(self).coin_head_calc@, batch.coin_head_calc@),
            tables_fit(old(self).coin_tail_calc@, batch.coin_tail_calc@),
        ensures
            final(self).wf(),
            final(self)@ == merged(old(self)@, batch@),
    {
        merge_table(&mut self.three_digit_number, &batch.three_digit_number);
        merge_table(&mut self.mod_by_9, &batch.mod_by_9);
        merge_table(&mut self.divided_by_9_count, &batch.divided_by_9_count);
        merge_table(&mut self.coin_head_calc, &batch.coin_head_calc);
        merge_table(&mut self.coin_tail_calc, &batch.coin_tail_calc);
        proof {
            assert forall|t: int| 0 <= t < 5 implies #[trigger] self@[t] =~= merged(
                old(self)@,
                batch@,
            )[t] by {
            }
            assert(self@ =~~= merged(old(self)@, batch@));
        }
    }

    /// Whether the two batches hold exactly the same counters.
    pub fn equals(&self, other: &Collector) -> (r: bool)
        ensures
            r <==> self@ == other@,
    {
        if !self.same_shape_as(other) {
            return false;
        }
        let a = table_eq(&self.three_digit_number, &other.three_digit_number);
        let b = table_eq(&self.mod_by_9, &other.mod_by_9);
        let c = table_eq(&self.divided_by_9_count, &other.divided_by_9_count);
        let d = table_eq(&self.coin_head_calc, &other.coin_head_calc);
        let e = table_eq(&self.coin_tail_calc, &other.coin_tail_calc);
        if a && b && c && d && e {
            proof {
                assert forall|t: int| 0 <= t < 5 implies #[trigger] self@[t] =~= other@[t] by {
                }
                assert(self@ =~~= other@);
            }
            true
        } else {
            false
        }
    }

    /// The grand total held in the designated table.
    pub fn grand_total(&self) -> (r: u128)
        requires
            0 <= grand_total_of(self@) <= u128::MAX,
        ensures
            r as int == grand_total_of(self@),
    {
        table_sum(&self.divided_by_9_count)
    }
}

/// A zero-filled table of the given length.
fn zero_table(n: usize) -> (r: Vec<u128>)
    ensures
        r@.len() == n,
        tbl(r@) =~= Seq::new(n as nat, |i: int| 0int),
{
    let mut r: Vec<u128> = Vec::new();
    let mut i: usize = 0;
    while i < n
        invariant
            i <= n,
            r@.len() == i,
            forall|k: int| 0 <= k < i ==> r@[k] == 0u128,
        decreases n - i,
    {
        r.push(0);
        i = i + 1;
    }
    r
}

/// Adds `b` element-wise into `a`.
fn merge_table(a: &mut Vec<u128>, b: &Vec<u128>)
    requires
        old(a)@.len() == b@.len(),
        forall|i: int| 0 <= i < old(a)@.len() ==> #[trigger] old(a)@[i] + b@[i] <= u128::MAX,
    ensures
        final(a)@.len() == old(a)@.len(),
        tbl(final(a)@) =~= Seq::new(old(a)@.len() as nat, |i: int| tbl(old(a)@)[i] + tbl(b@)[i]),
{
    let n = a.len();
    let mut i: usize = 0;
    while i < n
        invariant
            i <= n,
            a@.len() == n,
            b@.len() == n,
            forall|k: int| 0 <= k < n ==> #[trigger] old(a)@[k] + b@[k] <= u128::MAX,
            forall|k: int| i <= k < n ==> #[trigger] a@[k] == old(a)@[k],
            forall|k: int| 0 <= k < i ==> #[trigger] a@[k] == old(a)@[k] + b@[k],
        decreases n - i,
    {
        let v = a[i] + b[i];
        a.set(i, v);
        i = i + 1;
    }
}

/// Element-wise equality of two tables.
fn table_eq(a: &Vec<u128>, b: &Vec<u128>) -> (r: bool)
    requires
        a@.len() == b@.len(),
    ensures
        r <==> tbl(a@) == tbl(b@),
{
    let n = a.len();
    let mut i: usize = 0;
    while i < n
        invariant
            i <= n,
            a@.len() == n,
            b@.len() == n,
            forall|k: int| 0 <= k < i ==> #[trigger] a@[k] == b@[k],
        decreases n - i,
    {
        if a[i] != b[i] {
            proof {
                assert(tbl(a@)[i as int] != tbl(b@)[i as int]);
            }
            return false;
        }
        i = i + 1;
    }
    proof {
        assert(tbl(a@) =~= tbl(b@));
    }
    true
}

/// `a[i] + b[i]` stays in range for every index.
fn check_table_fits(a: &Vec<u128>, b: &Vec<u128>) -> (r: bool)
    requires
        a@.len() == b@.len(),
    ensures
        r <==> tables_fit(a@, b@),
{
    let n = a.len();
    let mut i: usize = 0;
    while i < n
        invariant
            i <= n,
            a@.len() == n,
            b@.len() == n,
            forall|k: int| 0 <= k < i ==> #[trigger] a@[k] + b@[k] <= u128::MAX,
        decreases n - i,
    {
        if a[i] > u128::MAX - b[i] {
            return false;
        }
        i = i + 1;
    }
    true
}

/// Sums a table's entries.
fn table_sum(t: &Vec<u128>) -> (r: u128)
    requires
        0 <= seq_sum(tbl(t@)) <= u128::MAX,
    ensures
        r as int == seq_sum(tbl(t@)),
{
    let n = t.len();
    let mut acc: u128 = 0;
    let mut i: usize = 0;
    proof {
        lemma_seq_sum_nonneg_prefix(tbl(t@), 0);
    }
    while i < n
        invariant
            i <= n,
            t@.len() == n,
            0 <= seq_sum(tbl(t@)) <= u128::MAX,
            acc as int == seq_sum(tbl(t@).take(i as int)),
        decreases n - i,
    {
        proof {
            lemma_seq_sum_take_step(tbl(t@), i as int);
            lemma_seq_sum_nonneg_prefix(tbl(t@), i as int + 1);
            assert(tbl(t@).take(n as int) =~= tbl(t@));
        }
        acc = acc + t[i];
        i = i + 1;
    }
    proof {
        assert(tbl(t@).take(n as int) =~= tbl(t@));
    }
    acc
}

/// Taking one more element adds exactly that element to the sum.
pub proof fn lemma_seq_sum_take_step(s: Seq<int>, i: int)
    requires
        0 <= i < s.len(),
    ensures
        seq_sum(s.take(i + 1)) == seq_sum(s.take(i)) + s[i],
{
    assert(s.take(i + 1).drop_last() =~= s.take(i));
    assert(s.take(i + 1).last() == s[i]);
}

/// With non-negative entries, every prefix sum is at most the full sum.
pub proof fn lemma_seq_sum_nonneg_prefix(s: Seq<int>, i: int)
    requires
        0 <= i <= s.len(),
        forall|k: int| 0 <= k < s.len() ==> #[trigger] s[k] >= 0,
    ensures
        seq_sum(s.take(i)) <= seq_sum(s),
        seq_sum(s.take(i)) >= 0,
        seq_sum(s) >= 0,
    decreases s.len() - i,
{
    assert(forall|k: int| 0 <= k < i ==> s.take(i)[k] == #[trigger] s[k]);
    lemma_seq_sum_nonneg(s.take(i));
    lemma_seq_sum_nonneg(s);
    if i < s.len() {
        lemma_seq_sum_take_step(s, i);
        lemma_seq_sum_nonneg_prefix(s, i + 1);
    } else {
        assert(s.take(i) =~= s);
    }
}

/// A sum of non-negative entries is non-negative.
pub proof fn lemma_seq_sum_nonneg(s: Seq<int>)
    requires
        forall|k: int| 0 <= k < s.len() ==> #[trigger] s[k] >= 0,
    ensures
        seq_sum(s) >= 0,
    decreases s.len(),
{
    if s.len() > 0 {
        lemma_seq_sum_nonneg(s.drop_last());
    }
}

/// Merging adds the tables' sums.
pub proof fn lemma_seq_sum_pointwise_add(a: Seq<int>, b: Seq<int>)
    requires
        a.len() == b.len(),
    ensures
        seq_sum(Seq::new(a.len(), |i: int| a[i] + b[i])) == seq_sum(a) + seq_sum(b),
    decreases a.len(),
{
    let m = Seq::new(a.len(), |i: int| a[i] + b[i]);
    if a.len() > 0 {
        lemma_seq_sum_pointwise_add(a.drop_last(), b.drop_last());
        assert(m.drop_last() =~= Seq::new(
            a.drop_last().len(),
            |i: int| a.drop_last()[i] + b.drop_last()[i],
        ));
    }
}

/// Merging batches is commutative: the accumulated counters do not depend
/// on which of two batches arrives first.
pub proof fn lemma_merge_commutative(a: Seq<Seq<int>>, b: Seq<Seq<int>>)
    requires
        same_shape(a, b),
    ensures
        merged(a, b) == merged(b, a),
{
    assert forall|t: int| 0 <= t < a.len() implies #[trigger] merged(a, b)[t] =~= merged(
        b,
        a,
    )[t] by {
    }
    assert(merged(a, b) =~~= merged(b, a));
}

/// Merging batches is associative: grouping does not change the result.
pub proof fn lemma_merge_associative(a: Seq<Seq<int>>, b: Seq<Seq<int>>, c: Seq<Seq<int>>)
    requires
        same_shape(a, b),
        same_shape(b, c),
    ensures
        merged(merged(a, b), c) == merged(a, merged(b, c)),
{
    assert forall|t: int| 0 <= t < a.len() implies #[trigger] merged(merged(a, b), c)[t] =~= merged(
        a,
        merged(b, c),
    )[t] by {
    }
    assert(merged(merged(a, b), c) =~~= merged(a, merged(b, c)));
}

/// Merging adds the grand totals.
pub proof fn lemma_merge_grand_total(a: Seq<Seq<int>>, b: Seq<Seq<int>>)
    requires
        shape_wf(a),
        same_shape(a, b),
    ensures
        grand_total_of(merged(a, b)) == grand_total_of(a) + grand_total_of(b),
{
    lemma_seq_sum_pointwise_add(a[GRAND_TOTAL_TABLE as int], b[GRAND_TOTAL_TABLE as int]);
    assert(merged(a, b)[GRAND_TOTAL_TABLE as int] =~= Seq::new(
        a[GRAND_TOTAL_TABLE as int].len(),
        |i: int| a[GRAND_TOTAL_TABLE as int][i] + b[GRAND_TOTAL_TABLE as int][i],
    ));
}

} // verus!

verus! {

use crate::codec::{
    all_digits, str_to_nat, dec_digits, snapshot_text, spec_parse, quoted, lemma_dec_digits,
    lemma_spec_parse_snapshot, u128_to_dec_string, parse_dec_u128, encode_table, parse_keyed,
};

/// The error kinds of the store.
#[derive(Clone, Copy, PartialEq, Eq, Structural, Debug)]
pub enum StoreError {
    /// An incoming batch's table shapes do not match the fixed schema.
    ShapeMismatch,
    /// The on-disk snapshot cannot be decoded; fatal at startup.
    CorruptSnapshot,
    /// A snapshot write failed; the in-memory merge stands.
    PersistenceFailure,
}

/// A digit string that denotes one representable counter.
pub open spec fn valid_digit_string(s: Seq<char>) -> bool {
    &&& s.len() > 0
    &&& all_digits(s)
    &&& str_to_nat(s) <= u128::MAX
}

/// Five tables of digit strings with the fixed lengths, every string valid.
pub open spec fn store_ok(v: Seq<Seq<Seq<char>>>) -> bool {
    &&& v.len() == 5
    &&& forall|t: int| 0 <= t < 5 ==> (#[trigger] v[t]).len() == table_lens()[t]
    &&& forall|t: int, i: int|
        0 <= t < 5 && 0 <= i < v[t].len() ==> valid_digit_string(#[trigger] v[t][i])
}

/// The counters denoted by a store's digit strings.
pub open spec fn counters_of(v: Seq<Seq<Seq<char>>>) -> Seq<Seq<int>> {
    Seq::new(5, |t: int| Seq::new(v[t].len(), |i: int| str_to_nat(v[t][i]) as int))
}

/// The digit strings that encode a set of counters.
pub open spec fn encode_tables(c: Seq<Seq<int>>) -> Seq<Seq<Seq<char>>> {
    Seq::new(c.len(), |t: int| Seq::new(c[t].len(), |i: int| dec_digits(c[t][i] as nat)))
}

/// What a snapshot document denotes: the counters of its digit-string
/// tables, if the document is well-formed; nothing otherwise.
pub open spec fn spec_decode(t: Seq<char>) -> Option<Seq<Seq<int>>> {
    match spec_parse(t) {
        None => None,
        Some(v) => if store_ok(v) {
            Some(counters_of(v))
        } else {
            None
        },
    }
}

/// The textual form of a batch: each counter as a decimal digit string,
/// exactly as persisted.
pub struct CollectorStore {
    pub three_digit_number: Vec<String>,
    pub mod_by_9: Vec<String>,
    pub divided_by_9_count: Vec<String>,
    pub coin_head_calc: Vec<String>,
    pub coin_tail_calc: Vec<String>,
}

impl View for CollectorStore {
    type V = Seq<Seq<Seq<char>>>;

    open spec fn view(&self) -> Seq<Seq<Seq<char>>> {
        seq![
            self.three_digit_number.deep_view(),
            self.mod_by_9.deep_view(),
            self.divided_by_9_count.deep_view(),
            self.coin_head_calc.deep_view(),
            self.coin_tail_calc.deep_view(),
        ]
    }
}

/// Renders one counter table as digit strings.
fn encode_string_table(t: &Vec<u128>) -> (r: Vec<String>)
    ensures
        r.deep_view() == Seq::new(t@.len(), |i: int| dec_digits(tbl(t@)[i] as nat)),
{
    let mut r: Vec<String> = Vec::new();
    let mut i: usize = 0;
    while i < t.len()
        invariant
            i <= t@.len(),
            r.deep_view() =~= Seq::new(i as nat, |k: int| dec_digits(tbl(t@)[k] as nat)),
        decreases t@.len() - i,
    {
        let ghost prev = r.deep_view();
        r.push(u128_to_dec_string(t[i]));
        proof {
            assert(r.deep_view() =~= prev.push(dec_digits(tbl(t@)[i as int] as nat)));
            assert(r.deep_view() =~= Seq::new((i + 1) as nat, |k: int| dec_digits(tbl(t@)[k] as nat)));
        }
        i = i + 1;
    }
    proof {
        assert(r.deep_view() =~= Seq::new(t@.len(), |i: int| dec_digits(tbl(t@)[i] as nat)));
    }
    r
}

/// Parses one table of digit strings; succeeds exactly when the table has
/// the expected length and every string is a valid counter.
fn parse_string_table(t: &Vec<String>, n: usize) -> (r: Option<Vec<u128>>)
    ensures
        match r {
            Some(v) => t.deep_view().len() == n && (forall|i: int|
                0 <= i < n ==> valid_digit_string(#[trigger] t.deep_view()[i])) && v@.len() == n
                && tbl(v@) == Seq::new(n as nat, |i: int| str_to_nat(t.deep_view()[i]) as int),
            None => t.deep_view().len() != n || exists|i: int|
                0 <= i < n && !valid_digit_string(#[trigger] t.deep_view()[i]),
        },
{
    if t.len() != n {
        return None;
    }
    let mut v: Vec<u128> = Vec::new();
    let mut i: usize = 0;
    while i < n
        invariant
            i <= n,
            t@.len() == n,
            v@.len() == i,
            forall|k: int| 0 <= k < i ==> valid_digit_string(#[trigger] t.deep_view()[k]),
            forall|k: int| 0 <= k < i ==> #[trigger] v@[k] as nat == str_to_nat(t.deep_view()[k]),
        decreases n - i,
    {
        match parse_dec_u128(t[i].as_str()) {
            Some(x) => {
                v.push(x);
            },
            None => {
                proof {
                    assert(!valid_digit_string(t.deep_view()[i as int]));
                }
                return None;
            },
        }
        i = i + 1;
    }
    proof {
        assert(tbl(v@) =~= Seq::new(n as nat, |i: int| str_to_nat(t.deep_view()[i]) as int));
    }
    Some(v)
}

impl CollectorStore {
    /// Renders a batch's counters as their decimal digit strings.
    pub fn from_collector(collector: &Collector) -> (r: Self)
        ensures
            r@ == encode_tables(collector@),
    {
        let r = CollectorStore {
            three_digit_number: encode_string_table(&collector.three_digit_number),
            mod_by_9: encode_string_table(&collector.mod_by_9),
            divided_by_9_count: encode_string_table(&collector.divided_by_9_count),
            coin_head_calc: encode_string_table(&collector.coin_head_calc),
            coin_tail_calc: encode_string_table(&collector.coin_tail_calc),
        };
        proof {
            assert forall|t: int| 0 <= t < 5 implies #[trigger] r@[t] =~= encode_tables(
                collector@,
            )[t] by {
            }
            assert(r@ =~~= encode_tables(collector@));
        }
        r
    }

    /// Recovers a batch from its digit strings, rejecting any table of the
    /// wrong length and any string that is not a representable counter.
    pub fn into_collector(self) -> (r: Result<Collector, StoreError>)
        ensures
            match r {
                Ok(c) => store_ok(self@) && c.wf() && c@ == counters_of(self@),
                Err(e) => e == StoreError::CorruptSnapshot && !store_ok(self@),
            },
    {
        let t0 = parse_string_table(&self.three_digit_number, THREE_DIGIT_NUMBER_LEN);
        let t1 = parse_string_table(&self.mod_by_9, MOD_BY_9_LEN);
        let t2 = parse_string_table(&self.divided_by_9_count, DIVIDED_BY_9_COUNT_LEN);
        let t3 = parse_string_table(&self.coin_head_calc, COIN_HEAD_CALC_LEN);
        let t4 = parse_string_table(&self.coin_tail_calc, COIN_TAIL_CALC_LEN);
        match (t0, t1, t2, t3, t4) {
            (Some(v0), Some(v1), Some(v2), Some(v3), Some(v4)) => {
                let c = Collector {
                    three_digit_number: v0,
                    mod_by_9: v1,
                    divided_by_9_count: v2,
                    coin_head_calc: v3,
                    coin_tail_calc: v4,
                };
                proof {
                    assert forall|t: int, i: int|
                        0 <= t < 5 && 0 <= i < self@[t].len() implies valid_digit_string(
                        #[trigger] self@[t][i],
                    ) by {
                        if t == 0 {
                            assert(valid_digit_string(self@[0][i]));
                        } else if t == 1 {
                            assert(valid_digit_string(self@[1][i]));
                        } else if t == 2 {
                            assert(valid_digit_string(self@[2][i]));
                        } else if t == 3 {
                            assert(valid_digit_string(self@[3][i]));
                        } else {
                            assert(valid_digit_string(self@[4][i]));
                        }
                    }
                    assert forall|t: int| 0 <= t < 5 implies #[trigger] c@[t] =~= counters_of(
                        self@,
                    )[t] by {
                    }
                    assert(c@ =~~= counters_of(self@));
                }
                Ok(c)
            },
            _ => {
                proof {
                    assert(!store_ok(self@));
                }
                Err(StoreError::CorruptSnapshot)
            },
        }
    }

    /// Renders the snapshot document for these tables.
    #[verifier::rlimit(100)]
    pub fn encode_json(&self) -> (r: String)
        ensures
            r@ == snapshot_text(self@),
    {
        proof {
            reveal_strlit("{");
            reveal_strlit("}");
            reveal_strlit(",");
            reveal_strlit("\"three_digit_number\":");
            reveal_strlit("three_digit_number");
            reveal_strlit("\"mod_by_9\":");
            reveal_strlit("mod_by_9");
            reveal_strlit("\"divided_by_9_count\":");
            reveal_strlit("divided_by_9_count");
            reveal_strlit("\"coin_head_calc\":");
            reveal_strlit("coin_head_calc");
            reveal_strlit("\"coin_tail_calc\":");
            reveal_strlit("coin_tail_calc");
            assert("\"three_digit_number\":"@ =~= quoted("three_digit_number"@) + seq![':']);
            assert("\"mod_by_9\":"@ =~= quoted("mod_by_9"@) + seq![':']);
            assert("\"divided_by_9_count\":"@ =~= quoted("divided_by_9_count"@) + seq![':']);
            assert("\"coin_head_calc\":"@ =~= quoted("coin_head_calc"@) + seq![':']);
            assert("\"coin_tail_calc\":"@ =~= quoted("coin_tail_calc"@) + seq![':']);
        }
        let mut r = String::from_str("{");
        r.append("\"three_digit_number\":");
        let e0 = encode_table(&self.three_digit_number);
        r.append(e0.as_str());
        r.append(",");
        r.append("\"mod_by_9\":");
        let e1 = encode_table(&self.mod_by_9);
        r.append(e1.as_str());
        r.append(",");
        r.append("\"divided_by_9_count\":");
        let e2 = encode_table(&self.divided_by_9_count);
        r.append(e2.as_str());
        r.append(",");
        r.append("\"coin_head_calc\":");
        let e3 = encode_table(&self.coin_head_calc);
        r.append(e3.as_str());
        r.append(",");
        r.append("\"coin_tail_calc\":");
        let e4 = encode_table(&self.coin_tail_calc);
        r.append(e4.as_str());
        r.append("}");
        proof {
            assert(r@ =~= snapshot_text(self@));
        }
        r
    }

    /// Parses a snapshot document; succeeds exactly on the canonical form.
    pub fn parse_json(s: &str) -> (r: Result<CollectorStore, StoreError>)
        ensures
            match r {
                Ok(cs) => spec_parse(s@) == Some(cs@),
                Err(e) => e == StoreError::CorruptSnapshot && spec_parse(s@) is None,
            },
    {
        proof {
            reveal_strlit("\"three_digit_number\":");
            reveal_strlit("three_digit_number");
            reveal_strlit("\"mod_by_9\":");
            reveal_strlit("mod_by_9");
            reveal_strlit("\"divided_by_9_count\":");
            reveal_strlit("divided_by_9_count");
            reveal_strlit("\"coin_head_calc\":");
            reveal_strlit("coin_head_calc");
            reveal_strlit("\"coin_tail_calc\":");
            reveal_strlit("coin_tail_calc");
            assert("\"three_digit_number\":"@ =~= quoted("three_digit_number"@) + seq![':']);
            assert("\"mod_by_9\":"@ =~= quoted("mod_by_9"@) + seq![':']);
            assert("\"divided_by_9_count\":"@ =~= quoted("divided_by_9_count"@) + seq![':']);
            assert("\"coin_head_calc\":"@ =~= quoted("coin_head_calc"@) + seq![':']);
            assert("\"coin_tail_calc\":"@ =~= quoted("coin_tail_calc"@) + seq![':']);
        }
        let len = s.unicode_len();
        if !(len > 0 && s.get_char(0) == '{') {
            return Err(StoreError::CorruptSnapshot);
        }
        let r0 = parse_keyed(s, len, 1, "\"three_digit_number\":", Ghost("three_digit_number"@));
        match r0 {
            Some((v0, p0)) => {
                if !(p0 < len && s.get_char(p0) == ',') {
                    return Err(StoreError::CorruptSnapshot);
                }
                let r1 = parse_keyed(s, len, p0 + 1, "\"mod_by_9\":", Ghost("mod_by_9"@));
                match r1 {
                    Some((v1, p1)) => {
                        if !(p1 < len && s.get_char(p1) == ',') {
                            return Err(StoreError::CorruptSnapshot);
                        }
                        let r2 = parse_keyed(
                            s,
                            len,
                            p1 + 1,
                            "\"divided_by_9_count\":",
                            Ghost("divided_by_9_count"@),
                        );
                        match r2 {
                            Some((v2, p2)) => {
                                if !(p2 < len && s.get_char(p2) == ',') {
                                    return Err(StoreError::CorruptSnapshot);
                                }
                                let r3 = parse_keyed(
                                    s,
                                    len,
                                    p2 + 1,
                                    "\"coin_head_calc\":",
                                    Ghost("coin_head_calc"@),
                                );
                                match r3 {
                                    Some((v3, p3)) => {
                                        if !(p3 < len && s.get_char(p3) == ',') {
                                            return Err(StoreError::CorruptSnapshot);
                                        }
                                        let r4 = parse_keyed(
                                            s,
                                            len,
                                            p3 + 1,
                                            "\"coin_tail_calc\":",
                                            Ghost("coin_tail_calc"@),
                                        );
                                        match r4 {
                                            Some((v4, p4)) => {
                                                if p4 < len && s.get_char(p4) == '}' && p4 + 1
                                                    == len {
                                                    let cs = CollectorStore {
                                                        three_digit_number: v0,
                                                        mod_by_9: v1,
                                                        divided_by_9_count: v2,
                                                        coin_head_calc: v3,
                                                        coin_tail_calc: v4,
                                                    };
                                                    proof {
                                                        assert(cs@ =~= seq![
                                                            v0.deep_view(),
                                                            v1.deep_view(),
                                                            v2.deep_view(),
                                                            v3.deep_view(),
                                                            v4.deep_view(),
                                                        ]);
                                                    }
                                                    Ok(cs)
                                                } else {
                                                    Err(StoreError::CorruptSnapshot)
                                                }
                                            },
                                            None => Err(StoreError::CorruptSnapshot),
                                        }
                                    },
                                    None => Err(StoreError::CorruptSnapshot),
                                }
                            },
                            None => Err(StoreError::CorruptSnapshot),
                        }
                    },
                    None => Err(StoreError::CorruptSnapshot),
                }
            },
            None => Err(StoreError::CorruptSnapshot),
        }
    }
}

} // verus!

verus! {

/// The store: the canonical accumulated counters, the path its snapshots
/// are written to, and the running grand total.
pub struct DataBase {
    pub file_path: String,
    pub collector: Collector,
    pub total: u128,
}

/// Every counter of a batch is representable.
proof fn lemma_collector_bounds(c: &Collector)
    ensures
        forall|t: int, i: int|
            0 <= t < 5 && 0 <= i < c@[t].len() ==> 0 <= #[trigger] c@[t][i] <= u128::MAX,
{
    assert forall|t: int, i: int|
        0 <= t < 5 && 0 <= i < c@[t].len() implies 0 <= #[trigger] c@[t][i] <= u128::MAX by {
        if t == 0 {
            assert(c@[0][i] == c.three_digit_number@[i] as int);
        } else if t == 1 {
            assert(c@[1][i] == c.mod_by_9@[i] as int);
        } else if t == 2 {
            assert(c@[2][i] == c.divided_by_9_count@[i] as int);
        } else if t == 3 {
            assert(c@[3][i] == c.coin_head_calc@[i] as int);
        } else {
            assert(c@[4][i] == c.coin_tail_calc@[i] as int);
        }
    }
}

/// A sum of zeros is zero.
pub proof fn lemma_seq_sum_zeros(n: nat)
    ensures
        seq_sum(Seq::new(n, |i: int| 0int)) == 0,
    decreases n,
{
    if n > 0 {
        lemma_seq_sum_zeros((n - 1) as nat);
        assert(Seq::new(n, |i: int| 0int).drop_last() =~= Seq::new((n - 1) as nat, |i: int| 0int));
    }
}

/// Sums a table, detecting a grand total beyond the counter width.
fn table_sum_checked(t: &Vec<u128>) -> (r: Option<u128>)
    ensures
        match r {
            Some(x) => x as int == seq_sum(tbl(t@)),
            None => seq_sum(tbl(t@)) > u128::MAX,
        },
{
    let n = t.len();
    let mut acc: u128 = 0;
    let mut i: usize = 0;
    proof {
        assert(forall|k: int| 0 <= k < tbl(t@).len() ==> #[trigger] tbl(t@)[k] >= 0);
        assert(tbl(t@).take(0) =~= Seq::<int>::empty());
    }
    while i < n
        invariant
            i <= n,
            t@.len() == n,
            acc as int == seq_sum(tbl(t@).take(i as int)),
        decreases n - i,
    {
        proof {
            lemma_seq_sum_take_step(tbl(t@), i as int);
        }
        match acc.checked_add(t[i]) {
            Some(v) => {
                acc = v;
            },
            None => {
                proof {
                    assert(forall|k: int| 0 <= k < tbl(t@).len() ==> #[trigger] tbl(t@)[k] >= 0);
                    lemma_seq_sum_nonneg_prefix(tbl(t@), i as int + 1);
                }
                return None;
            },
        }
        i = i + 1;
    }
    proof {
        assert(tbl(t@).take(n as int) =~= tbl(t@));
    }
    Some(acc)
}

impl DataBase {
    /// The store's invariant: fixed-shape counters, and a running total
    /// that equals the designated table's sum.
    pub open spec fn wf(&self) -> bool {
        &&& self.collector.wf()
        &&& self.total as int == grand_total_of(self.collector@)
    }

    /// Opens a store. With no snapshot the counters start at zero; with one,
    /// the snapshot must decode and its grand total must be representable,
    /// else the store refuses to start.
    pub fn new(file_path: String, snapshot: Option<&str>) -> (r: Result<DataBase, StoreError>)
        ensures
            match r {
                Ok(db) => db.wf() && db.file_path@ == file_path@ && (match snapshot {
                    None => db.collector@ == zero_counters() && db.total == 0,
                    Some(text) => spec_decode(text@) == Some(db.collector@),
                }),
                Err(e) => e == StoreError::CorruptSnapshot && (match snapshot {
                    None => false,
                    Some(text) => spec_decode(text@) is None || (spec_decode(text@) matches Some(c)
                        && grand_total_of(c) > u128::MAX),
                }),
            },
    {
        match snapshot {
            None => {
                let collector = Collector::new_zero();
                proof {
                    lemma_seq_sum_zeros(5);
                    assert(zero_counters()[2] =~= Seq::new(5, |i: int| 0int));
                }
                Ok(DataBase { file_path, collector, total: 0 })
            },
            Some(text) => {
                let cs = match CollectorStore::parse_json(text) {
                    Ok(cs) => cs,
                    Err(e) => {
                        return Err(e);
                    },
                };
                let collector = match cs.into_collector() {
                    Ok(c) => c,
                    Err(e) => {
                        return Err(e);
                    },
                };
                match table_sum_checked(&collector.divided_by_9_count) {
                    Some(total) => Ok(DataBase { file_path, collector, total }),
                    None => Err(StoreError::CorruptSnapshot),
                }
            },
        }
    }

    /// Merges a batch into the stored counters and returns the new grand
    /// total. A batch of the wrong shape is rejected and nothing changes.
    pub fn add(&mut self, batch: &Collector) -> (r: Result<u128, StoreError>)
        requires
            old(self).wf(),
            batch.wf() ==> old(self).collector.fits(batch),
        ensures
            final(self).wf(),
            final(self).file_path == old(self).file_path,
            match r {
                Ok(total) => batch.wf() && final(self).collector@ == merged(
                    old(self).collector@,
                    batch@,
                ) && total == final(self).total && total as int == grand_total_of(
                    old(self).collector@,
                ) + grand_total_of(batch@),
                Err(e) => e == StoreError::ShapeMismatch && !batch.wf() && final(self).collector@
                    == old(self).collector@ && final(self).total == old(self).total,
            },
    {
        if !self.collector.same_shape_as(batch) {
            proof {
                if batch.wf() {
                    assert(same_shape(self.collector@, batch@));
                }
            }
            return Err(StoreError::ShapeMismatch);
        }
        proof {
            lemma_collector_bounds(batch);
            assert(batch.wf());
            assert(forall|k: int|
                0 <= k < batch@[2].len() ==> #[trigger] batch@[2][k] >= 0);
            lemma_seq_sum_nonneg(batch@[2]);
            assert(forall|k: int|
                0 <= k < self.collector@[2].len() ==> #[trigger] self.collector@[2][k] >= 0);
            lemma_seq_sum_nonneg(self.collector@[2]);
        }
        let batch_total = batch.grand_total();
        proof {
            lemma_merge_grand_total(self.collector@, batch@);
        }
        self.collector.merge(batch);
        self.total = self.total + batch_total;
        Ok(self.total)
    }

    /// The snapshot document for the store's current counters.
    pub fn serialize(&self) -> (r: String)
        ensures
            r@ == snapshot_text(encode_tables(self.collector@)),
    {
        CollectorStore::from_collector(&self.collector).encode_json()
    }
}

// ------------------------------------------------------------------
// Laws.
// ------------------------------------------------------------------

/// Round trip: the snapshot document written for any reachable set of
/// counters decodes to exactly those counters — no precision loss through
/// the textual encoding, whatever the magnitudes.
/// The encoded tables of well-formed counters form a valid store that
/// denotes the same counters.
proof fn lemma_encode_tables_ok(c: Seq<Seq<int>>)
    requires
        counters_wf(c),
    ensures
        store_ok(encode_tables(c)),
        forall|t: int| 0 <= t < 5 ==> (#[trigger] encode_tables(c)[t]).len() >= 1,
        forall|t: int, j: int|
            0 <= t < 5 && 0 <= j < encode_tables(c)[t].len() ==> all_digits(
                #[trigger] encode_tables(c)[t][j],
            ),
        counters_of(encode_tables(c)) == c,
{
    let v = encode_tables(c);
    assert forall|t: int, j: int| 0 <= t < 5 && 0 <= j < v[t].len() implies valid_digit_string(
        #[trigger] v[t][j],
    ) && all_digits(v[t][j]) by {
        lemma_dec_digits(c[t][j] as nat);
        assert(v[t][j] == dec_digits(c[t][j] as nat));
    }
    assert forall|t: int| 0 <= t < 5 implies (#[trigger] v[t]).len() >= 1 by {
        assert(v[t].len() == c[t].len());
    }
    assert forall|t: int| 0 <= t < 5 implies #[trigger] counters_of(v)[t] =~= c[t] by {
        assert forall|i: int| 0 <= i < c[t].len() implies counters_of(v)[t][i] == c[t][i] by {
            lemma_dec_digits(c[t][i] as nat);
            assert(v[t][i] == dec_digits(c[t][i] as nat));
        }
    }
    assert(counters_of(v) =~~= c);
}

/// Round trip: the snapshot document written for any reachable set of
/// counters decodes to exactly those counters — no precision loss through
/// the textual encoding, whatever the magnitudes.
pub proof fn lemma_snapshot_round_trip(c: Seq<Seq<int>>)
    requires
        counters_wf(c),
    ensures
        spec_decode(snapshot_text(encode_tables(c))) == Some(c),
{
    let v = encode_tables(c);
    lemma_encode_tables_ok(c);
    lemma_spec_parse_snapshot(v);
}

/// Startup recovery: a store's own snapshot always decodes back to its
/// counters, and the recovered grand total is the one it held.
pub proof fn lemma_startup_recovery(db: DataBase)
    requires
        db.wf(),
    ensures
        spec_decode(snapshot_text(encode_tables(db.collector@))) == Some(db.collector@),
        grand_total_of(db.collector@) == db.total,
{
    lemma_snapshot_round_trip(db.collector@);
}

/// The counters after merging a sequence of batches, in order.
pub open spec fn merge_all(init: Seq<Seq<int>>, batches: Seq<Seq<Seq<int>>>) -> Seq<Seq<int>>
    decreases batches.len(),
{
    if batches.len() == 0 {
        init
    } else {
        merged(merge_all(init, batches.drop_last()), batches.last())
    }
}

/// The sum of the batches' designated-table totals.
pub open spec fn total_of_batches(batches: Seq<Seq<Seq<int>>>) -> int
    decreases batches.len(),
{
    if batches.len() == 0 {
        0
    } else {
        total_of_batches(batches.drop_last()) + grand_total_of(batches.last())
    }
}

/// Merging preserves the fixed shape.
pub proof fn lemma_merge_all_shape(init: Seq<Seq<int>>, batches: Seq<Seq<Seq<int>>>)
    requires
        shape_wf(init),
        forall|k: int| 0 <= k < batches.len() ==> same_shape(init, #[trigger] batches[k]),
    ensures
        shape_wf(merge_all(init, batches)),
    decreases batches.len(),
{
    if batches.len() > 0 {
        lemma_merge_all_shape(init, batches.drop_last());
        assert(same_shape(init, batches.last()));
    }
}

/// Grand total invariant: after merging batches with designated-table sums
/// `s1..sn` into a store, the grand total is the initial total plus the sum
/// of the `si` — in whatever order the batches were merged.
pub proof fn lemma_grand_total_accumulates(init: Seq<Seq<int>>, batches: Seq<Seq<Seq<int>>>)
    requires
        shape_wf(init),
        forall|k: int| 0 <= k < batches.len() ==> same_shape(init, #[trigger] batches[k]),
    ensures
        grand_total_of(merge_all(init, batches)) == grand_total_of(init) + total_of_batches(
            batches,
        ),
    decreases batches.len(),
{
    if batches.len() > 0 {
        lemma_grand_total_accumulates(init, batches.drop_last());
        lemma_merge_all_shape(init, batches.drop_last());
        let acc = merge_all(init, batches.drop_last());
        assert(same_shape(init, batches.last()));
        assert forall|t: int| 0 <= t < acc.len() implies (#[trigger] acc[t]).len()
            == batches.last()[t].len() by {
            assert(acc[t].len() == table_lens()[t]);
            assert(init[t].len() == batches.last()[t].len());
        }
        assert(same_shape(acc, batches.last()));
        lemma_merge_grand_total(acc, batches.last());
    }
}

/// Two adjacent submissions may land in either order: the accumulated
/// counters come out the same.
pub proof fn lemma_merge_order_irrelevant(c: Seq<Seq<int>>, a: Seq<Seq<int>>, b: Seq<Seq<int>>)
    requires
        same_shape(c, a),
        same_shape(c, b),
    ensures
        merged(merged(c, a), b) == merged(merged(c, b), a),
{
    assert forall|t: int| 0 <= t < a.len() implies (#[trigger] a[t]).len() == b[t].len() by {
        assert(c[t].len() == a[t].len());
        assert(c[t].len() == b[t].len());
    }
    assert(same_shape(a, b));
    lemma_merge_commutative(a, b);
    lemma_merge_associative(c, a, b);
    lemma_merge_associative(c, b, a);
}

} // verus!

verus! {

/// Two collections of the fixed shape share any third one's shape.
proof fn lemma_shape_carries(x: Seq<Seq<int>>, init: Seq<Seq<int>>, y: Seq<Seq<int>>)
    requires
        shape_wf(x),
        shape_wf(init),
        same_shape(init, y),
    ensures
        same_shape(x, y),
{
    assert forall|t: int| 0 <= t < x.len() implies (#[trigger] x[t]).len() == y[t].len() by {
        assert(x[t].len() == table_lens()[t]);
        assert(init[t].len() == y[t].len());
    }
}

/// Any one batch may be pulled out of the sequence and merged last instead:
/// the accumulated counters come out the same.
proof fn lemma_merge_all_pull(init: Seq<Seq<int>>, bs: Seq<Seq<Seq<int>>>, i: int)
    requires
        shape_wf(init),
        forall|k: int| 0 <= k < bs.len() ==> same_shape(init, #[trigger] bs[k]),
        0 <= i < bs.len(),
    ensures
        merge_all(init, bs) == merged(merge_all(init, bs.remove(i)), bs[i]),
    decreases bs.len(),
{
    if i == bs.len() - 1 {
        assert(bs.remove(i) =~= bs.drop_last());
    } else {
        let dl = bs.drop_last();
        assert(forall|k: int| 0 <= k < dl.len() ==> same_shape(init, #[trigger] dl[k]));
        lemma_merge_all_pull(init, dl, i);
        let x = merge_all(init, dl.remove(i));
        assert(forall|k: int|
            0 <= k < dl.remove(i).len() ==> same_shape(init, #[trigger] dl.remove(i)[k]));
        lemma_merge_all_shape(init, dl.remove(i));
        lemma_shape_carries(x, init, bs[i]);
        lemma_shape_carries(x, init, bs.last());
        lemma_merge_order_irrelevant(x, bs[i], bs.last());
        assert(bs.remove(i).drop_last() =~= dl.remove(i));
        assert(bs.remove(i).last() == bs.last());
        assert(merge_all(init, bs.remove(i)) == merged(x, bs.last()));
        assert(merge_all(init, bs) == merged(merged(x, bs[i]), bs.last()));
    }
}

/// Merge order does not matter at all: merging the same batches in any two
/// orders into the same starting counters yields the same final counters.
pub proof fn lemma_merge_any_order(
    init: Seq<Seq<int>>,
    a: Seq<Seq<Seq<int>>>,
    b: Seq<Seq<Seq<int>>>,
)
    requires
        shape_wf(init),
        forall|k: int| 0 <= k < a.len() ==> same_shape(init, #[trigger] a[k]),
        forall|k: int| 0 <= k < b.len() ==> same_shape(init, #[trigger] b[k]),
        a.to_multiset() == b.to_multiset(),
    ensures
        merge_all(init, a) == merge_all(init, b),
    decreases a.len(),
{
    broadcast use vstd::seq_lib::group_to_multiset_ensures;

    if b.len() == 0 {
        assert(a.to_multiset().len() == 0);
        assert(a.len() == 0);
    } else {
        let x = b.last();
        assert(b.contains(x));
        assert(b.to_multiset().count(x) > 0);
        assert(a.to_multiset().count(x) > 0);
        assert(a.contains(x));
        let i = choose|i: int| 0 <= i < a.len() && a[i] == x;
        assert(b.drop_last() =~= b.remove(b.len() - 1));
        assert(a.remove(i).to_multiset() == a.to_multiset().remove(x));
        assert(b.drop_last().to_multiset() == b.to_multiset().remove(x));
        assert(forall|k: int|
            0 <= k < a.remove(i).len() ==> same_shape(init, #[trigger] a.remove(i)[k]));
        assert(forall|k: int|
            0 <= k < b.drop_last().len() ==> same_shape(init, #[trigger] b.drop_last()[k]));
        lemma_merge_any_order(init, a.remove(i), b.drop_last());
        lemma_merge_all_pull(init, a, i);
        assert(merge_all(init, b) == merged(merge_all(init, b.drop_last()), x));
    }
}

} // verus!
