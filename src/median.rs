use vstd::prelude::*;
use vstd::multiset::Multiset;
use crate::parser::{first_record, next_record, ParseError};
use crate::table::{
    bytes_eq, keys_unique, lemma_seq_to_map_dom, lemma_seq_to_map_index,
    lemma_seq_to_map_map_values, lemma_seq_to_map_push, lemma_seq_to_map_update, lemma_total_push,
    lemma_total_take, lemma_total_update, result_pairs, results_view, seq_to_map, total,
    StationResult,
};
use crate::value::{lemma_round_between, round_half_away, round_off};

verus! {

/// Least value, in tenths, that the histogram holds.
pub const DOMAIN_MIN: i64 = -999;

/// Greatest value, in tenths, that the histogram holds.
pub const DOMAIN_MAX: i64 = 999;

/// One bucket for each value from `DOMAIN_MIN` to `DOMAIN_MAX`.
pub const BUCKETS: usize = 1999;

pub open spec fn in_domain(v: int) -> bool {
    DOMAIN_MIN <= v <= DOMAIN_MAX
}

/// The bucket of a value.
pub open spec fn bucket(v: int) -> int {
    v - DOMAIN_MIN
}

pub open spec fn hist_sum(h: Seq<int>) -> int
    decreases h.len(),
{
    if h.len() == 0 {
        0
    } else {
        hist_sum(h.drop_last()) + h.last()
    }
}

/// How many values lie in the buckets before `k`.
pub open spec fn prefix(h: Seq<int>, k: int) -> int {
    hist_sum(h.take(k))
}

pub open spec fn nonneg(h: Seq<int>) -> bool {
    forall|i: int| 0 <= i < h.len() ==> h[i] >= 0
}

/// `v` is the `n`-th smallest value (from 0) of the histogram `h`.
pub open spec fn is_order_stat(h: Seq<int>, n: int, v: int) -> bool {
    &&& in_domain(v)
    &&& prefix(h, bucket(v)) <= n < prefix(h, bucket(v) + 1)
}

/// The `n`-th smallest value (from 0) of the histogram `h`.
pub open spec fn order_stat(h: Seq<int>, n: int) -> int {
    choose|v: int| is_order_stat(h, n, v)
}

/// What the exact strategy knows of a station's values, in tenths.
pub struct ExactSummary {
    pub min: int,
    pub max: int,
    pub count: nat,
    pub hist: Seq<int>,
}

/// The median of a summary's values, rounded to tenths: for an even count the
/// mean of the two middle values.
pub open spec fn median(s: ExactSummary) -> int {
    if s.count % 2 == 0 {
        round_half_away(
            order_stat(s.hist, s.count / 2 - 1) + order_stat(s.hist, (s.count / 2) as int),
            2,
        )
    } else {
        order_stat(s.hist, (s.count / 2) as int)
    }
}

/// A station's finished summary: least value, median, greatest value.
pub open spec fn finish(s: ExactSummary) -> (int, int, int) {
    (s.min, median(s), s.max)
}

pub open spec fn single(v: int) -> ExactSummary {
    ExactSummary {
        min: v,
        max: v,
        count: 1,
        hist: Seq::new(BUCKETS as nat, |i: int| if i == bucket(v) { 1int } else { 0int }),
    }
}

pub open spec fn combine(a: ExactSummary, b: ExactSummary) -> ExactSummary {
    ExactSummary {
        min: if a.min <= b.min { a.min } else { b.min },
        max: if a.max >= b.max { a.max } else { b.max },
        count: a.count + b.count,
        hist: Seq::new(BUCKETS as nat, |i: int| a.hist[i] + b.hist[i]),
    }
}

pub open spec fn summary_count() -> spec_fn(ExactSummary) -> nat {
    |s: ExactSummary| s.count
}

pub open spec fn summary_ok(s: ExactSummary) -> bool {
    &&& s.count >= 1
    &&& DOMAIN_MIN <= s.min <= s.max <= DOMAIN_MAX
    &&& s.hist.len() == BUCKETS
    &&& nonneg(s.hist)
    &&& hist_sum(s.hist) == s.count
    &&& s.hist[bucket(s.min)] > 0
    &&& s.hist[bucket(s.max)] > 0
    &&& forall|i: int|
        0 <= i < BUCKETS && (i < bucket(s.min) || i > bucket(s.max)) ==> s.hist[i] == 0
}

pub proof fn lemma_hist_sum_update(h: Seq<int>, i: int, x: int)
    requires
        0 <= i < h.len(),
    ensures
        hist_sum(h.update(i, x)) == hist_sum(h) - h[i] + x,
    decreases h.len(),
{
    let t = h.update(i, x);
    if i == h.len() - 1 {
        assert(t.drop_last() =~= h.drop_last());
    } else {
        assert(t.drop_last() =~= h.drop_last().update(i, x));
        lemma_hist_sum_update(h.drop_last(), i, x);
    }
}

pub proof fn lemma_prefix_step(h: Seq<int>, k: int)
    requires
        0 <= k < h.len(),
    ensures
        prefix(h, k + 1) == prefix(h, k) + h[k],
{
    assert(h.take(k + 1).drop_last() =~= h.take(k));
}

pub proof fn lemma_prefix_mono(h: Seq<int>, i: int, j: int)
    requires
        nonneg(h),
        0 <= i <= j <= h.len(),
    ensures
        prefix(h, i) <= prefix(h, j),
        j == h.len() ==> prefix(h, j) == hist_sum(h),
    decreases j - i,
{
    if j == h.len() {
        assert(h.take(j) =~= h);
    }
    if i < j {
        lemma_prefix_step(h, j - 1);
        lemma_prefix_mono(h, i, j - 1);
    }
}

pub proof fn lemma_elem_le_sum(h: Seq<int>, i: int)
    requires
        nonneg(h),
        0 <= i < h.len(),
    ensures
        h[i] <= hist_sum(h),
        0 <= hist_sum(h),
{
    lemma_prefix_step(h, i);
    lemma_prefix_mono(h, i + 1, h.len() as int);
    lemma_prefix_mono(h, 0, i);
    assert(h.take(0) =~= Seq::<int>::empty());
}

pub proof fn lemma_order_stat_unique(h: Seq<int>, n: int, v: int)
    requires
        nonneg(h),
        h.len() == BUCKETS,
        is_order_stat(h, n, v),
    ensures
        order_stat(h, n) == v,
{
    let w = order_stat(h, n);
    assert(is_order_stat(h, n, w));
    if w < v {
        lemma_prefix_mono(h, bucket(w) + 1, bucket(v));
    }
    if v < w {
        lemma_prefix_mono(h, bucket(v) + 1, bucket(w));
    }
}

/// An order statistic of a consistent summary lies between its least and
/// greatest value.
pub proof fn lemma_order_stat_bounds(s: ExactSummary, n: int, v: int)
    requires
        summary_ok(s),
        is_order_stat(s.hist, n, v),
    ensures
        s.min <= v <= s.max,
{
    lemma_prefix_step(s.hist, bucket(v));
}

/// One station's values: least, greatest, count and a histogram with one
/// bucket per value of the domain.
#[derive(Debug, Clone)]
pub struct StationValues {
    pub min: i64,
    pub max: i64,
    pub count: u64,
    pub histogram: Vec<u64>,
}

impl StationValues {
    pub open spec fn summary(&self) -> ExactSummary {
        ExactSummary {
            min: self.min as int,
            max: self.max as int,
            count: self.count as nat,
            hist: self.histogram@.map_values(|x: u64| x as int),
        }
    }

    /// The values of a single observation `value`.
    pub fn new_with_value(value: i64) -> (r: StationValues)
        requires
            in_domain(value as int),
        ensures
            r.summary() == single(value as int),
            summary_ok(r.summary()),
    {
        let mut histogram: Vec<u64> = Vec::new();
        let mut i: usize = 0;
        while i < BUCKETS
            invariant
                i <= BUCKETS,
                histogram@.len() == i,
                forall|k: int| 0 <= k < i ==> histogram@[k] == 0,
            decreases BUCKETS - i,
        {
            histogram.push(0);
            i = i + 1;
        }
        let ghost zeros = histogram@.map_values(|x: u64| x as int);
        proof {
            assert(zeros =~= Seq::new(BUCKETS as nat, |i: int| 0int));
            lemma_prefix_mono(zeros, 0, BUCKETS as int);
            assert(zeros.take(0) =~= Seq::<int>::empty());
            assert(hist_sum(zeros) == 0) by {
                lemma_zero_sum(zeros);
            }
        }
        let b = (value - DOMAIN_MIN) as usize;
        histogram.set(b, 1);
        let r = StationValues { min: value, max: value, count: 1, histogram };
        proof {
            assert(r.summary().hist =~= zeros.update(b as int, 1));
            lemma_hist_sum_update(zeros, b as int, 1);
            assert(r.summary().hist =~= single(value as int).hist);
        }
        r
    }

    /// A copy of these values.
    pub fn duplicate(&self) -> (r: StationValues)
        ensures
            r.summary() == self.summary(),
    {
        StationValues {
            min: self.min,
            max: self.max,
            count: self.count,
            histogram: vstd::slice::slice_to_vec(self.histogram.as_slice()),
        }
    }

    /// Takes one more value.
    pub fn add_value(&mut self, value: i64)
        requires
            summary_ok(old(self).summary()),
            in_domain(value as int),
            old(self).count < u64::MAX,
        ensures
            final(self).summary() == combine(old(self).summary(), single(value as int)),
            summary_ok(final(self).summary()),
    {
        let ghost a = self.summary();
        let b = (value - DOMAIN_MIN) as usize;
        proof {
            lemma_elem_le_sum(a.hist, b as int);
        }
        let x = self.histogram[b] + 1;
        self.histogram.set(b, x);
        if value < self.min {
            self.min = value;
        }
        if value > self.max {
            self.max = value;
        }
        self.count = self.count + 1;
        proof {
            let c = combine(a, single(value as int));
            assert(self.summary().hist =~= a.hist.update(b as int, x as int));
            lemma_hist_sum_update(a.hist, b as int, x as int);
            assert(self.summary().hist =~= c.hist);
        }
    }

    /// Adds the values of `other`, bucket by bucket.
    pub fn absorb(&mut self, other: &StationValues)
        requires
            summary_ok(old(self).summary()),
            summary_ok(other.summary()),
            old(self).count + other.count <= u64::MAX,
        ensures
            final(self).summary() == combine(old(self).summary(), other.summary()),
            summary_ok(final(self).summary()),
    {
        let ghost a = self.summary();
        let ghost b = other.summary();
        let mut k: usize = 0;
        while k < BUCKETS
            invariant
                a == old(self).summary(),
                b == other.summary(),
                summary_ok(a),
                summary_ok(b),
                a.count + b.count <= u64::MAX,
                k <= BUCKETS,
                self.histogram@.len() == BUCKETS,
                self.min == old(self).min,
                self.max == old(self).max,
                self.count == old(self).count,
                forall|i: int| 0 <= i < k ==> self.histogram@[i] == a.hist[i] + b.hist[i],
                forall|i: int| k <= i < BUCKETS ==> self.histogram@[i] == a.hist[i],
                hist_sum(self.summary().hist) == a.count + prefix(b.hist, k as int),
            decreases BUCKETS - k,
        {
            let ghost before = self.summary().hist;
            proof {
                lemma_elem_le_sum(a.hist, k as int);
                lemma_elem_le_sum(b.hist, k as int);
                lemma_prefix_step(b.hist, k as int);
            }
            let x = self.histogram[k] + other.histogram[k];
            self.histogram.set(k, x);
            proof {
                assert(self.summary().hist =~= before.update(k as int, x as int));
                lemma_hist_sum_update(before, k as int, x as int);
            }
            k = k + 1;
        }
        if other.min < self.min {
            self.min = other.min;
        }
        if other.max > self.max {
            self.max = other.max;
        }
        self.count = self.count + other.count;
        proof {
            lemma_prefix_mono(b.hist, BUCKETS as int, BUCKETS as int);
            let c = combine(a, b);
            assert(self.summary().hist =~= c.hist);
            assert forall|i: int| 0 <= i < c.hist.len() implies c.hist[i] >= 0 by {}
        }
    }

    /// The `n`-th smallest value (from 0), found by walking the buckets in order.
    pub fn get_nth_value(&self, n: u64) -> (r: i64)
        requires
            summary_ok(self.summary()),
            n < self.count,
        ensures
            is_order_stat(self.summary().hist, n as int, r as int),
            r as int == order_stat(self.summary().hist, n as int),
    {
        let ghost h = self.summary().hist;
        let mut cur: u64 = 0;
        let mut k: usize = 0;
        proof {
            assert(h.take(0) =~= Seq::<int>::empty());
        }
        while k < BUCKETS
            invariant
                h == self.summary().hist,
                summary_ok(self.summary()),
                n < self.count,
                k <= BUCKETS,
                cur as int == prefix(h, k as int),
                cur <= n,
            decreases BUCKETS - k,
        {
            proof {
                lemma_prefix_step(h, k as int);
                lemma_prefix_mono(h, k as int + 1, BUCKETS as int);
            }
            let c = self.histogram[k];
            if n < cur + c {
                let r = k as i64 + DOMAIN_MIN;
                proof {
                    lemma_order_stat_unique(h, n as int, r as int);
                }
                return r;
            }
            cur = cur + c;
            k = k + 1;
        }
        proof {
            lemma_prefix_mono(h, BUCKETS as int, BUCKETS as int);
        }
        // the buckets hold `count` values in all, more than `n`
        assert(false);
        0
    }

    /// The median, rounded to tenths.
    pub fn get_median(&self) -> (r: i64)
        requires
            summary_ok(self.summary()),
        ensures
            r as int == median(self.summary()),
            self.min <= r <= self.max,
    {
        if self.count % 2 == 0 {
            let left_mid_index = self.count / 2 - 1;
            let a = self.get_nth_value(left_mid_index);
            let b = self.get_nth_value(left_mid_index + 1);
            proof {
                lemma_order_stat_bounds(self.summary(), left_mid_index as int, a as int);
                lemma_order_stat_bounds(self.summary(), (left_mid_index + 1) as int, b as int);
                lemma_round_between(a + b, 2, self.min as int, self.max as int);
            }
            round_off((a + b) as i128, 2) as i64
        } else {
            let v = self.get_nth_value(self.count / 2);
            proof {
                lemma_order_stat_bounds(self.summary(), (self.count / 2) as int, v as int);
            }
            v
        }
    }
}

pub open spec fn sorted(t: Seq<int>) -> bool {
    forall|i: int, j: int| 0 <= i <= j < t.len() ==> t[i] <= t[j]
}

/// The median of a sorted list, rounded to tenths as `median` rounds.
pub open spec fn sorted_median(t: Seq<int>) -> int {
    if t.len() % 2 == 0 {
        round_half_away(t[t.len() / 2 - 1] + t[(t.len() / 2) as int], 2)
    } else {
        t[(t.len() / 2) as int]
    }
}

/// `h` counts, bucket by bucket, the values of the multiset `m`.
pub open spec fn counts(h: Seq<int>, m: Multiset<int>) -> bool {
    &&& h.len() == BUCKETS
    &&& forall|k: int| 0 <= k < BUCKETS ==> #[trigger] h[k] == m.count(k + DOMAIN_MIN)
}

/// The histogram of one value counts that value alone.
pub proof fn lemma_single_counts(v: int)
    requires
        in_domain(v),
    ensures
        counts(single(v).hist, Multiset::singleton(v)),
{
}

/// Combining two summaries counts the values of both.
pub proof fn lemma_combine_counts(a: ExactSummary, b: ExactSummary, ma: Multiset<int>, mb: Multiset<int>)
    requires
        counts(a.hist, ma),
        counts(b.hist, mb),
    ensures
        counts(combine(a, b).hist, ma.add(mb)),
{
}

proof fn lemma_prefix_zero_tail(h: Seq<int>, j: int)
    requires
        0 <= j <= h.len(),
        forall|k: int| j <= k < h.len() ==> h[k] == 0,
    ensures
        prefix(h, j) == hist_sum(h),
    decreases h.len() - j,
{
    if j == h.len() {
        assert(h.take(j) =~= h);
    } else {
        lemma_prefix_step(h, j);
        lemma_prefix_zero_tail(h, j + 1);
    }
}

proof fn lemma_sorted_order_stats(t: Seq<int>, h: Seq<int>)
    requires
        sorted(t),
        forall|i: int| 0 <= i < t.len() ==> in_domain(#[trigger] t[i]),
        counts(h, t.to_multiset()),
    ensures
        hist_sum(h) == t.len(),
        forall|n: int| 0 <= n < t.len() ==> is_order_stat(h, n, #[trigger] t[n]),
    decreases t.len(),
{
    broadcast use vstd::seq_lib::group_to_multiset_ensures;
    if t.len() == 0 {
        lemma_zero_sum(h);
    } else {
        let m = t.last();
        let bm = bucket(m);
        let u = t.drop_last();
        assert(t =~= u.push(m));
        assert(t.to_multiset() =~= u.to_multiset().insert(m));
        let g = h.update(bm, h[bm] - 1);
        assert forall|k: int| 0 <= k < BUCKETS implies #[trigger] g[k] == u.to_multiset().count(k + DOMAIN_MIN) by {}
        assert(sorted(u));
        lemma_sorted_order_stats(u, g);
        assert(h =~= g.update(bm, h[bm]));
        lemma_hist_sum_update(g, bm, h[bm]);
        assert(t.to_multiset().count(m) >= 1) by {
            assert(t.contains(m));
        }
        assert forall|k: int| bm < k < BUCKETS implies h[k] == 0 by {
            if h[k] != 0 {
                assert(t.to_multiset().contains(k + DOMAIN_MIN));
                let i = choose|i: int| 0 <= i < t.len() && t[i] == k + DOMAIN_MIN;
                assert(t[i] <= t[t.len() - 1]);
            }
        }
        lemma_prefix_zero_tail(h, bm + 1);
        lemma_prefix_step(h, bm);
        lemma_prefix_step(g, bm);
        assert forall|k: int| 0 <= k <= bm implies prefix(h, k) == prefix(g, k) by {
            assert(h.take(k) =~= g.take(k));
        }
        assert forall|n: int| 0 <= n < t.len() implies is_order_stat(h, n, #[trigger] t[n]) by {
            if n < t.len() - 1 {
                let v = t[n];
                assert(u[n] == v);
                assert(v <= m);
                assert(is_order_stat(g, n, v));
            }
        }
    }
}

/// The exact median agrees with the median of the same values sorted: where
/// a summary's histogram counts the values of a sorted list, each order
/// statistic is the list's element at that index.
pub proof fn lemma_median_matches_sorting(s: ExactSummary, t: Seq<int>)
    requires
        summary_ok(s),
        sorted(t),
        forall|i: int| 0 <= i < t.len() ==> in_domain(#[trigger] t[i]),
        counts(s.hist, t.to_multiset()),
    ensures
        t.len() == s.count,
        forall|n: int| 0 <= n < t.len() ==> order_stat(s.hist, n) == #[trigger] t[n],
        median(s) == sorted_median(t),
{
    lemma_sorted_order_stats(t, s.hist);
    assert forall|n: int| 0 <= n < t.len() implies order_stat(s.hist, n) == #[trigger] t[n] by {
        lemma_order_stat_unique(s.hist, n, t[n]);
    }
    if t.len() % 2 == 0 {
        assert(order_stat(s.hist, t.len() / 2 - 1) == t[t.len() / 2 - 1]);
    }
    assert(order_stat(s.hist, (t.len() / 2) as int) == t[(t.len() / 2) as int]);
}

proof fn lemma_zero_sum(h: Seq<int>)
    requires
        forall|i: int| 0 <= i < h.len() ==> h[i] == 0,
    ensures
        hist_sum(h) == 0,
    decreases h.len(),
{
    if h.len() > 0 {
        lemma_zero_sum(h.drop_last());
    }
}

/// Why a chunk could not be taken.
#[derive(Debug, Clone, Copy, PartialEq, Eq, Structural)]
pub enum ChunkError {
    /// The chunk's text is malformed.
    Parse(ParseError),
    /// A value lies outside the histogram's domain.
    OutOfDomain,
}

/// The records of `s`, in order, where all are well formed and in the
/// domain; else the first fault.
pub open spec fn chunk_outcome(s: Seq<u8>) -> Result<Seq<(Seq<u8>, int)>, ChunkError>
    decreases s.len(),
{
    match first_record(s) {
        Err(e) => Err(ChunkError::Parse(e)),
        Ok(None) => Ok(Seq::empty()),
        Ok(Some((i, j, v))) => {
            if !in_domain(v) {
                Err(ChunkError::OutOfDomain)
            } else if 0 <= j < s.len() {
                match chunk_outcome(s.subrange(j + 1, s.len() as int)) {
                    Ok(rest) => Ok(seq![(s.take(i), v)] + rest),
                    Err(e) => Err(e),
                }
            } else {
                Err(ChunkError::Parse(ParseError::MissingNewline))
            }
        },
    }
}

/// Stations after one more value.
pub open spec fn observe_view(m: Map<Seq<u8>, ExactSummary>, k: Seq<u8>, v: int) -> Map<
    Seq<u8>,
    ExactSummary,
> {
    if m.contains_key(k) {
        m.insert(k, combine(m[k], single(v)))
    } else {
        m.insert(k, single(v))
    }
}

/// Stations after a list of records, taken in order.
pub open spec fn observe_all(m: Map<Seq<u8>, ExactSummary>, rs: Seq<(Seq<u8>, int)>) -> Map<
    Seq<u8>,
    ExactSummary,
>
    decreases rs.len(),
{
    if rs.len() == 0 {
        m
    } else {
        observe_view(observe_all(m, rs.drop_last()), rs.last().0, rs.last().1)
    }
}

/// Stations of two aggregators together: a name in both gets both summaries combined.
pub open spec fn merge_views(a: Map<Seq<u8>, ExactSummary>, b: Map<Seq<u8>, ExactSummary>) -> Map<
    Seq<u8>,
    ExactSummary,
> {
    Map::new(
        |k: Seq<u8>| a.contains_key(k) || b.contains_key(k),
        |k: Seq<u8>|
            if a.contains_key(k) && b.contains_key(k) {
                combine(a[k], b[k])
            } else if a.contains_key(k) {
                a[k]
            } else {
                b[k]
            },
    )
}

proof fn lemma_merge_insert(a: Map<Seq<u8>, ExactSummary>, m: Map<Seq<u8>, ExactSummary>, k: Seq<u8>, s: ExactSummary)
    requires
        !m.contains_key(k),
    ensures
        merge_views(a, m.insert(k, s)) == merge_views(a, m).insert(
            k,
            if a.contains_key(k) {
                combine(a[k], s)
            } else {
                s
            },
        ),
{
    assert(merge_views(a, m.insert(k, s)) =~= merge_views(a, m).insert(
        k,
        if a.contains_key(k) {
            combine(a[k], s)
        } else {
            s
        },
    ));
}

/// Merging is commutative.
pub proof fn lemma_merge_commutative(a: Map<Seq<u8>, ExactSummary>, b: Map<Seq<u8>, ExactSummary>)
    ensures
        merge_views(a, b) == merge_views(b, a),
{
    assert forall|k: Seq<u8>| a.contains_key(k) && b.contains_key(k) implies combine(a[k], b[k])
        == combine(b[k], a[k]) by {
        assert(combine(a[k], b[k]).hist =~= combine(b[k], a[k]).hist);
    }
    assert(merge_views(a, b) =~= merge_views(b, a));
}

/// Merging is associative.
pub proof fn lemma_merge_associative(
    a: Map<Seq<u8>, ExactSummary>,
    b: Map<Seq<u8>, ExactSummary>,
    c: Map<Seq<u8>, ExactSummary>,
)
    ensures
        merge_views(merge_views(a, b), c) == merge_views(a, merge_views(b, c)),
{
    assert forall|k: Seq<u8>| #![trigger a[k], b[k], c[k]] true implies combine(combine(a[k], b[k]), c[k])
        == combine(a[k], combine(b[k], c[k])) by {
        assert(combine(combine(a[k], b[k]), c[k]).hist =~= combine(a[k], combine(b[k], c[k])).hist);
    }
    assert(merge_views(merge_views(a, b), c) =~= merge_views(a, merge_views(b, c)));
}

/// Folding three aggregators together gives the same stations in every
/// order, so their finished results agree.
pub proof fn lemma_merge_order_independent(
    a: Map<Seq<u8>, ExactSummary>,
    b: Map<Seq<u8>, ExactSummary>,
    c: Map<Seq<u8>, ExactSummary>,
)
    ensures
        merge_views(merge_views(a, b), c) == merge_views(merge_views(a, c), b),
        merge_views(merge_views(a, b), c) == merge_views(merge_views(b, a), c),
        merge_views(merge_views(a, b), c) == merge_views(merge_views(b, c), a),
        merge_views(merge_views(a, b), c) == merge_views(merge_views(c, a), b),
        merge_views(merge_views(a, b), c) == merge_views(merge_views(c, b), a),
        merge_views(merge_views(a, b), c).map_values(|s: ExactSummary| finish(s)) == merge_views(
            merge_views(c, b),
            a,
        ).map_values(|s: ExactSummary| finish(s)),
{
    lemma_merge_associative(a, b, c);
    lemma_merge_associative(a, c, b);
    lemma_merge_associative(b, c, a);
    lemma_merge_associative(c, a, b);
    lemma_merge_associative(c, b, a);
    lemma_merge_associative(b, a, c);
    lemma_merge_commutative(b, c);
    lemma_merge_commutative(a, b);
    lemma_merge_commutative(a, merge_views(b, c));
    lemma_merge_commutative(a, merge_views(c, b));
    lemma_merge_commutative(c, merge_views(a, b));
    lemma_merge_commutative(b, merge_views(a, c));
    lemma_merge_commutative(a, c);
}

/// Exact-median aggregator: per station, least, greatest, count and a
/// histogram of the values.
pub struct ExactTable {
    names: Vec<Vec<u8>>,
    stats: Vec<StationValues>,
    records: u64,
}

impl ExactTable {
    /// The stations as a list of name and summary.
    pub closed spec fn pairs(&self) -> Seq<(Seq<u8>, ExactSummary)> {
        Seq::new(self.names@.len(), |i: int| (self.names@[i]@, self.stats@[i].summary()))
    }

    /// The stations, by name.
    pub closed spec fn view(&self) -> Map<Seq<u8>, ExactSummary> {
        seq_to_map(self.pairs())
    }

    /// The number of values observed, over all stations.
    pub closed spec fn count(&self) -> nat {
        total(self.pairs(), summary_count())
    }

    pub closed spec fn wf(&self) -> bool {
        &&& self.names@.len() == self.stats@.len()
        &&& self.records as nat == self.count()
        &&& keys_unique(self.pairs())
        &&& forall|i: int| 0 <= i < self.stats@.len() ==> summary_ok(#[trigger] self.stats@[i].summary())
    }

    /// Each station's summary is consistent.
    pub proof fn lemma_view_ok(&self, k: Seq<u8>)
        requires
            self.wf(),
            self.view().contains_key(k),
        ensures
            summary_ok(self.view()[k]),
    {
        lemma_seq_to_map_dom(self.pairs(), k);
        let i = choose|i: int| 0 <= i < self.pairs().len() && self.pairs()[i].0 == k;
        lemma_seq_to_map_index(self.pairs(), i);
    }

    pub fn new() -> (r: ExactTable)
        ensures
            r.wf(),
            r.view() == Map::<Seq<u8>, ExactSummary>::empty(),
            r.count() == 0,
    {
        let r = ExactTable { names: Vec::new(), stats: Vec::new(), records: 0 };
        assert(r.pairs() =~= Seq::empty());
        r
    }

    /// The number of values observed, over all stations.
    pub fn record_count(&self) -> (r: u64)
        requires
            self.wf(),
        ensures
            r == self.count(),
    {
        self.records
    }

    fn find(&self, name: &[u8]) -> (r: Option<usize>)
        requires
            self.wf(),
        ensures
            r is None ==> !self.view().contains_key(name@),
            r is Some ==> r.unwrap() < self.names@.len() && self.names@[r.unwrap() as int]@ == name@,
    {
        let mut i: usize = 0;
        while i < self.names.len()
            invariant
                self.wf(),
                i <= self.names@.len(),
                forall|j: int| 0 <= j < i ==> self.names@[j]@ != name@,
            decreases self.names@.len() - i,
        {
            if bytes_eq(self.names[i].as_slice(), name) {
                return Some(i);
            }
            i = i + 1;
        }
        proof {
            lemma_seq_to_map_dom(self.pairs(), name@);
            if self.view().contains_key(name@) {
                let j = choose|j: int| 0 <= j < self.pairs().len() && self.pairs()[j].0 == name@;
                assert(self.names@[j]@ == name@);
            }
        }
        None
    }

    /// Adds the values of `s` under `name`, combined with the station's own.
    fn absorb(&mut self, name: &[u8], s: &StationValues)
        requires
            old(self).wf(),
            summary_ok(s.summary()),
            old(self).count() + s.count <= u64::MAX,
        ensures
            final(self).wf(),
            final(self).view() == (if old(self).view().contains_key(name@) {
                old(self).view().insert(name@, combine(old(self).view()[name@], s.summary()))
            } else {
                old(self).view().insert(name@, s.summary())
            }),
            final(self).count() == old(self).count() + s.count,
    {
        let ghost c = summary_count();
        match self.find(name) {
            Some(i) => {
                let ghost before = self.pairs();
                proof {
                    lemma_seq_to_map_index(self.pairs(), i as int);
                    lemma_total_update(self.pairs(), c, i as int, self.pairs()[i as int]);
                    assert(summary_ok(self.stats@[i as int].summary()));
                }
                self.stats[i].absorb(s);
                proof {
                    let next = self.stats@[i as int].summary();
                    assert(self.pairs() =~= before.update(i as int, (name@, next)));
                    lemma_seq_to_map_update(before, i as int, next);
                    lemma_total_update(before, c, i as int, (name@, next));
                    assert forall|k: int| 0 <= k < self.stats@.len() implies summary_ok(#[trigger] self.stats@[k].summary()) by {
                        if k != i {
                            assert(self.stats@[k] == old(self).stats@[k]);
                        }
                    }
                }
            },
            None => {
                let ghost before = self.pairs();
                self.names.push(vstd::slice::slice_to_vec(name));
                self.stats.push(s.duplicate());
                proof {
                    assert(self.pairs() =~= before.push((name@, s.summary())));
                    lemma_seq_to_map_push(before, name@, s.summary());
                    lemma_total_push(before, c, (name@, s.summary()));
                }
            },
        }
        self.records = self.records + s.count;
    }

    /// Takes one more value, in tenths, for the station `name`; fails where
    /// the value lies outside the histogram's domain.
    pub fn observe(&mut self, name: &[u8], value: i64) -> (r: Result<(), ChunkError>)
        requires
            old(self).wf(),
            old(self).count() < u64::MAX,
        ensures
            final(self).wf(),
            r is Ok <==> in_domain(value as int),
            r is Err ==> r == Err::<(), ChunkError>(ChunkError::OutOfDomain) && *final(self) == *old(self),
            r is Ok ==> final(self).view() == observe_view(old(self).view(), name@, value as int),
            r is Ok ==> final(self).count() == old(self).count() + 1,
    {
        if value < DOMAIN_MIN || value > DOMAIN_MAX {
            return Err(ChunkError::OutOfDomain);
        }
        let ghost c = summary_count();
        match self.find(name) {
            Some(i) => {
                let ghost before = self.pairs();
                proof {
                    lemma_seq_to_map_index(self.pairs(), i as int);
                    lemma_total_update(self.pairs(), c, i as int, self.pairs()[i as int]);
                    assert(summary_ok(self.stats@[i as int].summary()));
                }
                self.stats[i].add_value(value);
                proof {
                    let next = self.stats@[i as int].summary();
                    assert(self.pairs() =~= before.update(i as int, (name@, next)));
                    lemma_seq_to_map_update(before, i as int, next);
                    lemma_total_update(before, c, i as int, (name@, next));
                    assert forall|k: int| 0 <= k < self.stats@.len() implies summary_ok(#[trigger] self.stats@[k].summary()) by {
                        if k != i {
                            assert(self.stats@[k] == old(self).stats@[k]);
                        }
                    }
                }
            },
            None => {
                let ghost before = self.pairs();
                let s = StationValues::new_with_value(value);
                self.names.push(vstd::slice::slice_to_vec(name));
                self.stats.push(s);
                proof {
                    assert(self.pairs() =~= before.push((name@, single(value as int))));
                    lemma_seq_to_map_push(before, name@, single(value as int));
                    lemma_total_push(before, c, (name@, single(value as int)));
                }
            },
        }
        self.records = self.records + 1;
        Ok(())
    }

    /// Takes every record of a chunk, in order. Fails, at the first fault,
    /// exactly where the chunk's text is malformed or a value lies outside
    /// the domain.
    pub fn process_chunk(&mut self, data: &[u8]) -> (r: Result<(), ChunkError>)
        requires
            old(self).wf(),
            old(self).count() + data@.len() <= u64::MAX,
        ensures
            final(self).wf(),
            match chunk_outcome(data@) {
                Ok(rs) => {
                    &&& r is Ok
                    &&& final(self).view() == observe_all(old(self).view(), rs)
                    &&& final(self).count() == old(self).count() + rs.len()
                },
                Err(e) => r == Err::<(), ChunkError>(e),
            },
    {
        let mut pos: usize = 0;
        let ghost done: Seq<(Seq<u8>, int)> = Seq::empty();
        proof {
            assert(data@.subrange(0, data@.len() as int) =~= data@);
            if let Ok(t) = chunk_outcome(data@) {
                assert(done + t =~= t);
            }
        }
        while pos < data.len()
            invariant
                self.wf(),
                pos <= data@.len(),
                done.len() <= pos,
                self.count() == old(self).count() + done.len(),
                old(self).count() + data@.len() <= u64::MAX,
                self.view() == observe_all(old(self).view(), done),
                chunk_outcome(data@) == match chunk_outcome(data@.subrange(pos as int, data@.len() as int)) {
                    Ok(t) => Ok(done + t),
                    Err(e) => Err::<Seq<(Seq<u8>, int)>, ChunkError>(e),
                },
            decreases data@.len() - pos,
        {
            let rest = vstd::slice::slice_subrange(data, pos, data.len());
            match next_record(rest) {
                Err(e) => {
                    return Err(ChunkError::Parse(e));
                },
                Ok(None) => {
                    // a non-empty rest always starts a record or a fault
                    assert(first_record(rest@) != Ok::<Option<(int, int, int)>, ParseError>(None));
                    assert(false);
                    return Ok(());
                },
                Ok(Some((i, j, v))) => {
                    let name = vstd::slice::slice_subrange(rest, 0, i);
                    proof {
                        assert(name@ =~= rest@.take(i as int));
                        assert(rest@.subrange(j + 1, rest@.len() as int) =~= data@.subrange(
                            pos + j + 1,
                            data@.len() as int,
                        ));
                    }
                    match self.observe(name, v) {
                        Err(e) => {
                            return Err(e);
                        },
                        Ok(()) => {},
                    }
                    proof {
                        let rec = (name@, v as int);
                        assert(done.push(rec).drop_last() =~= done);
                        match chunk_outcome(data@.subrange(pos + j + 1, data@.len() as int)) {
                            Ok(t) => {
                                assert(done + (seq![rec] + t) =~= done.push(rec) + t);
                            },
                            Err(e) => {},
                        }
                        done = done.push(rec);
                    }
                    pos = pos + j + 1;
                },
            }
        }
        proof {
            assert(data@.subrange(pos as int, data@.len() as int).len() == 0);
            assert(done + Seq::<(Seq<u8>, int)>::empty() =~= done);
        }
        Ok(())
    }

    /// Adds every station of `other` to this aggregator.
    pub fn merge(&mut self, other: ExactTable)
        requires
            old(self).wf(),
            other.wf(),
            old(self).count() + other.count() <= u64::MAX,
        ensures
            final(self).wf(),
            final(self).view() == merge_views(old(self).view(), other.view()),
            final(self).count() == old(self).count() + other.count(),
    {
        let ghost c = summary_count();
        let ghost op = other.pairs();
        let mut j: usize = 0;
        proof {
            assert(op.take(0) =~= Seq::empty());
            assert(merge_views(old(self).view(), Map::empty()) =~= old(self).view());
        }
        while j < other.names.len()
            invariant
                self.wf(),
                other.wf(),
                op == other.pairs(),
                c == summary_count(),
                j <= op.len(),
                old(self).count() + other.count() <= u64::MAX,
                self.view() == merge_views(old(self).view(), seq_to_map(op.take(j as int))),
                self.count() == old(self).count() + total(op.take(j as int), c),
            decreases op.len() - j,
        {
            let name = other.names[j].as_slice();
            let s = &other.stats[j];
            proof {
                lemma_total_take(op, c, j as int);
                assert(op.take(j + 1) =~= op.take(j as int).push((name@, s.summary())));
                lemma_seq_to_map_dom(op.take(j as int), name@);
                if seq_to_map(op.take(j as int)).contains_key(name@) {
                    let i = choose|i: int| 0 <= i < j && op.take(j as int)[i].0 == name@;
                    assert(op[i].0 == op[j as int].0);
                }
                lemma_seq_to_map_push(op.take(j as int), name@, s.summary());
                lemma_merge_insert(old(self).view(), seq_to_map(op.take(j as int)), name@, s.summary());
            }
            self.absorb(name, s);
            j = j + 1;
        }
        proof {
            assert(op.take(j as int) =~= op);
        }
    }

    /// Each station's least value, rounded mean and greatest value.
    pub fn finalize(&self) -> (r: Vec<StationResult>)
        requires
            self.wf(),
        ensures
            keys_unique(result_pairs(r@)),
            results_view(r@) == self.view().map_values(|s: ExactSummary| finish(s)),
            forall|i: int| 0 <= i < r@.len() ==> r@[i].min <= #[trigger] r@[i].center <= r@[i].max,
    {
        let mut out: Vec<StationResult> = Vec::new();
        let mut i: usize = 0;
        while i < self.names.len()
            invariant
                self.wf(),
                i <= self.names@.len(),
                out@.len() == i,
                forall|k: int| 0 <= k < i ==> #[trigger] result_pairs(out@)[k] == (self.pairs()[k].0, finish(self.pairs()[k].1)),
                forall|k: int| 0 <= k < i ==> out@[k].min <= #[trigger] out@[k].center <= out@[k].max,
            decreases self.names@.len() - i,
        {
            let s = &self.stats[i];
            proof {
                assert(summary_ok(s.summary()));
            }
            let center = s.get_median();
            let ghost before = out@;
            out.push(StationResult { name: self.names[i].clone(), min: s.min, center, max: s.max });
            proof {
                assert forall|k: int| 0 <= k < i + 1 implies #[trigger] result_pairs(out@)[k] == (self.pairs()[k].0, finish(self.pairs()[k].1)) by {
                    if k < i {
                        assert(out@[k] == before[k]);
                        assert(result_pairs(before)[k] == result_pairs(out@)[k]);
                    }
                }
            }
            i = i + 1;
        }
        proof {
            lemma_seq_to_map_map_values(self.pairs(), result_pairs(out@), |s: ExactSummary| finish(s));
        }
        out
    }
}

} // verus!
