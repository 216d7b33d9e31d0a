use vstd::prelude::*;
use crate::parser::{first_record, next_record, records, ParseError};
use crate::table::{
    bytes_eq, keys_unique, lemma_seq_to_map_dom, lemma_seq_to_map_index,
    lemma_seq_to_map_map_values, lemma_seq_to_map_push, lemma_seq_to_map_update, lemma_total_push,
    lemma_total_take, lemma_total_update, result_pairs, results_view, seq_to_map, total,
    StationResult,
};
use crate::value::{lemma_round_between, round_half_away, round_off, MAX_ABS_TENTHS};

verus! {

/// What the streaming strategy knows of a station's values, in tenths.
pub struct MeanSummary {
    pub min: int,
    pub max: int,
    pub sum: int,
    pub count: nat,
}

pub open spec fn single(v: int) -> MeanSummary {
    MeanSummary { min: v, max: v, sum: v, count: 1 }
}

pub open spec fn combine(a: MeanSummary, b: MeanSummary) -> MeanSummary {
    MeanSummary {
        min: if a.min <= b.min { a.min } else { b.min },
        max: if a.max >= b.max { a.max } else { b.max },
        sum: a.sum + b.sum,
        count: a.count + b.count,
    }
}

pub open spec fn summary_ok(s: MeanSummary) -> bool {
    &&& s.count >= 1
    &&& -MAX_ABS_TENTHS <= s.min <= s.max <= MAX_ABS_TENTHS
    &&& s.min * s.count <= s.sum <= s.max * s.count
}

pub open spec fn summary_count() -> spec_fn(MeanSummary) -> nat {
    |s: MeanSummary| s.count
}

/// A station's finished summary: least value, rounded mean, greatest value.
pub open spec fn finish(s: MeanSummary) -> (int, int, int) {
    (s.min, round_half_away(s.sum, s.count as int), s.max)
}

/// Stations after one more value.
pub open spec fn observe_view(m: Map<Seq<u8>, MeanSummary>, k: Seq<u8>, v: int) -> Map<
    Seq<u8>,
    MeanSummary,
> {
    if m.contains_key(k) {
        m.insert(k, combine(m[k], single(v)))
    } else {
        m.insert(k, single(v))
    }
}

/// Stations after a list of records, taken in order.
pub open spec fn observe_all(m: Map<Seq<u8>, MeanSummary>, rs: Seq<(Seq<u8>, int)>) -> Map<
    Seq<u8>,
    MeanSummary,
>
    decreases rs.len(),
{
    if rs.len() == 0 {
        m
    } else {
        observe_view(observe_all(m, rs.drop_last()), rs.last().0, rs.last().1)
    }
}

/// Stations of two aggregators together: a name in both gets both summaries combined.
pub open spec fn merge_views(a: Map<Seq<u8>, MeanSummary>, b: Map<Seq<u8>, MeanSummary>) -> Map<
    Seq<u8>,
    MeanSummary,
> {
    Map::new(
        |k: Seq<u8>| a.contains_key(k) || b.contains_key(k),
        |k: Seq<u8>|
            if a.contains_key(k) && b.contains_key(k) {
                combine(a[k], b[k])
            } else if a.contains_key(k) {
                a[k]
            } else {
                b[k]
            },
    )
}

proof fn lemma_combine_ok(a: MeanSummary, b: MeanSummary)
    requires
        summary_ok(a),
        summary_ok(b),
    ensures
        summary_ok(combine(a, b)),
{
    let c = combine(a, b);
    assert(c.min * a.count <= a.min * a.count) by (nonlinear_arith)
        requires
            c.min <= a.min,
    ;
    assert(c.min * b.count <= b.min * b.count) by (nonlinear_arith)
        requires
            c.min <= b.min,
    ;
    assert(c.max * a.count >= a.max * a.count) by (nonlinear_arith)
        requires
            c.max >= a.max,
    ;
    assert(c.max * b.count >= b.max * b.count) by (nonlinear_arith)
        requires
            c.max >= b.max,
    ;
    assert(c.min * c.count == c.min * a.count + c.min * b.count) by (nonlinear_arith)
        requires
            c.count == a.count + b.count,
    ;
    assert(c.max * c.count == c.max * a.count + c.max * b.count) by (nonlinear_arith)
        requires
            c.count == a.count + b.count,
    ;
}

proof fn lemma_merge_insert(a: Map<Seq<u8>, MeanSummary>, m: Map<Seq<u8>, MeanSummary>, k: Seq<u8>, s: MeanSummary)
    requires
        !m.contains_key(k),
    ensures
        merge_views(a, m.insert(k, s)) == merge_views(a, m).insert(
            k,
            if a.contains_key(k) {
                combine(a[k], s)
            } else {
                s
            },
        ),
{
    assert(merge_views(a, m.insert(k, s)) =~= merge_views(a, m).insert(
        k,
        if a.contains_key(k) {
            combine(a[k], s)
        } else {
            s
        },
    ));
}

/// Merging is commutative.
pub proof fn lemma_merge_commutative(a: Map<Seq<u8>, MeanSummary>, b: Map<Seq<u8>, MeanSummary>)
    ensures
        merge_views(a, b) == merge_views(b, a),
{
    assert(merge_views(a, b) =~= merge_views(b, a));
}

/// Merging is associative.
pub proof fn lemma_merge_associative(
    a: Map<Seq<u8>, MeanSummary>,
    b: Map<Seq<u8>, MeanSummary>,
    c: Map<Seq<u8>, MeanSummary>,
)
    ensures
        merge_views(merge_views(a, b), c) == merge_views(a, merge_views(b, c)),
{
    assert(merge_views(merge_views(a, b), c) =~= merge_views(a, merge_views(b, c)));
}

/// Folding three aggregators together gives the same stations in every
/// order, so their finished results agree.
pub proof fn lemma_merge_order_independent(
    a: Map<Seq<u8>, MeanSummary>,
    b: Map<Seq<u8>, MeanSummary>,
    c: Map<Seq<u8>, MeanSummary>,
)
    ensures
        merge_views(merge_views(a, b), c) == merge_views(merge_views(a, c), b),
        merge_views(merge_views(a, b), c) == merge_views(merge_views(b, a), c),
        merge_views(merge_views(a, b), c) == merge_views(merge_views(b, c), a),
        merge_views(merge_views(a, b), c) == merge_views(merge_views(c, a), b),
        merge_views(merge_views(a, b), c) == merge_views(merge_views(c, b), a),
        merge_views(merge_views(a, b), c).map_values(|s: MeanSummary| finish(s)) == merge_views(
            merge_views(c, b),
            a,
        ).map_values(|s: MeanSummary| finish(s)),
{
    lemma_merge_associative(a, b, c);
    lemma_merge_associative(a, c, b);
    lemma_merge_associative(b, c, a);
    lemma_merge_associative(c, a, b);
    lemma_merge_associative(c, b, a);
    lemma_merge_associative(b, a, c);
    lemma_merge_commutative(b, c);
    lemma_merge_commutative(a, b);
    lemma_merge_commutative(a, merge_views(b, c));
    lemma_merge_commutative(a, merge_views(c, b));
    lemma_merge_commutative(c, merge_views(a, b));
    lemma_merge_commutative(b, merge_views(a, c));
    lemma_merge_commutative(a, c);
}

/// One station's running values, in tenths.
#[derive(Debug, Clone, Copy)]
pub struct MeanStats {
    pub min: i64,
    pub max: i64,
    pub sum: i128,
    pub count: u64,
}

impl MeanStats {
    pub open spec fn summary(&self) -> MeanSummary {
        MeanSummary {
            min: self.min as int,
            max: self.max as int,
            sum: self.sum as int,
            count: self.count as nat,
        }
    }
}

/// Streaming-mean aggregator: per station, least, greatest, sum and count.
pub struct MeanTable {
    names: Vec<Vec<u8>>,
    stats: Vec<MeanStats>,
    records: u64,
}

impl MeanTable {
    /// The stations as a list of name and summary.
    pub closed spec fn pairs(&self) -> Seq<(Seq<u8>, MeanSummary)> {
        Seq::new(self.names@.len(), |i: int| (self.names@[i]@, self.stats@[i].summary()))
    }

    /// The stations, by name.
    pub closed spec fn view(&self) -> Map<Seq<u8>, MeanSummary> {
        seq_to_map(self.pairs())
    }

    /// The number of values observed, over all stations.
    pub closed spec fn count(&self) -> nat {
        total(self.pairs(), summary_count())
    }

    pub closed spec fn wf(&self) -> bool {
        &&& self.names@.len() == self.stats@.len()
        &&& self.records as nat == self.count()
        &&& keys_unique(self.pairs())
        &&& forall|i: int| 0 <= i < self.stats@.len() ==> summary_ok(#[trigger] self.stats@[i].summary())
    }

    /// Each station's summary is consistent.
    pub proof fn lemma_view_ok(&self, k: Seq<u8>)
        requires
            self.wf(),
            self.view().contains_key(k),
        ensures
            summary_ok(self.view()[k]),
    {
        lemma_seq_to_map_dom(self.pairs(), k);
        let i = choose|i: int| 0 <= i < self.pairs().len() && self.pairs()[i].0 == k;
        lemma_seq_to_map_index(self.pairs(), i);
    }

    pub fn new() -> (r: MeanTable)
        ensures
            r.wf(),
            r.view() == Map::<Seq<u8>, MeanSummary>::empty(),
            r.count() == 0,
    {
        let r = MeanTable { names: Vec::new(), stats: Vec::new(), records: 0 };
        assert(r.pairs() =~= Seq::empty());
        r
    }

    /// The number of values observed, over all stations.
    pub fn record_count(&self) -> (r: u64)
        requires
            self.wf(),
        ensures
            r == self.count(),
    {
        self.records
    }

    fn find(&self, name: &[u8]) -> (r: Option<usize>)
        requires
            self.wf(),
        ensures
            r is None ==> !self.view().contains_key(name@),
            r is Some ==> r.unwrap() < self.names@.len() && self.names@[r.unwrap() as int]@ == name@,
    {
        let mut i: usize = 0;
        while i < self.names.len()
            invariant
                self.wf(),
                i <= self.names@.len(),
                forall|j: int| 0 <= j < i ==> self.names@[j]@ != name@,
            decreases self.names@.len() - i,
        {
            if bytes_eq(self.names[i].as_slice(), name) {
                return Some(i);
            }
            i = i + 1;
        }
        proof {
            lemma_seq_to_map_dom(self.pairs(), name@);
            if self.view().contains_key(name@) {
                let j = choose|j: int| 0 <= j < self.pairs().len() && self.pairs()[j].0 == name@;
                assert(self.names@[j]@ == name@);
            }
        }
        None
    }

    /// Adds a summary under `name`, combining it with the station's own.
    fn absorb(&mut self, name: &[u8], s: MeanStats)
        requires
            old(self).wf(),
            summary_ok(s.summary()),
            old(self).count() + s.count <= u64::MAX,
        ensures
            final(self).wf(),
            final(self).view() == (if old(self).view().contains_key(name@) {
                old(self).view().insert(name@, combine(old(self).view()[name@], s.summary()))
            } else {
                old(self).view().insert(name@, s.summary())
            }),
            final(self).count() == old(self).count() + s.count,
    {
        let ghost c = summary_count();
        match self.find(name) {
            Some(i) => {
                let cur = self.stats[i];
                proof {
                    lemma_seq_to_map_index(self.pairs(), i as int);
                    lemma_total_update(self.pairs(), c, i as int, self.pairs()[i as int]);
                    lemma_combine_ok(cur.summary(), s.summary());
                    let n = cur.count + s.count;
                    assert(-0x10000000000000000 * MAX_ABS_TENTHS <= cur.sum <= 0x10000000000000000 * MAX_ABS_TENTHS) by (nonlinear_arith)
                        requires
                            -MAX_ABS_TENTHS <= cur.min,
                            cur.max <= MAX_ABS_TENTHS,
                            cur.min * cur.count <= cur.sum <= cur.max * cur.count,
                            0 <= cur.count <= 0x10000000000000000,
                    ;
                    assert(-0x10000000000000000 * MAX_ABS_TENTHS <= s.sum <= 0x10000000000000000 * MAX_ABS_TENTHS) by (nonlinear_arith)
                        requires
                            -MAX_ABS_TENTHS <= s.min,
                            s.max <= MAX_ABS_TENTHS,
                            s.min * s.count <= s.sum <= s.max * s.count,
                            0 <= s.count <= 0x10000000000000000,
                    ;
                }
                let next = MeanStats {
                    min: if cur.min <= s.min { cur.min } else { s.min },
                    max: if cur.max >= s.max { cur.max } else { s.max },
                    sum: cur.sum + s.sum,
                    count: cur.count + s.count,
                };
                let ghost before = self.pairs();
                self.stats.set(i, next);
                proof {
                    assert(self.pairs() =~= before.update(i as int, (name@, next.summary())));
                    lemma_seq_to_map_update(before, i as int, next.summary());
                    lemma_total_update(before, c, i as int, (name@, next.summary()));
                }
            },
            None => {
                let ghost before = self.pairs();
                self.names.push(vstd::slice::slice_to_vec(name));
                self.stats.push(s);
                proof {
                    assert(self.pairs() =~= before.push((name@, s.summary())));
                    lemma_seq_to_map_push(before, name@, s.summary());
                    lemma_total_push(before, c, (name@, s.summary()));
                }
            },
        }
        self.records = self.records + s.count;
    }

    /// Takes one more value, in tenths, for the station `name`.
    pub fn observe(&mut self, name: &[u8], value: i64)
        requires
            old(self).wf(),
            -MAX_ABS_TENTHS <= value <= MAX_ABS_TENTHS,
            old(self).count() < u64::MAX,
        ensures
            final(self).wf(),
            final(self).view() == observe_view(old(self).view(), name@, value as int),
            final(self).count() == old(self).count() + 1,
    {
        let s = MeanStats { min: value, max: value, sum: value as i128, count: 1 };
        self.absorb(name, s);
    }

    /// Takes every record of a chunk, in order. Fails, at the first fault,
    /// exactly where the chunk's text is malformed.
    pub fn process_chunk(&mut self, data: &[u8]) -> (r: Result<(), ParseError>)
        requires
            old(self).wf(),
            old(self).count() + data@.len() <= u64::MAX,
        ensures
            final(self).wf(),
            match records(data@) {
                Ok(rs) => {
                    &&& r is Ok
                    &&& final(self).view() == observe_all(old(self).view(), rs)
                    &&& final(self).count() == old(self).count() + rs.len()
                },
                Err(e) => r == Err::<(), ParseError>(e),
            },
    {
        let mut pos: usize = 0;
        let ghost done: Seq<(Seq<u8>, int)> = Seq::empty();
        proof {
            assert(data@.subrange(0, data@.len() as int) =~= data@);
            if let Ok(t) = records(data@) {
                assert(done + t =~= t);
            }
        }
        while pos < data.len()
            invariant
                self.wf(),
                pos <= data@.len(),
                done.len() <= pos,
                self.count() == old(self).count() + done.len(),
                old(self).count() + data@.len() <= u64::MAX,
                self.view() == observe_all(old(self).view(), done),
                records(data@) == match records(data@.subrange(pos as int, data@.len() as int)) {
                    Ok(t) => Ok(done + t),
                    Err(e) => Err::<Seq<(Seq<u8>, int)>, ParseError>(e),
                },
            decreases data@.len() - pos,
        {
            let rest = vstd::slice::slice_subrange(data, pos, data.len());
            match next_record(rest) {
                Err(e) => {
                    return Err(e);
                },
                Ok(None) => {
                    // a non-empty rest always starts a record or a fault
                    assert(first_record(rest@) != Ok::<Option<(int, int, int)>, ParseError>(None));
                    assert(false);
                    return Ok(());
                },
                Ok(Some((i, j, v))) => {
                    let name = vstd::slice::slice_subrange(rest, 0, i);
                    proof {
                        assert(name@ =~= rest@.take(i as int));
                        assert(rest@.subrange(j + 1, rest@.len() as int) =~= data@.subrange(
                            pos + j + 1,
                            data@.len() as int,
                        ));
                    }
                    self.observe(name, v);
                    proof {
                        let rec = (name@, v as int);
                        assert(done.push(rec).drop_last() =~= done);
                        match records(data@.subrange(pos + j + 1, data@.len() as int)) {
                            Ok(t) => {
                                assert(done + (seq![rec] + t) =~= done.push(rec) + t);
                            },
                            Err(e) => {},
                        }
                        done = done.push(rec);
                    }
                    pos = pos + j + 1;
                },
            }
        }
        proof {
            assert(data@.subrange(pos as int, data@.len() as int).len() == 0);
            assert(done + Seq::<(Seq<u8>, int)>::empty() =~= done);
        }
        Ok(())
    }

    /// Adds every station of `other` to this aggregator.
    pub fn merge(&mut self, other: MeanTable)
        requires
            old(self).wf(),
            other.wf(),
            old(self).count() + other.count() <= u64::MAX,
        ensures
            final(self).wf(),
            final(self).view() == merge_views(old(self).view(), other.view()),
            final(self).count() == old(self).count() + other.count(),
    {
        let ghost c = summary_count();
        let ghost op = other.pairs();
        let mut j: usize = 0;
        proof {
            assert(op.take(0) =~= Seq::empty());
            assert(merge_views(old(self).view(), Map::empty()) =~= old(self).view());
        }
        while j < other.names.len()
            invariant
                self.wf(),
                other.wf(),
                op == other.pairs(),
                c == summary_count(),
                j <= op.len(),
                old(self).count() + other.count() <= u64::MAX,
                self.view() == merge_views(old(self).view(), seq_to_map(op.take(j as int))),
                self.count() == old(self).count() + total(op.take(j as int), c),
            decreases op.len() - j,
        {
            let name = other.names[j].as_slice();
            let s = other.stats[j];
            proof {
                lemma_total_take(op, c, j as int);
                assert(op.take(j + 1) =~= op.take(j as int).push((name@, s.summary())));
                lemma_seq_to_map_dom(op.take(j as int), name@);
                if seq_to_map(op.take(j as int)).contains_key(name@) {
                    let i = choose|i: int| 0 <= i < j && op.take(j as int)[i].0 == name@;
                    assert(op[i].0 == op[j as int].0);
                }
                lemma_seq_to_map_push(op.take(j as int), name@, s.summary());
                lemma_merge_insert(old(self).view(), seq_to_map(op.take(j as int)), name@, s.summary());
            }
            self.absorb(name, s);
            j = j + 1;
        }
        proof {
            assert(op.take(j as int) =~= op);
        }
    }

    /// Each station's least value, rounded mean and greatest value.
    pub fn finalize(&self) -> (r: Vec<StationResult>)
        requires
            self.wf(),
        ensures
            keys_unique(result_pairs(r@)),
            results_view(r@) == self.view().map_values(|s: MeanSummary| finish(s)),
            forall|i: int| 0 <= i < r@.len() ==> r@[i].min <= #[trigger] r@[i].center <= r@[i].max,
    {
        let mut out: Vec<StationResult> = Vec::new();
        let mut i: usize = 0;
        while i < self.names.len()
            invariant
                self.wf(),
                i <= self.names@.len(),
                out@.len() == i,
                forall|k: int| 0 <= k < i ==> #[trigger] result_pairs(out@)[k] == (self.pairs()[k].0, finish(self.pairs()[k].1)),
                forall|k: int| 0 <= k < i ==> out@[k].min <= #[trigger] out@[k].center <= out@[k].max,
            decreases self.names@.len() - i,
        {
            let s = self.stats[i];
            proof {
                assert(summary_ok(s.summary()));
                assert(-0x10000000000000000 * MAX_ABS_TENTHS <= s.sum <= 0x10000000000000000 * MAX_ABS_TENTHS) by (nonlinear_arith)
                    requires
                        -MAX_ABS_TENTHS <= s.min,
                        s.max <= MAX_ABS_TENTHS,
                        s.min * s.count <= s.sum <= s.max * s.count,
                        0 <= s.count <= 0x10000000000000000,
                ;
                lemma_round_between(s.sum as int, s.count as int, s.min as int, s.max as int);
            }
            let center = round_off(s.sum, s.count) as i64;
            let ghost before = out@;
            out.push(StationResult { name: self.names[i].clone(), min: s.min, center, max: s.max });
            proof {
                assert forall|k: int| 0 <= k < i + 1 implies #[trigger] result_pairs(out@)[k] == (self.pairs()[k].0, finish(self.pairs()[k].1)) by {
                    if k < i {
                        assert(out@[k] == before[k]);
                        assert(result_pairs(before)[k] == result_pairs(out@)[k]);
                    }
                }
            }
            i = i + 1;
        }
        proof {
            lemma_seq_to_map_map_values(self.pairs(), result_pairs(out@), |s: MeanSummary| finish(s));
        }
        out
    }
}

} // verus!
