use vstd::prelude::*;

verus! {

/// No two entries share a name.
pub open spec fn keys_unique<V>(s: Seq<(Seq<u8>, V)>) -> bool {
    forall|i: int, j: int| 0 <= i < j < s.len() ==> s[i].0 != s[j].0
}

/// The mapping from name to value that a list of entries stands for.
pub open spec fn seq_to_map<V>(s: Seq<(Seq<u8>, V)>) -> Map<Seq<u8>, V>
    decreases s.len(),
{
    if s.len() == 0 {
        Map::empty()
    } else {
        seq_to_map(s.drop_last()).insert(s.last().0, s.last().1)
    }
}

/// Sum of `c` over the values of a list of entries.
pub open spec fn total<V>(s: Seq<(Seq<u8>, V)>, c: spec_fn(V) -> nat) -> nat
    decreases s.len(),
{
    if s.len() == 0 {
        0
    } else {
        total(s.drop_last(), c) + c(s.last().1)
    }
}

pub proof fn lemma_seq_to_map_dom<V>(s: Seq<(Seq<u8>, V)>, k: Seq<u8>)
    ensures
        seq_to_map(s).contains_key(k) <==> exists|i: int| 0 <= i < s.len() && s[i].0 == k,
    decreases s.len(),
{
    if s.len() > 0 {
        lemma_seq_to_map_dom(s.drop_last(), k);
        if seq_to_map(s.drop_last()).contains_key(k) {
            let i = choose|i: int| 0 <= i < s.drop_last().len() && s.drop_last()[i].0 == k;
            assert(s[i].0 == k);
        }
        if exists|i: int| 0 <= i < s.len() && s[i].0 == k {
            let i = choose|i: int| 0 <= i < s.len() && s[i].0 == k;
            if i < s.len() - 1 {
                assert(s.drop_last()[i].0 == k);
            }
        }
    }
}

pub proof fn lemma_seq_to_map_index<V>(s: Seq<(Seq<u8>, V)>, i: int)
    requires
        keys_unique(s),
        0 <= i < s.len(),
    ensures
        seq_to_map(s).contains_key(s[i].0),
        seq_to_map(s)[s[i].0] == s[i].1,
    decreases s.len(),
{
    if i < s.len() - 1 {
        assert(s.drop_last()[i] == s[i]);
        lemma_seq_to_map_index(s.drop_last(), i);
    }
}

pub proof fn lemma_seq_to_map_update<V>(s: Seq<(Seq<u8>, V)>, i: int, v: V)
    requires
        keys_unique(s),
        0 <= i < s.len(),
    ensures
        keys_unique(s.update(i, (s[i].0, v))),
        seq_to_map(s.update(i, (s[i].0, v))) == seq_to_map(s).insert(s[i].0, v),
    decreases s.len(),
{
    let t = s.update(i, (s[i].0, v));
    if i == s.len() - 1 {
        assert(t.drop_last() =~= s.drop_last());
        assert(seq_to_map(t) =~= seq_to_map(s).insert(s[i].0, v));
    } else {
        assert(t.drop_last() =~= s.drop_last().update(i, (s[i].0, v)));
        lemma_seq_to_map_update(s.drop_last(), i, v);
        assert(seq_to_map(t) =~= seq_to_map(s).insert(s[i].0, v));
    }
}

pub proof fn lemma_seq_to_map_push<V>(s: Seq<(Seq<u8>, V)>, k: Seq<u8>, v: V)
    requires
        keys_unique(s),
        !seq_to_map(s).contains_key(k),
    ensures
        keys_unique(s.push((k, v))),
        seq_to_map(s.push((k, v))) == seq_to_map(s).insert(k, v),
{
    assert(s.push((k, v)).drop_last() =~= s);
    assert forall|i: int| 0 <= i < s.len() implies s[i].0 != k by {
        lemma_seq_to_map_dom(s, k);
    }
}

pub proof fn lemma_total_update<V>(s: Seq<(Seq<u8>, V)>, c: spec_fn(V) -> nat, i: int, x: (Seq<u8>, V))
    requires
        0 <= i < s.len(),
    ensures
        total(s.update(i, x), c) == total(s, c) - c(s[i].1) + c(x.1),
        c(s[i].1) <= total(s, c),
    decreases s.len(),
{
    let t = s.update(i, x);
    if i == s.len() - 1 {
        assert(t.drop_last() =~= s.drop_last());
    } else {
        assert(t.drop_last() =~= s.drop_last().update(i, x));
        lemma_total_update(s.drop_last(), c, i, x);
    }
}

pub proof fn lemma_total_push<V>(s: Seq<(Seq<u8>, V)>, c: spec_fn(V) -> nat, x: (Seq<u8>, V))
    ensures
        total(s.push(x), c) == total(s, c) + c(x.1),
{
    assert(s.push(x).drop_last() =~= s);
}

/// Entries paired index by index, with `f` applied to each value, stand for
/// the same names with `f` applied to each value.
pub proof fn lemma_seq_to_map_map_values<V, W>(
    a: Seq<(Seq<u8>, V)>,
    b: Seq<(Seq<u8>, W)>,
    f: spec_fn(V) -> W,
)
    requires
        a.len() == b.len(),
        forall|i: int| 0 <= i < a.len() ==> #[trigger] b[i] == (a[i].0, f(a[i].1)),
    ensures
        seq_to_map(b) == seq_to_map(a).map_values(f),
    decreases a.len(),
{
    if a.len() > 0 {
        lemma_seq_to_map_map_values(a.drop_last(), b.drop_last(), f);
        assert(b.last() == (a.last().0, f(a.last().1)));
        assert(seq_to_map(b) =~= seq_to_map(a).map_values(f));
    }
}

/// Sums of `c` over ever longer prefixes grow by one value at a time, up to the whole.
pub proof fn lemma_total_take<V>(s: Seq<(Seq<u8>, V)>, c: spec_fn(V) -> nat, j: int)
    requires
        0 <= j < s.len(),
    ensures
        total(s.take(j + 1), c) == total(s.take(j), c) + c(s[j].1),
        total(s.take(j + 1), c) <= total(s, c),
    decreases s.len() - j,
{
    assert(s.take(j + 1).drop_last() =~= s.take(j));
    if j + 1 < s.len() {
        lemma_total_take(s, c, j + 1);
    } else {
        assert(s.take(j + 1) =~= s);
    }
}

/// The finished summary of one station, in tenths: least value, central
/// value, greatest value.
#[derive(Debug, Clone, PartialEq, Eq)]
pub struct StationResult {
    pub name: Vec<u8>,
    pub min: i64,
    pub center: i64,
    pub max: i64,
}

pub open spec fn result_pairs(rs: Seq<StationResult>) -> Seq<(Seq<u8>, (int, int, int))> {
    Seq::new(rs.len(), |i: int| (rs[i].name@, (rs[i].min as int, rs[i].center as int, rs[i].max as int)))
}

/// The mapping from station name to finished summary that a result list stands for.
pub open spec fn results_view(rs: Seq<StationResult>) -> Map<Seq<u8>, (int, int, int)> {
    seq_to_map(result_pairs(rs))
}

/// Whether two byte strings are equal.
pub fn bytes_eq(a: &[u8], b: &[u8]) -> (r: bool)
    ensures
        r == (a@ == b@),
{
    if a.len() != b.len() {
        return false;
    }
    let mut i: usize = 0;
    while i < a.len()
        invariant
            a@.len() == b@.len(),
            i <= a@.len(),
            a@.subrange(0, i as int) == b@.subrange(0, i as int),
        decreases a@.len() - i,
    {
        if a[i] != b[i] {
            assert(a@[i as int] != b@[i as int]);
            return false;
        }
        assert(a@.subrange(0, i + 1) =~= a@.subrange(0, i as int).push(a@[i as int]));
        assert(b@.subrange(0, i + 1) =~= b@.subrange(0, i as int).push(b@[i as int]));
        i = i + 1;
    }
    assert(a@ =~= a@.subrange(0, i as int));
    assert(b@ =~= b@.subrange(0, i as int));
    true
}

} // verus!
