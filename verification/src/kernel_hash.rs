//! Aggregation by key.
use crate::double::{FloatOp, Fpu, Real, rounded};
use crate::kernel_par::{ScanOp, folded, scan_combine, scan_identity};
use std::collections::HashMap;
use vstd::prelude::*;

verus! {

#[derive(Clone, Copy, PartialEq, Eq, Structural, Debug)]
pub enum AggOp {
    Sum,
    Mean,
    Count,
    Min,
    Max,
}

/// The keys in the order of their first occurrence, and a value for each.
#[derive(Debug)]
pub struct HashAggResult {
    pub keys: Vec<u64>,
    pub values: Vec<Option<Real>>,
}

/// The pairs in which neither the key nor the value is missing.
pub open spec fn entries(keys: Seq<Option<u64>>, vals: Seq<Option<Real>>, n: nat) -> Seq<(u64, Real)>
    decreases n,
{
    if n == 0 {
        Seq::empty()
    } else {
        let e = entries(keys, vals, (n - 1) as nat);
        match (keys[n - 1], vals[n - 1]) {
            (Some(k), Some(v)) => e.push((k, v)),
            _ => e,
        }
    }
}

/// The keys that are there.
pub open spec fn given_keys(keys: Seq<Option<u64>>, n: nat) -> Seq<u64>
    decreases n,
{
    if n == 0 {
        Seq::empty()
    } else {
        match keys[n - 1] {
            Some(k) => given_keys(keys, (n - 1) as nat).push(k),
            None => given_keys(keys, (n - 1) as nat),
        }
    }
}

pub open spec fn entry_keys(e: Seq<(u64, Real)>) -> Seq<u64> {
    Seq::new(e.len(), |i: int| e[i].0)
}

/// Each key once, in the order of first occurrence.
pub open spec fn distinct(s: Seq<u64>) -> Seq<u64>
    decreases s.len(),
{
    if s.len() == 0 {
        Seq::empty()
    } else {
        let d = distinct(s.drop_last());
        if d.contains(s.last()) {
            d
        } else {
            d.push(s.last())
        }
    }
}

/// The values with the given key, in order.
pub open spec fn group(e: Seq<(u64, Real)>, k: u64) -> Seq<Real>
    decreases e.len(),
{
    if e.len() == 0 {
        Seq::empty()
    } else if e.last().0 == k {
        group(e.drop_last(), k).push(e.last().1)
    } else {
        group(e.drop_last(), k)
    }
}

/// How often a key occurs.
pub open spec fn occurrences(s: Seq<u64>, k: u64) -> nat
    decreases s.len(),
{
    if s.len() == 0 {
        0
    } else {
        occurrences(s.drop_last(), k) + if s.last() == k {
            1nat
        } else {
            0nat
        }
    }
}

/// One group aggregated.
pub open spec fn aggregate<F: Fn(FloatOp, Real, Real, Real) -> Real>(
    fpu: &Fpu<F>,
    op: AggOp,
    s: Seq<Real>,
) -> Real {
    match op {
        AggOp::Sum => folded(fpu, ScanOp::Cumsum, s),
        AggOp::Mean => fpu.over(folded(fpu, ScanOp::Cumsum, s), rounded(s.len())),
        AggOp::Count => rounded(s.len()),
        AggOp::Min => folded(fpu, ScanOp::Cummin, s),
        AggOp::Max => folded(fpu, ScanOp::Cummax, s),
    }
}

/// `ks` are the keys of the entries in the order of first occurrence, and `vs`
/// their groups aggregated.
pub open spec fn aggregated<F: Fn(FloatOp, Real, Real, Real) -> Real>(
    fpu: &Fpu<F>,
    op: AggOp,
    keys: Seq<Option<u64>>,
    vals: Seq<Option<Real>>,
    ks: Seq<u64>,
    vs: Seq<Option<Real>>,
) -> bool {
    let e = entries(keys, vals, keys.len());
    &&& ks == distinct(entry_keys(e))
    &&& vs.len() == ks.len()
    &&& forall|i: int| 0 <= i < ks.len() ==> #[trigger] vs[i] == Some(aggregate(fpu, op, group(e, ks[i])))
}

/// `ks` are the keys that are there in the order of first occurrence, and `vs`
/// how often each occurs.
pub open spec fn tabulated(keys: Seq<Option<u64>>, ks: Seq<u64>, vs: Seq<Option<Real>>) -> bool {
    let s = given_keys(keys, keys.len());
    &&& ks == distinct(s)
    &&& vs.len() == ks.len()
    &&& forall|i: int| 0 <= i < ks.len() ==> #[trigger] vs[i] == Some(rounded(occurrences(s, ks[i])))
}

/// The running state of a group: the total that the operation needs, and how
/// many values there were.
struct Acc {
    total: Real,
    count: u64,
}

/// What is totalled in each group.
spec fn kept_total(op: AggOp) -> ScanOp {
    match op {
        AggOp::Min => ScanOp::Cummin,
        AggOp::Max => ScanOp::Cummax,
        _ => ScanOp::Cumsum,
    }
}

/// `map` gives each distinct key its place.
spec fn places(map: Map<u64, usize>, d: Seq<u64>) -> bool {
    &&& forall|k: u64| #[trigger] map.contains_key(k) <==> d.contains(k)
    &&& forall|k: u64| #[trigger] map.contains_key(k) ==> map[k] < d.len() && d[map[k] as int] == k
}

/// The place of a key, which is added where it is new.
fn place(map: &mut HashMap<u64, usize>, order: &mut Vec<u64>, k: u64, Ghost(s): Ghost<Seq<u64>>) -> (r: (usize, bool))
    requires
        old(order)@ == distinct(s),
        places(old(map)@, old(order)@),
    ensures
        final(order)@ == distinct(s.push(k)),
        places(final(map)@, final(order)@),
        r.0 < final(order)@.len(),
        final(order)@[r.0 as int] == k,
        r.1 == !old(order)@.contains(k),
        r.1 ==> r.0 == old(order)@.len() && final(order)@ == old(order)@.push(k),
        !r.1 ==> final(order)@ == old(order)@,
{
    broadcast use vstd::std_specs::hash::group_hash_axioms;

    assert(s.push(k).drop_last() =~= s);
    let ghost d = order@;
    match map.get(&k) {
        Some(i) => {
            let i: usize = *i;
            assert(map@.contains_key(k));
            (i, false)
        },
        None => {
            assert(!map@.contains_key(k));
            let i: usize = order.len();
            let ghost m0 = map@;
            order.push(k);
            map.insert(k, i);
            proof {
                let e = order@;
                assert forall|j: u64| #[trigger] map@.contains_key(j) <==> e.contains(j) by {
                    if d.contains(j) {
                        let w = choose|w: int| 0 <= w < d.len() && d[w] == j;
                        assert(e[w] == j);
                    }
                    if j == k {
                        assert(e[d.len() as int] == k);
                    }
                    if e.contains(j) && j != k {
                        let w = choose|w: int| 0 <= w < e.len() && e[w] == j;
                        assert(d[w] == j);
                    }
                }
                assert forall|j: u64| #[trigger] map@.contains_key(j) implies map@[j] < e.len() && e[map@[j] as int] == j by {
                    if j != k {
                        assert(m0.contains_key(j));
                    }
                }
            }
            (i, true)
        },
    }
}

proof fn lemma_distinct_unique(s: Seq<u64>)
    ensures
        distinct(s).no_duplicates(),
        forall|k: u64| #[trigger] distinct(s).contains(k) <==> s.contains(k),
    decreases s.len(),
{
    if s.len() > 0 {
        lemma_distinct_unique(s.drop_last());
        let d = distinct(s.drop_last());
        let e = distinct(s);
        assert forall|k: u64| #[trigger] e.contains(k) <==> s.contains(k) by {
            if s.contains(k) {
                let w = choose|w: int| 0 <= w < s.len() && s[w] == k;
                if w < s.len() - 1 {
                    assert(s.drop_last()[w] == k);
                    assert(d.contains(k));
                    let v = choose|v: int| 0 <= v < d.len() && d[v] == k;
                    assert(e[v] == k);
                } else if !d.contains(k) {
                    assert(e[d.len() as int] == k);
                }
            }
            if e.contains(k) {
                let v = choose|v: int| 0 <= v < e.len() && e[v] == k;
                if v < d.len() {
                    assert(d[v] == k);
                    assert(d.contains(k));
                    let w = choose|w: int| 0 <= w < s.drop_last().len() && s.drop_last()[w] == k;
                    assert(s[w] == k);
                } else {
                    assert(s[s.len() - 1] == k);
                }
            }
        }
    }
}

proof fn lemma_no_group(e: Seq<(u64, Real)>, k: u64)
    requires
        !entry_keys(e).contains(k),
    ensures
        group(e, k) == Seq::<Real>::empty(),
    decreases e.len(),
{
    if e.len() > 0 {
        assert(entry_keys(e)[e.len() - 1] == e.last().0);
        assert(!entry_keys(e.drop_last()).contains(k)) by {
            if entry_keys(e.drop_last()).contains(k) {
                let w = choose|w: int| 0 <= w < e.len() - 1 && entry_keys(e.drop_last())[w] == k;
                assert(entry_keys(e)[w] == k);
            }
        }
        lemma_no_group(e.drop_last(), k);
    }
}

proof fn lemma_group_size(e: Seq<(u64, Real)>, k: u64)
    ensures
        group(e, k).len() == occurrences(entry_keys(e), k),
        group(e, k).len() <= e.len(),
    decreases e.len(),
{
    if e.len() > 0 {
        lemma_group_size(e.drop_last(), k);
        assert(entry_keys(e).drop_last() =~= entry_keys(e.drop_last()));
    }
}

proof fn lemma_entries(keys: Seq<Option<u64>>, vals: Seq<Option<Real>>, n: nat)
    ensures
        entries(keys, vals, n).len() <= n,
    decreases n,
{
    if n > 0 {
        lemma_entries(keys, vals, (n - 1) as nat);
    }
}

/// Aggregates the values by key. Pairs with a missing key or value count for
/// nothing.
pub fn hash_agg<F: Fn(FloatOp, Real, Real, Real) -> Real>(
    fpu: &Fpu<F>,
    op: AggOp,
    keys: &[Option<u64>],
    values: &[Option<Real>],
) -> (r: HashAggResult)
    requires
        fpu.wf(),
        keys@.len() == values@.len(),
    ensures
        aggregated(fpu, op, keys@, values@, r.keys@, r.values@),
{
    broadcast use vstd::std_specs::hash::group_hash_axioms;

    let total_op: ScanOp = match op {
        AggOp::Min => ScanOp::Cummin,
        AggOp::Max => ScanOp::Cummax,
        _ => ScanOp::Cumsum,
    };
    let n: usize = keys.len();
    let mut map: HashMap<u64, usize> = HashMap::new();
    let mut order: Vec<u64> = Vec::new();
    let mut accs: Vec<Acc> = Vec::new();
    let mut i: usize = 0;
    assert(entry_keys(Seq::<(u64, Real)>::empty()) =~= Seq::<u64>::empty());
    while i < n
        invariant
            fpu.wf(),
            i <= n,
            n == keys@.len(),
            n == values@.len(),
            total_op == kept_total(op),
            order@ == distinct(entry_keys(entries(keys@, values@, i as nat))),
            places(map@, order@),
            accs@.len() == order@.len(),
            forall|g: int|
                0 <= g < order@.len() ==> (#[trigger] accs@[g]).total == folded(
                    fpu,
                    total_op,
                    group(entries(keys@, values@, i as nat), order@[g]),
                ),
            forall|g: int|
                0 <= g < order@.len() ==> (#[trigger] accs@[g]).count == group(
                    entries(keys@, values@, i as nat),
                    order@[g],
                ).len(),
        decreases n - i,
    {
        let ghost e = entries(keys@, values@, i as nat);
        match (keys[i], values[i]) {
            (Some(k), Some(v)) => {
                let ghost f = e.push((k, v));
                let ghost order0 = order@;
                let ghost accs0 = accs@;
                proof {
                    assert(f.drop_last() =~= e);
                    assert(entry_keys(f) =~= entry_keys(e).push(k));
                    lemma_distinct_unique(entry_keys(e));
                    lemma_distinct_unique(entry_keys(f));
                    lemma_group_size(e, k);
                    lemma_entries(keys@, values@, i as nat);
                }
                let (at, fresh) = place(&mut map, &mut order, k, Ghost(entry_keys(e)));
                if fresh {
                    proof {
                        lemma_no_group(e, k);
                        assert(group(e, k) =~= Seq::<Real>::empty());
                    }
                    accs.push(Acc { total: scan_identity(total_op), count: 0 });
                }
                proof {
                    assert(accs@[at as int].total == folded(fpu, total_op, group(e, k)));
                    assert(accs@[at as int].count == group(e, k).len());
                    let gr = group(f, k);
                    assert(gr.drop_last() =~= group(e, k));
                }
                let total: Real = scan_combine(fpu, total_op, accs[at].total, v);
                let count: u64 = accs[at].count + 1;
                accs.set(at, Acc { total, count });
                proof {
                    assert forall|g: int| 0 <= g < order@.len() implies (#[trigger] accs@[g]).total == folded(
                        fpu,
                        total_op,
                        group(f, order@[g]),
                    ) && accs@[g].count == group(f, order@[g]).len() by {
                        if g != at {
                            assert(order@[g] != order@[at as int]);
                            assert(order@[g] == order0[g]);
                            assert(accs@[g] == accs0[g]);
                            assert(group(f, order@[g]) == group(e, order@[g]));
                        }
                    }
                }
            },
            _ => {},
        }
        i += 1;
    }
    let ghost e = entries(keys@, values@, n as nat);
    let mut out: Vec<Option<Real>> = Vec::new();
    let mut g: usize = 0;
    proof {
        lemma_entries(keys@, values@, n as nat);
    }
    while g < accs.len()
        invariant
            fpu.wf(),
            g <= accs.len(),
            e.len() <= n,
            total_op == kept_total(op),
            accs@.len() == order@.len(),
            out@.len() == g,
            forall|g: int|
                0 <= g < order@.len() ==> (#[trigger] accs@[g]).total == folded(fpu, total_op, group(e, order@[g])),
            forall|g: int| 0 <= g < order@.len() ==> (#[trigger] accs@[g]).count == group(e, order@[g]).len(),
            forall|h: int| 0 <= h < g ==> #[trigger] out@[h] == Some(aggregate(fpu, op, group(e, order@[h]))),
        decreases accs.len() - g,
    {
        proof {
            lemma_group_size(e, order@[g as int]);
        }
        let a: &Acc = &accs[g];
        let v: Real = match op {
            AggOp::Sum | AggOp::Min | AggOp::Max => a.total,
            AggOp::Mean => fpu.apply(FloatOp::Over, a.total, Real::from_u64(a.count)),
            AggOp::Count => Real::from_u64(a.count),
        };
        out.push(Some(v));
        g += 1;
    }
    HashAggResult { keys: order, values: out }
}

proof fn lemma_occurrences(s: Seq<u64>, k: u64)
    ensures
        occurrences(s, k) <= s.len(),
        !s.contains(k) ==> occurrences(s, k) == 0,
    decreases s.len(),
{
    if s.len() > 0 {
        lemma_occurrences(s.drop_last(), k);
        if !s.contains(k) {
            assert(s[s.len() - 1] != k);
            if s.drop_last().contains(k) {
                let w = choose|w: int| 0 <= w < s.drop_last().len() && s.drop_last()[w] == k;
                assert(s[w] == k);
            }
        }
    }
}

proof fn lemma_given(keys: Seq<Option<u64>>, n: nat)
    ensures
        given_keys(keys, n).len() <= n,
    decreases n,
{
    if n > 0 {
        lemma_given(keys, (n - 1) as nat);
    }
}

/// Counts how often each key occurs; missing keys count for nothing.
pub fn hash_tabulate(keys: &[Option<u64>]) -> (r: HashAggResult)
    ensures
        tabulated(keys@, r.keys@, r.values@),
{
    broadcast use vstd::std_specs::hash::group_hash_axioms;

    let n: usize = keys.len();
    let mut map: HashMap<u64, usize> = HashMap::new();
    let mut order: Vec<u64> = Vec::new();
    let mut counts: Vec<u64> = Vec::new();
    let mut i: usize = 0;
    while i < n
        invariant
            i <= n,
            n == keys@.len(),
            order@ == distinct(given_keys(keys@, i as nat)),
            places(map@, order@),
            counts@.len() == order@.len(),
            forall|g: int|
                0 <= g < order@.len() ==> #[trigger] counts@[g] == occurrences(
                    given_keys(keys@, i as nat),
                    order@[g],
                ),
        decreases n - i,
    {
        let ghost s = given_keys(keys@, i as nat);
        match keys[i] {
            Some(k) => {
                let ghost t = s.push(k);
                let ghost order0 = order@;
                let ghost counts0 = counts@;
                proof {
                    assert(t.drop_last() =~= s);
                    lemma_distinct_unique(s);
                    lemma_distinct_unique(t);
                    lemma_occurrences(s, k);
                    lemma_given(keys@, i as nat);
                }
                let (at, fresh) = place(&mut map, &mut order, k, Ghost(s));
                if fresh {
                    counts.push(0);
                }
                assert(counts@[at as int] == occurrences(s, k));
                let c: u64 = counts[at] + 1;
                counts.set(at, c);
                proof {
                    assert forall|g: int| 0 <= g < order@.len() implies #[trigger] counts@[g] == occurrences(
                        t,
                        order@[g],
                    ) by {
                        if g != at {
                            assert(order@[g] != order@[at as int]);
                            assert(order@[g] == order0[g]);
                            assert(counts@[g] == counts0[g]);
                        }
                    }
                }
            },
            None => {},
        }
        i += 1;
    }
    let ghost s = given_keys(keys@, n as nat);
    let mut out: Vec<Option<Real>> = Vec::new();
    let mut g: usize = 0;
    proof {
        lemma_given(keys@, n as nat);
    }
    while g < counts.len()
        invariant
            g <= counts.len(),
            s.len() <= n,
            counts@.len() == order@.len(),
            out@.len() == g,
            forall|g: int| 0 <= g < order@.len() ==> #[trigger] counts@[g] == occurrences(s, order@[g]),
            forall|h: int| 0 <= h < g ==> #[trigger] out@[h] == Some(rounded(occurrences(s, order@[h]))),
        decreases counts.len() - g,
    {
        proof {
            lemma_occurrences(s, order@[g as int]);
        }
        out.push(Some(Real::from_u64(counts[g])));
        g += 1;
    }
    HashAggResult { keys: order, values: out }
}

/// A tabulation gives what counting by key gives for any values of which none is
/// missing: the same keys, and the same numbers.
pub proof fn law_tabulation_is_count<F: Fn(FloatOp, Real, Real, Real) -> Real>(
    fpu: &Fpu<F>,
    keys: Seq<Option<u64>>,
    vals: Seq<Option<Real>>,
    ks: Seq<u64>,
    vs: Seq<Option<Real>>,
    hks: Seq<u64>,
    hvs: Seq<Option<Real>>,
)
    requires
        keys.len() == vals.len(),
        forall|i: int| 0 <= i < vals.len() ==> #[trigger] vals[i] is Some,
        tabulated(keys, ks, vs),
        aggregated(fpu, AggOp::Count, keys, vals, hks, hvs),
    ensures
        ks == hks,
        vs == hvs,
        ks.no_duplicates(),
        forall|k: u64| #[trigger] ks.contains(k) <==> keys.contains(Some(k)),
        count_sum(given_keys(keys, keys.len()), ks, ks.len()) == keys.filter(|k: Option<u64>| k is Some).len(),
{
    lemma_same_keys(keys, vals, keys.len());
    law_keys_distinct(given_keys(keys, keys.len()));
    law_counts_add_up(keys);
    assert forall|k: u64| #[trigger] ks.contains(k) <==> keys.contains(Some(k)) by {
        lemma_given_from(keys, keys.len(), k);
        assert(keys.take(keys.len() as int) =~= keys);
    }
    assert forall|i: int| 0 <= i < ks.len() implies vs[i] == hvs[i] by {
        law_tabulate_counts(fpu, keys, vals, keys.len(), ks[i]);
    }
    assert(vs =~= hvs);
}

proof fn lemma_given_from(keys: Seq<Option<u64>>, n: nat, k: u64)
    requires
        n <= keys.len(),
    ensures
        given_keys(keys, n).contains(k) <==> keys.take(n as int).contains(Some(k)),
    decreases n,
{
    let t = keys.take(n as int);
    if n > 0 {
        let s = keys.take(n - 1);
        let g = given_keys(keys, (n - 1) as nat);
        lemma_given_from(keys, (n - 1) as nat, k);
        assert(t =~= s.push(keys[n - 1]));
        if given_keys(keys, n).contains(k) {
            let i = choose|i: int| 0 <= i < given_keys(keys, n).len() && given_keys(keys, n)[i] == k;
            if i < g.len() {
                assert(g[i] == k);
                let j = choose|j: int| 0 <= j < s.len() && s[j] == Some(k);
                assert(t[j] == Some(k));
            } else {
                assert(t[n - 1] == Some(k));
            }
        }
        if t.contains(Some(k)) {
            let j = choose|j: int| 0 <= j < t.len() && t[j] == Some(k);
            if j < n - 1 {
                assert(s[j] == Some(k));
                let i = choose|i: int| 0 <= i < g.len() && g[i] == k;
                assert(given_keys(keys, n)[i] == k);
            } else {
                assert(given_keys(keys, n)[g.len() as int] == k);
            }
        }
    }
}

/// Counting keys is counting by key any values of which none is missing.
pub proof fn law_tabulate_counts<F: Fn(FloatOp, Real, Real, Real) -> Real>(
    fpu: &Fpu<F>,
    keys: Seq<Option<u64>>,
    vals: Seq<Option<Real>>,
    n: nat,
    k: u64,
)
    requires
        n <= keys.len() == vals.len(),
        forall|i: int| 0 <= i < n ==> #[trigger] vals[i] is Some,
    ensures
        entry_keys(entries(keys, vals, n)) == given_keys(keys, n),
        aggregate(fpu, AggOp::Count, group(entries(keys, vals, n), k)) == rounded(
            occurrences(given_keys(keys, n), k),
        ),
{
    lemma_same_keys(keys, vals, n);
    lemma_group_size(entries(keys, vals, n), k);
}

proof fn lemma_same_keys(keys: Seq<Option<u64>>, vals: Seq<Option<Real>>, n: nat)
    requires
        n <= keys.len() == vals.len(),
        forall|i: int| 0 <= i < n ==> #[trigger] vals[i] is Some,
    ensures
        entry_keys(entries(keys, vals, n)) == given_keys(keys, n),
    decreases n,
{
    if n > 0 {
        lemma_same_keys(keys, vals, (n - 1) as nat);
        assert(vals[n - 1] is Some);
        let e = entries(keys, vals, (n - 1) as nat);
        match keys[n - 1] {
            Some(k) => {
                assert(entry_keys(e.push((k, vals[n - 1]->0))) =~= entry_keys(e).push(k));
            },
            None => {},
        }
    } else {
        assert(entry_keys(entries(keys, vals, n)) =~= given_keys(keys, n));
    }
}

/// Each key of a result occurs once, and the keys are those of the input.
pub proof fn law_keys_distinct(s: Seq<u64>)
    ensures
        distinct(s).no_duplicates(),
        forall|k: u64| #[trigger] distinct(s).contains(k) <==> s.contains(k),
{
    lemma_distinct_unique(s);
}

/// How often the first `n` of the keys `d` occur, added up.
pub open spec fn count_sum(s: Seq<u64>, d: Seq<u64>, n: nat) -> nat
    decreases n,
{
    if n == 0 {
        0
    } else {
        count_sum(s, d, (n - 1) as nat) + occurrences(s, d[n - 1])
    }
}

/// The counts of a tabulation add up to the number of keys that are there.
pub proof fn law_counts_add_up(keys: Seq<Option<u64>>)
    ensures
        ({
            let s = given_keys(keys, keys.len());
            &&& count_sum(s, distinct(s), distinct(s).len()) == s.len()
            &&& s.len() == keys.filter(|k: Option<u64>| k is Some).len()
        }),
{
    lemma_count_all(given_keys(keys, keys.len()));
    lemma_given_length(keys, keys.len());
    assert(keys.take(keys.len() as int) =~= keys);
}

proof fn lemma_given_length(keys: Seq<Option<u64>>, n: nat)
    requires
        n <= keys.len(),
    ensures
        given_keys(keys, n).len() == keys.take(n as int).filter(|k: Option<u64>| k is Some).len(),
    decreases n,
{
    reveal(Seq::filter);
    if n > 0 {
        lemma_given_length(keys, (n - 1) as nat);
        assert(keys.take(n as int).drop_last() =~= keys.take(n - 1));
    }
}

proof fn lemma_count_all(s: Seq<u64>)
    ensures
        count_sum(s, distinct(s), distinct(s).len()) == s.len(),
    decreases s.len(),
{
    if s.len() > 0 {
        let t = s.drop_last();
        let k = s.last();
        let d = distinct(t);
        lemma_count_all(t);
        lemma_distinct_unique(t);
        lemma_distinct_unique(s);
        lemma_count_step(s, distinct(s), distinct(s).len());
        if d.contains(k) {
            let at = choose|i: int| 0 <= i < d.len() && d[i] == k;
            assert(distinct(s)[at] == k);
        } else {
            lemma_count_front(t, d, k, d.len());
            assert(d.push(k)[d.len() as int] == k);
            lemma_occurrences(t, k);
        }
    }
}

proof fn lemma_count_step(s: Seq<u64>, d: Seq<u64>, n: nat)
    requires
        s.len() > 0,
        n <= d.len(),
        d.no_duplicates(),
    ensures
        count_sum(s, d, n) == count_sum(s.drop_last(), d, n) + if exists|i: int| 0 <= i < n && d[i] == s.last() {
            1nat
        } else {
            0nat
        },
    decreases n,
{
    if n > 0 {
        lemma_count_step(s, d, (n - 1) as nat);
        if d[n - 1] == s.last() {
            assert(!exists|i: int| 0 <= i < n - 1 && d[i] == s.last());
        } else if exists|i: int| 0 <= i < n && d[i] == s.last() {
            let i = choose|i: int| 0 <= i < n && d[i] == s.last();
            assert(0 <= i < n - 1 && d[i] == s.last());
        }
    }
}

proof fn lemma_count_front(s: Seq<u64>, d: Seq<u64>, k: u64, n: nat)
    requires
        n <= d.len(),
    ensures
        count_sum(s, d.push(k), n) == count_sum(s, d, n),
    decreases n,
{
    if n > 0 {
        lemma_count_front(s, d, k, (n - 1) as nat);
    }
}

} // verus!
