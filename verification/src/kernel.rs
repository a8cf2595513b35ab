//! Reductions and element-wise operations on columns with missing values.
//!
//! A column is a slice of `Option<Real>`; `None` is a missing value (NA). Each
//! operation runs on one of two backends, serially or on the thread pool; the
//! caller says on which.
use crate::double::{
    FloatOp, Fpu, Real, TWO_BITS, rounded, two,
};
use crate::kernel_par::{
    ScanOp, bracketed, fold_slice, folded, law_brackets_agree, law_extremes_associate,
    par_any, par_fold_slice, par_for_rayon, par_sort_pairs, all_in,
};
use crate::sort::{ascends, comes_first, permutes, preorder, sort_indices};
use vstd::prelude::*;

verus! {

/// Where an operation runs.
#[derive(Clone, Copy, PartialEq, Eq, Structural, Debug)]
pub enum Backend {
    Serial,
    Rayon,
}

/// Runs on the calling thread.
#[derive(Clone, Copy, Debug)]
pub struct SerialBackend;

/// Runs on the thread pool.
#[derive(Clone, Copy, Debug)]
pub struct RayonBackend;

#[derive(Clone, Copy, PartialEq, Eq, Structural, Debug)]
pub enum ReduceOp {
    Sum,
    Mean,
    Min,
    Max,
    Prod,
    Var,
    Sd,
    Median,
}

/// Some value is missing.
pub open spec fn has_na(d: Seq<Option<Real>>) -> bool {
    exists|i: int| 0 <= i < d.len() && #[trigger] d[i] is None
}

/// The values of a column in which none is missing.
pub open spec fn values(d: Seq<Option<Real>>) -> Seq<Real> {
    Seq::new(d.len(), |i: int| d[i]->0)
}

pub open spec fn free_of_nan(s: Seq<Real>) -> bool {
    forall|i: int| 0 <= i < s.len() ==> !(#[trigger] s[i]).nan()
}

/// No value that is there is a NaN.
pub open spec fn column_free_of_nan(d: Seq<Option<Real>>) -> bool {
    forall|i: int| 0 <= i < d.len() ==> !(#[trigger] d[i] matches Some(x) && x.nan())
}

/// The order of positions by their values.
pub open spec fn key_order(s: Seq<Real>) -> spec_fn(usize, usize) -> bool {
    |a: usize, b: usize| s[a as int].key() <= s[b as int].key()
}

/// `p` lists the positions of `s` in ascending order of the values, equal
/// values in the order of their positions.
pub open spec fn arranged(s: Seq<Real>, p: Seq<usize>) -> bool {
    permutes(p, s.len() as int) && ascends(key_order(s), p)
}

/// `v` is the value at rank `k`, counted from zero at the smallest.
pub open spec fn ranked(s: Seq<Real>, k: int, v: Real) -> bool {
    exists|p: Seq<usize>| #[trigger] arranged(s, p) && v == s[p[k] as int]
}

/// `m` is the middle value, or half the sum of the two middle values.
pub open spec fn median_is<F: Fn(FloatOp, Real, Real, Real) -> Real>(
    fpu: &Fpu<F>,
    s: Seq<Real>,
    m: Real,
) -> bool {
    if s.len() % 2 == 1 {
        ranked(s, s.len() as int / 2, m)
    } else {
        exists|lo: Real, hi: Real| #[trigger]
            ranked(s, s.len() as int / 2 - 1, lo) && #[trigger] ranked(s, s.len() as int / 2, hi)
                && m == fpu.over(fpu.plus(lo, hi), two())
    }
}

/// The squared distances from `mean`.
pub open spec fn deviations<F: Fn(FloatOp, Real, Real, Real) -> Real>(
    fpu: &Fpu<F>,
    s: Seq<Real>,
    mean: Real,
) -> Seq<Real> {
    Seq::new(s.len(), |i: int| fpu.square_diff(s[i], mean))
}

/// `v` is the total of `s`: from the left on one thread, under some bracketing
/// on the pool.
pub open spec fn totals<F: Fn(FloatOp, Real, Real, Real) -> Real>(
    fpu: &Fpu<F>,
    op: ScanOp,
    s: Seq<Real>,
    on: Backend,
    v: Real,
) -> bool {
    match on {
        Backend::Serial => v == folded(fpu, op, s),
        Backend::Rayon => bracketed(fpu, op, s, v),
    }
}

/// A total that is a NaN counts as missing where `nan_is_na` says so.
pub open spec fn known(v: Real, nan_is_na: bool) -> bool {
    !(nan_is_na && v.nan())
}

/// `r` is the reduction of values of which none is missing.
pub open spec fn reduces<F: Fn(FloatOp, Real, Real, Real) -> Real>(
    fpu: &Fpu<F>,
    op: ReduceOp,
    s: Seq<Real>,
    on: Backend,
    nan_is_na: bool,
    r: Option<Real>,
) -> bool {
    let n = rounded(s.len());
    match op {
        ReduceOp::Sum => exists|v: Real| #[trigger]
            totals(fpu, ScanOp::Cumsum, s, on, v) && r == (if known(v, nan_is_na) {
                Some(v)
            } else {
                None::<Real>
            }),
        ReduceOp::Prod => exists|v: Real| #[trigger]
            totals(fpu, ScanOp::Cumprod, s, on, v) && r == (if known(v, nan_is_na) {
                Some(v)
            } else {
                None::<Real>
            }),
        ReduceOp::Mean => if s.len() == 0 {
            r is None
        } else {
            exists|v: Real| #[trigger]
                totals(fpu, ScanOp::Cumsum, s, on, v) && r == (if known(v, nan_is_na) {
                    Some(fpu.over(v, n))
                } else {
                    None::<Real>
                })
        },
        ReduceOp::Min => if s.len() == 0 {
            r is None
        } else {
            r is Some && totals(fpu, ScanOp::Cummin, s, on, r->0)
        },
        ReduceOp::Max => if s.len() == 0 {
            r is None
        } else {
            r is Some && totals(fpu, ScanOp::Cummax, s, on, r->0)
        },
        ReduceOp::Var => if s.len() < 2 {
            r is None
        } else {
            spread(fpu, s, on, nan_is_na, false, r)
        },
        ReduceOp::Sd => if s.len() < 2 {
            r is None
        } else {
            spread(fpu, s, on, nan_is_na, true, r)
        },
        ReduceOp::Median => if s.len() == 0 {
            r is None
        } else {
            r is Some && median_is(fpu, s, r->0)
        },
    }
}

/// `r` is the reduction of a column; a missing value makes it missing. A total
/// that is a NaN comes back as missing from the thread pool only.
pub open spec fn column_reduced<F: Fn(FloatOp, Real, Real, Real) -> Real>(
    fpu: &Fpu<F>,
    op: ReduceOp,
    data: Seq<Option<Real>>,
    on: Backend,
    r: Option<Real>,
) -> bool {
    if has_na(data) {
        r is None
    } else {
        reduces(fpu, op, values(data), on, on == Backend::Rayon, r)
    }
}

/// `r` is the variance with `n - 1` below the line, or its square root.
pub open spec fn spread<F: Fn(FloatOp, Real, Real, Real) -> Real>(
    fpu: &Fpu<F>,
    s: Seq<Real>,
    on: Backend,
    nan_is_na: bool,
    root: bool,
    r: Option<Real>,
) -> bool {
    exists|sum: Real| #[trigger]
        totals(fpu, ScanOp::Cumsum, s, on, sum) && if known(sum, nan_is_na) {
            r is Some && spread_about(fpu, s, on, root, fpu.over(sum, rounded(s.len())), r->0)
        } else {
            r is None
        }
}

/// `v` is the variance about a given mean, or its square root.
pub open spec fn spread_about<F: Fn(FloatOp, Real, Real, Real) -> Real>(
    fpu: &Fpu<F>,
    s: Seq<Real>,
    on: Backend,
    root: bool,
    mean: Real,
    v: Real,
) -> bool {
    exists|ss: Real| #[trigger]
        totals(fpu, ScanOp::Cumsum, deviations(fpu, s, mean), on, ss) && v == {
            let var = fpu.over(ss, rounded((s.len() - 1) as nat));
            if root {
                fpu.sqrt(var)
            } else {
                var
            }
        }
}

/// Positions in ascending order of the values.
pub(crate) fn arrange(v: &[Real]) -> (p: Vec<usize>)
    ensures
        arranged(v@, p@),
{
    let n: usize = v.len();
    let f = |a: usize, b: usize| -> (r: bool)
        requires
            a < v@.len(),
            b < v@.len(),
        ensures
            r == (v@[a as int].key() <= v@[b as int].key()),
        { v[a].order_key() <= v[b].order_key() };
    let ghost rel = key_order(v@);
    assert(preorder(rel, n as int));
    sort_indices(n, &f, Ghost(rel))
}

/// Positions in ascending order of the values, sorted on the thread pool.
fn par_arrange(v: &[Real]) -> (p: Vec<usize>)
    ensures
        arranged(v@, p@),
{
    let n: usize = v.len();
    let f = |i: usize| -> (r: (i64, usize))
        requires
            i < v@.len(),
        ensures
            r.0 == v@[i as int].key(),
            r.1 == i,
        { (v[i].order_key(), i) };
    let mut pairs: Vec<(i64, usize)> = par_for_rayon(n, f);
    let ghost before = pairs@;
    assert forall|i: int| 0 <= i < n implies (#[trigger] before[i]).0 == v@[i].key() && before[i].1 == i by {
        assert(call_ensures(f, (i as usize,), before[i]));
    }
    par_sort_pairs(&mut pairs);
    let ghost after = pairs@;
    proof {
        broadcast use vstd::seq_lib::group_to_multiset_ensures;

        assert(before.no_duplicates());
        before.lemma_multiset_has_no_duplicates();
        after.lemma_multiset_has_no_duplicates_conv();
        assert forall|i: int| 0 <= i < n implies (#[trigger] after[i]).1 < n && after[i] == before[after[i].1 as int] by {
            assert(after.contains(after[i]));
            assert(after.to_multiset().count(after[i]) > 0);
            assert(before.contains(after[i]));
        }
        assert forall|k: usize| k < n implies after.contains(#[trigger] before[k as int]) by {
            assert(before.contains(before[k as int]));
            assert(before.to_multiset().count(before[k as int]) > 0);
        }
    }
    let mut p: Vec<usize> = Vec::new();
    let mut i: usize = 0;
    while i < pairs.len()
        invariant
            i <= pairs.len(),
            pairs@ == after,
            p@.len() == i,
            forall|k: int| 0 <= k < i ==> #[trigger] p@[k] == after[k].1,
        decreases pairs.len() - i,
    {
        p.push(pairs[i].1);
        i += 1;
    }
    proof {
        assert(p@.no_duplicates()) by {
            assert forall|a: int, b: int| 0 <= a < b < p@.len() implies p@[a] != p@[b] by {
                assert(after[a] != after[b]);
            }
        }
        assert forall|k: usize| #[trigger] p@.contains(k) <==> 0 <= k < n by {
            if p@.contains(k) {
                let w = choose|w: int| 0 <= w < p@.len() && p@[w] == k;
                assert(after[w].1 < n);
            }
            if k < n {
                assert(after.contains(before[k as int]));
                let w = choose|w: int| 0 <= w < after.len() && after[w] == before[k as int];
                assert(p@[w] == k);
            }
        }
        assert forall|a: int, b: int| 0 <= a < b < p@.len() implies comes_first(
            key_order(v@),
            #[trigger] p@[a],
            #[trigger] p@[b],
        ) by {
            assert(after[a] == before[p@[a] as int]);
            assert(after[b] == before[p@[b] as int]);
            assert(p@[a] != p@[b]);
        }
    }
    p
}

fn squares<F: Fn(FloatOp, Real, Real, Real) -> Real>(fpu: &Fpu<F>, v: &[Real], mean: Real) -> (r: Vec<Real>)
    requires
        fpu.wf(),
    ensures
        r@ == deviations(fpu, v@, mean),
{
    let mut r: Vec<Real> = Vec::new();
    let mut i: usize = 0;
    while i < v.len()
        invariant
            i <= v.len(),
            fpu.wf(),
            r@.len() == i,
            forall|k: int| 0 <= k < i ==> #[trigger] r@[k] == fpu.square_diff(v@[k], mean),
        decreases v.len() - i,
    {
        let d: Real = fpu.apply(FloatOp::Minus, v[i], mean);
        r.push(fpu.apply(FloatOp::Times, d, d));
        i += 1;
    }
    r
}

fn total<F: Fn(FloatOp, Real, Real, Real) -> Real + Sync>(
    fpu: &Fpu<F>,
    op: ScanOp,
    v: &[Real],
    on: Backend,
) -> (r: Real)
    requires
        fpu.wf(),
    ensures
        totals(fpu, op, v@, on, r),
{
    match on {
        Backend::Serial => fold_slice(fpu, op, v),
        Backend::Rayon => par_fold_slice(fpu, op, v),
    }
}

fn median<F: Fn(FloatOp, Real, Real, Real) -> Real>(fpu: &Fpu<F>, v: &[Real], p: &Vec<usize>) -> (r: Real)
    requires
        fpu.wf(),
        v@.len() > 0,
        arranged(v@, p@),
    ensures
        median_is(fpu, v@, r),
{
    let m: usize = v.len();
    proof {
        assert(p@.contains(p@[m as int / 2]));
    }
    let hi: Real = v[p[m / 2]];
    assert(ranked(v@, m as int / 2, hi));
    if m % 2 == 1 {
        hi
    } else {
        proof {
            assert(p@.contains(p@[m as int / 2 - 1]));
        }
        let lo: Real = v[p[m / 2 - 1]];
        assert(ranked(v@, m as int / 2 - 1, lo));
        let sum: Real = fpu.apply(FloatOp::Plus, lo, hi);
        fpu.apply(FloatOp::Over, sum, Real { bits: TWO_BITS })
    }
}

fn spread_of<F: Fn(FloatOp, Real, Real, Real) -> Real + Sync>(
    fpu: &Fpu<F>,
    v: &[Real],
    on: Backend,
    nan_is_na: bool,
    root: bool,
) -> (r: Option<Real>)
    requires
        fpu.wf(),
        2 <= v@.len(),
    ensures
        spread(fpu, v@, on, nan_is_na, root, r),
{
    let n: usize = v.len();
    let sum: Real = total(fpu, ScanOp::Cumsum, v, on);
    if nan_is_na && sum.is_nan() {
        return None;
    }
    let mean: Real = fpu.apply(FloatOp::Over, sum, Real::from_u64(n as u64));
    let sq: Vec<Real> = squares(fpu, v, mean);
    let ss: Real = total(fpu, ScanOp::Cumsum, sq.as_slice(), on);
    let var: Real = fpu.apply(FloatOp::Over, ss, Real::from_u64((n - 1) as u64));
    let r: Real = if root { fpu.apply1(FloatOp::Sqrt, var) } else { var };
    assert(totals(fpu, ScanOp::Cumsum, deviations(fpu, v@, mean), on, ss));
    assert(spread_about(fpu, v@, on, root, mean, r));
    Some(r)
}

/// Reduces values of which none is missing.
pub fn reduce_values<F: Fn(FloatOp, Real, Real, Real) -> Real + Sync>(
    fpu: &Fpu<F>,
    op: ReduceOp,
    v: &[Real],
    on: Backend,
    nan_is_na: bool,
) -> (r: Option<Real>)
    requires
        fpu.wf(),
        op == ReduceOp::Median ==> free_of_nan(v@),
    ensures
        reduces(fpu, op, v@, on, nan_is_na, r),
{
    let n: usize = v.len();
    match op {
        ReduceOp::Sum => {
            let s: Real = total(fpu, ScanOp::Cumsum, v, on);
            if nan_is_na && s.is_nan() {
                None
            } else {
                Some(s)
            }
        },
        ReduceOp::Prod => {
            let s: Real = total(fpu, ScanOp::Cumprod, v, on);
            if nan_is_na && s.is_nan() {
                None
            } else {
                Some(s)
            }
        },
        ReduceOp::Mean => {
            if n == 0 {
                return None;
            }
            let s: Real = total(fpu, ScanOp::Cumsum, v, on);
            if nan_is_na && s.is_nan() {
                None
            } else {
                Some(fpu.apply(FloatOp::Over, s, Real::from_u64(n as u64)))
            }
        },
        ReduceOp::Min => {
            if n == 0 {
                return None;
            }
            Some(total(fpu, ScanOp::Cummin, v, on))
        },
        ReduceOp::Max => {
            if n == 0 {
                return None;
            }
            Some(total(fpu, ScanOp::Cummax, v, on))
        },
        ReduceOp::Var | ReduceOp::Sd => {
            if n < 2 {
                return None;
            }
            spread_of(fpu, v, on, nan_is_na, op == ReduceOp::Sd)
        },
        ReduceOp::Median => {
            if n == 0 {
                return None;
            }
            let p: Vec<usize> = match on {
                Backend::Serial => arrange(v),
                Backend::Rayon => par_arrange(v),
            };
            Some(median(fpu, v, &p))
        },
    }
}

/// The values of a column, unless one is missing.
fn present_values(data: &[Option<Real>]) -> (r: Option<Vec<Real>>)
    ensures
        r is None <==> has_na(data@),
        r is Some ==> (r->0)@ == values(data@),
{
    let mut v: Vec<Real> = Vec::new();
    let mut i: usize = 0;
    while i < data.len()
        invariant
            i <= data.len(),
            v@.len() == i,
            forall|k: int| 0 <= k < i ==> data@[k] == Some(#[trigger] v@[k]),
        decreases data.len() - i,
    {
        match data[i] {
            Some(x) => v.push(x),
            None => {
                assert(data@[i as int] is None);
                return None;
            },
        }
        i += 1;
    }
    assert(v@ =~= values(data@));
    assert forall|k: int| 0 <= k < data@.len() implies #[trigger] data@[k] is Some by {
        assert(data@[k] == Some(v@[k]));
    }
    Some(v)
}

/// The values of a column, unless one is missing, read on the thread pool.
fn par_present_values(data: &[Option<Real>]) -> (r: Option<Vec<Real>>)
    ensures
        r is None <==> has_na(data@),
        r is Some ==> (r->0)@ == values(data@),
{
    let n: usize = data.len();
    let missing = |i: usize| -> (b: bool)
        requires
            i < data@.len(),
        ensures
            b == (data@[i as int] is None),
        { data[i].is_none() };
    if par_any(n, missing) {
        proof {
            let i = choose|i: usize| i < n && #[trigger] call_ensures(missing, (i,), true);
            assert(data@[i as int] is None);
        }
        return None;
    }
    assert forall|i: int| 0 <= i < n implies #[trigger] data@[i] is Some by {
        assert(call_ensures(missing, (i as usize,), false));
    }
    let value = |i: usize| -> (x: Real)
        requires
            i < data@.len(),
            data@[i as int] is Some,
        ensures
            x == data@[i as int]->0,
        { data[i].unwrap() };
    let v: Vec<Real> = par_for_rayon(n, value);
    assert(v@ =~= values(data@)) by {
        assert forall|i: int| 0 <= i < n implies #[trigger] v@[i] == data@[i]->0 by {
            assert(call_ensures(value, (i as usize,), v@[i]));
        }
    }
    Some(v)
}

/// A reduction of a column to one value.
pub trait ReduceBackend {
    /// Reduces a column; a missing value makes the result missing.
    fn reduce<F: Fn(FloatOp, Real, Real, Real) -> Real + Sync>(
        &self,
        fpu: &Fpu<F>,
        op: ReduceOp,
        data: &[Option<Real>],
    ) -> (r: Option<Real>)
        requires
            fpu.wf(),
            op == ReduceOp::Median ==> column_free_of_nan(data@),
        ensures
            has_na(data@) ==> r is None,
    ;
}

impl ReduceBackend for SerialBackend {
    fn reduce<F: Fn(FloatOp, Real, Real, Real) -> Real + Sync>(
        &self,
        fpu: &Fpu<F>,
        op: ReduceOp,
        data: &[Option<Real>],
    ) -> (r: Option<Real>)
        ensures
            column_reduced(fpu, op, data@, Backend::Serial, r),
    {
        match present_values(data) {
            None => None,
            Some(v) => {
                assert(op == ReduceOp::Median ==> free_of_nan(v@));
                reduce_values(fpu, op, v.as_slice(), Backend::Serial, false)
            },
        }
    }
}

impl ReduceBackend for RayonBackend {
    fn reduce<F: Fn(FloatOp, Real, Real, Real) -> Real + Sync>(
        &self,
        fpu: &Fpu<F>,
        op: ReduceOp,
        data: &[Option<Real>],
    ) -> (r: Option<Real>)
        ensures
            column_reduced(fpu, op, data@, Backend::Rayon, r),
    {
        match par_present_values(data) {
            None => None,
            Some(v) => {
                assert(op == ReduceOp::Median ==> free_of_nan(v@));
                reduce_values(fpu, op, v.as_slice(), Backend::Rayon, true)
            },
        }
    }
}

/// Reduces a column on the given backend. A total that is a NaN comes back as
/// missing from the thread pool, and as a NaN from the serial backend.
pub fn reduce<F: Fn(FloatOp, Real, Real, Real) -> Real + Sync>(
    fpu: &Fpu<F>,
    op: ReduceOp,
    data: &[Option<Real>],
    on: Backend,
) -> (r: Option<Real>)
    requires
        fpu.wf(),
        op == ReduceOp::Median ==> column_free_of_nan(data@),
    ensures
        column_reduced(fpu, op, data@, on, r),
{
    match on {
        Backend::Serial => SerialBackend.reduce(fpu, op, data),
        Backend::Rayon => RayonBackend.reduce(fpu, op, data),
    }
}

/// The smallest and the largest value of a column without a NaN are the same on
/// both backends.
pub proof fn law_backends_agree_on_extremes<F: Fn(FloatOp, Real, Real, Real) -> Real>(
    fpu: &Fpu<F>,
    op: ReduceOp,
    s: Seq<Real>,
    a: Option<Real>,
    b: Option<Real>,
)
    requires
        op == ReduceOp::Min || op == ReduceOp::Max,
        free_of_nan(s),
        reduces(fpu, op, s, Backend::Serial, false, a),
        reduces(fpu, op, s, Backend::Rayon, true, b),
    ensures
        a == b,
{
    let scan = if op == ReduceOp::Min {
        ScanOp::Cummin
    } else {
        ScanOp::Cummax
    };
    if s.len() > 0 {
        let dom = |x: Real| !x.nan();
        law_extremes_associate(fpu, scan);
        assert(all_in(dom, s));
        law_brackets_agree(fpu, scan, dom, s, b->0);
    }
}

/// The median is the same on both backends.
pub proof fn law_backends_agree_on_median<F: Fn(FloatOp, Real, Real, Real) -> Real>(
    fpu: &Fpu<F>,
    s: Seq<Real>,
    a: Option<Real>,
    b: Option<Real>,
)
    requires
        reduces(fpu, ReduceOp::Median, s, Backend::Serial, false, a),
        reduces(fpu, ReduceOp::Median, s, Backend::Rayon, true, b),
    ensures
        a == b,
{
    if s.len() > 0 {
        lemma_one_per_rank(s);
    }
}

proof fn lemma_one_per_rank(s: Seq<Real>)
    ensures
        forall|k: int, x: Real, y: Real| #[trigger] ranked(s, k, x) && #[trigger] ranked(s, k, y) ==> x == y,
{
    assert forall|k: int, x: Real, y: Real| #[trigger] ranked(s, k, x) && #[trigger] ranked(s, k, y) implies x == y by {
        let p = choose|p: Seq<usize>| #[trigger] arranged(s, p) && x == s[p[k] as int];
        let q = choose|q: Seq<usize>| #[trigger] arranged(s, q) && y == s[q[k] as int];
        crate::sort::law_order_unique(key_order(s), p, q, s.len() as int);
    }
}

/// On one thread the reduction of a column is determined by its values.
pub proof fn law_serial_determined<F: Fn(FloatOp, Real, Real, Real) -> Real>(
    fpu: &Fpu<F>,
    op: ReduceOp,
    data: Seq<Option<Real>>,
    a: Option<Real>,
    b: Option<Real>,
)
    requires
        column_reduced(fpu, op, data, Backend::Serial, a),
        column_reduced(fpu, op, data, Backend::Serial, b),
    ensures
        a == b,
{
    lemma_one_per_rank(values(data));
}

} // verus!
