//! What the column kernels are for, said of their results and not of how they
//! come about.
use crate::double::{FloatOp, Fpu, INF, NEG_INF, Real, nat_real, num, one, rounded, two, zero};
use crate::exact::{
    Exact, exact, law_product, law_total, lemma_cancel_factor, lemma_count, lemma_minus, lemma_negated, lemma_nil,
    lemma_ops, lemma_sum_first, lemma_sum_same, lemma_swap,
};
use crate::grid::total;
use crate::kernel::{Backend, ReduceOp, deviations, free_of_nan, has_na, reduces, spread, spread_about, totals, values};
use crate::kernel_distance::{DistanceOp, distance_over, first_squares, gaps, products, second_squares, square_gaps};
use crate::kernel_hash::{AggOp, aggregate};
use crate::kernel_map::{BinaryOp, MapOp, TernaryOp, binop_value, op_value, ternop_value};
use crate::kernel_par::{ScanOp, combined, folded, folded_from};
use crate::kernel_rolling::{RollingOp, as_good, lead, picks, rolls, slide};
use crate::kernel_scan::{clear, serial_scan};
use crate::value::present;
use vstd::prelude::*;

verus! {

/// The value is a square.
pub open spec fn has_root(e: Exact, a: int) -> bool {
    exists|q: int| #[trigger] e.square(q) == a
}

/// The square root of what is a square, squared, gives it back.
pub open spec fn takes_roots<F: Fn(FloatOp, Real, Real, Real) -> Real>(fpu: &Fpu<F>, e: Exact) -> bool {
    forall|x: Real| has_root(e, e.v(x)) ==> e.square(e.v(#[trigger] fpu.sqrt(x))) == e.v(x)
}

/// The spread of numbers about `m` is a square: of some deviation.
pub open spec fn has_deviation(e: Exact, s: Seq<Real>, m: int) -> bool {
    exists|q: int| e.times(#[trigger] e.square(q), e.count((s.len() - 1) as nat)) == squares_about(e, s, m)
}

/// The sum of the squared distances from `m`.
pub open spec fn squares_about(e: Exact, s: Seq<Real>, m: int) -> int {
    e.sum(|i: int| e.square(e.minus(e.v(s[i]), m)), 0, s.len() as int)
}

/// `m` is the mean: as many times as there are numbers, it makes their sum.
pub open spec fn is_mean(e: Exact, s: Seq<Real>, m: int) -> bool {
    e.times(m, e.count(s.len())) == e.sum(e.at(s), 0, s.len() as int)
}

proof fn lemma_deviations<F: Fn(FloatOp, Real, Real, Real) -> Real>(fpu: &Fpu<F>, e: Exact, s: Seq<Real>, m: Real)
    requires
        exact(fpu, e),
    ensures
        e.v(total(fpu, deviations(fpu, s, m))) == squares_about(e, s, e.v(m)),
{
    lemma_ops(fpu, e);
    let d = deviations(fpu, s, m);
    law_total(fpu, e, d);
    lemma_sum_same(e, e.at(d), |i: int| e.square(e.minus(e.v(s[i]), e.v(m))), 0, s.len() as int);
}

// ── Reductions ─────────────────────────────────────────────────────────────

/// The sum, the product and the mean of numbers.
pub proof fn law_sums<F: Fn(FloatOp, Real, Real, Real) -> Real>(
    fpu: &Fpu<F>,
    e: Exact,
    op: ReduceOp,
    s: Seq<Real>,
    r: Option<Real>,
)
    requires
        exact(fpu, e),
        0 < s.len() < 0x20_0000_0000_0000,
        e.count(s.len()) != e.zero,
        reduces(fpu, op, s, Backend::Serial, false, r),
    ensures
        op is Sum ==> r is Some && e.v(r->0) == e.sum(e.at(s), 0, s.len() as int),
        op is Prod ==> r is Some && e.v(r->0) == e.product(e.at(s), 0, s.len() as int),
        op is Mean ==> r is Some && is_mean(e, s, e.v(r->0)),
{
    lemma_ops(fpu, e);
    law_total(fpu, e, s);
    law_product(fpu, e, s);
    lemma_count(fpu, e, s.len());
}

/// The variance, as often as there are degrees of freedom, is the sum of the
/// squared distances from the mean; the standard deviation's square is the
/// variance.
pub proof fn law_spread<F: Fn(FloatOp, Real, Real, Real) -> Real>(
    fpu: &Fpu<F>,
    e: Exact,
    op: ReduceOp,
    s: Seq<Real>,
    r: Option<Real>,
    m: int,
)
    requires
        exact(fpu, e),
        takes_roots(fpu, e),
        2 <= s.len() < 0x20_0000_0000_0000,
        e.count(s.len()) != e.zero,
        e.count((s.len() - 1) as nat) != e.zero,
        is_mean(e, s, m),
        op is Var || op is Sd,
        op is Sd ==> has_deviation(e, s, m),
        reduces(fpu, op, s, Backend::Serial, false, r),
    ensures
        r is Some,
        op is Var ==> e.times(e.v(r->0), e.count((s.len() - 1) as nat)) == squares_about(e, s, m),
        op is Sd ==> e.times(e.square(e.v(r->0)), e.count((s.len() - 1) as nat)) == squares_about(e, s, m),
{
    lemma_ops(fpu, e);
    law_total(fpu, e, s);
    lemma_count(fpu, e, s.len());
    lemma_count(fpu, e, (s.len() - 1) as nat);
    let sum = total(fpu, s);
    let mean = fpu.over(sum, rounded(s.len()));
    lemma_cancel_factor(e, e.v(mean), m, e.count(s.len()));
    lemma_deviations(fpu, e, s, mean);
    assert(spread_about(fpu, s, Backend::Serial, op is Sd, mean, r->0));
    let var = fpu.over(total(fpu, deviations(fpu, s, mean)), rounded((s.len() - 1) as nat));
    assert(e.times(e.v(var), e.count((s.len() - 1) as nat)) == squares_about(e, s, m));
    if op is Sd {
        let q = choose|q: int|
            e.times(#[trigger] e.square(q), e.count((s.len() - 1) as nat)) == squares_about(e, s, m);
        lemma_cancel_factor(e, e.square(q), e.v(var), e.count((s.len() - 1) as nat));
        assert(has_root(e, e.v(var)));
        assert(e.square(e.v(fpu.sqrt(var))) == e.v(var));
    }
}

proof fn lemma_extreme<F: Fn(FloatOp, Real, Real, Real) -> Real>(fpu: &Fpu<F>, s: Seq<Real>, most: bool)
    requires
        free_of_nan(s),
    ensures
        ({
            let r = folded(
                fpu,
                if most {
                    ScanOp::Cummax
                } else {
                    ScanOp::Cummin
                },
                s,
            );
            &&& !r.nan()
            &&& s.len() > 0 ==> s.contains(r)
            &&& s.len() == 0 ==> r == num(
                if most {
                    NEG_INF
                } else {
                    INF
                },
            )
            &&& forall|i: int|
                0 <= i < s.len() ==> if most {
                    (#[trigger] s[i]).key() <= r.key()
                } else {
                    r.key() <= s[i].key()
                }
        }),
    decreases s.len(),
{
    if s.len() > 0 {
        let t = s.drop_last();
        assert forall|i: int| 0 <= i < t.len() implies !(#[trigger] t[i]).nan() by {
            assert(!s[i].nan());
        }
        lemma_extreme(fpu, t, most);
        let op = if most {
            ScanOp::Cummax
        } else {
            ScanOp::Cummin
        };
        let p = folded(fpu, op, t);
        let x = s.last();
        assert(!s[s.len() - 1].nan());
        let r = folded(fpu, op, s);
        assert(r == combined(fpu, op, p, x));
        assert forall|i: int| 0 <= i < s.len() implies if most {
            (#[trigger] s[i]).key() <= r.key()
        } else {
            r.key() <= s[i].key()
        } by {
            if i < t.len() {
                assert(s[i] == t[i]);
            }
        }
        if r != x {
            if t.len() == 0 {
                assert(x == r);
            } else {
                let k = choose|k: int| 0 <= k < t.len() && t[k] == p;
                assert(s[k] == r);
            }
        } else {
            assert(s[s.len() - 1] == r);
        }
    }
}

/// The minimum is one of the numbers and none comes before it; the maximum is
/// one of them and none comes after it.
pub proof fn law_extremes<F: Fn(FloatOp, Real, Real, Real) -> Real>(
    fpu: &Fpu<F>,
    op: ReduceOp,
    s: Seq<Real>,
    r: Option<Real>,
)
    requires
        free_of_nan(s),
        s.len() > 0,
        op is Min || op is Max,
        reduces(fpu, op, s, Backend::Serial, false, r),
    ensures
        r is Some,
        s.contains(r->0),
        op is Min ==> forall|i: int| 0 <= i < s.len() ==> (r->0).key() <= (#[trigger] s[i]).key(),
        op is Max ==> forall|i: int| 0 <= i < s.len() ==> (#[trigger] s[i]).key() <= (r->0).key(),
{
    lemma_extreme(fpu, s, op is Max);
}

// ── Windows ────────────────────────────────────────────────────────────────

proof fn lemma_window(d: Seq<Option<Real>>, w: int)
    requires
        0 <= w <= d.len(),
        !has_na(d.take(w)),
    ensures
        present(d.take(w)) == values(d.take(w)),
    decreases w,
{
    if w > 0 {
        let t = d.take(w);
        assert(t[w - 1] is Some);
        assert(t.drop_last() =~= d.take(w - 1));
        assert forall|i: int| 0 <= i < w - 1 implies #[trigger] d.take(w - 1)[i] is Some by {
            assert(t[i] is Some);
        }
        lemma_window(d, w - 1);
        assert(values(t) =~= values(d.take(w - 1)).push(t[w - 1]->0));
    } else {
        assert(present(d.take(0)) =~= values(d.take(0)));
    }
}

/// The sum that slides along a column without missing cells is the sum of the
/// window that it has come to.
proof fn lemma_slide<F: Fn(FloatOp, Real, Real, Real) -> Real>(
    fpu: &Fpu<F>,
    e: Exact,
    d: Seq<Option<Real>>,
    w: int,
    i: nat,
)
    requires
        exact(fpu, e),
        0 < w,
        i + w <= d.len(),
        !has_na(d),
    ensures
        e.v(slide(fpu, d, w, i)) == e.sum(|j: int| e.v(d[j]->0), i as int, (i + w) as int),
    decreases i,
{
    lemma_ops(fpu, e);
    let f = |j: int| e.v(d[j]->0);
    if i == 0 {
        let t = d.take(w);
        assert forall|j: int| 0 <= j < w implies #[trigger] t[j] is Some by {
            assert(d[j] is Some);
        }
        lemma_window(d, w);
        law_total(fpu, e, values(t));
        lemma_sum_same(e, e.at(values(t)), f, 0, w);
    } else {
        lemma_slide(fpu, e, d, w, (i - 1) as nat);
        assert(d[i - 1] is Some);
        assert(d[i - 1 + w] is Some);
        let s = e.sum(f, i - 1, i - 1 + w);
        lemma_sum_first(e, f, i - 1, i - 1 + w);
        lemma_swap(e, f(i - 1), e.sum(f, i as int, i - 1 + w));
        lemma_minus(e, e.sum(f, i as int, i - 1 + w), f(i - 1));
    }
}

/// A rolling sum is the sum of its window, and a rolling mean is its mean.
pub proof fn law_rolling_sums<F: Fn(FloatOp, Real, Real, Real) -> Real>(
    fpu: &Fpu<F>,
    e: Exact,
    op: RollingOp,
    d: Seq<Option<Real>>,
    w: nat,
    i: nat,
    r: Option<Real>,
)
    requires
        exact(fpu, e),
        0 < w < 0x20_0000_0000_0000,
        i + w <= d.len(),
        !has_na(d),
        e.count(w) != e.zero,
        rolls(fpu, op, d, w as int, i as int, r),
    ensures
        op is Sum ==> r is Some && e.v(r->0) == e.sum(|j: int| e.v(d[j]->0), i as int, (i + w) as int),
        op is Mean ==> r is Some && e.times(e.v(r->0), e.count(w)) == e.sum(|j: int| e.v(d[j]->0), i as int, (i + w) as int),
{
    let win = d.subrange(i as int, (i + w) as int);
    assert forall|j: int| 0 <= j < win.len() implies #[trigger] win[j] is Some by {
        assert(d[i + j] is Some);
    }
    lemma_ops(fpu, e);
    lemma_slide(fpu, e, d, w as int, i);
    lemma_count(fpu, e, w);
}

/// A rolling deviation is the serial reduction of its window to a standard
/// deviation; a window of one number has none.
pub proof fn law_rolling_deviation<F: Fn(FloatOp, Real, Real, Real) -> Real>(
    fpu: &Fpu<F>,
    d: Seq<Option<Real>>,
    w: nat,
    i: nat,
    r: Option<Real>,
)
    requires
        0 < w,
        i + w <= d.len(),
        !has_na(d.subrange(i as int, (i + w) as int)),
        rolls(fpu, RollingOp::Sd, d, w as int, i as int, r),
    ensures
        reduces(fpu, ReduceOp::Sd, values(d.subrange(i as int, (i + w) as int)), Backend::Serial, false, r),
{
    let s = values(d.subrange(i as int, (i + w) as int));
    assert(s.len() == w);
    if w >= 2 {
        let sum = folded(fpu, ScanOp::Cumsum, s);
        let mean = fpu.over(sum, rounded(s.len()));
        let ss = folded(fpu, ScanOp::Cumsum, deviations(fpu, s, mean));
        assert(totals(fpu, ScanOp::Cumsum, s, Backend::Serial, sum));
        assert(totals(fpu, ScanOp::Cumsum, deviations(fpu, s, mean), Backend::Serial, ss));
        assert(spread_about(fpu, s, Backend::Serial, true, mean, r->0));
        assert(spread(fpu, s, Backend::Serial, false, true, r));
    }
}

/// A rolling deviation squared, as often as there are degrees of freedom, is
/// the sum of the squared distances from the mean of its window.
pub proof fn law_rolling_spread<F: Fn(FloatOp, Real, Real, Real) -> Real>(
    fpu: &Fpu<F>,
    e: Exact,
    d: Seq<Option<Real>>,
    w: nat,
    i: nat,
    r: Option<Real>,
    m: int,
)
    requires
        exact(fpu, e),
        takes_roots(fpu, e),
        2 <= w < 0x20_0000_0000_0000,
        i + w <= d.len(),
        !has_na(d.subrange(i as int, (i + w) as int)),
        e.count(w) != e.zero,
        e.count((w - 1) as nat) != e.zero,
        is_mean(e, values(d.subrange(i as int, (i + w) as int)), m),
        has_deviation(e, values(d.subrange(i as int, (i + w) as int)), m),
        rolls(fpu, RollingOp::Sd, d, w as int, i as int, r),
    ensures
        r is Some,
        e.times(e.square(e.v(r->0)), e.count((w - 1) as nat)) == squares_about(
            e,
            values(d.subrange(i as int, (i + w) as int)),
            m,
        ),
{
    law_rolling_deviation(fpu, d, w, i, r);
    law_spread(fpu, e, ReduceOp::Sd, values(d.subrange(i as int, (i + w) as int)), r, m);
}

/// A rolling extreme is one of the numbers of its window, and none of them
/// comes beyond it.
pub proof fn law_rolling_extremes<F: Fn(FloatOp, Real, Real, Real) -> Real>(
    fpu: &Fpu<F>,
    op: RollingOp,
    d: Seq<Option<Real>>,
    w: nat,
    i: nat,
    r: Option<Real>,
)
    requires
        0 < w,
        i + w <= d.len(),
        !has_na(d.subrange(i as int, (i + w) as int)),
        free_of_nan(values(d.subrange(i as int, (i + w) as int))),
        op is Max || op is Min,
        rolls(fpu, op, d, w as int, i as int, r),
    ensures
        r is Some,
        ({
            let s = values(d.subrange(i as int, (i + w) as int));
            &&& s.contains(r->0)
            &&& op is Max ==> forall|j: int| 0 <= j < s.len() ==> (#[trigger] s[j]).key() <= (r->0).key()
            &&& op is Min ==> forall|j: int| 0 <= j < s.len() ==> (r->0).key() <= (#[trigger] s[j]).key()
        }),
{
    let s = values(d.subrange(i as int, (i + w) as int));
    lemma_lead_all(s);
    let p = choose|p: int| #[trigger] picks(s, op is Max, p) && r->0 == s[p];
    assert(s[p] == r->0);
    assert(!s[p].nan());
    assert forall|j: int| 0 <= j < s.len() implies if op is Max {
        (#[trigger] s[j]).key() <= (r->0).key()
    } else {
        (r->0).key() <= s[j].key()
    } by {
        assert(!s[j].nan());
        if j < p {
            assert(as_good(s[p], s[j], op is Max));
        } else if j > p {
            assert(!as_good(s[j], s[p], op is Max));
        }
    }
}

proof fn lemma_lead_all(s: Seq<Real>)
    requires
        free_of_nan(s),
    ensures
        lead(s) == s.len(),
    decreases s.len(),
{
    if s.len() > 0 {
        assert(!s[0].nan());
        let t = s.drop_first();
        assert forall|i: int| 0 <= i < t.len() implies !(#[trigger] t[i]).nan() by {
            assert(!s[i + 1].nan());
        }
        lemma_lead_all(t);
    }
}

// ── Running totals ─────────────────────────────────────────────────────────

/// Each running total is the one before it with one more cell, and the last
/// one is the total of the column.
pub proof fn law_running<F: Fn(FloatOp, Real, Real, Real) -> Real>(
    fpu: &Fpu<F>,
    e: Exact,
    op: ScanOp,
    d: Seq<Option<Real>>,
    i: int,
)
    requires
        exact(fpu, e),
        0 < i < d.len(),
        !has_na(d),
    ensures
        ({
            let s = serial_scan(fpu, op, d);
            &&& s[i] is Some && s[i - 1] is Some
            &&& op is Cumsum ==> e.v(s[i]->0) == e.plus(e.v(s[i - 1]->0), e.v(d[i]->0))
            &&& op is Cumprod ==> e.v(s[i]->0) == e.times(e.v(s[i - 1]->0), e.v(d[i]->0))
            &&& e.v(s[0]->0) == if op is Cumsum || op is Cumprod {
                e.v(d[0]->0)
            } else {
                e.v(s[0]->0)
            }
            &&& s[d.len() - 1] == Some(folded(fpu, op, values(d)))
        }),
{
    lemma_ops(fpu, e);
    assert forall|k: int| 0 <= k < d.len() implies #[trigger] d[k] is Some by {}
    let a = values(d.subrange(0, i));
    let b = values(d.subrange(0, i + 1));
    assert(b.drop_last() =~= a);
    assert(b.last() == d[i]->0);
    let f = values(d.subrange(0, 1));
    assert(f.drop_last() =~= Seq::<Real>::empty());
    assert(f.last() == d[0]->0);
    reveal_with_fuel(folded_from, 2);
    lemma_nil(e, e.v(d[0]->0));
    assert(d.subrange(0, d.len() as int) =~= d);
    assert(clear(d, i + 1) && clear(d, i) && clear(d, 1) && clear(d, d.len() as int));
}

/// A running extreme never turns back, and reaches every cell.
pub proof fn law_running_extremes<F: Fn(FloatOp, Real, Real, Real) -> Real>(
    fpu: &Fpu<F>,
    op: ScanOp,
    d: Seq<Option<Real>>,
    i: int,
    j: int,
)
    requires
        0 <= j <= i < d.len(),
        !has_na(d),
        free_of_nan(values(d)),
    ensures
        ({
            let s = serial_scan(fpu, op, d);
            &&& s[i] is Some
            &&& op is Cummax ==> (d[j]->0).key() <= (s[i]->0).key()
            &&& op is Cummin ==> (s[i]->0).key() <= (d[j]->0).key()
            &&& op is Cummax || op is Cummin ==> values(d.subrange(0, i + 1)).contains(s[i]->0)
        }),
{
    let b = values(d.subrange(0, i + 1));
    assert forall|k: int| 0 <= k < b.len() implies !(#[trigger] b[k]).nan() by {
        assert(!values(d)[k].nan());
    }
    assert forall|k: int| 0 <= k < d.len() implies #[trigger] d[k] is Some by {}
    lemma_extreme(fpu, b, op is Cummax);
    assert(b[j] == d[j]->0);
    assert(clear(d, i + 1));
}

// ── Groups ─────────────────────────────────────────────────────────────────

/// What is made of a group: its sum, its mean, how many there are, and its
/// extremes.
pub proof fn law_aggregates<F: Fn(FloatOp, Real, Real, Real) -> Real>(fpu: &Fpu<F>, e: Exact, s: Seq<Real>)
    requires
        exact(fpu, e),
        0 < s.len() < 0x20_0000_0000_0000,
        e.count(s.len()) != e.zero,
    ensures
        e.v(aggregate(fpu, AggOp::Sum, s)) == e.sum(e.at(s), 0, s.len() as int),
        is_mean(e, s, e.v(aggregate(fpu, AggOp::Mean, s))),
        e.v(aggregate(fpu, AggOp::Count, s)) == e.count(s.len()),
        free_of_nan(s) ==> s.contains(aggregate(fpu, AggOp::Min, s)) && s.contains(aggregate(fpu, AggOp::Max, s)),
        free_of_nan(s) ==> forall|i: int|
            0 <= i < s.len() ==> aggregate(fpu, AggOp::Min, s).key() <= (#[trigger] s[i]).key() <= aggregate(
                fpu,
                AggOp::Max,
                s,
            ).key(),
{
    lemma_ops(fpu, e);
    law_total(fpu, e, s);
    lemma_count(fpu, e, s.len());
    if free_of_nan(s) {
        lemma_extreme(fpu, s, true);
        lemma_extreme(fpu, s, false);
    }
}

// ── Distances ──────────────────────────────────────────────────────────────

/// The square of the Euclidean distance is the sum of the squared differences;
/// the Manhattan distance adds up differences or their opposites; and one less
/// the cosine distance, times the lengths of both points, is the sum of the
/// products of their coordinates.
pub proof fn law_distances<F: Fn(FloatOp, Real, Real, Real) -> Real>(
    fpu: &Fpu<F>,
    e: Exact,
    op: DistanceOp,
    s: Seq<(Real, Real)>,
    d: Real,
)
    requires
        exact(fpu, e),
        takes_roots(fpu, e),
        distance_over(fpu, op, s) == Some(d),
        op is Euclidean ==> has_root(
            e,
            e.sum(|i: int| e.square(e.minus(e.v(s[i].0), e.v(s[i].1))), 0, s.len() as int),
        ),
        op is Cosine ==> has_root(e, e.sum(|i: int| e.square(e.v(s[i].0)), 0, s.len() as int)) && has_root(
            e,
            e.sum(|i: int| e.square(e.v(s[i].1)), 0, s.len() as int),
        ),
    ensures
        op is Euclidean ==> e.square(e.v(d)) == e.sum(
            |i: int| e.square(e.minus(e.v(s[i].0), e.v(s[i].1))),
            0,
            s.len() as int,
        ),
        op is Manhattan ==> exists|t: spec_fn(int) -> int| #[trigger]
            signed_gaps(e, s, t) && e.v(d) == e.sum(t, 0, s.len() as int),
        op is Cosine ==> exists|x: int, y: int|
            #![trigger e.times(x, y)]
            e.square(x) == e.sum(|i: int| e.square(e.v(s[i].0)), 0, s.len() as int) && e.square(y) == e.sum(
                |i: int| e.square(e.v(s[i].1)),
                0,
                s.len() as int,
            ) && (e.times(x, y) != e.zero ==> e.times(e.minus(e.one, e.v(d)), e.times(x, y)) == e.sum(
                |i: int| e.times(e.v(s[i].0), e.v(s[i].1)),
                0,
                s.len() as int,
            )),
{
    lemma_ops(fpu, e);
    let n = s.len() as int;
    match op {
        DistanceOp::Euclidean => {
            let g = square_gaps(fpu, s);
            law_total(fpu, e, g);
            lemma_sum_same(e, e.at(g), |i: int| e.square(e.minus(e.v(s[i].0), e.v(s[i].1))), 0, n);
            assert(e.square(e.v(fpu.sqrt(total(fpu, g)))) == e.v(total(fpu, g)));
        },
        DistanceOp::Manhattan => {
            let g = gaps(fpu, s);
            law_total(fpu, e, g);
            let t = e.at(g);
            assert forall|i: int| 0 <= i < n implies signed_gap(e, s[i], #[trigger] t(i)) by {
                let x = fpu.minus(s[i].0, s[i].1);
                lemma_negated(fpu, e, x);
                assert(x.absolute() == x || x.absolute() == x.negated());
            }
            assert(signed_gaps(e, s, t));
        },
        DistanceOp::Cosine => {
            let p = products(fpu, s);
            let a = first_squares(fpu, s);
            let b = second_squares(fpu, s);
            law_total(fpu, e, p);
            law_total(fpu, e, a);
            law_total(fpu, e, b);
            lemma_sum_same(e, e.at(p), |i: int| e.times(e.v(s[i].0), e.v(s[i].1)), 0, n);
            lemma_sum_same(e, e.at(a), |i: int| e.square(e.v(s[i].0)), 0, n);
            lemma_sum_same(e, e.at(b), |i: int| e.square(e.v(s[i].1)), 0, n);
            let ra = fpu.sqrt(total(fpu, a));
            let rb = fpu.sqrt(total(fpu, b));
            let x = e.v(ra);
            let y = e.v(rb);
            assert(e.square(x) == e.v(total(fpu, a)));
            assert(e.square(y) == e.v(total(fpu, b)));
            let q = fpu.over(total(fpu, p), fpu.times(ra, rb));
            assert(d == fpu.minus(one(), q));
            lemma_undo(e, e.one, e.v(q));
            assert(e.times(x, y) == e.v(fpu.times(ra, rb)));
        },
    }
}

/// Taking away what is left leaves what was taken.
proof fn lemma_undo(e: Exact, a: int, b: int)
    requires
        e.field(),
    ensures
        e.minus(a, e.minus(a, b)) == b,
{
    lemma_minus(e, b, a);
    lemma_minus(e, a, b);
    lemma_minus(e, e.minus(b, a), a);
    lemma_swap(e, a, e.minus(b, a));
    assert(e.opposite(e.minus(a, b)) == e.minus(b, a));
}

/// `t` is the difference of a pair or its opposite.
pub open spec fn signed_gap(e: Exact, p: (Real, Real), t: int) -> bool {
    t == e.minus(e.v(p.0), e.v(p.1)) || t == e.opposite(e.minus(e.v(p.0), e.v(p.1)))
}

pub open spec fn signed_gaps(e: Exact, s: Seq<(Real, Real)>, t: spec_fn(int) -> int) -> bool {
    forall|i: int| 0 <= i < s.len() ==> signed_gap(e, s[i], #[trigger] t(i))
}

// ── Cells ──────────────────────────────────────────────────────────────────

/// Arithmetic on cells: adding undoes subtracting, multiplying undoes dividing.
pub proof fn law_cells<F: Fn(FloatOp, Real, Real, Real) -> Real>(fpu: &Fpu<F>, e: Exact, a: Real, b: Real)
    requires
        exact(fpu, e),
    ensures
        e.v(binop_value(fpu, BinaryOp::Add, a, b)) == e.plus(e.v(a), e.v(b)),
        e.v(binop_value(fpu, BinaryOp::Mul, a, b)) == e.times(e.v(a), e.v(b)),
        e.v(binop_value(fpu, BinaryOp::Add, binop_value(fpu, BinaryOp::Sub, a, b), b)) == e.v(a),
        e.v(b) != e.zero ==> e.v(binop_value(fpu, BinaryOp::Mul, binop_value(fpu, BinaryOp::Div, a, b), b)) == e.v(a),
{
    lemma_ops(fpu, e);
    lemma_minus(e, e.v(a), e.v(b));
}

/// What the supplied functions are to each other: inverses, an odd and an even
/// one, quotients, and powers.
pub open spec fn elementary<F: Fn(FloatOp, Real, Real, Real) -> Real>(fpu: &Fpu<F>) -> bool {
    &&& forall|x: Real| fpu.value1(FloatOp::Ln, #[trigger] fpu.value1(FloatOp::Exp, x)) == x
    &&& forall|x: Real| fpu.value1(FloatOp::Log1p, #[trigger] fpu.value1(FloatOp::Expm1, x)) == x
    &&& forall|x: Real| fpu.value1(FloatOp::Sin, #[trigger] fpu.value1(FloatOp::Asin, x)) == x
    &&& forall|x: Real| fpu.value1(FloatOp::Cos, #[trigger] fpu.value1(FloatOp::Acos, x)) == x
    &&& forall|x: Real| fpu.value1(FloatOp::Tan, #[trigger] fpu.value1(FloatOp::Atan, x)) == x
    &&& forall|x: Real| fpu.over(fpu.value1(FloatOp::Sin, x), fpu.value1(FloatOp::Cos, x)) == #[trigger] fpu.value1(
        FloatOp::Tan,
        x,
    )
    &&& forall|x: Real| fpu.over(fpu.value1(FloatOp::Sinh, x), fpu.value1(FloatOp::Cosh, x)) == #[trigger] fpu.value1(
        FloatOp::Tanh,
        x,
    )
    &&& forall|x: Real| fpu.value2(FloatOp::Power, two(), #[trigger] fpu.value1(FloatOp::Log2, x)) == x
    &&& forall|x: Real| fpu.value2(FloatOp::Power, nat_real(10), #[trigger] fpu.value1(FloatOp::Log10, x)) == x
    &&& forall|x: Real| fpu.times(#[trigger] fpu.sqrt(x), fpu.sqrt(x)) == x
    &&& forall|x: Real, y: Real, z: Real| #[trigger]
        fpu.value(FloatOp::MulAdd, x, y, z) == fpu.plus(fpu.times(x, y), z)
    &&& forall|x: Real| #[trigger] fpu.value2(FloatOp::Power, x, one()) == x
}

/// Maps are to each other what the supplied functions are: `ln` undoes `exp`,
/// `log1p` undoes `expm1`, `sin`, `cos` and `tan` undo their inverses, the
/// tangents are quotients, the logarithms are exponents of two and ten, and the
/// square root squares to its argument; the sign changes, is dropped or is
/// asked for.
pub proof fn law_maps<F: Fn(FloatOp, Real, Real, Real) -> Real>(fpu: &Fpu<F>, x: Real, y: Real, z: Real)
    requires
        elementary(fpu),
    ensures
        op_value(fpu, MapOp::Ln, op_value(fpu, MapOp::Exp, x)) == x,
        op_value(fpu, MapOp::Log1p, op_value(fpu, MapOp::Expm1, x)) == x,
        op_value(fpu, MapOp::Sin, op_value(fpu, MapOp::Asin, x)) == x,
        op_value(fpu, MapOp::Cos, op_value(fpu, MapOp::Acos, x)) == x,
        op_value(fpu, MapOp::Tan, op_value(fpu, MapOp::Atan, x)) == x,
        binop_value(fpu, BinaryOp::Div, op_value(fpu, MapOp::Sin, x), op_value(fpu, MapOp::Cos, x)) == op_value(
            fpu,
            MapOp::Tan,
            x,
        ),
        binop_value(fpu, BinaryOp::Div, op_value(fpu, MapOp::Sinh, x), op_value(fpu, MapOp::Cosh, x)) == op_value(
            fpu,
            MapOp::Tanh,
            x,
        ),
        binop_value(fpu, BinaryOp::Pow, two(), op_value(fpu, MapOp::Log2, x)) == x,
        binop_value(fpu, BinaryOp::Pow, nat_real(10), op_value(fpu, MapOp::Log10, x)) == x,
        binop_value(fpu, BinaryOp::Pow, x, one()) == x,
        fpu.times(op_value(fpu, MapOp::Sqrt, x), op_value(fpu, MapOp::Sqrt, x)) == x,
        ternop_value(fpu, TernaryOp::MulAdd, x, y, z) == fpu.plus(fpu.times(x, y), z),
        op_value(fpu, MapOp::Neg, x).key() == -x.key(),
        op_value(fpu, MapOp::Abs, x).key() == if x.key() < 0 {
            -x.key()
        } else {
            x.key()
        },
        !x.nan() && x.key() > 0 ==> op_value(fpu, MapOp::Sign, x) == one(),
        !x.nan() && x.key() == 0 ==> op_value(fpu, MapOp::Sign, x) == zero(),
        !x.nan() && x.key() < 0 ==> op_value(fpu, MapOp::Sign, x) == one().negated(),
{
}

/// The remainder of a division: what is left of the dividend when the divisor,
/// times the quotient without its fraction, is taken away; where the supplied
/// operations keep this, so do the maps.
pub proof fn law_remainder<F: Fn(FloatOp, Real, Real, Real) -> Real>(fpu: &Fpu<F>, a: Real, b: Real)
    requires
        forall|x: Real, y: Real| #[trigger]
            fpu.value2(FloatOp::Modulo, x, y) == fpu.minus(x, fpu.times(y, fpu.value1(FloatOp::Trunc, fpu.over(x, y)))),
    ensures
        binop_value(fpu, BinaryOp::Mod, a, b) == binop_value(
            fpu,
            BinaryOp::Sub,
            a,
            binop_value(fpu, BinaryOp::Mul, b, op_value(fpu, MapOp::Trunc, binop_value(fpu, BinaryOp::Div, a, b))),
        ),
{
}

} // verus!
