//! Counts, ranks and choices, said of the numbers themselves.
use crate::device::{Figures, Style};
use crate::double::{FloatOp, Fpu, NEG_INF, Real, long_real, num, rounded, two};
use crate::exact::{Exact, exact, lemma_cancel_factor, lemma_count, lemma_minus, lemma_ops, lemma_swap};
use crate::jit::{JitKind, Plan, law_op_loop, op_plan, second_of};
use crate::jit_code::ends_with;
use crate::jit_ir::{Arith, BinOp, binary_value};
use crate::jit_laws::started;
use crate::kernel::{arranged, median_is, ranked};
use crate::ml_forest::{votes, wins};
use crate::ml_knn::{deduped, nearest_labels, neighbours_say, row_gaps};
use crate::ml_tree::slot;
use crate::ordering::{comparable, orders};
use crate::plots::{
    Area, BOX_SHARE_BITS, Group, bin_counts, bin_of, box_of, boxes, highest, lowest, one_box, pooled, span,
};
use crate::sort::permutes;
use crate::stats_report::largest;
use crate::value::Grid;
use vstd::prelude::*;

verus! {

// ── Bins ───────────────────────────────────────────────────────────────────

/// The sum of the first `k` counts.
pub open spec fn counted(c: Seq<nat>, k: nat) -> nat
    decreases k,
{
    if k == 0 {
        0
    } else {
        counted(c, (k - 1) as nat) + c[k - 1]
    }
}

proof fn lemma_one_more(c: Seq<nat>, d: Seq<nat>, b: int, k: nat)
    requires
        k <= c.len() == d.len(),
        forall|i: int| 0 <= i < c.len() && i != b ==> #[trigger] d[i] == c[i],
        0 <= b < c.len() ==> d[b] == c[b] + 1,
        0 <= b,
    ensures
        counted(d, k) == counted(c, k) + if b < k {
            1nat
        } else {
            0
        },
    decreases k,
{
    if k > 0 {
        lemma_one_more(c, d, b, (k - 1) as nat);
        if b != k - 1 {
            assert(d[k - 1] == c[k - 1]);
        }
    }
}

proof fn lemma_nothing(c: Seq<nat>, k: nat)
    requires
        k <= c.len(),
        forall|i: int| 0 <= i < c.len() ==> #[trigger] c[i] == 0,
    ensures
        counted(c, k) == 0,
    decreases k,
{
    if k > 0 {
        lemma_nothing(c, (k - 1) as nat);
        assert(c[k - 1] == 0);
    }
}

/// Every number falls in one bin: the counts make the numbers together, and a
/// number more is one more in its bin alone.
pub proof fn law_bin_counts<F: Fn(FloatOp, Real, Real, Real) -> Real>(
    fpu: &Fpu<F>,
    x: Seq<Real>,
    min: Real,
    width: Real,
    nbins: nat,
)
    requires
        nbins > 0,
    ensures
        counted(bin_counts(fpu, x, min, width, nbins), nbins) == x.len(),
    decreases x.len(),
{
    let d = bin_counts(fpu, x, min, width, nbins);
    if x.len() == 0 {
        lemma_nothing(d, nbins);
    } else {
        let t = x.drop_last();
        law_bin_counts(fpu, t, min, width, nbins);
        let c = bin_counts(fpu, t, min, width, nbins);
        let b = bin_of(fpu, x.last(), min, width, nbins);
        assert forall|i: int| 0 <= i < c.len() && i != b implies #[trigger] d[i] == c[i] by {}
        lemma_one_more(c, d, b, nbins);
    }
}

/// The boxes of a box plot, with `gap` an equal share of the width for each:
/// each in the middle of its share, all on one scale from the least to the
/// largest number.
pub proof fn law_boxes<F: Fn(FloatOp, Real, Real, Real) -> Real, S: Fn(Style, Real) -> String>(
    fpu: &Fpu<F>,
    e: Exact,
    fig: &Figures<S>,
    out: Seq<char>,
    r: Area,
    g: Seq<Group>,
    n: nat,
    gap: int,
)
    requires
        exact(fpu, e),
        0 < n <= g.len() < 0x20_0000_0000_0000,
        g[n - 1].1.len() >= 2,
        e.count(g.len()) != e.zero,
        e.v(two()) == e.plus(e.one, e.one),
        e.v(two()) != e.zero,
        e.times(gap, e.count(g.len())) == e.v(r.w),
    ensures
        exists|cx: Real, bw: Real| #[trigger]
            box_drawn(fpu, fig, out, r, g, n, cx, bw) && e.v(bw) == e.times(gap, e.v(num(BOX_SHARE_BITS))) && e.times(
                e.plus(e.one, e.one),
                e.minus(e.v(cx), e.plus(e.v(r.left), e.times(gap, e.count((n - 1) as nat)))),
            ) == gap,
{
    lemma_ops(fpu, e);
    lemma_count(fpu, e, g.len());
    lemma_count(fpu, e, (n - 1) as nat);
    let w = fpu.over(r.w, rounded(g.len()));
    lemma_cancel_factor(e, e.v(w), gap, e.count(g.len()));
    let start = fpu.plus(r.left, fpu.times(w, rounded((n - 1) as nat)));
    let half = fpu.over(w, two());
    let cx = fpu.plus(start, half);
    let bw = fpu.times(w, num(BOX_SHARE_BITS));
    lemma_swap(e, e.v(start), e.v(half));
    lemma_minus(e, e.v(half), e.v(start));
    lemma_swap(e, e.v(two()), e.v(half));
    assert(box_drawn(fpu, fig, out, r, g, n, cx, bw));
}

/// Box `n - 1` was drawn about `cx`, as wide as `bw`.
pub open spec fn box_drawn<F: Fn(FloatOp, Real, Real, Real) -> Real, S: Fn(Style, Real) -> String>(
    fpu: &Fpu<F>,
    fig: &Figures<S>,
    out: Seq<char>,
    r: Area,
    g: Seq<Group>,
    n: nat,
    cx: Real,
    bw: Real,
) -> bool {
    let all = pooled(g, g.len());
    boxes(fpu, fig, out, r, g, n) == one_box(
        fpu,
        fig,
        boxes(fpu, fig, out, r, g, (n - 1) as nat),
        r,
        lowest(all),
        span(fpu, lowest(all), highest(num(NEG_INF), all)),
        box_of(fpu, g[n - 1].1),
        cx,
        bw,
        g[n - 1].0,
    )
}

// ── Ranks ──────────────────────────────────────────────────────────────────

/// The median: the numbers can be listed so that none of the first half lies
/// above one of the second half; it is the one in the middle, or half way
/// between the two in the middle.
pub proof fn law_median<F: Fn(FloatOp, Real, Real, Real) -> Real>(fpu: &Fpu<F>, e: Exact, s: Seq<Real>, m: Real)
    requires
        exact(fpu, e),
        0 < s.len(),
        median_is(fpu, s, m),
        e.v(two()) != e.zero,
    ensures
        s.len() % 2 == 1 ==> exists|p: Seq<usize>| #[trigger]
            permutes(p, s.len() as int) && m == s[p[s.len() as int / 2] as int] && forall|i: int, j: int|
                0 <= i <= j < s.len() ==> s[#[trigger] p[i] as int].key() <= s[#[trigger] p[j] as int].key(),
        s.len() % 2 == 0 ==> exists|p: Seq<usize>, q: Seq<usize>| #[trigger]
            permutes(p, s.len() as int) && #[trigger] permutes(q, s.len() as int) && arranged(s, p) && arranged(s, q)
                && e.times(e.v(m), e.v(two())) == e.plus(
                e.v(s[p[s.len() as int / 2 - 1] as int]),
                e.v(s[q[s.len() as int / 2] as int]),
            ),
{
    lemma_ops(fpu, e);
    let n = s.len() as int;
    if s.len() % 2 == 1 {
        let p = choose|p: Seq<usize>| #[trigger] arranged(s, p) && m == s[p[n / 2] as int];
        assert(permutes(p, n));
        assert forall|i: int, j: int| 0 <= i <= j < n implies s[#[trigger] p[i] as int].key() <= s[#[trigger] p[j] as int].key() by {
            if i < j {
                assert(crate::sort::comes_first(crate::kernel::key_order(s), p[i], p[j]));
            }
        }
    } else {
        let (lo, hi) = choose|lo: Real, hi: Real| #[trigger]
            ranked(s, n / 2 - 1, lo) && #[trigger] ranked(s, n / 2, hi) && m == fpu.over(fpu.plus(lo, hi), two());
        let p = choose|p: Seq<usize>| #[trigger] arranged(s, p) && lo == s[p[n / 2 - 1] as int];
        let q = choose|q: Seq<usize>| #[trigger] arranged(s, q) && hi == s[q[n / 2] as int];
        assert(permutes(p, n) && permutes(q, n));
    }
}

// ── Neighbours ─────────────────────────────────────────────────────────────

/// What the neighbours say: the training rows can be listed so that none after
/// the first `k` is nearer than one of these, and the answer is a label of
/// these that none of them occurs more often than.
pub proof fn law_neighbours<F: Fn(FloatOp, Real, Real, Real) -> Real>(
    fpu: &Fpu<F>,
    test: Grid,
    train: Grid,
    labels: Seq<Real>,
    k: nat,
    i: int,
    r: Real,
)
    requires
        neighbours_say(fpu, test, train, labels, k, i, r),
        comparable(row_gaps(fpu, test, train, i)),
        0 < k <= train.nrow,
    ensures
        exists|p: Seq<usize>, x: i64|
            #![trigger permutes(p, train.nrow as int), long_real(x)]
            {
                let d = row_gaps(fpu, test, train, i);
                let near = Seq::new(k, |t: int| labels[p[t] as int].as_long());
                &&& permutes(p, train.nrow as int)
                &&& r == long_real(x)
                &&& near.contains(x)
                &&& forall|t: int| 0 <= t < k ==> votes(near, #[trigger] near[t]) <= votes(near, x)
                &&& forall|t: int, u: int|
                    0 <= t < k <= u < train.nrow ==> d[#[trigger] p[t] as int].key() <= d[#[trigger] p[u] as int].key()
            },
{
    let d = row_gaps(fpu, test, train, i);
    let (p, x) = choose|p: Seq<usize>, x: i64| #[trigger]
        orders(d, false, p) && #[trigger] wins(nearest_labels(labels, p, k), x) && r == long_real(x);
    let near = Seq::new(k, |t: int| labels[p[t] as int].as_long());
    assert(permutes(p, train.nrow as int));
    assert(nearest_labels(labels, p, k) =~= near);
    assert forall|t: int, u: int| 0 <= t < k <= u < train.nrow implies d[#[trigger] p[t] as int].key()
        <= d[#[trigger] p[u] as int].key() by {
        crate::data_laws::law_orders(d, p, t, u);
    }
    assert(r == long_real(x));
}

/// Sorted numbers without repetitions: each one that was there, once, in strict
/// order.
pub proof fn law_deduped(s: Seq<Real>)
    requires
        comparable(s),
        forall|i: int, j: int| 0 <= i < j < s.len() ==> (#[trigger] s[i]).key() <= (#[trigger] s[j]).key(),
    ensures
        forall|i: int, j: int|
            0 <= i < j < deduped(s).len() ==> (#[trigger] deduped(s)[i]).key() < (#[trigger] deduped(s)[j]).key(),
        forall|i: int| 0 <= i < s.len() ==> exists|j: int|
            0 <= j < deduped(s).len() && (#[trigger] deduped(s)[j]).key() == (#[trigger] s[i]).key(),
        s.len() > 0 ==> deduped(s).len() > 0 && deduped(s).last().key() == s.last().key(),
        forall|i: int| 0 <= i < deduped(s).len() ==> !(#[trigger] deduped(s)[i]).nan(),
    decreases s.len(),
{
    if s.len() > 0 {
        let t = s.drop_last();
        assert(comparable(t)) by {
            assert forall|i: int| 0 <= i < t.len() implies !(#[trigger] t[i]).nan() by {
                assert(t[i] == s[i]);
            }
        }
        assert forall|i: int, j: int| 0 <= i < j < t.len() implies (#[trigger] t[i]).key() <= (#[trigger] t[j]).key() by {
            assert(t[i] == s[i] && t[j] == s[j]);
        }
        law_deduped(t);
        let d = deduped(t);
        let f = deduped(s);
        let x = s[s.len() - 1];
        assert(!x.nan());
        if t.len() > 0 {
            assert(s[t.len() - 1].key() <= x.key());
            assert(t.last() == s[t.len() - 1]);
        }
        assert forall|i: int| 0 <= i < s.len() implies exists|j: int|
            0 <= j < f.len() && (#[trigger] f[j]).key() == (#[trigger] s[i]).key() by {
            if i < t.len() {
                assert(t[i] == s[i]);
                let j = choose|j: int| 0 <= j < d.len() && (#[trigger] d[j]).key() == t[i].key();
                assert(f[j] == d[j]);
            } else {
                assert(f[f.len() - 1].key() == x.key());
            }
        }
    }
}

/// A drawn number picks one of the rows.
pub proof fn law_slot<F: Fn(FloatOp, Real, Real, Real) -> Real>(fpu: &Fpu<F>, u: Real, m: nat)
    requires
        m > 0,
    ensures
        0 <= slot(fpu, u, m) < m,
{
}

// ── Compiled vector operations ─────────────────────────────────────────────

/// A compiled vector operation: the code that it runs gives, in every row, what
/// the operator means; an operator that it does not take is refused.
pub proof fn law_op_plan(
    what: Seq<char>,
    op: BinOp,
    second: Option<Real>,
    arity: nat,
    kind: JitKind,
    len: nat,
    ins: Seq<Seq<Real>>,
    out: Seq<Real>,
    arith: Arith,
)
    requires
        op is Add || op is Sub || op is Mul || op is Div,
        ins.len() >= 1,
        ins[0].len() == len,
        second is None ==> ins.len() >= 2 && ins[1].len() == len,
        out.len() == len,
    ensures
        op_plan(what, op, second, arity, kind) is Ok,
        ({
            let p: Plan = op_plan(what, op, second, arity, kind)->Ok_0;
            &&& p.arity == arity
            &&& p.kind == kind
            &&& p.body is Code
            &&& ends_with(
                p.body->Code_0,
                started(len as int),
                out,
                ins,
                arith,
                None,
                Seq::new(len, |i: int| binary_value(op, ins[0][i], second_of(second, ins, i), arith)->0),
            )
        }),
{
    let g = crate::jit::op_fun(op)->0;
    law_op_loop(g, second, len, ins, out, arith);
    assert forall|i: int| 0 <= i < len implies #[trigger] binary_value(op, ins[0][i], second_of(second, ins, i), arith)->0
        == arith(g, seq![ins[0][i], second_of(second, ins, i)]) by {
        crate::jit_fold_laws::law_vector_operators(op, ins[0][i], second_of(second, ins, i), arith);
    }
    assert(Seq::new(len, |i: int| arith(g, seq![ins[0][i], second_of(second, ins, i)])) =~= Seq::new(
        len,
        |i: int| binary_value(op, ins[0][i], second_of(second, ins, i), arith)->0,
    ));
}

// ── Eigenvalues ────────────────────────────────────────────────────────────

/// The eigenvalues that a test goes by: as many as asked for, the largest ones,
/// from the largest down.
pub proof fn law_largest(s: Seq<Real>, m: nat, lam: Seq<Real>)
    requires
        comparable(s),
        largest(s, m, lam),
    ensures
        lam.len() == if m < s.len() {
            m
        } else {
            s.len()
        },
        forall|i: int, j: int| 0 <= i < j < lam.len() ==> (#[trigger] lam[i]).key() >= (#[trigger] lam[j]).key(),
        forall|i: int| 0 <= i < lam.len() ==> s.contains(#[trigger] lam[i]),
        exists|q: Seq<usize>| #[trigger]
            permutes(q, s.len() as int) && forall|i: int, u: int|
                #![trigger lam[i], q[u]]
                0 <= i < lam.len() <= u < s.len() ==> s[q[u] as int].key() <= lam[i].key(),
{
    let q = choose|q: Seq<usize>| #[trigger]
        orders(s, true, q) && lam == Seq::new(
            crate::stats_report::smaller(s.len(), m),
            |i: int| s[q[i] as int],
        );
    assert forall|i: int, j: int| 0 <= i < j < lam.len() implies (#[trigger] lam[i]).key() >= (#[trigger] lam[j]).key() by {
        crate::data_laws::law_orders(s, q, i, j);
    }
    assert forall|i: int| 0 <= i < lam.len() implies s.contains(#[trigger] lam[i]) by {
        assert(q.contains(q[i]));
    }
    assert(permutes(q, s.len() as int));
    assert forall|i: int, u: int|
        #![trigger lam[i], q[u]]
        0 <= i < lam.len() <= u < s.len() implies s[q[u] as int].key() <= lam[i].key() by {
        crate::data_laws::law_orders(s, q, i, u);
    }
}

} // verus!
