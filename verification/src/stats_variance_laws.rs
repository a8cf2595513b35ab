//! How the spread of grouped rows divides, and what the tails and quadratic
//! forms of the tests satisfy in exact arithmetic.
use crate::double::{FloatOp, Fpu, Real, nat_real, num, one, two, zero};
use crate::exact::{
    Exact, exact, law_total, lemma_cancel, lemma_cancel_factor, lemma_count, lemma_distributes, lemma_group,
    lemma_minus, lemma_nil, lemma_ops, lemma_shuffle_factors, lemma_sum_cut, lemma_sum_plus, lemma_sum_same,
    lemma_sum_shift, lemma_sum_swap, lemma_sum_table, lemma_sum_times, lemma_swap,
};
use crate::grid::{entry, total};
use crate::kernel_laws::{has_root, is_mean, takes_roots};
use crate::linalg::LinalgError;
use crate::linalg_laws::{factored_lu, law_inverse, pivots_count};
use crate::linalg_solve::{Lu, inverse, inverts};
use crate::sort::permutes;
use crate::stats_dist::{
    ERF_A1, ERF_A2, ERF_A3, ERF_A4, ERF_A5, ERF_P, NormalFn, Q_C0, Q_C1, Q_C2, Q_D1, Q_D2, Q_D3, SQRT_2, TINY,
    erf_value, normal_value, phi_value, qnorm_value,
};
use crate::stats_laws::law_mean;
use crate::stats_manova::{between, grouped, picked_column, subset_mean, within, within_term};
use crate::stats_matrix::{
    NINE, ONE_THIRD, TWO_THIRDS, cell, f_tail, failed, finite, means, positive, quad_inverse, quad_terms,
};
use crate::value::R2Err;
use vstd::prelude::*;

verus! {

proof fn lemma_sum_const(e: Exact, f: spec_fn(int) -> int, k: int, n: nat)
    requires
        e.field(),
        forall|i: int| 0 <= i < n ==> #[trigger] f(i) == k,
    ensures
        e.sum(f, 0, n as int) == e.times(e.count(n), k),
    decreases n,
{
    if n == 0 {
        crate::exact::lemma_times_zero(e, k);
    } else {
        lemma_sum_const(e, f, k, (n - 1) as nat);
        lemma_distributes(e, k, e.count((n - 1) as nat), e.one);
        lemma_nil(e, k);
    }
}

/// The deviations from a mean make nothing together.
proof fn lemma_deviations_cancel(e: Exact, s: Seq<Real>, m: int, f: spec_fn(int) -> int)
    requires
        e.field(),
        is_mean(e, s, m),
        forall|i: int| 0 <= i < s.len() ==> #[trigger] f(i) == e.minus(e.v(s[i]), m),
    ensures
        e.sum(f, 0, s.len() as int) == e.zero,
{
    let n = s.len() as int;
    let c = |i: int| m;
    let x = e.at(s);
    assert forall|i: int| 0 <= i < n implies #[trigger] x(i) == e.plus(f(i), c(i)) by {
        lemma_minus(e, e.v(s[i]), m);
    }
    lemma_sum_plus(e, f, c, x, 0, n);
    lemma_sum_const(e, c, m, s.len());
    lemma_swap(e, m, e.count(s.len()));
    let t = e.sum(x, 0, n);
    lemma_nil(e, t);
    lemma_cancel(e, e.sum(f, 0, n), e.zero, t);
}

/// The products of the distances from any two points are those of the
/// distances from the means, and the product of the distances of the means, as
/// often as there are rows.
pub proof fn law_products_about(e: Exact, x: Seq<Real>, y: Seq<Real>, m: int, n: int, c: int, d: int)
    requires
        e.field(),
        x.len() == y.len(),
        is_mean(e, x, m),
        is_mean(e, y, n),
    ensures
        e.sum(|i: int| e.times(e.minus(e.v(x[i]), c), e.minus(e.v(y[i]), d)), 0, x.len() as int) == e.plus(
            e.sum(|i: int| e.times(e.minus(e.v(x[i]), m), e.minus(e.v(y[i]), n)), 0, x.len() as int),
            e.times(e.count(x.len()), e.times(e.minus(m, c), e.minus(n, d))),
        ),
{
    let k = x.len() as int;
    let u = e.minus(m, c);
    let w = e.minus(n, d);
    let dx = |i: int| e.minus(e.v(x[i]), m);
    let dy = |i: int| e.minus(e.v(y[i]), n);
    let h = |i: int| e.times(e.minus(e.v(x[i]), c), e.minus(e.v(y[i]), d));
    let xy = |i: int| e.times(e.minus(e.v(x[i]), m), e.minus(e.v(y[i]), n));
    let xw = |i: int| e.times(w, dx(i));
    let uy = |i: int| e.times(u, dy(i));
    let uw = |i: int| e.times(u, w);
    let left = |i: int| e.plus(xy(i), xw(i));
    let right = |i: int| e.plus(uy(i), uw(i));
    assert forall|i: int| 0 <= i < k implies #[trigger] h(i) == e.plus(left(i), right(i)) by {
        let a = e.v(x[i]);
        let b = e.v(y[i]);
        lemma_apart(e, a, m, c);
        lemma_apart(e, b, n, d);
        lemma_distributes(e, e.plus(dy(i), w), dx(i), u);
        lemma_distributes(e, dx(i), dy(i), w);
        lemma_distributes(e, u, dy(i), w);
        lemma_swap(e, dx(i), w);
    }
    lemma_sum_plus(e, left, right, h, 0, k);
    lemma_sum_plus(e, xy, xw, left, 0, k);
    lemma_sum_plus(e, uy, uw, right, 0, k);
    lemma_deviations_cancel(e, x, m, dx);
    lemma_deviations_cancel(e, y, n, dy);
    lemma_sum_times(e, w, dx, xw, 0, k);
    lemma_sum_times(e, u, dy, uy, 0, k);
    crate::exact::lemma_times_zero(e, w);
    crate::exact::lemma_times_zero(e, u);
    lemma_sum_const(e, uw, e.times(u, w), x.len());
    lemma_nil(e, e.sum(xy, 0, k));
    lemma_nil(e, e.times(e.count(x.len()), e.times(u, w)));
}

proof fn lemma_apart(e: Exact, a: int, m: int, c: int)
    requires
        e.field(),
    ensures
        e.minus(a, c) == e.plus(e.minus(a, m), e.minus(m, c)),
{
    lemma_group(e, e.minus(a, m), m, e.opposite(c));
    lemma_minus(e, a, m);
}

proof fn lemma_sum_grouped(e: Exact, rows: Seq<Seq<usize>>, f: spec_fn(int, usize) -> int, h: spec_fn(int) -> int, k: nat)
    requires
        e.field(),
        k <= rows.len(),
        forall|t: int|
            0 <= t < grouped(rows, k).len() ==> #[trigger] h(t) == f(grouped(rows, k)[t].0, grouped(rows, k)[t].1),
    ensures
        e.sum(h, 0, grouped(rows, k).len() as int) == e.sum(
            |g: int| e.sum(|t: int| f(g, rows[g][t]), 0, rows[g].len() as int),
            0,
            k as int,
        ),
    decreases k,
{
    let outer = |g: int| e.sum(|t: int| f(g, rows[g][t]), 0, rows[g].len() as int);
    if k > 0 {
        let m = (k - 1) as nat;
        let s = grouped(rows, m);
        let all = grouped(rows, k);
        assert forall|t: int| 0 <= t < s.len() implies #[trigger] h(t) == f(s[t].0, s[t].1) by {
            assert(all[t] == s[t]);
        }
        lemma_sum_grouped(e, rows, f, h, m);
        let g = |t: int| f(k - 1, rows[k - 1][t]);
        let n = rows[k - 1].len() as int;
        assert forall|j: int| 0 <= j < n implies #[trigger] g(j) == h(s.len() + j) by {
            assert(all[s.len() + j] == (k - 1, rows[k - 1][j]));
        }
        lemma_sum_shift(e, h, g, s.len() as int, n);
        lemma_sum_cut(e, h, 0, s.len() as int, all.len() as int);
        assert(outer(k - 1) == e.sum(g, 0, n));
    }
}

/// The product of the distances of a row from two points, one in each column.
pub open spec fn row_product(e: Exact, data: Seq<Real>, p: int, a: int, b: int, c: int, d: int) -> spec_fn(int, usize) -> int {
    |g: int, r: usize| e.times(e.minus(e.v(cell(data, p, r as int, a)), c), e.minus(e.v(cell(data, p, r as int, b)), d))
}

/// The cross products of two columns divide: those within the groups and those
/// between them make the sum, over all rows of all groups, of the products of
/// the distances from the grand means.
pub proof fn law_spread_divides<F: Fn(FloatOp, Real, Real, Real) -> Real>(
    fpu: &Fpu<F>,
    e: Exact,
    data: Seq<Real>,
    n: nat,
    p: nat,
    rows: Seq<Seq<usize>>,
    a: int,
    b: int,
)
    requires
        exact(fpu, e),
        0 <= a < p,
        0 <= b < p,
        forall|g: int|
            0 <= g < rows.len() ==> (#[trigger] rows[g]).len() < 0x20_0000_0000_0000 && e.count(rows[g].len()) != e.zero,
    ensures
        e.plus(
            e.v(within(fpu, data, p as int, rows, a, b)),
            e.v(between(fpu, data, n, p, rows, a, b)),
        ) == e.sum(
            |t: int|
                row_product(
                    e,
                    data,
                    p as int,
                    a,
                    b,
                    e.v(means(fpu, data, n, p)[a]),
                    e.v(means(fpu, data, n, p)[b]),
                )(grouped(rows, rows.len())[t].0, grouped(rows, rows.len())[t].1),
            0,
            grouped(rows, rows.len()).len() as int,
        ),
{
    lemma_ops(fpu, e);
    let pp = p as int;
    let k = rows.len();
    let all = grouped(rows, k);
    let grand = means(fpu, data, n, p);
    let (c, d) = (e.v(grand[a]), e.v(grand[b]));
    // Within.
    let ws = Seq::new(all.len(), |t: int| within_term(fpu, data, pp, rows, all[t], a, b));
    law_total(fpu, e, ws);
    let wf = |g: int, r: usize| e.v(within_term(fpu, data, pp, rows, (g, r), a, b));
    assert forall|t: int| 0 <= t < all.len() implies #[trigger] e.at(ws)(t) == wf(all[t].0, all[t].1) by {
        assert(all[t] == (all[t].0, all[t].1));
    }
    lemma_sum_grouped(e, rows, wf, e.at(ws), k);
    // Between.
    let bs = Seq::new(
        k,
        |g: int|
            fpu.times(
                fpu.times(nat_real(rows[g].len()), fpu.minus(subset_mean(fpu, data, pp, rows[g], a), grand[a])),
                fpu.minus(subset_mean(fpu, data, pp, rows[g], b), grand[b]),
            ),
    );
    law_total(fpu, e, bs);
    // Both, row by row.
    let tf = row_product(e, data, pp, a, b, c, d);
    let th = |t: int| tf(all[t].0, all[t].1);
    lemma_sum_grouped(e, rows, tf, th, k);
    let inner = |g: int| e.sum(|t: int| wf(g, rows[g][t]), 0, rows[g].len() as int);
    let outer = |g: int| e.sum(|t: int| tf(g, rows[g][t]), 0, rows[g].len() as int);
    assert forall|g: int| 0 <= g < k implies #[trigger] outer(g) == e.plus(inner(g), e.at(bs)(g)) by {
        assert(rows[g].len() < 0x20_0000_0000_0000);
        let x = picked_column(data, pp, rows[g], a);
        let y = picked_column(data, pp, rows[g], b);
        law_mean(fpu, e, x);
        law_mean(fpu, e, y);
        lemma_count(fpu, e, rows[g].len());
        let m = e.v(subset_mean(fpu, data, pp, rows[g], a));
        let q = e.v(subset_mean(fpu, data, pp, rows[g], b));
        law_products_about(e, x, y, m, q, c, d);
        lemma_sum_same(
            e,
            |t: int| tf(g, rows[g][t]),
            |i: int| e.times(e.minus(e.v(x[i]), c), e.minus(e.v(y[i]), d)),
            0,
            rows[g].len() as int,
        );
        lemma_sum_same(
            e,
            |t: int| wf(g, rows[g][t]),
            |i: int| e.times(e.minus(e.v(x[i]), m), e.minus(e.v(y[i]), q)),
            0,
            rows[g].len() as int,
        );
        lemma_group(e, e.count(rows[g].len()), e.minus(m, c), e.minus(q, d));
    }
    lemma_sum_plus(e, inner, e.at(bs), outer, 0, k as int);
}

/// The quadratic form is the double sum of `x_a m_ab x_b`.
pub proof fn law_quadratic_form<F: Fn(FloatOp, Real, Real, Real) -> Real>(
    fpu: &Fpu<F>,
    e: Exact,
    x: Seq<Real>,
    m: Seq<Real>,
    p: nat,
)
    requires
        exact(fpu, e),
        0 < p,
    ensures
        e.v(total(fpu, quad_terms(fpu, x, m, p))) == e.sum(
            |a: int|
                e.times(
                    e.v(x[a]),
                    e.sum(|b: int| e.times(e.v(entry(m, p as int, a, b)), e.v(x[b])), 0, p as int),
                ),
            0,
            p as int,
        ),
{
    lemma_ops(fpu, e);
    let n = p as int;
    let s = quad_terms(fpu, x, m, p);
    law_total(fpu, e, s);
    let f = |a: int, b: int| e.times(e.times(e.v(x[a]), e.v(entry(m, n, a, b))), e.v(x[b]));
    assert(s.len() == n * p);
    lemma_sum_table(e, f, e.at(s), n, p);
    let rows = |a: int| e.sum(|b: int| f(a, b), 0, n);
    let want = |a: int|
        e.times(e.v(x[a]), e.sum(|b: int| e.times(e.v(entry(m, p as int, a, b)), e.v(x[b])), 0, p as int));
    assert forall|a: int| 0 <= a < n implies #[trigger] rows(a) == want(a) by {
        let g = |b: int| e.times(e.v(entry(m, p as int, a, b)), e.v(x[b]));
        let h = |b: int| f(a, b);
        assert forall|b: int| 0 <= b < n implies #[trigger] h(b) == e.times(e.v(x[a]), g(b)) by {
            lemma_group(e, e.v(x[a]), e.v(entry(m, n, a, b)), e.v(x[b]));
        }
        lemma_sum_times(e, e.v(x[a]), g, h, 0, n);
    }
    lemma_sum_same(e, rows, want, 0, n);
}

/// The normal functions with a mean and a deviation: the distribution function
/// is the standard one where the standardized number is asked for, the quantile
/// is the mean plus the standard one times the deviation, and the density times
/// the deviation and the root of two pi is the exponential.
pub proof fn law_standardized<F: Fn(FloatOp, Real, Real, Real) -> Real>(
    fpu: &Fpu<F>,
    e: Exact,
    x: Real,
    mean: Real,
    sd: Real,
)
    requires
        exact(fpu, e),
        e.v(sd) != e.zero,
        e.v(fpu.sqrt(fpu.times(two(), num(crate::stats_dist::PI)))) != e.zero,
    ensures
        exists|z: Real|
            #![trigger phi_value(fpu, z)]
            {
                &&& e.plus(e.times(e.v(z), e.v(sd)), e.v(mean)) == e.v(x)
                &&& normal_value(fpu, NormalFn::Distribution, x, mean, sd) == phi_value(fpu, z)
                &&& e.times(
                    e.v(normal_value(fpu, NormalFn::Density, x, mean, sd)),
                    e.times(e.v(sd), e.v(fpu.sqrt(fpu.times(two(), num(crate::stats_dist::PI))))),
                ) == e.v(fpu.exp(fpu.times(fpu.times(num(crate::double::HALF_BITS).negated(), z), z)))
            },
        e.minus(e.v(normal_value(fpu, NormalFn::Quantile, x, mean, sd)), e.v(mean)) == e.times(
            e.v(sd),
            e.v(qnorm_value(fpu, x)),
        ),
{
    lemma_ops(fpu, e);
    let z = fpu.over(fpu.minus(x, mean), sd);
    lemma_minus(e, e.v(x), e.v(mean));
    let r = fpu.sqrt(fpu.times(two(), num(crate::stats_dist::PI)));
    crate::exact::lemma_nonzero(e, e.v(sd), e.v(r));
    let d = fpu.times(sd, r);
    let q = e.v(fpu.over(one(), d));
    let y = e.v(fpu.exp(fpu.times(fpu.times(num(crate::double::HALF_BITS).negated(), z), z)));
    lemma_swap(e, q, y);
    lemma_group(e, y, q, e.v(d));
    lemma_nil(e, y);
    assert(normal_value(fpu, NormalFn::Distribution, x, mean, sd) == phi_value(fpu, z));
    let w = e.times(e.v(sd), e.v(qnorm_value(fpu, x)));
    lemma_swap(e, e.v(mean), w);
    lemma_minus(e, w, e.v(mean));
}

/// The tail of the F distribution by the cube-root approximation. With `v1` and
/// `v2` such that `9 df v` is two in both, and `r` a root of
/// `f^(2/3) v2 + v1`, it is one less the normal distribution function at a `z`
/// for which `z z r r` is the square of `f^(1/3) (1 - v2) - (1 - v1)`.
pub proof fn law_f_tail<F: Fn(FloatOp, Real, Real, Real) -> Real>(
    fpu: &Fpu<F>,
    e: Exact,
    f: Real,
    df1: Real,
    df2: Real,
    v1: int,
    v2: int,
    r: int,
)
    requires
        exact(fpu, e),
        takes_roots(fpu, e),
        finite(f),
        positive(df1),
        positive(df2),
        e.times(e.v(num(NINE)), e.v(df1)) != e.zero,
        e.times(e.v(num(NINE)), e.v(df2)) != e.zero,
        e.times(v1, e.times(e.v(num(NINE)), e.v(df1))) == e.v(two()),
        e.times(v2, e.times(e.v(num(NINE)), e.v(df2))) == e.v(two()),
        e.square(r) == e.plus(e.times(e.v(fpu.pow(f, num(TWO_THIRDS))), v2), v1),
        r != e.zero,
    ensures
        exists|z: Real|
            #![trigger phi_value(fpu, z)]
            {
                &&& e.plus(e.v(f_tail(fpu, f, df1, df2)), e.v(phi_value(fpu, z))) == e.one
                &&& e.times(e.square(e.v(z)), e.square(r)) == e.square(
                    e.minus(
                        e.times(e.v(fpu.pow(f, num(ONE_THIRD))), e.minus(e.one, v2)),
                        e.minus(e.one, v1),
                    ),
                )
            },
{
    lemma_ops(fpu, e);
    let a = fpu.over(two(), fpu.times(num(NINE), df1));
    let b = fpu.over(two(), fpu.times(num(NINE), df2));
    lemma_cancel_factor(e, e.v(a), v1, e.times(e.v(num(NINE)), e.v(df1)));
    lemma_cancel_factor(e, e.v(b), v2, e.times(e.v(num(NINE)), e.v(df2)));
    let upper = fpu.minus(fpu.times(fpu.pow(f, num(ONE_THIRD)), fpu.minus(one(), b)), fpu.minus(one(), a));
    let s = fpu.plus(fpu.times(fpu.pow(f, num(TWO_THIRDS)), b), a);
    let lower = fpu.sqrt(s);
    let z = fpu.over(upper, lower);
    assert(has_root(e, e.v(s)));
    assert(e.square(e.v(lower)) == e.square(r));
    if e.v(lower) == e.zero {
        crate::exact::lemma_times_zero(e, e.zero);
        crate::exact::lemma_nonzero(e, r, r);
    }
    lemma_shuffle_factors(e, e.v(z), e.v(z), e.v(lower), e.v(lower));
    lemma_minus(e, e.one, e.v(phi_value(fpu, z)));
    assert(f_tail(fpu, f, df1, df2) == fpu.minus(one(), phi_value(fpu, z)));
}

// ── The error function and the normal quantile ─────────────────────────────

/// `a` times the `k`th power of `t`.
pub open spec fn raised(e: Exact, t: int, k: nat, a: int) -> int
    decreases k,
{
    if k == 0 {
        a
    } else {
        e.times(t, raised(e, t, (k - 1) as nat, a))
    }
}

/// The error function of a number that is not negative: one less the polynomial
/// of fifth degree in `t` times the exponential, where `t` times `1 + p |x|` is
/// one.
pub proof fn law_erf<F: Fn(FloatOp, Real, Real, Real) -> Real>(fpu: &Fpu<F>, e: Exact, x: Real, t: int)
    requires
        exact(fpu, e),
        !x.nan(),
        x.key() >= 0,
        e.plus(e.one, e.times(e.v(num(ERF_P)), e.v(x.absolute()))) != e.zero,
        e.times(t, e.plus(e.one, e.times(e.v(num(ERF_P)), e.v(x.absolute())))) == e.one,
    ensures
        e.v(erf_value(fpu, x)) == e.minus(
            e.one,
            e.times(
                e.plus(
                    raised(e, t, 1, e.v(num(ERF_A1))),
                    e.plus(
                        raised(e, t, 2, e.v(num(ERF_A2))),
                        e.plus(
                            raised(e, t, 3, e.v(num(ERF_A3))),
                            e.plus(raised(e, t, 4, e.v(num(ERF_A4))), raised(e, t, 5, e.v(num(ERF_A5)))),
                        ),
                    ),
                ),
                e.v(fpu.exp(fpu.times(x.negated(), x))),
            ),
        ),
{
    lemma_ops(fpu, e);
    let q = fpu.over(one(), fpu.plus(one(), fpu.times(num(ERF_P), x.absolute())));
    lemma_cancel_factor(e, e.v(q), t, e.plus(e.one, e.times(e.v(num(ERF_P)), e.v(x.absolute()))));
    let (a1, a2, a3, a4, a5) = (
        e.v(num(ERF_A1)),
        e.v(num(ERF_A2)),
        e.v(num(ERF_A3)),
        e.v(num(ERF_A4)),
        e.v(num(ERF_A5)),
    );
    reveal_with_fuel(raised, 6);
    let i4 = e.plus(a4, e.times(t, a5));
    let i3 = e.plus(a3, e.times(t, i4));
    let i2 = e.plus(a2, e.times(t, i3));
    let i1 = e.plus(a1, e.times(t, i2));
    // t i4 is t a4 + t t a5, and so on upwards.
    lemma_distributes(e, t, a4, e.times(t, a5));
    let p4 = e.plus(raised(e, t, 1, a4), raised(e, t, 2, a5));
    assert(e.times(t, i4) == p4);
    lemma_distributes(e, t, a3, p4);
    lemma_distributes(e, t, raised(e, t, 1, a4), raised(e, t, 2, a5));
    let p3 = e.plus(raised(e, t, 1, a3), e.plus(raised(e, t, 2, a4), raised(e, t, 3, a5)));
    assert(e.times(t, i3) == p3);
    lemma_distributes(e, t, a2, p3);
    lemma_distributes(e, t, raised(e, t, 1, a3), e.plus(raised(e, t, 2, a4), raised(e, t, 3, a5)));
    lemma_distributes(e, t, raised(e, t, 2, a4), raised(e, t, 3, a5));
    let p2 = e.plus(
        raised(e, t, 1, a2),
        e.plus(raised(e, t, 2, a3), e.plus(raised(e, t, 3, a4), raised(e, t, 4, a5))),
    );
    assert(e.times(t, i2) == p2);
    lemma_distributes(e, t, a1, p2);
    lemma_distributes(
        e,
        t,
        raised(e, t, 1, a2),
        e.plus(raised(e, t, 2, a3), e.plus(raised(e, t, 3, a4), raised(e, t, 4, a5))),
    );
    lemma_distributes(e, t, raised(e, t, 2, a3), e.plus(raised(e, t, 3, a4), raised(e, t, 4, a5)));
    lemma_distributes(e, t, raised(e, t, 3, a4), raised(e, t, 4, a5));
}

/// The normal distribution function: twice it is one more than the error
/// function of the number over the root of two.
pub proof fn law_phi<F: Fn(FloatOp, Real, Real, Real) -> Real>(fpu: &Fpu<F>, e: Exact, x: Real)
    requires
        exact(fpu, e),
        e.v(num(SQRT_2)) != e.zero,
        e.times(e.v(num(crate::double::HALF_BITS)), e.plus(e.one, e.one)) == e.one,
    ensures
        exists|y: Real|
            #![trigger erf_value(fpu, y)]
            e.times(e.v(y), e.v(num(SQRT_2))) == e.v(x) && e.times(e.plus(e.one, e.one), e.v(phi_value(fpu, x))) == e.plus(
                e.one,
                e.v(erf_value(fpu, y)),
            ),
{
    lemma_ops(fpu, e);
    let y = fpu.over(x, num(SQRT_2));
    let s = e.plus(e.one, e.v(erf_value(fpu, y)));
    let h = e.v(num(crate::double::HALF_BITS));
    let two1 = e.plus(e.one, e.one);
    lemma_group(e, two1, h, s);
    lemma_swap(e, two1, h);
    lemma_nil(e, s);
    assert(phi_value(fpu, x) == fpu.times(num(crate::double::HALF_BITS), fpu.plus(one(), erf_value(fpu, y))));
}

/// The normal quantile away from the middle: with `t` the root of minus twice
/// the logarithm of the smaller tail, the distance between `t` and the size of
/// the quantile, times `1 + d1 t + d2 t t + d3 t t t`, is
/// `c0 + c1 t + c2 t t`; it is negative for the lower tail.
pub proof fn law_quantile<F: Fn(FloatOp, Real, Real, Real) -> Real>(fpu: &Fpu<F>, e: Exact, p: Real)
    requires
        exact(fpu, e),
        zero().below(p),
        p.below(one()),
        !fpu.minus(p, num(crate::double::HALF_BITS)).absolute().below(num(TINY)),
        e.v(quantile_lower(fpu, quantile_root(fpu, p))) != e.zero,
    ensures
        ({
            let t = e.v(quantile_root(fpu, p));
            let size = if p.below(num(crate::double::HALF_BITS)) {
                e.opposite(e.v(qnorm_value(fpu, p)))
            } else {
                e.v(qnorm_value(fpu, p))
            };
            e.times(
                e.minus(t, size),
                e.plus(
                    e.plus(
                        e.plus(e.one, raised(e, t, 1, e.v(num(Q_D1)))),
                        raised(e, t, 2, e.v(num(Q_D2))),
                    ),
                    raised(e, t, 3, e.v(num(Q_D3))),
                ),
            ) == e.plus(
                e.plus(e.v(num(Q_C0)), raised(e, t, 1, e.v(num(Q_C1)))),
                raised(e, t, 2, e.v(num(Q_C2))),
            )
        }),
{
    lemma_ops(fpu, e);
    reveal_with_fuel(raised, 4);
    let t = quantile_root(fpu, p);
    let tv = e.v(t);
    let upper = fpu.plus(
        fpu.plus(num(Q_C0), fpu.times(num(Q_C1), t)),
        fpu.times(fpu.times(num(Q_C2), t), t),
    );
    let lower = quantile_lower(fpu, t);
    let r = fpu.over(upper, lower);
    let z = fpu.minus(t, r);
    lemma_powers(e, tv, e.v(num(Q_C1)));
    lemma_powers(e, tv, e.v(num(Q_C2)));
    lemma_powers(e, tv, e.v(num(Q_D1)));
    lemma_powers(e, tv, e.v(num(Q_D2)));
    lemma_powers(e, tv, e.v(num(Q_D3)));
    crate::exact::lemma_negated(fpu, e, z);
    lemma_minus(e, e.v(z), e.v(z));
    // t - (t - r) is r.
    lemma_minus(e, tv, e.v(r));
    lemma_swap(e, e.v(z), e.v(r));
    lemma_minus(e, e.v(r), e.v(z));
    let q = qnorm_value(fpu, p);
    assert(q == if p.below(num(crate::double::HALF_BITS)) {
        z.negated()
    } else {
        z
    });
}

proof fn lemma_powers(e: Exact, t: int, c: int)
    requires
        e.field(),
    ensures
        e.times(c, t) == raised(e, t, 1, c),
        e.times(e.times(c, t), t) == raised(e, t, 2, c),
        e.times(e.times(e.times(c, t), t), t) == raised(e, t, 3, c),
{
    reveal_with_fuel(raised, 4);
    lemma_swap(e, c, t);
    lemma_swap(e, e.times(t, c), t);
    lemma_swap(e, e.times(t, e.times(t, c)), t);
}

/// The root of minus twice the logarithm of the smaller tail.
pub open spec fn quantile_root<F: Fn(FloatOp, Real, Real, Real) -> Real>(fpu: &Fpu<F>, p: Real) -> Real {
    let pp = if p.below(num(crate::double::HALF_BITS)) {
        p
    } else {
        fpu.minus(one(), p)
    };
    fpu.sqrt(fpu.times(two().negated(), fpu.ln(pp)))
}

/// What the approximation divides by.
pub open spec fn quantile_lower<F: Fn(FloatOp, Real, Real, Real) -> Real>(fpu: &Fpu<F>, t: Real) -> Real {
    fpu.plus(
        fpu.plus(fpu.plus(one(), fpu.times(num(Q_D1), t)), fpu.times(fpu.times(num(Q_D2), t), t)),
        fpu.times(fpu.times(fpu.times(num(Q_D3), t), t), t),
    )
}

// ── The quadratic form with an inverse ─────────────────────────────────────

proof fn lemma_sum_pick(e: Exact, f: spec_fn(int) -> int, i: int, n: int)
    requires
        e.field(),
        0 <= i < n,
        forall|k: int| 0 <= k < n && k != i ==> #[trigger] f(k) == e.zero,
    ensures
        e.sum(f, 0, n) == f(i),
{
    lemma_sum_cut(e, f, 0, i, n);
    crate::exact::lemma_sum_first(e, f, i, n);
    crate::exact::lemma_sum_zero(e, f, 0, i);
    crate::exact::lemma_sum_zero(e, f, i + 1, n);
    lemma_nil(e, f(i));
}

/// `w` solves the system with the matrix `s` and the right side `d`.
pub open spec fn solved_by(e: Exact, n: int, s: Seq<Real>, d: Seq<Real>, w: spec_fn(int) -> int) -> bool {
    forall|i: int|
        0 <= i < n ==> e.sum(|j: int| e.times(e.v(entry(s, n, i, j)), w(j)), 0, n) == e.v(#[trigger] d[i])
}

/// `factor` factors the matrix `s` exactly.
pub open spec fn factors_exactly<G: Fn(usize, &[Real]) -> Result<Lu, LinalgError>>(
    e: Exact,
    factor: G,
    p: usize,
    s: Seq<Real>,
) -> bool {
    forall|t: &[Real], lu: Lu|
        t@ == s && #[trigger] call_ensures(factor, (p, t), Ok::<Lu, LinalgError>(lu)) ==> permutes(lu.ipiv@, p as int)
            && factored_lu(e, p as int, s, lu.a@, lu.ipiv@) && pivots_count(e, p as int, lu.a@)
}

/// The quadratic form with the inverse of a matrix: there is a solution `w` of
/// the system with the vector on the right, and the form is the vector times
/// it.
pub proof fn law_quadratic_inverse<
    F: Fn(FloatOp, Real, Real, Real) -> Real,
    G: Fn(usize, &[Real]) -> Result<Lu, LinalgError>,
>(fpu: &Fpu<F>, e: Exact, factor: G, x: Seq<Real>, s: Seq<Real>, p: usize, r: Result<Real, R2Err>)
    requires
        exact(fpu, e),
        0 < p == x.len(),
        quad_inverse(fpu, factor, x, s, p, r),
        r is Ok,
        factors_exactly(e, factor, p, s),
    ensures
        exists|w: spec_fn(int) -> int| #[trigger]
            solved_by(e, p as int, s, x, w) && e.v(r->Ok_0) == e.sum(
                |a: int| e.times(e.v(x[a]), w(a)),
                0,
                p as int,
            ),
{
    let n = p as int;
    let (t, out, inv) = choose|t: &[Real], out: Result<Lu, LinalgError>, inv: Result<Vec<Real>, LinalgError>|
        t@ == s && #[trigger] call_ensures(factor, (p, t), out) && #[trigger] inverts(fpu, p as nat, out, inv)
            && match inv {
            Err(e) => failed(r, (crate::value::ErrKind::Runtime, crate::stats_matrix::singular_message(e))),
            Ok(v) => r == Ok::<Real, R2Err>(total(fpu, quad_terms(fpu, x, v@, p as nat))),
        };
    let lu = out->Ok_0;
    let m = inv->Ok_0@;
    assert(out is Ok && inv is Ok);
    assert(call_ensures(factor, (p, t), Ok::<Lu, LinalgError>(lu)));
    assert(m == inverse(fpu, p as nat, lu.a@, lu.ipiv@));
    law_quadratic_form(fpu, e, x, m, p as nat);
    let w = |a: int| e.sum(|b: int| e.times(e.v(entry(m, n, a, b)), e.v(x[b])), 0, n);
    lemma_sum_same(
        e,
        |a: int|
            e.times(e.v(x[a]), e.sum(|b: int| e.times(e.v(entry(m, p as nat as int, a, b)), e.v(x[b])), 0, p as nat as int)),
        |a: int| e.times(e.v(x[a]), w(a)),
        0,
        n,
    );
    assert forall|i: int| 0 <= i < n implies e.sum(|j: int| e.times(e.v(entry(s, n, i, j)), w(j)), 0, n) == e.v(
        #[trigger] x[i],
    ) by {
        let perm = lu.ipiv@;
        assert(perm.contains(i as usize));
        let k = choose|k: int| 0 <= k < perm.len() && perm[k] == i as usize;
        let f = |j: int, b: int| e.times(e.v(entry(s, n, i, j)), e.times(e.v(entry(m, n, j, b)), e.v(x[b])));
        let rows = |j: int| e.sum(|b: int| f(j, b), 0, n);
        let left = |j: int| e.times(e.v(entry(s, n, i, j)), w(j));
        assert forall|j: int| 0 <= j < n implies #[trigger] left(j) == rows(j) by {
            lemma_sum_times(
                e,
                e.v(entry(s, n, i, j)),
                |b: int| e.times(e.v(entry(m, n, j, b)), e.v(x[b])),
                |b: int| f(j, b),
                0,
                n,
            );
        }
        lemma_sum_same(e, left, rows, 0, n);
        lemma_sum_swap(e, f, 0, n, 0, n);
        let cols = |b: int| e.sum(|j: int| f(j, b), 0, n);
        let want = |b: int|
            if b == i {
                e.v(x[b])
            } else {
                e.zero
            };
        assert forall|b: int| 0 <= b < n implies #[trigger] cols(b) == want(b) by {
            law_inverse(fpu, e, p as nat, s, lu.a@, perm, k, b);
            let g = |j: int| e.times(e.v(entry(s, n, i, j)), e.v(entry(m, n, j, b)));
            let h = |j: int| f(j, b);
            assert forall|j: int| 0 <= j < n implies #[trigger] h(j) == e.times(e.v(x[b]), g(j)) by {
                lemma_group(e, e.v(entry(s, n, i, j)), e.v(entry(m, n, j, b)), e.v(x[b]));
                lemma_swap(e, g(j), e.v(x[b]));
            }
            lemma_sum_times(e, e.v(x[b]), g, h, 0, n);
            lemma_sum_same(
                e,
                g,
                |j: int|
                    e.times(
                        e.v(entry(s, p as nat as int, perm[k] as int, j)),
                        e.v(entry(inverse(fpu, p as nat, lu.a@, perm), p as nat as int, j, b)),
                    ),
                0,
                n,
            );
            lemma_nil(e, e.v(x[b]));
            crate::exact::lemma_times_zero(e, e.v(x[b]));
        }
        lemma_sum_same(e, cols, want, 0, n);
        lemma_sum_pick(e, want, i, n);
    }
    assert(solved_by(e, n, s, x, w));
}

} // verus!
