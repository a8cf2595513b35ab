//! What the products of vectors and matrices are, in exact arithmetic.
use crate::double::{FloatOp, Fpu, Real, one, zero};
use crate::exact::{
    Exact, exact, law_total, lemma_cancel, lemma_distributes, lemma_group, lemma_minus, lemma_negated, lemma_nil,
    lemma_ops, lemma_shuffle, lemma_shuffle_factors, lemma_sum_cut, lemma_sum_plus, lemma_sum_same, lemma_sum_shift,
    lemma_sum_swap, lemma_sum_times, lemma_swap, lemma_times_minus, lemma_times_zero,
};
use crate::grid::{entry, lemma_entry, total};
use crate::kernel_laws::{has_root, takes_roots};
use crate::linalg::{
    absolutes, axpy, column_products, damped, dot, first_tiny, gemv, gemv_entry, gemv_t, ger_entry, lane, norm2, peak,
    products_from, ratio_squares, scaled,
};
use crate::linalg_laws::{factored_cholesky, law_cholesky_solves, pivots_count, row_term};
use crate::linalg_solve::{cholesky_solution, cross, cross_vector, fused, minor, solution_2x2};
use vstd::prelude::*;

verus! {

/// Zero of either sign is worth zero, and what equals one is worth one.
proof fn lemma_same<F: Fn(FloatOp, Real, Real, Real) -> Real>(fpu: &Fpu<F>, e: Exact, x: Real)
    requires
        exact(fpu, e),
    ensures
        x.same(zero()) ==> e.v(x) == e.zero,
        x.same(one()) ==> e.v(x) == e.one,
{
    lemma_ops(fpu, e);
    lemma_negated(fpu, e, zero());
    lemma_minus(e, e.zero, e.zero);
    if x.same(zero()) {
        assert(x == zero() || x == zero().negated());
    }
    if x.same(one()) {
        assert(x == one());
    }
}

/// The products of two vectors.
pub open spec fn pair_term(e: Exact, x: Seq<Real>, y: Seq<Real>) -> spec_fn(int) -> int {
    |i: int| e.times(e.v(x[i]), e.v(y[i]))
}

proof fn lemma_lanes<F: Fn(FloatOp, Real, Real, Real) -> Real>(fpu: &Fpu<F>, e: Exact, x: Seq<Real>, y: Seq<Real>, q: nat)
    requires
        exact(fpu, e),
    ensures
        e.plus(
            e.plus(
                e.plus(e.v(lane(fpu, x, y, 0, q)), e.v(lane(fpu, x, y, 1, q))),
                e.v(lane(fpu, x, y, 2, q)),
            ),
            e.v(lane(fpu, x, y, 3, q)),
        ) == e.sum(pair_term(e, x, y), 0, 4 * q as int),
    decreases q,
{
    lemma_ops(fpu, e);
    let f = pair_term(e, x, y);
    if q == 0 {
        lemma_nil(e, e.zero);
    } else {
        let t = (q - 1) as nat;
        lemma_lanes(fpu, e, x, y, t);
        let (a0, a1, a2, a3) = (
            e.v(lane(fpu, x, y, 0, t)),
            e.v(lane(fpu, x, y, 1, t)),
            e.v(lane(fpu, x, y, 2, t)),
            e.v(lane(fpu, x, y, 3, t)),
        );
        let b = 4 * t as int;
        let (p0, p1, p2, p3) = (f(b), f(b + 1), f(b + 2), f(b + 3));
        lemma_shuffle(e, a0, p0, a1, p1);
        lemma_shuffle(e, e.plus(a0, a1), e.plus(p0, p1), a2, p2);
        lemma_shuffle(e, e.plus(e.plus(a0, a1), a2), e.plus(e.plus(p0, p1), p2), a3, p3);
        let s = e.sum(f, 0, b);
        assert(e.sum(f, 0, b + 1) == e.plus(s, p0));
        assert(e.sum(f, 0, b + 2) == e.plus(e.plus(s, p0), p1));
        assert(e.sum(f, 0, b + 3) == e.plus(e.plus(e.plus(s, p0), p1), p2));
        assert(e.sum(f, 0, b + 4) == e.plus(e.plus(e.plus(e.plus(s, p0), p1), p2), p3));
        lemma_group(e, s, p0, p1);
        lemma_group(e, s, e.plus(p0, p1), p2);
        lemma_group(e, s, e.plus(e.plus(p0, p1), p2), p3);
    }
}

/// The dot product is the sum of the products.
pub proof fn law_dot<F: Fn(FloatOp, Real, Real, Real) -> Real>(fpu: &Fpu<F>, e: Exact, x: Seq<Real>, y: Seq<Real>)
    requires
        exact(fpu, e),
        x.len() == y.len(),
    ensures
        e.v(dot(fpu, x, y)) == e.sum(pair_term(e, x, y), 0, x.len() as int),
{
    lemma_ops(fpu, e);
    let q = x.len() / 4;
    lemma_lanes(fpu, e, x, y, q);
    let s = products_from(fpu, x, y, q * 4);
    law_total(fpu, e, s);
    let f = pair_term(e, x, y);
    let b = q * 4;
    assert forall|j: int| 0 <= j < s.len() implies #[trigger] e.at(s)(j) == f(b + j) by {}
    lemma_sum_shift(e, f, e.at(s), b as int, s.len() as int);
    lemma_sum_cut(e, f, 0, b as int, x.len() as int);
}

/// Adding a multiple of a vector.
pub proof fn law_axpy<F: Fn(FloatOp, Real, Real, Real) -> Real>(
    fpu: &Fpu<F>,
    e: Exact,
    alpha: Real,
    x: Seq<Real>,
    y: Seq<Real>,
    i: int,
)
    requires
        exact(fpu, e),
        0 <= i < x.len() == y.len(),
    ensures
        e.v(axpy(fpu, alpha, x, y)[i]) == e.plus(e.v(y[i]), e.times(e.v(alpha), e.v(x[i]))),
        e.v(scaled(fpu, alpha, x)[i]) == e.times(e.v(x[i]), e.v(alpha)),
{
    lemma_ops(fpu, e);
    lemma_same(fpu, e, alpha);
    lemma_times_zero(e, e.v(x[i]));
    lemma_nil(e, e.v(y[i]));
    lemma_nil(e, e.v(x[i]));
}

/// The absolute values: each is the number or its negative, and has no sign.
pub proof fn law_absolutes<F: Fn(FloatOp, Real, Real, Real) -> Real>(fpu: &Fpu<F>, e: Exact, x: Seq<Real>)
    requires
        exact(fpu, e),
    ensures
        forall|i: int|
            0 <= i < x.len() ==> !(#[trigger] absolutes(x)[i]).negative() && (absolutes(x)[i] == x[i] || absolutes(x)[i]
                == x[i].negated()),
        e.v(total(fpu, absolutes(x))) == e.sum(e.at(absolutes(x)), 0, x.len() as int),
{
    law_total(fpu, e, absolutes(x));
}

/// The square of the norm is the sum of the squares.
pub proof fn law_norm<F: Fn(FloatOp, Real, Real, Real) -> Real>(fpu: &Fpu<F>, e: Exact, x: Seq<Real>)
    requires
        exact(fpu, e),
        takes_roots(fpu, e),
        !peak(x, x.len()).1.same(zero()),
        e.v(peak(x, x.len()).1) != e.zero,
        has_root(e, e.sum(|i: int| e.square(e.v(x[i])), 0, x.len() as int)),
    ensures
        e.square(e.v(norm2(fpu, x))) == e.sum(|i: int| e.square(e.v(x[i])), 0, x.len() as int),
{
    lemma_ops(fpu, e);
    let m = peak(x, x.len()).1;
    let mv = e.v(m);
    let s = ratio_squares(fpu, x, m);
    law_total(fpu, e, s);
    let t = total(fpu, s);
    let h = |i: int| e.square(e.v(x[i]));
    let m2 = e.square(mv);
    assert forall|i: int| 0 <= i < x.len() implies #[trigger] h(i) == e.times(m2, e.at(s)(i)) by {
        let r = e.v(fpu.over(x[i], m));
        lemma_shuffle_factors(e, r, r, mv, mv);
        lemma_swap(e, m2, e.times(r, r));
    }
    lemma_sum_times(e, m2, e.at(s), h, 0, x.len() as int);
    let q = choose|q: int| #[trigger] e.square(q) == e.sum(h, 0, x.len() as int);
    let inv = (e.inv)(mv);
    assert(e.times(mv, inv) == e.one) by {
        reveal(Exact::units);
    }
    lemma_shuffle_factors(e, q, inv, q, inv);
    lemma_shuffle_factors(e, mv, inv, mv, inv);
    lemma_nil(e, e.one);
    let i2 = e.times(inv, inv);
    assert(e.times(m2, i2) == e.one);
    lemma_swap(e, m2, e.v(t));
    lemma_group(e, e.v(t), m2, i2);
    lemma_nil(e, e.v(t));
    assert(e.square(e.times(q, inv)) == e.v(t));
    assert(has_root(e, e.v(t)));
    let w = e.v(fpu.sqrt(t));
    lemma_shuffle_factors(e, mv, w, mv, w);
}

proof fn lemma_damped<F: Fn(FloatOp, Real, Real, Real) -> Real>(fpu: &Fpu<F>, e: Exact, beta: Real, y: Real)
    requires
        exact(fpu, e),
    ensures
        e.v(damped(fpu, beta, y)) == e.times(e.v(beta), e.v(y)),
{
    lemma_ops(fpu, e);
    lemma_same(fpu, e, beta);
    lemma_times_zero(e, e.v(y));
    lemma_nil(e, e.v(y));
    lemma_swap(e, e.v(beta), e.v(y));
}

proof fn lemma_gemv_entry<F: Fn(FloatOp, Real, Real, Real) -> Real>(
    fpu: &Fpu<F>,
    e: Exact,
    m: int,
    alpha: Real,
    a: Seq<Real>,
    x: Seq<Real>,
    start: Real,
    i: int,
    k: nat,
)
    requires
        exact(fpu, e),
    ensures
        e.v(gemv_entry(fpu, m, alpha, a, x, start, i, k)) == e.plus(
            e.times(e.v(alpha), e.sum(row_term(e, m, a, x, i), 0, k as int)),
            e.v(start),
        ),
    decreases k,
{
    lemma_ops(fpu, e);
    let f = row_term(e, m, a, x, i);
    let al = e.v(alpha);
    if k == 0 {
        lemma_times_zero(e, al);
        lemma_nil(e, e.v(start));
    } else {
        lemma_gemv_entry(fpu, e, m, alpha, a, x, start, i, (k - 1) as nat);
        let c = fpu.times(alpha, x[k - 1]);
        lemma_same(fpu, e, c);
        let p = e.v(entry(a, m, i, k - 1));
        let s = e.sum(f, 0, k - 1);
        let d = e.times(e.v(c), p);
        lemma_times_zero(e, p);
        lemma_group(e, al, e.v(x[k - 1]), p);
        lemma_swap(e, e.v(x[k - 1]), p);
        assert(d == e.times(al, f(k - 1)));
        lemma_distributes(e, al, s, f(k - 1));
        let old = e.plus(e.times(al, s), e.v(start));
        lemma_nil(e, old);
        lemma_group(e, e.times(al, s), e.v(start), d);
        lemma_swap(e, e.v(start), d);
        lemma_group(e, e.times(al, s), d, e.v(start));
    }
}

/// The product of a matrix with a vector: `alpha` times the row times the
/// vector, plus `beta` times what was there.
pub proof fn law_gemv<F: Fn(FloatOp, Real, Real, Real) -> Real>(
    fpu: &Fpu<F>,
    e: Exact,
    m: int,
    alpha: Real,
    a: Seq<Real>,
    x: Seq<Real>,
    beta: Real,
    y: Seq<Real>,
    i: int,
)
    requires
        exact(fpu, e),
        0 <= i < y.len(),
    ensures
        e.v(gemv(fpu, m, alpha, a, x, beta, y)[i]) == e.plus(
            e.times(e.v(alpha), e.sum(row_term(e, m, a, x, i), 0, x.len() as int)),
            e.times(e.v(beta), e.v(y[i])),
        ),
{
    lemma_damped(fpu, e, beta, y[i]);
    lemma_same(fpu, e, alpha);
    lemma_times_zero(e, e.sum(row_term(e, m, a, x, i), 0, x.len() as int));
    lemma_nil(e, e.v(damped(fpu, beta, y[i])));
    lemma_gemv_entry(fpu, e, m, alpha, a, x, damped(fpu, beta, y[i]), i, x.len());
}

/// The same with the matrix turned over.
pub proof fn law_gemv_t<F: Fn(FloatOp, Real, Real, Real) -> Real>(
    fpu: &Fpu<F>,
    e: Exact,
    m: int,
    alpha: Real,
    a: Seq<Real>,
    x: Seq<Real>,
    beta: Real,
    y: Seq<Real>,
    j: int,
)
    requires
        exact(fpu, e),
        0 <= j < y.len(),
    ensures
        e.v(gemv_t(fpu, m, alpha, a, x, beta, y)[j]) == e.plus(
            e.times(e.v(alpha), e.sum(|i: int| e.times(e.v(entry(a, m, i, j)), e.v(x[i])), 0, x.len() as int)),
            e.times(e.v(beta), e.v(y[j])),
        ),
{
    lemma_ops(fpu, e);
    lemma_damped(fpu, e, beta, y[j]);
    lemma_same(fpu, e, alpha);
    let f = |i: int| e.times(e.v(entry(a, m, i, j)), e.v(x[i]));
    let s = column_products(fpu, m, a, x, j);
    law_total(fpu, e, s);
    lemma_sum_same(e, e.at(s), f, 0, x.len() as int);
    let t = e.sum(f, 0, x.len() as int);
    lemma_times_zero(e, t);
    let d = e.v(damped(fpu, beta, y[j]));
    lemma_nil(e, d);
    lemma_swap(e, d, e.times(e.v(alpha), t));
}

/// The rank-one update of an entry.
pub proof fn law_ger<F: Fn(FloatOp, Real, Real, Real) -> Real>(
    fpu: &Fpu<F>,
    e: Exact,
    alpha: Real,
    x: Real,
    y: Real,
    a: Real,
)
    requires
        exact(fpu, e),
    ensures
        e.v(ger_entry(fpu, alpha, x, y, a)) == e.plus(e.v(a), e.times(e.v(alpha), e.times(e.v(x), e.v(y)))),
{
    lemma_ops(fpu, e);
    let f = fpu.times(alpha, y);
    lemma_same(fpu, e, f);
    lemma_times_zero(e, e.v(x));
    lemma_nil(e, e.v(a));
    lemma_group(e, e.v(alpha), e.v(y), e.v(x));
    lemma_swap(e, e.v(y), e.v(x));
}

// ── Least squares ──────────────────────────────────────────────────────────

proof fn lemma_fused<F: Fn(FloatOp, Real, Real, Real) -> Real>(
    fpu: &Fpu<F>,
    e: Exact,
    u: spec_fn(int) -> Real,
    v: spec_fn(int) -> Real,
    m: int,
    r: nat,
)
    requires
        exact(fpu, e),
    ensures
        e.v(fused(fpu, u, v, m, r)) == e.sum(|i: int| e.times(e.v(u(i)), e.v(v(i))), 0, r as int),
    decreases r,
{
    lemma_ops(fpu, e);
    let f = |i: int| e.times(e.v(u(i)), e.v(v(i)));
    if r == 0 {
    } else if r % 4 == 0 && r <= m - m % 4 {
        let b = r - 4;
        lemma_fused(fpu, e, u, v, m, b as nat);
        let (p0, p1, p2, p3) = (f(b), f(b + 1), f(b + 2), f(b + 3));
        let s = e.sum(f, 0, b);
        assert(e.sum(f, 0, b + 1) == e.plus(s, p0));
        assert(e.sum(f, 0, b + 2) == e.plus(e.plus(s, p0), p1));
        assert(e.sum(f, 0, b + 3) == e.plus(e.plus(e.plus(s, p0), p1), p2));
        assert(e.sum(f, 0, b + 4) == e.plus(e.plus(e.plus(e.plus(s, p0), p1), p2), p3));
        lemma_group(e, s, p0, p1);
        lemma_group(e, s, e.plus(p0, p1), p2);
        lemma_group(e, s, e.plus(e.plus(p0, p1), p2), p3);
    } else {
        lemma_fused(fpu, e, u, v, m, (r - 1) as nat);
        assert(e.sum(f, 0, r as int) == e.plus(e.sum(f, 0, r - 1), f(r - 1)));
    }
}

/// `X' X` holds the sums of the products of two columns.
pub proof fn law_cross<F: Fn(FloatOp, Real, Real, Real) -> Real>(
    fpu: &Fpu<F>,
    e: Exact,
    m: nat,
    n: nat,
    x: Seq<Real>,
    i: int,
    j: int,
)
    requires
        exact(fpu, e),
        0 <= i < n,
        0 <= j < n,
    ensures
        e.v(entry(cross(fpu, m, n, x), n as int, i, j)) == e.sum(
            |r: int| e.times(e.v(entry(x, m as int, r, i)), e.v(entry(x, m as int, r, j))),
            0,
            m as int,
        ),
{
    lemma_entry(
        n,
        n,
        |i: int, j: int|
            if i >= j {
                fused(fpu, |r: int| x[i * m + r], |r: int| x[j * m + r], m as int, m)
            } else {
                fused(fpu, |r: int| x[j * m + r], |r: int| x[i * m + r], m as int, m)
            },
        i,
        j,
    );
    let u = |r: int| x[i * m + r];
    let v = |r: int| x[j * m + r];
    lemma_fused(fpu, e, u, v, m as int, m);
    lemma_fused(fpu, e, v, u, m as int, m);
    let f = |r: int| e.times(e.v(entry(x, m as int, r, i)), e.v(entry(x, m as int, r, j)));
    lemma_sum_same(e, |r: int| e.times(e.v(u(r)), e.v(v(r))), f, 0, m as int);
    let g = |r: int| e.times(e.v(v(r)), e.v(u(r)));
    assert forall|r: int| 0 <= r < m implies #[trigger] g(r) == f(r) by {
        lemma_swap(e, e.v(v(r)), e.v(u(r)));
    }
    lemma_sum_same(e, g, f, 0, m as int);
}

/// `X' y` holds the sums of the products of a column with the vector.
pub proof fn law_cross_vector<F: Fn(FloatOp, Real, Real, Real) -> Real>(
    fpu: &Fpu<F>,
    e: Exact,
    m: nat,
    n: nat,
    x: Seq<Real>,
    y: Seq<Real>,
    j: int,
)
    requires
        exact(fpu, e),
        0 <= j < n,
    ensures
        e.v(cross_vector(fpu, m, n, x, y)[j]) == e.sum(
            |r: int| e.times(e.v(entry(x, m as int, r, j)), e.v(y[r])),
            0,
            m as int,
        ),
{
    let u = |r: int| x[j * m + r];
    let v = |r: int| y[0 + r];
    lemma_fused(fpu, e, u, v, m as int, m);
    lemma_sum_same(
        e,
        |r: int| e.times(e.v(u(r)), e.v(v(r))),
        |r: int| e.times(e.v(entry(x, m as int, r, j)), e.v(y[r])),
        0,
        m as int,
    );
}

/// The fitted value of row `r`.
pub open spec fn fitted(e: Exact, m: int, n: int, x: Seq<Real>, b: Seq<Real>, r: int) -> int {
    e.sum(|j: int| e.times(e.v(entry(x, m, r, j)), e.v(b[j])), 0, n)
}

/// Least squares: the residuals are orthogonal to every column.
pub proof fn law_least_squares<F: Fn(FloatOp, Real, Real, Real) -> Real>(
    fpu: &Fpu<F>,
    e: Exact,
    m: nat,
    n: nat,
    x: Seq<Real>,
    y: Seq<Real>,
    l: Seq<Real>,
    i: int,
)
    requires
        exact(fpu, e),
        0 <= i < n,
        factored_cholesky(e, n as int, |i: int, j: int| e.v(entry(cross(fpu, m, n, x), n as int, i, j)), l),
        pivots_count(e, n as int, l),
        first_tiny(n as int, l, 0) >= n,
    ensures
        ({
            let b = cholesky_solution(fpu, n as int, l, cross_vector(fpu, m, n, x, y));
            e.sum(
                |r: int|
                    e.times(
                        e.v(entry(x, m as int, r, i)),
                        e.minus(e.v(y[r]), fitted(e, m as int, n as int, x, b, r)),
                    ),
                0,
                m as int,
            ) == e.zero
        }),
{
    let c = cross(fpu, m, n, x);
    let h = cross_vector(fpu, m, n, x, y);
    let b = cholesky_solution(fpu, n as int, l, h);
    let g = |i: int, j: int| e.v(entry(c, n as int, i, j));
    law_cholesky_solves(fpu, e, n as int, g, l, h, i);
    law_cross_vector(fpu, e, m, n, x, y, i);
    let xi = |r: int| e.v(entry(x, m as int, r, i));
    let fit = |r: int| fitted(e, m as int, n as int, x, b, r);
    let yv = |r: int| e.times(e.v(entry(x, m as int, r, i)), e.v(y[r]));
    let want = |r: int| e.times(e.v(entry(x, m as int, r, i)), e.minus(e.v(y[r]), fitted(e, m as int, n as int, x, b, r)));
    let t = |r: int, j: int| e.times(xi(r), e.times(e.v(entry(x, m as int, r, j)), e.v(b[j])));
    let left = |j: int| e.times(g(i, j), e.v(b[j]));
    let cols = |j: int| e.sum(|r: int| t(r, j), 0, m as int);
    assert forall|j: int| 0 <= j < n implies #[trigger] cols(j) == left(j) by {
        law_cross(fpu, e, m, n, x, i, j);
        let p = |r: int| e.times(e.v(entry(x, m as int, r, i)), e.v(entry(x, m as int, r, j)));
        let q = |r: int| t(r, j);
        assert forall|r: int| 0 <= r < m implies #[trigger] q(r) == e.times(e.v(b[j]), p(r)) by {
            lemma_group(e, xi(r), e.v(entry(x, m as int, r, j)), e.v(b[j]));
            lemma_swap(e, p(r), e.v(b[j]));
        }
        lemma_sum_times(e, e.v(b[j]), p, q, 0, m as int);
        lemma_swap(e, e.v(b[j]), g(i, j));
    }
    lemma_sum_same(e, cols, left, 0, n as int);
    lemma_sum_same(e, left, |j: int| e.times(g(i, j), e.v(cholesky_solution(fpu, n as int, l, h)[j])), 0, n as int);
    lemma_sum_swap(e, t, 0, m as int, 0, n as int);
    let rows = |r: int| e.sum(|j: int| t(r, j), 0, n as int);
    let fits = |r: int| e.times(xi(r), fit(r));
    assert forall|r: int| 0 <= r < m implies #[trigger] rows(r) == fits(r) by {
        lemma_sum_times(
            e,
            xi(r),
            |j: int| e.times(e.v(entry(x, m as int, r, j)), e.v(b[j])),
            |j: int| t(r, j),
            0,
            n as int,
        );
    }
    lemma_sum_same(e, rows, fits, 0, m as int);
    assert forall|r: int| 0 <= r < m implies #[trigger] yv(r) == e.plus(want(r), fits(r)) by {
        lemma_times_minus(e, xi(r), e.v(y[r]), fit(r));
        lemma_minus(e, yv(r), fits(r));
    }
    lemma_sum_plus(e, want, fits, yv, 0, m as int);
    let total_y = e.sum(yv, 0, m as int);
    assert(e.sum(fits, 0, m as int) == total_y);
    lemma_nil(e, total_y);
    lemma_cancel(e, e.sum(want, 0, m as int), e.zero, total_y);
}

/// The solution of two equations solves them.
pub proof fn law_solves_two<F: Fn(FloatOp, Real, Real, Real) -> Real>(fpu: &Fpu<F>, e: Exact, a: Seq<Real>, b: Seq<Real>)
    requires
        exact(fpu, e),
        a.len() == 4,
        b.len() == 2,
        e.minus(e.times(e.v(a[0]), e.v(a[3])), e.times(e.v(a[1]), e.v(a[2]))) != e.zero,
    ensures
        ({
            let x = solution_2x2(fpu, a, b);
            &&& e.plus(e.times(e.v(a[0]), e.v(x[0])), e.times(e.v(a[2]), e.v(x[1]))) == e.v(b[0])
            &&& e.plus(e.times(e.v(a[1]), e.v(x[0])), e.times(e.v(a[3]), e.v(x[1]))) == e.v(b[1])
        }),
{
    lemma_ops(fpu, e);
    let x = solution_2x2(fpu, a, b);
    let (a0, a1, a2, a3) = (e.v(a[0]), e.v(a[1]), e.v(a[2]), e.v(a[3]));
    let (b0, b1) = (e.v(b[0]), e.v(b[1]));
    let d = e.minus(e.times(a0, a3), e.times(a1, a2));
    let det = minor(fpu, a[0], a[3], a[1], a[2]);
    let w = e.v(fpu.over(one(), det));
    assert(e.v(det) == d);
    assert(e.times(w, d) == e.one);
    let t0 = e.minus(e.times(a3, b0), e.times(a2, b1));
    let t1 = e.minus(e.times(a0, b1), e.times(a1, b0));
    assert(e.v(x[0]) == e.times(w, t0));
    assert(e.v(x[1]) == e.times(w, t1));
    lemma_both(e, w, a0, t0, a2, t1);
    lemma_both(e, w, a1, t0, a3, t1);
    // a0 t0 + a2 t1 is d b0.
    lemma_times_minus(e, a0, e.times(a3, b0), e.times(a2, b1));
    lemma_times_minus(e, a2, e.times(a0, b1), e.times(a1, b0));
    lemma_three(e, a0, a2, b1);
    lemma_group(e, a0, a3, b0);
    lemma_three(e, a2, a1, b0);
    lemma_group(e, a1, a2, b0);
    lemma_times_minus(e, b0, e.times(a0, a3), e.times(a1, a2));
    lemma_bridge(e, e.times(e.times(a0, a3), b0), e.times(a0, e.times(a2, b1)), e.times(e.times(a1, a2), b0));
    lemma_group(e, w, d, b0);
    lemma_nil(e, b0);
    // a1 t0 + a3 t1 is d b1.
    lemma_times_minus(e, a1, e.times(a3, b0), e.times(a2, b1));
    lemma_times_minus(e, a3, e.times(a0, b1), e.times(a1, b0));
    lemma_three(e, a1, a3, b0);
    lemma_three(e, a3, a0, b1);
    lemma_group(e, a0, a3, b1);
    lemma_group(e, a1, a2, b1);
    lemma_times_minus(e, b1, e.times(a0, a3), e.times(a1, a2));
    let r = e.times(a1, e.times(a3, b0));
    let s = e.times(e.times(a1, a2), b1);
    let t = e.times(e.times(a0, a3), b1);
    lemma_swap(e, e.minus(r, s), e.minus(t, r));
    lemma_bridge(e, t, r, s);
    lemma_group(e, w, d, b1);
    lemma_nil(e, b1);
}

proof fn lemma_both(e: Exact, w: int, a: int, t: int, b: int, u: int)
    requires
        e.field(),
    ensures
        e.plus(e.times(a, e.times(w, t)), e.times(b, e.times(w, u))) == e.times(w, e.plus(e.times(a, t), e.times(b, u))),
{
    lemma_three(e, a, w, t);
    lemma_three(e, b, w, u);
    lemma_distributes(e, w, e.times(a, t), e.times(b, u));
}

proof fn lemma_three(e: Exact, a: int, b: int, c: int)
    requires
        e.field(),
    ensures
        e.times(a, e.times(b, c)) == e.times(b, e.times(a, c)),
{
    lemma_group(e, a, b, c);
    lemma_swap(e, a, b);
    lemma_group(e, b, a, c);
}

proof fn lemma_bridge(e: Exact, p: int, k: int, q: int)
    requires
        e.field(),
    ensures
        e.plus(e.minus(p, k), e.minus(k, q)) == e.minus(p, q),
{
    lemma_group(e, e.minus(p, k), k, e.opposite(q));
    lemma_minus(e, p, k);
}

} // verus!
