//! What the solvers are for: their results solve the systems that they are
//! given. Stated for exact arithmetic.
use crate::double::{FloatOp, Fpu, Real, one, zero};
use crate::exact::{
    Exact, exact, lemma_group, lemma_minus, lemma_nil, lemma_ops, lemma_sum_cut, lemma_sum_first, lemma_sum_same,
    lemma_sum_swap, lemma_sum_times, lemma_sum_zero, lemma_swap, lemma_times_zero,
};
use crate::grid::{entry, lemma_entry};
use crate::linalg::{backward, first_tiny, forward, last_tiny, lower_rest, upper_rest};
use crate::linalg_solve::{cholesky_solution, inverse, lu_solution, permuted, unit_column};
use vstd::prelude::*;

verus! {

/// The product of entry `(i, j)` of a matrix with entry `j` of a vector.
pub open spec fn row_term(e: Exact, n: int, a: Seq<Real>, x: Seq<Real>, i: int) -> spec_fn(int) -> int {
    |j: int| e.times(e.v(entry(a, n, i, j)), e.v(x[j]))
}

/// The same with the matrix turned over.
pub open spec fn column_term(e: Exact, n: int, a: Seq<Real>, x: Seq<Real>, i: int) -> spec_fn(int) -> int {
    |j: int| e.times(e.v(entry(a, n, j, i)), e.v(x[j]))
}

/// No entry on the diagonal is worth zero.
pub open spec fn pivots_count(e: Exact, n: int, a: Seq<Real>) -> bool {
    forall|i: int| 0 <= i < n ==> e.v(#[trigger] entry(a, n, i, i)) != e.zero
}

// ── Triangular systems ─────────────────────────────────────────────────────

/// What was taken away, added again.
proof fn lemma_restored(e: Exact, a: int, p: int, s: int, b: int)
    requires
        e.field(),
        e.plus(a, s) == b,
    ensures
        e.plus(e.minus(a, p), e.plus(s, p)) == b,
{
    lemma_swap(e, s, p);
    lemma_group(e, e.minus(a, p), p, s);
    lemma_minus(e, a, p);
}

proof fn lemma_lower_rest<F: Fn(FloatOp, Real, Real, Real) -> Real>(
    fpu: &Fpu<F>,
    e: Exact,
    n: int,
    l: Seq<Real>,
    x: Seq<Real>,
    b: Real,
    i: int,
    k: nat,
)
    requires
        exact(fpu, e),
    ensures
        e.plus(e.v(lower_rest(fpu, n, l, x, b, i, k)), e.sum(row_term(e, n, l, x, i), 0, k as int)) == e.v(b),
    decreases k,
{
    lemma_ops(fpu, e);
    if k == 0 {
        lemma_nil(e, e.v(b));
    } else {
        lemma_lower_rest(fpu, e, n, l, x, b, i, (k - 1) as nat);
        let f = row_term(e, n, l, x, i);
        let a = e.v(lower_rest(fpu, n, l, x, b, i, (k - 1) as nat));
        lemma_restored(e, a, f(k - 1), e.sum(f, 0, k - 1), e.v(b));
    }
}

proof fn lemma_lower_frame<F: Fn(FloatOp, Real, Real, Real) -> Real>(
    fpu: &Fpu<F>,
    n: int,
    l: Seq<Real>,
    b: Seq<Real>,
    unit: bool,
    i: nat,
    k: nat,
)
    requires
        i <= k <= b.len(),
    ensures
        forward(fpu, n, l, b, unit, k).len() == b.len(),
        forall|j: int| 0 <= j < i ==> #[trigger] forward(fpu, n, l, b, unit, k)[j] == forward(fpu, n, l, b, unit, i)[j],
    decreases k,
{
    if k > 0 {
        if i < k {
            lemma_lower_frame(fpu, n, l, b, unit, i, (k - 1) as nat);
        } else {
            lemma_lower_frame(fpu, n, l, b, unit, (k - 1) as nat, (k - 1) as nat);
        }
    }
}

/// Forward substitution solves `L x = b`: in every row the products of the
/// matrix with the solution add up to the right-hand side. With a unit diagonal
/// the solution's own entry counts once.
pub proof fn law_forward<F: Fn(FloatOp, Real, Real, Real) -> Real>(
    fpu: &Fpu<F>,
    e: Exact,
    n: int,
    l: Seq<Real>,
    b: Seq<Real>,
    unit: bool,
    k: nat,
    i: int,
)
    requires
        exact(fpu, e),
        0 <= i < k <= n == b.len(),
        pivots_count(e, n, l),
    ensures
        ({
            let x = forward(fpu, n, l, b, unit, k);
            e.v(b[i]) == if unit {
                e.plus(e.sum(row_term(e, n, l, x, i), 0, i), e.v(x[i]))
            } else {
                e.sum(row_term(e, n, l, x, i), 0, i + 1)
            }
        }),
{
    lemma_ops(fpu, e);
    let x = forward(fpu, n, l, b, unit, k);
    let y = forward(fpu, n, l, b, unit, i as nat);
    let z = forward(fpu, n, l, b, unit, (i + 1) as nat);
    lemma_lower_frame(fpu, n, l, b, unit, (i + 1) as nat, k);
    lemma_lower_frame(fpu, n, l, b, unit, i as nat, k);
    lemma_lower_frame(fpu, n, l, b, unit, i as nat, i as nat);
    let rest = lower_rest(fpu, n, l, y, b[i], i, i as nat);
    lemma_lower_rest(fpu, e, n, l, y, b[i], i, i as nat);
    assert(x[i] == z[i]);
    lemma_sum_same(e, row_term(e, n, l, y, i), row_term(e, n, l, x, i), 0, i);
    let s = e.sum(row_term(e, n, l, x, i), 0, i);
    lemma_swap(e, e.v(rest), s);
    if !unit {
        let d = entry(l, n, i, i);
        assert(e.v(d) != e.zero);
        assert(x[i] == fpu.over(rest, d));
        lemma_swap(e, e.v(d), e.v(x[i]));
    }
}

proof fn lemma_upper_rest<F: Fn(FloatOp, Real, Real, Real) -> Real>(
    fpu: &Fpu<F>,
    e: Exact,
    n: int,
    u: Seq<Real>,
    x: Seq<Real>,
    b: Real,
    t: bool,
    i: int,
    k: int,
)
    requires
        exact(fpu, e),
        i < k,
    ensures
        e.plus(
            e.v(upper_rest(fpu, n, u, x, b, t, i, k)),
            e.sum(
                if t {
                    column_term(e, n, u, x, i)
                } else {
                    row_term(e, n, u, x, i)
                },
                i + 1,
                k,
            ),
        ) == e.v(b),
    decreases k - i,
{
    lemma_ops(fpu, e);
    if k <= i + 1 {
        lemma_nil(e, e.v(b));
    } else {
        lemma_upper_rest(fpu, e, n, u, x, b, t, i, k - 1);
        let f = if t {
            column_term(e, n, u, x, i)
        } else {
            row_term(e, n, u, x, i)
        };
        let a = e.v(upper_rest(fpu, n, u, x, b, t, i, k - 1));
        lemma_restored(e, a, f(k - 1), e.sum(f, i + 1, k - 1), e.v(b));
    }
}

proof fn lemma_upper_frame<F: Fn(FloatOp, Real, Real, Real) -> Real>(
    fpu: &Fpu<F>,
    n: int,
    u: Seq<Real>,
    b: Seq<Real>,
    t: bool,
    from: int,
    i: int,
)
    requires
        0 <= from <= i,
        n == b.len(),
    ensures
        backward(fpu, n, u, b, t, from).len() == b.len(),
        forall|j: int| i <= j < n ==> #[trigger] backward(fpu, n, u, b, t, from)[j] == backward(fpu, n, u, b, t, i)[j],
    decreases n - from,
{
    if from < n {
        if from < i {
            lemma_upper_frame(fpu, n, u, b, t, from + 1, i);
        } else {
            lemma_upper_frame(fpu, n, u, b, t, from + 1, from + 1);
        }
    }
}

/// Back substitution solves `U x = b`, or `L' x = b` where the matrix is turned
/// over: in every row that is solved the products of the matrix with the
/// solution add up to the right-hand side.
pub proof fn law_backward<F: Fn(FloatOp, Real, Real, Real) -> Real>(
    fpu: &Fpu<F>,
    e: Exact,
    n: int,
    u: Seq<Real>,
    b: Seq<Real>,
    t: bool,
    from: int,
    i: int,
)
    requires
        exact(fpu, e),
        0 <= from <= i < n == b.len(),
        pivots_count(e, n, u),
    ensures
        ({
            let x = backward(fpu, n, u, b, t, from);
            e.v(b[i]) == e.sum(
                if t {
                    column_term(e, n, u, x, i)
                } else {
                    row_term(e, n, u, x, i)
                },
                i,
                n,
            )
        }),
{
    lemma_ops(fpu, e);
    let x = backward(fpu, n, u, b, t, from);
    let y = backward(fpu, n, u, b, t, i + 1);
    lemma_upper_frame(fpu, n, u, b, t, from, i);
    lemma_upper_frame(fpu, n, u, b, t, i, i + 1);
    lemma_upper_frame(fpu, n, u, b, t, i + 1, i + 1);
    let f = if t {
        column_term(e, n, u, x, i)
    } else {
        row_term(e, n, u, x, i)
    };
    let g = if t {
        column_term(e, n, u, y, i)
    } else {
        row_term(e, n, u, y, i)
    };
    let rest = upper_rest(fpu, n, u, y, b[i], t, i, n);
    lemma_upper_rest(fpu, e, n, u, y, b[i], t, i, n);
    assert forall|j: int| i + 1 <= j < n implies #[trigger] f(j) == g(j) by {
        assert(x[j] == backward(fpu, n, u, b, t, i)[j]);
        assert(backward(fpu, n, u, b, t, i)[j] == y[j]);
    }
    lemma_sum_same(e, f, g, i + 1, n);
    let d = entry(u, n, i, i);
    assert(e.v(d) != e.zero);
    assert(x[i] == backward(fpu, n, u, b, t, i)[i]);
    assert(x[i] == fpu.over(rest, d));
    lemma_swap(e, e.v(d), e.v(x[i]));
    lemma_sum_first(e, f, i, n);
}

// ── Factored systems ───────────────────────────────────────────────────────

pub open spec fn smaller_of(a: int, b: int) -> int {
    if a < b {
        a
    } else {
        b
    }
}

/// Entry `(i, j)` of the product of the factors that one matrix holds: the
/// lower one below the diagonal, with ones on it, and the upper one from it on.
pub open spec fn lu_entry(e: Exact, n: int, a: Seq<Real>, i: int, j: int) -> int {
    let f = |k: int| e.times(e.v(entry(a, n, i, k)), e.v(entry(a, n, k, j)));
    if i <= j {
        e.plus(e.sum(f, 0, i), e.v(entry(a, n, i, j)))
    } else {
        e.sum(f, 0, j + 1)
    }
}

/// The matrix `m`, with its rows in the order `p`, is the product of the
/// factors in `a`.
pub open spec fn factored_lu(e: Exact, n: int, m: Seq<Real>, a: Seq<Real>, p: Seq<usize>) -> bool {
    forall|i: int, j: int|
        0 <= i < n && 0 <= j < n ==> e.v(#[trigger] entry(m, n, p[i] as int, j)) == lu_entry(e, n, a, i, j)
}

/// The upper factor's entry, zero below the diagonal.
spec fn upper_at(e: Exact, n: int, a: Seq<Real>, k: int, j: int) -> int {
    if k <= j {
        e.v(entry(a, n, k, j))
    } else {
        e.zero
    }
}

/// The lower factor's entry: one on the diagonal, zero above it.
spec fn lower_at(e: Exact, n: int, a: Seq<Real>, i: int, k: int) -> int {
    if k < i {
        e.v(entry(a, n, i, k))
    } else if k == i {
        e.one
    } else {
        e.zero
    }
}

proof fn lemma_lu_entry(e: Exact, n: int, a: Seq<Real>, i: int, j: int)
    requires
        e.field(),
        0 <= i < n,
        0 <= j < n,
    ensures
        lu_entry(e, n, a, i, j) == e.sum(|k: int| e.times(lower_at(e, n, a, i, k), upper_at(e, n, a, k, j)), 0, n),
{
    let f = |k: int| e.times(e.v(entry(a, n, i, k)), e.v(entry(a, n, k, j)));
    let h = |k: int| e.times(lower_at(e, n, a, i, k), upper_at(e, n, a, k, j));
    if i <= j {
        lemma_sum_cut(e, h, 0, i + 1, n);
        assert forall|k: int| i + 1 <= k < n implies #[trigger] h(k) == e.zero by {
            lemma_times_zero(e, upper_at(e, n, a, k, j));
        }
        lemma_sum_zero(e, h, i + 1, n);
        lemma_nil(e, e.sum(h, 0, i + 1));
        lemma_sum_same(e, f, h, 0, i);
        lemma_nil(e, e.v(entry(a, n, i, j)));
        assert(h(i) == e.v(entry(a, n, i, j)));
    } else {
        lemma_sum_cut(e, h, 0, j + 1, n);
        assert forall|k: int| j + 1 <= k < n implies #[trigger] h(k) == e.zero by {
            lemma_times_zero(e, lower_at(e, n, a, i, k));
        }
        lemma_sum_zero(e, h, j + 1, n);
        lemma_nil(e, e.sum(h, 0, j + 1));
        lemma_sum_same(e, f, h, 0, j + 1);
    }
}

/// A product of matrices applied to a vector: first the right factor, then the
/// left one.
proof fn lemma_product_applied(
    e: Exact,
    n: int,
    lo: spec_fn(int) -> int,
    up: spec_fn(int, int) -> int,
    x: spec_fn(int) -> int,
)
    requires
        e.field(),
    ensures
        e.sum(|j: int| e.times(e.sum(|k: int| e.times(lo(k), up(k, j)), 0, n), x(j)), 0, n) == e.sum(
            |k: int| e.times(lo(k), e.sum(|j: int| e.times(up(k, j), x(j)), 0, n)),
            0,
            n,
        ),
{
    let term = |j: int, k: int| e.times(lo(k), e.times(up(k, j), x(j)));
    let left = |j: int| e.times(e.sum(|k: int| e.times(lo(k), up(k, j)), 0, n), x(j));
    let mid = |j: int| e.sum(|k: int| term(j, k), 0, n);
    assert forall|j: int| 0 <= j < n implies #[trigger] left(j) == mid(j) by {
        let f = |k: int| e.times(lo(k), up(k, j));
        let g = |k: int| term(j, k);
        assert forall|k: int| 0 <= k < n implies #[trigger] g(k) == e.times(x(j), f(k)) by {
            lemma_group(e, lo(k), up(k, j), x(j));
            lemma_swap(e, f(k), x(j));
        }
        lemma_sum_times(e, x(j), f, g, 0, n);
        lemma_swap(e, x(j), e.sum(f, 0, n));
    }
    lemma_sum_same(e, left, mid, 0, n);
    lemma_sum_swap(e, term, 0, n, 0, n);
    let back = |k: int| e.sum(|j: int| term(j, k), 0, n);
    let right = |k: int| e.times(lo(k), e.sum(|j: int| e.times(up(k, j), x(j)), 0, n));
    assert forall|k: int| 0 <= k < n implies #[trigger] back(k) == right(k) by {
        lemma_sum_times(e, lo(k), |j: int| e.times(up(k, j), x(j)), |j: int| term(j, k), 0, n);
    }
    lemma_sum_same(e, back, right, 0, n);
}

/// The solution of a factored system solves the system: every row of the
/// matrix, times the solution, gives the right-hand side of that row.
pub proof fn law_lu_solves<F: Fn(FloatOp, Real, Real, Real) -> Real>(
    fpu: &Fpu<F>,
    e: Exact,
    n: int,
    m: Seq<Real>,
    a: Seq<Real>,
    p: Seq<usize>,
    b: Seq<Real>,
    i: int,
)
    requires
        exact(fpu, e),
        0 <= i < n == p.len(),
        n == b.len(),
        factored_lu(e, n, m, a, p),
        pivots_count(e, n, a),
        last_tiny(n, a, n) < 0,
    ensures
        e.sum(row_term(e, n, m, lu_solution(fpu, n, a, p, b), p[i] as int), 0, n) == e.v(b[p[i] as int]),
{
    lemma_last(n, a, n);
    let c = permuted(b, p);
    let y = forward(fpu, n, a, c, true, n as nat);
    lemma_lower_frame(fpu, n, a, c, true, n as nat, n as nat);
    let x = lu_solution(fpu, n, a, p, b);
    assert(x == backward(fpu, n, a, y, false, 0));
    let lo = |k: int| lower_at(e, n, a, i, k);
    let up = |k: int, j: int| upper_at(e, n, a, k, j);
    let xv = |j: int| e.v(x[j]);
    let f = row_term(e, n, m, x, p[i] as int);
    let left = |j: int| e.times(e.sum(|k: int| e.times(lo(k), up(k, j)), 0, n), xv(j));
    assert forall|j: int| 0 <= j < n implies #[trigger] f(j) == left(j) by {
        lemma_lu_entry(e, n, a, i, j);
        assert(e.v(entry(m, n, p[i] as int, j)) == lu_entry(e, n, a, i, j));
        lemma_sum_same(
            e,
            |k: int| e.times(lower_at(e, n, a, i, k), upper_at(e, n, a, k, j)),
            |k: int| e.times(lo(k), up(k, j)),
            0,
            n,
        );
    }
    lemma_sum_same(e, f, left, 0, n);
    lemma_product_applied(e, n, lo, up, xv);
    let right = |k: int| e.times(lo(k), e.sum(|j: int| e.times(up(k, j), xv(j)), 0, n));
    let done = |k: int| e.times(lo(k), e.v(y[k]));
    assert forall|k: int| 0 <= k < n implies #[trigger] right(k) == done(k) by {
        let g = |j: int| e.times(up(k, j), xv(j));
        lemma_sum_cut(e, g, 0, k, n);
        assert forall|j: int| 0 <= j < k implies #[trigger] g(j) == e.zero by {
            lemma_times_zero(e, xv(j));
        }
        lemma_sum_zero(e, g, 0, k);
        lemma_nil(e, e.sum(g, k, n));
        lemma_sum_same(e, g, row_term(e, n, a, x, k), k, n);
        law_backward(fpu, e, n, a, y, false, 0, k);
    }
    lemma_sum_same(e, right, done, 0, n);
    lemma_sum_cut(e, done, 0, i + 1, n);
    assert forall|k: int| i + 1 <= k < n implies #[trigger] done(k) == e.zero by {
        lemma_times_zero(e, e.v(y[k]));
    }
    lemma_sum_zero(e, done, i + 1, n);
    lemma_nil(e, e.sum(done, 0, i + 1));
    lemma_sum_same(e, done, row_term(e, n, a, y, i), 0, i);
    lemma_nil(e, e.v(y[i]));
    assert(done(i) == e.v(y[i]));
    law_forward(fpu, e, n, a, c, true, n as nat, i);
}

proof fn lemma_last(n: int, a: Seq<Real>, to: int)
    ensures
        last_tiny(n, a, to) < 0 ==> last_tiny(n, a, to) == -1,
    decreases to,
{
    if to > 0 {
        lemma_last(n, a, to - 1);
    }
}

/// The inverse inverts: each row of the matrix, times a column of the inverse,
/// gives one on the diagonal and zero beside it.
pub proof fn law_inverse<F: Fn(FloatOp, Real, Real, Real) -> Real>(
    fpu: &Fpu<F>,
    e: Exact,
    n: nat,
    m: Seq<Real>,
    a: Seq<Real>,
    p: Seq<usize>,
    i: int,
    c: int,
)
    requires
        exact(fpu, e),
        0 <= i < n == p.len(),
        0 <= c < n,
        p[i] < n,
        factored_lu(e, n as int, m, a, p),
        pivots_count(e, n as int, a),
        last_tiny(n as int, a, n as int) < 0,
    ensures
        e.sum(
            |j: int|
                e.times(
                    e.v(entry(m, n as int, p[i] as int, j)),
                    e.v(entry(inverse(fpu, n, a, p), n as int, j, c)),
                ),
            0,
            n as int,
        ) == if p[i] == c {
            e.one
        } else {
            e.zero
        },
{
    lemma_ops(fpu, e);
    let b = unit_column(n, c);
    let x = lu_solution(fpu, n as int, a, p, b);
    law_lu_solves(fpu, e, n as int, m, a, p, b, i);
    let f = |j: int|
        e.times(
            e.v(entry(m, n as int, p[i] as int, j)),
            e.v(entry(inverse(fpu, n, a, p), n as int, j, c)),
        );
    let g = row_term(e, n as int, m, x, p[i] as int);
    let cell = |i: int, c: int| lu_solution(fpu, n as int, a, p, unit_column(n, c))[i];
    assert forall|j: int| 0 <= j < n implies #[trigger] f(j) == g(j) by {
        lemma_entry(n, n, cell, j, c);
    }
    lemma_sum_same(e, f, g, 0, n as int);
}

/// `m` is the product of the lower factor in `l` with itself turned over.
pub open spec fn factored_cholesky(e: Exact, n: int, m: spec_fn(int, int) -> int, l: Seq<Real>) -> bool {
    forall|i: int, j: int|
        0 <= i < n && 0 <= j < n ==> #[trigger] m(i, j) == e.sum(
            |k: int| e.times(e.v(entry(l, n, i, k)), e.v(entry(l, n, j, k))),
            0,
            smaller_of(i, j) + 1,
        )
}

/// The solution by a Cholesky factor solves the system.
pub proof fn law_cholesky_solves<F: Fn(FloatOp, Real, Real, Real) -> Real>(
    fpu: &Fpu<F>,
    e: Exact,
    n: int,
    m: spec_fn(int, int) -> int,
    l: Seq<Real>,
    b: Seq<Real>,
    i: int,
)
    requires
        exact(fpu, e),
        0 <= i < n == b.len(),
        factored_cholesky(e, n, m, l),
        pivots_count(e, n, l),
        first_tiny(n, l, 0) >= n,
    ensures
        e.sum(|j: int| e.times(m(i, j), e.v(cholesky_solution(fpu, n, l, b)[j])), 0, n) == e.v(b[i]),
{
    lemma_first(n, l, 0);
    let y = forward(fpu, n, l, b, false, n as nat);
    lemma_lower_frame(fpu, n, l, b, false, n as nat, n as nat);
    let x = cholesky_solution(fpu, n, l, b);
    assert(x == backward(fpu, n, l, y, true, 0));
    let lo = |k: int|
        if k <= i {
            e.v(entry(l, n, i, k))
        } else {
            e.zero
        };
    let up = |k: int, j: int|
        if k <= j {
            e.v(entry(l, n, j, k))
        } else {
            e.zero
        };
    let xv = |j: int| e.v(x[j]);
    let f = |j: int| e.times(m(i, j), e.v(x[j]));
    let left = |j: int| e.times(e.sum(|k: int| e.times(lo(k), up(k, j)), 0, n), xv(j));
    assert forall|j: int| 0 <= j < n implies #[trigger] f(j) == left(j) by {
        let g = |k: int| e.times(e.v(entry(l, n, i, k)), e.v(entry(l, n, j, k)));
        let h = |k: int| e.times(lo(k), up(k, j));
        let t = smaller_of(i, j) + 1;
        assert(m(i, j) == e.sum(g, 0, t));
        lemma_sum_same(e, g, h, 0, t);
        lemma_sum_cut(e, h, 0, t, n);
        assert forall|k: int| t <= k < n implies #[trigger] h(k) == e.zero by {
            lemma_times_zero(e, lo(k));
            lemma_times_zero(e, up(k, j));
        }
        lemma_sum_zero(e, h, t, n);
        lemma_nil(e, e.sum(h, 0, t));
    }
    lemma_sum_same(e, f, left, 0, n);
    lemma_product_applied(e, n, lo, up, xv);
    let right = |k: int| e.times(lo(k), e.sum(|j: int| e.times(up(k, j), xv(j)), 0, n));
    let done = |k: int| e.times(lo(k), e.v(y[k]));
    assert forall|k: int| 0 <= k < n implies #[trigger] right(k) == done(k) by {
        let g = |j: int| e.times(up(k, j), xv(j));
        lemma_sum_cut(e, g, 0, k, n);
        assert forall|j: int| 0 <= j < k implies #[trigger] g(j) == e.zero by {
            lemma_times_zero(e, xv(j));
        }
        lemma_sum_zero(e, g, 0, k);
        lemma_nil(e, e.sum(g, k, n));
        lemma_sum_same(e, g, column_term(e, n, l, x, k), k, n);
        law_backward(fpu, e, n, l, y, true, 0, k);
    }
    lemma_sum_same(e, right, done, 0, n);
    lemma_sum_cut(e, done, 0, i + 1, n);
    assert forall|k: int| i + 1 <= k < n implies #[trigger] done(k) == e.zero by {
        lemma_times_zero(e, e.v(y[k]));
    }
    lemma_sum_zero(e, done, i + 1, n);
    lemma_nil(e, e.sum(done, 0, i + 1));
    lemma_sum_same(e, done, row_term(e, n, l, y, i), 0, i + 1);
    law_forward(fpu, e, n, l, b, false, n as nat, i);
}

proof fn lemma_first(n: int, l: Seq<Real>, from: int)
    requires
        from <= n,
    ensures
        first_tiny(n, l, from) <= n,
    decreases n - from,
{
    if from < n {
        lemma_first(n, l, from + 1);
    }
}

} // verus!
