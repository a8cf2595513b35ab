//! What the models compute, by what their results satisfy in exact arithmetic.
use crate::double::{FloatOp, Fpu, INF, Real, nat_real, num, one, zero};
use crate::exact::{
    Exact, exact, law_total, lemma_cancel_factor, lemma_count, lemma_minus, lemma_nil, lemma_nonzero, lemma_ops,
    lemma_shuffle_factors, lemma_sum_same, lemma_sum_table, lemma_sum_times, lemma_swap,
};
use crate::grid::{entry, lemma_entry};
use crate::grouping::positions;
use crate::kernel_laws::{has_deviation, is_mean, squares_about, takes_roots};
use crate::ml_kmeans::{
    centre, cluster_mean, first_centres, gap, grid_mean, member_values, nearest, recentred, spread_terms, total_spread,
    within_sums,
};
use crate::ml_knn::{class_variance, row_gap};
use crate::ml_prcomp::{FLAT_BITS, column_sd, compensated, kahan_cov, prepared, prepared_cell, share};
use crate::stats_laws::law_mean;
use crate::value::Grid;
use vstd::prelude::*;

verus! {

// ── Principal components ───────────────────────────────────────────────────

/// A column of a matrix.
pub open spec fn grid_column(g: Grid, j: int) -> Seq<Real> {
    Seq::new(g.nrow, |i: int| g.at(i, j))
}

/// The deviation that a column is divided by: its square, times the rows less
/// one, is the sum of the squared distances from the mean, unless the column is
/// flat.
pub proof fn law_column_deviation<F: Fn(FloatOp, Real, Real, Real) -> Real>(
    fpu: &Fpu<F>,
    e: Exact,
    g: Grid,
    j: int,
    m: int,
)
    requires
        exact(fpu, e),
        takes_roots(fpu, e),
        2 <= g.nrow < 0x20_0000_0000_0000,
        e.count(g.nrow) != e.zero,
        e.count((g.nrow - 1) as nat) != e.zero,
        is_mean(e, grid_column(g, j), m),
        has_deviation(e, grid_column(g, j), m),
    ensures
        e.v(grid_mean(fpu, g, j)) == m,
        column_sd(fpu, g, j) == one() || e.times(e.square(e.v(column_sd(fpu, g, j))), e.count((g.nrow - 1) as nat))
            == squares_about(e, grid_column(g, j), m),
        !column_sd(fpu, g, j).below(num(FLAT_BITS)) || column_sd(fpu, g, j) == one(),
{
    lemma_ops(fpu, e);
    let s = grid_column(g, j);
    law_mean(fpu, e, s);
    let c = grid_mean(fpu, g, j);
    lemma_cancel_factor(e, e.v(c), m, e.count(s.len()));
    let d = Seq::new(g.nrow, |i: int| fpu.square_diff(g.at(i, j), c));
    law_total(fpu, e, d);
    lemma_sum_same(e, e.at(d), |i: int| e.square(e.minus(e.v(s[i]), m)), 0, g.nrow as int);
    lemma_count(fpu, e, (g.nrow - 1) as nat);
    let x = fpu.over(crate::grid::total(fpu, d), nat_real((g.nrow - 1) as nat));
    let q = choose|q: int|
        e.times(#[trigger] e.square(q), e.count((s.len() - 1) as nat)) == squares_about(e, s, m);
    lemma_cancel_factor(e, e.square(q), e.v(x), e.count((g.nrow - 1) as nat));
    assert(crate::kernel_laws::has_root(e, e.v(x)));
    assert(e.square(e.v(fpu.sqrt(x))) == e.v(x));
}

/// The prepared matrix, undone: each cell times the deviation of its column
/// plus the mean of the column is the cell of the input.
pub proof fn law_prepared<F: Fn(FloatOp, Real, Real, Real) -> Real>(
    fpu: &Fpu<F>,
    e: Exact,
    g: Grid,
    scale: bool,
    i: int,
    j: int,
)
    requires
        exact(fpu, e),
        0 <= i < g.nrow,
        0 <= j < g.ncol,
        e.v(column_sd(fpu, g, j)) != e.zero,
    ensures
        scale ==> e.plus(
            e.times(e.v(entry(prepared(fpu, g, true, true), g.nrow as int, i, j)), e.v(column_sd(fpu, g, j))),
            e.v(grid_mean(fpu, g, j)),
        ) == e.v(g.at(i, j)),
        !scale ==> e.plus(
            e.v(entry(prepared(fpu, g, true, false), g.nrow as int, i, j)),
            e.v(grid_mean(fpu, g, j)),
        ) == e.v(g.at(i, j)),
        entry(prepared(fpu, g, false, scale), g.nrow as int, i, j) == g.at(i, j),
{
    lemma_ops(fpu, e);
    lemma_entry(g.nrow, g.ncol, |i: int, j: int| prepared_cell(fpu, g, true, true, i, j), i, j);
    lemma_entry(g.nrow, g.ncol, |i: int, j: int| prepared_cell(fpu, g, true, false, i, j), i, j);
    lemma_entry(g.nrow, g.ncol, |i: int, j: int| prepared_cell(fpu, g, false, scale, i, j), i, j);
    lemma_minus(e, e.v(g.at(i, j)), e.v(grid_mean(fpu, g, j)));
}

/// The products of two columns of a matrix, column by column.
pub open spec fn products_of(e: Exact, x: Seq<Real>, m: int, i: int, j: int) -> spec_fn(int) -> int {
    |k: int| e.times(e.v(x[i * m + k]), e.v(x[j * m + k]))
}

proof fn lemma_compensated<F: Fn(FloatOp, Real, Real, Real) -> Real>(
    fpu: &Fpu<F>,
    e: Exact,
    x: Seq<Real>,
    m: int,
    i: int,
    j: int,
    n: nat,
)
    requires
        exact(fpu, e),
    ensures
        e.v(compensated(fpu, x, m, i, j, n).0) == e.sum(products_of(e, x, m, i, j), 0, n as int),
        e.v(compensated(fpu, x, m, i, j, n).1) == e.zero,
    decreases n,
{
    lemma_ops(fpu, e);
    if n > 0 {
        lemma_compensated(fpu, e, x, m, i, j, (n - 1) as nat);
        let s = compensated(fpu, x, m, i, j, (n - 1) as nat);
        let p = fpu.times(x[i * m + n - 1], x[j * m + n - 1]);
        let y = fpu.minus(p, s.1);
        lemma_minus(e, e.v(p), e.zero);
        assert(products_of(e, x, m, i, j)(n - 1) == e.v(p));
        assert(e.v(y) == e.v(p));
        lemma_swap(e, e.v(s.0), e.v(y));
        lemma_minus(e, e.v(y), e.v(s.0));
        lemma_minus(e, e.v(y), e.v(y));
    }
}

/// A covariance of the prepared columns, times the rows less one, is the sum of
/// the products of the two columns.
pub proof fn law_kahan_covariance<F: Fn(FloatOp, Real, Real, Real) -> Real>(
    fpu: &Fpu<F>,
    e: Exact,
    x: Seq<Real>,
    m: nat,
    i: int,
    j: int,
)
    requires
        exact(fpu, e),
        1 < m < 0x20_0000_0000_0000,
        e.count((m - 1) as nat) != e.zero,
    ensures
        e.times(e.v(kahan_cov(fpu, x, m, i, j)), e.count((m - 1) as nat)) == e.sum(
            products_of(e, x, m as int, i, j),
            0,
            m as int,
        ),
        kahan_cov(fpu, x, m, i, j) == kahan_cov(fpu, x, m, j, i),
{
    lemma_ops(fpu, e);
    lemma_count(fpu, e, (m - 1) as nat);
    lemma_compensated(fpu, e, x, m as int, i, j, m);
    lemma_compensated(fpu, e, x, m as int, j, i, m);
    let f = products_of(e, x, m as int, i, j);
    let h = products_of(e, x, m as int, j, i);
    assert forall|k: int| 0 <= k < m implies #[trigger] f(k) == h(k) by {
        lemma_swap(e, e.v(x[i * m + k]), e.v(x[j * m + k]));
    }
    lemma_sum_same(e, f, h, 0, m as int);
}

/// After centring and scaling every column has variance one: the diagonal of
/// the matrix whose eigenvalues are taken is one.
pub proof fn law_unit_variance<F: Fn(FloatOp, Real, Real, Real) -> Real>(
    fpu: &Fpu<F>,
    e: Exact,
    g: Grid,
    j: int,
    m: int,
)
    requires
        exact(fpu, e),
        takes_roots(fpu, e),
        0 <= j < g.ncol,
        2 <= g.nrow < 0x20_0000_0000_0000,
        e.count(g.nrow) != e.zero,
        e.count((g.nrow - 1) as nat) != e.zero,
        is_mean(e, grid_column(g, j), m),
        has_deviation(e, grid_column(g, j), m),
        column_sd(fpu, g, j) != one(),
        e.v(column_sd(fpu, g, j)) != e.zero,
    ensures
        e.v(kahan_cov(fpu, prepared(fpu, g, true, true), g.nrow, j, j)) == e.one,
{
    let x = prepared(fpu, g, true, true);
    let n = e.count((g.nrow - 1) as nat);
    let s = grid_column(g, j);
    let sd = e.v(column_sd(fpu, g, j));
    let s2 = e.square(sd);
    law_column_deviation(fpu, e, g, j, m);
    law_kahan_covariance(fpu, e, x, g.nrow, j, j);
    let f = products_of(e, x, g.nrow as int, j, j);
    let h = |i: int| e.square(e.minus(e.v(s[i]), m));
    lemma_nonzero(e, sd, sd);
    assert forall|i: int| 0 <= i < g.nrow implies #[trigger] h(i) == e.times(s2, f(i)) by {
        law_prepared(fpu, e, g, true, i, j);
        let p = e.v(entry(x, g.nrow as int, i, j));
        assert(f(i) == e.times(p, p));
        lemma_minus(e, e.times(p, sd), m);
        lemma_shuffle_factors(e, p, sd, p, sd);
        lemma_swap(e, e.times(p, p), s2);
    }
    lemma_sum_times(e, s2, f, h, 0, g.nrow as int);
    let c = e.v(kahan_cov(fpu, x, g.nrow, j, j));
    assert(e.times(s2, n) == e.times(s2, e.times(c, n)));
    lemma_swap(e, s2, n);
    lemma_swap(e, s2, e.times(c, n));
    lemma_cancel_factor(e, n, e.times(c, n), s2);
    lemma_nil(e, n);
    lemma_cancel_factor(e, c, e.one, n);
}

/// The share of an eigenvalue, times the whole, is the eigenvalue, or nothing
/// for a negative one.
pub proof fn law_share<F: Fn(FloatOp, Real, Real, Real) -> Real>(fpu: &Fpu<F>, e: Exact, all: Real, x: Real)
    requires
        exact(fpu, e),
        zero().below(all),
        e.v(all) != e.zero,
    ensures
        zero().below(x) ==> e.times(e.v(share(fpu, all, x)), e.v(all)) == e.v(x),
        x.below(zero()) ==> e.times(e.v(share(fpu, all, x)), e.v(all)) == e.zero,
{
    lemma_ops(fpu, e);
}

// ── Clusters and neighbours ────────────────────────────────────────────────

/// The squared distance of a row from a centroid is the sum of the squared
/// distances in all columns.
pub proof fn law_gap<F: Fn(FloatOp, Real, Real, Real) -> Real>(
    fpu: &Fpu<F>,
    e: Exact,
    g: Grid,
    centres: Seq<Real>,
    i: int,
    c: int,
)
    requires
        exact(fpu, e),
    ensures
        e.v(gap(fpu, g, centres, i, c)) == e.sum(
            |j: int| e.square(e.minus(e.v(g.at(i, j)), e.v(centre(centres, g.ncol as int, c, j)))),
            0,
            g.ncol as int,
        ),
{
    lemma_ops(fpu, e);
    let d = Seq::new(g.ncol, |j: int| fpu.square_diff(g.at(i, j), centre(centres, g.ncol as int, c, j)));
    law_total(fpu, e, d);
    lemma_sum_same(
        e,
        e.at(d),
        |j: int| e.square(e.minus(e.v(g.at(i, j)), e.v(centre(centres, g.ncol as int, c, j)))),
        0,
        g.ncol as int,
    );
}

/// The same between a test row and a training row.
pub proof fn law_row_gap<F: Fn(FloatOp, Real, Real, Real) -> Real>(
    fpu: &Fpu<F>,
    e: Exact,
    test: Grid,
    train: Grid,
    i: int,
    j: int,
)
    requires
        exact(fpu, e),
    ensures
        e.v(row_gap(fpu, test, train, i, j)) == e.sum(
            |c: int| e.square(e.minus(e.v(test.at(i, c)), e.v(train.at(j, c)))),
            0,
            train.ncol as int,
        ),
{
    lemma_ops(fpu, e);
    let d = Seq::new(train.ncol, |c: int| fpu.square_diff(test.at(i, c), train.at(j, c)));
    law_total(fpu, e, d);
    lemma_sum_same(
        e,
        e.at(d),
        |c: int| e.square(e.minus(e.v(test.at(i, c)), e.v(train.at(j, c)))),
        0,
        train.ncol as int,
    );
}

/// A row goes to a centroid that none is nearer than, and to the first of
/// those.
pub proof fn law_nearest<F: Fn(FloatOp, Real, Real, Real) -> Real>(
    fpu: &Fpu<F>,
    g: Grid,
    centres: Seq<Real>,
    i: int,
    k: nat,
)
    requires
        0 < k,
        forall|c: int| 0 <= c < k ==> (#[trigger] gap(fpu, g, centres, i, c)).below(num(INF)),
    ensures
        ({
            let r = nearest(fpu, g, centres, i, k);
            &&& 0 <= r.0 < k
            &&& r.1 == gap(fpu, g, centres, i, r.0)
            &&& forall|c: int| 0 <= c < k ==> r.1.key() <= (#[trigger] gap(fpu, g, centres, i, c)).key()
            &&& forall|c: int| 0 <= c < r.0 ==> r.1.key() < (#[trigger] gap(fpu, g, centres, i, c)).key()
        }),
    decreases k,
{
    assert(gap(fpu, g, centres, i, k - 1).below(num(INF)));
    if k > 1 {
        law_nearest(fpu, g, centres, i, (k - 1) as nat);
    } else {
        assert(nearest(fpu, g, centres, i, 0) == (0int, num(INF)));
    }
}

/// A centroid, as often as its cluster has rows, is the sum of the rows.
pub proof fn law_centroid<F: Fn(FloatOp, Real, Real, Real) -> Real>(
    fpu: &Fpu<F>,
    e: Exact,
    g: Grid,
    cluster: Seq<usize>,
    k: nat,
    c: int,
    j: int,
)
    requires
        exact(fpu, e),
        0 <= c < k,
        0 <= j < g.ncol,
        0 < member_values(g, cluster, c as usize, j).len() < 0x20_0000_0000_0000,
        e.count(member_values(g, cluster, c as usize, j).len()) != e.zero,
    ensures
        is_mean(
            e,
            member_values(g, cluster, c as usize, j),
            e.v(centre(recentred(fpu, g, cluster, k), g.ncol as int, c, j)),
        ),
{
    lemma_entry(g.ncol, k, |j: int, c: int| cluster_mean(fpu, g, cluster, c as usize, j), j, c);
    law_mean(fpu, e, member_values(g, cluster, c as usize, j));
}

/// The spread within a cluster is the sum, over its rows, of their squared
/// distances from the centroid.
pub proof fn law_within<F: Fn(FloatOp, Real, Real, Real) -> Real>(
    fpu: &Fpu<F>,
    e: Exact,
    g: Grid,
    centres: Seq<Real>,
    cluster: Seq<usize>,
    k: nat,
    c: int,
)
    requires
        exact(fpu, e),
        0 <= c < k,
        0 < g.ncol,
    ensures
        e.v(within_sums(fpu, g, centres, cluster, k)[c]) == e.sum(
            |t: int| e.v(gap(fpu, g, centres, positions(cluster, c as usize)[t] as int, c)),
            0,
            positions(cluster, c as usize).len() as int,
        ),
{
    lemma_ops(fpu, e);
    let rows = positions(cluster, c as usize);
    let n = g.ncol as int;
    let d = spread_terms(fpu, g, centres, rows, c);
    law_total(fpu, e, d);
    let f = |t: int, j: int| e.square(e.minus(e.v(g.at(rows[t] as int, j)), e.v(centre(centres, n, c, j))));
    assert(d.len() == n * rows.len());
    lemma_sum_table(e, f, e.at(d), n, rows.len());
    let h = |t: int| e.v(gap(fpu, g, centres, rows[t] as int, c));
    let r = |t: int| e.sum(|j: int| f(t, j), 0, n);
    assert forall|t: int| 0 <= t < rows.len() implies #[trigger] r(t) == h(t) by {
        law_gap(fpu, e, g, centres, rows[t] as int, c);
        lemma_sum_same(
            e,
            |j: int| f(t, j),
            |j: int| e.square(e.minus(e.v(g.at(rows[t] as int, j)), e.v(centre(centres, g.ncol as int, c, j)))),
            0,
            n,
        );
    }
    lemma_sum_same(e, r, h, 0, rows.len() as int);
}

/// The total spread is the sum, over all rows and columns, of the squared
/// distances from the mean of the column.
pub proof fn law_total_spread<F: Fn(FloatOp, Real, Real, Real) -> Real>(fpu: &Fpu<F>, e: Exact, g: Grid)
    requires
        exact(fpu, e),
        0 < g.ncol,
    ensures
        e.v(total_spread(fpu, g)) == e.sum(
            |i: int|
                e.sum(|j: int| e.square(e.minus(e.v(g.at(i, j)), e.v(grid_mean(fpu, g, j)))), 0, g.ncol as int),
            0,
            g.nrow as int,
        ),
{
    lemma_ops(fpu, e);
    let n = g.ncol as int;
    let d = Seq::new(
        g.ncol * g.nrow,
        |t: int| fpu.square_diff(g.at(t / n, t % n), grid_mean(fpu, g, t % n)),
    );
    assert(total_spread(fpu, g) == crate::grid::total(fpu, d));
    law_total(fpu, e, d);
    let f = |i: int, j: int| e.square(e.minus(e.v(g.at(i, j)), e.v(grid_mean(fpu, g, j))));
    lemma_sum_table(e, f, e.at(d), n, g.nrow);
    let r = |i: int| e.sum(|j: int| f(i, j), 0, n);
    let h = |i: int|
        e.sum(|j: int| e.square(e.minus(e.v(g.at(i, j)), e.v(grid_mean(fpu, g, j)))), 0, g.ncol as int);
    assert forall|i: int| 0 <= i < g.nrow implies #[trigger] r(i) == h(i) by {
        lemma_sum_same(
            e,
            |j: int| f(i, j),
            |j: int| e.square(e.minus(e.v(g.at(i, j)), e.v(grid_mean(fpu, g, j)))),
            0,
            n,
        );
    }
    lemma_sum_same(e, r, h, 0, g.nrow as int);
}

/// The variance of a class, times its rows less one, is the sum of the squared
/// distances from the mean of the class; classes of one or two rows divide by
/// one.
pub proof fn law_class_variance<F: Fn(FloatOp, Real, Real, Real) -> Real>(
    fpu: &Fpu<F>,
    e: Exact,
    g: Grid,
    ids: Seq<usize>,
    c: usize,
    j: int,
    m: int,
)
    requires
        exact(fpu, e),
        0 < member_values(g, ids, c, j).len() < 0x20_0000_0000_0000,
        e.count(member_values(g, ids, c, j).len()) != e.zero,
        is_mean(e, member_values(g, ids, c, j), m),
    ensures
        ({
            let s = member_values(g, ids, c, j);
            &&& s.len() <= 2 ==> e.v(class_variance(fpu, g, ids, c, j)) == squares_about(e, s, m)
            &&& s.len() > 2 && e.count((s.len() - 1) as nat) != e.zero ==> e.times(
                e.v(class_variance(fpu, g, ids, c, j)),
                e.count((s.len() - 1) as nat),
            ) == squares_about(e, s, m)
        }),
{
    lemma_ops(fpu, e);
    let s = member_values(g, ids, c, j);
    let rows = positions(ids, c);
    law_mean(fpu, e, s);
    let mean = cluster_mean(fpu, g, ids, c, j);
    lemma_cancel_factor(e, e.v(mean), m, e.count(s.len()));
    let d = Seq::new(rows.len(), |t: int| fpu.square_diff(g.at(rows[t] as int, j), mean));
    law_total(fpu, e, d);
    lemma_sum_same(e, e.at(d), |i: int| e.square(e.minus(e.v(s[i]), m)), 0, s.len() as int);
    lemma_count(fpu, e, (s.len() - 1) as nat);
    lemma_count(fpu, e, 1);
    lemma_nil(e, e.one);
    reveal_with_fuel(Exact::count, 3);
    lemma_nil(e, e.v(class_variance(fpu, g, ids, c, j)));
}

/// The sum that is kept exact: a term less what the last step lost is added,
/// and what this step loses is what the sum grew by less what was added.
pub proof fn law_compensation<F: Fn(FloatOp, Real, Real, Real) -> Real>(
    fpu: &Fpu<F>,
    x: Seq<Real>,
    m: int,
    i: int,
    j: int,
    n: nat,
)
    ensures
        ({
            let old = compensated(fpu, x, m, i, j, n);
            let new = compensated(fpu, x, m, i, j, n + 1);
            let term = fpu.times(x[i * m + n], x[j * m + n]);
            let added = fpu.minus(term, old.1);
            new.0 == fpu.plus(old.0, added) && new.1 == fpu.minus(fpu.minus(new.0, old.0), added)
        }),
        compensated(fpu, x, m, i, j, 0) == (zero(), zero()),
{
}

/// The first centroids are rows of the data: the first one to begin with, each
/// one further down than the one before it.
pub proof fn law_first_centres(g: Grid, k: nat, c: int, j: int)
    requires
        0 < k <= g.nrow,
        0 <= c < k,
        0 <= j < g.ncol,
    ensures
        exists|r: int|
            #![trigger g.at(r, j)]
            centre(first_centres(g, k), g.ncol as int, c, j) == g.at(r, j) && r * k <= c * g.nrow < (r + 1) * k && 0 <= r
                < g.nrow && (c == 0 ==> r == 0),
        c + 1 < k ==> c * g.nrow / (k as int) < (c + 1) * g.nrow / (k as int),
{
    let n = g.nrow as int;
    let kk = k as int;
    let r = c * n / kk;
    lemma_entry(g.ncol, k, |j: int, c: int| g.at(c * g.nrow / (k as int), j), j, c);
    vstd::arithmetic::div_mod::lemma_fundamental_div_mod(c * n, kk);
    let q = c * n;
    assert(0 <= q && q < kk * n) by (nonlinear_arith)
        requires
            q == c * n,
            0 <= c < kk,
            kk <= n,
            0 < kk,
    ;
    let rest = q % kk;
    assert(q == kk * r + rest && 0 <= rest < kk);
    assert(r * kk <= q < (r + 1) * kk && 0 <= r < n) by (nonlinear_arith)
        requires
            q == kk * r + rest,
            0 <= rest < kk,
            0 <= q < kk * n,
    ;
    if c == 0 {
        assert(0 * n == 0) by (nonlinear_arith);
    }
    if c + 1 < k {
        assert((c + 1) * n == q + n) by (nonlinear_arith)
            requires
                q == c * n,
        ;
        vstd::arithmetic::div_mod::lemma_fundamental_div_mod(q + n, kk);
        let s = (q + n) / kk;
        let t = (q + n) % kk;
        assert(r < s) by (nonlinear_arith)
            requires
                q + n == kk * s + t,
                0 <= t < kk,
                q == kk * r + rest,
                0 <= rest,
                kk <= n,
        ;
    }
    assert(g.at(r, j) == g.at(r, j));
}

} // verus!
