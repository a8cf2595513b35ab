//! What the fitted models and their reports satisfy in exact arithmetic.
use crate::double::{FloatOp, Fpu, HALF_BITS, Real, nat_real, num, one, rounded, zero};
use crate::exact::{
    Exact, exact, law_total, lemma_cancel_factor, lemma_count, lemma_distributes, lemma_group, lemma_minus, lemma_nil,
    lemma_ops, lemma_sum_same, lemma_swap,
};
use crate::grid::{entry, total};
use crate::grouping::positions;
use crate::kernel_laws::{has_deviation, has_root, is_mean, squares_about, takes_roots};
use crate::ml_cv::{averaged, cv_report, fold_end, fold_start, kept_row, linear, linear_all, mse};
use crate::ml_data::ModelData;
use crate::ml_forest::{forest_says, row_numbers, tree_seed};
use crate::ml_gbm::{
    GbmOptions, Loss, SMALL_CHANCE_BITS, SMALL_ODDS_BITS, boosted, draw_count, gradients, kept_inside, logistic,
    loss_named, losses, mean_loss, positives, row_loss, start_value,
};
use crate::ml_kmeans::{kmeans_report, within_sums};
use crate::ml_knn::{bayes_report, row_classes};
use crate::ml_report::{HUNDRED_BITS, hits, percent};
use crate::ml_tree::{Kit, Node, importance, predicted, splits_below, splits_on};
use crate::stats_laws::{field_is, law_mean};
use crate::value::{Grid, Matrix, Val, nums_val};
use vstd::prelude::*;

verus! {

/// The numbers in a field of a report.
pub open spec fn field_holds(v: Val, i: int, name: Seq<char>, s: Seq<Real>) -> bool {
    v is Instance && 0 <= i < v->Instance_1.len() && v->Instance_1[i] == (name, nums_val(s))
}

/// The sums of squares of a clustering: the spread within is the sum of that of
/// the clusters, and with the spread between it makes the total.
pub proof fn law_kmeans_sums<F: Fn(FloatOp, Real, Real, Real) -> Real>(
    fpu: &Fpu<F>,
    e: Exact,
    g: Grid,
    cluster: Seq<usize>,
    centres: Seq<Real>,
    k: nat,
)
    requires
        exact(fpu, e),
    ensures
        exists|s: Seq<Real>, w: Real, b: Real, t: Real|
            #![trigger field_holds(kmeans_report(fpu, g, cluster, centres, k), 2, "withinss"@, s),
                field_is(kmeans_report(fpu, g, cluster, centres, k), 3, "tot.withinss"@, w),
                field_is(kmeans_report(fpu, g, cluster, centres, k), 4, "betweenss"@, b),
                field_is(kmeans_report(fpu, g, cluster, centres, k), 5, "totss"@, t)]
            {
                let r = kmeans_report(fpu, g, cluster, centres, k);
                &&& field_holds(r, 2, "withinss"@, s)
                &&& field_is(r, 3, "tot.withinss"@, w)
                &&& field_is(r, 4, "betweenss"@, b)
                &&& field_is(r, 5, "totss"@, t)
                &&& s == within_sums(fpu, g, centres, cluster, k)
                &&& t == crate::ml_kmeans::total_spread(fpu, g)
                &&& e.v(w) == e.sum(e.at(s), 0, k as int)
                &&& e.plus(e.v(b), e.v(w)) == e.v(t)
            },
{
    lemma_ops(fpu, e);
    let r = kmeans_report(fpu, g, cluster, centres, k);
    let s = within_sums(fpu, g, centres, cluster, k);
    let w = total(fpu, s);
    let t = crate::ml_kmeans::total_spread(fpu, g);
    let b = fpu.minus(t, w);
    law_total(fpu, e, s);
    lemma_minus(e, e.v(t), e.v(w));
    assert(field_holds(r, 2, "withinss"@, s));
    assert(field_is(r, 3, "tot.withinss"@, w));
    assert(field_is(r, 4, "betweenss"@, b));
    assert(field_is(r, 5, "totss"@, t));
}

/// A prior, times the rows, is how many rows the class has.
pub proof fn law_priors<F: Fn(FloatOp, Real, Real, Real) -> Real>(
    fpu: &Fpu<F>,
    e: Exact,
    g: Grid,
    labels: Seq<Real>,
    classes: Seq<Real>,
)
    requires
        exact(fpu, e),
        g.nrow < 0x20_0000_0000_0000,
        e.count(g.nrow) != e.zero,
        forall|c: int|
            0 <= c < classes.len() ==> (#[trigger] positions(row_classes(fpu, classes, labels), c as usize)).len() <= g.nrow,
    ensures
        exists|p: Seq<Real>| #[trigger]
            field_holds(bayes_report(fpu, g, labels, classes), 1, "priors"@, p) && p.len() == classes.len() && forall|c: int|
                0 <= c < p.len() ==> e.times(e.v(#[trigger] p[c]), e.count(g.nrow)) == e.count(
                    positions(row_classes(fpu, classes, labels), c as usize).len(),
                ),
{
    lemma_ops(fpu, e);
    lemma_count(fpu, e, g.nrow);
    let ids = row_classes(fpu, classes, labels);
    let p = Seq::new(
        classes.len(),
        |c: int| fpu.over(nat_real(positions(ids, c as usize).len()), nat_real(g.nrow)),
    );
    assert(field_holds(bayes_report(fpu, g, labels, classes), 1, "priors"@, p));
    assert forall|c: int| 0 <= c < p.len() implies e.times(e.v(#[trigger] p[c]), e.count(g.nrow)) == e.count(
        positions(ids, c as usize).len(),
    ) by {
        assert(positions(ids, c as usize).len() <= g.nrow);
        lemma_count(fpu, e, positions(ids, c as usize).len());
    }
}

// ── Boosting ───────────────────────────────────────────────────────────────

/// The logistic function: its value times one plus `exp(-f)` is one.
pub proof fn law_logistic<F: Fn(FloatOp, Real, Real, Real) -> Real>(fpu: &Fpu<F>, e: Exact, f: Real)
    requires
        exact(fpu, e),
        e.plus(e.one, e.v(fpu.exp(f.negated()))) != e.zero,
    ensures
        e.times(e.v(logistic(fpu, f)), e.plus(e.one, e.v(fpu.exp(f.negated())))) == e.one,
{
    lemma_ops(fpu, e);
}

/// The residuals: what was fitted and the residual make the response; the
/// logistic loss compares with the chance, and Huber's loss keeps small
/// residuals and takes one with their sign for large ones.
pub proof fn law_residuals<F: Fn(FloatOp, Real, Real, Real) -> Real>(
    fpu: &Fpu<F>,
    e: Exact,
    y: Seq<Real>,
    f: Seq<Real>,
    i: int,
)
    requires
        exact(fpu, e),
        0 <= i < f.len() == y.len(),
    ensures
        e.plus(e.v(f[i]), e.v(gradients(fpu, Loss::Squared, y, f)[i])) == e.v(y[i]),
        e.plus(e.v(logistic(fpu, f[i])), e.v(gradients(fpu, Loss::Logistic, y, f)[i])) == e.v(y[i]),
        ({
            let r = fpu.minus(y[i], f[i]);
            let h = gradients(fpu, Loss::Huber, y, f)[i];
            &&& !r.nan() && r.absolute().key() <= one().key() ==> e.plus(e.v(f[i]), e.v(h)) == e.v(y[i])
            &&& !r.nan() && one().key() < r.absolute().key() && !r.negative() ==> e.v(h) == e.one
            &&& !r.nan() && one().key() < r.absolute().key() && r.negative() ==> e.v(h) == e.opposite(e.one)
        }),
{
    lemma_ops(fpu, e);
    let a = e.v(y[i]);
    let b = e.v(f[i]);
    let p = e.v(logistic(fpu, f[i]));
    lemma_minus(e, a, b);
    lemma_minus(e, a, p);
    lemma_swap(e, e.minus(a, b), b);
    lemma_swap(e, e.minus(a, p), p);
    lemma_nil(e, e.one);
    lemma_nil(e, e.opposite(e.one));
    crate::exact::lemma_negated(fpu, e, one());
    let m: u64 = crate::double::MINUS_ONE_BITS;
    assert(one().negated() == num(m));
}

/// Boosting starts from the mean of the response.
pub proof fn law_boost_start<F: Fn(FloatOp, Real, Real, Real) -> Real>(fpu: &Fpu<F>, e: Exact, y: Seq<Real>)
    requires
        exact(fpu, e),
        y.len() < 0x20_0000_0000_0000,
        e.count(y.len()) != e.zero,
    ensures
        is_mean(e, y, e.v(start_value(fpu, Loss::Squared, y, y.len()))),
        is_mean(e, y, e.v(start_value(fpu, Loss::Huber, y, y.len()))),
{
    lemma_ops(fpu, e);
    lemma_count(fpu, e, y.len());
    law_total(fpu, e, y);
}

/// A boosted value is the start plus the rate times the sum of what the trees
/// predict.
pub proof fn law_boosted<
    T,
    F: Fn(FloatOp, Real, Real, Real) -> Real,
    B,
    P: Fn(&T, &Vec<Real>, usize, usize) -> Real,
    L,
>(fpu: &Fpu<F>, e: Exact, k: &Kit<B, P, L>, m: &Matrix, rate: Real, start: Real, trees: Seq<T>, i: int)
    requires
        exact(fpu, e),
        0 <= i < m.nrow,
    ensures
        e.v(boosted(fpu, k, m, rate, start, trees)[i]) == e.plus(
            e.v(start),
            e.times(
                e.v(rate),
                e.sum(|t: int| e.v(predicted(k, &trees[t], m.data@, m.nrow, i)), 0, trees.len() as int),
            ),
        ),
    decreases trees.len(),
{
    lemma_ops(fpu, e);
    let f = |t: int| e.v(predicted(k, &trees[t], m.data@, m.nrow, i));
    if trees.len() == 0 {
        crate::exact::lemma_times_zero(e, e.v(rate));
        lemma_nil(e, e.v(start));
    } else {
        let s = trees.drop_last();
        law_boosted(fpu, e, k, m, rate, start, s, i);
        let g = |t: int| e.v(predicted(k, &s[t], m.data@, m.nrow, i));
        lemma_sum_same(e, g, f, 0, s.len() as int);
        let a = e.sum(f, 0, s.len() as int);
        let b = f(trees.len() - 1);
        lemma_distributes(e, e.v(rate), a, b);
        lemma_group(e, e.v(start), e.times(e.v(rate), a), e.times(e.v(rate), b));
    }
}

/// The mean loss, times the rows, is the sum of the squared residuals.
pub proof fn law_mean_loss<F: Fn(FloatOp, Real, Real, Real) -> Real>(
    fpu: &Fpu<F>,
    e: Exact,
    y: Seq<Real>,
    f: Seq<Real>,
)
    requires
        exact(fpu, e),
        f.len() == y.len(),
        f.len() < 0x20_0000_0000_0000,
        e.count(f.len()) != e.zero,
    ensures
        e.times(e.v(mean_loss(fpu, Loss::Squared, y, f)), e.count(f.len())) == e.sum(
            |i: int| e.square(e.minus(e.v(y[i]), e.v(f[i]))),
            0,
            f.len() as int,
        ),
{
    lemma_ops(fpu, e);
    lemma_count(fpu, e, f.len());
    let d = Seq::new(f.len(), |i: int| crate::ml_gbm::row_loss(fpu, Loss::Squared, y[i], f[i]));
    law_total(fpu, e, d);
    lemma_sum_same(e, e.at(d), |i: int| e.square(e.minus(e.v(y[i]), e.v(f[i]))), 0, f.len() as int);
}

// ── Cross validation ───────────────────────────────────────────────────────

/// The mean squared error, times the predictions, is the sum of the squared
/// errors.
pub proof fn law_mse<F: Fn(FloatOp, Real, Real, Real) -> Real>(fpu: &Fpu<F>, e: Exact, p: Seq<Real>, y: Seq<Real>)
    requires
        exact(fpu, e),
        p.len() == y.len(),
        p.len() < 0x20_0000_0000_0000,
        e.count(p.len()) != e.zero,
    ensures
        e.times(e.v(mse(fpu, p, y)), e.count(p.len())) == e.sum(
            |i: int| e.square(e.minus(e.v(p[i]), e.v(y[i]))),
            0,
            p.len() as int,
        ),
{
    lemma_ops(fpu, e);
    lemma_count(fpu, e, p.len());
    let d = Seq::new(p.len(), |i: int| fpu.square_diff(p[i], y[i]));
    law_total(fpu, e, d);
    lemma_sum_same(e, e.at(d), |i: int| e.square(e.minus(e.v(p[i]), e.v(y[i]))), 0, p.len() as int);
}

proof fn lemma_linear<F: Fn(FloatOp, Real, Real, Real) -> Real>(
    fpu: &Fpu<F>,
    e: Exact,
    c: Seq<Real>,
    x: Seq<Real>,
    rows: int,
    i: int,
    k: nat,
)
    requires
        exact(fpu, e),
    ensures
        e.v(linear(fpu, c, x, rows, i, k)) == e.plus(
            e.v(c[0]),
            e.sum(|j: int| e.times(e.v(c[j + 1]), e.v(entry(x, rows, i, j))), 0, k as int),
        ),
    decreases k,
{
    lemma_ops(fpu, e);
    let f = |j: int| e.times(e.v(c[j + 1]), e.v(entry(x, rows, i, j)));
    if k == 0 {
        lemma_nil(e, e.v(c[0]));
    } else {
        lemma_linear(fpu, e, c, x, rows, i, (k - 1) as nat);
        lemma_group(e, e.v(c[0]), e.sum(f, 0, k - 1), f(k - 1));
    }
}

/// A linear prediction is the intercept plus the products of the coefficients
/// with the row.
pub proof fn law_linear<F: Fn(FloatOp, Real, Real, Real) -> Real>(
    fpu: &Fpu<F>,
    e: Exact,
    c: Seq<Real>,
    x: Seq<Real>,
    rows: nat,
    n: nat,
    i: int,
)
    requires
        exact(fpu, e),
        0 <= i < rows,
    ensures
        e.v(linear_all(fpu, c, x, rows, n)[i]) == e.plus(
            e.v(c[0]),
            e.sum(|j: int| e.times(e.v(c[j + 1]), e.v(entry(x, rows as int, i, j))), 0, n as int),
        ),
{
    lemma_linear(fpu, e, c, x, rows as int, i, n);
}

/// What a forest predicts, as often as it has trees, is the sum of what its
/// trees predict.
pub proof fn law_averaged<F: Fn(FloatOp, Real, Real, Real) -> Real>(
    fpu: &Fpu<F>,
    e: Exact,
    trees: Seq<Seq<Real>>,
    rows: nat,
    i: int,
)
    requires
        exact(fpu, e),
        0 <= i < rows,
        trees.len() < 0x20_0000_0000_0000,
        e.count(trees.len()) != e.zero,
    ensures
        e.times(e.v(averaged(fpu, trees, rows)[i]), e.count(trees.len())) == e.sum(
            |t: int| e.v(trees[t][i]),
            0,
            trees.len() as int,
        ),
{
    let s = Seq::new(trees.len(), |t: int| trees[t][i]);
    law_mean(fpu, e, s);
    lemma_sum_same(e, e.at(s), |t: int| e.v(trees[t][i]), 0, trees.len() as int);
}

/// The same for a regression forest.
pub proof fn law_forest_mean<
    T,
    F: Fn(FloatOp, Real, Real, Real) -> Real,
    B,
    P: Fn(&T, &Vec<Real>, usize, usize) -> Real,
    L,
>(fpu: &Fpu<F>, e: Exact, k: &Kit<B, P, L>, m: &Matrix, trees: Seq<T>, i: int, r: Real)
    requires
        exact(fpu, e),
        trees.len() < 0x20_0000_0000_0000,
        e.count(trees.len()) != e.zero,
        forest_says(fpu, k, m, trees, false, i, r),
    ensures
        is_mean(e, row_numbers(k, m, trees, i), e.v(r)),
{
    lemma_ops(fpu, e);
    lemma_count(fpu, e, trees.len());
    law_total(fpu, e, row_numbers(k, m, trees, i));
}

/// The report of a cross validation: the mean of the scores, and a deviation
/// whose square, times the folds less one, is the sum of the squared distances
/// from the mean.
pub proof fn law_cv_report<F: Fn(FloatOp, Real, Real, Real) -> Real>(
    fpu: &Fpu<F>,
    e: Exact,
    s: Seq<Real>,
    m: int,
)
    requires
        exact(fpu, e),
        takes_roots(fpu, e),
        2 <= s.len() < 0x20_0000_0000_0000,
        e.count(s.len()) != e.zero,
        e.count((s.len() - 1) as nat) != e.zero,
        is_mean(e, s, m),
        has_deviation(e, s, m),
    ensures
        exists|a: Real, d: Real| #[trigger]
            field_is(cv_report(fpu, s), 1, "mean.mse"@, a) && #[trigger] field_is(cv_report(fpu, s), 2, "sd.mse"@, d)
                && e.v(a) == m && e.times(e.square(e.v(d)), e.count((s.len() - 1) as nat)) == squares_about(e, s, m),
{
    lemma_ops(fpu, e);
    law_mean(fpu, e, s);
    let a = fpu.over(total(fpu, s), nat_real(s.len()));
    lemma_cancel_factor(e, e.v(a), m, e.count(s.len()));
    let q = Seq::new(s.len(), |i: int| fpu.square_diff(s[i], a));
    law_total(fpu, e, q);
    lemma_sum_same(e, e.at(q), |i: int| e.square(e.minus(e.v(s[i]), m)), 0, s.len() as int);
    lemma_count(fpu, e, (s.len() - 1) as nat);
    let x = fpu.over(total(fpu, q), nat_real((s.len() - 1) as nat));
    let w = choose|w: int| e.times(#[trigger] e.square(w), e.count((s.len() - 1) as nat)) == squares_about(e, s, m);
    lemma_cancel_factor(e, e.square(w), e.v(x), e.count((s.len() - 1) as nat));
    assert(has_root(e, e.v(x)));
    assert(field_is(cv_report(fpu, s), 1, "mean.mse"@, a));
    assert(field_is(cv_report(fpu, s), 2, "sd.mse"@, fpu.sqrt(x)));
}

/// The folds cut the rows into pieces: the first starts at the first row, each
/// ends where the next one starts, the last ends with the last row, and none is
/// empty.
pub proof fn law_folds(m: int, k: int, fold: int)
    requires
        0 < k <= m,
        0 <= fold < k,
    ensures
        fold_start(m, k, 0) == 0,
        fold < k - 1 ==> fold_end(m, k, fold) == fold_start(m, k, fold + 1),
        fold == k - 1 ==> fold_end(m, k, fold) == m,
        0 <= fold_start(m, k, fold) < fold_end(m, k, fold) <= m,
        fold < k - 1 ==> fold_end(m, k, fold) - fold_start(m, k, fold) == m / k,
{
    assert(m / k >= 1 && k * (m / k) <= m) by (nonlinear_arith)
        requires
            0 < k <= m,
    ;
    let q = m / k;
    assert(fold * q >= 0 && (fold + 1) * q == fold * q + q && (fold + 1) * q <= k * q) by (nonlinear_arith)
        requires
            0 <= fold < k,
            q >= 1,
    ;
}

/// The rows that stay are all rows but those held out, in order.
pub proof fn law_kept_rows(m: int, s: int, e: int, r: int)
    requires
        0 <= s <= e <= m,
        0 <= r < m,
    ensures
        r < m - (e - s) ==> 0 <= kept_row(s, e, r) < m && !(s <= kept_row(s, e, r) < e),
        r + 1 < m - (e - s) ==> kept_row(s, e, r) < kept_row(s, e, r + 1),
        !(s <= r < e) ==> exists|t: int| 0 <= t < m - (e - s) && #[trigger] kept_row(s, e, t) == r,
{
    if r < s {
        assert(kept_row(s, e, r) == r);
    } else if r >= e {
        assert(kept_row(s, e, r - (e - s)) == r);
    }
}

/// The importance of a feature, times the splits on any of the features, is
/// how many splits are on it.
pub proof fn law_importance<F: Fn(FloatOp, Real, Real, Real) -> Real>(
    fpu: &Fpu<F>,
    e: Exact,
    nodes: Seq<Node>,
    n: nat,
    j: int,
)
    requires
        exact(fpu, e),
        0 <= j < n,
        nodes.len() < 0x20_0000_0000_0000,
        e.count(splits_below(nodes, n as int)) != e.zero,
    ensures
        e.times(e.v(importance(fpu, nodes, n)[j]), e.count(splits_below(nodes, n as int))) == e.count(splits_on(nodes, j)),
        splits_on(nodes, j) <= splits_below(nodes, n as int) <= nodes.len(),
{
    lemma_ops(fpu, e);
    lemma_splits(nodes, n as int, j);
    lemma_count(fpu, e, splits_below(nodes, n as int));
    lemma_count(fpu, e, splits_on(nodes, j));
    assert(e.count(0) == e.zero);
}

proof fn lemma_splits(nodes: Seq<Node>, n: int, j: int)
    requires
        0 <= j < n,
    ensures
        splits_on(nodes, j) <= splits_below(nodes, n) <= nodes.len(),
    decreases nodes.len(),
{
    if nodes.len() > 0 {
        lemma_splits(nodes.drop_last(), n, j);
    }
}

/// The splits on all features are the splits on each of them, together.
pub proof fn law_splits(nodes: Seq<Node>, n: int)
    requires
        0 <= n,
    ensures
        splits_below(nodes, 0) == 0,
        splits_below(nodes, n + 1) == splits_below(nodes, n) + splits_on(nodes, n),
    decreases nodes.len(),
{
    if nodes.len() > 0 {
        law_splits(nodes.drop_last(), n);
    }
}

/// Neighbouring trees of a forest draw from different streams.
pub proof fn law_tree_seeds(seed: u64, t: nat, k: nat)
    requires
        0 < k < 0x1_0000,
    ensures
        tree_seed(seed, t) != tree_seed(seed, t + k),
{
    let m: int = 0x1_0000_0000_0000_0000;
    let a = seed + t * crate::ml_forest::SEED_STEP;
    let d = k * crate::ml_forest::SEED_STEP;
    assert((t + k) * 999_983 == t * 999_983 + k * 999_983) by (nonlinear_arith);
    assert(0 < d < m);
    if a % m == (a + d) % m {
        vstd::arithmetic::div_mod::lemma_mod_equivalence(a + d, a, m);
        vstd::arithmetic::div_mod::lemma_small_mod(d as nat, m as nat);
    }
}

/// The accuracy in percent, times the predictions, is a hundred times the hits.
pub proof fn law_percent<F: Fn(FloatOp, Real, Real, Real) -> Real>(fpu: &Fpu<F>, e: Exact, k: nat, n: nat)
    requires
        exact(fpu, e),
        k <= n < 0x20_0000_0000_0000,
        e.count(n) != e.zero,
    ensures
        e.times(e.v(percent(fpu, k, n)), e.count(n)) == e.times(e.count(k), e.v(num(HUNDRED_BITS))),
{
    lemma_ops(fpu, e);
    lemma_count(fpu, e, k);
    lemma_count(fpu, e, n);
    let q = e.v(fpu.over(nat_real(k), nat_real(n)));
    let h = e.v(num(HUNDRED_BITS));
    lemma_group(e, q, h, e.count(n));
    lemma_swap(e, h, e.count(n));
    lemma_group(e, q, e.count(n), h);
}

/// The hits are counted row by row: a row with the class that was observed is
/// one more.
pub proof fn law_hits(p: Seq<Real>, y: Seq<Real>, n: nat)
    requires
        n <= p.len(),
        n <= y.len(),
    ensures
        hits(p, y, n) <= n,
        (forall|i: int| 0 <= i < n ==> (#[trigger] p[i]).as_long() == y[i].as_long()) ==> hits(p, y, n) == n,
        (forall|i: int| 0 <= i < n ==> (#[trigger] p[i]).as_long() != y[i].as_long()) ==> hits(p, y, n) == 0,
    decreases n,
{
    if n > 0 {
        law_hits(p, y, (n - 1) as nat);
        assert(p[n - 1] == p[n - 1]);
    }
}

/// The training losses: entry `t`, times the rows, is the sum of the squared
/// residuals that the first `t + 1` trees leave.
pub proof fn law_losses<
    T,
    F: Fn(FloatOp, Real, Real, Real) -> Real,
    B,
    P: Fn(&T, &Vec<Real>, usize, usize) -> Real,
    L,
>(fpu: &Fpu<F>, e: Exact, k: &Kit<B, P, L>, o: GbmOptions, d: ModelData, trees: Seq<T>, t: int)
    requires
        exact(fpu, e),
        0 <= t < trees.len(),
        loss_named(o.loss@) == Loss::Squared,
        d.y@.len() == d.x.nrow,
        0 < d.x.nrow < 0x20_0000_0000_0000,
        e.count(d.x.nrow as nat) != e.zero,
    ensures
        exists|start: Real|
            #![trigger boosted(fpu, k, &d.x, o.rate, start, trees.take(t + 1))]
            {
                let f = boosted(fpu, k, &d.x, o.rate, start, trees.take(t + 1));
                &&& is_mean(e, d.y@, e.v(start))
                &&& e.times(e.v(losses(fpu, k, o, d, trees)[t]), e.count(d.x.nrow as nat)) == e.sum(
                    |i: int| e.square(e.minus(e.v(d.y@[i]), e.v(f[i]))),
                    0,
                    d.x.nrow as int,
                )
            },
{
    let start = start_value(fpu, Loss::Squared, d.y@, d.x.nrow as nat);
    let f = boosted(fpu, k, &d.x, o.rate, start, trees.take(t + 1));
    law_boost_start(fpu, e, d.y@);
    assert(f.len() == d.x.nrow);
    law_mean_loss(fpu, e, d.y@, f);
}

/// How many of the responses are positive: one more for each above one half.
pub proof fn law_positives(y: Seq<Real>, x: Real)
    ensures
        num(HALF_BITS).below(x) ==> positives(y.push(x)) == positives(y) + 1,
        !num(HALF_BITS).below(x) ==> positives(y.push(x)) == positives(y),
        positives(y) <= y.len(),
    decreases y.len(),
{
    assert(y.push(x).drop_last() =~= y);
    if y.len() > 0 {
        law_positives(y.drop_last(), y.last());
        assert(y.drop_last().push(y.last()) =~= y);
    }
}

/// Boosting with the logistic loss starts from the logarithm of the odds: the
/// positive responses over the others, of which there is at least one.
pub proof fn law_logistic_start<F: Fn(FloatOp, Real, Real, Real) -> Real>(fpu: &Fpu<F>, e: Exact, y: Seq<Real>)
    requires
        exact(fpu, e),
        y.len() < 0x20_0000_0000_0000,
        one().key() <= fpu.minus(rounded(y.len()), rounded(positives(y))).key(),
        !fpu.minus(rounded(y.len()), rounded(positives(y))).nan(),
        e.count((y.len() - positives(y)) as nat) != e.zero,
    ensures
        exists|odds: Real|
            #![trigger odds.greatest(num(SMALL_ODDS_BITS))]
            start_value(fpu, Loss::Logistic, y, y.len()) == fpu.ln(odds.greatest(num(SMALL_ODDS_BITS))) && e.times(
                e.v(odds),
                e.count((y.len() - positives(y)) as nat),
            ) == e.count(positives(y)),
{
    lemma_ops(fpu, e);
    law_positives(y, zero());
    let k = positives(y);
    lemma_count(fpu, e, y.len());
    lemma_count(fpu, e, k);
    lemma_counts_apart(e, y.len(), k);
    let neg = fpu.minus(rounded(y.len()), rounded(k)).greatest(one());
    let odds = fpu.over(rounded(k), neg);
    assert(neg == fpu.minus(rounded(y.len()), rounded(k)));
    assert(start_value(fpu, Loss::Logistic, y, y.len()) == fpu.ln(odds.greatest(num(SMALL_ODDS_BITS))));
}

proof fn lemma_counts_apart(e: Exact, n: nat, k: nat)
    requires
        e.field(),
        k <= n,
    ensures
        e.minus(e.count(n), e.count(k)) == e.count((n - k) as nat),
    decreases n - k,
{
    if n == k {
        lemma_minus(e, e.count(n), e.count(n));
    } else {
        let m = (n - 1) as nat;
        lemma_counts_apart(e, m, k);
        // (m + 1) - k is (m - k) + 1.
        lemma_group(e, e.count(m), e.one, e.opposite(e.count(k)));
        lemma_swap(e, e.one, e.opposite(e.count(k)));
        lemma_group(e, e.count(m), e.opposite(e.count(k)), e.one);
    }
}

/// The logistic loss of a row: minus the logarithm of the chance of what was
/// observed.
pub proof fn law_log_loss<F: Fn(FloatOp, Real, Real, Real) -> Real>(fpu: &Fpu<F>, e: Exact, y: Real, f: Real)
    requires
        exact(fpu, e),
    ensures
        ({
            let p = kept_inside(fpu, logistic(fpu, f));
            &&& e.v(y) == e.one ==> e.v(row_loss(fpu, Loss::Logistic, y, f)) == e.opposite(e.v(fpu.ln(p)))
            &&& e.v(y) == e.zero ==> e.v(row_loss(fpu, Loss::Logistic, y, f)) == e.opposite(
                e.v(fpu.ln(fpu.minus(one(), p))),
            )
        }),
{
    lemma_ops(fpu, e);
    let p = kept_inside(fpu, logistic(fpu, f));
    let a = e.v(fpu.ln(p));
    let c = e.v(fpu.ln(fpu.minus(one(), p)));
    let s = fpu.plus(fpu.times(y, fpu.ln(p)), fpu.times(fpu.minus(one(), y), fpu.ln(fpu.minus(one(), p))));
    crate::exact::lemma_negated(fpu, e, s);
    crate::exact::lemma_times_zero(e, a);
    crate::exact::lemma_times_zero(e, c);
    lemma_minus(e, e.one, e.one);
    lemma_nil(e, a);
    lemma_nil(e, c);
}

/// A chance stays as it is inside the bounds, and outside them becomes the
/// bound.
pub proof fn law_kept_inside<F: Fn(FloatOp, Real, Real, Real) -> Real>(fpu: &Fpu<F>, p: Real)
    requires
        !p.nan(),
        !fpu.minus(one(), num(SMALL_CHANCE_BITS)).nan(),
        num(SMALL_CHANCE_BITS).key() <= fpu.minus(one(), num(SMALL_CHANCE_BITS)).key(),
    ensures
        ({
            let lo = num(SMALL_CHANCE_BITS);
            let hi = fpu.minus(one(), lo);
            &&& lo.key() <= kept_inside(fpu, p).key() <= hi.key()
            &&& lo.key() <= p.key() <= hi.key() ==> kept_inside(fpu, p) == p
        }),
{
}

/// The rows drawn for a tree: as many as the subsample's share of them.
pub proof fn law_draw_count<F: Fn(FloatOp, Real, Real, Real) -> Real>(fpu: &Fpu<F>, e: Exact, m: nat, share: Real)
    requires
        exact(fpu, e),
        0 < m < 0x20_0000_0000_0000,
    ensures
        exists|b: Real|
            #![trigger b.as_count()]
            draw_count(fpu, m, share) == b.as_count() && e.v(b) == e.times(e.count(m), e.v(share)),
{
    lemma_ops(fpu, e);
    lemma_count(fpu, e, m);
    let b = fpu.times(rounded(m), share);
    assert(draw_count(fpu, m, share) == b.as_count());
}

} // verus!
