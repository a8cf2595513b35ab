//! What the tables and reports of the analyses hold.
use crate::double::{FloatOp, Fpu, Real, nat_real, num, one, zero};
use crate::exact::{Exact, exact};
use crate::frames::{column_named, selected};
use crate::grid::{entry, lemma_entry};
use crate::kernel_laws::{has_deviation, has_root, is_mean, takes_roots};
use crate::kernel_map::{
    BinaryOp, MapOp, TernaryOp, binary_cell, binop_value, map_cell, op_value, ternary_cell, ternop_value,
};
use crate::ml_fit_laws::field_holds;
use crate::ml_gbm::{Loss, logistic, loss_named, outcomes};
use crate::ml_kmeans::grid_mean;
use crate::ml_laws::{grid_column, law_share, law_unit_variance};
use crate::ml_prcomp::{ROUND_OFF_BITS, all_cleaned, cleaned, column_sd, kahan_cov, kahan_covs, pca_report, positive_ones, prepared, scales};
use crate::stats_laws::law_covariance;
use crate::stats_manova::{between, between_table, grouped, within, within_table};
use crate::stats_matrix::{column, covariance, covariances, means};
use crate::stats_variance_laws::{law_spread_divides, row_product};
use crate::value::{Grid, Val};
use vstd::prelude::*;

verus! {

// ── Tables ─────────────────────────────────────────────────────────────────

/// The matrix of covariances: the entry of two columns, times the rows less
/// one, is the sum of the products of their deviations.
pub proof fn law_covariance_table<F: Fn(FloatOp, Real, Real, Real) -> Real>(
    fpu: &Fpu<F>,
    e: Exact,
    data: Seq<Real>,
    n: nat,
    p: nat,
    a: int,
    b: int,
    ma: int,
    mb: int,
)
    requires
        exact(fpu, e),
        0 <= a < p,
        0 <= b < p,
        2 <= n < 0x20_0000_0000_0000,
        e.count(n) != e.zero,
        e.count((n - 1) as nat) != e.zero,
        !fpu.minus(nat_real(n), one()).nan(),
        !fpu.minus(nat_real(n), one()).below(one()),
        is_mean(e, column(data, n, p, a), ma),
        is_mean(e, column(data, n, p, b), mb),
    ensures
        e.times(e.v(entry(covariances(fpu, data, n, p), p as int, a, b)), e.count((n - 1) as nat)) == e.sum(
            |i: int|
                e.times(
                    e.minus(e.v(column(data, n, p, a)[i]), ma),
                    e.minus(e.v(column(data, n, p, b)[i]), mb),
                ),
            0,
            n as int,
        ),
{
    lemma_entry(p, p, |a: int, b: int| covariance(fpu, data, n, p, a, b), a, b);
    law_covariance(fpu, e, data, n, p, a, b, ma, mb);
}

/// The tables of the analysis of variance: entry by entry, the one within and
/// the one between the groups make the products about the grand means.
pub proof fn law_tables_divide<F: Fn(FloatOp, Real, Real, Real) -> Real>(
    fpu: &Fpu<F>,
    e: Exact,
    data: Seq<Real>,
    n: nat,
    p: nat,
    rows: Seq<Seq<usize>>,
    a: int,
    b: int,
)
    requires
        exact(fpu, e),
        0 <= a < p,
        0 <= b < p,
        forall|g: int|
            0 <= g < rows.len() ==> (#[trigger] rows[g]).len() < 0x20_0000_0000_0000 && e.count(rows[g].len()) != e.zero,
    ensures
        e.plus(
            e.v(entry(within_table(fpu, data, p, rows), p as int, a, b)),
            e.v(entry(between_table(fpu, data, n, p, rows), p as int, a, b)),
        ) == e.sum(
            |t: int|
                row_product(
                    e,
                    data,
                    p as int,
                    a,
                    b,
                    e.v(means(fpu, data, n, p)[a]),
                    e.v(means(fpu, data, n, p)[b]),
                )(grouped(rows, rows.len())[t].0, grouped(rows, rows.len())[t].1),
            0,
            grouped(rows, rows.len()).len() as int,
        ),
{
    lemma_entry(p, p, |a: int, b: int| within(fpu, data, p as int, rows, a, b), a, b);
    lemma_entry(p, p, |a: int, b: int| between(fpu, data, n, p, rows, a, b), a, b);
    law_spread_divides(fpu, e, data, n, p, rows, a, b);
}

/// The matrix that principal components are taken of has ones on its diagonal
/// where the columns were scaled, and is symmetric.
pub proof fn law_correlations<F: Fn(FloatOp, Real, Real, Real) -> Real>(
    fpu: &Fpu<F>,
    e: Exact,
    g: Grid,
    i: int,
    j: int,
    m: int,
)
    requires
        exact(fpu, e),
        takes_roots(fpu, e),
        0 <= i < g.ncol,
        0 <= j < g.ncol,
        2 <= g.nrow < 0x20_0000_0000_0000,
        e.count(g.nrow) != e.zero,
        e.count((g.nrow - 1) as nat) != e.zero,
        is_mean(e, grid_column(g, j), m),
        has_deviation(e, grid_column(g, j), m),
        column_sd(fpu, g, j) != one(),
        e.v(column_sd(fpu, g, j)) != e.zero,
    ensures
        ({
            let c = kahan_covs(fpu, prepared(fpu, g, true, true), g.nrow, g.ncol);
            &&& e.v(entry(c, g.ncol as int, j, j)) == e.one
            &&& entry(c, g.ncol as int, i, j) == entry(c, g.ncol as int, j, i)
        }),
        scales(fpu, g, true)[j] == column_sd(fpu, g, j),
        scales(fpu, g, false)[j] == one(),
{
    let x = prepared(fpu, g, true, true);
    let f = |i: int, j: int| kahan_cov(fpu, x, g.nrow, i, j);
    lemma_entry(g.ncol, g.ncol, f, j, j);
    lemma_entry(g.ncol, g.ncol, f, i, j);
    lemma_entry(g.ncol, g.ncol, f, j, i);
    law_unit_variance(fpu, e, g, j, m);
}

// ── Reports ────────────────────────────────────────────────────────────────

/// The report of principal components: the square of a deviation is its
/// eigenvalue, the share of an eigenvalue times the sum of the positive ones is
/// the eigenvalue, and the centre holds the means of the columns.
pub proof fn law_pca_report<F: Fn(FloatOp, Real, Real, Real) -> Real>(
    fpu: &Fpu<F>,
    e: Exact,
    g: Grid,
    scale: bool,
    values: Seq<Real>,
    vectors: Seq<Real>,
    i: int,
)
    requires
        exact(fpu, e),
        takes_roots(fpu, e),
        0 <= i < values.len(),
        zero().below(values[i]),
        has_root(e, e.v(values[i])),
        zero().below(crate::grid::total(fpu, positive_ones(all_cleaned(values)))),
        e.v(crate::grid::total(fpu, positive_ones(all_cleaned(values)))) != e.zero,
    ensures
        exists|sd: Seq<Real>, ev: Seq<Real>, pr: Seq<Real>, ce: Seq<Real>|
            #![trigger field_holds(pca_report(fpu, g, scale, values, vectors), 0, "sdev"@, sd),
                field_holds(pca_report(fpu, g, scale, values, vectors), 1, "eigenvalues"@, ev),
                field_holds(pca_report(fpu, g, scale, values, vectors), 2, "prop.variance"@, pr),
                field_holds(pca_report(fpu, g, scale, values, vectors), 3, "center"@, ce)]
            {
                let r = pca_report(fpu, g, scale, values, vectors);
                &&& field_holds(r, 0, "sdev"@, sd)
                &&& field_holds(r, 1, "eigenvalues"@, ev)
                &&& field_holds(r, 2, "prop.variance"@, pr)
                &&& field_holds(r, 3, "center"@, ce)
                &&& ev[i] == values[i]
                &&& e.square(e.v(sd[i])) == e.v(values[i])
                &&& e.times(
                    e.v(pr[i]),
                    e.v(crate::grid::total(fpu, positive_ones(all_cleaned(values)))),
                ) == e.v(values[i])
                &&& ce == Seq::new(g.ncol, |j: int| grid_mean(fpu, g, j))
            },
{
    let r = pca_report(fpu, g, scale, values, vectors);
    let ev = all_cleaned(values);
    let all = crate::grid::total(fpu, positive_ones(ev));
    let sd = Seq::new(ev.len(), |i: int| fpu.sqrt(ev[i].greatest(zero())));
    let pr = Seq::new(ev.len(), |i: int| crate::ml_prcomp::share(fpu, all, ev[i]));
    let ce = Seq::new(g.ncol, |j: int| grid_mean(fpu, g, j));
    law_share(fpu, e, all, values[i]);
    assert(ev[i] == values[i]);
    assert(ev[i].greatest(zero()) == values[i]);
    assert(field_holds(r, 0, "sdev"@, sd));
    assert(field_holds(r, 1, "eigenvalues"@, ev));
    assert(field_holds(r, 2, "prop.variance"@, pr));
    assert(field_holds(r, 3, "center"@, ce));
}

/// The positive numbers: all that are above zero, in order.
pub proof fn law_positive_ones(s: Seq<Real>, x: Real)
    ensures
        zero().below(x) ==> positive_ones(s.push(x)) == positive_ones(s).push(x),
        !zero().below(x) ==> positive_ones(s.push(x)) == positive_ones(s),
        positive_ones(Seq::empty()) == Seq::<Real>::empty(),
{
    assert(s.push(x).drop_last() =~= s);
}

/// Eigenvalues are cleaned of rounding: a negative one that is hardly off zero
/// becomes zero, any other stays.
pub proof fn law_cleaned(x: Real)
    ensures
        !x.below(zero()) ==> cleaned(x) == x,
        !x.absolute().below(num(ROUND_OFF_BITS)) ==> cleaned(x) == x,
        x.below(zero()) && x.absolute().below(num(ROUND_OFF_BITS)) ==> cleaned(x) == zero(),
        !x.nan() && cleaned(x).below(zero()) ==> num(ROUND_OFF_BITS).key() <= -cleaned(x).key(),
{
}

/// What boosting predicts: with the logistic loss a class, one exactly where the
/// chance is above one half; with the others the fitted value.
pub proof fn law_outcomes<F: Fn(FloatOp, Real, Real, Real) -> Real>(fpu: &Fpu<F>, f: Seq<Real>, i: int)
    requires
        0 <= i < f.len(),
    ensures
        num(crate::double::HALF_BITS).below(logistic(fpu, f[i])) ==> outcomes(fpu, Loss::Logistic, f)[i] == one(),
        !num(crate::double::HALF_BITS).below(logistic(fpu, f[i])) ==> outcomes(fpu, Loss::Logistic, f)[i] == zero(),
        outcomes(fpu, Loss::Squared, f) == f,
        outcomes(fpu, Loss::Huber, f) == f,
        loss_named("logistic"@) == Loss::Logistic,
        loss_named("bernoulli"@) == Loss::Logistic,
{
}

// ── Vectors with missing entries ───────────────────────────────────────────

/// A result is there exactly where all operands are, and is what the numbers
/// give.
pub proof fn law_missing_cells<F: Fn(FloatOp, Real, Real, Real) -> Real>(
    fpu: &Fpu<F>,
    m: MapOp,
    b: BinaryOp,
    t: TernaryOp,
    x: Option<Real>,
    y: Option<Real>,
    z: Option<Real>,
)
    ensures
        map_cell(fpu, m, x) is Some <==> x is Some,
        binary_cell(fpu, b, x, y) is Some <==> x is Some && y is Some,
        ternary_cell(fpu, t, x, y, z) is Some <==> x is Some && y is Some && z is Some,
        x is Some ==> map_cell(fpu, m, x)->0 == op_value(fpu, m, x->0),
        x is Some && y is Some ==> binary_cell(fpu, b, x, y)->0 == binop_value(fpu, b, x->0, y->0),
        x is Some && y is Some && z is Some ==> ternary_cell(fpu, t, x, y, z)->0 == ternop_value(
            fpu,
            t,
            x->0,
            y->0,
            z->0,
        ),
{
}

// ── Columns by name ────────────────────────────────────────────────────────

/// The column with a name is the first one that has it.
pub proof fn law_column_named(c: Seq<(Seq<char>, Val)>, name: Seq<char>)
    ensures
        column_named(c, name) is Some ==> (column_named(c, name)->0).0 == name && c.contains(column_named(c, name)->0),
        column_named(c, name) is None ==> forall|i: int| 0 <= i < c.len() ==> (#[trigger] c[i]).0 != name,
    decreases c.len(),
{
    if c.len() > 0 {
        if c[0].0 != name {
            let t = c.drop_first();
            law_column_named(t, name);
            if column_named(t, name) is Some {
                let k = choose|k: int| 0 <= k < t.len() && t[k] == column_named(t, name)->0;
                assert(c[k + 1] == column_named(c, name)->0);
            } else {
                assert forall|i: int| 0 <= i < c.len() implies (#[trigger] c[i]).0 != name by {
                    if i > 0 {
                        assert(c[i] == t[i - 1]);
                    }
                }
            }
        } else {
            assert(c[0] == column_named(c, name)->0);
        }
    }
}

/// Columns are selected in the order of the names, each under its name.
pub proof fn law_selected(c: Seq<(Seq<char>, Val)>, names: Seq<Seq<char>>)
    requires
        forall|i: int| 0 <= i < names.len() ==> column_named(c, #[trigger] names[i]) is Some,
    ensures
        selected(c, names).len() == names.len(),
        forall|i: int|
            0 <= i < names.len() ==> (#[trigger] selected(c, names)[i]).0 == names[i] && c.contains(selected(c, names)[i]),
    decreases names.len(),
{
    if names.len() > 0 {
        let t = names.drop_last();
        assert forall|i: int| 0 <= i < t.len() implies column_named(c, #[trigger] t[i]) is Some by {
            assert(t[i] == names[i]);
        }
        law_selected(c, t);
        let last = names[names.len() - 1];
        assert(column_named(c, last) is Some);
        law_column_named(c, last);
        assert forall|i: int| 0 <= i < names.len() implies (#[trigger] selected(c, names)[i]).0 == names[i] && c.contains(
            selected(c, names)[i],
        ) by {
            if i < t.len() {
                assert(selected(c, names)[i] == selected(c, t)[i]);
                assert(t[i] == names[i]);
            }
        }
    }
}

} // verus!
