//! Multivariate analysis of variance.
//!
//! The within-group and between-group cross products `E` and `H` are formed
//! from the groups; the eigenvalues of `E^-1 H` are those of the symmetric
//! matrix `L^-1 H L^-T`, where `L` is the Cholesky factor of `E`. The factor and
//! the eigenvalues are computed by routines of the caller.
use crate::double::{FloatOp, Fpu, HALF_BITS, Real, nat_real, num};
use crate::grid::{entry, lemma_entry, sum_of, table, table_of, total};
use crate::linalg::{forward, lower_rest};
use crate::stats_matrix::{Rows, SIZE_LIMIT, cell, col_means, means};
use crate::value::lemma_cell;
use vstd::prelude::*;

verus! {

/// The numbers of column `j` in the given rows.
pub open spec fn picked_column(data: Seq<Real>, p: int, rows: Seq<usize>, j: int) -> Seq<Real> {
    Seq::new(rows.len(), |t: int| cell(data, p, rows[t] as int, j))
}

/// The mean of column `j` over the given rows.
pub open spec fn subset_mean<F: Fn(FloatOp, Real, Real, Real) -> Real>(
    fpu: &Fpu<F>,
    data: Seq<Real>,
    p: int,
    rows: Seq<usize>,
    j: int,
) -> Real {
    crate::grid::mean(fpu, picked_column(data, p, rows, j))
}

pub open spec fn row_lists(rows: Seq<Vec<usize>>) -> Seq<Seq<usize>> {
    Seq::new(rows.len(), |g: int| rows[g]@)
}

/// All rows of the first `k` groups, each with its group, group by group.
pub open spec fn grouped(rows: Seq<Seq<usize>>, k: nat) -> Seq<(int, usize)>
    decreases k,
{
    if k == 0 {
        Seq::empty()
    } else {
        grouped(rows, (k - 1) as nat) + Seq::new(
            rows[k - 1].len(),
            |t: int| (k - 1, rows[k - 1][t]),
        )
    }
}

/// The product of the deviations of a row from its group mean in two columns.
pub open spec fn within_term<F: Fn(FloatOp, Real, Real, Real) -> Real>(
    fpu: &Fpu<F>,
    data: Seq<Real>,
    p: int,
    rows: Seq<Seq<usize>>,
    at: (int, usize),
    a: int,
    b: int,
) -> Real {
    fpu.times(
        fpu.minus(cell(data, p, at.1 as int, a), subset_mean(fpu, data, p, rows[at.0], a)),
        fpu.minus(cell(data, p, at.1 as int, b), subset_mean(fpu, data, p, rows[at.0], b)),
    )
}

/// The within-group cross product of two columns.
pub open spec fn within<F: Fn(FloatOp, Real, Real, Real) -> Real>(
    fpu: &Fpu<F>,
    data: Seq<Real>,
    p: int,
    rows: Seq<Seq<usize>>,
    a: int,
    b: int,
) -> Real {
    let all = grouped(rows, rows.len());
    total(fpu, Seq::new(all.len(), |t: int| within_term(fpu, data, p, rows, all[t], a, b)))
}

/// The between-group cross product of two columns.
pub open spec fn between<F: Fn(FloatOp, Real, Real, Real) -> Real>(
    fpu: &Fpu<F>,
    data: Seq<Real>,
    n: nat,
    p: nat,
    rows: Seq<Seq<usize>>,
    a: int,
    b: int,
) -> Real {
    let grand = means(fpu, data, n, p);
    total(
        fpu,
        Seq::new(
            rows.len(),
            |g: int|
                fpu.times(
                    fpu.times(
                        nat_real(rows[g].len()),
                        fpu.minus(subset_mean(fpu, data, p as int, rows[g], a), grand[a]),
                    ),
                    fpu.minus(subset_mean(fpu, data, p as int, rows[g], b), grand[b]),
                ),
        ),
    )
}

/// Every row of every group lies in the data.
pub open spec fn rows_within(rows: Seq<Vec<usize>>, n: usize) -> bool {
    forall|g: int, t: int|
        0 <= g < rows.len() && 0 <= t < rows[g]@.len() ==> (#[trigger] rows[g]@[t]) < n
}

/// Group means, one list per group.
fn group_means<F: Fn(FloatOp, Real, Real, Real) -> Real>(fpu: &Fpu<F>, m: &Rows, rows: &Vec<Vec<usize>>) -> (r: Vec<
    Vec<Real>,
>)
    requires
        fpu.wf(),
        m.wf(),
        rows_within(rows@, m.n),
        forall|g: int| 0 <= g < rows@.len() ==> (#[trigger] rows@[g])@.len() <= m.n,
    ensures
        r@.len() == rows@.len(),
        forall|g: int| 0 <= g < rows@.len() ==> (#[trigger] r@[g])@.len() == m.p,
        forall|g: int, j: int|
            0 <= g < rows@.len() && 0 <= j < m.p ==> #[trigger] r@[g]@[j] == subset_mean(
                fpu,
                m.data@,
                m.p as int,
                rows@[g]@,
                j,
            ),
{
    let mut out: Vec<Vec<Real>> = Vec::new();
    let mut g: usize = 0;
    while g < rows.len()
        invariant
            fpu.wf(),
            m.wf(),
            rows_within(rows@, m.n),
            forall|g: int| 0 <= g < rows@.len() ==> (#[trigger] rows@[g])@.len() <= m.n,
            g <= rows.len(),
            out@.len() == g,
            forall|h: int| 0 <= h < g ==> (#[trigger] out@[h])@.len() == m.p,
            forall|h: int, j: int|
                0 <= h < g && 0 <= j < m.p ==> #[trigger] out@[h]@[j] == subset_mean(
                    fpu,
                    m.data@,
                    m.p as int,
                    rows@[h]@,
                    j,
                ),
        decreases rows.len() - g,
    {
        let v: Vec<Real> = row_subset_mean(fpu, m, &rows[g]);
        out.push(v);
        g += 1;
    }
    out
}

/// The mean of each column over the given rows.
pub fn row_subset_mean<F: Fn(FloatOp, Real, Real, Real) -> Real>(fpu: &Fpu<F>, m: &Rows, rows: &Vec<usize>) -> (r: Vec<
    Real,
>)
    requires
        fpu.wf(),
        m.wf(),
        rows@.len() <= m.n,
        forall|t: int| 0 <= t < rows@.len() ==> (#[trigger] rows@[t]) < m.n,
    ensures
        r@ == Seq::new(m.p as nat, |j: int| subset_mean(fpu, m.data@, m.p as int, rows@, j)),
{
    let p: usize = m.p;
    let n: usize = m.n;
    let len: usize = m.data.len();
    let count: usize = rows.len();
    let ghost want = Seq::new(p as nat, |j: int| subset_mean(fpu, m.data@, p as int, rows@, j));
    let mut out: Vec<Real> = Vec::new();
    let mut j: usize = 0;
    while j < p
        invariant
            fpu.wf(),
            m.wf(),
            n == m.n,
            p == m.p,
            len == m.data@.len(),
            count == rows@.len(),
            count <= n,
            forall|t: int| 0 <= t < rows@.len() ==> (#[trigger] rows@[t]) < n,
            j <= p,
            want == Seq::new(p as nat, |j: int| subset_mean(fpu, m.data@, p as int, rows@, j)),
            out@ == want.take(j as int),
        decreases p - j,
    {
        let g = |t: usize| -> (x: Real)
            requires
                m.wf(),
                n == m.n,
                p == m.p,
                len == m.data@.len(),
                t < rows@.len(),
                rows@[t as int] < n,
                j < p,
            ensures
                x == cell(m.data@, p as int, rows@[t as int] as int, j as int),
            {
                proof {
                    lemma_cell(j as int, rows@[t as int] as int, p as int, n as int);
                }
                m.data[rows[t] * p + j]
            };
        let s: Real = sum_of(fpu, count, &g, Ghost(picked_column(m.data@, p as int, rows@, j as int)));
        let v: Real = fpu.quot(s, Real::from_count(count as u64));
        assert(v == want[j as int]);
        out.push(v);
        assert(out@ =~= want.take(j + 1));
        j += 1;
    }
    assert(out@ =~= want);
    out
}

/// All rows with their groups, group by group.
fn flatten(rows: &Vec<Vec<usize>>) -> (r: Vec<(usize, usize)>)
    ensures
        r@.len() == grouped(row_lists(rows@), rows@.len()).len(),
        forall|t: int|
            0 <= t < r@.len() ==> {
                let at = grouped(row_lists(rows@), rows@.len())[t];
                (#[trigger] r@[t]).0 == at.0 && r@[t].1 == at.1
            },
        forall|t: int|
            0 <= t < r@.len() ==> (#[trigger] r@[t]).0 < rows@.len() && exists|u: int|
                0 <= u < rows@[r@[t].0 as int]@.len() && #[trigger] rows@[r@[t].0 as int]@[u] == r@[t].1,
{
    let ghost lists = row_lists(rows@);
    let mut out: Vec<(usize, usize)> = Vec::new();
    let mut g: usize = 0;
    while g < rows.len()
        invariant
            lists == row_lists(rows@),
            g <= rows.len(),
            out@.len() == grouped(lists, g as nat).len(),
            forall|t: int|
                0 <= t < out@.len() ==> {
                    let at = grouped(lists, g as nat)[t];
                    (#[trigger] out@[t]).0 == at.0 && out@[t].1 == at.1
                },
            forall|t: int|
                0 <= t < out@.len() ==> (#[trigger] out@[t]).0 < rows@.len() && exists|u: int|
                    0 <= u < rows@[out@[t].0 as int]@.len() && #[trigger] rows@[out@[t].0 as int]@[u] == out@[t].1,
        decreases rows.len() - g,
    {
        let ghost before = out@;
        let row: &Vec<usize> = &rows[g];
        let mut u: usize = 0;
        while u < row.len()
            invariant
                g < rows@.len(),
                row@ == rows@[g as int]@,
                u <= row.len(),
                out@.len() == before.len() + u,
                forall|t: int| 0 <= t < before.len() ==> #[trigger] out@[t] == before[t],
                forall|t: int|
                    before.len() <= t < out@.len() ==> #[trigger] out@[t] == (g, row@[t - before.len()]),
            decreases row.len() - u,
        {
            out.push((g, row[u]));
            u += 1;
        }
        proof {
            let next = grouped(lists, (g + 1) as nat);
            assert(lists[g as int] == row@);
            assert forall|t: int| 0 <= t < out@.len() implies {
                let at = next[t];
                (#[trigger] out@[t]).0 == at.0 && out@[t].1 == at.1
            } by {
                if t < before.len() {
                    assert(out@[t] == before[t]);
                    assert(next[t] == grouped(lists, g as nat)[t]);
                } else {
                    assert(out@[t] == (g, row@[t - before.len()]));
                }
            }
            assert forall|t: int| 0 <= t < out@.len() implies (#[trigger] out@[t]).0 < rows@.len() && exists|u: int|
                0 <= u < rows@[out@[t].0 as int]@.len() && #[trigger] rows@[out@[t].0 as int]@[u] == out@[t].1 by {
                if t < before.len() {
                    assert(out@[t] == before[t]);
                } else {
                    assert(rows@[g as int]@[t - before.len()] == out@[t].1);
                }
            }
        }
        g += 1;
    }
    out
}

/// The within-group and the between-group cross products, column by column.
pub fn compute_e_h<F: Fn(FloatOp, Real, Real, Real) -> Real>(fpu: &Fpu<F>, m: &Rows, rows: &Vec<Vec<usize>>) -> (r: (
    Vec<Real>,
    Vec<Real>,
))
    requires
        fpu.wf(),
        m.wf(),
        m.p * m.p <= usize::MAX,
        rows_within(rows@, m.n),
        forall|g: int| 0 <= g < rows@.len() ==> (#[trigger] rows@[g])@.len() <= m.n,
    ensures
        r.0@ == within_table(fpu, m.data@, m.p as nat, row_lists(rows@)),
        r.1@ == between_table(fpu, m.data@, m.n as nat, m.p as nat, row_lists(rows@)),
        r.0@.len() == m.p * m.p,
        r.1@.len() == m.p * m.p,
{
    let n: usize = m.n;
    let p: usize = m.p;
    let len: usize = m.data.len();
    let ghost lists = row_lists(rows@);
    let ghost all = grouped(lists, lists.len());
    let grand: Vec<Real> = col_means(fpu, m);
    let gm: Vec<Vec<Real>> = group_means(fpu, m, rows);
    let flat: Vec<(usize, usize)> = flatten(rows);
    let total_rows: usize = flat.len();
    let ghost fe = |a: int, b: int| within(fpu, m.data@, p as int, lists, a, b);
    let ge = |a: usize, b: usize| -> (x: Real)
        requires
            fpu.wf(),
            m.wf(),
            n == m.n,
            p == m.p,
            len == m.data@.len(),
            a < p,
            b < p,
            total_rows == flat@.len(),
            rows_within(rows@, n),
            gm@.len() == rows@.len(),
            forall|g: int| 0 <= g < rows@.len() ==> (#[trigger] gm@[g])@.len() == p,
            forall|g: int, j: int|
                0 <= g < rows@.len() && 0 <= j < p ==> #[trigger] gm@[g]@[j] == subset_mean(
                    fpu,
                    m.data@,
                    p as int,
                    rows@[g]@,
                    j,
                ),
            flat@.len() == grouped(row_lists(rows@), rows@.len()).len(),
            forall|t: int|
                0 <= t < flat@.len() ==> {
                    let at = grouped(row_lists(rows@), rows@.len())[t];
                    (#[trigger] flat@[t]).0 == at.0 && flat@[t].1 == at.1
                },
            forall|t: int|
                0 <= t < flat@.len() ==> (#[trigger] flat@[t]).0 < rows@.len() && exists|u: int|
                    0 <= u < rows@[flat@[t].0 as int]@.len() && #[trigger] rows@[flat@[t].0 as int]@[u] == flat@[t].1,
        ensures
            x == within(fpu, m.data@, p as int, row_lists(rows@), a as int, b as int),
        {
            let term = |t: usize| -> (y: Real)
                requires
                    fpu.wf(),
                    m.wf(),
                    n == m.n,
                    p == m.p,
                    len == m.data@.len(),
                    a < p,
                    b < p,
                    t < flat@.len(),
                    flat@[t as int].1 < n,
                    flat@[t as int].0 < gm@.len(),
                    gm@[flat@[t as int].0 as int]@.len() == p,
                ensures
                    y == fpu.times(
                        fpu.minus(
                            cell(m.data@, p as int, flat@[t as int].1 as int, a as int),
                            gm@[flat@[t as int].0 as int]@[a as int],
                        ),
                        fpu.minus(
                            cell(m.data@, p as int, flat@[t as int].1 as int, b as int),
                            gm@[flat@[t as int].0 as int]@[b as int],
                        ),
                    ),
                {
                    let (g, i) = flat[t];
                    proof {
                        lemma_cell(a as int, i as int, p as int, n as int);
                        lemma_cell(b as int, i as int, p as int, n as int);
                    }
                    let da: Real = fpu.diff(m.data[i * p + a], gm[g][a]);
                    let db: Real = fpu.diff(m.data[i * p + b], gm[g][b]);
                    fpu.prod(da, db)
                };
            proof {
                assert forall|t: int| 0 <= t < flat@.len() implies (#[trigger] flat@[t]).1 < n by {
                    let u = choose|u: int|
                        0 <= u < rows@[flat@[t].0 as int]@.len() && #[trigger] rows@[flat@[t].0 as int]@[u]
                            == flat@[t].1;
                    assert(rows@[flat@[t].0 as int]@[u] < n);
                }
            }
            sum_of(
                fpu,
                total_rows,
                &term,
                Ghost(
                    Seq::new(
                        grouped(row_lists(rows@), rows@.len()).len(),
                        |t: int|
                            within_term(
                                fpu,
                                m.data@,
                                p as int,
                                row_lists(rows@),
                                grouped(row_lists(rows@), rows@.len())[t],
                                a as int,
                                b as int,
                            ),
                    ),
                ),
            )
        };
    let e: Vec<Real> = table_of(p, p, &ge, Ghost(fe));
    let ghost fh = |a: int, b: int| between(fpu, m.data@, n as nat, p as nat, lists, a, b);
    let k: usize = rows.len();
    let gh = |a: usize, b: usize| -> (x: Real)
        requires
            fpu.wf(),
            m.wf(),
            n == m.n,
            p == m.p,
            a < p,
            b < p,
            k == rows@.len(),
            grand@ == means(fpu, m.data@, n as nat, p as nat),
            gm@.len() == rows@.len(),
            forall|g: int| 0 <= g < rows@.len() ==> (#[trigger] rows@[g])@.len() <= n,
            forall|g: int| 0 <= g < rows@.len() ==> (#[trigger] gm@[g])@.len() == p,
            forall|g: int, j: int|
                0 <= g < rows@.len() && 0 <= j < p ==> #[trigger] gm@[g]@[j] == subset_mean(
                    fpu,
                    m.data@,
                    p as int,
                    rows@[g]@,
                    j,
                ),
        ensures
            x == between(fpu, m.data@, n as nat, p as nat, row_lists(rows@), a as int, b as int),
        {
            let term = |g: usize| -> (y: Real)
                requires
                    fpu.wf(),
                    g < rows@.len(),
                    rows@[g as int]@.len() < SIZE_LIMIT,
                    gm@.len() == rows@.len(),
                    gm@[g as int]@.len() == p,
                    grand@.len() == p,
                    a < p,
                    b < p,
                ensures
                    y == fpu.times(
                        fpu.times(
                            nat_real(rows@[g as int]@.len()),
                            fpu.minus(gm@[g as int]@[a as int], grand@[a as int]),
                        ),
                        fpu.minus(gm@[g as int]@[b as int], grand@[b as int]),
                    ),
                {
                    let ng: Real = Real::from_count(rows[g].len() as u64);
                    let da: Real = fpu.diff(gm[g][a], grand[a]);
                    let db: Real = fpu.diff(gm[g][b], grand[b]);
                    fpu.prod(fpu.prod(ng, da), db)
                };
            sum_of(
                fpu,
                k,
                &term,
                Ghost(
                    Seq::new(
                        row_lists(rows@).len(),
                        |g: int|
                            fpu.times(
                                fpu.times(
                                    nat_real(row_lists(rows@)[g].len()),
                                    fpu.minus(
                                        subset_mean(fpu, m.data@, p as int, row_lists(rows@)[g], a as int),
                                        means(fpu, m.data@, n as nat, p as nat)[a as int],
                                    ),
                                ),
                                fpu.minus(
                                    subset_mean(fpu, m.data@, p as int, row_lists(rows@)[g], b as int),
                                    means(fpu, m.data@, n as nat, p as nat)[b as int],
                                ),
                            ),
                    ),
                ),
            )
        };
    let h: Vec<Real> = table_of(p, p, &gh, Ghost(fh));
    (e, h)
}

/// The within-group cross products.
pub open spec fn within_table<F: Fn(FloatOp, Real, Real, Real) -> Real>(
    fpu: &Fpu<F>,
    data: Seq<Real>,
    p: nat,
    rows: Seq<Seq<usize>>,
) -> Seq<Real> {
    table(p, p, |a: int, b: int| within(fpu, data, p as int, rows, a, b))
}

/// The between-group cross products.
pub open spec fn between_table<F: Fn(FloatOp, Real, Real, Real) -> Real>(
    fpu: &Fpu<F>,
    data: Seq<Real>,
    n: nat,
    p: nat,
    rows: Seq<Seq<usize>>,
) -> Seq<Real> {
    table(p, p, |a: int, b: int| between(fpu, data, n, p, rows, a, b))
}

// ── The symmetric eigenvalue problem ─────────────────────────────────

/// Column `c` of a square table.
pub open spec fn table_column(s: Seq<Real>, p: nat, c: int) -> Seq<Real> {
    Seq::new(p, |i: int| entry(s, p as int, i, c))
}

/// Row `r` of a square table.
pub open spec fn table_row(s: Seq<Real>, p: nat, r: int) -> Seq<Real> {
    Seq::new(p, |j: int| entry(s, p as int, r, j))
}

/// `L^-1 H`: each column of `H` by forward substitution.
pub open spec fn solved_columns<F: Fn(FloatOp, Real, Real, Real) -> Real>(
    fpu: &Fpu<F>,
    l: Seq<Real>,
    h: Seq<Real>,
    p: nat,
) -> Seq<Real> {
    table(p, p, |i: int, c: int| forward(fpu, p as int, l, table_column(h, p, c), false, p)[i])
}

/// `X L^-T`: each row of `X` by forward substitution.
pub open spec fn solved_rows<F: Fn(FloatOp, Real, Real, Real) -> Real>(
    fpu: &Fpu<F>,
    l: Seq<Real>,
    x: Seq<Real>,
    p: nat,
) -> Seq<Real> {
    table(p, p, |r: int, j: int| forward(fpu, p as int, l, table_row(x, p, r), false, p)[j])
}

/// Each pair of opposite entries replaced by their mean.
pub open spec fn symmetrized<F: Fn(FloatOp, Real, Real, Real) -> Real>(fpu: &Fpu<F>, b: Seq<Real>, p: nat) -> Seq<Real> {
    table(
        p,
        p,
        |i: int, j: int|
            if i == j {
                entry(b, p as int, i, j)
            } else if i > j {
                fpu.times(fpu.plus(entry(b, p as int, i, j), entry(b, p as int, j, i)), num(HALF_BITS))
            } else {
                fpu.times(fpu.plus(entry(b, p as int, j, i), entry(b, p as int, i, j)), num(HALF_BITS))
            },
    )
}

/// The symmetric matrix whose eigenvalues are those of `E^-1 H`.
pub open spec fn whitened<F: Fn(FloatOp, Real, Real, Real) -> Real>(
    fpu: &Fpu<F>,
    l: Seq<Real>,
    h: Seq<Real>,
    p: nat,
) -> Seq<Real> {
    symmetrized(fpu, solved_rows(fpu, l, solved_columns(fpu, l, h, p), p), p)
}

proof fn lemma_forward_len<F: Fn(FloatOp, Real, Real, Real) -> Real>(
    fpu: &Fpu<F>,
    n: int,
    l: Seq<Real>,
    b: Seq<Real>,
    i: nat,
)
    requires
        i <= b.len(),
    ensures
        forward(fpu, n, l, b, false, i).len() == b.len(),
        forall|k: int| i <= k < b.len() ==> #[trigger] forward(fpu, n, l, b, false, i)[k] == b[k],
    decreases i,
{
    if i > 0 {
        lemma_forward_len(fpu, n, l, b, (i - 1) as nat);
    }
}

/// Forward substitution with any diagonal.
fn substitute<F: Fn(FloatOp, Real, Real, Real) -> Real>(fpu: &Fpu<F>, p: usize, l: &Vec<Real>, b: Vec<Real>) -> (r: Vec<
    Real,
>)
    requires
        fpu.wf(),
        l@.len() == p * p,
        b@.len() == p,
    ensures
        r@ == forward(fpu, p as int, l@, b@, false, p as nat),
        r@.len() == p,
{
    let len: usize = l.len();
    let mut x: Vec<Real> = crate::value::dup_copies(&b);
    let mut i: usize = 0;
    while i < p
        invariant
            fpu.wf(),
            i <= p,
            l@.len() == p * p,
            len == l@.len(),
            b@.len() == p,
            x@.len() == p,
            x@ == forward(fpu, p as int, l@, b@, false, i as nat),
        decreases p - i,
    {
        let mut rest: Real = b[i];
        let mut k: usize = 0;
        while k < i
            invariant
                fpu.wf(),
                i < p,
                k <= i,
                l@.len() == p * p,
                len == l@.len(),
                x@.len() == p,
                rest == lower_rest(fpu, p as int, l@, x@, b@[i as int], i as int, k as nat),
            decreases i - k,
        {
            proof {
                lemma_cell(i as int, k as int, p as int, p as int);
            }
            rest = fpu.diff(rest, fpu.prod(l[k * p + i], x[k]));
            k += 1;
        }
        proof {
            lemma_cell(i as int, i as int, p as int, p as int);
        }
        let v: Real = fpu.quot(rest, l[i * p + i]);
        x.set(i, v);
        i += 1;
    }
    x
}

/// One line of a square table: a column, or a row.
fn line(s: &Vec<Real>, p: usize, c: usize, by_row: bool) -> (r: Vec<Real>)
    requires
        s@.len() == p * p,
        c < p,
    ensures
        r@ == (if by_row {
            table_row(s@, p as nat, c as int)
        } else {
            table_column(s@, p as nat, c as int)
        }),
        r@.len() == p,
{
    let len: usize = s.len();
    let mut out: Vec<Real> = Vec::new();
    let mut i: usize = 0;
    while i < p
        invariant
            i <= p,
            c < p,
            s@.len() == p * p,
            len == s@.len(),
            out@.len() == i,
            forall|k: int|
                0 <= k < i ==> #[trigger] out@[k] == (if by_row {
                    entry(s@, p as int, c as int, k)
                } else {
                    entry(s@, p as int, k, c as int)
                }),
        decreases p - i,
    {
        proof {
            lemma_cell(i as int, c as int, p as int, p as int);
            lemma_cell(c as int, i as int, p as int, p as int);
        }
        out.push(if by_row { s[i * p + c] } else { s[c * p + i] });
        i += 1;
    }
    assert(out@ =~= (if by_row {
        table_row(s@, p as nat, c as int)
    } else {
        table_column(s@, p as nat, c as int)
    }));
    out
}

/// Forward substitution of every column, or of every row.
fn substitute_all<F: Fn(FloatOp, Real, Real, Real) -> Real>(
    fpu: &Fpu<F>,
    p: usize,
    l: &Vec<Real>,
    s: &Vec<Real>,
    by_row: bool,
) -> (r: Vec<Real>)
    requires
        fpu.wf(),
        l@.len() == p * p,
        s@.len() == p * p,
    ensures
        r@ == (if by_row {
            solved_rows(fpu, l@, s@, p as nat)
        } else {
            solved_columns(fpu, l@, s@, p as nat)
        }),
        r@.len() == p * p,
{
    let len: usize = s.len();
    let mut lines: Vec<Vec<Real>> = Vec::new();
    let mut c: usize = 0;
    while c < p
        invariant
            fpu.wf(),
            c <= p,
            l@.len() == p * p,
            s@.len() == p * p,
            lines@.len() == c,
            forall|k: int|
                0 <= k < c ==> (#[trigger] lines@[k])@ == forward(
                    fpu,
                    p as int,
                    l@,
                    (if by_row {
                        table_row(s@, p as nat, k)
                    } else {
                        table_column(s@, p as nat, k)
                    }),
                    false,
                    p as nat,
                ) && lines@[k]@.len() == p,
        decreases p - c,
    {
        let b: Vec<Real> = line(s, p, c, by_row);
        let x: Vec<Real> = substitute(fpu, p, l, b);
        lines.push(x);
        c += 1;
    }
    let ghost f = |i: int, j: int|
        if by_row {
            forward(fpu, p as int, l@, table_row(s@, p as nat, i), false, p as nat)[j]
        } else {
            forward(fpu, p as int, l@, table_column(s@, p as nat, j), false, p as nat)[i]
        };
    let g = |i: usize, j: usize| -> (x: Real)
        requires
            i < p,
            j < p,
            lines@.len() == p,
            forall|k: int| 0 <= k < p ==> (#[trigger] lines@[k])@.len() == p,
        ensures
            x == (if by_row {
                lines@[i as int]@[j as int]
            } else {
                lines@[j as int]@[i as int]
            }),
        {
            if by_row {
                lines[i][j]
            } else {
                lines[j][i]
            }
        };
    let r: Vec<Real> = table_of(p, p, &g, Ghost(f));
    proof {
        if by_row {
            assert(r@ =~= solved_rows(fpu, l@, s@, p as nat));
        } else {
            assert(r@ =~= solved_columns(fpu, l@, s@, p as nat));
        }
    }
    r
}

fn symmetrize<F: Fn(FloatOp, Real, Real, Real) -> Real>(fpu: &Fpu<F>, b: &Vec<Real>, p: usize) -> (r: Vec<Real>)
    requires
        fpu.wf(),
        b@.len() == p * p,
    ensures
        r@ == symmetrized(fpu, b@, p as nat),
        r@.len() == p * p,
{
    let len: usize = b.len();
    let ghost f = |i: int, j: int|
        if i == j {
            entry(b@, p as int, i, j)
        } else if i > j {
            fpu.times(fpu.plus(entry(b@, p as int, i, j), entry(b@, p as int, j, i)), num(HALF_BITS))
        } else {
            fpu.times(fpu.plus(entry(b@, p as int, j, i), entry(b@, p as int, i, j)), num(HALF_BITS))
        };
    let g = |i: usize, j: usize| -> (x: Real)
        requires
            fpu.wf(),
            i < p,
            j < p,
            b@.len() == p * p,
            len == b@.len(),
        ensures
            x == (if i == j {
                entry(b@, p as int, i as int, j as int)
            } else if i > j {
                fpu.times(
                    fpu.plus(entry(b@, p as int, i as int, j as int), entry(b@, p as int, j as int, i as int)),
                    num(HALF_BITS),
                )
            } else {
                fpu.times(
                    fpu.plus(entry(b@, p as int, j as int, i as int), entry(b@, p as int, i as int, j as int)),
                    num(HALF_BITS),
                )
            }),
        {
            proof {
                lemma_cell(i as int, j as int, p as int, p as int);
                lemma_cell(j as int, i as int, p as int, p as int);
            }
            if i == j {
                b[j * p + i]
            } else if i > j {
                fpu.prod(fpu.sum(b[j * p + i], b[i * p + j]), Real { bits: HALF_BITS })
            } else {
                fpu.prod(fpu.sum(b[i * p + j], b[j * p + i]), Real { bits: HALF_BITS })
            }
        };
    table_of(p, p, &g, Ghost(f))
}

/// The symmetric matrix whose eigenvalues are those of `E^-1 H`, from the
/// Cholesky factor of `E`.
pub fn whiten<F: Fn(FloatOp, Real, Real, Real) -> Real>(fpu: &Fpu<F>, l: &Vec<Real>, h: &Vec<Real>, p: usize) -> (r: Vec<
    Real,
>)
    requires
        fpu.wf(),
        l@.len() == p * p,
        h@.len() == p * p,
    ensures
        r@ == whitened(fpu, l@, h@, p as nat),
        r@.len() == p * p,
{
    let x: Vec<Real> = substitute_all(fpu, p, l, h, false);
    let b: Vec<Real> = substitute_all(fpu, p, l, &x, true);
    symmetrize(fpu, &b, p)
}

/// The matrix of which eigenvalues are taken is symmetric.
pub proof fn law_whitened_symmetric<F: Fn(FloatOp, Real, Real, Real) -> Real>(
    fpu: &Fpu<F>,
    l: Seq<Real>,
    h: Seq<Real>,
    p: nat,
    i: int,
    j: int,
)
    requires
        0 <= i < p,
        0 <= j < p,
    ensures
        entry(whitened(fpu, l, h, p), p as int, i, j) == entry(whitened(fpu, l, h, p), p as int, j, i),
{
    let b = solved_rows(fpu, l, solved_columns(fpu, l, h, p), p);
    let f = |i: int, j: int|
        if i == j {
            entry(b, p as int, i, j)
        } else if i > j {
            fpu.times(fpu.plus(entry(b, p as int, i, j), entry(b, p as int, j, i)), num(HALF_BITS))
        } else {
            fpu.times(fpu.plus(entry(b, p as int, j, i), entry(b, p as int, i, j)), num(HALF_BITS))
        };
    assert(whitened(fpu, l, h, p) =~= table(p, p, f));
    lemma_entry(p, p, f, i, j);
    lemma_entry(p, p, f, j, i);
}

} // verus!
