//! Clustering by nearest centroids.
use crate::double::{FloatOp, Fpu, INF, Real, nat_real, num, zero};
use crate::grid::{entry, lemma_entry, lemma_split, sum_of, sum_reals, table, table_of, total};
use crate::grouping::{lemma_positions, positions};
use crate::kernel::Backend;
use crate::kernel_map::par_for;
use crate::ml_data::{
    Predictor, column_names, frame_columns, frame_predictors, full_column_of, matrix_names, predictor_names, stacked,
};
use crate::stats_matrix::{SIZE_LIMIT, failed, sound, sound_args};
use crate::text::{owned, texts};
use crate::value::{
    ErrKind, EvalArg, Frame, Grid, Matrix, R2Err, RVal, Val, arg_count, arg_named, count_named, fail, frame_rows,
    instance, lemma_cell, named, no_attrs, nth, nth_arg, num_val, nums_val, put, rnum, rnums, scalar,
};
use vstd::prelude::*;

verus! {

/// The numbers of a matrix, or of the numeric columns of a data frame.
pub open spec fn numeric_grid(v: Val) -> Option<Grid> {
    match v {
        Val::Matrix(g) => Some(g),
        Val::DataFrame(f) => {
            let p = frame_predictors(f, None, frame_rows(f), f.columns.len());
            Some(
                Grid {
                    data: stacked(p, p.len()),
                    nrow: frame_rows(f),
                    ncol: p.len(),
                    col_names: Some(predictor_names(p)),
                },
            )
        },
        _ => None,
    }
}

proof fn lemma_stacked_len(p: Seq<Predictor>, n: nat, k: nat)
    requires
        k <= p.len(),
        forall|i: int| 0 <= i < p.len() ==> (#[trigger] p[i]).1.len() == n,
    ensures
        stacked(p, k).len() == n * k,
    decreases k,
{
    if k > 0 {
        lemma_stacked_len(p, n, (k - 1) as nat);
        assert(n * (k - 1) + n == n * k) by (nonlinear_arith);
    } else {
        assert(n * k == 0) by (nonlinear_arith)
            requires
                k == 0,
        ;
    }
}

proof fn lemma_frame_full(f: Frame, n: nat, k: nat)
    requires
        k <= f.columns.len(),
    ensures
        forall|i: int|
            0 <= i < frame_predictors(f, None, n, k).len() ==> (#[trigger] frame_predictors(f, None, n, k)[i]).1.len()
                == n,
        frame_predictors(f, None, n, k).len() <= k,
    decreases k,
{
    if k > 0 {
        lemma_frame_full(f, n, (k - 1) as nat);
    }
}

/// Reads a matrix, or the numeric columns of a data frame.
pub(crate) fn read_grid(v: &RVal, msg: &str) -> (r: Result<Matrix, R2Err>)
    requires
        sound(v.deep()),
        frame_small(v.deep()),
    ensures
        match numeric_grid(v.deep()) {
            Some(g) => r is Ok && r->Ok_0.deep() == g && g.wf() && g.ncol < SIZE_LIMIT && g.nrow < SIZE_LIMIT,
            None => failed(r, (ErrKind::Runtime, msg@)),
        },
{
    proof {
        reveal_with_fuel(RVal::deep, 2);
    }
    match v {
        RVal::Matrix(m) => Ok(m.dup()),
        RVal::DataFrame(df) => {
            let ghost f = df.deep();
            let nrow: usize = df.nrow();
            assert(f.columns =~= frame_columns(df.columns@));
            let mut data: Vec<Real> = Vec::new();
            let mut names: Vec<String> = Vec::new();
            let mut k: usize = 0;
            assert(texts(names@) =~= predictor_names(Seq::<Predictor>::empty()));
            while k < df.columns.len()
                invariant
                    f.columns == frame_columns(df.columns@),
                    nrow == frame_rows(f),
                    k <= df.columns.len(),
                    texts(names@) == predictor_names(frame_predictors(f, None, nrow as nat, k as nat)),
                    data@ == stacked(
                        frame_predictors(f, None, nrow as nat, k as nat),
                        frame_predictors(f, None, nrow as nat, k as nat).len(),
                    ),
                decreases df.columns.len() - k,
            {
                let ghost p = frame_predictors(f, None, nrow as nat, k as nat);
                assert(f.columns[k as int] == (df.columns@[k as int].0@, df.columns@[k as int].1.deep()));
                match full_column_of(&df.columns[k].1, nrow) {
                    Some(x) => {
                        let ghost names0 = names@;
                        let ghost data0 = data@;
                        let name: String = owned(df.columns[k].0.as_str());
                        names.push(name);
                        let mut i: usize = 0;
                        while i < x.len()
                            invariant
                                i <= x.len(),
                                data@ == data0 + x@.take(i as int),
                            decreases x.len() - i,
                        {
                            data.push(x[i]);
                            assert(data@ =~= data0 + x@.take(i + 1));
                            i += 1;
                        }
                        proof {
                            let q = p.push((name@, x@));
                            assert(x@.take(x@.len() as int) =~= x@);
                            crate::ml_data::lemma_stacked_prefix(p, q, p.len());
                            assert(texts(names0).len() == names0.len());
                            assert(texts(names@) =~= predictor_names(q)) by {
                                assert forall|i: int| 0 <= i < q.len() implies texts(names@)[i] == q[i].0 by {
                                    if i < p.len() {
                                        assert(texts(names0)[i] == predictor_names(p)[i]);
                                    }
                                }
                            }
                        }
                    },
                    None => {},
                }
                k += 1;
            }
            let ghost p = frame_predictors(f, None, nrow as nat, f.columns.len());
            proof {
                lemma_frame_full(f, nrow as nat, f.columns.len());
                lemma_stacked_len(p, nrow as nat, p.len());
                assert(texts(names@).len() == p.len());
            }
            let ncol: usize = names.len();
            Ok(Matrix { data, nrow, ncol, col_names: Some(names) })
        },
        _ => Err(fail(ErrKind::Runtime, msg)),
    }
}

/// A data frame whose sizes a double counts exactly.
pub open spec fn frame_small(v: Val) -> bool {
    v is DataFrame ==> frame_rows(v->DataFrame_0) < SIZE_LIMIT && v->DataFrame_0.columns.len() < SIZE_LIMIT
}

/// Centroids: `k` points of `n` numbers, point by point.
pub open spec fn centre(s: Seq<Real>, n: int, c: int, j: int) -> Real {
    entry(s, n, j, c)
}

/// The squared distance of row `i` from centroid `c`.
pub open spec fn gap<F: Fn(FloatOp, Real, Real, Real) -> Real>(
    fpu: &Fpu<F>,
    g: Grid,
    centres: Seq<Real>,
    i: int,
    c: int,
) -> Real {
    total(fpu, Seq::new(g.ncol, |j: int| fpu.square_diff(g.at(i, j), centre(centres, g.ncol as int, c, j))))
}

/// The nearest of the first `k` centroids and its squared distance; of equally
/// near ones the first.
pub open spec fn nearest<F: Fn(FloatOp, Real, Real, Real) -> Real>(
    fpu: &Fpu<F>,
    g: Grid,
    centres: Seq<Real>,
    i: int,
    k: nat,
) -> (int, Real)
    decreases k,
{
    if k == 0 {
        (0, num(INF))
    } else {
        let b = nearest(fpu, g, centres, i, (k - 1) as nat);
        let d = gap(fpu, g, centres, i, k - 1);
        if d.below(b.1) {
            (k - 1, d)
        } else {
            b
        }
    }
}

/// Each row's nearest centroid.
pub open spec fn assigned<F: Fn(FloatOp, Real, Real, Real) -> Real>(
    fpu: &Fpu<F>,
    g: Grid,
    centres: Seq<Real>,
    k: nat,
) -> Seq<usize> {
    Seq::new(g.nrow, |i: int| nearest(fpu, g, centres, i, k).0 as usize)
}

/// The numbers of column `j` in the rows of a cluster.
pub open spec fn member_values(g: Grid, cluster: Seq<usize>, c: usize, j: int) -> Seq<Real> {
    let m = positions(cluster, c);
    Seq::new(m.len(), |t: int| g.at(m[t] as int, j))
}

/// The mean of a cluster in column `j`, zero for an empty one.
pub open spec fn cluster_mean<F: Fn(FloatOp, Real, Real, Real) -> Real>(
    fpu: &Fpu<F>,
    g: Grid,
    cluster: Seq<usize>,
    c: usize,
    j: int,
) -> Real {
    let s = member_values(g, cluster, c, j);
    if s.len() > 0 {
        fpu.over(total(fpu, s), nat_real(s.len()))
    } else {
        zero()
    }
}

/// The centroids of a clustering.
pub open spec fn recentred<F: Fn(FloatOp, Real, Real, Real) -> Real>(
    fpu: &Fpu<F>,
    g: Grid,
    cluster: Seq<usize>,
    k: nat,
) -> Seq<Real> {
    table(g.ncol, k, |j: int, c: int| cluster_mean(fpu, g, cluster, c as usize, j))
}

/// Evenly spaced rows to start from.
pub open spec fn first_centres(g: Grid, k: nat) -> Seq<Real> {
    table(g.ncol, k, |j: int, c: int| g.at(c * g.nrow / (k as int), j))
}

/// The state of the clustering: the clusters, once there are some, their
/// centroids, and whether the last round changed nothing.
pub struct Round {
    pub cluster: Option<Seq<usize>>,
    pub centres: Seq<Real>,
    pub settled: bool,
}

/// The state after `t` rounds; a settled one stays.
pub open spec fn rounds<F: Fn(FloatOp, Real, Real, Real) -> Real>(fpu: &Fpu<F>, g: Grid, k: nat, t: nat) -> Round
    decreases t,
{
    if t == 0 {
        Round { cluster: None, centres: first_centres(g, k), settled: false }
    } else {
        let s = rounds(fpu, g, k, (t - 1) as nat);
        if s.settled {
            s
        } else {
            let cl = assigned(fpu, g, s.centres, k);
            Round { cluster: Some(cl), centres: recentred(fpu, g, cl, k), settled: s.cluster == Some(cl) }
        }
    }
}

fn gap_of<F: Fn(FloatOp, Real, Real, Real) -> Real>(
    fpu: &Fpu<F>,
    m: &Matrix,
    centres: &Vec<Real>,
    k: usize,
    i: usize,
    c: usize,
) -> (r: Real)
    requires
        fpu.wf(),
        m.deep().wf(),
        centres@.len() == m.ncol * k,
        i < m.nrow,
        c < k,
    ensures
        r == gap(fpu, m.deep(), centres@, i as int, c as int),
{
    let n: usize = m.ncol;
    let nrow: usize = m.nrow;
    let md: &Vec<Real> = &m.data;
    let len: usize = md.len();
    let clen: usize = centres.len();
    let ghost g = m.deep();
    let f = |j: usize| -> (x: Real)
        requires
            fpu.wf(),
            j < n,
            i < nrow,
            c < k,
            md@.len() == nrow * n,
            len == md@.len(),
            centres@.len() == n * k,
            clen == centres@.len(),
        ensures
            x == fpu.square_diff(md@[j * nrow + i], centre(centres@, n as int, c as int, j as int)),
        {
            proof {
                lemma_cell(i as int, j as int, nrow as int, n as int);
                lemma_cell(j as int, c as int, n as int, k as int);
            }
            let d: Real = fpu.diff(md[j * nrow + i], centres[c * n + j]);
            fpu.prod(d, d)
        };
    sum_of(
        fpu,
        n,
        &f,
        Ghost(
            Seq::new(
                g.ncol,
                |j: int| fpu.square_diff(g.at(i as int, j), centre(centres@, g.ncol as int, c as int, j)),
            ),
        ),
    )
}

fn nearest_of<F: Fn(FloatOp, Real, Real, Real) -> Real>(
    fpu: &Fpu<F>,
    m: &Matrix,
    centres: &Vec<Real>,
    k: usize,
    i: usize,
) -> (r: usize)
    requires
        fpu.wf(),
        m.deep().wf(),
        centres@.len() == m.ncol * k,
        i < m.nrow,
        k > 0,
    ensures
        r == nearest(fpu, m.deep(), centres@, i as int, k as nat).0,
        r < k,
{
    let mut best: usize = 0;
    let mut dist: Real = Real { bits: INF };
    let mut c: usize = 0;
    while c < k
        invariant
            fpu.wf(),
            m.deep().wf(),
            centres@.len() == m.ncol * k,
            i < m.nrow,
            c <= k,
            k > 0,
            best < k,
            (best as int, dist) == nearest(fpu, m.deep(), centres@, i as int, c as nat),
        decreases k - c,
    {
        let d: Real = gap_of(fpu, m, centres, k, i, c);
        if d.lt(&dist) {
            dist = d;
            best = c;
        }
        c += 1;
    }
    best
}

fn assign<F: Fn(FloatOp, Real, Real, Real) -> Real + Sync>(
    fpu: &Fpu<F>,
    m: &Matrix,
    centres: &Vec<Real>,
    k: usize,
    on: Backend,
) -> (r: Vec<usize>)
    requires
        fpu.wf(),
        m.deep().wf(),
        centres@.len() == m.ncol * k,
        k > 0,
    ensures
        r@ == assigned(fpu, m.deep(), centres@, k as nat),
        forall|i: int| 0 <= i < r@.len() ==> (#[trigger] r@[i]) < k,
{
    let f = |i: usize| -> (c: usize)
        requires
            fpu.wf(),
            m.data@.len() == m.nrow * m.ncol,
            centres@.len() == m.ncol * k,
            k > 0,
            i < m.nrow,
        ensures
            c == nearest(fpu, grid_of(m), centres@, i as int, k as nat).0,
            c < k,
        { nearest_of(fpu, m, centres, k, i) };
    let r = par_for(on, m.nrow, f);
    assert(r@ =~= assigned(fpu, m.deep(), centres@, k as nat)) by {
        assert forall|i: int| 0 <= i < r@.len() implies #[trigger] r@[i] == nearest(
            fpu,
            m.deep(),
            centres@,
            i,
            k as nat,
        ).0 by {
            assert(call_ensures(f, (i as usize,), r@[i]));
        }
    }
    assert forall|i: int| 0 <= i < r@.len() implies (#[trigger] r@[i]) < k by {
        assert(call_ensures(f, (i as usize,), r@[i]));
    }
    r
}

/// The numbers of a matrix, by reference.
pub open spec fn grid_of(m: &Matrix) -> Grid {
    m.deep()
}

/// The rows of a cluster.
fn members(cluster: &Vec<usize>, c: usize) -> (r: Vec<usize>)
    ensures
        r@ == positions(cluster@, c),
{
    let mut out: Vec<usize> = Vec::new();
    let mut i: usize = 0;
    assert(cluster@.take(0) =~= Seq::<usize>::empty());
    while i < cluster.len()
        invariant
            i <= cluster.len(),
            out@ == positions(cluster@.take(i as int), c),
        decreases cluster.len() - i,
    {
        assert(cluster@.take(i + 1).drop_last() =~= cluster@.take(i as int));
        if cluster[i] == c {
            out.push(i);
        }
        i += 1;
    }
    assert(cluster@.take(cluster@.len() as int) =~= cluster@);
    out
}

/// The rows of each cluster.
pub(crate) fn all_members(cluster: &Vec<usize>, k: usize) -> (r: Vec<Vec<usize>>)
    ensures
        r@.len() == k,
        forall|c: int| 0 <= c < k ==> (#[trigger] r@[c])@ == positions(cluster@, c as usize),
{
    let mut out: Vec<Vec<usize>> = Vec::new();
    let mut c: usize = 0;
    while c < k
        invariant
            c <= k,
            out@.len() == c,
            forall|d: int| 0 <= d < c ==> (#[trigger] out@[d])@ == positions(cluster@, d as usize),
        decreases k - c,
    {
        out.push(members(cluster, c));
        c += 1;
    }
    out
}

fn mean_of_members<F: Fn(FloatOp, Real, Real, Real) -> Real>(
    fpu: &Fpu<F>,
    m: &Matrix,
    rows: &Vec<usize>,
    j: usize,
    Ghost(cluster): Ghost<Seq<usize>>,
    Ghost(c): Ghost<usize>,
) -> (r: Real)
    requires
        fpu.wf(),
        m.deep().wf(),
        m.nrow < SIZE_LIMIT,
        j < m.ncol,
        cluster.len() == m.nrow,
        rows@ == positions(cluster, c),
    ensures
        r == cluster_mean(fpu, m.deep(), cluster, c, j as int),
{
    proof {
        lemma_positions(cluster, c);
    }
    let count: usize = rows.len();
    if count == 0 {
        return Real { bits: 0 };
    }
    let nrow: usize = m.nrow;
    let n: usize = m.ncol;
    let md: &Vec<Real> = &m.data;
    let len: usize = md.len();
    let ghost g = m.deep();
    let f = |t: usize| -> (x: Real)
        requires
            t < rows@.len(),
            rows@[t as int] < nrow,
            j < n,
            md@.len() == nrow * n,
            len == md@.len(),
        ensures
            x == md@[j * nrow + rows@[t as int]],
        {
            proof {
                lemma_cell(rows@[t as int] as int, j as int, nrow as int, n as int);
            }
            md[j * nrow + rows[t]]
        };
    let s: Real = sum_of(fpu, count, &f, Ghost(member_values(g, cluster, c, j as int)));
    fpu.quot(s, Real::from_count(count as u64))
}

pub(crate) fn recentre<F: Fn(FloatOp, Real, Real, Real) -> Real>(
    fpu: &Fpu<F>,
    m: &Matrix,
    cluster: &Vec<usize>,
    rows: &Vec<Vec<usize>>,
    k: usize,
) -> (r: Vec<Real>)
    requires
        fpu.wf(),
        m.deep().wf(),
        m.nrow < SIZE_LIMIT,
        cluster@.len() == m.nrow,
        m.ncol * k <= usize::MAX,
        rows@.len() == k,
        forall|c: int| 0 <= c < k ==> (#[trigger] rows@[c])@ == positions(cluster@, c as usize),
    ensures
        r@ == recentred(fpu, m.deep(), cluster@, k as nat),
        r@.len() == m.ncol * k,
{
    let ghost g = m.deep();
    let ghost f = |j: int, c: int| cluster_mean(fpu, g, cluster@, c as usize, j);
    let h = |j: usize, c: usize| -> (x: Real)
        requires
            fpu.wf(),
            m.data@.len() == m.nrow * m.ncol,
            m.nrow < SIZE_LIMIT,
            cluster@.len() == m.nrow,
            j < m.ncol,
            c < k,
            rows@.len() == k,
            rows@[c as int]@ == positions(cluster@, c),
        ensures
            x == cluster_mean(fpu, grid_of(m), cluster@, c, j as int),
        { mean_of_members(fpu, m, &rows[c], j, Ghost(cluster@), Ghost(c)) };
    table_of(m.ncol, k, &h, Ghost(f))
}

fn initial<F: Fn(FloatOp, Real, Real, Real) -> Real>(fpu: &Fpu<F>, m: &Matrix, k: usize) -> (r: Vec<Real>)
    requires
        m.deep().wf(),
        0 < k <= m.nrow,
        m.ncol * k <= usize::MAX,
    ensures
        r@ == first_centres(m.deep(), k as nat),
        r@.len() == m.ncol * k,
{
    let nrow: usize = m.nrow;
    let n: usize = m.ncol;
    let md: &Vec<Real> = &m.data;
    let len: usize = md.len();
    let ghost g = m.deep();
    let ghost f = |j: int, c: int| g.at(c * g.nrow / (k as int), j);
    let h = |j: usize, c: usize| -> (x: Real)
        requires
            j < n,
            c < k,
            0 < k <= nrow,
            md@.len() == nrow * n,
            len == md@.len(),
        ensures
            x == md@[j * nrow + c * nrow / (k as int)],
        {
            proof {
                assert(0 <= c * nrow) by (nonlinear_arith);
                assert(c * nrow < k * nrow) by (nonlinear_arith)
                    requires
                        c < k,
                        nrow > 0,
                ;
                assert(c as u128 * nrow as u128 <= 0xffff_ffff_ffff_ffff_ffff_ffff_ffff_ffff) by (nonlinear_arith)
                    requires
                        c <= 0xffff_ffff_ffff_ffff,
                        nrow <= 0xffff_ffff_ffff_ffff,
                ;
                let q = (c * nrow) / (k as int);
                assert(0 <= q < nrow) by (nonlinear_arith)
                    requires
                        q == (c * nrow) / (k as int),
                        0 <= c * nrow < k * nrow,
                        k > 0,
                ;
                lemma_cell(q, j as int, nrow as int, n as int);
            }
            let row: usize = ((c as u128 * nrow as u128) / k as u128) as usize;
            md[j * nrow + row]
        };
    table_of(n, k, &h, Ghost(f))
}

/// The squared distances of a cluster's rows from its centroid, row by row.
pub open spec fn spread_terms<F: Fn(FloatOp, Real, Real, Real) -> Real>(
    fpu: &Fpu<F>,
    g: Grid,
    centres: Seq<Real>,
    rows: Seq<usize>,
    c: int,
) -> Seq<Real> {
    Seq::new(
        g.ncol * rows.len(),
        |t: int|
            fpu.square_diff(
                g.at(rows[t / (g.ncol as int)] as int, t % (g.ncol as int)),
                centre(centres, g.ncol as int, c, t % (g.ncol as int)),
            ),
    )
}

/// The within-cluster sums of squares.
pub open spec fn within_sums<F: Fn(FloatOp, Real, Real, Real) -> Real>(
    fpu: &Fpu<F>,
    g: Grid,
    centres: Seq<Real>,
    cluster: Seq<usize>,
    k: nat,
) -> Seq<Real> {
    Seq::new(
        k,
        |c: int| total(fpu, spread_terms(fpu, g, centres, positions(cluster, c as usize), c)),
    )
}

/// The mean of column `j`.
pub open spec fn grid_mean<F: Fn(FloatOp, Real, Real, Real) -> Real>(fpu: &Fpu<F>, g: Grid, j: int) -> Real {
    crate::grid::mean(fpu, Seq::new(g.nrow, |i: int| g.at(i, j)))
}

/// The total sum of squares, row by row.
pub open spec fn total_spread<F: Fn(FloatOp, Real, Real, Real) -> Real>(fpu: &Fpu<F>, g: Grid) -> Real {
    total(
        fpu,
        Seq::new(
            g.ncol * g.nrow,
            |t: int|
                fpu.square_diff(
                    g.at(t / (g.ncol as int), t % (g.ncol as int)),
                    grid_mean(fpu, g, t % (g.ncol as int)),
                ),
        ),
    )
}

/// What the clustering reports.
pub open spec fn kmeans_report<F: Fn(FloatOp, Real, Real, Real) -> Real>(
    fpu: &Fpu<F>,
    g: Grid,
    cluster: Seq<usize>,
    centres: Seq<Real>,
    k: nat,
) -> Val {
    let within = within_sums(fpu, g, centres, cluster, k);
    let tot = total_spread(fpu, g);
    Val::Instance(
        "kmeans"@,
        seq![
            (
                "cluster"@,
                Val::Integer(Seq::new(cluster.len(), |i: int| Some((cluster[i] + 1) as i32)), None),
            ),
            (
                "centers"@,
                Val::Matrix(
                    Grid {
                        data: table(k, g.ncol, |c: int, j: int| centre(centres, g.ncol as int, c, j)),
                        nrow: k,
                        ncol: g.ncol,
                        col_names: Some(matrix_names(g)),
                    },
                ),
            ),
            ("withinss"@, nums_val(within)),
            ("tot.withinss"@, num_val(total(fpu, within))),
            ("betweenss"@, num_val(fpu.minus(tot, total(fpu, within)))),
            ("totss"@, num_val(tot)),
            (
                "size"@,
                Val::Integer(
                    Seq::new(k, |c: int| Some(positions(cluster, c as usize).len() as i32)),
                    None,
                ),
            ),
        ],
    )
}

fn spread_of<F: Fn(FloatOp, Real, Real, Real) -> Real>(
    fpu: &Fpu<F>,
    m: &Matrix,
    centres: &Vec<Real>,
    rows: &Vec<usize>,
    k: usize,
    c: usize,
    Ghost(cluster): Ghost<Seq<usize>>,
) -> (r: Real)
    requires
        fpu.wf(),
        m.deep().wf(),
        centres@.len() == m.ncol * k,
        c < k,
        cluster.len() == m.nrow,
        rows@ == positions(cluster, c),
    ensures
        r == total(fpu, spread_terms(fpu, m.deep(), centres@, rows@, c as int)),
{
    let nrow: usize = m.nrow;
    let n: usize = m.ncol;
    let md: &Vec<Real> = &m.data;
    let len: usize = md.len();
    let clen: usize = centres.len();
    let ghost g = m.deep();
    let count: usize = rows.len();
    proof {
        lemma_positions(cluster, c);
        assert(n * count <= nrow * n) by (nonlinear_arith)
            requires
                count <= nrow,
        ;
    }
    let f = |t: usize| -> (x: Real)
        requires
            fpu.wf(),
            t < n * count,
            count == rows@.len(),
            forall|u: int| 0 <= u < rows@.len() ==> (#[trigger] rows@[u]) < nrow,
            c < k,
            md@.len() == nrow * n,
            len == md@.len(),
            centres@.len() == n * k,
            clen == centres@.len(),
        ensures
            x == fpu.square_diff(
                md@[(t as int % (n as int)) * nrow + rows@[t as int / (n as int)]],
                centre(centres@, n as int, c as int, t as int % (n as int)),
            ),
        {
            proof {
                lemma_split(n as int, count as int, t as int);
                lemma_cell(
                    rows@[t as int / (n as int)] as int,
                    t as int % (n as int),
                    nrow as int,
                    n as int,
                );
                lemma_cell(t as int % (n as int), c as int, n as int, k as int);
            }
            let i: usize = rows[t / n];
            let j: usize = t % n;
            let d: Real = fpu.diff(md[j * nrow + i], centres[c * n + j]);
            fpu.prod(d, d)
        };
    sum_of(fpu, n * count, &f, Ghost(spread_terms(fpu, g, centres@, rows@, c as int)))
}

pub(crate) fn column_means<F: Fn(FloatOp, Real, Real, Real) -> Real>(fpu: &Fpu<F>, m: &Matrix) -> (r: Vec<Real>)
    requires
        fpu.wf(),
        m.deep().wf(),
        m.nrow < SIZE_LIMIT,
    ensures
        r@ == Seq::new(m.ncol as nat, |j: int| grid_mean(fpu, m.deep(), j)),
{
    let nrow: usize = m.nrow;
    let n: usize = m.ncol;
    let md: &Vec<Real> = &m.data;
    let len: usize = md.len();
    let ghost g = m.deep();
    let ghost want = Seq::new(n as nat, |j: int| grid_mean(fpu, g, j));
    let mut out: Vec<Real> = Vec::new();
    let mut j: usize = 0;
    while j < n
        invariant
            fpu.wf(),
            g == m.deep(),
            md@ == g.data,
            nrow == g.nrow,
            n == g.ncol,
            nrow < SIZE_LIMIT,
            md@.len() == nrow * n,
            len == md@.len(),
            j <= n,
            want == Seq::new(n as nat, |j: int| grid_mean(fpu, g, j)),
            out@ == want.take(j as int),
        decreases n - j,
    {
        let f = |i: usize| -> (x: Real)
            requires
                i < nrow,
                j < n,
                md@.len() == nrow * n,
                len == md@.len(),
            ensures
                x == md@[j * nrow + i],
            {
                proof {
                    lemma_cell(i as int, j as int, nrow as int, n as int);
                }
                md[j * nrow + i]
            };
        let s: Real = sum_of(fpu, nrow, &f, Ghost(Seq::new(g.nrow, |i: int| g.at(i, j as int))));
        let v: Real = fpu.quot(s, Real::from_count(nrow as u64));
        assert(v == want[j as int]);
        out.push(v);
        assert(out@ =~= want.take(j + 1));
        j += 1;
    }
    assert(out@ =~= want);
    out
}

fn total_of<F: Fn(FloatOp, Real, Real, Real) -> Real>(fpu: &Fpu<F>, m: &Matrix) -> (r: Real)
    requires
        fpu.wf(),
        m.deep().wf(),
        m.nrow < SIZE_LIMIT,
    ensures
        r == total_spread(fpu, m.deep()),
{
    let means: Vec<Real> = column_means(fpu, m);
    let nrow: usize = m.nrow;
    let n: usize = m.ncol;
    let md: &Vec<Real> = &m.data;
    let len: usize = md.len();
    let ghost g = m.deep();
    proof {
        assert(n * nrow == nrow * n) by (nonlinear_arith);
    }
    let f = |t: usize| -> (x: Real)
        requires
            fpu.wf(),
            t < n * nrow,
            md@.len() == nrow * n,
            len == md@.len(),
            means@.len() == n,
        ensures
            x == fpu.square_diff(
                md@[(t as int % (n as int)) * nrow + t as int / (n as int)],
                means@[t as int % (n as int)],
            ),
        {
            proof {
                lemma_split(n as int, nrow as int, t as int);
                lemma_cell(t as int / (n as int), t as int % (n as int), nrow as int, n as int);
            }
            let i: usize = t / n;
            let j: usize = t % n;
            let d: Real = fpu.diff(md[j * nrow + i], means[j]);
            fpu.prod(d, d)
        };
    let ghost s = Seq::new(
        g.ncol * g.nrow,
        |t: int|
            fpu.square_diff(
                g.at(t / (g.ncol as int), t % (g.ncol as int)),
                grid_mean(fpu, g, t % (g.ncol as int)),
            ),
    );
    proof {
        assert forall|t: usize, x: Real| t < s.len() && #[trigger] call_ensures(f, (t,), x) implies x == s[t as int] by {
            lemma_split(n as int, nrow as int, t as int);
        }
    }
    sum_of(fpu, n * nrow, &f, Ghost(s))
}

fn same_clusters(a: &Vec<usize>, b: &Vec<usize>) -> (r: bool)
    ensures
        r == (a@ == b@),
{
    if a.len() != b.len() {
        return false;
    }
    let mut i: usize = 0;
    while i < a.len()
        invariant
            a@.len() == b@.len(),
            i <= a.len(),
            forall|k: int| 0 <= k < i ==> a@[k] == b@[k],
        decreases a.len() - i,
    {
        if a[i] != b[i] {
            return false;
        }
        i += 1;
    }
    assert(a@ =~= b@);
    true
}

/// The centroids as a matrix with a row for each cluster.
fn by_columns(centres: &Vec<Real>, k: usize, n: usize) -> (r: Vec<Real>)
    requires
        centres@.len() == n * k,
    ensures
        r@ == table(k as nat, n as nat, |c: int, j: int| centre(centres@, n as int, c, j)),
{
    let ghost f = |c: int, j: int| centre(centres@, n as int, c, j);
    let len: usize = centres.len();
    let h = |c: usize, j: usize| -> (x: Real)
        requires
            c < k,
            j < n,
            centres@.len() == n * k,
            len == centres@.len(),
        ensures
            x == centre(centres@, n as int, c as int, j as int),
        {
            proof {
                lemma_cell(j as int, c as int, n as int, k as int);
            }
            centres[c * n + j]
        };
    assert(k * n == n * k) by (nonlinear_arith);
    table_of(k, n, &h, Ghost(f))
}

fn kmeans_instance<F: Fn(FloatOp, Real, Real, Real) -> Real>(
    fpu: &Fpu<F>,
    m: &Matrix,
    cluster: &Vec<usize>,
    rows: &Vec<Vec<usize>>,
    centres: &Vec<Real>,
    k: usize,
) -> (r: RVal)
    requires
        fpu.wf(),
        m.deep().wf(),
        m.nrow < SIZE_LIMIT,
        m.ncol < SIZE_LIMIT,
        cluster@.len() == m.nrow,
        centres@.len() == m.ncol * k,
        k <= m.nrow,
        forall|i: int| 0 <= i < cluster@.len() ==> (#[trigger] cluster@[i]) < k,
        rows@.len() == k,
        forall|c: int| 0 <= c < k ==> (#[trigger] rows@[c])@ == positions(cluster@, c as usize),
    ensures
        r.deep() == kmeans_report(fpu, m.deep(), cluster@, centres@, k as nat),
{
    let ghost g = m.deep();
    let ghost want = within_sums(fpu, g, centres@, cluster@, k as nat);
    let mut within: Vec<Real> = Vec::new();
    let mut sizes: Vec<Option<i32>> = Vec::new();
    let mut c: usize = 0;
    while c < k
        invariant
            fpu.wf(),
            m.deep().wf(),
            g == m.deep(),
            centres@.len() == m.ncol * k,
            cluster@.len() == m.nrow,
            c <= k,
            rows@.len() == k,
            forall|c: int| 0 <= c < k ==> (#[trigger] rows@[c])@ == positions(cluster@, c as usize),
            want == within_sums(fpu, g, centres@, cluster@, k as nat),
            within@ == want.take(c as int),
            sizes@.len() == c,
            forall|d: int|
                0 <= d < c ==> #[trigger] sizes@[d] == Some(positions(cluster@, d as usize).len() as i32),
        decreases k - c,
    {
        let v: Real = spread_of(fpu, m, centres, &rows[c], k, c, Ghost(cluster@));
        assert(v == want[c as int]);
        within.push(v);
        assert(within@ =~= want.take(c + 1));
        sizes.push(Some(rows[c].len() as i32));
        c += 1;
    }
    assert(within@ =~= want);
    let tot: Real = total_of(fpu, m);
    let tw: Real = sum_reals(fpu, within.as_slice());
    let mut codes: Vec<Option<i32>> = Vec::new();
    let mut i: usize = 0;
    while i < cluster.len()
        invariant
            i <= cluster.len(),
            k <= m.nrow,
            m.nrow < SIZE_LIMIT,
            forall|i: int| 0 <= i < cluster@.len() ==> (#[trigger] cluster@[i]) < k,
            codes@.len() == i,
            forall|t: int| 0 <= t < i ==> #[trigger] codes@[t] == Some((cluster@[t] + 1) as i32),
        decreases cluster.len() - i,
    {
        codes.push(Some((cluster[i] + 1) as i32));
        i += 1;
    }
    let names: Vec<String> = column_names(m);
    let centers = Matrix { data: by_columns(centres, k, m.ncol), nrow: k, ncol: m.ncol, col_names: Some(names) };
    let mut fields: Vec<(String, RVal)> = Vec::new();
    put(&mut fields, "cluster", RVal::Integer(codes, no_attrs()));
    put(&mut fields, "centers", RVal::Matrix(centers));
    put(&mut fields, "withinss", rnums(&within));
    put(&mut fields, "tot.withinss", rnum(tw));
    put(&mut fields, "betweenss", rnum(fpu.diff(tot, tw)));
    put(&mut fields, "totss", rnum(tot));
    put(&mut fields, "size", RVal::Integer(sizes, no_attrs()));
    let r = instance("kmeans", fields);
    proof {
        let w = kmeans_report(fpu, g, cluster@, centres@, k as nat);
        assert(codes@ =~= Seq::new(cluster@.len(), |i: int| Some((cluster@[i] + 1) as i32)));
        assert(sizes@ =~= Seq::new(k as nat, |c: int| Some(positions(cluster@, c as usize).len() as i32)));
        assert(r.deep()->Instance_1 =~= w->Instance_1);
    }
    r
}

/// The number of clusters that a call asks for: by name, or as its second
/// argument, or two.
pub open spec fn centers_wanted(a: Seq<EvalArg>) -> usize {
    let v = match named(a, "centers"@) {
        Some(v) => v,
        None => nth(a, 1),
    };
    match scalar(v) {
        Some(x) => x.as_count(),
        None => 2,
    }
}

fn centers_of(a: &[EvalArg]) -> (r: usize)
    ensures
        r == centers_wanted(a@),
{
    let x: Option<Real> = match arg_named(a, "centers") {
        Some(v) => v.scalar_f64(),
        None => nth_arg(a, 1).scalar_f64(),
    };
    match x {
        Some(x) => x.to_usize(),
        None => 2,
    }
}

/// Clusters the rows of the first argument. Each round assigns every row to its
/// nearest centroid and recomputes the centroids, until nothing changes or the
/// rounds are used up.
pub fn bi_kmeans<F: Fn(FloatOp, Real, Real, Real) -> Real + Sync>(fpu: &Fpu<F>, a: &[EvalArg], on: Backend) -> (r: Result<
    RVal,
    R2Err,
>)
    requires
        fpu.wf(),
        sound_args(a@),
        frame_small(nth(a@, 0)),
        numeric_grid(nth(a@, 0)) matches Some(g) ==> 0 < centers_wanted(a@) <= g.nrow ==> count_named(
            a@,
            "iter.max"@,
            100,
        ) > 0,
    ensures
        match numeric_grid(nth(a@, 0)) {
            None => failed(r, (ErrKind::Runtime, "kmeans() needs a matrix or data.frame"@)),
            Some(g) => {
                let k = centers_wanted(a@);
                if k == 0 || k > g.nrow {
                    failed(r, (ErrKind::Runtime, "kmeans: k must be between 1 and nrow"@))
                } else {
                    let s = rounds(fpu, g, k as nat, count_named(a@, "iter.max"@, 100) as nat);
                    &&& s.cluster is Some
                    &&& r is Ok
                    &&& r->Ok_0.deep() == kmeans_report(fpu, g, s.cluster->0, s.centres, k as nat)
                }
            },
        },
{
    proof {
        if a@.len() > 0 {
            assert(sound(a@[0].value.deep()));
        }
    }
    let m: Matrix = match read_grid(&nth_arg(a, 0), "kmeans() needs a matrix or data.frame") {
        Ok(m) => m,
        Err(e) => {
            return Err(e);
        },
    };
    let ghost g = m.deep();
    let k: usize = centers_of(a);
    let max_iter: usize = arg_count(a, "iter.max", 100);
    if k == 0 || k > m.nrow {
        return Err(fail(ErrKind::Runtime, "kmeans: k must be between 1 and nrow"));
    }
    let len: usize = m.data.len();
    proof {
        assert(m.ncol * k <= m.nrow * m.ncol) by (nonlinear_arith)
            requires
                k <= m.nrow,
        ;
    }
    let mut centres: Vec<Real> = initial(fpu, &m, k);
    let mut cluster: Vec<usize> = Vec::new();
    let mut rows: Vec<Vec<usize>> = Vec::new();
    let mut t: usize = 0;
    let mut settled: bool = false;
    while t < max_iter && !settled
        invariant
            fpu.wf(),
            m.deep().wf(),
            g == m.deep(),
            m.nrow < SIZE_LIMIT,
            0 < k <= m.nrow,
            m.ncol * k <= usize::MAX,
            t <= max_iter,
            centres@.len() == m.ncol * k,
            ({
                let s = rounds(fpu, g, k as nat, t as nat);
                &&& centres@ == s.centres
                &&& settled == s.settled
                &&& t == 0 ==> s.cluster is None && cluster@.len() == 0
                &&& t > 0 ==> s.cluster == Some(cluster@)
            }),
            t > 0 ==> cluster@.len() == m.nrow,
            t > 0 ==> forall|i: int| 0 <= i < cluster@.len() ==> (#[trigger] cluster@[i]) < k,
            t > 0 ==> rows@.len() == k,
            t > 0 ==> forall|c: int| 0 <= c < k ==> (#[trigger] rows@[c])@ == positions(cluster@, c as usize),
        decreases max_iter - t,
    {
        let ghost s = rounds(fpu, g, k as nat, t as nat);
        let next: Vec<usize> = assign(fpu, &m, &centres, k, on);
        settled = t > 0 && same_clusters(&cluster, &next);
        rows = all_members(&next, k);
        centres = recentre(fpu, &m, &next, &rows, k);
        cluster = next;
        t += 1;
    }
    proof {
        if settled {
            lemma_settled(fpu, g, k as nat, t as nat, max_iter as nat);
        }
    }
    Ok(kmeans_instance(fpu, &m, &cluster, &rows, &centres, k))
}

proof fn lemma_settled<F: Fn(FloatOp, Real, Real, Real) -> Real>(fpu: &Fpu<F>, g: Grid, k: nat, t: nat, u: nat)
    requires
        t <= u,
        rounds(fpu, g, k, t).settled,
    ensures
        rounds(fpu, g, k, u) == rounds(fpu, g, k, t),
    decreases u - t,
{
    if t < u {
        lemma_settled(fpu, g, k, t, (u - 1) as nat);
    }
}

/// After one round or more each row has one of the labels, and row `c`,
/// column `j` of the reported centres is the mean of column `j` over the rows
/// labelled `c`.
pub proof fn law_centres_are_means<F: Fn(FloatOp, Real, Real, Real) -> Real>(
    fpu: &Fpu<F>,
    g: Grid,
    k: nat,
    t: nat,
    c: int,
    j: int,
)
    requires
        0 < t,
        k <= usize::MAX,
        0 <= c < k,
        0 <= j < g.ncol,
    ensures
        ({
            let s = rounds(fpu, g, k, t);
            let report = kmeans_report(fpu, g, s.cluster->0, s.centres, k);
            &&& s.cluster is Some
            &&& s.cluster->0.len() == g.nrow
            &&& forall|i: int| 0 <= i < g.nrow ==> (#[trigger] s.cluster->0[i]) < k
            &&& report->Instance_1[1].1 is Matrix
            &&& report->Instance_1[1].1->Matrix_0.at(c, j) == cluster_mean(fpu, g, s.cluster->0, c as usize, j)
        }),
    decreases t,
{
    let before = rounds(fpu, g, k, (t - 1) as nat);
    let s = rounds(fpu, g, k, t);
    if before.settled {
        assert(t > 1);
        law_centres_are_means(fpu, g, k, (t - 1) as nat, c, j);
    } else {
        let cl = assigned(fpu, g, before.centres, k);
        assert forall|i: int| 0 <= i < g.nrow implies (#[trigger] cl[i]) < k by {
            lemma_nearest_label(fpu, g, before.centres, i, k);
        }
        let f = |j: int, c: int| cluster_mean(fpu, g, cl, c as usize, j);
        lemma_entry(g.ncol, k, f, j, c);
        lemma_entry(k, g.ncol, |c: int, j: int| centre(s.centres, g.ncol as int, c, j), c, j);
    }
}

proof fn lemma_nearest_label<F: Fn(FloatOp, Real, Real, Real) -> Real>(
    fpu: &Fpu<F>,
    g: Grid,
    centres: Seq<Real>,
    i: int,
    k: nat,
)
    ensures
        0 <= nearest(fpu, g, centres, i, k).0,
        k > 0 ==> nearest(fpu, g, centres, i, k).0 < k,
        k == 0 ==> nearest(fpu, g, centres, i, k).0 == 0,
    decreases k,
{
    if k > 0 {
        lemma_nearest_label(fpu, g, centres, i, (k - 1) as nat);
    }
}

/// The sizes of clusters add up to the number of rows.
pub proof fn law_sizes_add_up(cluster: Seq<usize>, k: nat)
    requires
        k <= usize::MAX,
        forall|i: int| 0 <= i < cluster.len() ==> (#[trigger] cluster[i]) < k,
    ensures
        size_sum(cluster, k) == cluster.len(),
    decreases cluster.len(),
{
    if cluster.len() == 0 {
        lemma_no_sizes(cluster, k);
    } else {
        law_sizes_add_up(cluster.drop_last(), k);
        lemma_size_step(cluster, k);
    }
}

/// The sizes of the first `k` clusters added up.
pub open spec fn size_sum(cluster: Seq<usize>, k: nat) -> nat
    decreases k,
{
    if k == 0 {
        0
    } else {
        size_sum(cluster, (k - 1) as nat) + positions(cluster, (k - 1) as usize).len()
    }
}

proof fn lemma_no_sizes(cluster: Seq<usize>, k: nat)
    requires
        cluster.len() == 0,
    ensures
        size_sum(cluster, k) == 0,
    decreases k,
{
    if k > 0 {
        lemma_no_sizes(cluster, (k - 1) as nat);
    }
}

proof fn lemma_size_step(cluster: Seq<usize>, k: nat)
    requires
        cluster.len() > 0,
        k <= usize::MAX,
    ensures
        size_sum(cluster, k) == size_sum(cluster.drop_last(), k) + if cluster.last() < k {
            1nat
        } else {
            0nat
        },
    decreases k,
{
    if k > 0 {
        lemma_size_step(cluster, (k - 1) as nat);
    }
}

} // verus!
