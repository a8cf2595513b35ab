//! Classification by nearest neighbours and by Gaussian naive Bayes.
use crate::double::{FloatOp, Fpu, Real, long_real, nat_real, num};
use crate::grid::{sum_of, table, table_of, total};
use crate::grouping::{lemma_positions, positions};
use crate::ml_forest::{majority, wins};
use crate::ml_kmeans::{all_members, cluster_mean, grid_of, recentre, recentred};
use crate::ordering::{order_numbers, orders};
use crate::sort::permutes;
use crate::stats_matrix::{SIZE_LIMIT, failed, sound, sound_args};
use crate::value::{
    ErrKind, EvalArg, Grid, Matrix, R2Err, RVal, Val, arg_count, count_named, fail, instance, keep_present,
    lemma_cell, nth, nth_arg, nums_val, present, put, reals, rnums,
};
use vstd::prelude::*;

verus! {

// ── Nearest neighbours ─────────────────────────────────────────────────────

/// The squared distance between row `i` of one matrix and row `j` of another,
/// over the columns of the latter.
pub open spec fn row_gap<F: Fn(FloatOp, Real, Real, Real) -> Real>(
    fpu: &Fpu<F>,
    test: Grid,
    train: Grid,
    i: int,
    j: int,
) -> Real {
    total(fpu, Seq::new(train.ncol, |c: int| fpu.square_diff(test.at(i, c), train.at(j, c))))
}

/// The squared distances from row `i` to all training rows.
pub open spec fn row_gaps<F: Fn(FloatOp, Real, Real, Real) -> Real>(fpu: &Fpu<F>, test: Grid, train: Grid, i: int) -> Seq<
    Real,
> {
    Seq::new(train.nrow, |j: int| row_gap(fpu, test, train, i, j))
}

/// The labels of the first `k` rows in an order, or of all where there are
/// fewer.
pub open spec fn nearest_labels(labels: Seq<Real>, p: Seq<usize>, k: nat) -> Seq<i64> {
    Seq::new(
        if k < p.len() {
            k
        } else {
            p.len()
        },
        |t: int| labels[p[t] as int].as_long(),
    )
}

/// `r` is the label that wins among the `k` nearest training rows; where a
/// distance is a NaN, among `k` of the rows.
pub open spec fn neighbours_say<F: Fn(FloatOp, Real, Real, Real) -> Real>(
    fpu: &Fpu<F>,
    test: Grid,
    train: Grid,
    labels: Seq<Real>,
    k: nat,
    i: int,
    r: Real,
) -> bool {
    exists|p: Seq<usize>, x: i64| #[trigger]
        orders(row_gaps(fpu, test, train, i), false, p) && #[trigger] wins(nearest_labels(labels, p, k), x) && r == long_real(x)
}

/// Why a call cannot be classified by neighbours.
pub open spec fn knn_fault(a: Seq<EvalArg>) -> Option<(ErrKind, Seq<char>)> {
    if nth(a, 0) !is Matrix {
        Some((ErrKind::Runtime, "knn: train must be matrix"@))
    } else if nth(a, 1) !is Matrix {
        Some((ErrKind::Runtime, "knn: test must be matrix"@))
    } else {
        match reals(nth(a, 2)) {
            None => Some((ErrKind::Type, "cannot coerce to numeric"@)),
            Some(s) => if present(s).len() != nth(a, 0)->Matrix_0.nrow {
                Some((ErrKind::Runtime, "knn: labels length must match train rows"@))
            } else {
                None
            },
        }
    }
}

fn gap_between<F: Fn(FloatOp, Real, Real, Real) -> Real>(fpu: &Fpu<F>, test: &Matrix, train: &Matrix, i: usize, j: usize) -> (r:
    Real)
    requires
        fpu.wf(),
        test.deep().wf(),
        train.deep().wf(),
        i < test.nrow,
        j < train.nrow,
        train.ncol <= test.ncol,
    ensures
        r == row_gap(fpu, test.deep(), train.deep(), i as int, j as int),
{
    let td: &Vec<Real> = &test.data;
    let rd: &Vec<Real> = &train.data;
    let tn: usize = test.nrow;
    let rn: usize = train.nrow;
    let tc: usize = test.ncol;
    let p: usize = train.ncol;
    let tl: usize = td.len();
    let rl: usize = rd.len();
    let f = |c: usize| -> (x: Real)
        requires
            fpu.wf(),
            c < p,
            p <= tc,
            i < tn,
            j < rn,
            td@.len() == tn * tc,
            rd@.len() == rn * p,
            tl == td@.len(),
            rl == rd@.len(),
        ensures
            x == fpu.square_diff(td@[c * tn + i], rd@[c * rn + j]),
        {
            proof {
                lemma_cell(i as int, c as int, tn as int, tc as int);
                lemma_cell(j as int, c as int, rn as int, p as int);
            }
            let d: Real = fpu.diff(td[c * tn + i], rd[c * rn + j]);
            fpu.prod(d, d)
        };
    sum_of(
        fpu,
        p,
        &f,
        Ghost(Seq::new(train.ncol as nat, |c: int| fpu.square_diff(test.deep().at(i as int, c), train.deep().at(j as int, c)))),
    )
}

fn classify_row<F: Fn(FloatOp, Real, Real, Real) -> Real>(
    fpu: &Fpu<F>,
    test: &Matrix,
    train: &Matrix,
    labels: &Vec<Real>,
    k: usize,
    i: usize,
) -> (r: Real)
    requires
        fpu.wf(),
        test.deep().wf(),
        train.deep().wf(),
        i < test.nrow,
        train.nrow > 0 ==> train.ncol <= test.ncol,
        labels@.len() == train.nrow,
    ensures
        neighbours_say(fpu, test.deep(), train.deep(), labels@, k as nat, i as int, r),
{
    let ghost want = row_gaps(fpu, test.deep(), train.deep(), i as int);
    let mut gaps: Vec<Real> = Vec::new();
    let mut j: usize = 0;
    while j < train.nrow
        invariant
            fpu.wf(),
            test.deep().wf(),
            train.deep().wf(),
            i < test.nrow,
            train.nrow > 0 ==> train.ncol <= test.ncol,
            j <= train.nrow,
            want == row_gaps(fpu, test.deep(), train.deep(), i as int),
            gaps@ == want.take(j as int),
        decreases train.nrow - j,
    {
        let d: Real = gap_between(fpu, test, train, i, j);
        gaps.push(d);
        assert(gaps@ =~= want.take(j + 1));
        j += 1;
    }
    assert(gaps@ =~= want);
    let order: Vec<usize> = order_numbers(&gaps, false);
    let n: usize = if k < order.len() { k } else { order.len() };
    let ghost all = nearest_labels(labels@, order@, k as nat);
    let mut close: Vec<i64> = Vec::new();
    let mut t: usize = 0;
    while t < n
        invariant
            n <= order@.len(),
            permutes(order@, labels@.len() as int),
            all == nearest_labels(labels@, order@, k as nat),
            n == all.len(),
            t <= n,
            close@ == all.take(t as int),
        decreases n - t,
    {
        assert(order@.contains(order@[t as int]));
        close.push(labels[order[t]].to_i64());
        assert(close@ =~= all.take(t + 1));
        t += 1;
    }
    assert(close@ =~= all);
    let best: i64 = majority(&close);
    Real::from_i64(best)
}

/// Each test row gets the label that wins among the nearest training rows.
pub fn bi_knn<F: Fn(FloatOp, Real, Real, Real) -> Real>(fpu: &Fpu<F>, a: &[EvalArg]) -> (r: Result<RVal, R2Err>)
    requires
        fpu.wf(),
        sound_args(a@),
        knn_fault(a@) is None && nth(a@, 0)->Matrix_0.nrow > 0 && nth(a@, 1)->Matrix_0.nrow > 0 ==> nth(
            a@,
            0,
        )->Matrix_0.ncol <= nth(a@, 1)->Matrix_0.ncol,
    ensures
        match knn_fault(a@) {
            Some(e) => failed(r, e),
            None => {
                let train = nth(a@, 0)->Matrix_0;
                let test = nth(a@, 1)->Matrix_0;
                let labels = present(reals(nth(a@, 2))->0);
                exists|preds: Seq<Real>|
                    preds.len() == test.nrow && (forall|i: int|
                        0 <= i < test.nrow ==> neighbours_say(
                            fpu,
                            test,
                            train,
                            labels,
                            count_named(a@, "k"@, 3) as nat,
                            i,
                            #[trigger] preds[i],
                        )) && r is Ok && r->Ok_0.deep() == #[trigger] nums_val(preds)
            },
        },
{
    let first: RVal = nth_arg(a, 0);
    let second: RVal = nth_arg(a, 1);
    proof {
        reveal_with_fuel(RVal::deep, 2);
        if a@.len() > 0 {
            assert(sound(a@[0].value.deep()));
        }
        if a@.len() > 1 {
            assert(sound(a@[1].value.deep()));
        }
    }
    let train: &Matrix = match &first {
        RVal::Matrix(m) => m,
        _ => {
            return Err(fail(ErrKind::Runtime, "knn: train must be matrix"));
        },
    };
    let test: &Matrix = match &second {
        RVal::Matrix(m) => m,
        _ => {
            return Err(fail(ErrKind::Runtime, "knn: test must be matrix"));
        },
    };
    let labels: Vec<Real> = match nth_arg(a, 2).as_reals() {
        Ok(s) => keep_present(s.as_slice()),
        Err(e) => {
            return Err(e);
        },
    };
    let k: usize = arg_count(a, "k", 3);
    if labels.len() != train.nrow {
        return Err(fail(ErrKind::Runtime, "knn: labels length must match train rows"));
    }
    let mut preds: Vec<Real> = Vec::new();
    let mut i: usize = 0;
    while i < test.nrow
        invariant
            fpu.wf(),
            test.deep().wf(),
            train.deep().wf(),
            test.nrow > 0 && train.nrow > 0 ==> train.ncol <= test.ncol,
            labels@.len() == train.nrow,
            i <= test.nrow,
            preds@.len() == i,
            forall|j: int|
                0 <= j < i ==> neighbours_say(
                    fpu,
                    test.deep(),
                    train.deep(),
                    labels@,
                    k as nat,
                    j,
                    #[trigger] preds@[j],
                ),
        decreases test.nrow - i,
    {
        let p: Real = classify_row(fpu, test, train, &labels, k, i);
        preds.push(p);
        i += 1;
    }
    Ok(rnums(&preds))
}

// ── Naive Bayes ────────────────────────────────────────────────────────────

/// 1e-10
pub const SAME_CLASS_BITS: u64 = 0x3ddb_7cdf_d9d7_bdbb;

/// Neighbours of equal value kept once.
pub open spec fn deduped(s: Seq<Real>) -> Seq<Real>
    decreases s.len(),
{
    if s.len() == 0 {
        Seq::empty()
    } else {
        let d = deduped(s.drop_last());
        if d.len() > 0 && s.last().same(d.last()) {
            d
        } else {
            d.push(s.last())
        }
    }
}

/// The first class from `c` on within a small distance of a label, else the
/// first class of all.
pub open spec fn class_from<F: Fn(FloatOp, Real, Real, Real) -> Real>(
    fpu: &Fpu<F>,
    classes: Seq<Real>,
    x: Real,
    c: int,
) -> int
    decreases classes.len() - c,
{
    if c < 0 || c >= classes.len() {
        0
    } else if fpu.minus(classes[c], x).absolute().below(num(SAME_CLASS_BITS)) {
        c
    } else {
        class_from(fpu, classes, x, c + 1)
    }
}

/// The class of each row.
pub open spec fn row_classes<F: Fn(FloatOp, Real, Real, Real) -> Real>(
    fpu: &Fpu<F>,
    classes: Seq<Real>,
    labels: Seq<Real>,
) -> Seq<usize> {
    Seq::new(labels.len(), |i: int| class_from(fpu, classes, labels[i], 0) as usize)
}

/// The variance of a class in column `j`.
pub open spec fn class_variance<F: Fn(FloatOp, Real, Real, Real) -> Real>(
    fpu: &Fpu<F>,
    g: Grid,
    ids: Seq<usize>,
    c: usize,
    j: int,
) -> Real {
    let rows = positions(ids, c);
    let mean = cluster_mean(fpu, g, ids, c, j);
    fpu.over(
        total(fpu, Seq::new(rows.len(), |t: int| fpu.square_diff(g.at(rows[t] as int, j), mean))),
        nat_real(if rows.len() > 2 {
            (rows.len() - 1) as nat
        } else {
            1
        }),
    )
}

/// The report of naive Bayes.
pub open spec fn bayes_report<F: Fn(FloatOp, Real, Real, Real) -> Real>(
    fpu: &Fpu<F>,
    g: Grid,
    labels: Seq<Real>,
    classes: Seq<Real>,
) -> Val {
    let ids = row_classes(fpu, classes, labels);
    let k = classes.len();
    Val::Instance(
        "naive.bayes"@,
        seq![
            ("classes"@, nums_val(classes)),
            (
                "priors"@,
                nums_val(
                    Seq::new(k, |c: int| fpu.over(nat_real(positions(ids, c as usize).len()), nat_real(g.nrow))),
                ),
            ),
            ("means"@, Val::Matrix(Grid { data: recentred(fpu, g, ids, k), nrow: k, ncol: g.ncol, col_names: None })),
            (
                "vars"@,
                Val::Matrix(
                    Grid {
                        data: table(g.ncol, k, |j: int, c: int| class_variance(fpu, g, ids, c as usize, j)),
                        nrow: k,
                        ncol: g.ncol,
                        col_names: None,
                    },
                ),
            ),
        ],
    )
}

/// Why a call cannot be fitted.
pub open spec fn bayes_fault(a: Seq<EvalArg>) -> Option<(ErrKind, Seq<char>)> {
    if nth(a, 0) !is Matrix {
        Some((ErrKind::Runtime, "naive.bayes: x must be matrix"@))
    } else {
        match reals(nth(a, 1)) {
            None => Some((ErrKind::Type, "cannot coerce to numeric"@)),
            Some(s) => if present(s).len() != nth(a, 0)->Matrix_0.nrow {
                Some((ErrKind::Runtime, "naive.bayes: labels length must match rows"@))
            } else {
                None
            },
        }
    }
}

/// Values in an order.
pub open spec fn in_order(s: Seq<Real>, p: Seq<usize>) -> Seq<Real> {
    Seq::new(p.len(), |t: int| s[p[t] as int])
}

/// Every class has a row: no two distinct labels lie within the distance that
/// makes them one class.
pub open spec fn classes_filled<F: Fn(FloatOp, Real, Real, Real) -> Real>(fpu: &Fpu<F>, labels: Seq<Real>) -> bool {
    forall|p: Seq<usize>, c: int| #[trigger]
        orders(labels, false, p) && 0 <= c < deduped(in_order(labels, p)).len() ==> #[trigger] positions(
            row_classes(fpu, deduped(in_order(labels, p)), labels),
            c as usize,
        ).len() > 0
}

proof fn lemma_deduped_len(s: Seq<Real>)
    ensures
        deduped(s).len() <= s.len(),
    decreases s.len(),
{
    if s.len() > 0 {
        lemma_deduped_len(s.drop_last());
    }
}

fn class_list(labels: &Vec<Real>, order: &Vec<usize>) -> (r: Vec<Real>)
    requires
        permutes(order@, labels@.len() as int),
    ensures
        r@ == deduped(in_order(labels@, order@)),
        r@.len() <= labels@.len(),
{
    let ghost s = in_order(labels@, order@);
    let mut out: Vec<Real> = Vec::new();
    let mut i: usize = 0;
    assert(s.take(0) =~= Seq::<Real>::empty());
    while i < order.len()
        invariant
            permutes(order@, labels@.len() as int),
            s == in_order(labels@, order@),
            i <= order.len(),
            out@ == deduped(s.take(i as int)),
        decreases order.len() - i,
    {
        assert(order@.contains(order@[i as int]));
        let v: Real = labels[order[i]];
        proof {
            assert(s.take(i + 1).drop_last() =~= s.take(i as int));
            assert(s.take(i + 1).last() == v);
        }
        let again: bool = out.len() > 0 && v.eq_value(&out[out.len() - 1]);
        if !again {
            out.push(v);
        }
        i += 1;
    }
    proof {
        assert(s.take(order@.len() as int) =~= s);
        lemma_deduped_len(s);
    }
    out
}

fn class_ids<F: Fn(FloatOp, Real, Real, Real) -> Real>(fpu: &Fpu<F>, classes: &Vec<Real>, labels: &Vec<Real>) -> (r: Vec<usize>)
    requires
        fpu.wf(),
    ensures
        r@ == row_classes(fpu, classes@, labels@),
{
    let small = Real { bits: SAME_CLASS_BITS };
    let ghost want = row_classes(fpu, classes@, labels@);
    let mut out: Vec<usize> = Vec::new();
    let mut i: usize = 0;
    while i < labels.len()
        invariant
            fpu.wf(),
            small == num(SAME_CLASS_BITS),
            i <= labels.len(),
            want == row_classes(fpu, classes@, labels@),
            out@ == want.take(i as int),
        decreases labels.len() - i,
    {
        let x: Real = labels[i];
        let mut c: usize = 0;
        let mut hit: bool = false;
        while c < classes.len() && !hit
            invariant
                fpu.wf(),
                small == num(SAME_CLASS_BITS),
                c <= classes.len(),
                hit ==> c < classes.len() && class_from(fpu, classes@, x, 0) == c,
                !hit ==> class_from(fpu, classes@, x, 0) == class_from(fpu, classes@, x, c as int),
            decreases classes.len() - c + if hit {
                0int
            } else {
                1
            },
        {
            if fpu.diff(classes[c], x).abs().lt(&small) {
                hit = true;
            } else {
                c += 1;
            }
        }
        let id: usize = if hit { c } else { 0 };
        assert(id == want[i as int]);
        out.push(id);
        assert(out@ =~= want.take(i + 1));
        i += 1;
    }
    assert(out@ =~= want);
    out
}

fn variance_of<F: Fn(FloatOp, Real, Real, Real) -> Real>(
    fpu: &Fpu<F>,
    m: &Matrix,
    rows: &Vec<usize>,
    mean: Real,
    j: usize,
    Ghost(ids): Ghost<Seq<usize>>,
    Ghost(c): Ghost<usize>,
) -> (r: Real)
    requires
        fpu.wf(),
        m.deep().wf(),
        m.nrow < SIZE_LIMIT,
        j < m.ncol,
        ids.len() == m.nrow,
        rows@ == positions(ids, c),
        rows@.len() > 0,
        mean == cluster_mean(fpu, m.deep(), ids, c, j as int),
    ensures
        r == class_variance(fpu, m.deep(), ids, c, j as int),
{
    proof {
        lemma_positions(ids, c);
    }
    let nrow: usize = m.nrow;
    let n: usize = m.ncol;
    let md: &Vec<Real> = &m.data;
    let len: usize = md.len();
    let count: usize = rows.len();
    let f = |t: usize| -> (x: Real)
        requires
            fpu.wf(),
            t < rows@.len(),
            rows@[t as int] < nrow,
            j < n,
            md@.len() == nrow * n,
            len == md@.len(),
        ensures
            x == fpu.square_diff(md@[j * nrow + rows@[t as int]], mean),
        {
            proof {
                lemma_cell(rows@[t as int] as int, j as int, nrow as int, n as int);
            }
            let d: Real = fpu.diff(md[j * nrow + rows[t]], mean);
            fpu.prod(d, d)
        };
    let ghost g = m.deep();
    let s: Real = sum_of(
        fpu,
        count,
        &f,
        Ghost(Seq::new(rows@.len(), |t: int| fpu.square_diff(g.at(rows@[t] as int, j as int), mean))),
    );
    let free: usize = if count > 2 { count - 1 } else { 1 };
    fpu.quot(s, Real::from_count(free as u64))
}

fn variances<F: Fn(FloatOp, Real, Real, Real) -> Real>(
    fpu: &Fpu<F>,
    m: &Matrix,
    ids: &Vec<usize>,
    rows: &Vec<Vec<usize>>,
    means: &Vec<Real>,
    k: usize,
) -> (r: Vec<Real>)
    requires
        fpu.wf(),
        m.deep().wf(),
        m.nrow < SIZE_LIMIT,
        ids@.len() == m.nrow,
        m.ncol * k <= usize::MAX,
        rows@.len() == k,
        forall|c: int| 0 <= c < k ==> (#[trigger] rows@[c])@ == positions(ids@, c as usize),
        m.ncol > 0 ==> forall|c: int| 0 <= c < k ==> (#[trigger] rows@[c])@.len() > 0,
        means@ == recentred(fpu, m.deep(), ids@, k as nat),
        means@.len() == m.ncol * k,
    ensures
        r@ == table(m.ncol as nat, k as nat, |j: int, c: int| class_variance(fpu, m.deep(), ids@, c as usize, j)),
{
    let ghost g = m.deep();
    let ghost f = |j: int, c: int| class_variance(fpu, g, ids@, c as usize, j);
    let len: usize = means.len();
    let h = |j: usize, c: usize| -> (x: Real)
        requires
            fpu.wf(),
            m.data@.len() == m.nrow * m.ncol,
            m.nrow < SIZE_LIMIT,
            ids@.len() == m.nrow,
            j < m.ncol,
            c < k,
            rows@.len() == k,
            rows@[c as int]@ == positions(ids@, c),
            rows@[c as int]@.len() > 0,
            means@ == recentred(fpu, grid_of(m), ids@, k as nat),
            means@.len() == m.ncol * k,
            len == means@.len(),
        ensures
            x == class_variance(fpu, grid_of(m), ids@, c, j as int),
        {
            proof {
                let gm = grid_of(m);
                lemma_cell(j as int, c as int, m.ncol as int, k as int);
                crate::grid::lemma_entry(
                    gm.ncol,
                    k as nat,
                    |j: int, c: int| cluster_mean(fpu, gm, ids@, c as usize, j),
                    j as int,
                    c as int,
                );
            }
            let mean: Real = means[c * m.ncol + j];
            variance_of(fpu, m, &rows[c], mean, j, Ghost(ids@), Ghost(c))
        };
    table_of(m.ncol, k, &h, Ghost(f))
}

/// How many rows each class has.
pub open spec fn class_sizes<F: Fn(FloatOp, Real, Real, Real) -> Real>(
    fpu: &Fpu<F>,
    classes: Seq<Real>,
    labels: Seq<Real>,
) -> Seq<usize> {
    Seq::new(classes.len(), |c: int| positions(row_classes(fpu, classes, labels), c as usize).len() as usize)
}

/// How many rows each class of a call has; nothing where the call cannot be
/// fitted.
pub fn class_counts<F: Fn(FloatOp, Real, Real, Real) -> Real>(fpu: &Fpu<F>, a: &[EvalArg]) -> (r: Option<Vec<usize>>)
    requires
        fpu.wf(),
    ensures
        bayes_fault(a@) is Some ==> r is None,
        bayes_fault(a@) is None ==> ({
            let labels = present(reals(nth(a@, 1))->0);
            exists|p: Seq<usize>| #[trigger]
                orders(labels, false, p) && r is Some && (r->0)@ == class_sizes(fpu, deduped(in_order(labels, p)), labels)
        }),
{
    let first: RVal = nth_arg(a, 0);
    proof {
        reveal_with_fuel(RVal::deep, 2);
    }
    let m: &Matrix = match &first {
        RVal::Matrix(m) => m,
        _ => {
            return None;
        },
    };
    let labels: Vec<Real> = match nth_arg(a, 1).as_reals() {
        Ok(s) => keep_present(s.as_slice()),
        Err(_) => {
            return None;
        },
    };
    if labels.len() != m.nrow {
        return None;
    }
    let order: Vec<usize> = order_numbers(&labels, false);
    let classes: Vec<Real> = class_list(&labels, &order);
    let ids: Vec<usize> = class_ids(fpu, &classes, &labels);
    let rows: Vec<Vec<usize>> = all_members(&ids, classes.len());
    let mut out: Vec<usize> = Vec::new();
    let mut c: usize = 0;
    while c < rows.len()
        invariant
            c <= rows.len(),
            forall|c: int| 0 <= c < rows@.len() ==> (#[trigger] rows@[c])@ == positions(ids@, c as usize),
            out@.len() == c,
            forall|k: int| 0 <= k < c ==> #[trigger] out@[k] == positions(ids@, k as usize).len() as usize,
        decreases rows.len() - c,
    {
        out.push(rows[c].len());
        c += 1;
    }
    proof {
        assert(orders(labels@, false, order@));
        assert(out@ =~= class_sizes(fpu, classes@, labels@));
    }
    Some(out)
}

/// Gaussian naive Bayes fitted to the rows of a matrix and their labels.
pub fn bi_naive_bayes<F: Fn(FloatOp, Real, Real, Real) -> Real>(fpu: &Fpu<F>, a: &[EvalArg]) -> (r: Result<RVal, R2Err>)
    requires
        fpu.wf(),
        sound_args(a@),
        bayes_fault(a@) is None && nth(a@, 0)->Matrix_0.ncol > 0 ==> classes_filled(fpu, present(reals(nth(a@, 1))->0)),
    ensures
        match bayes_fault(a@) {
            Some(e) => failed(r, e),
            None => {
                let labels = present(reals(nth(a@, 1))->0);
                exists|p: Seq<usize>| #[trigger]
                    orders(labels, false, p) && r is Ok && r->Ok_0.deep() == bayes_report(
                        fpu,
                        nth(a@, 0)->Matrix_0,
                        labels,
                        deduped(in_order(labels, p)),
                    )
            },
        },
{
    let first: RVal = nth_arg(a, 0);
    proof {
        reveal_with_fuel(RVal::deep, 2);
        if a@.len() > 0 {
            assert(sound(a@[0].value.deep()));
        }
    }
    let m: &Matrix = match &first {
        RVal::Matrix(m) => m,
        _ => {
            return Err(fail(ErrKind::Runtime, "naive.bayes: x must be matrix"));
        },
    };
    let labels: Vec<Real> = match nth_arg(a, 1).as_reals() {
        Ok(s) => keep_present(s.as_slice()),
        Err(e) => {
            return Err(e);
        },
    };
    if labels.len() != m.nrow {
        return Err(fail(ErrKind::Runtime, "naive.bayes: labels length must match rows"));
    }
    let order: Vec<usize> = order_numbers(&labels, false);
    let classes: Vec<Real> = class_list(&labels, &order);
    let ids: Vec<usize> = class_ids(fpu, &classes, &labels);
    let k: usize = classes.len();
    proof {
        assert(m.ncol * k <= m.ncol * m.nrow) by (nonlinear_arith)
            requires
                k <= m.nrow,
        ;
        assert(m.ncol * m.nrow == m.nrow * m.ncol) by (nonlinear_arith);
    }
    let len: usize = m.data.len();
    let rows: Vec<Vec<usize>> = all_members(&ids, k);
    proof {
        if m.ncol > 0 {
            assert forall|c: int| 0 <= c < k implies (#[trigger] rows@[c])@.len() > 0 by {
                assert(orders(labels@, false, order@));
                assert(positions(row_classes(fpu, deduped(in_order(labels@, order@)), labels@), c as usize).len() > 0);
            }
        }
    }
    let means: Vec<Real> = recentre(fpu, m, &ids, &rows, k);
    let vars: Vec<Real> = variances(fpu, m, &ids, &rows, &means, k);
    let size: Real = Real::from_count(m.nrow as u64);
    let ghost want = Seq::new(
        k as nat,
        |c: int| fpu.over(nat_real(positions(ids@, c as usize).len()), nat_real(m.nrow as nat)),
    );
    let mut priors: Vec<Real> = Vec::new();
    let mut c: usize = 0;
    while c < k
        invariant
            fpu.wf(),
            k == rows@.len(),
            ids@.len() == m.nrow,
            m.nrow < SIZE_LIMIT,
            size == nat_real(m.nrow as nat),
            forall|c: int| 0 <= c < k ==> (#[trigger] rows@[c])@ == positions(ids@, c as usize),
            want == Seq::new(
                k as nat,
                |c: int| fpu.over(nat_real(positions(ids@, c as usize).len()), nat_real(m.nrow as nat)),
            ),
            c <= k,
            priors@ == want.take(c as int),
        decreases k - c,
    {
        proof {
            lemma_positions(ids@, c);
            crate::ml_knn::lemma_positions_fit(ids@, c);
        }
        priors.push(fpu.quot(Real::from_count(rows[c].len() as u64), size));
        assert(priors@ =~= want.take(c + 1));
        c += 1;
    }
    assert(priors@ =~= want);
    let mut fields: Vec<(String, RVal)> = Vec::new();
    put(&mut fields, "classes", rnums(&classes));
    put(&mut fields, "priors", rnums(&priors));
    let mean_matrix = Matrix { data: means, nrow: k, ncol: m.ncol, col_names: None };
    let var_matrix = Matrix { data: vars, nrow: k, ncol: m.ncol, col_names: None };
    put(&mut fields, "means", RVal::Matrix(mean_matrix));
    put(&mut fields, "vars", RVal::Matrix(var_matrix));
    let r: RVal = instance("naive.bayes", fields);
    proof {
        let report = bayes_report(fpu, m.deep(), labels@, classes@);
        assert(r.deep()->Instance_1 =~= report->Instance_1);
        assert(orders(labels@, false, order@));
    }
    Ok(r)
}

proof fn lemma_positions_fit(ids: Seq<usize>, c: usize)
    ensures
        positions(ids, c).len() <= ids.len(),
    decreases ids.len(),
{
    if ids.len() > 0 {
        lemma_positions_fit(ids.drop_last(), c);
    }
}

} // verus!
