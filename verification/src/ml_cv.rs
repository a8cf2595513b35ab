//! Cross-validation over consecutive folds of rows.
use crate::double::{FloatOp, Fpu, ONE_BITS, Real, nat_real, one};
use crate::grid::{sum_of, sum_reals, table, table_of, total};
use crate::kernel::Backend;
use crate::kernel_map::par_for;
use crate::linalg::LinalgError;
use crate::ml_tree::{Kit, Node, TreeLimits, draw_ready, grow, grown, kit_ready, predict_rows, predictions};
use crate::linalg_solve::{cross, cross_vector, dlsq_fused, factors_square, normal_solution};
use crate::stats_design::{Printer, text_or_na};
use crate::stats_matrix::{SIZE_LIMIT, failed, sound, sound_args};
use crate::text::{extend_str, join, joined, opt_text, owned, same_text, string_of, texts};
use crate::value::{
    ErrKind, EvalArg, Grid, Matrix, R2Err, RVal, Val, arg_count, arg_named, class_name, count_named, fail, instance,
    keep_present, lemma_cell, named, nth, nth_arg, num_val, nums_val, present, put, reals, rnum, rnums,
};
use vstd::prelude::*;

verus! {

/// A value as one text.
pub open spec fn value_text<S: Fn(Real) -> String>(printer: &Printer<S>, v: Val) -> Seq<char> {
    match v {
        Val::Character(s, _) => joined(Seq::new(s.len(), |i: int| text_or_na(s[i])), " "@),
        Val::Numeric(s, _) => joined(
            Seq::new(
                s.len(),
                |i: int|
                    match s[i] {
                        Some(x) => printer.text(x),
                        None => "NA"@,
                    },
            ),
            " "@,
        ),
        _ => "<"@ + class_name(v) + ">"@,
    }
}

/// A value as one text: its entries with blanks between them, or its class in
/// angle brackets.
pub fn rval_to_string<S: Fn(Real) -> String>(printer: &Printer<S>, v: &RVal) -> (r: String)
    requires
        printer.wf(),
    ensures
        r@ == value_text(printer, v.deep()),
{
    proof {
        reveal_with_fuel(RVal::deep, 2);
    }
    match v {
        RVal::Character(s, _) => {
            let mut parts: Vec<String> = Vec::new();
            let mut i: usize = 0;
            while i < s.len()
                invariant
                    i <= s.len(),
                    parts@.len() == i,
                    forall|k: int| 0 <= k < i ==> (#[trigger] parts@[k])@ == text_or_na(opt_text(s@[k])),
                decreases s.len() - i,
            {
                parts.push(
                    match &s[i] {
                        Some(t) => owned(t.as_str()),
                        None => owned("NA"),
                    },
                );
                i += 1;
            }
            proof {
                let c = v.deep()->Character_0;
                assert(texts(parts@) =~= Seq::new(c.len(), |i: int| text_or_na(c[i])));
            }
            join(&parts, " ")
        },
        RVal::Numeric(s, _) => {
            let mut parts: Vec<String> = Vec::new();
            let mut i: usize = 0;
            while i < s.len()
                invariant
                    printer.wf(),
                    i <= s.len(),
                    parts@.len() == i,
                    forall|k: int|
                        0 <= k < i ==> (#[trigger] parts@[k])@ == (match s@[k] {
                            Some(x) => printer.text(x),
                            None => "NA"@,
                        }),
                decreases s.len() - i,
            {
                parts.push(
                    match s[i] {
                        Some(x) => printer.print(x),
                        None => owned("NA"),
                    },
                );
                i += 1;
            }
            assert(texts(parts@) =~= Seq::new(
                s@.len(),
                |i: int|
                    match s@[i] {
                        Some(x) => printer.text(x),
                        None => "NA"@,
                    },
            ));
            join(&parts, " ")
        },
        _ => {
            let mut t: Vec<char> = Vec::new();
            let kind: String = v.class_name();
            extend_str(&mut t, "<");
            extend_str(&mut t, kind.as_str());
            extend_str(&mut t, ">");
            let r: String = string_of(&t);
            assert(r@ =~= "<"@ + class_name(v.deep()) + ">"@);
            r
        },
    }
}

/// A text given by name, or a default.
pub open spec fn text_named<S: Fn(Real) -> String>(
    printer: &Printer<S>,
    a: Seq<EvalArg>,
    name: Seq<char>,
    default: Seq<char>,
) -> Seq<char> {
    match named(a, name) {
        Some(v) => value_text(printer, v),
        None => default,
    }
}

/// A text given by name, or a default.
pub fn arg_text<S: Fn(Real) -> String>(printer: &Printer<S>, a: &[EvalArg], name: &str, default: &str) -> (r: String)
    requires
        printer.wf(),
    ensures
        r@ == text_named(printer, a@, name@, default@),
{
    match arg_named(a, name) {
        Some(v) => rval_to_string(printer, v),
        None => owned(default),
    }
}

/// The first row of a fold.
pub open spec fn fold_start(m: int, k: int, fold: int) -> int {
    fold * (m / k)
}

/// The row after the last of a fold; the last fold takes what is left.
pub open spec fn fold_end(m: int, k: int, fold: int) -> int {
    if fold == k - 1 {
        m
    } else {
        (fold + 1) * (m / k)
    }
}

/// A fold: the rows that are held out, and the rest, column by column.
#[derive(Debug)]
pub struct Fold {
    pub train: Matrix,
    pub train_y: Vec<Real>,
    pub test: Matrix,
    pub test_y: Vec<Real>,
}

/// Row `r` of those that stay when the rows from `s` to `e` are held out.
pub open spec fn kept_row(s: int, e: int, r: int) -> int {
    if r < s {
        r
    } else {
        r + (e - s)
    }
}

impl Fold {
    /// The fold holds out the rows from `s` to `e`.
    pub open spec fn splits(&self, g: Grid, y: Seq<Real>, s: int, e: int) -> bool {
        &&& self.train.nrow == g.nrow - (e - s)
        &&& self.test.nrow == e - s
        &&& self.train.ncol == g.ncol
        &&& self.test.ncol == g.ncol
        &&& self.train.data@ == table(
            self.train.nrow as nat,
            g.ncol,
            |r: int, c: int| g.at(kept_row(s, e, r), c),
        )
        &&& self.test.data@ == table(self.test.nrow as nat, g.ncol, |r: int, c: int| g.at(s + r, c))
        &&& self.train_y@ == Seq::new(self.train.nrow as nat, |r: int| y[kept_row(s, e, r)])
        &&& self.test_y@ == Seq::new(self.test.nrow as nat, |r: int| y[s + r])
    }

    pub open spec fn wf(&self) -> bool {
        &&& self.train.data@.len() == self.train.nrow * self.train.ncol
        &&& self.test.data@.len() == self.test.nrow * self.test.ncol
        &&& self.test.ncol == self.train.ncol
        &&& self.train_y@.len() == self.train.nrow
        &&& self.test_y@.len() == self.test.nrow
        &&& self.train.nrow < SIZE_LIMIT
        &&& self.test.nrow < SIZE_LIMIT
    }
}

fn pick(m: &Matrix, s: usize, e: usize, test: bool) -> (r: Vec<Real>)
    requires
        m.deep().wf(),
        s <= e <= m.nrow,
    ensures
        test ==> r@ == table((e - s) as nat, m.ncol as nat, |r: int, c: int| m.deep().at(s + r, c)),
        !test ==> r@ == table(
            (m.nrow - (e - s)) as nat,
            m.ncol as nat,
            |r: int, c: int| m.deep().at(kept_row(s as int, e as int, r), c),
        ),
        test ==> r@.len() == (e - s) * m.ncol,
        !test ==> r@.len() == (m.nrow - (e - s)) * m.ncol,
{
    let nrow: usize = m.nrow;
    let n: usize = m.ncol;
    let md: &Vec<Real> = &m.data;
    let len: usize = md.len();
    let held: usize = e - s;
    let rows: usize = if test { held } else { nrow - held };
    let ghost f = |r: int, c: int|
        if test {
            m.deep().at(s + r, c)
        } else {
            m.deep().at(kept_row(s as int, e as int, r), c)
        };
    proof {
        assert(rows * n <= nrow * n) by (nonlinear_arith)
            requires
                rows <= nrow,
        ;
    }
    let h = |r: usize, c: usize| -> (x: Real)
        requires
            r < rows,
            c < n,
            held == e - s,
            rows == (if test {
                held as int
            } else {
                nrow - held
            }),
            s <= e <= nrow,
            md@.len() == nrow * n,
            len == md@.len(),
        ensures
            x == (if test {
                md@[c * nrow + s + r]
            } else {
                md@[c * nrow + kept_row(s as int, e as int, r as int)]
            }),
        {
            let i: usize = if test {
                s + r
            } else if r < s {
                r
            } else {
                r + held
            };
            proof {
                lemma_cell(i as int, c as int, nrow as int, n as int);
            }
            md[c * nrow + i]
        };
    let r: Vec<Real> = table_of(rows, n, &h, Ghost(f));
    proof {
        if test {
            assert(r@ =~= table((e - s) as nat, n as nat, |r: int, c: int| m.deep().at(s + r, c)));
        } else {
            assert(r@ =~= table(
                (nrow - (e - s)) as nat,
                n as nat,
                |r: int, c: int| m.deep().at(kept_row(s as int, e as int, r), c),
            ));
        }
    }
    r
}

fn split_fold(m: &Matrix, y: &Vec<Real>, s: usize, e: usize) -> (r: Fold)
    requires
        m.deep().wf(),
        s <= e <= m.nrow,
        m.nrow < SIZE_LIMIT,
        y@.len() == m.nrow,
    ensures
        r.splits(m.deep(), y@, s as int, e as int),
        r.wf(),
{
    let held: usize = e - s;
    let train_x: Vec<Real> = pick(m, s, e, false);
    let test_x: Vec<Real> = pick(m, s, e, true);
    let mut train_y: Vec<Real> = Vec::new();
    let mut test_y: Vec<Real> = Vec::new();
    let mut i: usize = 0;
    while i < m.nrow
        invariant
            s <= e <= m.nrow,
            held == e - s,
            y@.len() == m.nrow,
            i <= m.nrow,
            test_y@.len() == (if i <= s {
                0
            } else if i <= e {
                i - s
            } else {
                e - s
            }),
            train_y@.len() == i - test_y@.len(),
            forall|r: int| 0 <= r < test_y@.len() ==> #[trigger] test_y@[r] == y@[s + r],
            forall|r: int|
                0 <= r < train_y@.len() ==> #[trigger] train_y@[r] == y@[kept_row(s as int, e as int, r)],
        decreases m.nrow - i,
    {
        if i >= s && i < e {
            test_y.push(y[i]);
        } else {
            train_y.push(y[i]);
        }
        i += 1;
    }
    let r = Fold {
        train: Matrix { data: train_x, nrow: m.nrow - held, ncol: m.ncol, col_names: None },
        train_y,
        test: Matrix { data: test_x, nrow: held, ncol: m.ncol, col_names: None },
        test_y,
    };
    proof {
        assert(r.train_y@ =~= Seq::new(r.train.nrow as nat, |i: int| y@[kept_row(s as int, e as int, i)]));
        assert(r.test_y@ =~= Seq::new(r.test.nrow as nat, |i: int| y@[s + i]));
    }
    r
}

/// The mean squared error of predictions.
pub open spec fn mse<F: Fn(FloatOp, Real, Real, Real) -> Real>(fpu: &Fpu<F>, preds: Seq<Real>, y: Seq<Real>) -> Real {
    fpu.over(
        total(fpu, Seq::new(preds.len(), |i: int| fpu.square_diff(preds[i], y[i]))),
        nat_real(preds.len()),
    )
}

/// The mean squared error of predictions.
pub fn mse_of<F: Fn(FloatOp, Real, Real, Real) -> Real>(fpu: &Fpu<F>, preds: &Vec<Real>, y: &Vec<Real>) -> (r: Real)
    requires
        fpu.wf(),
        preds@.len() == y@.len(),
        y@.len() < SIZE_LIMIT,
    ensures
        r == mse(fpu, preds@, y@),
{
    let f = |i: usize| -> (x: Real)
        requires
            fpu.wf(),
            i < preds@.len(),
            preds@.len() == y@.len(),
        ensures
            x == fpu.square_diff(preds@[i as int], y@[i as int]),
        {
            let d: Real = fpu.diff(preds[i], y[i]);
            fpu.prod(d, d)
        };
    let s: Real = sum_of(
        fpu,
        preds.len(),
        &f,
        Ghost(Seq::new(preds@.len(), |i: int| fpu.square_diff(preds@[i], y@[i]))),
    );
    fpu.quot(s, Real::from_count(preds.len() as u64))
}

/// The training rows with a first column of ones.
pub open spec fn with_ones(x: Seq<Real>, rows: nat, n: nat) -> Seq<Real> {
    Seq::new(rows, |i: int| one()) + x
}

/// A linear prediction: the first coefficient, and then one product after the
/// other added.
pub open spec fn linear<F: Fn(FloatOp, Real, Real, Real) -> Real>(
    fpu: &Fpu<F>,
    coeffs: Seq<Real>,
    x: Seq<Real>,
    rows: int,
    i: int,
    k: nat,
) -> Real
    decreases k,
{
    if k == 0 {
        coeffs[0]
    } else {
        fpu.plus(
            linear(fpu, coeffs, x, rows, i, (k - 1) as nat),
            fpu.times(coeffs[k as int], crate::grid::entry(x, rows, i, k - 1)),
        )
    }
}

pub open spec fn linear_all<F: Fn(FloatOp, Real, Real, Real) -> Real>(
    fpu: &Fpu<F>,
    coeffs: Seq<Real>,
    x: Seq<Real>,
    rows: nat,
    n: nat,
) -> Seq<Real> {
    Seq::new(rows, |i: int| linear(fpu, coeffs, x, rows as int, i, n))
}

fn predict_linear<F: Fn(FloatOp, Real, Real, Real) -> Real>(
    fpu: &Fpu<F>,
    coeffs: &Vec<Real>,
    x: &Vec<Real>,
    rows: usize,
    n: usize,
) -> (r: Vec<Real>)
    requires
        fpu.wf(),
        coeffs@.len() == n + 1,
        x@.len() == rows * n,
    ensures
        r@ == linear_all(fpu, coeffs@, x@, rows as nat, n as nat),
{
    let len: usize = x.len();
    let ghost want = linear_all(fpu, coeffs@, x@, rows as nat, n as nat);
    let mut out: Vec<Real> = Vec::new();
    let mut i: usize = 0;
    while i < rows
        invariant
            fpu.wf(),
            coeffs@.len() == n + 1,
            x@.len() == rows * n,
            len == x@.len(),
            i <= rows,
            want == linear_all(fpu, coeffs@, x@, rows as nat, n as nat),
            out@ == want.take(i as int),
        decreases rows - i,
    {
        let mut acc: Real = coeffs[0];
        let mut j: usize = 0;
        while j < n
            invariant
                fpu.wf(),
                coeffs@.len() == n + 1,
                x@.len() == rows * n,
                len == x@.len(),
                i < rows,
                j <= n,
                acc == linear(fpu, coeffs@, x@, rows as int, i as int, j as nat),
            decreases n - j,
        {
            proof {
                lemma_cell(i as int, j as int, rows as int, n as int);
            }
            acc = fpu.sum(acc, fpu.prod(coeffs[j + 1], x[j * rows + i]));
            j += 1;
        }
        assert(acc == want[i as int]);
        out.push(acc);
        assert(out@ =~= want.take(i + 1));
        i += 1;
    }
    assert(out@ =~= want);
    out
}

pub open spec fn lm_message(e: LinalgError) -> Seq<char> {
    "cv lm failed: "@ + e.text()
}

/// `r` is the error of a linear fit on a fold, or why there is none.
pub open spec fn linear_score<
    F: Fn(FloatOp, Real, Real, Real) -> Real,
    G: Fn(usize, &[Real]) -> Result<Vec<Real>, LinalgError>,
>(fpu: &Fpu<F>, factor: G, f: Fold, r: Result<Real, R2Err>) -> bool {
    let m = f.train.nrow as nat;
    let p = (f.train.ncol + 1) as nat;
    let x = with_ones(f.train.data@, m, f.train.ncol as nat);
    exists|c: Result<Vec<Real>, LinalgError>| #[trigger]
        normal_solution(fpu, factor, p as usize, cross(fpu, m, p, x), cross_vector(fpu, m, p, x, f.train_y@), c)
            && match c {
            Err(e) => failed(r, (ErrKind::Runtime, lm_message(e))),
            Ok(v) => r == Ok::<Real, R2Err>(
                mse(
                    fpu,
                    linear_all(fpu, v@, f.test.data@, f.test.nrow as nat, f.train.ncol as nat),
                    f.test_y@,
                ),
            ),
        }
}

fn score_linear<
    F: Fn(FloatOp, Real, Real, Real) -> Real,
    G: Fn(usize, &[Real]) -> Result<Vec<Real>, LinalgError>,
>(fpu: &Fpu<F>, factor: &G, f: &Fold) -> (r: Result<Real, R2Err>)
    requires
        fpu.wf(),
        factors_square(*factor),
        f.wf(),
        f.train.nrow * (f.train.ncol + 1) <= usize::MAX,
        (f.train.ncol + 1) * (f.train.ncol + 1) <= usize::MAX,
        f.train.ncol < usize::MAX,
    ensures
        linear_score(fpu, *factor, *f, r),
{
    let m: usize = f.train.nrow;
    let n: usize = f.train.ncol;
    let mut x: Vec<Real> = Vec::new();
    let ghost want = with_ones(f.train.data@, m as nat, n as nat);
    let mut i: usize = 0;
    while i < m
        invariant
            i <= m,
            want == with_ones(f.train.data@, m as nat, n as nat),
            x@ == want.take(i as int),
        decreases m - i,
    {
        x.push(Real { bits: ONE_BITS });
        assert(x@ =~= want.take(i + 1));
        i += 1;
    }
    let mut j: usize = 0;
    while j < f.train.data.len()
        invariant
            j <= f.train.data.len(),
            want == with_ones(f.train.data@, m as nat, n as nat),
            x@ == want.take(m + j),
        decreases f.train.data.len() - j,
    {
        x.push(f.train.data[j]);
        assert(x@ =~= want.take(m + j + 1));
        j += 1;
    }
    assert(x@ =~= want);
    proof {
        assert(m + m * n == m * (n + 1)) by (nonlinear_arith);
    }
    let c: Result<Vec<Real>, LinalgError> = dlsq_fused(
        fpu,
        factor,
        m,
        n + 1,
        x.as_slice(),
        f.train_y.as_slice(),
    );
    assert(normal_solution(
        fpu,
        *factor,
        (n + 1) as usize,
        cross(fpu, m as nat, (n + 1) as nat, want),
        cross_vector(fpu, m as nat, (n + 1) as nat, want, f.train_y@),
        c,
    ));
    match c {
        Err(e) => {
            let mut t: Vec<char> = Vec::new();
            let why: String = e.message();
            extend_str(&mut t, "cv lm failed: ");
            extend_str(&mut t, why.as_str());
            let msg: String = string_of(&t);
            assert(msg@ =~= lm_message(e));
            Err(R2Err { msg, kind: ErrKind::Runtime })
        },
        Ok(v) => {
            let preds: Vec<Real> = predict_linear(fpu, &v, &f.test.data, f.test.nrow, n);
            Ok(mse_of(fpu, &preds, &f.test_y))
        },
    }
}

/// The number of trees in a forest that is cross-validated.
pub const CV_TREES: usize = 50;

/// The mean of the trees' predictions for each row.
pub open spec fn averaged<F: Fn(FloatOp, Real, Real, Real) -> Real>(fpu: &Fpu<F>, trees: Seq<Seq<Real>>, rows: nat) -> Seq<
    Real,
> {
    Seq::new(
        rows,
        |i: int|
            fpu.over(
                total(fpu, Seq::new(trees.len(), |t: int| trees[t][i])),
                nat_real(trees.len()),
            ),
    )
}

pub open spec fn real_rows(v: Seq<Vec<Real>>) -> Seq<Seq<Real>> {
    Seq::new(v.len(), |i: int| v[i]@)
}

/// The mean of the trees' predictions for each row.
pub fn average_trees<F: Fn(FloatOp, Real, Real, Real) -> Real>(fpu: &Fpu<F>, trees: &Vec<Vec<Real>>, rows: usize) -> (r: Vec<
    Real,
>)
    requires
        fpu.wf(),
        trees@.len() < SIZE_LIMIT,
        forall|t: int| 0 <= t < trees@.len() ==> (#[trigger] trees@[t])@.len() == rows,
    ensures
        r@ == averaged(fpu, real_rows(trees@), rows as nat),
{
    let ghost want = averaged(fpu, real_rows(trees@), rows as nat);
    let count: usize = trees.len();
    let mut out: Vec<Real> = Vec::new();
    let mut i: usize = 0;
    while i < rows
        invariant
            fpu.wf(),
            count == trees@.len(),
            count < SIZE_LIMIT,
            forall|t: int| 0 <= t < trees@.len() ==> (#[trigger] trees@[t])@.len() == rows,
            i <= rows,
            want == averaged(fpu, real_rows(trees@), rows as nat),
            out@ == want.take(i as int),
        decreases rows - i,
    {
        let f = |t: usize| -> (x: Real)
            requires
                t < trees@.len(),
                i < trees@[t as int]@.len(),
            ensures
                x == trees@[t as int]@[i as int],
            { trees[t][i] };
        let ghost s = Seq::new(real_rows(trees@).len(), |t: int| real_rows(trees@)[t][i as int]);
        let sum: Real = sum_of(fpu, count, &f, Ghost(s));
        let v: Real = fpu.quot(sum, Real::from_count(count as u64));
        assert(v == want[i as int]);
        out.push(v);
        assert(out@ =~= want.take(i + 1));
        i += 1;
    }
    assert(out@ =~= want);
    out
}

/// How the trees of a cross-validated forest are grown.
pub open spec fn cv_limits() -> TreeLimits {
    TreeLimits { max_depth: 5, min_samples: 2, classify: false }
}

/// The trees were grown from rows drawn among the training rows of a fold.
pub open spec fn forest_grown<
    T,
    F: Fn(FloatOp, Real, Real, Real) -> Real,
    B: Fn(&Vec<Real>, &Vec<Real>, usize, usize, &Vec<bool>, TreeLimits) -> T,
    P,
    L,
    D: Fn(u64, usize) -> Real,
>(fpu: &Fpu<F>, k: &Kit<B, P, L>, draw: &D, fold: int, f: Fold, trees: Seq<T>) -> bool {
    &&& trees.len() == CV_TREES
    &&& forall|t: int|
        0 <= t < CV_TREES ==> grown(
            fpu,
            k,
            draw,
            fold * CV_TREES + t,
            f.train.nrow as nat,
            &f.train,
            f.train_y@,
            cv_limits(),
            #[trigger] trees[t],
        )
}

/// What each tree predicts for the rows held out.
pub open spec fn forest_predictions<T, B, P: Fn(&T, &Vec<Real>, usize, usize) -> Real, L>(
    k: &Kit<B, P, L>,
    f: Fold,
    trees: Seq<T>,
) -> Seq<Seq<Real>> {
    Seq::new(trees.len(), |t: int| predictions(k, &trees[t], f.test.data@, f.test.nrow))
}

fn score_forest<
    T,
    F: Fn(FloatOp, Real, Real, Real) -> Real,
    B: Fn(&Vec<Real>, &Vec<Real>, usize, usize, &Vec<bool>, TreeLimits) -> T,
    P: Fn(&T, &Vec<Real>, usize, usize) -> Real,
    L: Fn(&T, usize) -> Vec<Node>,
    D: Fn(u64, usize) -> Real,
>(fpu: &Fpu<F>, k: &Kit<B, P, L>, draw: &D, fold: usize, f: &Fold) -> (r: Real)
    requires
        fpu.wf(),
        kit_ready(k),
        draw_ready(draw),
        f.wf(),
        f.train.nrow > 0,
        fold < SIZE_LIMIT,
    ensures
        forest_score(fpu, k, draw, fold as int, *f, r),
{
    let mut trees: Vec<T> = Vec::new();
    let mut preds: Vec<Vec<Real>> = Vec::new();
    let mut t: usize = 0;
    while t < CV_TREES
        invariant
            fpu.wf(),
            kit_ready(k),
            draw_ready(draw),
            f.wf(),
            f.train.nrow > 0,
            fold < SIZE_LIMIT,
            t <= CV_TREES,
            trees@.len() == t,
            preds@.len() == t,
            forall|i: int|
                0 <= i < t ==> grown(
                    fpu,
                    k,
                    draw,
                    fold * CV_TREES + i,
                    f.train.nrow as nat,
                    &f.train,
                    f.train_y@,
                    cv_limits(),
                    #[trigger] trees@[i],
                ),
            forall|i: int|
                0 <= i < t ==> (#[trigger] preds@[i])@ == predictions(k, &trees@[i], f.test.data@, f.test.nrow),
        decreases CV_TREES - t,
    {
        let limits = TreeLimits { max_depth: 5, min_samples: 2, classify: false };
        proof {
            assert(fold * CV_TREES <= SIZE_LIMIT * CV_TREES) by (nonlinear_arith)
                requires
                    fold <= SIZE_LIMIT,
            ;
        }
        let at: u64 = (fold as u64) * (CV_TREES as u64) + (t as u64);
        let tree: T = grow(fpu, k, draw, at, f.train.nrow, &f.train, &f.train_y, limits);
        let p: Vec<Real> = predict_rows(k, &tree, &f.test.data, f.test.nrow);
        trees.push(tree);
        preds.push(p);
        t += 1;
    }
    let means: Vec<Real> = average_trees(fpu, &preds, f.test.nrow);
    let r: Real = mse_of(fpu, &means, &f.test_y);
    proof {
        assert(real_rows(preds@) =~= forest_predictions(k, *f, trees@));
        assert(forest_grown(fpu, k, draw, fold as int, *f, trees@));
    }
    r
}

/// `r` is the error of a forest on a fold.
pub open spec fn forest_score<
    T,
    F: Fn(FloatOp, Real, Real, Real) -> Real,
    B: Fn(&Vec<Real>, &Vec<Real>, usize, usize, &Vec<bool>, TreeLimits) -> T,
    P: Fn(&T, &Vec<Real>, usize, usize) -> Real,
    L,
    D: Fn(u64, usize) -> Real,
>(fpu: &Fpu<F>, k: &Kit<B, P, L>, draw: &D, fold: int, f: Fold, r: Real) -> bool {
    exists|trees: Seq<T>| #[trigger]
        forest_grown(fpu, k, draw, fold, f, trees) && r == mse(
            fpu,
            averaged(fpu, forest_predictions(k, f, trees), f.test.nrow as nat),
            f.test_y@,
        )
}

pub open spec fn unsupported_message(model: Seq<char>) -> Seq<char> {
    "cv: model '"@ + model + "' not supported (use lm, rf)"@
}

/// `r` is the score of a model on a fold.
pub open spec fn fold_score<
    T,
    F: Fn(FloatOp, Real, Real, Real) -> Real,
    G: Fn(usize, &[Real]) -> Result<Vec<Real>, LinalgError>,
    B: Fn(&Vec<Real>, &Vec<Real>, usize, usize, &Vec<bool>, TreeLimits) -> T,
    P: Fn(&T, &Vec<Real>, usize, usize) -> Real,
    L: Fn(&T, usize) -> Vec<Node>,
    D: Fn(u64, usize) -> Real,
>(fpu: &Fpu<F>, factor: G, k: &Kit<B, P, L>, draw: &D, fold: int, model: Seq<char>, f: Fold, r: Result<Real, R2Err>) -> bool {
    if model == "lm"@ {
        linear_score(fpu, factor, f, r)
    } else if model == "rf"@ {
        r is Ok && forest_score(fpu, k, draw, fold, f, r->Ok_0)
    } else {
        failed(r, (ErrKind::Runtime, unsupported_message(model)))
    }
}

/// The outside fits can be asked for.
pub open spec fn models_ready<
    T,
    G: Fn(usize, &[Real]) -> Result<Vec<Real>, LinalgError>,
    B: Fn(&Vec<Real>, &Vec<Real>, usize, usize, &Vec<bool>, TreeLimits) -> T,
    P: Fn(&T, &Vec<Real>, usize, usize) -> Real,
    L: Fn(&T, usize) -> Vec<Node>,
    D: Fn(u64, usize) -> Real,
>(factor: &G, k: &Kit<B, P, L>, draw: &D) -> bool {
    factors_square(*factor) && kit_ready(k) && draw_ready(draw)
}

/// `r` is the score of the fold that holds out the rows from `s` to `e`.
pub open spec fn range_score<
    T,
    F: Fn(FloatOp, Real, Real, Real) -> Real,
    G: Fn(usize, &[Real]) -> Result<Vec<Real>, LinalgError>,
    B: Fn(&Vec<Real>, &Vec<Real>, usize, usize, &Vec<bool>, TreeLimits) -> T,
    P: Fn(&T, &Vec<Real>, usize, usize) -> Real,
    L: Fn(&T, usize) -> Vec<Node>,
    D: Fn(u64, usize) -> Real,
>(
    fpu: &Fpu<F>,
    factor: &G,
    k: &Kit<B, P, L>,
    draw: &D,
    fold: int,
    model: Seq<char>,
    g: Grid,
    y: Seq<Real>,
    s: int,
    e: int,
    r: Result<Real, R2Err>,
) -> bool {
    exists|f: Fold| #[trigger] f.splits(g, y, s, e) && fold_score(fpu, *factor, k, draw, fold, model, f, r)
}

/// The tables of a linear fit with an intercept can be counted.
pub open spec fn square_fits(nrow: nat, ncol: nat) -> bool {
    nrow * (ncol + 1) <= usize::MAX && (ncol + 1) * (ncol + 1) <= usize::MAX
}

fn score_fold<
    T,
    F: Fn(FloatOp, Real, Real, Real) -> Real,
    G: Fn(usize, &[Real]) -> Result<Vec<Real>, LinalgError>,
    B: Fn(&Vec<Real>, &Vec<Real>, usize, usize, &Vec<bool>, TreeLimits) -> T,
    P: Fn(&T, &Vec<Real>, usize, usize) -> Real,
    L: Fn(&T, usize) -> Vec<Node>,
    D: Fn(u64, usize) -> Real,
>(fpu: &Fpu<F>, factor: &G, k: &Kit<B, P, L>, draw: &D, fold: usize, model: &str, m: &Matrix, y: &Vec<Real>, s: usize, e: usize) -> (r: Result<
    Real,
    R2Err,
>)
    requires
        fpu.wf(),
        models_ready(factor, k, draw),
        m.deep().wf(),
        s <= e <= m.nrow,
        e - s < m.nrow,
        fold < SIZE_LIMIT,
        m.nrow < SIZE_LIMIT,
        y@.len() == m.nrow,
        model@ == "lm"@ ==> square_fits(m.nrow as nat, m.ncol as nat),
    ensures
        range_score(fpu, factor, k, draw, fold as int, model@, m.deep(), y@, s as int, e as int, r),
{
    let f: Fold = split_fold(m, y, s, e);
    if same_text(model, "lm") {
        proof {
            assert(f.train.nrow * (f.train.ncol + 1) <= m.nrow * (m.ncol + 1)) by (nonlinear_arith)
                requires
                    f.train.nrow <= m.nrow,
                    f.train.ncol == m.ncol,
            ;
            assert((m.ncol + 1) * (m.ncol + 1) >= m.ncol + 1) by (nonlinear_arith);
        }
        let r = score_linear(fpu, factor, &f);
        assert(fold_score(fpu, *factor, k, draw, fold as int, model@, f, r));
        r
    } else if same_text(model, "rf") {
        let r: Result<Real, R2Err> = Ok(score_forest(fpu, k, draw, fold, &f));
        assert(fold_score(fpu, *factor, k, draw, fold as int, model@, f, r));
        r
    } else {
        let mut t: Vec<char> = Vec::new();
        extend_str(&mut t, "cv: model '");
        extend_str(&mut t, model);
        extend_str(&mut t, "' not supported (use lm, rf)");
        let msg: String = string_of(&t);
        assert(msg@ =~= unsupported_message(model@));
        let r: Result<Real, R2Err> = Err(R2Err { msg, kind: ErrKind::Runtime });
        assert(fold_score(fpu, *factor, k, draw, fold as int, model@, f, r));
        r
    }
}

/// What cross-validation reports.
pub open spec fn cv_report<F: Fn(FloatOp, Real, Real, Real) -> Real>(fpu: &Fpu<F>, scores: Seq<Real>) -> Val {
    let k = scores.len();
    let avg = fpu.over(total(fpu, scores), nat_real(k));
    let spread = total(fpu, Seq::new(k, |i: int| fpu.square_diff(scores[i], avg)));
    Val::Instance(
        "cv"@,
        seq![
            ("mse"@, nums_val(scores)),
            ("mean.mse"@, num_val(avg)),
            ("sd.mse"@, num_val(fpu.sqrt(fpu.over(spread, nat_real((k - 1) as nat))))),
            ("k"@, num_val(nat_real(k))),
        ],
    )
}

fn report_cv<F: Fn(FloatOp, Real, Real, Real) -> Real>(fpu: &Fpu<F>, scores: &Vec<Real>) -> (r: RVal)
    requires
        fpu.wf(),
        2 <= scores@.len() < SIZE_LIMIT,
    ensures
        r.deep() == cv_report(fpu, scores@),
{
    let k: usize = scores.len();
    let kf: Real = Real::from_count(k as u64);
    let avg: Real = fpu.quot(sum_reals(fpu, scores.as_slice()), kf);
    let f = |i: usize| -> (x: Real)
        requires
            fpu.wf(),
            i < scores@.len(),
        ensures
            x == fpu.square_diff(scores@[i as int], avg),
        {
            let d: Real = fpu.diff(scores[i], avg);
            fpu.prod(d, d)
        };
    let ss: Real = sum_of(
        fpu,
        k,
        &f,
        Ghost(Seq::new(scores@.len(), |i: int| fpu.square_diff(scores@[i], avg))),
    );
    let sd: Real = fpu.root(fpu.quot(ss, Real::from_count((k - 1) as u64)));
    let mut fields: Vec<(String, RVal)> = Vec::new();
    put(&mut fields, "mse", rnums(scores));
    put(&mut fields, "mean.mse", rnum(avg));
    put(&mut fields, "sd.mse", rnum(sd));
    put(&mut fields, "k", rnum(kf));
    let r = instance("cv", fields);
    assert(r.deep()->Instance_1 =~= cv_report(fpu, scores@)->Instance_1);
    r
}

/// Why a call cannot be cross-validated.
pub open spec fn cv_fault(a: Seq<EvalArg>) -> Option<(ErrKind, Seq<char>)> {
    match nth(a, 0) {
        Val::Matrix(g) => match reals(nth(a, 1)) {
            None => Some((ErrKind::Type, "cannot coerce to numeric"@)),
            Some(s) => {
                let k = count_named(a, "k"@, 5);
                if present(s).len() != g.nrow {
                    Some((ErrKind::Runtime, "cv: y length must match x rows"@))
                } else if k < 2 || k > g.nrow {
                    Some((ErrKind::Runtime, "cv: k must be between 2 and nrow"@))
                } else {
                    None
                }
            },
        },
        _ => Some((ErrKind::Runtime, "cv: x must be matrix"@)),
    }
}

/// `r` reports the scores, or fails as the first fold that failed.
pub open spec fn reports_scores<F: Fn(FloatOp, Real, Real, Real) -> Real>(
    fpu: &Fpu<F>,
    scores: Seq<Result<Real, R2Err>>,
    r: Result<RVal, R2Err>,
) -> bool {
    if exists|i: int| 0 <= i < scores.len() && #[trigger] scores[i] is Err {
        exists|i: int|
            0 <= i < scores.len() && #[trigger] scores[i] is Err && (forall|j: int|
                0 <= j < i ==> #[trigger] scores[j] is Ok) && failed(r, (scores[i]->Err_0.kind, scores[i]->Err_0.msg@))
    } else {
        r is Ok && r->Ok_0.deep() == cv_report(fpu, Seq::new(scores.len(), |i: int| scores[i]->Ok_0))
    }
}

fn collect_scores<F: Fn(FloatOp, Real, Real, Real) -> Real>(fpu: &Fpu<F>, results: &Vec<Result<Real, R2Err>>) -> (r: Result<
    RVal,
    R2Err,
>)
    requires
        fpu.wf(),
        2 <= results@.len() < SIZE_LIMIT,
    ensures
        reports_scores(fpu, results@, r),
{
    let ghost all = results@;
    let mut scores: Vec<Real> = Vec::new();
    let mut i: usize = 0;
    while i < results.len()
        invariant
            all == results@,
            i <= results@.len(),
            scores@.len() == i,
            forall|j: int| 0 <= j < i ==> #[trigger] all[j] is Ok,
            forall|j: int| 0 <= j < i ==> all[j]->Ok_0 == #[trigger] scores@[j],
        decreases results.len() - i,
    {
        match &results[i] {
            Ok(v) => {
                scores.push(*v);
            },
            Err(e) => {
                assert(all[i as int] is Err);
                return Err(R2Err { msg: owned(e.msg.as_str()), kind: e.kind });
            },
        }
        i += 1;
    }
    assert(scores@ =~= Seq::new(all.len(), |i: int| all[i]->Ok_0));
    Ok(report_cv(fpu, &scores))
}

proof fn lemma_fold_bounds(m: int, k: int, fold: int)
    requires
        2 <= k <= m,
        0 <= fold < k,
    ensures
        0 <= fold_start(m, k, fold) <= fold_end(m, k, fold) <= m,
        fold < k - 1 ==> fold_end(m, k, fold) == fold_start(m, k, fold + 1),
        fold_end(m, k, fold) - fold_start(m, k, fold) < m,
        m / k >= 1,
        fold * (m / k) + m / k <= m,
{
    let q = m / k;
    vstd::arithmetic::div_mod::lemma_fundamental_div_mod(m, k);
    assert(q >= 1) by (nonlinear_arith)
        requires
            m >= k,
            k > 0,
            q == m / k,
    ;
    assert(0 <= fold * q && fold * q + q == (fold + 1) * q && (fold + 1) * q <= k * q) by (nonlinear_arith)
        requires
            0 <= fold,
            fold + 1 <= k,
            q >= 0,
    ;
    assert(m % k >= 0);
    assert(k * q <= m);
    assert(2 * q <= k * q) by (nonlinear_arith)
        requires
            2 <= k,
            q >= 1,
    ;
    if fold == k - 1 {
        assert((k - 1) * q >= 1) by (nonlinear_arith)
            requires
                2 <= k,
                q >= 1,
        ;
    }
}

/// Cross-validation of a model: each fold is held out in turn, the model is
/// fitted to the other rows, and its squared error on the fold is taken.
pub fn bi_cv<
    T,
    F: Fn(FloatOp, Real, Real, Real) -> Real + Sync,
    S: Fn(Real) -> String,
    G: Fn(usize, &[Real]) -> Result<Vec<Real>, LinalgError> + Sync,
    B: Fn(&Vec<Real>, &Vec<Real>, usize, usize, &Vec<bool>, TreeLimits) -> T + Sync,
    P: Fn(&T, &Vec<Real>, usize, usize) -> Real + Sync,
    L: Fn(&T, usize) -> Vec<Node> + Sync,
    D: Fn(u64, usize) -> Real + Sync,
>(fpu: &Fpu<F>, printer: &Printer<S>, factor: &G, k: &Kit<B, P, L>, draw: &D, a: &[EvalArg], on: Backend) -> (r: Result<RVal, R2Err>)
    requires
        fpu.wf(),
        printer.wf(),
        models_ready(factor, k, draw),
        sound_args(a@),
        cv_fault(a@) is None && text_named(printer, a@, "model"@, "lm"@) == "lm"@ ==> square_fits(
            nth(a@, 0)->Matrix_0.nrow,
            nth(a@, 0)->Matrix_0.ncol,
        ),
    ensures
        match cv_fault(a@) {
            Some(e) => failed(r, e),
            None => {
                let g = nth(a@, 0)->Matrix_0;
                let y = present(reals(nth(a@, 1))->0);
                let folds = count_named(a@, "k"@, 5);
                exists|scores: Seq<Result<Real, R2Err>>| #[trigger]
                    reports_scores(fpu, scores, r) && scores.len() == folds && forall|i: int|
                        0 <= i < folds ==> range_score(
                            fpu,
                            factor,
                            k,
                            draw,
                            i,
                            text_named(printer, a@, "model"@, "lm"@),
                            g,
                            y,
                            fold_start(g.nrow as int, folds as int, i),
                            fold_end(g.nrow as int, folds as int, i),
                            #[trigger] scores[i],
                        )
            },
        },
{
    let first: RVal = nth_arg(a, 0);
    proof {
        reveal_with_fuel(RVal::deep, 2);
        if a@.len() > 0 {
            assert(sound(a@[0].value.deep()));
        }
    }
    let m: &Matrix = match &first {
        RVal::Matrix(m) => m,
        _ => {
            return Err(fail(ErrKind::Runtime, "cv: x must be matrix"));
        },
    };
    let y: Vec<Real> = match nth_arg(a, 1).as_reals() {
        Ok(s) => keep_present(s.as_slice()),
        Err(e) => {
            return Err(e);
        },
    };
    let model: String = arg_text(printer, a, "model", "lm");
    let folds: usize = arg_count(a, "k", 5);
    if y.len() != m.nrow {
        return Err(fail(ErrKind::Runtime, "cv: y length must match x rows"));
    }
    if folds < 2 || folds > m.nrow {
        return Err(fail(ErrKind::Runtime, "cv: k must be between 2 and nrow"));
    }
    let nrow: usize = m.nrow;
    let fold_size: usize = nrow / folds;
    let run = |fold: usize| -> (x: Result<Real, R2Err>)
        requires
            fpu.wf(),
            models_ready(factor, k, draw),
            m.data@.len() == m.nrow * m.ncol,
            nrow == m.nrow,
            nrow < SIZE_LIMIT,
            y@.len() == nrow,
            model@ == "lm"@ ==> square_fits(m.nrow as nat, m.ncol as nat),
            2 <= folds <= nrow,
            fold_size == nrow / folds,
            fold < folds,
        ensures
            range_score(
                fpu,
                factor,
                k,
                draw,
                fold as int,
                model@,
                crate::ml_kmeans::grid_of(m),
                y@,
                fold_start(nrow as int, folds as int, fold as int),
                fold_end(nrow as int, folds as int, fold as int),
                x,
            ),
        {
            proof {
                lemma_fold_bounds(nrow as int, folds as int, fold as int);
            }
            let start: usize = fold * fold_size;
            let end: usize = if fold == folds - 1 { nrow } else { start + fold_size };
            proof {
                assert(fold * fold_size + fold_size == (fold + 1) * fold_size) by (nonlinear_arith);
            }
            score_fold(fpu, factor, k, draw, fold, model.as_str(), m, &y, start, end)
        };
    let results: Vec<Result<Real, R2Err>> = par_for(on, folds, run);
    let ghost all = results@;
    proof {
        assert forall|i: int| 0 <= i < folds implies range_score(
            fpu,
            factor,
            k,
            draw,
            i,
            model@,
            m.deep(),
            y@,
            fold_start(nrow as int, folds as int, i),
            fold_end(nrow as int, folds as int, i),
            #[trigger] all[i],
        ) by {
            assert(call_ensures(run, (i as usize,), all[i]));
        }
    }
    let r: Result<RVal, R2Err> = collect_scores(fpu, &results);
    assert(reports_scores(fpu, all, r));
    r
}

/// The folds share out the rows: each row is held out by exactly one fold.
pub proof fn law_folds_partition(m: int, k: int, row: int)
    requires
        2 <= k <= m,
        0 <= row < m,
    ensures
        exists|i: int| 0 <= i < k && #[trigger] held_out(m, k, i, row),
        forall|i: int, j: int|
            0 <= i < k && 0 <= j < k && #[trigger] held_out(m, k, i, row) && #[trigger] held_out(m, k, j, row)
                ==> i == j,
{
    let q = m / k;
    lemma_fold_bounds(m, k, 0);
    let i0 = row / q;
    vstd::arithmetic::div_mod::lemma_fundamental_div_mod(row, q);
    assert(q * i0 == i0 * q) by (nonlinear_arith);
    assert(i0 * q <= row < (i0 + 1) * q) by (nonlinear_arith)
        requires
            row == i0 * q + row % q,
            0 <= row % q < q,
    ;
    assert(i0 >= 0) by (nonlinear_arith)
        requires
            row >= 0,
            q > 0,
            i0 == row / q,
    ;
    if i0 < k - 1 {
        assert(held_out(m, k, i0, row));
    } else {
        assert((k - 1) * q <= i0 * q) by (nonlinear_arith)
            requires
                k - 1 <= i0,
                q > 0,
        ;
        assert(held_out(m, k, k - 1, row));
    }
    assert forall|i: int, j: int|
        0 <= i < k && 0 <= j < k && #[trigger] held_out(m, k, i, row) && #[trigger] held_out(m, k, j, row) implies i
        == j by {
        if i < j {
            lemma_apart(m, k, i, j);
        }
        if j < i {
            lemma_apart(m, k, j, i);
        }
    }
}

/// Fold `i` holds out the row.
pub open spec fn held_out(m: int, k: int, i: int, row: int) -> bool {
    fold_start(m, k, i) <= row < fold_end(m, k, i)
}

proof fn lemma_apart(m: int, k: int, i: int, j: int)
    requires
        2 <= k <= m,
        0 <= i < j < k,
    ensures
        fold_end(m, k, i) <= fold_start(m, k, j),
{
    lemma_fold_bounds(m, k, i);
    let q = m / k;
    assert((i + 1) * q <= j * q) by (nonlinear_arith)
        requires
            i + 1 <= j,
            q >= 1,
    ;
}

} // verus!
