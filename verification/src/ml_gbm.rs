//! Gradient boosted trees.
use crate::double::{FloatOp, Fpu, HALF_BITS, MINUS_ONE_BITS, NAN_BITS, ONE_BITS, Real, num, one, rounded, zero};
use crate::grid::{sum_reals, total};
use crate::kernel::Backend;
use crate::ml_cv::{arg_text, text_named};
use crate::ml_data::{ModelData, data_fault, extract_ml_data, model_data, narrow, short_terms, sized_call};
use crate::ml_tree::{
    Kit, Node, TreeLimits, all_nodes, draw_ready, grow, grown, importance, importances, kit_ready, list_trees,
    listed_fields, named_nums, offsets, predict_row, predicted, put_nodes, rnums_named, rtexts, spread_out, texts_val,
};
use crate::stats_design::Printer;
use crate::stats_dist::{arg_number, number_named};
use crate::stats_matrix::failed;
use crate::text::{same_text, texts};
use crate::value::{
    EvalArg, Matrix, R2Err, RVal, Val, arg_count, arg_named, count_named, instance, named, num_val, nums_val, put,
    rnum, rnums, rstr, str_val,
};
use vstd::prelude::*;

verus! {

/// 0.1
pub const TENTH_BITS: u64 = 0x3fb9_9999_9999_999a;

/// 0.8
pub const FOUR_FIFTHS_BITS: u64 = 0x3fe9_9999_9999_999a;

/// 1e-10
pub const SMALL_ODDS_BITS: u64 = 0x3ddb_7cdf_d9d7_bdbb;

/// 1e-15
pub const SMALL_CHANCE_BITS: u64 = 0x3cd2_03af_9ee7_5616;

/// How trees are boosted.
#[derive(Debug)]
pub struct GbmOptions {
    pub ntrees: usize,
    pub rate: Real,
    pub max_depth: usize,
    pub min_samples: usize,
    pub subsample: Real,
    pub loss: String,
}

/// The learning rate of a call, under either of its names.
pub open spec fn rate_wanted(a: Seq<EvalArg>) -> Real {
    if named(a, "learning_rate"@) is Some {
        number_named(a, "learning_rate"@, num(TENTH_BITS))
    } else {
        number_named(a, "eta"@, num(TENTH_BITS))
    }
}

/// The options in a call.
pub open spec fn options_wanted<S: Fn(Real) -> String>(printer: &Printer<S>, a: Seq<EvalArg>, o: GbmOptions) -> bool {
    &&& o.ntrees == count_named(a, "ntrees"@, 100)
    &&& o.rate == rate_wanted(a)
    &&& o.max_depth == count_named(a, "max_depth"@, 3)
    &&& o.min_samples == count_named(a, "min_samples"@, 5)
    &&& o.subsample == number_named(a, "subsample"@, num(FOUR_FIFTHS_BITS))
    &&& o.loss@ == text_named(printer, a, "loss"@, "squared"@)
}

fn options_of<S: Fn(Real) -> String>(printer: &Printer<S>, a: &[EvalArg]) -> (r: GbmOptions)
    requires
        printer.wf(),
    ensures
        options_wanted(printer, a@, r),
{
    let tenth = Real { bits: TENTH_BITS };
    let rate: Real = match arg_named(a, "learning_rate") {
        Some(_) => arg_number(a, "learning_rate", tenth),
        None => arg_number(a, "eta", tenth),
    };
    GbmOptions {
        ntrees: arg_count(a, "ntrees", 100),
        rate,
        max_depth: arg_count(a, "max_depth", 3),
        min_samples: arg_count(a, "min_samples", 5),
        subsample: arg_number(a, "subsample", Real { bits: FOUR_FIFTHS_BITS }),
        loss: arg_text(printer, a, "loss", "squared"),
    }
}

#[derive(Clone, Copy, PartialEq, Eq, Structural, Debug)]
pub enum Loss {
    Logistic,
    Huber,
    Squared,
}

/// The loss of a name; any other name stands for the squared one.
pub open spec fn loss_named(s: Seq<char>) -> Loss {
    if s == "logistic"@ || s == "bernoulli"@ {
        Loss::Logistic
    } else if s == "huber"@ {
        Loss::Huber
    } else {
        Loss::Squared
    }
}

fn loss_of(s: &str) -> (r: Loss)
    ensures
        r == loss_named(s@),
{
    if same_text(s, "logistic") || same_text(s, "bernoulli") {
        Loss::Logistic
    } else if same_text(s, "huber") {
        Loss::Huber
    } else {
        Loss::Squared
    }
}

/// The logistic function.
pub open spec fn logistic<F: Fn(FloatOp, Real, Real, Real) -> Real>(fpu: &Fpu<F>, f: Real) -> Real {
    fpu.over(one(), fpu.plus(one(), fpu.exp(f.negated())))
}

fn logistic_of<F: Fn(FloatOp, Real, Real, Real) -> Real>(fpu: &Fpu<F>, f: Real) -> (r: Real)
    requires
        fpu.wf(),
    ensures
        r == logistic(fpu, f),
{
    let unit = Real { bits: ONE_BITS };
    fpu.quot(unit, fpu.sum(unit, fpu.apply1(FloatOp::Exp, f.neg())))
}

/// One with the sign of the number, or a NaN.
pub open spec fn signum(x: Real) -> Real {
    if x.nan() {
        num(NAN_BITS)
    } else if x.negative() {
        num(MINUS_ONE_BITS)
    } else {
        one()
    }
}

fn signum_of(x: Real) -> (r: Real)
    ensures
        r == signum(x),
{
    if x.is_nan() {
        Real { bits: NAN_BITS }
    } else if x.bits >= crate::double::SIGN {
        Real { bits: MINUS_ONE_BITS }
    } else {
        Real { bits: ONE_BITS }
    }
}

/// The negative gradient of the loss.
pub open spec fn gradient<F: Fn(FloatOp, Real, Real, Real) -> Real>(fpu: &Fpu<F>, loss: Loss, y: Real, f: Real) -> Real {
    match loss {
        Loss::Logistic => fpu.minus(y, logistic(fpu, f)),
        Loss::Huber => {
            let r = fpu.minus(y, f);
            if !r.nan() && r.absolute().key() <= one().key() {
                r
            } else {
                fpu.times(one(), signum(r))
            }
        },
        Loss::Squared => fpu.minus(y, f),
    }
}

fn gradient_of<F: Fn(FloatOp, Real, Real, Real) -> Real>(fpu: &Fpu<F>, loss: Loss, y: Real, f: Real) -> (r: Real)
    requires
        fpu.wf(),
    ensures
        r == gradient(fpu, loss, y, f),
{
    match loss {
        Loss::Logistic => fpu.diff(y, logistic_of(fpu, f)),
        Loss::Huber => {
            let r: Real = fpu.diff(y, f);
            let unit = Real { bits: ONE_BITS };
            if !r.is_nan() && r.abs().order_key() <= unit.order_key() {
                r
            } else {
                fpu.prod(unit, signum_of(r))
            }
        },
        Loss::Squared => fpu.diff(y, f),
    }
}

/// A probability kept away from zero and one.
pub open spec fn kept_inside<F: Fn(FloatOp, Real, Real, Real) -> Real>(fpu: &Fpu<F>, p: Real) -> Real {
    p.greatest(num(SMALL_CHANCE_BITS)).least(fpu.minus(one(), num(SMALL_CHANCE_BITS)))
}

/// What a row adds to the loss.
pub open spec fn row_loss<F: Fn(FloatOp, Real, Real, Real) -> Real>(fpu: &Fpu<F>, loss: Loss, y: Real, f: Real) -> Real {
    match loss {
        Loss::Logistic => {
            let p = kept_inside(fpu, logistic(fpu, f));
            fpu.plus(
                fpu.times(y, fpu.ln(p)),
                fpu.times(fpu.minus(one(), y), fpu.ln(fpu.minus(one(), p))),
            ).negated()
        },
        _ => fpu.square_diff(y, f),
    }
}

fn row_loss_of<F: Fn(FloatOp, Real, Real, Real) -> Real>(fpu: &Fpu<F>, loss: Loss, y: Real, f: Real) -> (r: Real)
    requires
        fpu.wf(),
    ensures
        r == row_loss(fpu, loss, y, f),
{
    match loss {
        Loss::Logistic => {
            let unit = Real { bits: ONE_BITS };
            let small = Real { bits: SMALL_CHANCE_BITS };
            let p: Real = logistic_of(fpu, f).max_value(small).min_value(fpu.diff(unit, small));
            let yes: Real = fpu.prod(y, fpu.apply1(FloatOp::Ln, p));
            let no: Real = fpu.prod(fpu.diff(unit, y), fpu.apply1(FloatOp::Ln, fpu.diff(unit, p)));
            fpu.sum(yes, no).neg()
        },
        _ => {
            let d: Real = fpu.diff(y, f);
            fpu.prod(d, d)
        },
    }
}

/// How many of the responses are above one half.
pub open spec fn positives(y: Seq<Real>) -> nat
    decreases y.len(),
{
    if y.len() == 0 {
        0
    } else {
        positives(y.drop_last()) + if num(HALF_BITS).below(y.last()) {
            1nat
        } else {
            0
        }
    }
}

fn positives_of(y: &Vec<Real>) -> (r: u64)
    ensures
        r == positives(y@),
{
    let half = Real { bits: HALF_BITS };
    let mut c: u64 = 0;
    let mut i: usize = 0;
    assert(y@.take(0) =~= Seq::<Real>::empty());
    while i < y.len()
        invariant
            i <= y.len(),
            half == num(HALF_BITS),
            c == positives(y@.take(i as int)),
            c <= i,
        decreases y.len() - i,
    {
        assert(y@.take(i + 1).drop_last() =~= y@.take(i as int));
        if half.lt(&y[i]) {
            c = c + 1;
        }
        i += 1;
    }
    assert(y@.take(y@.len() as int) =~= y@);
    c
}

/// What every row starts with: the log odds, or the mean response.
pub open spec fn start_value<F: Fn(FloatOp, Real, Real, Real) -> Real>(fpu: &Fpu<F>, loss: Loss, y: Seq<Real>, m: nat) -> Real {
    match loss {
        Loss::Logistic => {
            let pos = rounded(positives(y));
            let neg = fpu.minus(rounded(m), pos).greatest(one());
            fpu.ln(fpu.over(pos, neg).greatest(num(SMALL_ODDS_BITS)))
        },
        _ => fpu.over(total(fpu, y), rounded(m)),
    }
}

fn start_value_of<F: Fn(FloatOp, Real, Real, Real) -> Real>(fpu: &Fpu<F>, loss: Loss, y: &Vec<Real>, m: usize) -> (r: Real)
    requires
        fpu.wf(),
    ensures
        r == start_value(fpu, loss, y@, m as nat),
{
    let size: Real = Real::from_u64(m as u64);
    match loss {
        Loss::Logistic => {
            let pos: Real = Real::from_u64(positives_of(y));
            let neg: Real = fpu.diff(size, pos).max_value(Real { bits: ONE_BITS });
            fpu.apply1(FloatOp::Ln, fpu.quot(pos, neg).max_value(Real { bits: SMALL_ODDS_BITS }))
        },
        _ => fpu.quot(sum_reals(fpu, y.as_slice()), size),
    }
}

/// The fitted values after boosting with the trees.
pub open spec fn boosted<
    T,
    F: Fn(FloatOp, Real, Real, Real) -> Real,
    B,
    P: Fn(&T, &Vec<Real>, usize, usize) -> Real,
    L,
>(fpu: &Fpu<F>, k: &Kit<B, P, L>, m: &Matrix, rate: Real, start: Real, trees: Seq<T>) -> Seq<Real>
    decreases trees.len(),
{
    if trees.len() == 0 {
        Seq::new(m.nrow as nat, |i: int| start)
    } else {
        let f = boosted(fpu, k, m, rate, start, trees.drop_last());
        Seq::new(
            m.nrow as nat,
            |i: int| fpu.plus(f[i], fpu.times(rate, predicted(k, &trees.last(), m.data@, m.nrow, i))),
        )
    }
}

/// The negative gradients at the fitted values.
pub open spec fn gradients<F: Fn(FloatOp, Real, Real, Real) -> Real>(
    fpu: &Fpu<F>,
    loss: Loss,
    y: Seq<Real>,
    f: Seq<Real>,
) -> Seq<Real> {
    Seq::new(f.len(), |i: int| gradient(fpu, loss, y[i], f[i]))
}

/// The mean loss at the fitted values.
pub open spec fn mean_loss<F: Fn(FloatOp, Real, Real, Real) -> Real>(
    fpu: &Fpu<F>,
    loss: Loss,
    y: Seq<Real>,
    f: Seq<Real>,
) -> Real {
    fpu.over(
        total(fpu, Seq::new(f.len(), |i: int| row_loss(fpu, loss, y[i], f[i]))),
        rounded(f.len()),
    )
}

/// How many rows are drawn for a tree; none where there is no row.
pub open spec fn draw_count<F: Fn(FloatOp, Real, Real, Real) -> Real>(fpu: &Fpu<F>, m: nat, subsample: Real) -> nat {
    if m == 0 {
        0
    } else {
        fpu.times(rounded(m), subsample).as_count() as nat
    }
}

pub open spec fn gbm_limits(o: GbmOptions) -> TreeLimits {
    TreeLimits { max_depth: o.max_depth, min_samples: o.min_samples, classify: false }
}

/// Tree `t` was grown from the gradients that the trees before it leave.
pub open spec fn boost_step<
    T,
    F: Fn(FloatOp, Real, Real, Real) -> Real,
    B: Fn(&Vec<Real>, &Vec<Real>, usize, usize, &Vec<bool>, TreeLimits) -> T,
    P: Fn(&T, &Vec<Real>, usize, usize) -> Real,
    L,
    D: Fn(u64, usize) -> Real,
>(fpu: &Fpu<F>, k: &Kit<B, P, L>, draw: &D, o: GbmOptions, d: ModelData, trees: Seq<T>, t: int) -> bool {
    let loss = loss_named(o.loss@);
    let start = start_value(fpu, loss, d.y@, d.x.nrow as nat);
    grown(
        fpu,
        k,
        draw,
        t,
        draw_count(fpu, d.x.nrow as nat, o.subsample),
        &d.x,
        gradients(fpu, loss, d.y@, boosted(fpu, k, &d.x, o.rate, start, trees.take(t))),
        gbm_limits(o),
        trees[t],
    )
}

/// The trees were grown one after the other.
pub open spec fn boosts<
    T,
    F: Fn(FloatOp, Real, Real, Real) -> Real,
    B: Fn(&Vec<Real>, &Vec<Real>, usize, usize, &Vec<bool>, TreeLimits) -> T,
    P: Fn(&T, &Vec<Real>, usize, usize) -> Real,
    L,
    D: Fn(u64, usize) -> Real,
>(fpu: &Fpu<F>, k: &Kit<B, P, L>, draw: &D, o: GbmOptions, d: ModelData, trees: Seq<T>) -> bool {
    forall|t: int| 0 <= t < trees.len() ==> #[trigger] boost_step(fpu, k, draw, o, d, trees, t)
}

/// The mean loss after each tree.
pub open spec fn losses<
    T,
    F: Fn(FloatOp, Real, Real, Real) -> Real,
    B,
    P: Fn(&T, &Vec<Real>, usize, usize) -> Real,
    L,
>(fpu: &Fpu<F>, k: &Kit<B, P, L>, o: GbmOptions, d: ModelData, trees: Seq<T>) -> Seq<Real> {
    let loss = loss_named(o.loss@);
    let start = start_value(fpu, loss, d.y@, d.x.nrow as nat);
    Seq::new(
        trees.len(),
        |t: int| mean_loss(fpu, loss, d.y@, boosted(fpu, k, &d.x, o.rate, start, trees.take(t + 1))),
    )
}

/// What the fitted values predict: themselves, or the likelier class.
pub open spec fn outcomes<F: Fn(FloatOp, Real, Real, Real) -> Real>(fpu: &Fpu<F>, loss: Loss, f: Seq<Real>) -> Seq<Real> {
    match loss {
        Loss::Logistic => Seq::new(
            f.len(),
            |i: int|
                if num(HALF_BITS).below(logistic(fpu, f[i])) {
                    one()
                } else {
                    zero()
                },
        ),
        _ => f,
    }
}

/// The report of a boosted fit.
pub open spec fn gbm_report<
    T,
    F: Fn(FloatOp, Real, Real, Real) -> Real,
    B,
    P: Fn(&T, &Vec<Real>, usize, usize) -> Real,
    L: Fn(&T, usize) -> Vec<Node>,
>(fpu: &Fpu<F>, k: &Kit<B, P, L>, o: GbmOptions, d: ModelData, trees: Seq<T>) -> Val {
    let loss = loss_named(o.loss@);
    let start = start_value(fpu, loss, d.y@, d.x.nrow as nat);
    let f = boosted(fpu, k, &d.x, o.rate, start, trees);
    let nodes = all_nodes(k, trees);
    let names = texts(d.names@);
    Val::Instance(
        "gbm"@,
        seq![
            ("predictions"@, nums_val(outcomes(fpu, loss, f))),
            ("f.values"@, nums_val(f)),
            ("ntrees"@, num_val(rounded(o.ntrees as nat))),
            ("learning_rate"@, num_val(o.rate)),
            ("loss"@, str_val(o.loss@)),
            ("train.loss"@, nums_val(losses(fpu, k, o, d, trees))),
            ("importance"@, named_nums(importance(fpu, nodes, d.x.ncol as nat), names)),
            ("xnames"@, texts_val(names)),
            ("_tree_offsets"@, nums_val(offsets(k, trees))),
        ] + listed_fields(nodes),
    )
}

/// The model data in a call are complete: a number for each cell, and a
/// response for each row.
pub open spec fn shaped(a: Seq<EvalArg>) -> bool {
    forall|d: ModelData| #[trigger]
        model_data(a, d) ==> d.x.data@.len() == d.x.nrow * d.x.ncol && d.y@.len() >= d.x.nrow
}

fn residuals_of<F: Fn(FloatOp, Real, Real, Real) -> Real + Sync>(
    fpu: &Fpu<F>,
    loss: Loss,
    y: &Vec<Real>,
    f: &Vec<Real>,
    on: Backend,
) -> (r: Vec<Real>)
    requires
        fpu.wf(),
        y@.len() >= f@.len(),
    ensures
        r@ == gradients(fpu, loss, y@, f@),
{
    let g = |i: usize| -> (x: Real)
        requires
            fpu.wf(),
            i < f@.len(),
            y@.len() >= f@.len(),
        ensures
            x == gradient(fpu, loss, y@[i as int], f@[i as int]),
        { gradient_of(fpu, loss, y[i], f[i]) };
    spread_out(on, f.len(), g, Ghost(gradients(fpu, loss, y@, f@)))
}

fn mean_loss_of<F: Fn(FloatOp, Real, Real, Real) -> Real + Sync>(
    fpu: &Fpu<F>,
    loss: Loss,
    y: &Vec<Real>,
    f: &Vec<Real>,
    on: Backend,
) -> (r: Real)
    requires
        fpu.wf(),
        y@.len() >= f@.len(),
    ensures
        r == mean_loss(fpu, loss, y@, f@),
{
    let g = |i: usize| -> (x: Real)
        requires
            fpu.wf(),
            i < f@.len(),
            y@.len() >= f@.len(),
        ensures
            x == row_loss(fpu, loss, y@[i as int], f@[i as int]),
        { row_loss_of(fpu, loss, y[i], f[i]) };
    let parts: Vec<Real> = spread_out(
        on,
        f.len(),
        g,
        Ghost(Seq::new(f@.len(), |i: int| row_loss(fpu, loss, y@[i], f@[i]))),
    );
    fpu.quot(sum_reals(fpu, parts.as_slice()), Real::from_u64(f.len() as u64))
}

fn advance<
    T: Sync,
    F: Fn(FloatOp, Real, Real, Real) -> Real + Sync,
    B: Fn(&Vec<Real>, &Vec<Real>, usize, usize, &Vec<bool>, TreeLimits) -> T + Sync,
    P: Fn(&T, &Vec<Real>, usize, usize) -> Real + Sync,
    L: Fn(&T, usize) -> Vec<Node> + Sync,
>(fpu: &Fpu<F>, k: &Kit<B, P, L>, m: &Matrix, rate: Real, tree: &T, f: &Vec<Real>, on: Backend) -> (r: Vec<Real>)
    requires
        fpu.wf(),
        kit_ready(k),
        f@.len() == m.nrow,
    ensures
        r@ == Seq::new(
            m.nrow as nat,
            |i: int| fpu.plus(f@[i], fpu.times(rate, predicted(k, tree, m.data@, m.nrow, i))),
        ),
{
    let rows: usize = m.nrow;
    let data: &Vec<Real> = &m.data;
    let g = |i: usize| -> (x: Real)
        requires
            fpu.wf(),
            kit_ready(k),
            i < rows,
            f@.len() == rows,
        ensures
            x == fpu.plus(f@[i as int], fpu.times(rate, predicted(k, tree, data@, rows, i as int))),
        {
            let p: Real = predict_row(k, tree, data, rows, i);
            fpu.sum(f[i], fpu.prod(rate, p))
        };
    spread_out(
        on,
        rows,
        g,
        Ghost(
            Seq::new(
                m.nrow as nat,
                |i: int| fpu.plus(f@[i], fpu.times(rate, predicted(k, tree, m.data@, m.nrow, i))),
            ),
        ),
    )
}

fn outcomes_of<F: Fn(FloatOp, Real, Real, Real) -> Real>(fpu: &Fpu<F>, loss: Loss, f: &Vec<Real>) -> (r: Vec<Real>)
    requires
        fpu.wf(),
    ensures
        r@ == outcomes(fpu, loss, f@),
{
    match loss {
        Loss::Logistic => {
            let half = Real { bits: HALF_BITS };
            let ghost want = outcomes(fpu, loss, f@);
            let mut out: Vec<Real> = Vec::new();
            let mut i: usize = 0;
            while i < f.len()
                invariant
                    fpu.wf(),
                    loss is Logistic,
                    half == num(HALF_BITS),
                    i <= f.len(),
                    want == outcomes(fpu, loss, f@),
                    out@ == want.take(i as int),
                decreases f.len() - i,
            {
                let p: Real = logistic_of(fpu, f[i]);
                out.push(if half.lt(&p) { Real { bits: ONE_BITS } } else { Real { bits: 0 } });
                assert(out@ =~= want.take(i + 1));
                i += 1;
            }
            assert(out@ =~= want);
            out
        },
        _ => crate::value::dup_copies(f),
    }
}

/// A boosted fit: the fitted values, the loss after each tree, and the trees.
#[derive(Debug)]
pub struct Boost<T> {
    pub values: Vec<Real>,
    pub losses: Vec<Real>,
    pub trees: Vec<T>,
}

proof fn lemma_steps_stay<
    T,
    F: Fn(FloatOp, Real, Real, Real) -> Real,
    B: Fn(&Vec<Real>, &Vec<Real>, usize, usize, &Vec<bool>, TreeLimits) -> T,
    P: Fn(&T, &Vec<Real>, usize, usize) -> Real,
    L,
    D: Fn(u64, usize) -> Real,
>(fpu: &Fpu<F>, k: &Kit<B, P, L>, draw: &D, o: GbmOptions, d: ModelData, trees: Seq<T>, tree: T)
    requires
        boosts(fpu, k, draw, o, d, trees),
        boost_step(fpu, k, draw, o, d, trees.push(tree), trees.len() as int),
    ensures
        boosts(fpu, k, draw, o, d, trees.push(tree)),
        losses(fpu, k, o, d, trees.push(tree)).take(trees.len() as int) == losses(fpu, k, o, d, trees),
{
    let all = trees.push(tree);
    assert forall|t: int| 0 <= t < all.len() implies #[trigger] boost_step(fpu, k, draw, o, d, all, t) by {
        if t < trees.len() {
            assert(all.take(t) =~= trees.take(t));
            assert(boost_step(fpu, k, draw, o, d, trees, t));
        }
    }
    assert forall|t: int| 0 <= t < trees.len() implies losses(fpu, k, o, d, all)[t] == losses(fpu, k, o, d, trees)[t] by {
        assert(all.take(t + 1) =~= trees.take(t + 1));
    }
    assert(losses(fpu, k, o, d, all).take(trees.len() as int) =~= losses(fpu, k, o, d, trees));
}

/// Boosts trees one after the other: each is grown from the gradients that the
/// trees before it leave, and adds its predictions at the learning rate.
pub fn boost<
    T: Sync,
    F: Fn(FloatOp, Real, Real, Real) -> Real + Sync,
    B: Fn(&Vec<Real>, &Vec<Real>, usize, usize, &Vec<bool>, TreeLimits) -> T + Sync,
    P: Fn(&T, &Vec<Real>, usize, usize) -> Real + Sync,
    L: Fn(&T, usize) -> Vec<Node> + Sync,
    D: Fn(u64, usize) -> Real,
>(fpu: &Fpu<F>, k: &Kit<B, P, L>, draw: &D, o: &GbmOptions, d: &ModelData, on: Backend) -> (r: Boost<T>)
    requires
        fpu.wf(),
        kit_ready(k),
        draw_ready(draw),
        d.x.data@.len() == d.x.nrow * d.x.ncol,
        d.y@.len() >= d.x.nrow,
    ensures
        r.trees@.len() == o.ntrees,
        boosts(fpu, k, draw, *o, *d, r.trees@),
        r.losses@ == losses(fpu, k, *o, *d, r.trees@),
        r.values@ == boosted(
            fpu,
            k,
            &d.x,
            o.rate,
            start_value(fpu, loss_named(o.loss@), d.y@, d.x.nrow as nat),
            r.trees@,
        ),
{
    let loss: Loss = loss_of(o.loss.as_str());
    let m: usize = d.x.nrow;
    let start: Real = start_value_of(fpu, loss, &d.y, m);
    let mut values: Vec<Real> = Vec::new();
    let mut i: usize = 0;
    while i < m
        invariant
            i <= m,
            values@ == Seq::new(i as nat, |i: int| start),
        decreases m - i,
    {
        values.push(start);
        i += 1;
        assert(values@ =~= Seq::new(i as nat, |i: int| start));
    }
    let count: usize = if m == 0 {
        0
    } else {
        fpu.prod(Real::from_u64(m as u64), o.subsample).to_usize()
    };
    let limits = TreeLimits { max_depth: o.max_depth, min_samples: o.min_samples, classify: false };
    let mut trees: Vec<T> = Vec::new();
    let mut lost: Vec<Real> = Vec::new();
    let mut t: usize = 0;
    assert(lost@ =~= losses(fpu, k, *o, *d, trees@));
    while t < o.ntrees
        invariant
            fpu.wf(),
            kit_ready(k),
            draw_ready(draw),
            m == d.x.nrow,
            d.x.data@.len() == d.x.nrow * d.x.ncol,
            d.y@.len() >= d.x.nrow,
            loss == loss_named(o.loss@),
            start == start_value(fpu, loss, d.y@, m as nat),
            count == draw_count(fpu, m as nat, o.subsample),
            limits == gbm_limits(*o),
            t <= o.ntrees,
            trees@.len() == t,
            values@ == boosted(fpu, k, &d.x, o.rate, start, trees@),
            values@.len() == m,
            boosts(fpu, k, draw, *o, *d, trees@),
            lost@ == losses(fpu, k, *o, *d, trees@),
        decreases o.ntrees - t,
    {
        let residuals: Vec<Real> = residuals_of(fpu, loss, &d.y, &values, on);
        let tree: T = grow(fpu, k, draw, t as u64, count, &d.x, &residuals, limits);
        values = advance(fpu, k, &d.x, o.rate, &tree, &values, on);
        let l: Real = mean_loss_of(fpu, loss, &d.y, &values, on);
        let ghost before = trees@;
        lost.push(l);
        trees.push(tree);
        t += 1;
        proof {
            assert(trees@ == before.push(tree));
            assert(trees@.drop_last() =~= before);
            assert(trees@.take(before.len() as int) =~= before);
            assert(trees@.take(t as int) =~= trees@);
            assert(boost_step(fpu, k, draw, *o, *d, trees@, before.len() as int));
            lemma_steps_stay(fpu, k, draw, *o, *d, before, tree);
            assert(lost@ =~= losses(fpu, k, *o, *d, trees@));
        }
    }
    Boost { values, losses: lost, trees }
}

/// Gradient boosted trees fitted to the data of a call.
pub fn bi_gbm<
    T: Sync,
    F: Fn(FloatOp, Real, Real, Real) -> Real + Sync,
    S: Fn(Real) -> String,
    B: Fn(&Vec<Real>, &Vec<Real>, usize, usize, &Vec<bool>, TreeLimits) -> T + Sync,
    P: Fn(&T, &Vec<Real>, usize, usize) -> Real + Sync,
    L: Fn(&T, usize) -> Vec<Node> + Sync,
    D: Fn(u64, usize) -> Real,
>(fpu: &Fpu<F>, printer: &Printer<S>, k: &Kit<B, P, L>, draw: &D, a: &[EvalArg], on: Backend) -> (r: Result<RVal, R2Err>)
    requires
        fpu.wf(),
        printer.wf(),
        kit_ready(k),
        draw_ready(draw),
        sized_call(a@),
        short_terms(a@),
        narrow(a@),
        shaped(a@),
    ensures
        match data_fault(a@) {
            Some(e) => failed(r, e),
            None => exists|d: ModelData, o: GbmOptions, trees: Seq<T>|
                model_data(a@, d) && options_wanted(printer, a@, o) && trees.len() == o.ntrees && #[trigger] boosts(
                    fpu,
                    k,
                    draw,
                    o,
                    d,
                    trees,
                ) && r is Ok && r->Ok_0.deep() == gbm_report(fpu, k, o, d, trees),
        },
{
    let d: ModelData = match extract_ml_data(a) {
        Ok(d) => d,
        Err(e) => {
            return Err(e);
        },
    };
    let o: GbmOptions = options_of(printer, a);
    let fit: Boost<T> = boost(fpu, k, draw, &o, &d, on);
    let loss: Loss = loss_of(o.loss.as_str());
    let preds: Vec<Real> = outcomes_of(fpu, loss, &fit.values);
    let (nodes, starts) = list_trees(k, &fit.trees);
    let shares: Vec<Real> = importances(fpu, &nodes, d.x.ncol);
    let mut fields: Vec<(String, RVal)> = Vec::new();
    put(&mut fields, "predictions", rnums(&preds));
    put(&mut fields, "f.values", rnums(&fit.values));
    put(&mut fields, "ntrees", rnum(Real::from_u64(o.ntrees as u64)));
    put(&mut fields, "learning_rate", rnum(o.rate));
    put(&mut fields, "loss", rstr(o.loss.as_str()));
    put(&mut fields, "train.loss", rnums(&fit.losses));
    put(&mut fields, "importance", rnums_named(&shares, &d.names));
    put(&mut fields, "xnames", rtexts(&d.names));
    put(&mut fields, "_tree_offsets", rnums(&starts));
    put_nodes(&mut fields, &nodes);
    let r: RVal = instance("gbm", fields);
    proof {
        let want = gbm_report(fpu, k, o, d, fit.trees@);
        assert(r.deep()->Instance_1 =~= want->Instance_1);
        assert(boosts(fpu, k, draw, o, d, fit.trees@));
    }
    Ok(r)
}

} // verus!
