//! Random forests and single decision trees.
use crate::double::{FloatOp, Fpu, Real, long_real, num, rounded};
use crate::grid::total;
use crate::grouping::first_seen;
use crate::kernel::Backend;
use crate::kernel_map::par_for;
use crate::ml_cv::{arg_text, text_named};
use crate::ml_data::{ModelData, data_fault, extract_ml_data, model_data, narrow, short_terms, sized_call};
use crate::ml_gbm::shaped;
use crate::ml_tree::{
    Kit, Node, TreeLimits, all_nodes, built, draw_ready, grow, grown, importance, importances, kit_ready, list_trees,
    listed_fields, listing, named_nums, predict_rows, predicted, predictions, put_nodes, rnums_named, rtexts, texts_val,
};
use crate::stats_design::Printer;
use crate::stats_matrix::failed;
use crate::text::{same_text, texts};
use crate::value::{
    ErrKind, EvalArg, Matrix, R2Err, RVal, Val, arg_count, count_named, fail, instance, num_val, nums_val, put,
    rnum, rnums, rstr, str_val,
};
use vstd::prelude::*;

verus! {

/// How often a label occurs.
pub open spec fn votes(labels: Seq<i64>, x: i64) -> nat
    decreases labels.len(),
{
    if labels.len() == 0 {
        0
    } else {
        votes(labels.drop_last(), x) + if labels.last() == x {
            1nat
        } else {
            0
        }
    }
}

/// No label occurs more often; zero where there is no label.
pub open spec fn wins(labels: Seq<i64>, x: i64) -> bool {
    if labels.len() == 0 {
        x == 0
    } else {
        labels.contains(x) && forall|i: int|
            0 <= i < labels.len() ==> votes(labels, #[trigger] labels[i]) <= votes(labels, x)
    }
}

fn count_votes(labels: &Vec<i64>, x: i64) -> (r: usize)
    ensures
        r == votes(labels@, x),
{
    let mut c: usize = 0;
    let mut i: usize = 0;
    assert(labels@.take(0) =~= Seq::<i64>::empty());
    while i < labels.len()
        invariant
            i <= labels.len(),
            c <= i,
            c == votes(labels@.take(i as int), x),
        decreases labels.len() - i,
    {
        assert(labels@.take(i + 1).drop_last() =~= labels@.take(i as int));
        if labels[i] == x {
            c += 1;
        }
        i += 1;
    }
    assert(labels@.take(labels@.len() as int) =~= labels@);
    c
}

/// A label that occurs most often; of several such labels the first.
pub fn majority(labels: &Vec<i64>) -> (r: i64)
    ensures
        wins(labels@, r),
{
    if labels.len() == 0 {
        return 0;
    }
    let mut best: i64 = labels[0];
    let mut most: usize = count_votes(labels, best);
    let mut i: usize = 1;
    while i < labels.len()
        invariant
            1 <= i <= labels.len(),
            labels@.contains(best),
            most == votes(labels@, best),
            forall|k: int| 0 <= k < i ==> votes(labels@, #[trigger] labels@[k]) <= most,
        decreases labels.len() - i,
    {
        let c: usize = count_votes(labels, labels[i]);
        if c > most {
            best = labels[i];
            most = c;
            assert(labels@.contains(labels@[i as int]));
        }
        i += 1;
    }
    best
}

/// Numbers cut to integers.
pub open spec fn as_labels(s: Seq<Real>) -> Seq<i64> {
    Seq::new(s.len(), |i: int| s[i].as_long())
}

/// The labels that the trees give to row `i`.
pub open spec fn row_labels<T, B, P: Fn(&T, &Vec<Real>, usize, usize) -> Real, L>(
    k: &Kit<B, P, L>,
    m: &Matrix,
    trees: Seq<T>,
    i: int,
) -> Seq<i64> {
    as_labels(row_numbers(k, m, trees, i))
}

/// The numbers that the trees give to row `i`.
pub open spec fn row_numbers<T, B, P: Fn(&T, &Vec<Real>, usize, usize) -> Real, L>(
    k: &Kit<B, P, L>,
    m: &Matrix,
    trees: Seq<T>,
    i: int,
) -> Seq<Real> {
    Seq::new(trees.len(), |t: int| predicted(k, &trees[t], m.data@, m.nrow, i))
}

/// What the forest says of row `i`: a label that wins, or the mean.
pub open spec fn forest_says<
    T,
    F: Fn(FloatOp, Real, Real, Real) -> Real,
    B,
    P: Fn(&T, &Vec<Real>, usize, usize) -> Real,
    L,
>(fpu: &Fpu<F>, k: &Kit<B, P, L>, m: &Matrix, trees: Seq<T>, classify: bool, i: int, r: Real) -> bool {
    if classify {
        exists|x: i64| #[trigger] wins(row_labels(k, m, trees, i), x) && r == long_real(x)
    } else {
        r == fpu.over(total(fpu, row_numbers(k, m, trees, i)), rounded(trees.len()))
    }
}

/// How the trees of a forest are grown.
pub open spec fn forest_limits(a: Seq<EvalArg>, kind: Seq<char>) -> TreeLimits {
    TreeLimits { max_depth: count_named(a, "max_depth"@, 10), min_samples: 2, classify: kind != "regression"@ }
}

/// What the forest says of each row.
pub open spec fn forest_predicts<
    T,
    F: Fn(FloatOp, Real, Real, Real) -> Real,
    B,
    P: Fn(&T, &Vec<Real>, usize, usize) -> Real,
    L,
>(fpu: &Fpu<F>, k: &Kit<B, P, L>, m: &Matrix, trees: Seq<T>, l: TreeLimits, preds: Seq<Real>) -> bool {
    &&& preds.len() == m.nrow
    &&& forall|i: int|
        0 <= i < preds.len() ==> forest_says(fpu, k, m, trees, l.classify, i, #[trigger] preds[i])
}

/// How far the seeds of two neighbouring trees are apart.
pub const SEED_STEP: u64 = 999_983;

/// The seed of tree `t` of a forest, counted around in 64 bits.
pub open spec fn tree_seed(seed: u64, t: nat) -> u64 {
    ((seed + t * SEED_STEP) % 0x1_0000_0000_0000_0000) as u64
}

fn seed_of_tree(seed: u64, t: usize) -> (r: u64)
    ensures
        r == tree_seed(seed, t as nat),
{
    assert(0 <= t * SEED_STEP <= 0xffff_ffff_ffff_ffff * SEED_STEP) by (nonlinear_arith)
        requires
            0 <= t <= 0xffff_ffff_ffff_ffff,
    ;
    ((seed as u128 + t as u128 * SEED_STEP as u128) % 0x1_0000_0000_0000_0000u128) as u64
}

/// The trees of a forest, each grown from as many draws as there are rows.
pub open spec fn forest_of<
    T,
    F: Fn(FloatOp, Real, Real, Real) -> Real,
    B: Fn(&Vec<Real>, &Vec<Real>, usize, usize, &Vec<bool>, TreeLimits) -> T,
    P,
    L,
    D: Fn(u64, usize) -> Real,
>(fpu: &Fpu<F>, k: &Kit<B, P, L>, draw: &D, seed: u64, d: ModelData, l: TreeLimits, trees: Seq<T>) -> bool {
    forall|t: int|
        0 <= t < trees.len() ==> grown(
            fpu,
            k,
            draw,
            tree_seed(seed, t as nat) as int,
            d.x.nrow as nat,
            &d.x,
            d.y@,
            l,
            #[trigger] trees[t],
        )
}

/// The report of a forest.
pub open spec fn rf_report<T, F: Fn(FloatOp, Real, Real, Real) -> Real, B, P, L: Fn(&T, usize) -> Vec<Node>>(
    fpu: &Fpu<F>,
    k: &Kit<B, P, L>,
    kind: Seq<char>,
    d: ModelData,
    trees: Seq<T>,
    preds: Seq<Real>,
) -> Val {
    let names = texts(d.names@);
    Val::Instance(
        "rf"@,
        seq![
            ("predictions"@, nums_val(preds)),
            ("importance"@, named_nums(importance(fpu, all_nodes(k, trees), d.x.ncol as nat), names)),
            ("ntrees"@, num_val(rounded(trees.len()))),
            ("type"@, str_val(kind)),
            ("xnames"@, texts_val(names)),
        ],
    )
}

fn forest_row<F: Fn(FloatOp, Real, Real, Real) -> Real>(
    fpu: &Fpu<F>,
    preds: &Vec<Vec<Real>>,
    classify: bool,
    i: usize,
    Ghost(all): Ghost<Seq<Real>>,
) -> (r: Real)
    requires
        fpu.wf(),
        all.len() == preds@.len(),
        forall|t: int| 0 <= t < preds@.len() ==> i < (#[trigger] preds@[t])@.len() && preds@[t]@[i as int] == all[t],
    ensures
        classify ==> exists|x: i64| #[trigger]
            wins(as_labels(all), x) && r == long_real(x),
        !classify ==> r == fpu.over(total(fpu, all), rounded(all.len())),
{
    let mut own: Vec<Real> = Vec::new();
    let mut labels: Vec<i64> = Vec::new();
    let mut t: usize = 0;
    while t < preds.len()
        invariant
            all.len() == preds@.len(),
            forall|t: int|
                0 <= t < preds@.len() ==> i < (#[trigger] preds@[t])@.len() && preds@[t]@[i as int] == all[t],
            t <= preds.len(),
            own@.len() == t,
            labels@.len() == t,
            forall|j: int| 0 <= j < t ==> #[trigger] own@[j] == all[j],
            forall|j: int| 0 <= j < t ==> #[trigger] labels@[j] == all[j].as_long(),
        decreases preds.len() - t,
    {
        let p: Real = preds[t][i];
        own.push(p);
        labels.push(p.to_i64());
        t += 1;
    }
    proof {
        assert(own@ =~= all);
        assert(labels@ =~= as_labels(all));
    }
    if classify {
        let best: i64 = majority(&labels);
        Real::from_i64(best)
    } else {
        fpu.quot(crate::grid::sum_reals(fpu, own.as_slice()), Real::from_u64(preds.len() as u64))
    }
}

/// A random forest fitted to the data of a call. Number `i` that `draw` gives
/// for a seed is the `i`-th of the random numbers that follow it.
pub fn bi_rf<
    T: Send + Sync,
    F: Fn(FloatOp, Real, Real, Real) -> Real + Sync,
    S: Fn(Real) -> String,
    B: Fn(&Vec<Real>, &Vec<Real>, usize, usize, &Vec<bool>, TreeLimits) -> T + Sync,
    P: Fn(&T, &Vec<Real>, usize, usize) -> Real + Sync,
    L: Fn(&T, usize) -> Vec<Node> + Sync,
    D: Fn(u64, usize) -> Real + Sync,
>(fpu: &Fpu<F>, printer: &Printer<S>, k: &Kit<B, P, L>, draw: &D, seed: u64, a: &[EvalArg], on: Backend) -> (r: Result<
    RVal,
    R2Err,
>)
    requires
        fpu.wf(),
        printer.wf(),
        kit_ready(k),
        draw_ready(draw),
        sized_call(a@),
        short_terms(a@),
        narrow(a@),
        shaped(a@),
    ensures
        match data_fault(a@) {
            Some(e) => failed(r, e),
            None => {
                let kind = text_named(printer, a@, "type"@, "classification"@);
                let l = forest_limits(a@, kind);
                exists|d: ModelData, trees: Seq<T>, preds: Seq<Real>|
                    model_data(a@, d) && #[trigger] forest_of(fpu, k, draw, seed, d, l, trees) && trees.len() == count_named(
                        a@,
                        "ntrees"@,
                        100,
                    ) && #[trigger] forest_predicts(fpu, k, &d.x, trees, l, preds) && r is Ok && r->Ok_0.deep() == rf_report(fpu, k, kind, d, trees, preds)
            },
        },
{
    let d: ModelData = match extract_ml_data(a) {
        Ok(d) => d,
        Err(e) => {
            return Err(e);
        },
    };
    let ntrees: usize = arg_count(a, "ntrees", 100);
    let max_depth: usize = arg_count(a, "max_depth", 10);
    let kind: String = arg_text(printer, a, "type", "classification");
    let classify: bool = !same_text(kind.as_str(), "regression");
    let limits = TreeLimits { max_depth, min_samples: 2, classify };
    let m: usize = d.x.nrow;
    let x: &Matrix = &d.x;
    let y: &Vec<Real> = &d.y;
    let one = |t: usize| -> (o: (T, Vec<Real>))
        requires
            fpu.wf(),
            kit_ready(k),
            draw_ready(draw),
            x.data@.len() == x.nrow * x.ncol,
            y@.len() >= x.nrow,
        ensures
            grown(fpu, k, draw, tree_seed(seed, t as nat) as int, x.nrow as nat, x, y@, limits, o.0),
            o.1@ == predictions(k, &o.0, x.data@, x.nrow),
        {
            let tree: T = grow(fpu, k, draw, seed_of_tree(seed, t), x.nrow, x, y, limits);
            let p: Vec<Real> = predict_rows(k, &tree, &x.data, x.nrow);
            (tree, p)
        };
    let results: Vec<(T, Vec<Real>)> = par_for(on, ntrees, one);
    let ghost all = results@;
    assert forall|t: int| 0 <= t < ntrees implies grown(
        fpu,
        k,
        draw,
        tree_seed(seed, t as nat) as int,
        x.nrow as nat,
        x,
        y@,
        limits,
        (#[trigger] all[t]).0,
    ) && all[t].1@ == predictions(k, &all[t].0, x.data@, x.nrow) by {
        assert(call_ensures(one, (t as usize,), all[t]));
    }
    let (trees, preds) = unzip(results);
    let ghost tv = trees@;
    let mut out: Vec<Real> = Vec::new();
    let mut i: usize = 0;
    while i < m
        invariant
            fpu.wf(),
            m == d.x.nrow,
            i <= m,
            out@.len() == i,
            tv.len() == preds@.len(),
            forall|t: int| 0 <= t < tv.len() ==> (#[trigger] preds@[t])@ == predictions(k, &tv[t], d.x.data@, d.x.nrow),
            forall|j: int| 0 <= j < i ==> forest_says(fpu, k, &d.x, tv, classify, j, #[trigger] out@[j]),
        decreases m - i,
    {
        let ghost own = row_numbers(k, &d.x, tv, i as int);
        let v: Real = forest_row(fpu, &preds, classify, i, Ghost(own));
        proof {
            assert(as_labels(own) =~= row_labels(k, &d.x, tv, i as int));
            assert(forest_says(fpu, k, &d.x, tv, classify, i as int, v));
        }
        out.push(v);
        i += 1;
    }
    let (nodes, _starts) = list_trees(k, &trees);
    let shares: Vec<Real> = importances(fpu, &nodes, d.x.ncol);
    let mut fields: Vec<(String, RVal)> = Vec::new();
    put(&mut fields, "predictions", rnums(&out));
    put(&mut fields, "importance", rnums_named(&shares, &d.names));
    put(&mut fields, "ntrees", rnum(Real::from_u64(ntrees as u64)));
    put(&mut fields, "type", rstr(kind.as_str()));
    put(&mut fields, "xnames", rtexts(&d.names));
    let r: RVal = instance("rf", fields);
    proof {
        let want = rf_report(fpu, k, kind@, d, trees@, out@);
        assert(r.deep()->Instance_1 =~= want->Instance_1);
        assert(limits == forest_limits(a@, kind@));
        assert(forest_of(fpu, k, draw, seed, d, limits, trees@));
        assert(forest_predicts(fpu, k, &d.x, trees@, limits, out@));
    }
    Ok(r)
}

fn unzip<T>(v: Vec<(T, Vec<Real>)>) -> (r: (Vec<T>, Vec<Vec<Real>>))
    ensures
        r.0@.len() == v@.len(),
        r.1@.len() == v@.len(),
        forall|i: int| 0 <= i < v@.len() ==> (#[trigger] v@[i]).0 == r.0@[i] && v@[i].1 == r.1@[i],
        forall|i: int| 0 <= i < v@.len() ==> #[trigger] r.0@[i] == v@[i].0,
        forall|i: int| 0 <= i < v@.len() ==> #[trigger] r.1@[i] == v@[i].1,
{
    let mut rest: Vec<(T, Vec<Real>)> = v;
    let ghost all = rest@;
    let mut left: Vec<T> = Vec::new();
    let mut right: Vec<Vec<Real>> = Vec::new();
    while rest.len() > 0
        invariant
            left@.len() == right@.len(),
            left@.len() + rest@.len() == all.len(),
            rest@ == all.skip(left@.len() as int),
            forall|i: int| 0 <= i < left@.len() ==> #[trigger] left@[i] == all[i].0,
            forall|i: int| 0 <= i < right@.len() ==> #[trigger] right@[i] == all[i].1,
        decreases rest.len(),
    {
        let (t, p) = rest.remove(0);
        left.push(t);
        right.push(p);
        assert(rest@ =~= all.skip(left@.len() as int));
    }
    (left, right)
}

// ── One tree ───────────────────────────────────────────────────────────────

/// 1000
pub const THOUSAND_BITS: u64 = 0x408f_4000_0000_0000;

/// The responses in thousandths, cut to integers.
pub open spec fn thousandths<F: Fn(FloatOp, Real, Real, Real) -> Real>(fpu: &Fpu<F>, y: Seq<Real>) -> Seq<i64> {
    Seq::new(y.len(), |i: int| fpu.times(y[i], num(THOUSAND_BITS)).as_long())
}

/// The kind of tree that a response calls for: regression where it has more
/// than ten distinct values.
pub open spec fn kind_for<F: Fn(FloatOp, Real, Real, Real) -> Real>(fpu: &Fpu<F>, y: Seq<Real>) -> Seq<char> {
    if first_seen(thousandths(fpu, y)).len() > 10 {
        "regression"@
    } else {
        "classification"@
    }
}

proof fn lemma_seen_grows<T>(s: Seq<T>, i: int)
    requires
        0 <= i <= s.len(),
    ensures
        first_seen(s.take(i)).len() <= first_seen(s).len(),
    decreases s.len(),
{
    if i == s.len() {
        assert(s.take(i) =~= s);
    } else {
        assert(s.drop_last().take(i) =~= s.take(i));
        lemma_seen_grows(s.drop_last(), i);
    }
}

fn varied<F: Fn(FloatOp, Real, Real, Real) -> Real>(fpu: &Fpu<F>, y: &Vec<Real>) -> (r: bool)
    requires
        fpu.wf(),
    ensures
        r == (first_seen(thousandths(fpu, y@)).len() > 10),
{
    let ghost s = thousandths(fpu, y@);
    let scale = Real { bits: THOUSAND_BITS };
    let mut seen: Vec<i64> = Vec::new();
    let mut i: usize = 0;
    assert(s.take(0) =~= Seq::<i64>::empty());
    while i < y.len()
        invariant
            fpu.wf(),
            s == thousandths(fpu, y@),
            scale == num(THOUSAND_BITS),
            i <= y.len(),
            seen@ == first_seen(s.take(i as int)),
            seen@.len() <= 10,
        decreases y.len() - i,
    {
        let v: i64 = fpu.prod(y[i], scale).to_i64();
        proof {
            assert(s.take(i + 1).drop_last() =~= s.take(i as int));
            assert(s.take(i + 1).last() == v);
        }
        let mut j: usize = 0;
        while j < seen.len() && seen[j] != v
            invariant
                j <= seen.len(),
                forall|k: int| 0 <= k < j ==> #[trigger] seen@[k] != v,
            decreases seen.len() - j,
        {
            j += 1;
        }
        if j < seen.len() {
            assert(seen@.contains(seen@[j as int]));
        } else {
            assert(!seen@.contains(v));
            seen.push(v);
        }
        i += 1;
        if seen.len() > 10 {
            proof {
                lemma_seen_grows(s, i as int);
            }
            return true;
        }
    }
    assert(s.take(y@.len() as int) =~= s);
    false
}

/// The kind of tree that a call asks for.
pub open spec fn kind_wanted<F: Fn(FloatOp, Real, Real, Real) -> Real, S: Fn(Real) -> String>(
    fpu: &Fpu<F>,
    printer: &Printer<S>,
    a: Seq<EvalArg>,
    y: Seq<Real>,
) -> Seq<char> {
    text_named(printer, a, "type"@, kind_for(fpu, y))
}

/// How the tree of a call is grown.
pub open spec fn tree_limits(a: Seq<EvalArg>, kind: Seq<char>) -> TreeLimits {
    TreeLimits {
        max_depth: count_named(a, "max_depth"@, 5),
        min_samples: count_named(a, "min_samples"@, 5),
        classify: kind != "regression"@,
    }
}

/// The report of one tree.
pub open spec fn rpart_report<
    T,
    B,
    P: Fn(&T, &Vec<Real>, usize, usize) -> Real,
    L: Fn(&T, usize) -> Vec<Node>,
>(k: &Kit<B, P, L>, kind: Seq<char>, max_depth: usize, d: ModelData, tree: T) -> Val {
    Val::Instance(
        "rpart"@,
        seq![
            ("predictions"@, nums_val(predictions(k, &tree, d.x.data@, d.x.nrow))),
            ("type"@, str_val(kind)),
            ("max_depth"@, num_val(rounded(max_depth as nat))),
        ] + listed_fields(listing(k, &tree, 0)),
    )
}

/// All of `m` rows.
pub open spec fn every_row(m: nat) -> Seq<bool> {
    Seq::new(m, |i: int| true)
}

/// The model data in a call have a number for each cell.
pub open spec fn filled(a: Seq<EvalArg>) -> bool {
    forall|d: ModelData| #[trigger] model_data(a, d) ==> d.x.data@.len() == d.x.nrow * d.x.ncol
}

/// `r` reports a tree grown from all rows.
pub open spec fn tree_reported<
    T,
    F: Fn(FloatOp, Real, Real, Real) -> Real,
    S: Fn(Real) -> String,
    B: Fn(&Vec<Real>, &Vec<Real>, usize, usize, &Vec<bool>, TreeLimits) -> T,
    P: Fn(&T, &Vec<Real>, usize, usize) -> Real,
    L: Fn(&T, usize) -> Vec<Node>,
>(
    fpu: &Fpu<F>,
    printer: &Printer<S>,
    k: &Kit<B, P, L>,
    a: Seq<EvalArg>,
    d: ModelData,
    r: Result<RVal, R2Err>,
) -> bool {
    let kind = kind_wanted(fpu, printer, a, d.y@);
    let l = tree_limits(a, kind);
    exists|tree: T| #[trigger]
        built(k, &d.x, d.y@, every_row(d.x.nrow as nat), l, tree) && r is Ok && r->Ok_0.deep()
            == rpart_report(k, kind, l.max_depth, d, tree)
}

/// A decision tree fitted to the data of a call.
pub fn bi_rpart<
    T,
    F: Fn(FloatOp, Real, Real, Real) -> Real,
    S: Fn(Real) -> String,
    B: Fn(&Vec<Real>, &Vec<Real>, usize, usize, &Vec<bool>, TreeLimits) -> T,
    P: Fn(&T, &Vec<Real>, usize, usize) -> Real,
    L: Fn(&T, usize) -> Vec<Node>,
>(fpu: &Fpu<F>, printer: &Printer<S>, k: &Kit<B, P, L>, a: &[EvalArg]) -> (r: Result<RVal, R2Err>)
    requires
        fpu.wf(),
        printer.wf(),
        kit_ready(k),
        sized_call(a@),
        short_terms(a@),
        narrow(a@),
        filled(a@),
    ensures
        match data_fault(a@) {
            Some(e) => failed(r, e),
            None => exists|d: ModelData| #[trigger]
                model_data(a@, d) && if d.y@.len() != d.x.nrow {
                    failed(r, (ErrKind::Runtime, "rpart: y length must match x rows"@))
                } else {
                    tree_reported(fpu, printer, k, a@, d, r)
                },
        },
{
    let d: ModelData = match extract_ml_data(a) {
        Ok(d) => d,
        Err(e) => {
            return Err(e);
        },
    };
    assert(model_data(a@, d));
    let max_depth: usize = arg_count(a, "max_depth", 5);
    let min_samples: usize = arg_count(a, "min_samples", 5);
    let m: usize = d.x.nrow;
    if d.y.len() != m {
        return Err(fail(ErrKind::Runtime, "rpart: y length must match x rows"));
    }
    let auto: &str = if varied(fpu, &d.y) { "regression" } else { "classification" };
    let kind: String = arg_text(printer, a, "type", auto);
    let classify: bool = !same_text(kind.as_str(), "regression");
    let mut rows: Vec<bool> = Vec::new();
    let mut i: usize = 0;
    while i < m
        invariant
            i <= m,
            rows@ == every_row(i as nat),
        decreases m - i,
    {
        rows.push(true);
        i += 1;
        assert(rows@ =~= every_row(i as nat));
    }
    let limits = TreeLimits { max_depth, min_samples, classify };
    let tree: T = (k.build)(&d.x.data, &d.y, d.x.nrow, d.x.ncol, &rows, limits);
    proof {
        let v: &Vec<Real> = &d.y;
        let w: &Vec<bool> = &rows;
        assert(call_ensures(k.build, (&d.x.data, v, d.x.nrow, d.x.ncol, w, limits), tree));
        assert(built(k, &d.x, d.y@, every_row(d.x.nrow as nat), limits, tree));
    }
    let preds: Vec<Real> = predict_rows(k, &tree, &d.x.data, m);
    let ghost t0 = tree;
    let mut trees: Vec<T> = Vec::new();
    trees.push(tree);
    let (nodes, _starts) = list_trees(k, &trees);
    proof {
        assert(trees@.drop_last() =~= Seq::<T>::empty());
        assert(all_nodes(k, trees@.drop_last()) =~= Seq::<Node>::empty());
        assert(nodes@ =~= listing(k, &t0, 0));
    }
    let mut fields: Vec<(String, RVal)> = Vec::new();
    put(&mut fields, "predictions", rnums(&preds));
    put(&mut fields, "type", rstr(kind.as_str()));
    put(&mut fields, "max_depth", rnum(Real::from_u64(max_depth as u64)));
    put_nodes(&mut fields, &nodes);
    let r: RVal = instance("rpart", fields);
    proof {
        let want = rpart_report(k, kind@, max_depth, d, t0);
        assert(r.deep()->Instance_1 =~= want->Instance_1);
        assert(limits == tree_limits(a@, kind@));
    }
    Ok(r)
}

} // verus!
