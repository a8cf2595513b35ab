use ardon_r2::device::{Figures, Style};
use ardon_r2::double::{FloatOp, Fpu, Real};
use ardon_r2::ml_report::{
    boost_report, classes_report, clusters_report, count_hits, folds_report, forest_report, neighbours_report, tree_report,
};
use ardon_r2::plots::{HistLine, hist_report};
use ardon_r2::stats_design::Printer;
use ardon_r2::stats_print::{Outcome, manova_report, one_sample_report, paired_report, two_sample_report};
use ardon_r2::stats_report::{Approx, Statistics};

fn dbl(x: f64) -> Real {
    Real { bits: x.to_bits() }
}

fn float(x: Real) -> f64 {
    f64::from_bits(x.bits)
}

fn eval(op: FloatOp, a: Real, b: Real, c: Real) -> Real {
    let (x, y, z) = (float(a), float(b), float(c));
    dbl(match op {
        FloatOp::Plus => x + y,
        FloatOp::Minus => x - y,
        FloatOp::Times => x * y,
        FloatOp::Over => x / y,
        FloatOp::Power => x.powf(y),
        FloatOp::Modulo => x.rem_euclid(y),
        FloatOp::MulAdd => x.mul_add(y, z),
        FloatOp::Sqrt => x.sqrt(),
        FloatOp::Exp => x.exp(),
        FloatOp::Ln => x.ln(),
        FloatOp::Log2 => x.log2(),
        FloatOp::Log10 => x.log10(),
        FloatOp::Sin => x.sin(),
        FloatOp::Cos => x.cos(),
        FloatOp::Tan => x.tan(),
        FloatOp::Asin => x.asin(),
        FloatOp::Acos => x.acos(),
        FloatOp::Atan => x.atan(),
        FloatOp::Sinh => x.sinh(),
        FloatOp::Cosh => x.cosh(),
        FloatOp::Tanh => x.tanh(),
        FloatOp::Trunc => x.trunc(),
        FloatOp::Expm1 => x.exp_m1(),
        FloatOp::Log1p => x.ln_1p(),
    })
}

fn show(x: Real) -> String {
    format!("{}", float(x))
}

fn stars(x: Real) -> String {
    if float(x) < 0.05 { "*".to_string() } else { "".to_string() }
}

fn figure(style: Style, x: Real) -> String {
    match style {
        Style::Shortest => format!("{}", float(x)),
        Style::Places(n) => format!("{:.*}", n as usize, float(x)),
    }
}

fn fpu() -> Fpu<fn(FloatOp, Real, Real, Real) -> Real> {
    Fpu { eval: eval }
}

fn printer() -> Printer<fn(Real) -> String> {
    Printer { show: show }
}

fn figures() -> Figures<fn(Style, Real) -> String> {
    Figures { show: figure }
}

fn v(x: &[f64]) -> Vec<Real> {
    x.iter().map(|t| dbl(*t)).collect()
}

fn names(x: &[&str]) -> Vec<String> {
    x.iter().map(|s| s.to_string()).collect()
}

fn outcome() -> Outcome {
    Outcome { t2: dbl(12.5), f: dbl(4.0), df1: dbl(2.0), df2: dbl(7.0), p: dbl(0.01) }
}

#[test]
fn hits_compare_whole_classes() {
    assert_eq!(count_hits(&v(&[1.0, 2.9, 3.0]), &v(&[1.2, 2.0, 4.0])), 2);
}

#[test]
fn a_tree_is_reported() {
    let r = tree_report(&fpu(), &printer(), "classification", 5, "leaf\n", true, &v(&[1.0, 0.0]), &v(&[1.0, 1.0]));
    assert_eq!(r, "\nDecision tree (classification, depth=5):\nleaf\n\nTraining accuracy: 1/2 (50%)\n");
    let r = tree_report(&fpu(), &printer(), "regression", 5, "", false, &v(&[1.0, 3.0]), &v(&[0.0, 1.0]));
    assert_eq!(r, "\nDecision tree (regression, depth=5):\n\nTraining MSE: 2.5\n");
}

#[test]
fn a_forest_is_reported() {
    let r = forest_report(
        &fpu(),
        &printer(),
        100,
        10,
        true,
        &v(&[1.0]),
        &v(&[1.0]),
        &v(&[0.25, 0.75, 0.0]),
        &names(&["a", "b"]),
    );
    assert_eq!(
        r,
        "Random Forest: 100 trees, max_depth=10, features=3\nTraining accuracy: 1/1 (100%)\n\nFeature importance:\n  b: 75%\n  a: 25%\n"
    );
    let r = forest_report(&fpu(), &printer(), 1, 1, false, &v(&[1.0]), &v(&[1.0]), &v(&[0.0]), &names(&[]));
    assert_eq!(r, "Random Forest: 1 trees, max_depth=1, features=1\nTraining MSE: 0\n");
}

#[test]
fn boosting_is_reported() {
    let losses = v(&[4.0, 2.0, 1.0]);
    let r = boost_report(
        &fpu(),
        &printer(),
        &figures(),
        dbl(0.1),
        3,
        "squared",
        &losses,
        false,
        &v(&[1.0, 3.0]),
        &v(&[1.0, 5.0]),
        &v(&[1.0]),
        &names(&[]),
    );
    assert_eq!(
        r,
        "Gradient Boosted Trees: 3 trees, lr=0.1, depth=3, loss=squared\n\r  Iter 3/3: loss = 1\nTraining MSE: 2,  R\u{b2}: 0.5\n\nFeature importance:\n  ?: 100%\n"
    );
}

#[test]
fn clusters_are_reported() {
    let r = clusters_report(
        &fpu(),
        &printer(),
        &vec![3, 2],
        &v(&[1.0, 8.5, 2.0, 9.0]),
        &names(&["x", "y"]),
        2,
        &v(&[0.5, 0.25]),
        dbl(3.0),
        dbl(4.0),
    );
    assert_eq!(
        r,
        "K-means clustering with 2 clusters of sizes 3, 2\n\nCluster means:\n                x           y\n  [1]           1           2\n  [2]         8.5           9\n\nWithin cluster sum of squares by cluster:\n  0.5  0.25\n(between_SS / total_SS = 75%)\n"
    );
}

#[test]
fn folds_neighbours_and_classes_are_reported() {
    assert_eq!(
        folds_report(&printer(), "lm", &v(&[1.0, 2.0]), dbl(1.5), dbl(0.7)),
        "2-fold cross-validation (model: lm)\n  Fold 1: MSE = 1\n  Fold 2: MSE = 2\n\nAverage MSE: 1.5 (\u{b1}0.7)\n"
    );
    assert_eq!(neighbours_report(10, 3), "KNN: classified 10 points using k=3\n");
    assert_eq!(
        classes_report(&printer(), &figures(), &v(&[0.0, 1.0]), &v(&[0.25, 0.75]), &vec![1, 3], 2),
        "Naive Bayes classifier: 2 classes, 2 features\n  Class 0: prior=0.25, n=1\n  Class 1: prior=0.75, n=3\n"
    );
}

#[test]
fn hotelling_tests_are_reported() {
    assert_eq!(
        one_sample_report(&printer(), &printer(), 9, 2, outcome(), &v(&[1.0, 2.5])),
        "\n  Hotelling's one-sample T\u{b2} test\n\ndata:  n = 9, p = 2\nT\u{b2} = 12.5, F = 4, df1 = 2, df2 = 7, p-value = 0.01\nalternative hypothesis: true mean vector is not equal to mu\nsample means: 1, 2.5\n"
    );
    let r = two_sample_report(&printer(), &printer(), 5, 6, 2, outcome());
    assert!(r.contains("data:  n1 = 5, n2 = 6, p = 2\n"));
    let r = paired_report(&printer(), &printer(), 5, 2, outcome(), &v(&[3.0]));
    assert!(r.ends_with("mean difference vector: 3\n"));
}

#[test]
fn variance_analyses_are_reported() {
    let a = |p: f64| Approx { f: dbl(2.5), df1: dbl(4.0), df2: dbl(-1.0), p: dbl(p) };
    let t = |p: f64, q: f64| Statistics {
        pillai: dbl(0.5),
        wilks: dbl(0.25),
        trace: dbl(2.0),
        roy: dbl(1.5),
        f_pillai: a(p),
        f_wilks: a(q),
        f_trace: a(q),
        f_roy: a(q),
    };
    let marks: Printer<fn(Real) -> String> = Printer { show: stars };
    let r = manova_report(&printer(), &printer(), &marks, &t(0.01, 0.01), 9, 3, 2, dbl(6.0), &v(&[1.5, 0.5]), "Pillai's trace");
    assert!(r.contains("Pillai's trace            0.5        2.5     4     -1       0.01 *\n"));
    assert!(r.contains("n = 9, groups = 3, p = 2, error df = 6\neigenvalues of E\u{207b}\u{b9}H: 1.5, 0.5\n"));
    assert!(r.ends_with("  Suggested primary statistic: Pillai's trace.\n  All four statistics agree: significant multivariate effect.\n"));
    let r = manova_report(&printer(), &printer(), &marks, &t(0.2, 0.01), 9, 3, 2, dbl(6.0), &v(&[]), "x");
    assert!(r.contains("CAUTION"));
}

#[test]
fn a_histogram_in_characters() {
    let bins = vec![HistLine { lo: dbl(1.0), hi: dbl(2.5), count: 12, bar: 3 }];
    assert_eq!(hist_report(&figures(), "Histogram", &bins), "Histogram\n    1.0-    2.5 |   12 ###\n");
}
