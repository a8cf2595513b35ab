use ardon_r2::double::{FloatOp, Fpu, Real};
use ardon_r2::kernel::Backend;
use ardon_r2::linalg::LinalgError;
use ardon_r2::ml_cv::{bi_cv, mse_of, rval_to_string};
use ardon_r2::ml_data::extract_ml_data;
use ardon_r2::ml_forest::{bi_rf, bi_rpart, majority};
use ardon_r2::ml_gbm::bi_gbm;
use ardon_r2::ml_kmeans::bi_kmeans;
use ardon_r2::ml_knn::{bi_knn, bi_naive_bayes, class_counts};
use ardon_r2::ml_prcomp::bi_prcomp;
use ardon_r2::ml_tree::{Kit, Node, TreeLimits};
use ardon_r2::stats_design::Printer;
use ardon_r2::value::{Attrs, DataFrame, EvalArg, Matrix, RVal, TypeInstance};

fn dbl(x: f64) -> Real {
    Real { bits: x.to_bits() }
}

fn float(x: Real) -> f64 {
    f64::from_bits(x.bits)
}

fn eval(op: FloatOp, a: Real, b: Real, c: Real) -> Real {
    let (x, y, z) = (float(a), float(b), float(c));
    dbl(match op {
        FloatOp::Plus => x + y,
        FloatOp::Minus => x - y,
        FloatOp::Times => x * y,
        FloatOp::Over => x / y,
        FloatOp::Power => x.powf(y),
        FloatOp::Modulo => x.rem_euclid(y),
        FloatOp::MulAdd => x.mul_add(y, z),
        FloatOp::Sqrt => x.sqrt(),
        FloatOp::Exp => x.exp(),
        FloatOp::Ln => x.ln(),
        FloatOp::Log2 => x.log2(),
        FloatOp::Log10 => x.log10(),
        FloatOp::Sin => x.sin(),
        FloatOp::Cos => x.cos(),
        FloatOp::Tan => x.tan(),
        FloatOp::Asin => x.asin(),
        FloatOp::Acos => x.acos(),
        FloatOp::Atan => x.atan(),
        FloatOp::Sinh => x.sinh(),
        FloatOp::Cosh => x.cosh(),
        FloatOp::Tanh => x.tanh(),
        FloatOp::Trunc => x.trunc(),
        FloatOp::Expm1 => x.exp_m1(),
        FloatOp::Log1p => x.ln_1p(),
    })
}

fn nums(v: &[f64]) -> RVal {
    RVal::Numeric(v.iter().map(|x| Some(dbl(*x))).collect(), Attrs { names: None })
}

fn strs(v: &[&str]) -> RVal {
    RVal::Character(v.iter().map(|x| Some(x.to_string())).collect(), Attrs { names: None })
}

fn flag(b: bool) -> RVal {
    RVal::Logical(vec![Some(b)], Attrs { names: None })
}

fn evarg(v: RVal) -> EvalArg {
    EvalArg { name: None, value: v }
}

fn named(n: &str, v: RVal) -> EvalArg {
    EvalArg { name: Some(n.to_string()), value: v }
}

fn fpu() -> Fpu<fn(FloatOp, Real, Real, Real) -> Real> {
    Fpu { eval: eval }
}

fn cholesky(n: usize, s: &[Real]) -> Result<Vec<Real>, LinalgError> {
    let a: Vec<f64> = s.iter().map(|x| float(*x)).collect();
    let mut l = vec![0.0; n * n];
    for j in 0..n {
        let mut d = a[j * n + j];
        for k in 0..j {
            d -= l[k * n + j] * l[k * n + j];
        }
        if d <= 0.0 {
            return Err(LinalgError::Singular);
        }
        l[j * n + j] = d.sqrt();
        for i in j + 1..n {
            let mut x = a[j * n + i];
            for k in 0..j {
                x -= l[k * n + i] * l[k * n + j];
            }
            l[j * n + i] = x / l[j * n + j];
        }
    }
    Ok(l.into_iter().map(dbl).collect())
}

fn show(x: Real) -> String {
    format!("{}", float(x))
}

fn printer() -> Printer<fn(Real) -> String> {
    Printer { show: show }
}

fn matrix(columns: &[&[f64]]) -> Matrix {
    Matrix {
        data: columns.iter().flat_map(|c| c.iter().map(|x| dbl(*x))).collect(),
        nrow: columns[0].len(),
        ncol: columns.len(),
        col_names: None,
    }
}

/// One split at the best threshold of the first column, or a mean.
fn build(x: &Vec<Real>, y: &Vec<Real>, m: usize, _n: usize, rows: &Vec<bool>, l: TreeLimits) -> Vec<Node> {
    let leaf = |v: f64| Node { feature: 0, threshold: dbl(0.0), value: dbl(v), leaf: true, left: 0, right: 0 };
    let used: Vec<usize> = (0..m).filter(|i| rows[*i]).collect();
    let mean = |r: &[usize]| {
        if r.is_empty() {
            0.0
        } else {
            r.iter().map(|i| float(y[*i])).sum::<f64>() / r.len() as f64
        }
    };
    if l.max_depth == 0 || used.len() < 2 {
        return vec![leaf(mean(&used))];
    }
    let mut xs: Vec<f64> = used.iter().map(|i| float(x[*i])).collect();
    xs.sort_by(|a, b| a.partial_cmp(b).unwrap());
    let mut best = (f64::INFINITY, 0.0);
    for w in xs.windows(2) {
        let t = (w[0] + w[1]) / 2.0;
        let (a, b): (Vec<usize>, Vec<usize>) = used.iter().partition(|i| float(x[**i]) <= t);
        let e: f64 = [&a, &b]
            .iter()
            .map(|g| g.iter().map(|i| (float(y[*i]) - mean(g)).powi(2)).sum::<f64>())
            .sum();
        if e < best.0 {
            best = (e, t);
        }
    }
    let (a, b): (Vec<usize>, Vec<usize>) = used.iter().partition(|i| float(x[**i]) <= best.1);
    vec![
        Node { feature: 0, threshold: dbl(best.1), value: dbl(mean(&used)), leaf: false, left: 1, right: 2 },
        leaf(mean(&a)),
        leaf(mean(&b)),
    ]
}

fn predict(t: &Vec<Node>, x: &Vec<Real>, _m: usize, i: usize) -> Real {
    let mut at = 0;
    while !t[at].leaf {
        at = if float(x[i]) <= float(t[at].threshold) { t[at].left } else { t[at].right };
    }
    t[at].value
}

fn list(t: &Vec<Node>, base: usize) -> Vec<Node> {
    t.iter()
        .map(|n| Node {
            feature: n.feature,
            threshold: n.threshold,
            value: n.value,
            leaf: n.leaf,
            left: n.left + base,
            right: n.right + base,
        })
        .collect()
}

fn draw(t: u64, i: usize) -> Real {
    let h = (t.wrapping_mul(0x9e37_79b9_7f4a_7c15) ^ (i as u64).wrapping_mul(0xbf58_476d_1ce4_e5b9)).wrapping_mul(0x94d0_49bb_1331_11eb);
    dbl((h >> 11) as f64 / (1u64 << 53) as f64)
}

type Builder = fn(&Vec<Real>, &Vec<Real>, usize, usize, &Vec<bool>, TreeLimits) -> Vec<Node>;
type Predictor = fn(&Vec<Node>, &Vec<Real>, usize, usize) -> Real;
type Lister = fn(&Vec<Node>, usize) -> Vec<Node>;

fn kit() -> Kit<Builder, Predictor, Lister> {
    Kit { build: build, predict: predict, list: list }
}

fn model(v: RVal) -> TypeInstance {
    match v {
        RVal::TypeInstance(t) => t,
        _ => panic!("a model expected"),
    }
}

fn field<'a>(t: &'a TypeInstance, name: &str) -> &'a RVal {
    &t.fields.iter().find(|(n, _)| n == name).unwrap_or_else(|| panic!("{}", name)).1
}

fn list_of(v: &RVal) -> Vec<f64> {
    match v {
        RVal::Numeric(v, _) => v.iter().map(|x| float(x.unwrap())).collect(),
        RVal::Integer(v, _) => v.iter().map(|x| x.unwrap() as f64).collect(),
        _ => panic!("numbers expected"),
    }
}

fn steps() -> Vec<EvalArg> {
    vec![
        evarg(RVal::Matrix(matrix(&[&[1.0, 2.0, 3.0, 4.0, 11.0, 12.0, 13.0, 14.0]]))),
        evarg(nums(&[0.0, 0.0, 0.0, 0.0, 1.0, 1.0, 1.0, 1.0])),
    ]
}

#[test]
fn clusters_of_two_heaps() {
    let x = matrix(&[&[1.0, 1.2, 0.8, 9.0, 9.2, 8.8], &[1.0, 0.9, 1.1, 9.0, 9.1, 8.9]]);
    for on in [Backend::Serial, Backend::Rayon] {
        let r = bi_kmeans(&fpu(), &[evarg(RVal::Matrix(x.dup())), evarg(nums(&[2.0]))], on).unwrap();
        let t = model(r);
        let c = list_of(field(&t, "cluster"));
        assert!(c[0] == c[1] && c[1] == c[2] && c[3] == c[4] && c[4] == c[5]);
        assert_eq!(list_of(field(&t, "size")).iter().sum::<f64>(), 6.0);
        let within = list_of(field(&t, "withinss")).iter().sum::<f64>();
        assert!((within - list_of(field(&t, "tot.withinss"))[0]).abs() < 1e-9);
        let around = list_of(field(&t, "totss"))[0] - list_of(field(&t, "betweenss"))[0];
        assert!((within - around).abs() < 1e-9);
    }
}

#[test]
fn centres_have_a_row_for_each_cluster() {
    let x = matrix(&[&[1.0, 3.0, 11.0, 13.0], &[20.0, 22.0, 50.0, 54.0], &[5.0, 5.0, 7.0, 8.0]]);
    let t = model(bi_kmeans(&fpu(), &[evarg(RVal::Matrix(x)), evarg(nums(&[2.0]))], Backend::Serial).unwrap());
    assert_eq!(list_of(field(&t, "cluster")), vec![1.0, 1.0, 2.0, 2.0]);
    match field(&t, "centers") {
        RVal::Matrix(c) => {
            assert_eq!((c.nrow, c.ncol), (2, 3));
            let row = |i: usize| (0..3).map(|j| float(c.get(i, j))).collect::<Vec<f64>>();
            assert_eq!(row(0), vec![2.0, 21.0, 5.0]);
            assert_eq!(row(1), vec![12.0, 52.0, 7.5]);
        },
        _ => panic!(),
    }
}

#[test]
fn nearest_neighbours_vote() {
    let train = matrix(&[&[0.0, 0.1, 0.2, 5.0, 5.1, 5.2]]);
    let test = matrix(&[&[0.05, 5.05]]);
    let r = bi_knn(
        &fpu(),
        &[evarg(RVal::Matrix(train)), evarg(RVal::Matrix(test)), evarg(nums(&[1.0, 1.0, 1.0, 2.0, 2.0, 2.0]))],
    )
    .unwrap();
    assert_eq!(list_of(&r), vec![1.0, 2.0]);
    assert_eq!(bi_knn(&fpu(), &[]).unwrap_err().msg, "knn: train must be matrix");
}

#[test]
fn class_means_and_priors() {
    let x = matrix(&[&[1.0, 3.0, 10.0, 14.0]]);
    let counts = |l: &[f64]| class_counts(&fpu(), &[evarg(RVal::Matrix(x.dup())), evarg(nums(l))]);
    assert_eq!(counts(&[0.0, 0.0, 1.0, 0.0]), Some(vec![3, 1]));
    assert_eq!(counts(&[0.0, 1e-12, 1.0, 1.0]), Some(vec![2, 0, 2]));
    assert_eq!(counts(&[0.0]), None);
    let t = model(bi_naive_bayes(&fpu(), &[evarg(RVal::Matrix(x)), evarg(nums(&[0.0, 0.0, 1.0, 1.0]))]).unwrap());
    assert_eq!(list_of(field(&t, "classes")), vec![0.0, 1.0]);
    assert_eq!(list_of(field(&t, "priors")), vec![0.5, 0.5]);
    match field(&t, "means") {
        RVal::Matrix(m) => assert_eq!((float(m.data[0]), float(m.data[1])), (2.0, 12.0)),
        _ => panic!(),
    }
}

#[test]
fn one_tree() {
    let t = model(bi_rpart(&fpu(), &printer(), &kit(), &steps()).unwrap());
    assert_eq!(list_of(field(&t, "predictions")), vec![0.0, 0.0, 0.0, 0.0, 1.0, 1.0, 1.0, 1.0]);
    assert_eq!(list_of(field(&t, "_tree_left")), vec![1.0, 0.0, 0.0]);
}

#[test]
fn many_trees() {
    for on in [Backend::Serial, Backend::Rayon] {
        let mut a = steps();
        a.push(named("ntrees", nums(&[25.0])));
        let t = model(bi_rf(&fpu(), &printer(), &kit(), &draw, 7, &a, on).unwrap());
        assert_eq!(list_of(field(&t, "ntrees")), vec![25.0]);
        assert_eq!(list_of(field(&t, "predictions")).len(), 8);
    }
    assert_eq!(majority(&vec![3, 1, 3]), 3);
}

#[test]
fn boosting_lowers_the_loss() {
    for on in [Backend::Serial, Backend::Rayon] {
        let mut a = steps();
        a.push(named("ntrees", nums(&[10.0])));
        let t = model(bi_gbm(&fpu(), &printer(), &kit(), &draw, &a, on).unwrap());
        let losses = list_of(field(&t, "train.loss"));
        assert_eq!(losses.len(), 10);
        assert!(losses[9] <= losses[0]);
    }
}

#[test]
fn folds_are_scored() {
    let mut a = steps();
    a.push(named("k", nums(&[4.0])));
    a.push(named("model", strs(&["lm"])));
    let t = model(bi_cv(&fpu(), &printer(), &cholesky, &kit(), &draw, &a, Backend::Serial).unwrap());
    let mse = list_of(field(&t, "mse"));
    assert_eq!(list_of(field(&t, "k")), vec![4.0]);
    assert_eq!(mse.len(), 4);
    let mean = mse.iter().sum::<f64>() / 4.0;
    assert!((mean - list_of(field(&t, "mean.mse"))[0]).abs() < 1e-12);
    let e = mse_of(&fpu(), &vec![dbl(1.0), dbl(3.0)], &vec![dbl(0.0), dbl(1.0)]);
    assert_eq!(float(e), 2.5);
}

#[test]
fn components_of_a_line() {
    let x = matrix(&[&[1.0, 2.0, 3.0, 4.0], &[2.0, 4.0, 6.0, 8.0]]);
    let solve = |n: usize, s: &[Real]| -> Result<(Vec<Real>, Vec<Real>), LinalgError> {
        assert_eq!(n, 2);
        let (a, b, c) = (float(s[0]), float(s[1]), float(s[3]));
        let mid = (a + c) / 2.0;
        let d = (((a - c) / 2.0).powi(2) + b * b).sqrt();
        let t = 0.5 * (2.0 * b).atan2(a - c);
        Ok((
            vec![dbl(mid + d), dbl(mid - d)],
            vec![dbl(t.cos()), dbl(t.sin()), dbl(-t.sin()), dbl(t.cos())],
        ))
    };
    let t = model(bi_prcomp(&fpu(), &solve, &[evarg(RVal::Matrix(x))]).unwrap());
    let prop = list_of(field(&t, "prop.variance"));
    assert!((prop[0] - 1.0).abs() < 1e-9 && prop[1].abs() < 1e-9);
    assert_eq!(list_of(field(&t, "center")), vec![2.5, 5.0]);
}

#[test]
fn formulas_pick_columns() {
    let df = DataFrame {
        columns: vec![
            ("y".to_string(), nums(&[1.0, 2.0])),
            ("a".to_string(), nums(&[3.0, 4.0])),
            ("b".to_string(), nums(&[5.0, 6.0])),
        ],
        row_names: None,
    };
    let formula = RVal::List(vec![
        (Some("~class".to_string()), strs(&["formula"])),
        (Some("~lhs".to_string()), RVal::List(vec![(Some("y".to_string()), nums(&[1.0, 2.0]))])),
        (Some("~rhs".to_string()), RVal::List(vec![(Some("a".to_string()), nums(&[3.0, 4.0]))])),
    ]);
    let d = extract_ml_data(&[evarg(formula), named("data", RVal::DataFrame(df))]).unwrap();
    assert_eq!(d.y.iter().map(|x| float(*x)).collect::<Vec<f64>>(), vec![1.0, 2.0]);
    assert_eq!(d.names, vec!["a"]);
    assert_eq!(d.x.data.iter().map(|x| float(*x)).collect::<Vec<f64>>(), vec![3.0, 4.0]);
    assert!(extract_ml_data(&[]).is_err());
}

#[test]
fn values_as_text() {
    assert_eq!(rval_to_string(&printer(), &strs(&["lm"])), "lm");
    assert_eq!(rval_to_string(&printer(), &flag(true)), "<logical>");
    assert_eq!(rval_to_string(&printer(), &nums(&[2.5])), "2.5");
}

#[test]
fn nothing_has_no_components() {
    let none = |n: usize, _: &[Real]| -> Result<(Vec<Real>, Vec<Real>), LinalgError> {
        assert_eq!(n, 0);
        Ok((vec![], vec![]))
    };
    let x = Matrix { data: vec![], nrow: 0, ncol: 0, col_names: None };
    let t = model(bi_prcomp(&fpu(), &none, &[evarg(RVal::Matrix(x))]).unwrap());
    assert!(list_of(field(&t, "sdev")).is_empty());
}

#[test]
fn bad_numbers_of_clusters_are_refused_before_the_rounds() {
    let none = || named("iter.max", nums(&[0.0]));
    let x = || evarg(RVal::Matrix(matrix(&[&[1.0, 2.0, 3.0]])));
    let refusal = |a: Vec<EvalArg>| bi_kmeans(&fpu(), &a, Backend::Serial).unwrap_err().msg;
    assert_eq!(refusal(vec![evarg(nums(&[1.0])), none()]), "kmeans() needs a matrix or data.frame");
    assert_eq!(refusal(vec![x(), evarg(nums(&[4.0])), none()]), "kmeans: k must be between 1 and nrow");
    assert_eq!(refusal(vec![x(), evarg(nums(&[0.0])), none()]), "kmeans: k must be between 1 and nrow");
}

#[test]
fn neighbours_of_no_rows() {
    let wide = || evarg(RVal::Matrix(matrix(&[&[1.0, 2.0], &[3.0, 4.0]])));
    let thin = || evarg(RVal::Matrix(matrix(&[&[1.0]])));
    let r = bi_knn(&fpu(), &[wide(), thin(), evarg(nums(&[1.0]))]);
    assert_eq!(r.unwrap_err().msg, "knn: labels length must match train rows");
    let empty = Matrix { data: vec![], nrow: 0, ncol: 1, col_names: None };
    let r = bi_knn(&fpu(), &[wide(), evarg(RVal::Matrix(empty)), evarg(nums(&[1.0, 2.0]))]).unwrap();
    assert!(list_of(&r).is_empty());
}

#[test]
fn switches_are_not_read_of_what_is_no_table() {
    let none = |_: usize, _: &[Real]| -> Result<(Vec<Real>, Vec<Real>), LinalgError> { Ok((vec![], vec![])) };
    let off = named("center", RVal::Logical(vec![], Attrs { names: None }));
    let r = bi_prcomp(&fpu(), &none, &[evarg(nums(&[1.0])), off]);
    assert_eq!(r.unwrap_err().msg, "prcomp() needs a matrix or data.frame");
}
