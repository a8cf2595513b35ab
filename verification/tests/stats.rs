use ardon_r2::double::{FloatOp, Fpu, Real};
use ardon_r2::linalg::LinalgError;
use ardon_r2::linalg_solve::Lu;
use ardon_r2::stats_design::Printer;
use ardon_r2::stats_dist::{bi_dnorm, bi_pnorm, bi_qnorm, erf, phi, qnorm_approx};
use ardon_r2::stats_hotelling::{Flavor, bi_hotelling_test, hotelling_flavor};
use ardon_r2::stats_matrix::{Rows, col_means, f_to_pvalue, sample_cov};
use ardon_r2::stats_report::{Verdict, bi_manova, manova_verdict};
use ardon_r2::grouping::group_rows;
use ardon_r2::value::{Attrs, EvalArg, Matrix, RVal, TypeInstance};

fn dbl(x: f64) -> Real {
    Real { bits: x.to_bits() }
}

fn float(x: Real) -> f64 {
    f64::from_bits(x.bits)
}

fn eval(op: FloatOp, a: Real, b: Real, c: Real) -> Real {
    let (x, y, z) = (float(a), float(b), float(c));
    dbl(match op {
        FloatOp::Plus => x + y,
        FloatOp::Minus => x - y,
        FloatOp::Times => x * y,
        FloatOp::Over => x / y,
        FloatOp::Power => x.powf(y),
        FloatOp::Modulo => x.rem_euclid(y),
        FloatOp::MulAdd => x.mul_add(y, z),
        FloatOp::Sqrt => x.sqrt(),
        FloatOp::Exp => x.exp(),
        FloatOp::Ln => x.ln(),
        FloatOp::Log2 => x.log2(),
        FloatOp::Log10 => x.log10(),
        FloatOp::Sin => x.sin(),
        FloatOp::Cos => x.cos(),
        FloatOp::Tan => x.tan(),
        FloatOp::Asin => x.asin(),
        FloatOp::Acos => x.acos(),
        FloatOp::Atan => x.atan(),
        FloatOp::Sinh => x.sinh(),
        FloatOp::Cosh => x.cosh(),
        FloatOp::Tanh => x.tanh(),
        FloatOp::Trunc => x.trunc(),
        FloatOp::Expm1 => x.exp_m1(),
        FloatOp::Log1p => x.ln_1p(),
    })
}

fn lu(n: usize, s: &[Real]) -> Result<Lu, LinalgError> {
    let mut a: Vec<f64> = s.iter().map(|x| float(*x)).collect();
    let mut ipiv: Vec<usize> = (0..n).collect();
    for k in 0..n {
        let mut best = k;
        for i in k..n {
            if a[k * n + i].abs() > a[k * n + best].abs() {
                best = i;
            }
        }
        if a[k * n + best].abs() < 1e-15 {
            return Err(LinalgError::Singular);
        }
        if best != k {
            ipiv.swap(k, best);
            for j in 0..n {
                a.swap(j * n + k, j * n + best);
            }
        }
        for i in k + 1..n {
            a[k * n + i] /= a[k * n + k];
            for j in k + 1..n {
                a[j * n + i] -= a[k * n + i] * a[j * n + k];
            }
        }
    }
    Ok(Lu { a: a.into_iter().map(dbl).collect(), ipiv })
}

fn cholesky(n: usize, s: &[Real]) -> Result<Vec<Real>, LinalgError> {
    let a: Vec<f64> = s.iter().map(|x| float(*x)).collect();
    let mut l = vec![0.0; n * n];
    for j in 0..n {
        let mut d = a[j * n + j];
        for k in 0..j {
            d -= l[k * n + j] * l[k * n + j];
        }
        if d <= 0.0 {
            return Err(LinalgError::Singular);
        }
        l[j * n + j] = d.sqrt();
        for i in j + 1..n {
            let mut x = a[j * n + i];
            for k in 0..j {
                x -= l[k * n + i] * l[k * n + j];
            }
            l[j * n + i] = x / l[j * n + j];
        }
    }
    Ok(l.into_iter().map(dbl).collect())
}

fn nums(v: &[f64]) -> RVal {
    RVal::Numeric(v.iter().map(|x| Some(dbl(*x))).collect(), Attrs { names: None })
}

fn strs(v: &[&str]) -> RVal {
    RVal::Character(v.iter().map(|x| Some(x.to_string())).collect(), Attrs { names: None })
}

fn flag(b: bool) -> RVal {
    RVal::Logical(vec![Some(b)], Attrs { names: None })
}

fn evarg(v: RVal) -> EvalArg {
    EvalArg { name: None, value: v }
}

fn named(n: &str, v: RVal) -> EvalArg {
    EvalArg { name: Some(n.to_string()), value: v }
}

fn fpu() -> Fpu<fn(FloatOp, Real, Real, Real) -> Real> {
    Fpu { eval: eval }
}

fn show(x: Real) -> String {
    format!("{}", float(x))
}

/// Eigenvalues of a symmetric matrix by Jacobi rotations, in ascending order.
fn eigen(n: usize, s: &[Real]) -> Result<Vec<Real>, LinalgError> {
    let mut a: Vec<f64> = s.iter().map(|x| float(*x)).collect();
    for _ in 0..60 {
        for p in 0..n {
            for q in p + 1..n {
                if a[q * n + p].abs() < 1e-300 {
                    continue;
                }
                let t = 0.5 * (2.0 * a[q * n + p]).atan2(a[p * n + p] - a[q * n + q]);
                let (c, d) = (t.cos(), t.sin());
                for k in 0..n {
                    let (x, y) = (a[p * n + k], a[q * n + k]);
                    a[p * n + k] = c * x + d * y;
                    a[q * n + k] = c * y - d * x;
                }
                for k in 0..n {
                    let (x, y) = (a[k * n + p], a[k * n + q]);
                    a[k * n + p] = c * x + d * y;
                    a[k * n + q] = c * y - d * x;
                }
            }
        }
    }
    let mut w: Vec<f64> = (0..n).map(|i| a[i * n + i]).collect();
    w.sort_by(|x, y| x.partial_cmp(y).unwrap());
    Ok(w.into_iter().map(dbl).collect())
}

fn matrix(data: Vec<f64>, n: usize, p: usize) -> RVal {
    let mut columns = vec![dbl(0.0); n * p];
    for i in 0..n {
        for j in 0..p {
            columns[j * n + i] = dbl(data[i * p + j]);
        }
    }
    RVal::Matrix(Matrix { data: columns, nrow: n, ncol: p, col_names: None })
}

fn field(inst: &TypeInstance, name: &str) -> f64 {
    let (_, v) = inst.fields.iter().find(|(n, _)| n == name).unwrap();
    float(v.scalar_f64().unwrap())
}

#[test]
fn dnorm_at_zero_is_one_over_sqrt_2pi() {
    let r = bi_dnorm(&fpu(), &[evarg(nums(&[0.0]))]).unwrap();
    match r {
        RVal::Numeric(v, _) => {
            let got = float(v[0].unwrap());
            let want = 1.0 / (2.0 * std::f64::consts::PI).sqrt();
            assert!((got - want).abs() < 1e-12, "got {} want {}", got, want);
        }
        _ => panic!(),
    }
}

#[test]
fn pnorm_zero_is_half() {
    let r = bi_pnorm(&fpu(), &[evarg(nums(&[0.0]))]).unwrap();
    match r {
        RVal::Numeric(v, _) => {
            assert!((float(v[0].unwrap()) - 0.5).abs() < 1e-7);
        }
        _ => panic!(),
    }
}

#[test]
fn qnorm_half_is_zero() {
    let r = bi_qnorm(&fpu(), &[evarg(nums(&[0.5]))]).unwrap();
    match r {
        RVal::Numeric(v, _) => {
            assert!(float(v[0].unwrap()).abs() < 1e-12);
        }
        _ => panic!(),
    }
}

#[test]
fn pnorm_qnorm_round_trip_at_975() {
    let p = bi_qnorm(&fpu(), &[evarg(nums(&[0.975]))]).unwrap();
    let q = match p { RVal::Numeric(v, _) => float(v[0].unwrap()), _ => panic!() };
    assert!((q - 1.96).abs() < 0.01, "qnorm(0.975) = {}", q);
    let r = bi_pnorm(&fpu(), &[evarg(nums(&[q]))]).unwrap();
    match r {
        RVal::Numeric(v, _) => assert!((float(v[0].unwrap()) - 0.975).abs() < 0.01),
        _ => panic!(),
    }
}

#[test]
fn hotelling_one_sample_diagonal_cov() {
    let x = matrix(
        vec![
            10.0, 20.0,
            10.5, 20.5,
             9.5, 19.5,
            10.2, 20.3,
             9.8, 19.7,
        ],
        5, 2,
    );
    let r = bi_hotelling_test(&fpu(), &lu, &[evarg(x)]).unwrap();
    match r {
        RVal::TypeInstance(inst) => {
            let p = field(&inst, "p.value");
            let t2 = field(&inst, "statistic.t2");
            assert!(p < 0.001, "p-value too high: {}", p);
            assert!(t2 > 100.0, "T2 should be large: {}", t2);
        }
        _ => panic!("must return TypeInstance"),
    }
}

#[test]
fn hotelling_one_sample_at_mu_should_not_reject() {
    let x = matrix(
        vec![
            10.0, 20.0,
            10.5, 20.5,
             9.5, 19.5,
            10.2, 20.3,
             9.8, 19.7,
        ],
        5, 2,
    );
    let mu = nums(&[10.0, 20.0]);
    let r = bi_hotelling_test(&fpu(), &lu, &[evarg(x), named("mu", mu)]).unwrap();
    match r {
        RVal::TypeInstance(inst) => {
            let p = field(&inst, "p.value");
            assert!(p > 0.05, "p-value at correct mu should be high: got {}", p);
        }
        _ => panic!("must return TypeInstance"),
    }
}

#[test]
fn hotelling_two_sample_clearly_different_groups() {
    let x = matrix(
        vec![
             1.0,  1.0,
             1.5,  1.2,
             0.8,  1.1,
             1.2,  0.9,
             1.3,  1.4,
        ], 5, 2);
    let y = matrix(
        vec![
             5.0,  6.0,
             5.5,  6.2,
             4.8,  6.1,
             5.2,  5.9,
             5.3,  6.4,
        ], 5, 2);
    let r = bi_hotelling_test(&fpu(), &lu, &[evarg(x), evarg(y)]).unwrap();
    match r {
        RVal::TypeInstance(inst) => {
            let p = field(&inst, "p.value");
            assert!(p < 0.001, "two clearly-different groups should reject: p = {}", p);
        }
        _ => panic!("must return TypeInstance"),
    }
}

#[test]
fn hotelling_paired_zero_difference_should_not_reject() {
    let x = matrix(
        vec![
             1.0,  2.0,
             1.5,  2.5,
             0.8,  1.9,
             1.2,  2.1,
             1.3,  2.2,
        ], 5, 2);
    let y = x.dup();
    let true_val = flag(true);
    let r = bi_hotelling_test(&fpu(), &lu, &[evarg(x), evarg(y), named("paired", true_val)]);
    assert!(r.is_err(), "identical X,Y should produce singular covariance error");
}

#[test]
fn hotelling_paired_consistent_shift_should_reject() {
    let x = matrix(
        vec![
             1.0,  2.0,
             1.5,  2.5,
             0.8,  1.9,
             1.2,  2.1,
             1.3,  2.2,
        ], 5, 2);
    let y = matrix(
        vec![
             4.05,  7.10,
             4.45,  7.55,
             3.85,  6.85,
             4.20,  7.20,
             4.35,  7.15,
        ], 5, 2);
    let true_val = flag(true);
    let r = bi_hotelling_test(&fpu(), &lu, &[evarg(x), evarg(y), named("paired", true_val)]).unwrap();
    match r {
        RVal::TypeInstance(inst) => {
            let p = field(&inst, "p.value");
            assert!(p < 0.01, "consistent shift should reject: p = {}", p);
        }
        _ => panic!("must return TypeInstance"),
    }
}

#[test]
fn the_error_function_is_odd() {
    for x in [0.1, 0.7, 2.5] {
        assert_eq!(float(erf(&fpu(), dbl(-x))), -float(erf(&fpu(), dbl(x))));
    }
    assert!((float(erf(&fpu(), dbl(1.0))) - 0.8427007929).abs() < 1e-6);
    assert!((float(phi(&fpu(), dbl(1.96))) - 0.975).abs() < 1e-4);
    assert!((float(qnorm_approx(&fpu(), dbl(0.025))) + 1.96).abs() < 0.01);
}

#[test]
fn normal_functions_keep_missing_entries() {
    let x = RVal::Numeric(vec![Some(dbl(0.0)), None], Attrs { names: None });
    match bi_dnorm(&fpu(), &[evarg(x), named("mean", nums(&[1.0])), named("sd", nums(&[2.0]))]).unwrap() {
        RVal::Numeric(v, _) => {
            let want = (-0.125f64).exp() / (2.0 * (2.0 * std::f64::consts::PI).sqrt());
            assert!((float(v[0].unwrap()) - want).abs() < 1e-12);
            assert!(v[1].is_none());
        }
        _ => panic!(),
    }
    assert!(bi_pnorm(&fpu(), &[evarg(strs(&["a"]))]).is_err());
}

#[test]
fn means_and_covariances() {
    let m = Rows { n: 3, p: 2, data: [1.0, 10.0, 2.0, 20.0, 3.0, 30.0].map(dbl).to_vec() };
    assert_eq!(col_means(&fpu(), &m).iter().map(|x| float(*x)).collect::<Vec<f64>>(), vec![2.0, 20.0]);
    assert_eq!(
        sample_cov(&fpu(), &m).iter().map(|x| float(*x)).collect::<Vec<f64>>(),
        vec![1.0, 10.0, 10.0, 100.0]
    );
}

#[test]
fn the_test_follows_the_arguments() {
    let x = || evarg(matrix(vec![1.0, 2.0, 3.0, 4.0], 2, 2));
    assert!(matches!(hotelling_flavor(&[x()]), Flavor::One));
    assert!(matches!(hotelling_flavor(&[x(), x()]), Flavor::Two));
    assert!(matches!(hotelling_flavor(&[x(), x(), named("paired", flag(true))]), Flavor::Paired));
}

#[test]
fn groups_split_the_rows() {
    let g = group_rows(&["b", "a", "b", "c"].iter().map(|s| s.to_string()).collect());
    assert_eq!(g.rows.iter().map(|r| r.len()).sum::<usize>(), 4);
    let at = g.labels.iter().position(|l| l == "b").unwrap();
    assert_eq!(g.rows[at], vec![0, 2]);
}

#[test]
fn variance_analysis_of_distinct_groups() {
    let x = matrix(
        vec![1.0, 1.1, 1.4, 0.9, 0.8, 1.3, 5.0, 6.1, 5.5, 5.8, 4.8, 6.3, 9.1, 2.0, 9.4, 2.3, 8.8, 1.8],
        9,
        2,
    );
    let g = strs(&["a", "a", "a", "b", "b", "b", "c", "c", "c"]);
    let printer = Printer { show: show };
    let formula = RVal::List(vec![
        (Some("~lhs".to_string()), x),
        (Some("~rhs".to_string()), RVal::List(vec![(Some("g".to_string()), g)])),
    ]);
    let r = bi_manova(&fpu(), &printer, &cholesky, &eigen, &[evarg(formula)]).unwrap();
    assert!(bi_manova(&fpu(), &printer, &cholesky, &eigen, &[]).is_err());
    match r {
        RVal::TypeInstance(inst) => {
            assert!(inst.fields.len() > 4);
            let pillai = inst.fields.iter().find(|(n, _)| n.to_lowercase().contains("pillai")).unwrap();
            assert!(float(pillai.1.scalar_f64().unwrap()) > 1.0);
        }
        _ => panic!("must return TypeInstance"),
    }
}

#[test]
fn verdicts_of_the_three_statistics() {
    assert!(matches!(manova_verdict(dbl(0.0001), dbl(0.0002), dbl(0.0003)), Verdict::HighlySignificant));
    assert!(matches!(manova_verdict(dbl(0.3), dbl(0.4), dbl(0.5)), Verdict::NotSignificant));
    assert!(matches!(manova_verdict(dbl(0.01), dbl(0.4), dbl(0.5)), Verdict::Disagree));
}

#[test]
fn f_statistics_have_tails() {
    let p = |f: f64, a: f64, b: f64| float(f_to_pvalue(&fpu(), dbl(f), dbl(a), dbl(b)));
    assert!((p(1.0, 2.0, 2.0) - 0.5).abs() < 1e-3);
    assert!((p(1.0, 7.0, 7.0) - 0.5).abs() < 1e-6);
    assert!((p(4.965, 1.0, 10.0) - 0.05).abs() < 5e-3);
    assert!((p(3.326, 5.0, 10.0) - 0.05).abs() < 2e-3);
    assert_eq!(p(f64::INFINITY, 2.0, 2.0), 1.0);
    assert_eq!(p(1.0, 0.0, 2.0), 1.0);
    assert_eq!(p(1.0, 2.0, -1.0), 1.0);
}
