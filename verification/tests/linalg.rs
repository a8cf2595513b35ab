use ardon_r2::double::{FloatOp, Fpu, Real};
use ardon_r2::linalg::{
    LinalgError, dasum, daxpy, dcopy, ddot, dgemv, dgemv_t, dger, dnrm2, dscal, dswap, dtrsv_lower, dtrsv_upper, idamax,
};
use ardon_r2::linalg_solve::{Lu, dgesv, dgetri, dlsq_fused, dlsq_normal, dposv, solve_2x2, solve_3x3};

fn dbl(x: f64) -> Real {
    Real { bits: x.to_bits() }
}

fn float(x: Real) -> f64 {
    f64::from_bits(x.bits)
}

fn eval(op: FloatOp, a: Real, b: Real, c: Real) -> Real {
    let (x, y, z) = (float(a), float(b), float(c));
    dbl(match op {
        FloatOp::Plus => x + y,
        FloatOp::Minus => x - y,
        FloatOp::Times => x * y,
        FloatOp::Over => x / y,
        FloatOp::Power => x.powf(y),
        FloatOp::Modulo => x.rem_euclid(y),
        FloatOp::MulAdd => x.mul_add(y, z),
        FloatOp::Sqrt => x.sqrt(),
        FloatOp::Exp => x.exp(),
        FloatOp::Ln => x.ln(),
        FloatOp::Log2 => x.log2(),
        FloatOp::Log10 => x.log10(),
        FloatOp::Sin => x.sin(),
        FloatOp::Cos => x.cos(),
        FloatOp::Tan => x.tan(),
        FloatOp::Asin => x.asin(),
        FloatOp::Acos => x.acos(),
        FloatOp::Atan => x.atan(),
        FloatOp::Sinh => x.sinh(),
        FloatOp::Cosh => x.cosh(),
        FloatOp::Tanh => x.tanh(),
        FloatOp::Trunc => x.trunc(),
        FloatOp::Expm1 => x.exp_m1(),
        FloatOp::Log1p => x.ln_1p(),
    })
}

fn lu(n: usize, s: &[Real]) -> Result<Lu, LinalgError> {
    let mut a: Vec<f64> = s.iter().map(|x| float(*x)).collect();
    let mut ipiv: Vec<usize> = (0..n).collect();
    for k in 0..n {
        let mut best = k;
        for i in k..n {
            if a[k * n + i].abs() > a[k * n + best].abs() {
                best = i;
            }
        }
        if a[k * n + best].abs() < 1e-15 {
            return Err(LinalgError::Singular);
        }
        if best != k {
            ipiv.swap(k, best);
            for j in 0..n {
                a.swap(j * n + k, j * n + best);
            }
        }
        for i in k + 1..n {
            a[k * n + i] /= a[k * n + k];
            for j in k + 1..n {
                a[j * n + i] -= a[k * n + i] * a[j * n + k];
            }
        }
    }
    Ok(Lu { a: a.into_iter().map(dbl).collect(), ipiv })
}

fn cholesky(n: usize, s: &[Real]) -> Result<Vec<Real>, LinalgError> {
    let a: Vec<f64> = s.iter().map(|x| float(*x)).collect();
    let mut l = vec![0.0; n * n];
    for j in 0..n {
        let mut d = a[j * n + j];
        for k in 0..j {
            d -= l[k * n + j] * l[k * n + j];
        }
        if d <= 0.0 {
            return Err(LinalgError::Singular);
        }
        l[j * n + j] = d.sqrt();
        for i in j + 1..n {
            let mut x = a[j * n + i];
            for k in 0..j {
                x -= l[k * n + i] * l[k * n + j];
            }
            l[j * n + i] = x / l[j * n + j];
        }
    }
    Ok(l.into_iter().map(dbl).collect())
}

fn crossprod(m: usize, n: usize, s: &[Real]) -> Result<Vec<Real>, LinalgError> {
    let mut g = vec![dbl(0.0); n * n];
    for i in 0..n {
        for j in 0..n {
            let mut t = 0.0;
            for k in 0..m {
                t += float(s[i * m + k]) * float(s[j * m + k]);
            }
            g[j * n + i] = dbl(t);
        }
    }
    Ok(g)
}

fn fpu() -> Fpu<fn(FloatOp, Real, Real, Real) -> Real> {
    Fpu { eval: eval }
}

fn v(x: &[f64]) -> Vec<Real> {
    x.iter().map(|t| dbl(*t)).collect()
}

fn f(x: &[Real]) -> Vec<f64> {
    x.iter().map(|t| float(*t)).collect()
}

#[test]
fn test_ddot() {
    let x = v(&[1.0, 2.0, 3.0, 4.0]);
    let y = v(&[2.0, 3.0, 4.0, 5.0]);
    assert_eq!(float(ddot(&fpu(), &x, &y)), 2.0 + 6.0 + 12.0 + 20.0);
}

#[test]
fn test_daxpy() {
    let x = v(&[1.0, 2.0, 3.0]);
    let mut y = v(&[10.0, 20.0, 30.0]);
    daxpy(&fpu(), dbl(2.0), &x, &mut y);
    assert_eq!(f(&y), vec![12.0, 24.0, 36.0]);
}

#[test]
fn test_dnrm2() {
    let x = v(&[3.0, 4.0]);
    assert_eq!(float(dnrm2(&fpu(), &x)), 5.0);
}

#[test]
fn test_dgemv() {
    let a = v(&[1.0, 2.0, 3.0, 4.0]);
    let x = v(&[5.0, 6.0]);
    let mut y = v(&[0.0, 0.0]);
    dgemv(&fpu(), 2, 2, dbl(1.0), &a, &x, dbl(0.0), &mut y).unwrap();
    assert_eq!(f(&y), vec![23.0, 34.0]);
}

#[test]
fn test_dtrsv_lower() {
    let l = v(&[2.0, 1.0, 0.0, 3.0]);
    let mut b = v(&[4.0, 11.0]);
    dtrsv_lower(&fpu(), 2, &l, &mut b, false).unwrap();
    assert_eq!(f(&b), vec![2.0, 3.0]);
}

#[test]
fn test_dgesv() {
    let mut a = v(&[2.0, 1.0, 1.0, 3.0]);
    let mut b = v(&[5.0, 10.0]);
    dgesv(&fpu(), &lu, 2, &mut a, &mut b).unwrap();
    assert!((float(b[0]) - 1.0).abs() < 1e-10);
    assert!((float(b[1]) - 3.0).abs() < 1e-10);
}

#[test]
fn test_dlsq_normal() {
    let x = v(&[1.0, 1.0, 1.0, 1.0, 1.0, 2.0, 3.0, 4.0]);
    let y = v(&[3.0, 5.0, 7.0, 9.0]);
    let beta = dlsq_normal(&fpu(), &crossprod, &cholesky, 4, 2, &x, &y).unwrap();
    assert!((float(beta[0]) - 1.0).abs() < 1e-8);
    assert!((float(beta[1]) - 2.0).abs() < 1e-8);
}

#[test]
fn fused_least_squares_agree() {
    let x = v(&[1.0, 1.0, 1.0, 1.0, 1.0, 2.0, 3.0, 4.0]);
    let y = v(&[3.0, 5.0, 7.0, 9.0]);
    let beta = dlsq_fused(&fpu(), &cholesky, 4, 2, &x, &y).unwrap();
    assert!((float(beta[0]) - 1.0).abs() < 1e-8);
    assert!((float(beta[1]) - 2.0).abs() < 1e-8);
}

#[test]
fn vectors_in_place() {
    let mut x = v(&[1.0, -5.0, 3.0]);
    assert_eq!(idamax(&x), 1);
    assert_eq!(float(dasum(&fpu(), &x)), 9.0);
    dscal(&fpu(), dbl(2.0), &mut x);
    assert_eq!(f(&x), vec![2.0, -10.0, 6.0]);
    let mut y = v(&[0.0, 0.0, 0.0]);
    dcopy(&x, &mut y);
    assert_eq!(f(&y), f(&x));
    let mut z = v(&[7.0, 8.0, 9.0]);
    dswap(&mut y, &mut z);
    assert_eq!(f(&z), vec![2.0, -10.0, 6.0]);
    assert_eq!(f(&y), vec![7.0, 8.0, 9.0]);
}

#[test]
fn transposed_product_and_rank_one_update() {
    let a = v(&[1.0, 2.0, 3.0, 4.0]);
    let x = v(&[5.0, 6.0]);
    let mut y = v(&[1.0, 1.0]);
    dgemv_t(&fpu(), 2, 2, dbl(1.0), &a, &x, dbl(2.0), &mut y).unwrap();
    assert_eq!(f(&y), vec![19.0, 41.0]);
    let mut a = v(&[1.0, 2.0, 3.0, 4.0]);
    dger(&fpu(), 2, 2, dbl(1.0), &v(&[1.0, 2.0]), &v(&[10.0, 20.0]), &mut a).unwrap();
    assert_eq!(f(&a), vec![11.0, 22.0, 23.0, 44.0]);
}

#[test]
fn back_substitution() {
    let u = v(&[2.0, 0.0, 1.0, 3.0]);
    let mut b = v(&[7.0, 9.0]);
    dtrsv_upper(&fpu(), 2, &u, &mut b).unwrap();
    assert_eq!(f(&b), vec![2.0, 3.0]);
}

#[test]
fn an_inverse_undoes_its_matrix() {
    let inv = dgetri(&fpu(), &lu, 2, &v(&[2.0, 1.0, 1.0, 3.0])).unwrap();
    let want = [0.6, -0.2, -0.2, 0.4];
    for i in 0..4 {
        assert!((float(inv[i]) - want[i]).abs() < 1e-12);
    }
}

#[test]
fn symmetric_systems() {
    let mut a = v(&[4.0, 2.0, 2.0, 3.0]);
    let mut b = v(&[10.0, 8.0]);
    dposv(&fpu(), &cholesky, 2, &mut a, &mut b).unwrap();
    assert!((float(b[0]) - 1.75).abs() < 1e-12);
    assert!((float(b[1]) - 1.5).abs() < 1e-12);
}

#[test]
fn small_systems() {
    let x = solve_2x2(&fpu(), &[dbl(2.0), dbl(1.0), dbl(1.0), dbl(3.0)], &[dbl(5.0), dbl(10.0)]).unwrap();
    assert_eq!((float(x[0]), float(x[1])), (1.0, 3.0));
    let a = [2.0, 0.0, 1.0, 1.0, 3.0, 0.0, 0.0, 1.0, 4.0].map(dbl);
    let b = [4.0, 9.0, 13.0].map(dbl);
    let x = solve_3x3(&fpu(), &a, &b).unwrap();
    assert_eq!(x.map(float), [1.0, 2.0, 3.0]);
}

#[test]
fn wrong_shapes_are_refused() {
    let mut y = v(&[0.0]);
    let e = dgemv(&fpu(), 2, 2, dbl(1.0), &v(&[1.0, 2.0, 3.0, 4.0]), &v(&[5.0]), dbl(0.0), &mut y).unwrap_err();
    assert!(matches!(e, LinalgError::DimensionMismatch { .. } | LinalgError::InvalidShape(_)));
    let mut a = v(&[1.0, 2.0]);
    let mut b = v(&[1.0, 2.0]);
    let e = dgesv(&fpu(), &lu, 2, &mut a, &mut b).unwrap_err();
    assert_eq!(e.message(), "matrix is not square");
    let mut a = v(&[1.0, 2.0, 2.0, 4.0]);
    let e = dgesv(&fpu(), &lu, 2, &mut a, &mut b).unwrap_err();
    assert_eq!(e.message(), "matrix is singular");
    let e = solve_2x2(&fpu(), &[dbl(1.0), dbl(2.0), dbl(2.0), dbl(4.0)], &[dbl(1.0), dbl(1.0)]).unwrap_err();
    assert!(matches!(e, LinalgError::Singular));
}
