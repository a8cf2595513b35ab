use ardon_r2::double::{FloatOp, Fpu, Real};
use ardon_r2::kernel::{Backend, RayonBackend, ReduceBackend, ReduceOp, SerialBackend, reduce};
use ardon_r2::kernel_distance::{DistanceOp, distance, pairwise_distance};
use ardon_r2::kernel_hash::{AggOp, hash_agg, hash_tabulate};
use ardon_r2::kernel_map::{
    BinaryBackend, BinaryOp, MapBackend, MapOp, StridedReduceBackend, TernaryBackend, TernaryOp, binary, par_for,
    reduce_strided, ternary,
};
use ardon_r2::kernel_par::{ScanOp, fold_slice, par_fold_slice};
use ardon_r2::kernel_rolling::{RollingOp, rolling};
use ardon_r2::kernel_scan::{ScanBackend, scan};
use ardon_r2::kernel_select::{bottom_k, nth_smallest, top_k, which_max, which_min};

fn dbl(x: f64) -> Real {
    Real { bits: x.to_bits() }
}

fn float(x: Real) -> f64 {
    f64::from_bits(x.bits)
}

fn eval(op: FloatOp, a: Real, b: Real, c: Real) -> Real {
    let (x, y, z) = (float(a), float(b), float(c));
    dbl(match op {
        FloatOp::Plus => x + y,
        FloatOp::Minus => x - y,
        FloatOp::Times => x * y,
        FloatOp::Over => x / y,
        FloatOp::Power => x.powf(y),
        FloatOp::Modulo => x.rem_euclid(y),
        FloatOp::MulAdd => x.mul_add(y, z),
        FloatOp::Sqrt => x.sqrt(),
        FloatOp::Exp => x.exp(),
        FloatOp::Ln => x.ln(),
        FloatOp::Log2 => x.log2(),
        FloatOp::Log10 => x.log10(),
        FloatOp::Sin => x.sin(),
        FloatOp::Cos => x.cos(),
        FloatOp::Tan => x.tan(),
        FloatOp::Asin => x.asin(),
        FloatOp::Acos => x.acos(),
        FloatOp::Atan => x.atan(),
        FloatOp::Sinh => x.sinh(),
        FloatOp::Cosh => x.cosh(),
        FloatOp::Tanh => x.tanh(),
        FloatOp::Trunc => x.trunc(),
        FloatOp::Expm1 => x.exp_m1(),
        FloatOp::Log1p => x.ln_1p(),
    })
}

fn bits(v: &[Option<f64>]) -> Vec<Option<Real>> {
    v.iter().map(|x| x.map(dbl)).collect()
}

fn floats(v: Vec<Option<Real>>) -> Vec<Option<f64>> {
    v.into_iter().map(|x| x.map(float)).collect()
}

fn serial_reduce(op: ReduceOp, d: &[Option<f64>]) -> Option<f64> {
    SerialBackend.reduce(&Fpu { eval: eval }, op, &bits(d)).map(float)
}

fn rayon_reduce(op: ReduceOp, d: &[Option<f64>]) -> Option<f64> {
    RayonBackend.reduce(&Fpu { eval: eval }, op, &bits(d)).map(float)
}

fn auto_reduce(op: ReduceOp, d: &[Option<f64>]) -> Option<f64> {
    reduce(&Fpu { eval: eval }, op, &bits(d), Backend::Serial).map(float)
}

fn serial_map(op: MapOp, d: &[Option<f64>]) -> Vec<Option<f64>> {
    floats(SerialBackend.map(&Fpu { eval: eval }, op, &bits(d)))
}

fn rayon_map(op: MapOp, d: &[Option<f64>]) -> Vec<Option<f64>> {
    floats(RayonBackend.map(&Fpu { eval: eval }, op, &bits(d)))
}

fn auto_map(op: MapOp, d: &[Option<f64>]) -> Vec<Option<f64>> {
    floats(ardon_r2::kernel_map::map(&Fpu { eval: eval }, op, &bits(d), Backend::Serial))
}

fn serial_binary(op: BinaryOp, a: &[Option<f64>], b: &[Option<f64>]) -> Vec<Option<f64>> {
    floats(SerialBackend.binary(&Fpu { eval: eval }, op, &bits(a), &bits(b)))
}

fn rayon_binary(op: BinaryOp, a: &[Option<f64>], b: &[Option<f64>]) -> Vec<Option<f64>> {
    floats(RayonBackend.binary(&Fpu { eval: eval }, op, &bits(a), &bits(b)))
}

fn auto_binary(op: BinaryOp, a: &[Option<f64>], b: &[Option<f64>]) -> Vec<Option<f64>> {
    floats(binary(&Fpu { eval: eval }, op, &bits(a), &bits(b), Backend::Serial))
}

fn serial_ternary(op: TernaryOp, a: &[Option<f64>], b: &[Option<f64>], c: &[Option<f64>]) -> Vec<Option<f64>> {
    floats(SerialBackend.ternary(&Fpu { eval: eval }, op, &bits(a), &bits(b), &bits(c)))
}

fn rayon_ternary(op: TernaryOp, a: &[Option<f64>], b: &[Option<f64>], c: &[Option<f64>]) -> Vec<Option<f64>> {
    floats(RayonBackend.ternary(&Fpu { eval: eval }, op, &bits(a), &bits(b), &bits(c)))
}

fn auto_ternary(op: TernaryOp, a: &[Option<f64>], b: &[Option<f64>], c: &[Option<f64>]) -> Vec<Option<f64>> {
    floats(ternary(&Fpu { eval: eval }, op, &bits(a), &bits(b), &bits(c), Backend::Serial))
}

fn serial_reduce_strided(op: ReduceOp, d: &[Option<f64>], offset: usize, stride: usize, count: usize) -> Option<f64> {
    SerialBackend.reduce_strided(&Fpu { eval: eval }, op, &bits(d), offset, stride, count).map(float)
}

fn rayon_reduce_strided(op: ReduceOp, d: &[Option<f64>], offset: usize, stride: usize, count: usize) -> Option<f64> {
    RayonBackend.reduce_strided(&Fpu { eval: eval }, op, &bits(d), offset, stride, count).map(float)
}

fn auto_reduce_strided(op: ReduceOp, d: &[Option<f64>], offset: usize, stride: usize, count: usize) -> Option<f64> {
    reduce_strided(&Fpu { eval: eval }, op, &bits(d), offset, stride, count, Backend::Serial).map(float)
}

fn serial_scan(op: ScanOp, d: &[Option<f64>]) -> Vec<Option<f64>> {
    floats(SerialBackend.scan(&Fpu { eval: eval }, op, &bits(d), 4))
}

fn rayon_scan(op: ScanOp, d: &[Option<f64>]) -> Vec<Option<f64>> {
    floats(RayonBackend.scan(&Fpu { eval: eval }, op, &bits(d), 4))
}

fn apart(op: DistanceOp, a: &[Option<f64>], b: &[Option<f64>]) -> Option<f64> {
    distance(&Fpu { eval: eval }, op, &bits(a), &bits(b)).map(float)
}

fn all_apart(op: DistanceOp, d: &[Option<f64>], nrow: usize, ncol: usize) -> Vec<Option<f64>> {
    floats(pairwise_distance(&Fpu { eval: eval }, op, &bits(d), nrow, ncol, Backend::Serial))
}

struct Groups {
    keys: Vec<u64>,
    values: Vec<Option<f64>>,
}

fn aggregate(op: AggOp, keys: &[Option<u64>], values: &[Option<f64>]) -> Groups {
    let r = hash_agg(&Fpu { eval: eval }, op, keys, &bits(values));
    Groups { keys: r.keys, values: floats(r.values) }
}

fn tabulate(keys: &[Option<u64>]) -> Groups {
    let r = hash_tabulate(keys);
    Groups { keys: r.keys, values: floats(r.values) }
}

fn roll(op: RollingOp, d: &[Option<f64>], window: usize) -> Vec<Option<f64>> {
    floats(rolling(&Fpu { eval: eval }, op, &bits(d), window))
}

fn data() -> Vec<Option<f64>> {
    vec![Some(1.0), Some(2.0), Some(3.0), Some(4.0), Some(5.0)]
}

fn data_with_na() -> Vec<Option<f64>> {
    vec![Some(1.0), None, Some(3.0), Some(4.0), Some(5.0)]
}

#[test]
fn serial_sum_correct() {
    assert_eq!(serial_reduce(ReduceOp::Sum, &data()), Some(15.0));
}

#[test]
fn rayon_sum_correct() {
    assert_eq!(rayon_reduce(ReduceOp::Sum, &data()), Some(15.0));
}

#[test]
fn serial_mean_correct() {
    assert_eq!(serial_reduce(ReduceOp::Mean, &data()), Some(3.0));
}

#[test]
fn rayon_mean_correct() {
    assert_eq!(rayon_reduce(ReduceOp::Mean, &data()), Some(3.0));
}

#[test]
fn na_propagates_serial() {
    assert_eq!(serial_reduce(ReduceOp::Sum, &data_with_na()), None);
    assert_eq!(serial_reduce(ReduceOp::Mean, &data_with_na()), None);
}

#[test]
fn na_propagates_rayon() {
    assert_eq!(rayon_reduce(ReduceOp::Sum, &data_with_na()), None);
    assert_eq!(rayon_reduce(ReduceOp::Mean, &data_with_na()), None);
}

#[test]
fn min_max_prod() {
    let d = data();
    assert_eq!(serial_reduce(ReduceOp::Min, &d), Some(1.0));
    assert_eq!(serial_reduce(ReduceOp::Max, &d), Some(5.0));
    assert_eq!(serial_reduce(ReduceOp::Prod, &d), Some(120.0));
    assert_eq!(rayon_reduce(ReduceOp::Min, &d), Some(1.0));
    assert_eq!(rayon_reduce(ReduceOp::Max, &d), Some(5.0));
    assert_eq!(rayon_reduce(ReduceOp::Prod, &d), Some(120.0));
}

#[test]
fn dispatcher_picks_backend() {
    assert_eq!(auto_reduce(ReduceOp::Sum, &data()), Some(15.0));
}

#[test]
fn empty_input() {
    let empty: Vec<Option<f64>> = vec![];
    assert_eq!(serial_reduce(ReduceOp::Sum, &empty), Some(0.0));
    assert_eq!(serial_reduce(ReduceOp::Mean, &empty), None);
    assert_eq!(serial_reduce(ReduceOp::Min, &empty), None);
}


fn map_data() -> Vec<Option<f64>> {
    vec![Some(1.0), Some(4.0), None, Some(9.0), Some(16.0)]
}

#[test]
fn serial_sqrt() {
    let r = serial_map(MapOp::Sqrt, &map_data());
    assert_eq!(r, vec![Some(1.0), Some(2.0), None, Some(3.0), Some(4.0)]);
}

#[test]
fn rayon_sqrt() {
    let r = rayon_map(MapOp::Sqrt, &map_data());
    assert_eq!(r, vec![Some(1.0), Some(2.0), None, Some(3.0), Some(4.0)]);
}

#[test]
fn map_abs_neg_log() {
    let d: Vec<Option<f64>> = vec![Some(-2.0), Some(0.0), Some(2.0)];
    assert_eq!(serial_map(MapOp::Abs, &d),
        vec![Some(2.0), Some(0.0), Some(2.0)]);
    assert_eq!(serial_map(MapOp::Neg, &d),
        vec![Some(2.0), Some(-0.0), Some(-2.0)]);
    let lns = serial_map(MapOp::Ln, &vec![Some(1.0), Some(std::f64::consts::E)]);
    assert!((lns[0].unwrap() - 0.0).abs() < 1e-12);
    assert!((lns[1].unwrap() - 1.0).abs() < 1e-12);
}

#[test]
fn map_dispatcher_picks_backend() {
    let r = auto_map(MapOp::Sqrt, &map_data());
    assert_eq!(r, vec![Some(1.0), Some(2.0), None, Some(3.0), Some(4.0)]);
}

#[test]
fn na_preserved_in_map() {
    let d: Vec<Option<f64>> = vec![Some(4.0), None, Some(9.0)];
    let r = serial_map(MapOp::Sqrt, &d);
    assert_eq!(r[1], None);
}


#[test]
fn binary_add_serial_and_rayon_agree() {
    let a: Vec<Option<f64>> = vec![Some(1.0), Some(2.0), Some(3.0), Some(4.0)];
    let b: Vec<Option<f64>> = vec![Some(10.0), Some(20.0), Some(30.0), Some(40.0)];
    let s = serial_binary(BinaryOp::Add, &a, &b);
    let r = rayon_binary(BinaryOp::Add, &a, &b);
    assert_eq!(s, r);
    assert_eq!(s, vec![Some(11.0), Some(22.0), Some(33.0), Some(44.0)]);
}

#[test]
fn binary_div_with_na() {
    let a: Vec<Option<f64>> = vec![Some(10.0), None, Some(9.0)];
    let b: Vec<Option<f64>> = vec![Some(2.0), Some(3.0), Some(3.0)];
    let r = serial_binary(BinaryOp::Div, &a, &b);
    assert_eq!(r, vec![Some(5.0), None, Some(3.0)]);
}

#[test]
fn binary_dispatcher_picks_backend() {
    let a: Vec<Option<f64>> = vec![Some(2.0); 5];
    let b: Vec<Option<f64>> = vec![Some(3.0); 5];
    let r = auto_binary(BinaryOp::Mul, &a, &b);
    assert_eq!(r, vec![Some(6.0); 5]);
}


#[test]
fn par_for_serial_path() {
    let r: Vec<usize> = par_for(Backend::Serial, 5, |i| i * 2);
    assert_eq!(r, vec![0, 2, 4, 6, 8]);
}

#[test]
fn par_for_rayon_path() {
    let r: Vec<usize> = par_for(Backend::Rayon, 100, |i| i * i);
    for (i, v) in r.iter().enumerate() {
        assert_eq!(*v, i * i);
    }
}

#[test]
fn par_for_empty() {
    let r: Vec<usize> = par_for(Backend::Serial, 0, |i| i);
    assert!(r.is_empty());
}


#[test]
fn ternary_muladd_serial_and_rayon_agree() {
    let a: Vec<Option<f64>> = vec![Some(2.0), Some(3.0), Some(4.0), Some(5.0)];
    let b: Vec<Option<f64>> = vec![Some(10.0), Some(20.0), Some(30.0), Some(40.0)];
    let c: Vec<Option<f64>> = vec![Some(1.0), Some(1.0), Some(1.0), Some(1.0)];
    let s = serial_ternary(TernaryOp::MulAdd, &a, &b, &c);
    let r = rayon_ternary(TernaryOp::MulAdd, &a, &b, &c);
    assert_eq!(s, r);
    assert_eq!(s, vec![Some(21.0), Some(61.0), Some(121.0), Some(201.0)]);
}

#[test]
fn ternary_muladd_na_propagates_from_any_input() {
    let a: Vec<Option<f64>> = vec![Some(2.0), None, Some(4.0), Some(5.0)];
    let b: Vec<Option<f64>> = vec![Some(10.0), Some(20.0), None, Some(40.0)];
    let c: Vec<Option<f64>> = vec![Some(1.0), Some(1.0), Some(1.0), None];
    let r = serial_ternary(TernaryOp::MulAdd, &a, &b, &c);
    assert_eq!(r, vec![Some(21.0), None, None, None]);
}

#[test]
fn ternary_dispatcher_routes() {
    let a: Vec<Option<f64>> = vec![Some(1.0), Some(2.0), Some(3.0)];
    let b: Vec<Option<f64>> = vec![Some(4.0), Some(5.0), Some(6.0)];
    let c: Vec<Option<f64>> = vec![Some(7.0), Some(8.0), Some(9.0)];
    let r = auto_ternary(TernaryOp::MulAdd, &a, &b, &c);
    assert_eq!(r, vec![Some(11.0), Some(18.0), Some(27.0)]);
}


fn strided_data() -> Vec<Option<f64>> {
    let mut d = Vec::with_capacity(15);
    for col_factor in [1.0, 10.0, 100.0] {
        for row in 1..=5 { d.push(Some(row as f64 * col_factor)); }
    }
    d
}

#[test]
fn strided_reduce_sum_row_of_5x3() {
    let d = strided_data();
    let s = serial_reduce_strided(ReduceOp::Sum, &d, 0, 5, 3);
    assert_eq!(s, Some(111.0));
    let s = serial_reduce_strided(ReduceOp::Sum, &d, 2, 5, 3);
    assert_eq!(s, Some(333.0));
}

#[test]
fn strided_reduce_serial_and_rayon_agree() {
    let d = strided_data();
    for op in [ReduceOp::Sum, ReduceOp::Mean, ReduceOp::Min, ReduceOp::Max, ReduceOp::Prod] {
        for offset in 0..5 {
            let s = serial_reduce_strided(op, &d, offset, 5, 3);
            let r = rayon_reduce_strided(op, &d, offset, 5, 3);
            assert_eq!(s, r, "op={:?} offset={}", op, offset);
        }
    }
}

#[test]
fn strided_reduce_na_propagates() {
    let mut d = strided_data();
    d[5] = None;
    let s = serial_reduce_strided(ReduceOp::Sum, &d, 0, 5, 3);
    assert_eq!(s, None);
    let s = serial_reduce_strided(ReduceOp::Sum, &d, 1, 5, 3);
    assert_eq!(s, Some(2.0 + 20.0 + 200.0));
}

#[test]
fn strided_reduce_matches_naive_copy() {
    let d = strided_data();
    for offset in 0..5 {
        let copied: Vec<Option<f64>> = (0..3).map(|k| d[offset + k * 5]).collect();
        let strided = auto_reduce_strided(ReduceOp::Mean, &d, offset, 5, 3);
        let naive = serial_reduce(ReduceOp::Mean, &copied);
        assert_eq!(strided, naive, "offset {}", offset);
    }
}

#[test]
fn strided_reduce_var_and_sd() {
    let d = strided_data();
    let var = serial_reduce_strided(ReduceOp::Var, &d, 0, 5, 3).unwrap();
    let sd  = serial_reduce_strided(ReduceOp::Sd,  &d, 0, 5, 3).unwrap();
    let mean: f64 = 37.0;
    let expected_var = ((1.0_f64 - mean).powi(2) + (10.0_f64 - mean).powi(2) + (100.0_f64 - mean).powi(2)) / 2.0;
    assert!((var - expected_var).abs() < 1e-9);
    assert!((sd - expected_var.sqrt()).abs() < 1e-9);
}


#[test]
fn scan_cumsum_basic() {
    let d: Vec<Option<f64>> = vec![Some(1.0), Some(2.0), Some(3.0), Some(4.0)];
    let r = serial_scan(ScanOp::Cumsum, &d);
    assert_eq!(r, vec![Some(1.0), Some(3.0), Some(6.0), Some(10.0)]);
}

#[test]
fn scan_cumprod_basic() {
    let d: Vec<Option<f64>> = vec![Some(2.0), Some(3.0), Some(4.0)];
    let r = serial_scan(ScanOp::Cumprod, &d);
    assert_eq!(r, vec![Some(2.0), Some(6.0), Some(24.0)]);
}

#[test]
fn scan_cummax_basic() {
    let d: Vec<Option<f64>> = vec![Some(3.0), Some(1.0), Some(4.0), Some(1.0), Some(5.0)];
    let r = serial_scan(ScanOp::Cummax, &d);
    assert_eq!(r, vec![Some(3.0), Some(3.0), Some(4.0), Some(4.0), Some(5.0)]);
}

#[test]
fn scan_cummin_basic() {
    let d: Vec<Option<f64>> = vec![Some(3.0), Some(1.0), Some(4.0), Some(1.0), Some(5.0)];
    let r = serial_scan(ScanOp::Cummin, &d);
    assert_eq!(r, vec![Some(3.0), Some(1.0), Some(1.0), Some(1.0), Some(1.0)]);
}

#[test]
fn scan_na_propagates_forward() {
    let d: Vec<Option<f64>> = vec![Some(1.0), Some(2.0), None, Some(4.0)];
    let r = serial_scan(ScanOp::Cumsum, &d);
    assert_eq!(r, vec![Some(1.0), Some(3.0), None, None]);
}

#[test]
fn scan_serial_and_rayon_agree_on_large_input() {
    let n = 10_000;
    let d: Vec<Option<f64>> = (0..n).map(|i| Some(((i % 17) as f64) * 0.01 + 1.0)).collect();
    for op in [ScanOp::Cumsum, ScanOp::Cumprod, ScanOp::Cummax, ScanOp::Cummin] {
        let s = serial_scan(op, &d);
        let r = rayon_scan(op, &d);
        assert_eq!(s.len(), r.len(), "op={:?}", op);
        for (i, (a, b)) in s.iter().zip(r.iter()).enumerate() {
            match (a, b) {
                (Some(x), Some(y)) => {
                    if x.is_infinite() && y.is_infinite() && x.signum() == y.signum() {
                        continue;
                    }
                    let mag = x.abs().max(y.abs()).max(1.0);
                    let rel = (x - y).abs() / mag;
                    assert!(rel < 1e-12, "op={:?} i={} rel={} ({} vs {})",
                        op, i, rel, x, y);
                }
                (None, None) => {}
                _ => panic!("NA mismatch op={:?} i={}: {:?} vs {:?}", op, i, a, b),
            }
        }
    }
}


#[test]
fn distance_euclidean_basic() {
    let a: Vec<Option<f64>> = vec![Some(0.0), Some(0.0), Some(0.0)];
    let b: Vec<Option<f64>> = vec![Some(3.0), Some(4.0), Some(0.0)];
    assert!((apart(DistanceOp::Euclidean, &a, &b).unwrap() - 5.0).abs() < 1e-12);
}

#[test]
fn distance_manhattan_basic() {
    let a: Vec<Option<f64>> = vec![Some(1.0), Some(2.0), Some(3.0)];
    let b: Vec<Option<f64>> = vec![Some(4.0), Some(6.0), Some(3.0)];
    assert_eq!(apart(DistanceOp::Manhattan, &a, &b), Some(7.0));
}

#[test]
fn distance_cosine_basic() {
    let a: Vec<Option<f64>> = vec![Some(1.0), Some(2.0), Some(3.0)];
    let b: Vec<Option<f64>> = vec![Some(2.0), Some(4.0), Some(6.0)];
    let d = apart(DistanceOp::Cosine, &a, &b).unwrap();
    assert!(d.abs() < 1e-12, "cosine of parallel = {}", d);
    let a: Vec<Option<f64>> = vec![Some(1.0), Some(0.0)];
    let b: Vec<Option<f64>> = vec![Some(0.0), Some(1.0)];
    let d = apart(DistanceOp::Cosine, &a, &b).unwrap();
    assert!((d - 1.0).abs() < 1e-12, "cosine of orthogonal = {}", d);
}

#[test]
fn distance_skips_na_positions() {
    let a: Vec<Option<f64>> = vec![Some(1.0), None, Some(3.0)];
    let b: Vec<Option<f64>> = vec![Some(4.0), Some(5.0), Some(3.0)];
    assert_eq!(apart(DistanceOp::Manhattan, &a, &b), Some(3.0));
}

#[test]
fn pairwise_distance_diagonal_and_symmetric() {
    let data: Vec<Option<f64>> = vec![
        Some(0.0), Some(0.0),
        Some(3.0), Some(4.0),
        Some(6.0), Some(8.0),
    ];
    let d = all_apart(DistanceOp::Euclidean, &data, 3, 2);
    for i in 0..3 { assert_eq!(d[i * 3 + i], Some(0.0)); }
    assert!((d[0 * 3 + 1].unwrap() - 5.0).abs() < 1e-12);
    assert!((d[1 * 3 + 0].unwrap() - 5.0).abs() < 1e-12);
    assert!((d[0 * 3 + 2].unwrap() - 10.0).abs() < 1e-12);
}


#[test]
fn hash_agg_sum_basic() {
    let keys: Vec<Option<u64>>   = vec![Some(1), Some(2), Some(1), Some(2), Some(3)].into_iter().collect();
    let vals: Vec<Option<f64>>   = vec![Some(10.0), Some(20.0), Some(30.0), Some(40.0), Some(50.0)];
    let r = aggregate(AggOp::Sum, &keys, &vals);
    assert_eq!(r.keys, vec![1, 2, 3]);
    assert_eq!(r.values, vec![Some(40.0), Some(60.0), Some(50.0)]);
}

#[test]
fn hash_agg_mean_basic() {
    let keys: Vec<Option<u64>>   = vec![Some(1), Some(2), Some(1), Some(2)].into_iter().collect();
    let vals: Vec<Option<f64>>   = vec![Some(10.0), Some(20.0), Some(30.0), Some(40.0)];
    let r = aggregate(AggOp::Mean, &keys, &vals);
    assert_eq!(r.values, vec![Some(20.0), Some(30.0)]);
}

#[test]
fn hash_agg_count_skips_na() {
    let keys: Vec<Option<u64>>   = vec![Some(1), Some(2), None, Some(1), Some(2)].into_iter().collect();
    let vals: Vec<Option<f64>>   = vec![Some(10.0), None, Some(30.0), Some(40.0), Some(50.0)];
    let r = aggregate(AggOp::Count, &keys, &vals);
    assert_eq!(r.keys, vec![1, 2]);
    assert_eq!(r.values, vec![Some(2.0), Some(1.0)]);
}

#[test]
fn hash_agg_min_max() {
    let keys: Vec<Option<u64>>   = vec![Some(1), Some(1), Some(1), Some(2)].into_iter().collect();
    let vals: Vec<Option<f64>>   = vec![Some(5.0), Some(2.0), Some(8.0), Some(7.0)];
    let r_min = aggregate(AggOp::Min, &keys, &vals);
    let r_max = aggregate(AggOp::Max, &keys, &vals);
    assert_eq!(r_min.values, vec![Some(2.0), Some(7.0)]);
    assert_eq!(r_max.values, vec![Some(8.0), Some(7.0)]);
}

#[test]
fn hash_tabulate_basic() {
    let keys: Vec<Option<u64>> = vec![Some(1), Some(2), Some(1), Some(3), Some(1), Some(2)].into_iter().collect();
    let r = tabulate(&keys);
    assert_eq!(r.keys, vec![1, 2, 3]);
    assert_eq!(r.values, vec![Some(3.0), Some(2.0), Some(1.0)]);
}


#[test]
fn rolling_sum_and_mean_basic() {
    let d: Vec<Option<f64>> = (1..=5).map(|i| Some(i as f64)).collect();
    let r = roll(RollingOp::Sum, &d, 3);
    assert_eq!(r, vec![Some(6.0), Some(9.0), Some(12.0)]);
    let m = roll(RollingOp::Mean, &d, 3);
    assert_eq!(m, vec![Some(2.0), Some(3.0), Some(4.0)]);
}

#[test]
fn rolling_max_min_basic() {
    let d: Vec<Option<f64>> = vec![3.0, 1.0, 4.0, 1.0, 5.0, 9.0, 2.0, 6.0]
        .into_iter().map(Some).collect();
    assert_eq!(roll(RollingOp::Max, &d, 3),
        vec![Some(4.0), Some(4.0), Some(5.0), Some(9.0), Some(9.0), Some(9.0)]);
    assert_eq!(roll(RollingOp::Min, &d, 3),
        vec![Some(1.0), Some(1.0), Some(1.0), Some(1.0), Some(2.0), Some(2.0)]);
}

#[test]
fn rolling_na_propagates_within_window() {
    let d: Vec<Option<f64>> = vec![Some(1.0), Some(2.0), None, Some(4.0), Some(5.0)];
    assert_eq!(roll(RollingOp::Sum, &d, 2),
        vec![Some(3.0), None, None, Some(9.0)]);
}

#[test]
fn rolling_sd_basic() {
    let d: Vec<Option<f64>> = (1..=5).map(|i| Some(i as f64)).collect();
    let r = roll(RollingOp::Sd, &d, 3);
    for v in &r {
        let x = v.unwrap();
        assert!((x - 1.0).abs() < 1e-12, "got {}", x);
    }
}

#[test]
fn rolling_window_larger_than_data_returns_empty() {
    let d: Vec<Option<f64>> = vec![Some(1.0), Some(2.0), Some(3.0)];
    assert!(roll(RollingOp::Sum, &d, 10).is_empty());
    assert!(roll(RollingOp::Sum, &d, 0).is_empty());
}


#[test]
fn select_which_max_min() {
    let d: Vec<Option<f64>> = vec![Some(3.0), Some(1.0), Some(4.0), Some(1.0), Some(5.0), Some(9.0), Some(2.0)];
    assert_eq!(which_max(&bits(&d)), Some(5));
    assert_eq!(which_min(&bits(&d)), Some(1));
}

#[test]
fn select_which_with_na() {
    let d: Vec<Option<f64>> = vec![Some(3.0), None, Some(4.0)];
    assert_eq!(which_max(&bits(&d)), None);
    assert_eq!(which_min(&bits(&d)), None);
}

#[test]
fn select_nth_smallest_basic() {
    let d: Vec<Option<f64>> = vec![Some(5.0), Some(2.0), Some(8.0), Some(1.0), Some(3.0)];
    assert_eq!(nth_smallest(&bits(&d), 0).map(float), Some(1.0));
    assert_eq!(nth_smallest(&bits(&d), 2).map(float), Some(3.0));
    assert_eq!(nth_smallest(&bits(&d), 4).map(float), Some(8.0));
    assert_eq!(nth_smallest(&bits(&d), 5).map(float), None);
}

#[test]
fn select_nth_smallest_skips_na() {
    let d: Vec<Option<f64>> = vec![Some(5.0), None, Some(2.0), None, Some(8.0)];
    assert_eq!(nth_smallest(&bits(&d), 0).map(float), Some(2.0));
    assert_eq!(nth_smallest(&bits(&d), 2).map(float), Some(8.0));
    assert_eq!(nth_smallest(&bits(&d), 3).map(float), None);
}

#[test]
fn select_top_k_basic() {
    let d: Vec<Option<f64>> = vec![Some(3.0), Some(1.0), Some(4.0), Some(1.0), Some(5.0), Some(9.0), Some(2.0)];
    assert_eq!(top_k(&bits(&d), 3), vec![5, 4, 2]);
}

#[test]
fn select_bottom_k_basic() {
    let d: Vec<Option<f64>> = vec![Some(3.0), Some(1.0), Some(4.0), Some(1.0), Some(5.0), Some(9.0), Some(2.0)];
    assert_eq!(bottom_k(&bits(&d), 3), vec![1, 3, 6]);
}

#[test]
fn select_top_k_skips_na_and_handles_k_larger_than_data() {
    let d: Vec<Option<f64>> = vec![Some(3.0), None, Some(5.0)];
    assert_eq!(top_k(&bits(&d), 5), vec![2, 0]);
    assert_eq!(top_k(&bits(&d), 0), Vec::<usize>::new());
}

#[test]
fn scan_rayon_handles_na_correctly() {
    let n = 10_000;
    let mut d: Vec<Option<f64>> = (0..n).map(|i| Some((i + 1) as f64)).collect();
    d[5000] = None;
    let s = serial_scan(ScanOp::Cumsum, &d);
    let r = rayon_scan(ScanOp::Cumsum, &d);
    for i in 0..n {
        assert_eq!(s[i].is_some(), r[i].is_some(),
            "NA presence mismatch at i={}", i);
    }
    for i in 5000..n {
        assert!(s[i].is_none() && r[i].is_none(), "i={}", i);
    }
}

#[test]
fn rayon_extremes_of_missing_data_are_missing() {
    for op in [ReduceOp::Min, ReduceOp::Max, ReduceOp::Sum, ReduceOp::Mean, ReduceOp::Prod] {
        assert_eq!(rayon_reduce(op, &data_with_na()), None);
    }
}

#[test]
fn backends_agree_on_extremes_and_median() {
    let d: Vec<Option<f64>> = (0..9001).map(|i| Some(((i * 7919) % 9001) as f64)).collect();
    for op in [ReduceOp::Min, ReduceOp::Max, ReduceOp::Median] {
        assert_eq!(serial_reduce(op, &d), rayon_reduce(op, &d));
    }
    assert_eq!(serial_reduce(ReduceOp::Median, &d), Some(4500.0));
    assert_eq!(serial_reduce(ReduceOp::Median, &[Some(4.0), Some(1.0), Some(3.0), Some(2.0)]), Some(2.5));
}

#[test]
fn variance_and_deviation() {
    let d = data();
    assert_eq!(serial_reduce(ReduceOp::Var, &d), Some(2.5));
    assert_eq!(rayon_reduce(ReduceOp::Var, &d), Some(2.5));
    assert_eq!(serial_reduce(ReduceOp::Sd, &d), Some(2.5f64.sqrt()));
    assert_eq!(serial_reduce(ReduceOp::Var, &[Some(1.0)]), None);
}

#[test]
fn every_map_operation() {
    let x: f64 = 0.5;
    let cases: Vec<(MapOp, f64)> = vec![
        (MapOp::Sqrt, x.sqrt()),
        (MapOp::Abs, 0.5),
        (MapOp::Exp, x.exp()),
        (MapOp::Ln, x.ln()),
        (MapOp::Log2, -1.0),
        (MapOp::Log10, x.log10()),
        (MapOp::Neg, -0.5),
        (MapOp::Sin, x.sin()),
        (MapOp::Cos, x.cos()),
        (MapOp::Tan, x.tan()),
        (MapOp::Asin, x.asin()),
        (MapOp::Acos, x.acos()),
        (MapOp::Atan, x.atan()),
        (MapOp::Sinh, x.sinh()),
        (MapOp::Cosh, x.cosh()),
        (MapOp::Tanh, x.tanh()),
        (MapOp::Sign, 1.0),
        (MapOp::Trunc, 0.0),
        (MapOp::Expm1, x.exp_m1()),
        (MapOp::Log1p, x.ln_1p()),
    ];
    for (op, want) in cases {
        assert_eq!(serial_map(op, &[Some(x), None]), vec![Some(want), None], "{:?}", op);
        assert_eq!(rayon_map(op, &[Some(x), None]), vec![Some(want), None], "{:?}", op);
    }
    assert_eq!(serial_map(MapOp::Sign, &[Some(-3.0), Some(0.0)]), vec![Some(-1.0), Some(0.0)]);
}

#[test]
fn every_binary_operation() {
    let a = [Some(7.0), Some(2.0)];
    let b = [Some(4.0), None];
    for (op, want) in [
        (BinaryOp::Add, 11.0),
        (BinaryOp::Sub, 3.0),
        (BinaryOp::Mul, 28.0),
        (BinaryOp::Div, 1.75),
        (BinaryOp::Pow, 2401.0),
        (BinaryOp::Mod, 3.0),
    ] {
        assert_eq!(serial_binary(op, &a, &b), vec![Some(want), None], "{:?}", op);
        assert_eq!(rayon_binary(op, &a, &b), vec![Some(want), None], "{:?}", op);
    }
}

#[test]
fn folds_agree_on_whole_numbers() {
    let fpu = Fpu { eval: eval };
    let v: Vec<Real> = (1..=5000).map(|i| dbl(i as f64)).collect();
    for op in [ScanOp::Cumsum, ScanOp::Cummax, ScanOp::Cummin] {
        assert_eq!(float(fold_slice(&fpu, op, &v)), float(par_fold_slice(&fpu, op, &v)));
    }
    assert_eq!(float(par_fold_slice(&fpu, ScanOp::Cumsum, &v)), 12502500.0);
    assert_eq!(float(par_fold_slice(&fpu, ScanOp::Cumprod, &v[..5])), 120.0);
}

#[test]
fn scan_dispatcher_matches_backends() {
    let fpu = Fpu { eval: eval };
    let d: Vec<Option<f64>> = (1..=9000).map(|i| Some(i as f64)).collect();
    let s = floats(scan(&fpu, ScanOp::Cumsum, &bits(&d), Backend::Serial, 4));
    let r = floats(scan(&fpu, ScanOp::Cumsum, &bits(&d), Backend::Rayon, 4));
    assert_eq!(s, r);
    assert_eq!(s[8999], Some(40504500.0));
}

#[test]
fn parallel_distances_match_serial_ones() {
    let fpu = Fpu { eval: eval };
    let d: Vec<Option<Real>> = (0..60).map(|i| if i == 7 { None } else { Some(dbl(i as f64)) }).collect();
    for op in [DistanceOp::Euclidean, DistanceOp::Manhattan, DistanceOp::Cosine] {
        let a = floats(pairwise_distance(&fpu, op, &d, 20, 3, Backend::Serial));
        let b = floats(pairwise_distance(&fpu, op, &d, 20, 3, Backend::Rayon));
        assert_eq!(a, b);
        for i in 0..20 {
            for j in 0..20 {
                assert_eq!(a[i * 20 + j], a[j * 20 + i]);
            }
        }
    }
}

#[test]
fn strided_reduction_beyond_the_end_is_missing() {
    assert_eq!(serial_reduce_strided(ReduceOp::Sum, &strided_data(), 0, 5, 0), None);
    assert_eq!(serial_reduce_strided(ReduceOp::Sum, &strided_data(), 0, 5, 4), None);
    assert_eq!(serial_reduce_strided(ReduceOp::Sum, &strided_data(), 0, 1, 1 << 60), None);
    assert_eq!(rayon_reduce_strided(ReduceOp::Max, &strided_data(), 0, usize::MAX, usize::MAX), None);
    assert_eq!(rayon_reduce_strided(ReduceOp::Sum, &strided_data(), 5, 5, 3), None);
}

#[test]
fn minimum_and_maximum_windows() {
    let d = [Some(5.0), Some(4.0), Some(3.0), None, Some(1.0), Some(2.0)];
    assert_eq!(roll(RollingOp::Max, &d, 2), vec![Some(5.0), Some(4.0), None, None, Some(2.0)]);
    assert_eq!(roll(RollingOp::Min, &d, 1), vec![Some(5.0), Some(4.0), Some(3.0), None, Some(1.0), Some(2.0)]);
}

#[test]
fn equal_values_come_in_the_order_of_their_places() {
    let d = bits(&[Some(2.0), Some(2.0), Some(2.0), Some(1.0)]);
    assert_eq!(which_max(&d), Some(0));
    assert_eq!(which_min(&d), Some(3));
    assert_eq!(top_k(&d, 2).len(), 2);
    assert_eq!(bottom_k(&d, 1), vec![3]);
}

#[test]
fn counts_add_up_to_the_keys_present() {
    let keys = [Some(7), None, Some(3), Some(7), Some(0), None, Some(3), Some(7)];
    let r = hash_tabulate(&keys);
    assert_eq!(r.keys, vec![7, 3, 0]);
    let counts: Vec<f64> = r.values.iter().map(|v| float(v.unwrap())).collect();
    assert_eq!(counts, vec![3.0, 2.0, 1.0]);
    assert_eq!(counts.iter().sum::<f64>(), 6.0);
}

#[test]
fn a_strided_reduction_is_that_of_the_copy() {
    let d: Vec<Option<f64>> = (0..24).map(|i| if i == 7 { None } else { Some(0.1 * i as f64) }).collect();
    for (offset, stride, count) in [(0, 1, 24), (2, 3, 7), (1, 6, 3)] {
        let copy: Vec<Option<f64>> = (0..count).map(|k| d[offset + k * stride]).collect();
        for op in [ReduceOp::Sum, ReduceOp::Mean, ReduceOp::Min, ReduceOp::Max, ReduceOp::Prod, ReduceOp::Var] {
            let strided = serial_reduce_strided(op, &d, offset, stride, count).map(f64::to_bits);
            assert_eq!(strided, serial_reduce(op, &copy).map(f64::to_bits));
        }
    }
    assert_eq!(serial_reduce_strided(ReduceOp::Sum, &d, 5, 4, 0), None);
    assert_eq!(serial_reduce_strided(ReduceOp::Sum, &d, 2, 11, 3), None);
}

#[test]
fn a_tabulation_counts_a_present_value_for_each_key() {
    let keys = [Some(4), None, Some(9), Some(4), Some(4), None];
    let ones = [Some(1.0); 6];
    let t = tabulate(&keys);
    let c = aggregate(AggOp::Count, &keys, &ones);
    assert_eq!(t.keys, c.keys);
    assert_eq!(t.values, c.values);
    assert_eq!(t.keys, vec![4, 9]);
    assert_eq!(t.values, vec![Some(3.0), Some(1.0)]);
}
