use ardon_r2::double::{FloatOp, Fpu, Real};
use ardon_r2::frames::{bi_arrange, bi_filter, bi_mutate, bi_select};
use ardon_r2::ordering::{bi_duplicated, bi_order, bi_rank, bi_unique};
use ardon_r2::value::{Attrs, DataFrame, EvalArg, RVal};

fn dbl(x: f64) -> Real {
    Real { bits: x.to_bits() }
}

fn float(x: Real) -> f64 {
    f64::from_bits(x.bits)
}

fn eval(op: FloatOp, a: Real, b: Real, c: Real) -> Real {
    let (x, y, z) = (float(a), float(b), float(c));
    dbl(match op {
        FloatOp::Plus => x + y,
        FloatOp::Minus => x - y,
        FloatOp::Times => x * y,
        FloatOp::Over => x / y,
        FloatOp::Power => x.powf(y),
        FloatOp::Modulo => x.rem_euclid(y),
        FloatOp::MulAdd => x.mul_add(y, z),
        FloatOp::Sqrt => x.sqrt(),
        FloatOp::Exp => x.exp(),
        FloatOp::Ln => x.ln(),
        FloatOp::Log2 => x.log2(),
        FloatOp::Log10 => x.log10(),
        FloatOp::Sin => x.sin(),
        FloatOp::Cos => x.cos(),
        FloatOp::Tan => x.tan(),
        FloatOp::Asin => x.asin(),
        FloatOp::Acos => x.acos(),
        FloatOp::Atan => x.atan(),
        FloatOp::Sinh => x.sinh(),
        FloatOp::Cosh => x.cosh(),
        FloatOp::Tanh => x.tanh(),
        FloatOp::Trunc => x.trunc(),
        FloatOp::Expm1 => x.exp_m1(),
        FloatOp::Log1p => x.ln_1p(),
    })
}

fn nums(v: &[f64]) -> RVal {
    RVal::Numeric(v.iter().map(|x| Some(dbl(*x))).collect(), Attrs { names: None })
}

fn strs(v: &[&str]) -> RVal {
    RVal::Character(v.iter().map(|x| Some(x.to_string())).collect(), Attrs { names: None })
}

fn flag(b: bool) -> RVal {
    RVal::Logical(vec![Some(b)], Attrs { names: None })
}

fn evarg(v: RVal) -> EvalArg {
    EvalArg { name: None, value: v }
}

fn named(n: &str, v: RVal) -> EvalArg {
    EvalArg { name: Some(n.to_string()), value: v }
}

fn fpu() -> Fpu<fn(FloatOp, Real, Real, Real) -> Real> {
    Fpu { eval: eval }
}

fn floats_of(v: &RVal) -> Vec<Option<f64>> {
    match v {
        RVal::Numeric(v, _) => v.iter().map(|x| x.map(float)).collect(),
        _ => panic!("expected Numeric"),
    }
}

fn frame_of(v: RVal) -> DataFrame {
    match v {
        RVal::DataFrame(d) => d,
        _ => panic!("expected DataFrame"),
    }
}

fn df_2col() -> DataFrame {
    DataFrame {
        columns: vec![("x".to_string(), nums(&[1.0, 2.0, 3.0])), ("y".to_string(), strs(&["a", "b", "c"]))],
        row_names: None,
    }
}

fn places(v: RVal) -> Vec<i32> {
    match v {
        RVal::Integer(v, _) => v.iter().filter_map(|x| *x).collect(),
        _ => panic!(),
    }
}

#[test]
fn duplicated_marks_repeats() {
    let r = bi_duplicated(&fpu(), &[evarg(nums(&[1.0, 2.0, 1.0, 3.0, 2.0]))]).unwrap();
    match r {
        RVal::Logical(v, _) => {
            let got: Vec<bool> = v.iter().filter_map(|x| *x).collect();
            assert_eq!(got, vec![false, false, true, false, true]);
        }
        _ => panic!(),
    }
}

#[test]
fn unique_keeps_first_occurrences() {
    let r = bi_unique(&fpu(), &[evarg(nums(&[1.0, 2.0, 1.0, 3.0, 2.0]))]).unwrap();
    let got: Vec<f64> = floats_of(&r).into_iter().flatten().collect();
    assert_eq!(got, vec![1.0, 2.0, 3.0]);
}

#[test]
fn order_returns_sort_indices_1based() {
    let r = bi_order(&[evarg(nums(&[3.0, 1.0, 2.0]))]).unwrap();
    assert_eq!(places(r), vec![2, 3, 1]);
}

#[test]
fn rank_assigns_ascending_ranks() {
    let r = bi_rank(&[evarg(nums(&[30.0, 10.0, 20.0]))]).unwrap();
    let got: Vec<f64> = floats_of(&r).into_iter().flatten().collect();
    assert_eq!(got, vec![3.0, 1.0, 2.0]);
}

#[test]
fn filter_keeps_true_rows() {
    let mask = RVal::Logical(vec![Some(true), Some(false), Some(true)], Attrs { names: None });
    let d = frame_of(bi_filter(&[evarg(RVal::DataFrame(df_2col())), evarg(mask)]).unwrap());
    assert_eq!(d.nrow(), 2);
    assert_eq!(floats_of(&d.columns[0].1), vec![Some(1.0), Some(3.0)]);
}

#[test]
fn select_picks_named_columns() {
    let d = frame_of(bi_select(&[evarg(RVal::DataFrame(df_2col())), evarg(strs(&["y"]))]).unwrap());
    assert_eq!(d.columns.len(), 1);
    assert_eq!(d.columns[0].0, "y");
}

#[test]
fn arrange_sorts_ascending() {
    let d = frame_of(bi_arrange(&[evarg(RVal::DataFrame(df_2col())), evarg(nums(&[3.0, 1.0, 2.0]))]).unwrap());
    assert_eq!(floats_of(&d.columns[0].1), vec![Some(2.0), Some(3.0), Some(1.0)]);
}

#[test]
fn mutate_adds_new_column_and_replaces_existing() {
    let d = frame_of(
        bi_mutate(&[
            evarg(RVal::DataFrame(df_2col())),
            named("x", nums(&[10.0, 20.0, 30.0])),
            named("z", nums(&[0.5, 0.6, 0.7])),
        ])
        .unwrap(),
    );
    assert_eq!(d.columns.len(), 3, "expected 3 columns (x replaced, y kept, z added)");
    assert_eq!(d.columns[0].0, "x");
    assert_eq!(floats_of(&d.columns[0].1), vec![Some(10.0), Some(20.0), Some(30.0)]);
    assert_eq!(d.columns[2].0, "z");
}

#[test]
fn arrange_decreasing() {
    let d = frame_of(
        bi_arrange(&[
            evarg(RVal::DataFrame(df_2col())),
            evarg(nums(&[3.0, 1.0, 2.0])),
            named("decreasing", flag(true)),
        ])
        .unwrap(),
    );
    assert_eq!(floats_of(&d.columns[0].1), vec![Some(1.0), Some(3.0), Some(2.0)]);
}

#[test]
fn equal_entries_keep_their_order() {
    let x = || evarg(nums(&[2.0, 1.0, 2.0, 1.0]));
    assert_eq!(places(bi_order(&[x()]).unwrap()), vec![2, 4, 1, 3]);
    assert_eq!(places(bi_order(&[x(), named("decreasing", flag(true))]).unwrap()), vec![1, 3, 2, 4]);
    let t = RVal::Character(vec![Some("b".to_string()), None, Some("a".to_string())], Attrs { names: None });
    assert_eq!(places(bi_order(&[evarg(t)]).unwrap()), vec![2, 3, 1]);
}

#[test]
fn missing_numbers_are_listed_somewhere() {
    let x = RVal::Numeric(vec![Some(dbl(2.0)), None, Some(dbl(1.0))], Attrs { names: None });
    let mut p = places(bi_order(&[evarg(x)]).unwrap());
    p.sort();
    assert_eq!(p, vec![1, 2, 3]);
}

#[test]
fn near_numbers_count_as_repeats() {
    let r = bi_duplicated(&fpu(), &[evarg(nums(&[1.0, 1.0 + 1e-12, 1.1]))]).unwrap();
    match r {
        RVal::Logical(v, _) => assert_eq!(v, vec![Some(false), Some(true), Some(false)]),
        _ => panic!(),
    }
    let r = bi_duplicated(&fpu(), &[evarg(strs(&["a", "b", "a"]))]).unwrap();
    match r {
        RVal::Logical(v, _) => assert_eq!(v, vec![Some(false), Some(false), Some(true)]),
        _ => panic!(),
    }
}

#[test]
fn refusals_of_wrong_arguments() {
    let none: Vec<EvalArg> = Vec::new();
    assert_eq!(bi_filter(&none).unwrap_err().msg, "filter() needs data.frame");
    assert_eq!(bi_select(&none).unwrap_err().msg, "select() needs data.frame");
    assert_eq!(bi_mutate(&none).unwrap_err().msg, "mutate() needs data.frame");
    assert_eq!(bi_arrange(&none).unwrap_err().msg, "arrange() needs data.frame");
    assert_eq!(bi_order(&none).unwrap_err().msg, "order() needs numeric or character");
    assert_eq!(bi_duplicated(&fpu(), &none).unwrap_err().msg, "duplicated() not supported for this type");
    assert!(bi_unique(&fpu(), &none).is_err());
    assert!(bi_rank(&none).is_err());
    let d = || evarg(RVal::DataFrame(df_2col()));
    assert_eq!(bi_select(&[d(), evarg(strs(&["q"]))]).unwrap_err().msg, "select: no matching columns found");
    assert!(bi_filter(&[d(), evarg(strs(&["q"]))]).is_err());
    assert!(bi_arrange(&[d(), evarg(strs(&["q"]))]).is_err());
}

#[test]
fn selecting_nothing_keeps_the_frame() {
    let d = frame_of(bi_select(&[evarg(RVal::DataFrame(df_2col()))]).unwrap());
    assert_eq!(d.columns.len(), 2);
}

#[test]
fn sort_orders_and_repeats_of_five_numbers() {
    assert_eq!(places(bi_order(&[evarg(nums(&[3.0, 1.0, 4.0, 1.0, 5.0]))]).unwrap()), vec![2, 4, 1, 3, 5]);
    let r = bi_duplicated(&fpu(), &[evarg(nums(&[1.0, 2.0, 3.0, 2.0, 1.0]))]).unwrap();
    match r {
        RVal::Logical(v, _) => {
            assert_eq!(v, vec![Some(false), Some(false), Some(false), Some(true), Some(true)]);
        },
        _ => panic!(),
    }
}

#[test]
fn numbers_left_without_repeats_are_apart() {
    let x = RVal::Numeric(vec![Some(dbl(2.0)), None, Some(dbl(2.0)), Some(dbl(2.5))], Attrs { names: None });
    let got: Vec<f64> = floats_of(&bi_unique(&fpu(), &[evarg(x)]).unwrap()).into_iter().flatten().collect();
    assert_eq!(got, vec![2.0, 2.5]);
}

#[test]
fn columns_that_are_not_named_stay() {
    let d = frame_of(bi_mutate(&[evarg(RVal::DataFrame(df_2col())), named("x", nums(&[7.0, 8.0, 9.0]))]).unwrap());
    assert_eq!(d.columns.len(), 2);
    assert_eq!(d.columns[1].0, "y");
    match &d.columns[1].1 {
        RVal::Character(v, _) => {
            assert_eq!(*v, vec![Some("a".to_string()), Some("b".to_string()), Some("c".to_string())]);
        },
        _ => panic!(),
    }
}

#[test]
fn a_direction_is_not_read_where_nothing_is_arranged() {
    let off = || named("decreasing", RVal::Logical(vec![], Attrs { names: None }));
    let r = bi_arrange(&[evarg(nums(&[1.0])), off()]);
    assert_eq!(r.unwrap_err().msg, "arrange() needs data.frame");
    let r = bi_arrange(&[evarg(RVal::DataFrame(df_2col())), evarg(strs(&["q"])), off()]);
    assert_eq!(r.unwrap_err().msg, "cannot coerce to numeric");
}
