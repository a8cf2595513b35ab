//! The normal distribution: density, distribution function and quantiles.
use crate::double::{FloatOp, Fpu, HALF_BITS, INF, NEG_INF, ONE_BITS, Real, TWO_BITS, num, one, two, zero};
use crate::value::{ErrKind, EvalArg, R2Err, RVal, Val, arg_named, named, no_attrs, nth, nth_arg, reals, scalar};
use vstd::prelude::*;

verus! {

// Coefficients of the polynomial approximation of the error function.
pub const ERF_P: u64 = 0x3fd4_f740_a93d_7b8c;

pub const ERF_A1: u64 = 0x3fd0_4f20_c6ec_5a7e;

pub const ERF_A2: u64 = 0xbfd2_3531_cc3c_1469;

pub const ERF_A3: u64 = 0x3ff6_be1c_55ba_e157;

pub const ERF_A4: u64 = 0xbff7_401c_5701_4c39;

pub const ERF_A5: u64 = 0x3ff0_fb84_4255_a12d;

pub const SQRT_2: u64 = 0x3ff6_a09e_667f_3bcd;

pub const PI: u64 = 0x4009_21fb_5444_2d18;

pub const TINY: u64 = 0x3cd2_03af_9ee7_5616;

// Coefficients of the rational approximation of the normal quantile.
pub const Q_C0: u64 = 0x4004_1fc7_607c_419a;

pub const Q_C1: u64 = 0x3fe9_b0f8_c64f_db0a;

pub const Q_C2: u64 = 0x3f85_26d8_b1dd_5d3e;

pub const Q_D1: u64 = 0x3ff6_ecb3_1c21_9eb6;

pub const Q_D2: u64 = 0x3fc8_39f7_7292_c493;

pub const Q_D3: u64 = 0x3f55_6e26_4e48_626f;

/// The error function by a polynomial of degree five in `1 / (1 + p |x|)`, odd
/// in `x`.
pub open spec fn erf_value<F: Fn(FloatOp, Real, Real, Real) -> Real>(fpu: &Fpu<F>, x: Real) -> Real {
    let t = fpu.over(one(), fpu.plus(one(), fpu.times(num(ERF_P), x.absolute())));
    let inner = fpu.plus(num(ERF_A4), fpu.times(t, num(ERF_A5)));
    let inner = fpu.plus(num(ERF_A3), fpu.times(t, inner));
    let inner = fpu.plus(num(ERF_A2), fpu.times(t, inner));
    let inner = fpu.plus(num(ERF_A1), fpu.times(t, inner));
    let poly = fpu.times(t, inner);
    let r = fpu.minus(one(), fpu.times(poly, fpu.exp(fpu.times(x.negated(), x))));
    if !x.nan() && x.key() >= 0 {
        r
    } else {
        r.negated()
    }
}

/// The error function.
pub fn erf<F: Fn(FloatOp, Real, Real, Real) -> Real>(fpu: &Fpu<F>, x: Real) -> (r: Real)
    requires
        fpu.wf(),
    ensures
        r == erf_value(fpu, x),
{
    let one_r: Real = Real { bits: ONE_BITS };
    let scaled: Real = fpu.prod(Real { bits: ERF_P }, x.abs());
    let t: Real = fpu.quot(one_r, fpu.sum(one_r, scaled));
    let a: Real = fpu.sum(Real { bits: ERF_A4 }, fpu.prod(t, Real { bits: ERF_A5 }));
    let b: Real = fpu.sum(Real { bits: ERF_A3 }, fpu.prod(t, a));
    let c: Real = fpu.sum(Real { bits: ERF_A2 }, fpu.prod(t, b));
    let d: Real = fpu.sum(Real { bits: ERF_A1 }, fpu.prod(t, c));
    let poly: Real = fpu.prod(t, d);
    let e: Real = fpu.apply1(FloatOp::Exp, fpu.prod(x.neg(), x));
    let r: Real = fpu.diff(one_r, fpu.prod(poly, e));
    if !x.is_nan() && x.order_key() >= 0 {
        r
    } else {
        r.neg()
    }
}

/// The standard normal distribution function.
pub open spec fn phi_value<F: Fn(FloatOp, Real, Real, Real) -> Real>(fpu: &Fpu<F>, x: Real) -> Real {
    fpu.times(num(HALF_BITS), fpu.plus(one(), erf_value(fpu, over_root_two(fpu, x))))
}

/// `x` over the square root of two.
pub open spec fn over_root_two<F: Fn(FloatOp, Real, Real, Real) -> Real>(fpu: &Fpu<F>, x: Real) -> Real {
    fpu.over(x, num(SQRT_2))
}

/// The standard normal distribution function.
pub fn phi<F: Fn(FloatOp, Real, Real, Real) -> Real>(fpu: &Fpu<F>, x: Real) -> (r: Real)
    requires
        fpu.wf(),
    ensures
        r == phi_value(fpu, x),
{
    let e: Real = erf(fpu, fpu.quot(x, Real { bits: SQRT_2 }));
    fpu.prod(Real { bits: HALF_BITS }, fpu.sum(Real { bits: ONE_BITS }, e))
}

/// `a <= b` on doubles.
pub open spec fn at_most(a: Real, b: Real) -> bool {
    !a.nan() && !b.nan() && a.key() <= b.key()
}

fn le(a: Real, b: Real) -> (r: bool)
    ensures
        r == at_most(a, b),
{
    !a.is_nan() && !b.is_nan() && a.order_key() <= b.order_key()
}

/// The standard normal quantile by a rational approximation in
/// `sqrt(-2 ln(min(p, 1 - p)))`; infinite outside the open unit interval and
/// zero at one half.
pub open spec fn qnorm_value<F: Fn(FloatOp, Real, Real, Real) -> Real>(fpu: &Fpu<F>, p: Real) -> Real {
    let half = num(HALF_BITS);
    if at_most(p, zero()) {
        num(NEG_INF)
    } else if at_most(one(), p) {
        num(INF)
    } else if fpu.minus(p, half).absolute().below(num(TINY)) {
        zero()
    } else {
        let pp = if p.below(half) {
            p
        } else {
            fpu.minus(one(), p)
        };
        let t = fpu.sqrt(fpu.times(two().negated(), fpu.ln(pp)));
        let upper = fpu.plus(
            fpu.plus(num(Q_C0), fpu.times(num(Q_C1), t)),
            fpu.times(fpu.times(num(Q_C2), t), t),
        );
        let lower = fpu.plus(
            fpu.plus(
                fpu.plus(one(), fpu.times(num(Q_D1), t)),
                fpu.times(fpu.times(num(Q_D2), t), t),
            ),
            fpu.times(fpu.times(fpu.times(num(Q_D3), t), t), t),
        );
        let z = fpu.minus(t, fpu.over(upper, lower));
        if p.below(half) {
            z.negated()
        } else {
            z
        }
    }
}

/// The standard normal quantile.
pub fn qnorm_approx<F: Fn(FloatOp, Real, Real, Real) -> Real>(fpu: &Fpu<F>, p: Real) -> (r: Real)
    requires
        fpu.wf(),
    ensures
        r == qnorm_value(fpu, p),
{
    let half: Real = Real { bits: HALF_BITS };
    let one_r: Real = Real { bits: ONE_BITS };
    if le(p, Real { bits: 0 }) {
        return Real { bits: NEG_INF };
    }
    if le(one_r, p) {
        return Real { bits: INF };
    }
    if fpu.diff(p, half).abs().lt(&Real { bits: TINY }) {
        return Real { bits: 0 };
    }
    let pp: Real = if p.lt(&half) { p } else { fpu.diff(one_r, p) };
    let l: Real = fpu.apply1(FloatOp::Ln, pp);
    let two_r: Real = Real { bits: TWO_BITS };
    let t: Real = fpu.root(fpu.prod(two_r.neg(), l));
    let c1: Real = fpu.prod(Real { bits: Q_C1 }, t);
    let c2: Real = fpu.prod(fpu.prod(Real { bits: Q_C2 }, t), t);
    let upper: Real = fpu.sum(fpu.sum(Real { bits: Q_C0 }, c1), c2);
    let d1: Real = fpu.prod(Real { bits: Q_D1 }, t);
    let d2: Real = fpu.prod(fpu.prod(Real { bits: Q_D2 }, t), t);
    let d3: Real = fpu.prod(fpu.prod(fpu.prod(Real { bits: Q_D3 }, t), t), t);
    let lower: Real = fpu.sum(fpu.sum(fpu.sum(one_r, d1), d2), d3);
    let z: Real = fpu.diff(t, fpu.quot(upper, lower));
    if p.lt(&half) {
        z.neg()
    } else {
        z
    }
}

/// A number given by name, or a default.
pub open spec fn number_named(args: Seq<EvalArg>, name: Seq<char>, default: Real) -> Real {
    match named(args, name) {
        Some(v) => match scalar(v) {
            Some(x) => x,
            None => default,
        },
        None => default,
    }
}

/// A number given by name, or a default.
pub fn arg_number(args: &[EvalArg], name: &str, default: Real) -> (r: Real)
    ensures
        r == number_named(args@, name@, default),
{
    match arg_named(args, name) {
        Some(v) => match v.scalar_f64() {
            Some(x) => x,
            None => default,
        },
        None => default,
    }
}

/// The three functions of the normal distribution that take a vector.
#[derive(Clone, Copy, PartialEq, Eq, Structural, Debug)]
pub enum NormalFn {
    Density,
    Distribution,
    Quantile,
}

/// One value of a normal function with the given mean and deviation.
pub open spec fn normal_value<F: Fn(FloatOp, Real, Real, Real) -> Real>(
    fpu: &Fpu<F>,
    f: NormalFn,
    x: Real,
    mean: Real,
    sd: Real,
) -> Real {
    let z = fpu.over(fpu.minus(x, mean), sd);
    match f {
        NormalFn::Density => fpu.times(
            fpu.over(one(), fpu.times(sd, fpu.sqrt(fpu.times(two(), num(PI))))),
            fpu.exp(fpu.times(fpu.times(num(HALF_BITS).negated(), z), z)),
        ),
        NormalFn::Distribution => fpu.times(
            num(HALF_BITS),
            fpu.plus(one(), erf_value(fpu, fpu.over(z, num(SQRT_2)))),
        ),
        NormalFn::Quantile => fpu.plus(mean, fpu.times(sd, qnorm_value(fpu, x))),
    }
}

fn normal<F: Fn(FloatOp, Real, Real, Real) -> Real>(fpu: &Fpu<F>, f: NormalFn, x: Real, mean: Real, sd: Real) -> (r: Real)
    requires
        fpu.wf(),
    ensures
        r == normal_value(fpu, f, x, mean, sd),
{
    let z: Real = fpu.quot(fpu.diff(x, mean), sd);
    let half: Real = Real { bits: HALF_BITS };
    let one_r: Real = Real { bits: ONE_BITS };
    match f {
        NormalFn::Density => {
            let root: Real = fpu.root(fpu.prod(Real { bits: TWO_BITS }, Real { bits: PI }));
            let scale: Real = fpu.quot(one_r, fpu.prod(sd, root));
            let e: Real = fpu.apply1(FloatOp::Exp, fpu.prod(fpu.prod(half.neg(), z), z));
            fpu.prod(scale, e)
        },
        NormalFn::Distribution => {
            let e: Real = erf(fpu, fpu.quot(z, Real { bits: SQRT_2 }));
            fpu.prod(half, fpu.sum(one_r, e))
        },
        NormalFn::Quantile => fpu.sum(mean, fpu.prod(sd, qnorm_approx(fpu, x))),
    }
}

/// `r` is the function applied to the numbers of the first argument, with the
/// mean and the deviation that are given by name or zero and one; missing
/// numbers stay missing.
pub open spec fn normal_result<F: Fn(FloatOp, Real, Real, Real) -> Real>(
    fpu: &Fpu<F>,
    f: NormalFn,
    a: Seq<EvalArg>,
    r: Result<RVal, R2Err>,
) -> bool {
    let mean = number_named(a, "mean"@, zero());
    let sd = number_named(a, "sd"@, one());
    match reals(nth(a, 0)) {
        None => r is Err && r->Err_0.kind == ErrKind::Type && r->Err_0.msg@ == "cannot coerce to numeric"@,
        Some(s) => r is Ok && r->Ok_0.deep() == Val::Numeric(
            Seq::new(
                s.len(),
                |i: int|
                    match s[i] {
                        Some(x) => Some(normal_value(fpu, f, x, mean, sd)),
                        None => None,
                    },
            ),
            None,
        ),
    }
}

fn apply_normal<F: Fn(FloatOp, Real, Real, Real) -> Real>(fpu: &Fpu<F>, f: NormalFn, a: &[EvalArg]) -> (r: Result<
    RVal,
    R2Err,
>)
    requires
        fpu.wf(),
    ensures
        normal_result(fpu, f, a@, r),
{
    let mean: Real = arg_number(a, "mean", Real { bits: 0 });
    let sd: Real = arg_number(a, "sd", Real { bits: ONE_BITS });
    match nth_arg(a, 0).as_reals() {
        Err(e) => Err(e),
        Ok(x) => {
            let mut out: Vec<Option<Real>> = Vec::new();
            let ghost want = Seq::new(
                x@.len(),
                |i: int|
                    match x@[i] {
                        Some(x) => Some(normal_value(fpu, f, x, mean, sd)),
                        None => None,
                    },
            );
            let mut i: usize = 0;
            while i < x.len()
                invariant
                    fpu.wf(),
                    i <= x.len(),
                    want == Seq::new(
                        x@.len(),
                        |i: int|
                            match x@[i] {
                                Some(x) => Some(normal_value(fpu, f, x, mean, sd)),
                                None => None,
                            },
                    ),
                    out@ == want.take(i as int),
                decreases x.len() - i,
            {
                let v: Option<Real> = match x[i] {
                    Some(y) => Some(normal(fpu, f, y, mean, sd)),
                    None => None,
                };
                out.push(v);
                assert(out@ =~= want.take(i + 1));
                i += 1;
            }
            assert(out@ =~= want);
            Ok(RVal::Numeric(out, no_attrs()))
        },
    }
}

/// Normal density of the first argument.
pub fn bi_dnorm<F: Fn(FloatOp, Real, Real, Real) -> Real>(fpu: &Fpu<F>, a: &[EvalArg]) -> (r: Result<RVal, R2Err>)
    requires
        fpu.wf(),
    ensures
        normal_result(fpu, NormalFn::Density, a@, r),
{
    apply_normal(fpu, NormalFn::Density, a)
}

/// Normal distribution function of the first argument.
pub fn bi_pnorm<F: Fn(FloatOp, Real, Real, Real) -> Real>(fpu: &Fpu<F>, a: &[EvalArg]) -> (r: Result<RVal, R2Err>)
    requires
        fpu.wf(),
    ensures
        normal_result(fpu, NormalFn::Distribution, a@, r),
{
    apply_normal(fpu, NormalFn::Distribution, a)
}

/// Normal quantiles of the first argument.
pub fn bi_qnorm<F: Fn(FloatOp, Real, Real, Real) -> Real>(fpu: &Fpu<F>, a: &[EvalArg]) -> (r: Result<RVal, R2Err>)
    requires
        fpu.wf(),
    ensures
        normal_result(fpu, NormalFn::Quantile, a@, r),
{
    apply_normal(fpu, NormalFn::Quantile, a)
}

/// The distribution function is odd about one half as far as the error function
/// goes: opposite arguments that are not NaN and not zero have opposite error
/// functions.
pub proof fn law_erf_odd<F: Fn(FloatOp, Real, Real, Real) -> Real>(fpu: &Fpu<F>, x: Real)
    requires
        !x.nan(),
        x.key() != 0,
        fpu.times(x, x.negated()) == fpu.times(x.negated(), x),
    ensures
        erf_value(fpu, x.negated()) == erf_value(fpu, x).negated(),
{
    assert(x.negated().negated() == x);
    assert(x.negated().absolute() == x.absolute());
    let t = fpu.over(one(), fpu.plus(one(), fpu.times(num(ERF_P), x.absolute())));
    assert(forall|r: Real| #[trigger] r.negated().negated() == r);
}

} // verus!
