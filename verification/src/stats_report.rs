//! The test statistics of a multivariate analysis of variance.
use crate::double::{FloatOp, Fpu, INF, ONE_BITS, Real, TWO_BITS, nat_real, num, one, two};
use crate::grid::{sum_of, sum_reals, total};
use crate::grouping::{first_seen, lemma_first_seen, lemma_positions, positions};
use crate::kernel_par::{ScanOp, fold_slice, folded};
use crate::linalg::LinalgError;
use crate::linalg_solve::factors_square;
use crate::ordering::{order_numbers, orders};
use crate::sort::permutes;
use crate::stats_design::{Design, Printer, design_fault, labels_in, manova_design, response};
use crate::stats_manova::{between_table, compute_e_h, row_lists, rows_within, whiten, whitened, within_table};
use crate::stats_matrix::{
    SIZE_LIMIT, column_count, countable, f_tail, f_to_pvalue, failed, lemma_square, positive, row_count, row_data, sound_args,
};
use crate::text::{extend_str, owned, string_of, texts};
use crate::value::{
    ErrKind, EvalArg, R2Err, RVal, Val, field_list, instance, nth, num_val, nums_val, put, rnum, rnums, rstr, str_val,
};
use vstd::prelude::*;

verus! {

pub const FOUR: u64 = 0x4010_0000_0000_0000;

pub const FIVE: u64 = 0x4014_0000_0000_0000;

/// Bits of `1e-12`.
pub const SLACK: u64 = 0x3d71_9799_812d_ea11;

/// Bits of `0.05`.
pub const LEVEL: u64 = 0x3fa9_9999_9999_999a;

/// Bits of `0.001`.
pub const STRICT_LEVEL: u64 = 0x3f50_624d_d2f1_a9fc;

/// A statistic's F approximation.
#[derive(Clone, Copy)]
#[derive(Debug)]
pub struct Approx {
    pub f: Real,
    pub df1: Real,
    pub df2: Real,
    pub p: Real,
}

/// Wilks' lambda: the product of `1 / (1 + x)`.
pub open spec fn wilks<F: Fn(FloatOp, Real, Real, Real) -> Real>(fpu: &Fpu<F>, lam: Seq<Real>) -> Real
    decreases lam.len(),
{
    if lam.len() == 0 {
        one()
    } else {
        fpu.over(wilks(fpu, lam.drop_last()), fpu.plus(one(), lam.last()))
    }
}

pub open spec fn shares<F: Fn(FloatOp, Real, Real, Real) -> Real>(fpu: &Fpu<F>, lam: Seq<Real>) -> Seq<Real> {
    Seq::new(lam.len(), |i: int| fpu.over(lam[i], fpu.plus(one(), lam[i])))
}

/// Pillai's trace: the sum of `x / (1 + x)`.
pub open spec fn pillai<F: Fn(FloatOp, Real, Real, Real) -> Real>(fpu: &Fpu<F>, lam: Seq<Real>) -> Real {
    total(fpu, shares(fpu, lam))
}

/// Roy's largest root.
pub open spec fn roy<F: Fn(FloatOp, Real, Real, Real) -> Real>(fpu: &Fpu<F>, lam: Seq<Real>) -> Real {
    folded(fpu, ScanOp::Cummax, lam)
}

/// The sizes of a design, as doubles: rows, columns, the freedom of the
/// hypothesis, that of the error, and the number of eigenvalues that count.
#[derive(Clone, Copy)]
pub struct Sizes {
    pub n: Real,
    pub p: Real,
    pub vh: Real,
    pub ve: Real,
    pub s: Real,
}

pub open spec fn smaller(a: nat, b: nat) -> nat {
    if a < b {
        a
    } else {
        b
    }
}

pub open spec fn sizes<F: Fn(FloatOp, Real, Real, Real) -> Real>(fpu: &Fpu<F>, n: nat, p: nat, k: nat) -> Sizes {
    Sizes {
        n: nat_real(n),
        p: nat_real(p),
        vh: nat_real((k - 1) as nat),
        ve: fpu.minus(nat_real(n), nat_real(k)),
        s: nat_real(smaller(p, (k - 1) as nat)),
    }
}

fn sizes_of<F: Fn(FloatOp, Real, Real, Real) -> Real>(fpu: &Fpu<F>, n: usize, p: usize, k: usize) -> (r: Sizes)
    requires
        fpu.wf(),
        1 <= k <= n < SIZE_LIMIT,
        p < SIZE_LIMIT,
    ensures
        r == sizes(fpu, n as nat, p as nat, k as nat),
{
    let nf: Real = Real::from_count(n as u64);
    let s: usize = if p < k - 1 { p } else { k - 1 };
    Sizes {
        n: nf,
        p: Real::from_count(p as u64),
        vh: Real::from_count((k - 1) as u64),
        ve: fpu.diff(nf, Real::from_count(k as u64)),
        s: Real::from_count(s as u64),
    }
}

/// `2 x + s + 1`.
pub open spec fn widened<F: Fn(FloatOp, Real, Real, Real) -> Real>(fpu: &Fpu<F>, x: Real, s: Real) -> Real {
    fpu.plus(fpu.plus(fpu.times(two(), x), s), one())
}

fn widen<F: Fn(FloatOp, Real, Real, Real) -> Real>(fpu: &Fpu<F>, x: Real, s: Real) -> (r: Real)
    requires
        fpu.wf(),
    ensures
        r == widened(fpu, x, s),
{
    fpu.sum(fpu.sum(fpu.prod(Real { bits: TWO_BITS }, x), s), Real { bits: ONE_BITS })
}

/// `(|vh - p| - 1) / 2`.
pub open spec fn rao_m<F: Fn(FloatOp, Real, Real, Real) -> Real>(fpu: &Fpu<F>, z: Sizes) -> Real {
    fpu.over(fpu.minus(fpu.minus(z.vh, z.p).absolute(), one()), two())
}

/// `(ve - p - 1) / 2`.
pub open spec fn rao_n<F: Fn(FloatOp, Real, Real, Real) -> Real>(fpu: &Fpu<F>, z: Sizes) -> Real {
    fpu.over(fpu.minus(fpu.minus(z.ve, z.p), one()), two())
}

pub open spec fn approx<F: Fn(FloatOp, Real, Real, Real) -> Real>(fpu: &Fpu<F>, f: Real, df1: Real, df2: Real) -> Approx {
    Approx { f, df1, df2, p: f_tail(fpu, f, df1, df2) }
}

fn approx_of<F: Fn(FloatOp, Real, Real, Real) -> Real>(fpu: &Fpu<F>, f: Real, df1: Real, df2: Real) -> (r: Approx)
    requires
        fpu.wf(),
    ensures
        r == approx(fpu, f, df1, df2),
{
    Approx { f, df1, df2, p: f_to_pvalue(fpu, f, df1, df2) }
}

/// The F approximation of Wilks' lambda.
pub open spec fn wilks_approx<F: Fn(FloatOp, Real, Real, Real) -> Real>(fpu: &Fpu<F>, w: Real, z: Sizes) -> Approx {
    let below = fpu.minus(fpu.plus(fpu.square(z.p), fpu.square(z.vh)), num(FIVE));
    let s = if !below.nan() && below.key() <= 0 {
        one()
    } else {
        fpu.sqrt(
            fpu.over(fpu.minus(fpu.times(fpu.times(fpu.square(z.p), z.vh), z.vh), num(FOUR)), below),
        )
    };
    let m = fpu.minus(
        fpu.minus(z.ve, one()),
        fpu.over(fpu.plus(fpu.minus(z.p, z.vh), one()), two()),
    );
    let df1 = fpu.times(z.p, z.vh);
    let df2 = fpu.plus(fpu.minus(fpu.times(m, s), fpu.over(df1, two())), one());
    let root = fpu.pow(w, fpu.over(one(), s));
    approx(fpu, fpu.times(fpu.over(fpu.minus(one(), root), root), fpu.over(df2, df1)), df1, df2)
}

fn wilks_f<F: Fn(FloatOp, Real, Real, Real) -> Real>(fpu: &Fpu<F>, w: Real, z: Sizes) -> (r: Approx)
    requires
        fpu.wf(),
    ensures
        r == wilks_approx(fpu, w, z),
{
    let one_r: Real = Real { bits: ONE_BITS };
    let two_r: Real = Real { bits: TWO_BITS };
    let pp: Real = fpu.prod(z.p, z.p);
    let below: Real = fpu.diff(fpu.sum(pp, fpu.prod(z.vh, z.vh)), Real { bits: FIVE });
    let s: Real = if !below.is_nan() && below.order_key() <= 0 {
        one_r
    } else {
        let upper: Real = fpu.diff(fpu.prod(fpu.prod(pp, z.vh), z.vh), Real { bits: FOUR });
        fpu.root(fpu.quot(upper, below))
    };
    let half: Real = fpu.quot(fpu.sum(fpu.diff(z.p, z.vh), one_r), two_r);
    let m: Real = fpu.diff(fpu.diff(z.ve, one_r), half);
    let df1: Real = fpu.prod(z.p, z.vh);
    let df2: Real = fpu.sum(fpu.diff(fpu.prod(m, s), fpu.quot(df1, two_r)), one_r);
    let root: Real = fpu.apply(FloatOp::Power, w, fpu.quot(one_r, s));
    let odds: Real = fpu.quot(fpu.diff(one_r, root), root);
    approx_of(fpu, fpu.prod(odds, fpu.quot(df2, df1)), df1, df2)
}

/// The F approximation of Pillai's trace.
pub open spec fn pillai_approx<F: Fn(FloatOp, Real, Real, Real) -> Real>(fpu: &Fpu<F>, v: Real, z: Sizes) -> Approx {
    let a = widened(fpu, rao_m(fpu, z), z.s);
    let b = widened(fpu, rao_n(fpu, z), z.s);
    let left = fpu.minus(z.s, v);
    approx(
        fpu,
        if num(SLACK).below(left) {
            fpu.times(fpu.over(b, a), fpu.over(v, left))
        } else {
            num(INF)
        },
        fpu.times(z.s, a),
        fpu.times(z.s, b),
    )
}

fn mean_m<F: Fn(FloatOp, Real, Real, Real) -> Real>(fpu: &Fpu<F>, z: Sizes) -> (r: Real)
    requires
        fpu.wf(),
    ensures
        r == rao_m(fpu, z),
{
    fpu.quot(fpu.diff(fpu.diff(z.vh, z.p).abs(), Real { bits: ONE_BITS }), Real { bits: TWO_BITS })
}

fn mean_n<F: Fn(FloatOp, Real, Real, Real) -> Real>(fpu: &Fpu<F>, z: Sizes) -> (r: Real)
    requires
        fpu.wf(),
    ensures
        r == rao_n(fpu, z),
{
    fpu.quot(fpu.diff(fpu.diff(z.ve, z.p), Real { bits: ONE_BITS }), Real { bits: TWO_BITS })
}

fn pillai_f<F: Fn(FloatOp, Real, Real, Real) -> Real>(fpu: &Fpu<F>, v: Real, z: Sizes) -> (r: Approx)
    requires
        fpu.wf(),
    ensures
        r == pillai_approx(fpu, v, z),
{
    let a: Real = widen(fpu, mean_m(fpu, z), z.s);
    let b: Real = widen(fpu, mean_n(fpu, z), z.s);
    let left: Real = fpu.diff(z.s, v);
    let slack: Real = Real { bits: SLACK };
    let f: Real = if slack.lt(&left) {
        fpu.prod(fpu.quot(b, a), fpu.quot(v, left))
    } else {
        Real { bits: INF }
    };
    let df1: Real = fpu.prod(z.s, a);
    let df2: Real = fpu.prod(z.s, b);
    approx_of(fpu, f, df1, df2)
}

/// The F approximation of the Hotelling-Lawley trace.
pub open spec fn trace_approx<F: Fn(FloatOp, Real, Real, Real) -> Real>(fpu: &Fpu<F>, u: Real, z: Sizes) -> Approx {
    let a = widened(fpu, rao_m(fpu, z), z.s);
    let df2 = fpu.times(two(), fpu.plus(fpu.times(z.s, rao_n(fpu, z)), one()));
    approx(
        fpu,
        if positive(df2) && positive(z.s) {
            fpu.over(fpu.times(df2, u), fpu.times(fpu.square(z.s), a))
        } else {
            num(INF)
        },
        fpu.times(z.s, a),
        df2,
    )
}

fn above_zero(x: Real) -> (r: bool)
    ensures
        r == positive(x),
{
    !x.is_nan() && x.order_key() > 0
}

fn trace_f<F: Fn(FloatOp, Real, Real, Real) -> Real>(fpu: &Fpu<F>, u: Real, z: Sizes) -> (r: Approx)
    requires
        fpu.wf(),
    ensures
        r == trace_approx(fpu, u, z),
{
    let a: Real = widen(fpu, mean_m(fpu, z), z.s);
    let inner: Real = fpu.sum(fpu.prod(z.s, mean_n(fpu, z)), Real { bits: ONE_BITS });
    let df2: Real = fpu.prod(Real { bits: TWO_BITS }, inner);
    let f: Real = if above_zero(df2) && above_zero(z.s) {
        fpu.quot(fpu.prod(df2, u), fpu.prod(fpu.prod(z.s, z.s), a))
    } else {
        Real { bits: INF }
    };
    let df1: Real = fpu.prod(z.s, a);
    approx_of(fpu, f, df1, df2)
}

/// The F approximation of Roy's largest root, an upper bound.
pub open spec fn roy_approx<F: Fn(FloatOp, Real, Real, Real) -> Real>(fpu: &Fpu<F>, t: Real, z: Sizes) -> Approx {
    let d = z.p.greatest(z.vh);
    let df2 = fpu.plus(fpu.minus(z.ve, d), z.s);
    approx(
        fpu,
        if positive(df2) {
            fpu.over(fpu.times(t, df2), d)
        } else {
            num(INF)
        },
        d,
        df2,
    )
}

fn roy_f<F: Fn(FloatOp, Real, Real, Real) -> Real>(fpu: &Fpu<F>, t: Real, z: Sizes) -> (r: Approx)
    requires
        fpu.wf(),
    ensures
        r == roy_approx(fpu, t, z),
{
    let d: Real = z.p.max_value(z.vh);
    let df2: Real = fpu.sum(fpu.diff(z.ve, d), z.s);
    let f: Real = if above_zero(df2) { fpu.quot(fpu.prod(t, df2), d) } else { Real { bits: INF } };
    approx_of(fpu, f, d, df2)
}

/// The four statistics and their approximations.
#[derive(Debug)]
pub struct Statistics {
    pub pillai: Real,
    pub wilks: Real,
    pub trace: Real,
    pub roy: Real,
    pub f_pillai: Approx,
    pub f_wilks: Approx,
    pub f_trace: Approx,
    pub f_roy: Approx,
}

pub open spec fn statistics<F: Fn(FloatOp, Real, Real, Real) -> Real>(fpu: &Fpu<F>, lam: Seq<Real>, z: Sizes) -> Statistics {
    Statistics {
        pillai: pillai(fpu, lam),
        wilks: wilks(fpu, lam),
        trace: total(fpu, lam),
        roy: roy(fpu, lam),
        f_pillai: pillai_approx(fpu, pillai(fpu, lam), z),
        f_wilks: wilks_approx(fpu, wilks(fpu, lam), z),
        f_trace: trace_approx(fpu, total(fpu, lam), z),
        f_roy: roy_approx(fpu, roy(fpu, lam), z),
    }
}

/// The four statistics of the eigenvalues that count.
pub fn manova_statistics<F: Fn(FloatOp, Real, Real, Real) -> Real>(fpu: &Fpu<F>, lam: &Vec<Real>, z: Sizes) -> (r: Statistics)
    requires
        fpu.wf(),
    ensures
        r == statistics(fpu, lam@, z),
{
    let mut w: Real = Real { bits: ONE_BITS };
    let mut i: usize = 0;
    assert(lam@.take(0) =~= Seq::<Real>::empty());
    while i < lam.len()
        invariant
            fpu.wf(),
            i <= lam.len(),
            w == wilks(fpu, lam@.take(i as int)),
        decreases lam.len() - i,
    {
        assert(lam@.take(i + 1).drop_last() =~= lam@.take(i as int));
        w = fpu.quot(w, fpu.sum(Real { bits: ONE_BITS }, lam[i]));
        i += 1;
    }
    assert(lam@.take(lam@.len() as int) =~= lam@);
    let g = |i: usize| -> (x: Real)
        requires
            fpu.wf(),
            i < lam@.len(),
        ensures
            x == fpu.over(lam@[i as int], fpu.plus(one(), lam@[i as int])),
        { fpu.quot(lam[i], fpu.sum(Real { bits: ONE_BITS }, lam[i])) };
    let v: Real = sum_of(fpu, lam.len(), &g, Ghost(shares(fpu, lam@)));
    let u: Real = sum_reals(fpu, lam.as_slice());
    let t: Real = fold_slice(fpu, ScanOp::Cummax, lam.as_slice());
    Statistics {
        pillai: v,
        wilks: w,
        trace: u,
        roy: t,
        f_pillai: pillai_f(fpu, v, z),
        f_wilks: wilks_f(fpu, w, z),
        f_trace: trace_f(fpu, u, z),
        f_roy: roy_f(fpu, t, z),
    }
}

/// What an analysis of variance reports.
pub open spec fn manova_report<F: Fn(FloatOp, Real, Real, Real) -> Real>(
    fpu: &Fpu<F>,
    lam: Seq<Real>,
    n: nat,
    p: nat,
    k: nat,
) -> Val {
    let t = statistics(fpu, lam, sizes(fpu, n, p, k));
    Val::Instance(
        "manova"@,
        seq![
            ("method"@, str_val("MANOVA"@)),
            ("pillai.trace"@, num_val(t.pillai)),
            ("wilks.lambda"@, num_val(t.wilks)),
            ("hotelling.lawley"@, num_val(t.trace)),
            ("roy.largest"@, num_val(t.roy)),
            ("f.pillai"@, num_val(t.f_pillai.f)),
            ("df1.pillai"@, num_val(t.f_pillai.df1)),
            ("df2.pillai"@, num_val(t.f_pillai.df2)),
            ("p.pillai"@, num_val(t.f_pillai.p)),
            ("f.wilks"@, num_val(t.f_wilks.f)),
            ("df1.wilks"@, num_val(t.f_wilks.df1)),
            ("df2.wilks"@, num_val(t.f_wilks.df2)),
            ("p.wilks"@, num_val(t.f_wilks.p)),
            ("p.value"@, num_val(t.f_wilks.p)),
            ("f.hotelling.lawley"@, num_val(t.f_trace.f)),
            ("df1.hotelling.lawley"@, num_val(t.f_trace.df1)),
            ("df2.hotelling.lawley"@, num_val(t.f_trace.df2)),
            ("p.hotelling.lawley"@, num_val(t.f_trace.p)),
            ("f.roy"@, num_val(t.f_roy.f)),
            ("df1.roy"@, num_val(t.f_roy.df1)),
            ("df2.roy"@, num_val(t.f_roy.df2)),
            ("p.roy"@, num_val(t.f_roy.p)),
            ("n"@, num_val(nat_real(n))),
            ("p.dim"@, num_val(nat_real(p))),
            ("k.groups"@, num_val(nat_real(k))),
            ("eigenvalues"@, nums_val(lam)),
        ],
    )
}

/// The fields of one approximation.
pub open spec fn approx_fields(
    f: Seq<char>,
    df1: Seq<char>,
    df2: Seq<char>,
    p: Seq<char>,
    a: Approx,
) -> Seq<(Seq<char>, Val)> {
    seq![(f, num_val(a.f)), (df1, num_val(a.df1)), (df2, num_val(a.df2)), (p, num_val(a.p))]
}

fn put_approx(fields: &mut Vec<(String, RVal)>, f: &str, df1: &str, df2: &str, p: &str, a: Approx)
    ensures
        field_list(final(fields)@) == field_list(old(fields)@) + approx_fields(f@, df1@, df2@, p@, a),
{
    let ghost before = field_list(fields@);
    put(fields, f, rnum(a.f));
    put(fields, df1, rnum(a.df1));
    put(fields, df2, rnum(a.df2));
    put(fields, p, rnum(a.p));
    assert(field_list(fields@) =~= before + approx_fields(f@, df1@, df2@, p@, a));
}

fn report<F: Fn(FloatOp, Real, Real, Real) -> Real>(fpu: &Fpu<F>, lam: &Vec<Real>, n: usize, p: usize, k: usize) -> (r: RVal)
    requires
        fpu.wf(),
        1 <= k <= n < SIZE_LIMIT,
        p < SIZE_LIMIT,
    ensures
        r.deep() == manova_report(fpu, lam@, n as nat, p as nat, k as nat),
{
    let z: Sizes = sizes_of(fpu, n, p, k);
    let t: Statistics = manova_statistics(fpu, lam, z);
    let mut fields: Vec<(String, RVal)> = Vec::new();
    put(&mut fields, "method", rstr("MANOVA"));
    put(&mut fields, "pillai.trace", rnum(t.pillai));
    put(&mut fields, "wilks.lambda", rnum(t.wilks));
    put(&mut fields, "hotelling.lawley", rnum(t.trace));
    put(&mut fields, "roy.largest", rnum(t.roy));
    put_approx(&mut fields, "f.pillai", "df1.pillai", "df2.pillai", "p.pillai", t.f_pillai);
    put_approx(&mut fields, "f.wilks", "df1.wilks", "df2.wilks", "p.wilks", t.f_wilks);
    put(&mut fields, "p.value", rnum(t.f_wilks.p));
    put_approx(
        &mut fields,
        "f.hotelling.lawley",
        "df1.hotelling.lawley",
        "df2.hotelling.lawley",
        "p.hotelling.lawley",
        t.f_trace,
    );
    put_approx(&mut fields, "f.roy", "df1.roy", "df2.roy", "p.roy", t.f_roy);
    put(&mut fields, "n", rnum(z.n));
    put(&mut fields, "p.dim", rnum(z.p));
    put(&mut fields, "k.groups", rnum(Real::from_count(k as u64)));
    put(&mut fields, "eigenvalues", rnums(lam));
    let r = instance("manova", fields);
    assert(r.deep()->Instance_1 =~= manova_report(fpu, lam@, n as nat, p as nat, k as nat)->Instance_1);
    r
}

/// `lam` holds the `m` largest of the values, descending, or all of them; where
/// one is a NaN, it holds as many of them in some order.
pub open spec fn largest(s: Seq<Real>, m: nat, lam: Seq<Real>) -> bool {
    exists|q: Seq<usize>| #[trigger]
        orders(s, true, q) && lam == Seq::new(
            smaller(s.len(), m),
            |i: int| s[q[i] as int],
        )
}

fn largest_of(v: &Vec<Real>, m: usize) -> (r: Vec<Real>)
    ensures
        largest(v@, m as nat, r@),
{
    let n: usize = v.len();
    let q: Vec<usize> = order_numbers(v, true);
    let count: usize = if n < m { n } else { m };
    let mut out: Vec<Real> = Vec::new();
    let mut i: usize = 0;
    while i < count
        invariant
            n == v@.len(),
            permutes(q@, n as int),
            count <= n,
            i <= count,
            out@.len() == i,
            forall|k: int| 0 <= k < i ==> #[trigger] out@[k] == v@[q@[k] as int],
        decreases count - i,
    {
        assert(q@.contains(q@[i as int]));
        out.push(v[q[i]]);
        i += 1;
    }
    assert(out@ =~= Seq::new(smaller(v@.len(), m as nat), |i: int| v@[q@[i] as int]));
    out
}

/// `g` answers for any square matrix.
pub open spec fn answers<G: Fn(usize, &[Real]) -> Result<Vec<Real>, LinalgError>>(g: G) -> bool {
    forall|n: usize, s: &[Real]| s@.len() == n * n ==> #[trigger] call_requires(g, (n, s))
}

pub open spec fn indefinite_message(e: LinalgError) -> Seq<char> {
    "manova: within-group SSCP E is not positive definite ("@ + e.label()
        + ") \u{2014} likely n - k < p or perfectly collinear columns"@
}

pub open spec fn eigen_message(e: LinalgError) -> Seq<char> {
    "manova: symmetric eigenvalue solver failed ("@ + e.label() + ")"@
}

/// `r` is the report for the eigenvalues that `eigen` finds in `b`.
pub open spec fn reports_eigen<
    F: Fn(FloatOp, Real, Real, Real) -> Real,
    E: Fn(usize, &[Real]) -> Result<Vec<Real>, LinalgError>,
>(fpu: &Fpu<F>, eigen: E, b: Seq<Real>, n: nat, p: usize, k: nat, r: Result<RVal, R2Err>) -> bool {
    exists|s: &[Real], out: Result<Vec<Real>, LinalgError>|
        s@ == b && #[trigger] call_ensures(eigen, (p, s), out) && match out {
            Err(e) => failed(r, (ErrKind::Runtime, eigen_message(e))),
            Ok(v) => exists|lam: Seq<Real>| #[trigger]
                largest(v@, smaller(p as nat, (k - 1) as nat), lam) && r is Ok && r->Ok_0.deep() == manova_report(
                    fpu,
                    lam,
                    n,
                    p as nat,
                    k,
                ),
        }
}

/// `r` is the report for the cross products `e` and `h`, with the Cholesky
/// factor from `potrf` and the eigenvalues from `eigen`.
pub open spec fn reports_manova<
    F: Fn(FloatOp, Real, Real, Real) -> Real,
    P: Fn(usize, &[Real]) -> Result<Vec<Real>, LinalgError>,
    E: Fn(usize, &[Real]) -> Result<Vec<Real>, LinalgError>,
>(
    fpu: &Fpu<F>,
    potrf: P,
    eigen: E,
    e: Seq<Real>,
    h: Seq<Real>,
    n: nat,
    p: usize,
    k: nat,
    r: Result<RVal, R2Err>,
) -> bool {
    exists|s: &[Real], out: Result<Vec<Real>, LinalgError>|
        s@ == e && #[trigger] call_ensures(potrf, (p, s), out) && match out {
            Err(f) => failed(r, (ErrKind::Runtime, indefinite_message(f))),
            Ok(l) => reports_eigen(fpu, eigen, whitened(fpu, l@, h, p as nat), n, p, k, r),
        }
}

fn labelled(head: &str, e: &LinalgError, tail: &str) -> (r: R2Err)
    ensures
        r.kind == ErrKind::Runtime,
        r.msg@ == head@ + e.label() + tail@,
{
    let mut t: Vec<char> = Vec::new();
    let name: String = e.label_text();
    extend_str(&mut t, head);
    extend_str(&mut t, name.as_str());
    extend_str(&mut t, tail);
    let msg: String = string_of(&t);
    assert(msg@ =~= head@ + e.label() + tail@);
    R2Err { msg, kind: ErrKind::Runtime }
}

/// The rows of the groups of a formula.
pub open spec fn group_lists(labels: Seq<Seq<char>>) -> Seq<Seq<usize>> {
    Seq::new(first_seen(labels).len(), |g: int| positions(labels, first_seen(labels)[g]))
}

/// Analysis of variance of several responses: the four classical statistics
/// for the formula in the first argument.
pub fn bi_manova<
    F: Fn(FloatOp, Real, Real, Real) -> Real,
    S: Fn(Real) -> String,
    P: Fn(usize, &[Real]) -> Result<Vec<Real>, LinalgError>,
    E: Fn(usize, &[Real]) -> Result<Vec<Real>, LinalgError>,
>(fpu: &Fpu<F>, printer: &Printer<S>, potrf: &P, eigen: &E, a: &[EvalArg]) -> (r: Result<RVal, R2Err>)
    requires
        fpu.wf(),
        printer.wf(),
        factors_square(*potrf),
        answers(*eigen),
        sound_args(a@),
        nth(a@, 0) is List ==> countable(response(a@)),
    ensures
        match design_fault(printer, a@) {
            Some(e) => failed(r, e),
            None => {
                let y = response(a@);
                let rows = group_lists(labels_in(printer, a@));
                reports_manova(
                    fpu,
                    *potrf,
                    *eigen,
                    within_table(fpu, row_data(y), column_count(y), rows),
                    between_table(fpu, row_data(y), row_count(y), column_count(y), rows),
                    row_count(y),
                    column_count(y) as usize,
                    rows.len(),
                    r,
                )
            },
        },
{
    let d: Design = match manova_design(printer, a) {
        Ok(d) => d,
        Err(e) => {
            return Err(e);
        },
    };
    let n: usize = d.rows.n;
    let p: usize = d.rows.p;
    let k: usize = d.groups.rows.len();
    let ghost labels = labels_in(printer, a@);
    proof {
        lemma_first_seen(labels);
        assert(texts(d.groups.labels@).len() == d.groups.labels@.len());
        assert forall|g: int| 0 <= g < d.groups.rows@.len() implies (#[trigger] d.groups.rows@[g])@.len() <= n by {
            lemma_positions(labels, d.groups.labels@[g]@);
        }
        assert forall|g: int, t: int|
            0 <= g < d.groups.rows@.len() && 0 <= t < d.groups.rows@[g]@.len() implies (
        #[trigger] d.groups.rows@[g]@[t]) < n by {
            lemma_positions(labels, d.groups.labels@[g]@);
        }
        assert(rows_within(d.groups.rows@, n));
        assert(row_lists(d.groups.rows@) =~= group_lists(labels)) by {
            assert forall|g: int| 0 <= g < d.groups.rows@.len() implies d.groups.rows@[g]@ == positions(
                labels,
                first_seen(labels)[g],
            ) by {
                assert(texts(d.groups.labels@)[g] == d.groups.labels@[g]@);
            }
        }
    }
    proof {
        lemma_square(d.rows);
    }
    let (e, h) = compute_e_h(fpu, &d.rows, &d.groups.rows);
    let s: &[Real] = e.as_slice();
    let out: Result<Vec<Real>, LinalgError> = potrf(p, s);
    assert(call_ensures(*potrf, (p, s), out));
    match out {
        Err(f) => Err(
            labelled(
                "manova: within-group SSCP E is not positive definite (",
                &f,
                ") \u{2014} likely n - k < p or perfectly collinear columns",
            ),
        ),
        Ok(l) => {
            let b: Vec<Real> = whiten(fpu, &l, &h, p);
            let s2: &[Real] = b.as_slice();
            let found: Result<Vec<Real>, LinalgError> = eigen(p, s2);
            assert(call_ensures(*eigen, (p, s2), found));
            match found {
                Err(f) => {
                    let r: Result<RVal, R2Err> = Err(
                        labelled("manova: symmetric eigenvalue solver failed (", &f, ")"),
                    );
                    assert(reports_eigen(fpu, *eigen, b@, n as nat, p, k as nat, r));
                    r
                },
                Ok(v) => {
                    let m: usize = if p < k - 1 { p } else { k - 1 };
                    let lam: Vec<Real> = largest_of(&v, m);
                    let r: Result<RVal, R2Err> = Ok(report(fpu, &lam, n, p, k));
                    assert(largest(v@, smaller(p as nat, (k - 1) as nat), lam@));
                    assert(reports_eigen(fpu, *eigen, b@, n as nat, p, k as nat, r));
                    r
                },
            }
        },
    }
}

// ── Reading the statistics ───────────────────────────────────────────

/// Which statistic a design calls for.
pub open spec fn preferred_text<F: Fn(FloatOp, Real, Real, Real) -> Real>(fpu: &Fpu<F>, t: Statistics, z: Sizes, s: nat) -> Seq<
    char,
> {
    if z.ve.below(fpu.times(two(), z.p)) {
        "Pillai's trace (small n relative to p \u{2014} most robust)"@
    } else if s == 1 {
        "Wilks' Lambda or Pillai's trace (s = 1; statistics are algebraically equivalent here)"@
    } else if fpu.times(two(), fpu.minus(t.trace, t.roy).greatest(num(SLACK))).below(t.roy) {
        "Roy's largest root (one eigenvalue dominates \u{2014} effect concentrated along one dimension)"@
    } else {
        "Pillai's trace or Wilks' Lambda (effect is diffuse across dimensions)"@
    }
}

/// Which statistic a design calls for.
pub fn preferred_statistic<F: Fn(FloatOp, Real, Real, Real) -> Real>(
    fpu: &Fpu<F>,
    t: &Statistics,
    z: Sizes,
    s: usize,
) -> (r: String)
    requires
        fpu.wf(),
    ensures
        r@ == preferred_text(fpu, *t, z, s as nat),
{
    let two_r: Real = Real { bits: TWO_BITS };
    if z.ve.lt(&fpu.prod(two_r, z.p)) {
        owned("Pillai's trace (small n relative to p \u{2014} most robust)")
    } else if s == 1 {
        owned("Wilks' Lambda or Pillai's trace (s = 1; statistics are algebraically equivalent here)")
    } else {
        let rest: Real = fpu.diff(t.trace, t.roy).max_value(Real { bits: SLACK });
        if fpu.prod(two_r, rest).lt(&t.roy) {
            owned("Roy's largest root (one eigenvalue dominates \u{2014} effect concentrated along one dimension)")
        } else {
            owned("Pillai's trace or Wilks' Lambda (effect is diffuse across dimensions)")
        }
    }
}

/// Whether the statistics agree, and on what.
#[derive(Clone, Copy, PartialEq, Eq, Structural, Debug)]
pub enum Verdict {
    Disagree,
    HighlySignificant,
    Significant,
    NotSignificant,
}

pub open spec fn verdict(pillai: Real, wilks: Real, trace: Real) -> Verdict {
    let level = num(LEVEL);
    if level.below(pillai) != level.below(wilks) || level.below(pillai) != level.below(trace) {
        Verdict::Disagree
    } else if wilks.below(num(STRICT_LEVEL)) {
        Verdict::HighlySignificant
    } else if wilks.below(level) {
        Verdict::Significant
    } else {
        Verdict::NotSignificant
    }
}

/// Whether the statistics agree at the five-percent level, and on what.
pub fn manova_verdict(pillai: Real, wilks: Real, trace: Real) -> (r: Verdict)
    ensures
        r == verdict(pillai, wilks, trace),
{
    let level: Real = Real { bits: LEVEL };
    let a: bool = level.lt(&pillai);
    if a != level.lt(&wilks) || a != level.lt(&trace) {
        Verdict::Disagree
    } else if wilks.lt(&Real { bits: STRICT_LEVEL }) {
        Verdict::HighlySignificant
    } else if wilks.lt(&level) {
        Verdict::Significant
    } else {
        Verdict::NotSignificant
    }
}

} // verus!
