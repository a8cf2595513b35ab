//! Hotelling's test: one sample, two samples, and pairs.
use crate::double::{FloatOp, Fpu, ONE_BITS, Real, TWO_BITS, nat_real, one, two, zero};
use crate::linalg::LinalgError;
use crate::linalg_solve::{Lu, factors_lu};
use crate::stats_matrix::{
    Rows, SIZE_LIMIT, as_matrix, col_means, column_count, countable, covariances, f_tail, f_to_pvalue, failed,
    lemma_square, matrix_fault, means, quad_form_inv, quad_inverse, row_count, row_data, sample_cov, sound, sound_args,
};
use crate::text::{decimal, extend_decimal, extend_str, string_of};
use crate::value::{
    ErrKind, EvalArg, R2Err, RVal, Val, arg_named, instance, logicals, named, nth, nth_arg, num_val, put, reals,
    rnum, rstr, str_val,
};
use vstd::prelude::*;

verus! {

/// `text a more b`, closed by `end`.
pub open spec fn sized_message(text: Seq<char>, a: nat, more: Seq<char>, b: nat, end: Seq<char>) -> Seq<char> {
    text + decimal(a) + more + decimal(b) + end
}

pub(crate) fn sized_error(text: &str, a: u64, more: &str, b: u64, end: &str) -> (r: R2Err)
    ensures
        r.kind == ErrKind::Runtime,
        r.msg@ == sized_message(text@, a as nat, more@, b as nat, end@),
{
    let mut t: Vec<char> = Vec::new();
    extend_str(&mut t, text);
    extend_decimal(&mut t, a);
    extend_str(&mut t, more);
    extend_decimal(&mut t, b);
    extend_str(&mut t, end);
    let msg: String = string_of(&t);
    assert(msg@ =~= sized_message(text@, a as nat, more@, b as nat, end@));
    R2Err { msg, kind: ErrKind::Runtime }
}

/// The F statistic of a T-squared over `n` rows of `p` numbers.
pub open spec fn one_sample_f<F: Fn(FloatOp, Real, Real, Real) -> Real>(fpu: &Fpu<F>, t2: Real, n: nat, p: nat) -> Real {
    fpu.over(
        fpu.times(t2, nat_real((n - p) as nat)),
        fpu.times(nat_real(p), fpu.minus(nat_real(n), one())),
    )
}

/// What a test over `n` rows of `p` numbers reports, given `x' S^-1 x`.
pub open spec fn one_sample_report<F: Fn(FloatOp, Real, Real, Real) -> Real>(
    fpu: &Fpu<F>,
    method: Seq<char>,
    q: Real,
    n: nat,
    p: nat,
) -> Val {
    let t2 = fpu.times(nat_real(n), q);
    let f = one_sample_f(fpu, t2, n, p);
    Val::Instance(
        "htest"@,
        seq![
            ("method"@, str_val(method)),
            ("statistic.t2"@, num_val(t2)),
            ("statistic.f"@, num_val(f)),
            ("p.value"@, num_val(f_tail(fpu, f, nat_real(p), nat_real((n - p) as nat)))),
            ("df1"@, num_val(nat_real(p))),
            ("df2"@, num_val(nat_real((n - p) as nat))),
            ("n"@, num_val(nat_real(n))),
            ("p.dim"@, num_val(nat_real(p))),
        ],
    )
}

fn report_one<F: Fn(FloatOp, Real, Real, Real) -> Real>(fpu: &Fpu<F>, method: &str, q: Real, n: usize, p: usize) -> (r: RVal)
    requires
        fpu.wf(),
        p < n < SIZE_LIMIT,
    ensures
        r.deep() == one_sample_report(fpu, method@, q, n as nat, p as nat),
{
    let nf: Real = Real::from_count(n as u64);
    let df1: Real = Real::from_count(p as u64);
    let df2: Real = Real::from_count((n - p) as u64);
    let t2: Real = fpu.prod(nf, q);
    let below: Real = fpu.prod(df1, fpu.diff(nf, Real { bits: ONE_BITS }));
    let f: Real = fpu.quot(fpu.prod(t2, df2), below);
    let pv: Real = f_to_pvalue(fpu, f, df1, df2);
    let mut fields: Vec<(String, RVal)> = Vec::new();
    put(&mut fields, "method", rstr(method));
    put(&mut fields, "statistic.t2", rnum(t2));
    put(&mut fields, "statistic.f", rnum(f));
    put(&mut fields, "p.value", rnum(pv));
    put(&mut fields, "df1", rnum(df1));
    put(&mut fields, "df2", rnum(df2));
    put(&mut fields, "n", rnum(nf));
    put(&mut fields, "p.dim", rnum(df1));
    let r = instance("htest", fields);
    assert(r.deep()->Instance_1 =~= one_sample_report(fpu, method@, q, n as nat, p as nat)->Instance_1);
    r
}

/// `r` is the report of a test whose quadratic form is `x' S^-1 x`.
pub open spec fn reports_one<
    F: Fn(FloatOp, Real, Real, Real) -> Real,
    G: Fn(usize, &[Real]) -> Result<Lu, LinalgError>,
>(
    fpu: &Fpu<F>,
    factor: G,
    method: Seq<char>,
    x: Seq<Real>,
    s: Seq<Real>,
    n: nat,
    p: usize,
    r: Result<RVal, R2Err>,
) -> bool {
    exists|q: Result<Real, R2Err>| #[trigger]
        quad_inverse(fpu, factor, x, s, p, q) && match q {
            Err(e) => failed(r, (e.kind, e.msg@)),
            Ok(v) => r is Ok && r->Ok_0.deep() == one_sample_report(fpu, method, v, n, p as nat),
        }
}

/// The mean to test against: the numbers given as `mu`, missing ones as zero,
/// or zeros.
pub open spec fn null_mean(a: Seq<EvalArg>, p: nat) -> Seq<Real> {
    match named(a, "mu"@) {
        Some(v) => {
            let s = reals(v)->0;
            Seq::new(
                s.len(),
                |i: int|
                    match s[i] {
                        Some(x) => x,
                        None => zero(),
                    },
            )
        },
        None => Seq::new(p, |i: int| zero()),
    }
}

/// Why `mu` cannot be used with `p` columns.
pub open spec fn mu_fault(a: Seq<EvalArg>, p: nat) -> Option<(ErrKind, Seq<char>)> {
    match named(a, "mu"@) {
        Some(v) => match reals(v) {
            None => Some((ErrKind::Type, "cannot coerce to numeric"@)),
            Some(s) => if s.len() != p {
                Some(
                    (
                        ErrKind::Runtime,
                        sized_message("hotelling.test: mu must have length p = "@, p, " (got "@, s.len(), ")"@),
                    ),
                )
            } else {
                None
            },
        },
        None => None,
    }
}

fn mu_of(a: &[EvalArg], p: usize) -> (r: Result<Vec<Real>, R2Err>)
    ensures
        match mu_fault(a@, p as nat) {
            Some(e) => failed(r, e),
            None => r is Ok && r->Ok_0@ == null_mean(a@, p as nat) && r->Ok_0@.len() == p,
        },
{
    let mut out: Vec<Real> = Vec::new();
    match arg_named(a, "mu") {
        Some(v) => {
            match v.as_reals() {
                Err(e) => {
                    return Err(e);
                },
                Ok(s) => {
                    if s.len() != p {
                        return Err(
                            sized_error(
                                "hotelling.test: mu must have length p = ",
                                p as u64,
                                " (got ",
                                s.len() as u64,
                                ")",
                            ),
                        );
                    }
                    let mut i: usize = 0;
                    while i < s.len()
                        invariant
                            i <= s.len(),
                            out@.len() == i,
                            forall|k: int|
                                0 <= k < i ==> #[trigger] out@[k] == (match s@[k] {
                                    Some(x) => x,
                                    None => zero(),
                                }),
                        decreases s.len() - i,
                    {
                        out.push(
                            match s[i] {
                                Some(x) => x,
                                None => Real { bits: 0 },
                            },
                        );
                        i += 1;
                    }
                },
            }
        },
        None => {
            let mut i: usize = 0;
            while i < p
                invariant
                    i <= p,
                    out@.len() == i,
                    forall|k: int| 0 <= k < i ==> #[trigger] out@[k] == zero(),
                decreases p - i,
            {
                out.push(Real { bits: 0 });
                i += 1;
            }
        },
    }
    assert(out@ =~= null_mean(a@, p as nat));
    Ok(out)
}

/// Entry by entry, `a - b`.
pub open spec fn differences<F: Fn(FloatOp, Real, Real, Real) -> Real>(
    fpu: &Fpu<F>,
    a: Seq<Real>,
    b: Seq<Real>,
) -> Seq<Real> {
    Seq::new(a.len(), |i: int| fpu.minus(a[i], b[i]))
}

/// Entry by entry, `a - b`.
pub fn subtract<F: Fn(FloatOp, Real, Real, Real) -> Real>(fpu: &Fpu<F>, a: &Vec<Real>, b: &Vec<Real>) -> (r: Vec<Real>)
    requires
        fpu.wf(),
        a@.len() == b@.len(),
    ensures
        r@ == differences(fpu, a@, b@),
{
    let mut out: Vec<Real> = Vec::new();
    let mut i: usize = 0;
    while i < a.len()
        invariant
            fpu.wf(),
            i <= a.len(),
            a@.len() == b@.len(),
            out@.len() == i,
            forall|k: int| 0 <= k < i ==> #[trigger] out@[k] == fpu.minus(a@[k], b@[k]),
        decreases a.len() - i,
    {
        out.push(fpu.diff(a[i], b[i]));
        i += 1;
    }
    assert(out@ =~= differences(fpu, a@, b@));
    out
}

proof fn lemma_nth_sound(a: Seq<EvalArg>, i: int)
    requires
        sound_args(a),
    ensures
        sound(nth(a, i)),
{
    if 0 <= i < a.len() {
        assert(sound(a[i].value.deep()));
    }
}

pub open spec fn few_rows(head: Seq<char>, n: nat, p: nat, end: Seq<char>) -> (ErrKind, Seq<char>) {
    (ErrKind::Runtime, sized_message(head, n, ", p = "@, p, end))
}

pub open spec fn one_fault(a: Seq<EvalArg>) -> Option<(ErrKind, Seq<char>)> {
    let x = nth(a, 0);
    match matrix_fault(x) {
        Some(e) => Some(e),
        None => if row_count(x) <= column_count(x) {
            Some(
                few_rows(
                    "hotelling.test: need n > p (got n = "@,
                    row_count(x),
                    column_count(x),
                    "). The sample covariance is singular otherwise."@,
                ),
            )
        } else {
            mu_fault(a, column_count(x))
        },
    }
}

/// Tests whether the column means of the first argument are those given as
/// `mu`, or zero.
pub fn bi_hotelling_one<
    F: Fn(FloatOp, Real, Real, Real) -> Real,
    G: Fn(usize, &[Real]) -> Result<Lu, LinalgError>,
>(fpu: &Fpu<F>, factor: &G, a: &[EvalArg]) -> (r: Result<RVal, R2Err>)
    requires
        fpu.wf(),
        factors_lu(*factor),
        sound_args(a@),
        countable(nth(a@, 0)),
    ensures
        one_sample_result(fpu, *factor, a@, r),
{
    proof {
        lemma_nth_sound(a@, 0);
    }
    let m: Rows = match as_matrix(&nth_arg(a, 0)) {
        Ok(m) => m,
        Err(e) => {
            return Err(e);
        },
    };
    if m.n <= m.p {
        return Err(
            sized_error(
                "hotelling.test: need n > p (got n = ",
                m.n as u64,
                ", p = ",
                m.p as u64,
                "). The sample covariance is singular otherwise.",
            ),
        );
    }
    let mu: Vec<Real> = match mu_of(a, m.p) {
        Ok(mu) => mu,
        Err(e) => {
            return Err(e);
        },
    };
    let centre: Vec<Real> = col_means(fpu, &m);
    let diff: Vec<Real> = subtract(fpu, &centre, &mu);
    proof {
        lemma_square(m);
    }
    let cov: Vec<Real> = sample_cov(fpu, &m);
    let q = quad_form_inv(fpu, factor, &diff, &cov, m.p);
    assert(quad_inverse(fpu, *factor, diff@, cov@, m.p, q));
    match q {
        Err(e) => Err(e),
        Ok(v) => Ok(report_one(fpu, "Hotelling one-sample T\u{b2}", v, m.n, m.p)),
    }
}

/// The covariance that two samples share: theirs, weighted by their freedom.
pub open spec fn pooled<F: Fn(FloatOp, Real, Real, Real) -> Real>(
    fpu: &Fpu<F>,
    sx: Seq<Real>,
    sy: Seq<Real>,
    n1: nat,
    n2: nat,
) -> Seq<Real> {
    Seq::new(
        sx.len(),
        |i: int|
            fpu.over(
                fpu.plus(
                    fpu.times(fpu.minus(nat_real(n1), one()), sx[i]),
                    fpu.times(fpu.minus(nat_real(n2), one()), sy[i]),
                ),
                fpu.minus(fpu.plus(nat_real(n1), nat_real(n2)), two()),
            ),
    )
}

fn pool<F: Fn(FloatOp, Real, Real, Real) -> Real>(
    fpu: &Fpu<F>,
    sx: &Vec<Real>,
    sy: &Vec<Real>,
    n1: usize,
    n2: usize,
) -> (r: Vec<Real>)
    requires
        fpu.wf(),
        sx@.len() == sy@.len(),
        n1 < SIZE_LIMIT,
        n2 < SIZE_LIMIT,
    ensures
        r@ == pooled(fpu, sx@, sy@, n1 as nat, n2 as nat),
{
    let f1: Real = Real::from_count(n1 as u64);
    let f2: Real = Real::from_count(n2 as u64);
    let w1: Real = fpu.diff(f1, Real { bits: ONE_BITS });
    let w2: Real = fpu.diff(f2, Real { bits: ONE_BITS });
    let denom: Real = fpu.diff(fpu.sum(f1, f2), Real { bits: TWO_BITS });
    let ghost want = pooled(fpu, sx@, sy@, n1 as nat, n2 as nat);
    let mut out: Vec<Real> = Vec::new();
    let mut i: usize = 0;
    while i < sx.len()
        invariant
            fpu.wf(),
            i <= sx.len(),
            sx@.len() == sy@.len(),
            w1 == fpu.minus(nat_real(n1 as nat), one()),
            w2 == fpu.minus(nat_real(n2 as nat), one()),
            denom == fpu.minus(fpu.plus(nat_real(n1 as nat), nat_real(n2 as nat)), two()),
            want == pooled(fpu, sx@, sy@, n1 as nat, n2 as nat),
            out@ == want.take(i as int),
        decreases sx.len() - i,
    {
        let v: Real = fpu.quot(fpu.sum(fpu.prod(w1, sx[i]), fpu.prod(w2, sy[i])), denom);
        assert(v == want[i as int]);
        out.push(v);
        assert(out@ =~= want.take(i + 1));
        i += 1;
    }
    assert(out@ =~= want);
    out
}

/// What the two-sample test reports, given `d' S^-1 d`.
pub open spec fn two_sample_report<F: Fn(FloatOp, Real, Real, Real) -> Real>(
    fpu: &Fpu<F>,
    q: Real,
    n1: nat,
    n2: nat,
    p: nat,
) -> Val {
    let f1 = nat_real(n1);
    let f2 = nat_real(n2);
    let t2 = fpu.times(fpu.over(fpu.times(f1, f2), fpu.plus(f1, f2)), q);
    let df1 = nat_real(p);
    let df2 = nat_real((n1 + n2 - p - 1) as nat);
    let f = fpu.over(fpu.times(t2, df2), fpu.times(df1, fpu.minus(fpu.plus(f1, f2), two())));
    Val::Instance(
        "htest"@,
        seq![
            ("method"@, str_val("Hotelling two-sample T\u{b2}"@)),
            ("statistic.t2"@, num_val(t2)),
            ("statistic.f"@, num_val(f)),
            ("p.value"@, num_val(f_tail(fpu, f, df1, df2))),
            ("df1"@, num_val(df1)),
            ("df2"@, num_val(df2)),
            ("n1"@, num_val(f1)),
            ("n2"@, num_val(f2)),
            ("p.dim"@, num_val(nat_real(p))),
        ],
    )
}

fn report_two<F: Fn(FloatOp, Real, Real, Real) -> Real>(fpu: &Fpu<F>, q: Real, n1: usize, n2: usize, p: usize) -> (r: RVal)
    requires
        fpu.wf(),
        n1 < SIZE_LIMIT,
        n2 < SIZE_LIMIT,
        p < SIZE_LIMIT,
        p + 1 < n1 + n2,
        n1 + n2 - p - 1 < SIZE_LIMIT,
    ensures
        r.deep() == two_sample_report(fpu, q, n1 as nat, n2 as nat, p as nat),
{
    let f1: Real = Real::from_count(n1 as u64);
    let f2: Real = Real::from_count(n2 as u64);
    let both: Real = fpu.sum(f1, f2);
    let t2: Real = fpu.prod(fpu.quot(fpu.prod(f1, f2), both), q);
    let df1: Real = Real::from_count(p as u64);
    let df2: Real = Real::from_count(n1 as u64 + n2 as u64 - p as u64 - 1);
    let below: Real = fpu.prod(df1, fpu.diff(both, Real { bits: TWO_BITS }));
    let f: Real = fpu.quot(fpu.prod(t2, df2), below);
    let pv: Real = f_to_pvalue(fpu, f, df1, df2);
    let mut fields: Vec<(String, RVal)> = Vec::new();
    put(&mut fields, "method", rstr("Hotelling two-sample T\u{b2}"));
    put(&mut fields, "statistic.t2", rnum(t2));
    put(&mut fields, "statistic.f", rnum(f));
    put(&mut fields, "p.value", rnum(pv));
    put(&mut fields, "df1", rnum(df1));
    put(&mut fields, "df2", rnum(df2));
    put(&mut fields, "n1", rnum(f1));
    put(&mut fields, "n2", rnum(f2));
    put(&mut fields, "p.dim", rnum(df1));
    let r = instance("htest", fields);
    assert(r.deep()->Instance_1 =~= two_sample_report(fpu, q, n1 as nat, n2 as nat, p as nat)->Instance_1);
    r
}

/// `r` is the two-sample report for the quadratic form `d' S^-1 d`.
pub open spec fn reports_two<
    F: Fn(FloatOp, Real, Real, Real) -> Real,
    G: Fn(usize, &[Real]) -> Result<Lu, LinalgError>,
>(
    fpu: &Fpu<F>,
    factor: G,
    d: Seq<Real>,
    s: Seq<Real>,
    n1: nat,
    n2: nat,
    p: usize,
    r: Result<RVal, R2Err>,
) -> bool {
    exists|q: Result<Real, R2Err>| #[trigger]
        quad_inverse(fpu, factor, d, s, p, q) && match q {
            Err(e) => failed(r, (e.kind, e.msg@)),
            Ok(v) => r is Ok && r->Ok_0.deep() == two_sample_report(fpu, v, n1, n2, p as nat),
        }
}

pub open spec fn two_fault(x: Val, y: Val) -> Option<(ErrKind, Seq<char>)> {
    match matrix_fault(x) {
        Some(e) => Some(e),
        None => match matrix_fault(y) {
            Some(e) => Some(e),
            None => if column_count(x) != column_count(y) {
                Some(
                    (
                        ErrKind::Runtime,
                        sized_message(
                            "hotelling.test (two-sample): X and Y must have same number of columns (got "@,
                            column_count(x),
                            " and "@,
                            column_count(y),
                            ")"@,
                        ),
                    ),
                )
            } else if row_count(x) + row_count(y) <= column_count(x) + 1 {
                Some(
                    few_rows(
                        "hotelling.test (two-sample): need n1 + n2 > p + 1 (got n1+n2 = "@,
                        row_count(x) + row_count(y),
                        column_count(x),
                        ")"@,
                    ),
                )
            } else {
                None
            },
        },
    }
}

/// The sizes of a test of two samples can be counted: those of the samples and,
/// where it is made, of the table of covariances.
pub open spec fn two_countable(a: Seq<EvalArg>) -> bool {
    let x = nth(a, 0);
    let y = nth(a, 1);
    &&& countable(x)
    &&& matrix_fault(x) is None ==> countable(y)
    &&& matrix_fault(x) is None && matrix_fault(y) is None ==> row_count(x) + row_count(y) < SIZE_LIMIT
    &&& two_fault(x, y) is None ==> column_count(x) * column_count(x) <= usize::MAX
}

/// Tests whether the column means of two samples differ.
pub fn bi_hotelling_two<
    F: Fn(FloatOp, Real, Real, Real) -> Real,
    G: Fn(usize, &[Real]) -> Result<Lu, LinalgError>,
>(fpu: &Fpu<F>, factor: &G, a: &[EvalArg]) -> (r: Result<RVal, R2Err>)
    requires
        fpu.wf(),
        factors_lu(*factor),
        sound_args(a@),
        two_countable(a@),
    ensures
        two_sample_result(fpu, *factor, a@, r),
{
    proof {
        lemma_nth_sound(a@, 0);
        lemma_nth_sound(a@, 1);
    }
    let x: Rows = match as_matrix(&nth_arg(a, 0)) {
        Ok(m) => m,
        Err(e) => {
            return Err(e);
        },
    };
    let y: Rows = match as_matrix(&nth_arg(a, 1)) {
        Ok(m) => m,
        Err(e) => {
            return Err(e);
        },
    };
    if x.p != y.p {
        return Err(
            sized_error(
                "hotelling.test (two-sample): X and Y must have same number of columns (got ",
                x.p as u64,
                " and ",
                y.p as u64,
                ")",
            ),
        );
    }
    let p: usize = x.p;
    let both: u64 = x.n as u64 + y.n as u64;
    if both <= p as u64 + 1 {
        return Err(
            sized_error(
                "hotelling.test (two-sample): need n1 + n2 > p + 1 (got n1+n2 = ",
                both,
                ", p = ",
                p as u64,
                ")",
            ),
        );
    }
    let mx: Vec<Real> = col_means(fpu, &x);
    let my: Vec<Real> = col_means(fpu, &y);
    let diff: Vec<Real> = subtract(fpu, &mx, &my);
    let sx: Vec<Real> = sample_cov(fpu, &x);
    let sy: Vec<Real> = sample_cov(fpu, &y);
    let s: Vec<Real> = pool(fpu, &sx, &sy, x.n, y.n);
    let q = quad_form_inv(fpu, factor, &diff, &s, p);
    assert(quad_inverse(fpu, *factor, diff@, s@, p, q));
    match q {
        Err(e) => Err(e),
        Ok(v) => Ok(report_two(fpu, v, x.n, y.n, p)),
    }
}

/// The differences of two data matrices, row by row.
pub open spec fn paired_data<F: Fn(FloatOp, Real, Real, Real) -> Real>(
    fpu: &Fpu<F>,
    x: Seq<Real>,
    y: Seq<Real>,
) -> Seq<Real> {
    differences(fpu, x, y)
}

pub open spec fn shape_message(n1: nat, p1: nat, n2: nat, p2: nat) -> Seq<char> {
    "hotelling.test (paired): X and Y must have identical shape (got "@ + decimal(n1) + "\u{d7}"@ + decimal(p1)
        + " vs "@ + decimal(n2) + "\u{d7}"@ + decimal(p2) + ")"@
}

fn shape_mismatch(n1: usize, p1: usize, n2: usize, p2: usize) -> (r: R2Err)
    ensures
        r.kind == ErrKind::Runtime,
        r.msg@ == shape_message(n1 as nat, p1 as nat, n2 as nat, p2 as nat),
{
    let mut t: Vec<char> = Vec::new();
    extend_str(&mut t, "hotelling.test (paired): X and Y must have identical shape (got ");
    extend_decimal(&mut t, n1 as u64);
    extend_str(&mut t, "\u{d7}");
    extend_decimal(&mut t, p1 as u64);
    extend_str(&mut t, " vs ");
    extend_decimal(&mut t, n2 as u64);
    extend_str(&mut t, "\u{d7}");
    extend_decimal(&mut t, p2 as u64);
    extend_str(&mut t, ")");
    let msg: String = string_of(&t);
    assert(msg@ =~= shape_message(n1 as nat, p1 as nat, n2 as nat, p2 as nat));
    R2Err { msg, kind: ErrKind::Runtime }
}

pub open spec fn paired_fault(x: Val, y: Val) -> Option<(ErrKind, Seq<char>)> {
    match matrix_fault(x) {
        Some(e) => Some(e),
        None => match matrix_fault(y) {
            Some(e) => Some(e),
            None => if row_count(x) != row_count(y) || column_count(x) != column_count(y) {
                Some(
                    (
                        ErrKind::Runtime,
                        shape_message(row_count(x), column_count(x), row_count(y), column_count(y)),
                    ),
                )
            } else if row_count(x) <= column_count(x) {
                Some(
                    few_rows(
                        "hotelling.test (paired): need n > p (got n = "@,
                        row_count(x),
                        column_count(x),
                        ")"@,
                    ),
                )
            } else {
                None
            },
        },
    }
}

/// Tests whether the mean difference of paired rows is zero.
pub fn bi_hotelling_paired<
    F: Fn(FloatOp, Real, Real, Real) -> Real,
    G: Fn(usize, &[Real]) -> Result<Lu, LinalgError>,
>(fpu: &Fpu<F>, factor: &G, a: &[EvalArg]) -> (r: Result<RVal, R2Err>)
    requires
        fpu.wf(),
        factors_lu(*factor),
        sound_args(a@),
        countable(nth(a@, 0)),
        matrix_fault(nth(a@, 0)) is None ==> countable(nth(a@, 1)),
    ensures
        paired_sample_result(fpu, *factor, a@, r),
{
    proof {
        lemma_nth_sound(a@, 0);
        lemma_nth_sound(a@, 1);
    }
    let x: Rows = match as_matrix(&nth_arg(a, 0)) {
        Ok(m) => m,
        Err(e) => {
            return Err(e);
        },
    };
    let y: Rows = match as_matrix(&nth_arg(a, 1)) {
        Ok(m) => m,
        Err(e) => {
            return Err(e);
        },
    };
    if x.n != y.n || x.p != y.p {
        return Err(shape_mismatch(x.n, x.p, y.n, y.p));
    }
    if x.n <= x.p {
        return Err(
            sized_error(
                "hotelling.test (paired): need n > p (got n = ",
                x.n as u64,
                ", p = ",
                x.p as u64,
                ")",
            ),
        );
    }
    let data: Vec<Real> = subtract(fpu, &x.data, &y.data);
    let d: Rows = Rows { n: x.n, p: x.p, data };
    let centre: Vec<Real> = col_means(fpu, &d);
    proof {
        lemma_square(d);
    }
    let cov: Vec<Real> = sample_cov(fpu, &d);
    let q = quad_form_inv(fpu, factor, &centre, &cov, d.p);
    assert(quad_inverse(fpu, *factor, centre@, cov@, d.p, q));
    match q {
        Err(e) => Err(e),
        Ok(v) => Ok(report_one(fpu, "Hotelling paired T\u{b2} (multivariate)", v, d.n, d.p)),
    }
}

/// The three forms of the test.
#[derive(Clone, Copy, PartialEq, Eq, Structural, Debug)]
pub enum Flavor {
    One,
    Two,
    Paired,
}

/// Whether an argument asks for something: its first truth value.
pub open spec fn flag_named(a: Seq<EvalArg>, name: Seq<char>) -> bool {
    match named(a, name) {
        Some(v) => match logicals(v) {
            Some(s) => s.len() > 0 && s[0] == Some(true),
            None => false,
        },
        None => false,
    }
}

/// Which test a call asks for: a second argument without a name makes it a test
/// of two samples, and `paired` one of pairs.
pub open spec fn flavor(a: Seq<EvalArg>) -> Flavor {
    if a.len() >= 2 && a[1].name is None {
        if flag_named(a, "paired"@) {
            Flavor::Paired
        } else {
            Flavor::Two
        }
    } else {
        Flavor::One
    }
}

/// Which test a call asks for.
pub fn hotelling_flavor(a: &[EvalArg]) -> (r: Flavor)
    ensures
        r == flavor(a@),
{
    let paired: bool = match arg_named(a, "paired") {
        Some(v) => match v.as_logicals() {
            Ok(s) => s.len() > 0 && (match s[0] {
                Some(b) => b,
                None => false,
            }),
            Err(_) => false,
        },
        None => false,
    };
    if a.len() >= 2 && a[1].name.is_none() {
        if paired {
            Flavor::Paired
        } else {
            Flavor::Two
        }
    } else {
        Flavor::One
    }
}

/// Hotelling's test in the form that the arguments ask for.
pub fn bi_hotelling_test<
    F: Fn(FloatOp, Real, Real, Real) -> Real,
    G: Fn(usize, &[Real]) -> Result<Lu, LinalgError>,
>(fpu: &Fpu<F>, factor: &G, a: &[EvalArg]) -> (r: Result<RVal, R2Err>)
    requires
        fpu.wf(),
        factors_lu(*factor),
        sound_args(a@),
        match flavor(a@) {
            Flavor::One => countable(nth(a@, 0)),
            Flavor::Two => two_countable(a@),
            Flavor::Paired => countable(nth(a@, 0)) && (matrix_fault(nth(a@, 0)) is None ==> countable(nth(a@, 1))),
        },
    ensures
        match flavor(a@) {
            Flavor::One => one_sample_result(fpu, *factor, a@, r),
            Flavor::Two => two_sample_result(fpu, *factor, a@, r),
            Flavor::Paired => paired_sample_result(fpu, *factor, a@, r),
        },
{
    match hotelling_flavor(a) {
        Flavor::One => bi_hotelling_one(fpu, factor, a),
        Flavor::Two => bi_hotelling_two(fpu, factor, a),
        Flavor::Paired => bi_hotelling_paired(fpu, factor, a),
    }
}

/// What the one-sample test gives.
pub open spec fn one_sample_result<
    F: Fn(FloatOp, Real, Real, Real) -> Real,
    G: Fn(usize, &[Real]) -> Result<Lu, LinalgError>,
>(fpu: &Fpu<F>, factor: G, a: Seq<EvalArg>, r: Result<RVal, R2Err>) -> bool {
    match one_fault(a) {
        Some(e) => failed(r, e),
        None => {
            let x = nth(a, 0);
            let n = row_count(x);
            let p = column_count(x);
            reports_one(
                fpu,
                factor,
                "Hotelling one-sample T\u{b2}"@,
                differences(fpu, means(fpu, row_data(x), n, p), null_mean(a, p)),
                covariances(fpu, row_data(x), n, p),
                n,
                p as usize,
                r,
            )
        },
    }
}

/// What the two-sample test gives.
pub open spec fn two_sample_result<
    F: Fn(FloatOp, Real, Real, Real) -> Real,
    G: Fn(usize, &[Real]) -> Result<Lu, LinalgError>,
>(fpu: &Fpu<F>, factor: G, a: Seq<EvalArg>, r: Result<RVal, R2Err>) -> bool {
    match two_fault(nth(a, 0), nth(a, 1)) {
        Some(e) => failed(r, e),
        None => {
            let x = nth(a, 0);
            let y = nth(a, 1);
            let n1 = row_count(x);
            let n2 = row_count(y);
            let p = column_count(x);
            reports_two(
                fpu,
                factor,
                differences(fpu, means(fpu, row_data(x), n1, p), means(fpu, row_data(y), n2, p)),
                pooled(
                    fpu,
                    covariances(fpu, row_data(x), n1, p),
                    covariances(fpu, row_data(y), n2, p),
                    n1,
                    n2,
                ),
                n1,
                n2,
                p as usize,
                r,
            )
        },
    }
}

/// What the test of pairs gives.
pub open spec fn paired_sample_result<
    F: Fn(FloatOp, Real, Real, Real) -> Real,
    G: Fn(usize, &[Real]) -> Result<Lu, LinalgError>,
>(fpu: &Fpu<F>, factor: G, a: Seq<EvalArg>, r: Result<RVal, R2Err>) -> bool {
    match paired_fault(nth(a, 0), nth(a, 1)) {
        Some(e) => failed(r, e),
        None => {
            let x = nth(a, 0);
            let n = row_count(x);
            let p = column_count(x);
            let d = paired_data(fpu, row_data(x), row_data(nth(a, 1)));
            reports_one(
                fpu,
                factor,
                "Hotelling paired T\u{b2} (multivariate)"@,
                means(fpu, d, n, p),
                covariances(fpu, d, n, p),
                n,
                p as usize,
                r,
            )
        },
    }
}

} // verus!
