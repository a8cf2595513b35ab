//! Data matrices of multivariate tests: rows of observations, columns of
//! variables, stored row by row.
use crate::double::{FloatOp, Fpu, NAN_BITS, ONE_BITS, Real, TWO_BITS, nat_real, num, one, two};
use crate::grid::{entry, mean, sum_of, table, table_of, total};
use crate::linalg::LinalgError;
use crate::linalg_solve::{Lu, dgetri, factors_lu, inverts};
use crate::stats_dist::{phi, phi_value};
use crate::text::{decimal, extend_decimal, extend_str, string_of};
use crate::value::{
    ErrKind, EvalArg, R2Err, RVal, Val, class_name, fail, lemma_cell, length, reals,
};
use vstd::prelude::*;

verus! {

/// The largest size that a double counts exactly.
pub const SIZE_LIMIT: u64 = 0x20_0000_0000_0000;

/// A value whose matrices have as many numbers as their shape says, and whose
/// sizes fit the machine.
pub open spec fn sound(v: Val) -> bool
    decreases v,
{
    match v {
        Val::Numeric(s, _) => s.len() < SIZE_LIMIT,
        Val::Integer(s, _) => s.len() < SIZE_LIMIT,
        Val::Matrix(g) => g.wf() && g.nrow < SIZE_LIMIT && g.ncol < SIZE_LIMIT,
        Val::List(items) => {
            &&& items.len() < SIZE_LIMIT
            &&& forall|i: int| 0 <= i < items.len() ==> sound((#[trigger] items[i]).1)
        },
        Val::DataFrame(f) => {
            forall|i: int| 0 <= i < f.columns.len() ==> sound((#[trigger] f.columns[i]).1)
        },
        _ => true,
    }
}

pub open spec fn sound_args(a: Seq<EvalArg>) -> bool {
    forall|i: int| 0 <= i < a.len() ==> sound((#[trigger] a[i]).value.deep())
}

/// A data matrix: `n` rows of `p` numbers, row by row.
#[derive(Debug)]
pub struct Rows {
    pub n: usize,
    pub p: usize,
    pub data: Vec<Real>,
}

impl Rows {
    pub open spec fn wf(&self) -> bool {
        &&& self.data@.len() == self.p * self.n
        &&& self.n < SIZE_LIMIT
        &&& self.p < SIZE_LIMIT
    }
}

/// The number in row `i` and column `j` of rows of `p` numbers.
pub open spec fn cell(data: Seq<Real>, p: int, i: int, j: int) -> Real {
    entry(data, p, j, i)
}

/// A missing number counts as a NaN.
pub open spec fn or_nan(x: Option<Real>) -> Real {
    match x {
        Some(v) => v,
        None => num(NAN_BITS),
    }
}

/// The first column from `j` on that is no numeric vector of length `n`, with
/// the complaint about it.
pub open spec fn bad_column(items: Seq<(Option<Seq<char>>, Val)>, n: nat, j: nat) -> Option<(ErrKind, Seq<char>)>
    decreases items.len() - j,
{
    if j >= items.len() {
        None
    } else {
        match reals(items[j as int].1) {
            None => Some((ErrKind::Type, "cannot coerce to numeric"@)),
            Some(s) => if s.len() != n {
                Some((ErrKind::Runtime, length_message(j, s.len(), n)))
            } else {
                bad_column(items, n, j + 1)
            },
        }
    }
}

pub open spec fn length_message(j: nat, got: nat, n: nat) -> Seq<char> {
    "hotelling: column "@ + decimal(j + 1) + " has length "@ + decimal(got) + " but expected "@ + decimal(n)
}

/// Why a value is no data matrix.
pub open spec fn matrix_fault(v: Val) -> Option<(ErrKind, Seq<char>)> {
    match v {
        Val::Matrix(_) => None,
        Val::List(items) => if items.len() == 0 {
            Some((ErrKind::Runtime, "hotelling: empty list"@))
        } else if !(items[0].1 is Numeric || items[0].1 is Integer) {
            Some((ErrKind::Runtime, "hotelling: list elements must be numeric vectors"@))
        } else {
            bad_column(items, length(items[0].1), 0)
        },
        Val::Numeric(_, _) | Val::Integer(_, _) => None,
        _ => Some(
            (
                ErrKind::Runtime,
                "hotelling: cannot interpret "@ + class_name(v) + " as an n \u{d7} p matrix"@,
            ),
        ),
    }
}

/// The number of rows of a value taken as a data matrix.
pub open spec fn row_count(v: Val) -> nat {
    match v {
        Val::Matrix(g) => g.nrow,
        Val::List(items) => if items.len() == 0 {
            0
        } else {
            length(items[0].1)
        },
        _ => length(v),
    }
}

/// The number of columns of a value taken as a data matrix.
pub open spec fn column_count(v: Val) -> nat {
    match v {
        Val::Matrix(g) => g.ncol,
        Val::List(items) => items.len(),
        _ => 1,
    }
}

/// The entries of a value that is a data matrix can be counted.
pub open spec fn countable(v: Val) -> bool {
    matrix_fault(v) is None ==> column_count(v) * row_count(v) <= usize::MAX
}

/// The number in row `i` and column `j` of a value taken as a data matrix.
pub open spec fn data_cell(v: Val, i: int, j: int) -> Real {
    match v {
        Val::Matrix(g) => g.at(i, j),
        Val::List(items) => or_nan(reals(items[j].1)->0[i]),
        _ => or_nan(reals(v)->0[i]),
    }
}

/// The numbers of a value taken as a data matrix, row by row.
pub open spec fn row_data(v: Val) -> Seq<Real> {
    table(column_count(v), row_count(v), |j: int, i: int| data_cell(v, i, j))
}

/// `m` holds the data matrix of the value.
pub open spec fn holds(m: Rows, v: Val) -> bool {
    m.n == row_count(v) && m.p == column_count(v) && m.data@ == row_data(v) && m.wf()
}

/// The call failed for this reason.
pub open spec fn failed<T>(r: Result<T, R2Err>, e: (ErrKind, Seq<char>)) -> bool {
    r is Err && r->Err_0.kind == e.0 && r->Err_0.msg@ == e.1
}

fn or_nan_of(x: Option<Real>) -> (r: Real)
    ensures
        r == or_nan(x),
{
    match x {
        Some(v) => v,
        None => Real { bits: NAN_BITS },
    }
}

fn length_error(j: usize, got: usize, n: usize) -> (r: R2Err)
    requires
        j < SIZE_LIMIT,
    ensures
        r.kind == ErrKind::Runtime,
        r.msg@ == length_message(j as nat, got as nat, n as nat),
{
    let mut t: Vec<char> = Vec::new();
    extend_str(&mut t, "hotelling: column ");
    extend_decimal(&mut t, j as u64 + 1);
    extend_str(&mut t, " has length ");
    extend_decimal(&mut t, got as u64);
    extend_str(&mut t, " but expected ");
    extend_decimal(&mut t, n as u64);
    let msg: String = string_of(&t);
    assert(msg@ =~= length_message(j as nat, got as nat, n as nat));
    R2Err { msg, kind: ErrKind::Runtime }
}

fn columns_of(items: &Vec<(Option<String>, RVal)>, n: usize, Ghost(v): Ghost<Val>) -> (r: Result<Vec<Vec<Option<Real>>>, R2Err>)
    requires
        v is List,
        v->List_0.len() == items@.len(),
        items@.len() < SIZE_LIMIT,
        forall|j: int| 0 <= j < items@.len() ==> (#[trigger] v->List_0[j]).1 == items@[j].1.deep(),
    ensures
        match bad_column(v->List_0, n as nat, 0) {
            Some(e) => failed(r, e),
            None => {
                &&& r is Ok
                &&& r->Ok_0@.len() == items@.len()
                &&& forall|j: int|
                    0 <= j < items@.len() ==> (#[trigger] r->Ok_0@[j])@ == reals(v->List_0[j].1)->0
                        && r->Ok_0@[j]@.len() == n
            },
        },
{
    let ghost cols = v->List_0;
    let mut out: Vec<Vec<Option<Real>>> = Vec::new();
    let mut j: usize = 0;
    while j < items.len()
        invariant
            cols == v->List_0,
            cols.len() == items@.len(),
            items@.len() < SIZE_LIMIT,
            forall|j: int| 0 <= j < items@.len() ==> (#[trigger] cols[j]).1 == items@[j].1.deep(),
            j <= items.len(),
            bad_column(cols, n as nat, 0) == bad_column(cols, n as nat, j as nat),
            out@.len() == j,
            forall|k: int|
                0 <= k < j ==> (#[trigger] out@[k])@ == reals(cols[k].1)->0 && out@[k]@.len() == n,
        decreases items.len() - j,
    {
        assert(cols[j as int].1 == items@[j as int].1.deep());
        match items[j].1.as_reals() {
            Err(e) => {
                return Err(e);
            },
            Ok(s) => {
                if s.len() != n {
                    return Err(length_error(j, s.len(), n));
                }
                out.push(s);
            },
        }
        j += 1;
    }
    Ok(out)
}

/// Reads a matrix, a list of columns or a vector as a data matrix.
pub fn as_matrix(v: &RVal) -> (r: Result<Rows, R2Err>)
    requires
        sound(v.deep()),
        countable(v.deep()),
    ensures
        match matrix_fault(v.deep()) {
            Some(e) => failed(r, e),
            None => r is Ok && holds(r->Ok_0, v.deep()),
        },
{
    proof {
        reveal_with_fuel(RVal::deep, 2);
        reveal_with_fuel(sound, 2);
    }
    let ghost d = v.deep();
    match v {
        RVal::Matrix(m) => {
            let n: usize = m.nrow;
            let p: usize = m.ncol;
            let ghost f = |j: int, i: int| data_cell(d, i, j);
            let len: usize = m.data.len();
            proof {
                assert(p * n == n * p) by (nonlinear_arith);
            }
            let md: &Vec<Real> = &m.data;
            let g = |j: usize, i: usize| -> (x: Real)
                requires
                    j < p,
                    i < n,
                    md@.len() == n * p,
                    len == md@.len(),
                ensures
                    x == md@[j * n + i],
                {
                    proof {
                        lemma_cell(i as int, j as int, n as int, p as int);
                    }
                    md[j * n + i]
                };
            let data: Vec<Real> = table_of(p, n, &g, Ghost(f));
            Ok(Rows { n, p, data })
        },
        RVal::List(items) => {
            if items.len() == 0 {
                return Err(fail(ErrKind::Runtime, "hotelling: empty list"));
            }
            let ghost cols = d->List_0;
            assert(cols[0].1 == items@[0].1.deep());
            assert(sound(cols[0].1));
            let n: usize = match &items[0].1 {
                RVal::Numeric(s, _) => s.len(),
                RVal::Integer(s, _) => s.len(),
                _ => {
                    return Err(fail(ErrKind::Runtime, "hotelling: list elements must be numeric vectors"));
                },
            };
            assert(n == length(cols[0].1));
            let p: usize = items.len();
            match columns_of(items, n, Ghost(d)) {
                Err(e) => Err(e),
                Ok(c) => {
                    let ghost f = |j: int, i: int| data_cell(d, i, j);
                    let g = |j: usize, i: usize| -> (x: Real)
                        requires
                            j < c@.len(),
                            i < c@[j as int]@.len(),
                        ensures
                            x == or_nan(c@[j as int]@[i as int]),
                        { or_nan_of(c[j][i]) };
                    proof {
                        assert(p * n == n * p) by (nonlinear_arith);
                    }
                    let data: Vec<Real> = table_of(p, n, &g, Ghost(f));
                    Ok(Rows { n, p, data })
                },
            }
        },
        RVal::Numeric(_, _) | RVal::Integer(_, _) => {
            match v.as_reals() {
                Err(e) => Err(e),
                Ok(s) => {
                    let n: usize = s.len();
                    let ghost f = |j: int, i: int| data_cell(d, i, j);
                    let g = |j: usize, i: usize| -> (x: Real)
                        requires
                            i < s@.len(),
                        ensures
                            x == or_nan(s@[i as int]),
                        { or_nan_of(s[i]) };
                    let data: Vec<Real> = table_of(1, n, &g, Ghost(f));
                    Ok(Rows { n, p: 1, data })
                },
            }
        },
        _ => {
            let mut t: Vec<char> = Vec::new();
            let kind: String = v.class_name();
            extend_str(&mut t, "hotelling: cannot interpret ");
            extend_str(&mut t, kind.as_str());
            extend_str(&mut t, " as an n \u{d7} p matrix");
            let msg: String = string_of(&t);
            assert(msg@ =~= "hotelling: cannot interpret "@ + class_name(d) + " as an n \u{d7} p matrix"@);
            Err(R2Err { msg, kind: ErrKind::Runtime })
        },
    }
}

/// Column `j` of rows of `p` numbers.
pub open spec fn column(data: Seq<Real>, n: nat, p: nat, j: int) -> Seq<Real> {
    Seq::new(n, |i: int| cell(data, p as int, i, j))
}

/// The mean of each column.
pub open spec fn means<F: Fn(FloatOp, Real, Real, Real) -> Real>(fpu: &Fpu<F>, data: Seq<Real>, n: nat, p: nat) -> Seq<
    Real,
> {
    Seq::new(p, |j: int| mean(fpu, column(data, n, p, j)))
}

/// The mean of each column.
pub fn col_means<F: Fn(FloatOp, Real, Real, Real) -> Real>(fpu: &Fpu<F>, m: &Rows) -> (r: Vec<Real>)
    requires
        fpu.wf(),
        m.wf(),
    ensures
        r@ == means(fpu, m.data@, m.n as nat, m.p as nat),
{
    let n: usize = m.n;
    let p: usize = m.p;
    let ghost want = means(fpu, m.data@, n as nat, p as nat);
    let len: usize = m.data.len();
    let mut out: Vec<Real> = Vec::new();
    let mut j: usize = 0;
    while j < p
        invariant
            fpu.wf(),
            m.wf(),
            n == m.n,
            p == m.p,
            len == m.data@.len(),
            j <= p,
            want == means(fpu, m.data@, n as nat, p as nat),
            out@ == want.take(j as int),
        decreases p - j,
    {
        let g = |i: usize| -> (x: Real)
            requires
                m.wf(),
                n == m.n,
                p == m.p,
                len == m.data@.len(),
                i < n,
                j < p,
            ensures
                x == cell(m.data@, p as int, i as int, j as int),
            {
                proof {
                    lemma_cell(j as int, i as int, p as int, n as int);
                }
                m.data[i * p + j]
            };
        let s: Real = sum_of(fpu, n, &g, Ghost(column(m.data@, n as nat, p as nat, j as int)));
        let v: Real = fpu.quot(s, Real::from_count(n as u64));
        assert(v == want[j as int]);
        out.push(v);
        assert(out@ =~= want.take(j + 1));
        j += 1;
    }
    assert(out@ =~= want);
    out
}

/// The products of the deviations of two columns from given centres.
pub open spec fn co_deviations<F: Fn(FloatOp, Real, Real, Real) -> Real>(
    fpu: &Fpu<F>,
    data: Seq<Real>,
    n: nat,
    p: nat,
    centre: Seq<Real>,
    a: int,
    b: int,
) -> Seq<Real> {
    Seq::new(
        n,
        |i: int|
            fpu.times(
                fpu.minus(cell(data, p as int, i, a), centre[a]),
                fpu.minus(cell(data, p as int, i, b), centre[b]),
            ),
    )
}

/// `max(n - 1, 1)`.
pub open spec fn freedom<F: Fn(FloatOp, Real, Real, Real) -> Real>(fpu: &Fpu<F>, n: nat) -> Real {
    fpu.minus(nat_real(n), one()).greatest(one())
}

/// The sample covariance of two columns.
pub open spec fn covariance<F: Fn(FloatOp, Real, Real, Real) -> Real>(
    fpu: &Fpu<F>,
    data: Seq<Real>,
    n: nat,
    p: nat,
    a: int,
    b: int,
) -> Real {
    fpu.over(total(fpu, co_deviations(fpu, data, n, p, means(fpu, data, n, p), a, b)), freedom(fpu, n))
}

/// The sample covariance matrix, column by column.
pub open spec fn covariances<F: Fn(FloatOp, Real, Real, Real) -> Real>(
    fpu: &Fpu<F>,
    data: Seq<Real>,
    n: nat,
    p: nat,
) -> Seq<Real> {
    table(p, p, |a: int, b: int| covariance(fpu, data, n, p, a, b))
}

fn co_sum<F: Fn(FloatOp, Real, Real, Real) -> Real>(
    fpu: &Fpu<F>,
    m: &Rows,
    centre: &Vec<Real>,
    a: usize,
    b: usize,
) -> (r: Real)
    requires
        fpu.wf(),
        m.wf(),
        centre@.len() == m.p,
        a < m.p,
        b < m.p,
    ensures
        r == total(fpu, co_deviations(fpu, m.data@, m.n as nat, m.p as nat, centre@, a as int, b as int)),
{
    let n: usize = m.n;
    let p: usize = m.p;
    let len: usize = m.data.len();
    let g = |i: usize| -> (x: Real)
        requires
            fpu.wf(),
            m.wf(),
            n == m.n,
            p == m.p,
            len == m.data@.len(),
            centre@.len() == p,
            i < n,
            a < p,
            b < p,
        ensures
            x == fpu.times(
                fpu.minus(cell(m.data@, p as int, i as int, a as int), centre@[a as int]),
                fpu.minus(cell(m.data@, p as int, i as int, b as int), centre@[b as int]),
            ),
        {
            proof {
                lemma_cell(a as int, i as int, p as int, n as int);
                lemma_cell(b as int, i as int, p as int, n as int);
            }
            let da: Real = fpu.diff(m.data[i * p + a], centre[a]);
            let db: Real = fpu.diff(m.data[i * p + b], centre[b]);
            fpu.prod(da, db)
        };
    sum_of(
        fpu,
        n,
        &g,
        Ghost(co_deviations(fpu, m.data@, n as nat, p as nat, centre@, a as int, b as int)),
    )
}

/// The sample covariance matrix, column by column.
pub fn sample_cov<F: Fn(FloatOp, Real, Real, Real) -> Real>(fpu: &Fpu<F>, m: &Rows) -> (r: Vec<Real>)
    requires
        fpu.wf(),
        m.wf(),
        m.p * m.p <= usize::MAX,
    ensures
        r@ == covariances(fpu, m.data@, m.n as nat, m.p as nat),
        r@.len() == m.p * m.p,
{
    let centre: Vec<Real> = col_means(fpu, m);
    let one_r: Real = Real { bits: ONE_BITS };
    let denom: Real = fpu.diff(Real::from_count(m.n as u64), one_r).max_value(one_r);
    let ghost f = |a: int, b: int| covariance(fpu, m.data@, m.n as nat, m.p as nat, a, b);
    let g = |a: usize, b: usize| -> (x: Real)
        requires
            fpu.wf(),
            m.wf(),
            centre@ == means(fpu, m.data@, m.n as nat, m.p as nat),
            denom == freedom(fpu, m.n as nat),
            a < m.p,
            b < m.p,
        ensures
            x == covariance(fpu, m.data@, m.n as nat, m.p as nat, a as int, b as int),
        { fpu.quot(co_sum(fpu, m, &centre, a, b), denom) };
    table_of(m.p, m.p, &g, Ghost(f))
}

/// A data matrix with more rows than columns has room for a square of its
/// columns.
pub(crate) proof fn lemma_square(m: Rows)
    requires
        m.wf(),
        m.p <= m.n,
    ensures
        m.p * m.p <= usize::MAX,
{
    assert(m.p * m.p <= m.p * m.n) by (nonlinear_arith)
        requires
            0 <= m.p <= m.n,
    ;
    assert(m.data.len() == m.data@.len());
}

/// The terms of `x' M x`, row by row.
pub open spec fn quad_terms<F: Fn(FloatOp, Real, Real, Real) -> Real>(
    fpu: &Fpu<F>,
    x: Seq<Real>,
    m: Seq<Real>,
    p: nat,
) -> Seq<Real> {
    Seq::new(
        p * p,
        |t: int|
            fpu.times(
                fpu.times(x[t / (p as int)], entry(m, p as int, t / (p as int), t % (p as int))),
                x[t % (p as int)],
            ),
    )
}

pub open spec fn singular_message(e: LinalgError) -> Seq<char> {
    "hotelling: covariance matrix is singular ("@ + e.text() + ")"@
}

/// `r` is `x' M^-1 x` with the inverse that comes from `factor`.
pub open spec fn quad_inverse<
    F: Fn(FloatOp, Real, Real, Real) -> Real,
    G: Fn(usize, &[Real]) -> Result<Lu, LinalgError>,
>(fpu: &Fpu<F>, factor: G, x: Seq<Real>, m: Seq<Real>, p: usize, r: Result<Real, R2Err>) -> bool {
    exists|s: &[Real], out: Result<Lu, LinalgError>, inv: Result<Vec<Real>, LinalgError>|
        s@ == m && #[trigger] call_ensures(factor, (p, s), out) && #[trigger] inverts(fpu, p as nat, out, inv)
            && match inv {
            Err(e) => failed(r, (ErrKind::Runtime, singular_message(e))),
            Ok(v) => r == Ok::<Real, R2Err>(total(fpu, quad_terms(fpu, x, v@, p as nat))),
        }
}

/// `x' M^-1 x`.
pub fn quad_form_inv<
    F: Fn(FloatOp, Real, Real, Real) -> Real,
    G: Fn(usize, &[Real]) -> Result<Lu, LinalgError>,
>(fpu: &Fpu<F>, factor: &G, x: &Vec<Real>, m: &Vec<Real>, p: usize) -> (r: Result<Real, R2Err>)
    requires
        fpu.wf(),
        factors_lu(*factor),
        x@.len() == p,
        m@.len() == p * p,
    ensures
        quad_inverse(fpu, *factor, x@, m@, p, r),
{
    let s: &[Real] = m.as_slice();
    let len: usize = m.len();
    let inv: Result<Vec<Real>, LinalgError> = dgetri(fpu, factor, p, s);
    let ghost out = choose|out: Result<Lu, LinalgError>| #[trigger]
        call_ensures(*factor, (p, s), out) && inverts(fpu, p as nat, out, inv);
    assert(call_ensures(*factor, (p, s), out) && inverts(fpu, p as nat, out, inv));
    match inv {
        Err(e) => {
            let mut t: Vec<char> = Vec::new();
            let why: String = e.message();
            extend_str(&mut t, "hotelling: covariance matrix is singular (");
            extend_str(&mut t, why.as_str());
            extend_str(&mut t, ")");
            let msg: String = string_of(&t);
            assert(msg@ =~= singular_message(e));
            Err(R2Err { msg, kind: ErrKind::Runtime })
        },
        Ok(v) => {
            let g = |t: usize| -> (y: Real)
                requires
                    fpu.wf(),
                    t < p * p,
                    x@.len() == p,
                    v@.len() == p * p,
                    len == p * p,
                ensures
                    y == fpu.times(
                        fpu.times(
                            x@[t as int / (p as int)],
                            entry(v@, p as int, t as int / (p as int), t as int % (p as int)),
                        ),
                        x@[t as int % (p as int)],
                    ),
                {
                    proof {
                        crate::grid::lemma_split(p as int, p as int, t as int);
                        lemma_cell(t as int / (p as int), t as int % (p as int), p as int, p as int);
                    }
                    let a: usize = t / p;
                    let b: usize = t % p;
                    fpu.prod(fpu.prod(x[a], v[b * p + a]), x[b])
                };
            let q: Real = sum_of(fpu, len, &g, Ghost(quad_terms(fpu, x@, v@, p as nat)));
            Ok(q)
        },
    }
}

pub const NINE: u64 = 0x4022_0000_0000_0000;

pub const ONE_THIRD: u64 = 0x3fd5_5555_5555_5555;

pub const TWO_THIRDS: u64 = 0x3fe5_5555_5555_5555;

/// A number above zero.
pub open spec fn positive(x: Real) -> bool {
    !x.nan() && x.key() > 0
}

/// Neither infinite nor a NaN.
pub open spec fn finite(x: Real) -> bool {
    x.magnitude() < crate::double::INF
}

/// The share of the F distribution beyond `f`: the Wilson-Hilferty approximation
/// takes the cube root of an F variable as the quotient of two normal variables
/// with means `1 - 2/(9 df)` and variances `2/(9 df)`. One where the arguments
/// make no sense.
pub open spec fn f_tail<F: Fn(FloatOp, Real, Real, Real) -> Real>(fpu: &Fpu<F>, f: Real, df1: Real, df2: Real) -> Real {
    if !finite(f) || !(df1.nan() || positive(df1)) || !(df2.nan() || positive(df2)) {
        one()
    } else {
        let v1 = fpu.over(two(), fpu.times(num(NINE), df1));
        let v2 = fpu.over(two(), fpu.times(num(NINE), df2));
        let upper = fpu.minus(
            fpu.times(fpu.pow(f, num(ONE_THIRD)), fpu.minus(one(), v2)),
            fpu.minus(one(), v1),
        );
        let lower = fpu.sqrt(fpu.plus(fpu.times(fpu.pow(f, num(TWO_THIRDS)), v2), v1));
        fpu.minus(one(), phi_value(fpu, fpu.over(upper, lower)))
    }
}

fn is_finite(x: Real) -> (r: bool)
    ensures
        r == finite(x),
{
    x.abs().bits < crate::double::INF
}

fn not_positive(x: Real) -> (r: bool)
    ensures
        r == !(x.nan() || positive(x)),
{
    !x.is_nan() && x.order_key() <= 0
}

/// The p-value of an F statistic.
pub fn f_to_pvalue<F: Fn(FloatOp, Real, Real, Real) -> Real>(fpu: &Fpu<F>, f: Real, df1: Real, df2: Real) -> (r: Real)
    requires
        fpu.wf(),
    ensures
        r == f_tail(fpu, f, df1, df2),
{
    let one_r: Real = Real { bits: ONE_BITS };
    let two_r: Real = Real { bits: TWO_BITS };
    if !is_finite(f) || not_positive(df1) || not_positive(df2) {
        return one_r;
    }
    let v1: Real = fpu.quot(two_r, fpu.prod(Real { bits: NINE }, df1));
    let v2: Real = fpu.quot(two_r, fpu.prod(Real { bits: NINE }, df2));
    let c1: Real = fpu.apply(FloatOp::Power, f, Real { bits: ONE_THIRD });
    let c2: Real = fpu.apply(FloatOp::Power, f, Real { bits: TWO_THIRDS });
    let upper: Real = fpu.diff(fpu.prod(c1, fpu.diff(one_r, v2)), fpu.diff(one_r, v1));
    let lower: Real = fpu.root(fpu.sum(fpu.prod(c2, v2), v1));
    fpu.diff(one_r, phi(fpu, fpu.quot(upper, lower)))
}

} // verus!
