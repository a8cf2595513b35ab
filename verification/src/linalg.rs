//! Vector and matrix-vector operations. Matrices are stored column by column.
use crate::double::{FloatOp, Fpu, Real, one, zero, ONE_BITS};
use crate::grid::{entry, sum_of, total};
use crate::text::{debug_of, debug_text, decimal, extend_decimal, extend_str, owned, string_of};
use crate::value::lemma_cell;
use vstd::prelude::*;

verus! {

/// Bits of `1e-15`, below which a pivot counts as zero.
pub const PIVOT_BITS: u64 = 0x3cd2_03af_9ee7_5616;

/// Why a linear-algebra routine refused its input.
#[derive(Debug)]
pub enum LinalgError {
    NotSquare,
    DimensionMismatch { expected: (usize, usize), got: (usize, usize) },
    InvalidShape(String),
    Singular,
}

/// A refusal with its text as a sequence.
pub enum Fault {
    NotSquare,
    Mismatch((usize, usize), (usize, usize)),
    Shape(Seq<char>),
    Singular,
}

impl LinalgError {
    pub open spec fn deep(self) -> Fault {
        match self {
            LinalgError::NotSquare => Fault::NotSquare,
            LinalgError::DimensionMismatch { expected, got } => Fault::Mismatch(expected, got),
            LinalgError::InvalidShape(s) => Fault::Shape(s@),
            LinalgError::Singular => Fault::Singular,
        }
    }
}

impl LinalgError {
    /// The refusal in words.
    pub open spec fn text(self) -> Seq<char> {
        match self {
            LinalgError::NotSquare => "matrix is not square"@,
            LinalgError::DimensionMismatch { expected, got } => "dimension mismatch: expected "@ + decimal(
                expected.0 as nat,
            ) + "x"@ + decimal(expected.1 as nat) + ", got "@ + decimal(got.0 as nat) + "x"@ + decimal(
                got.1 as nat,
            ),
            LinalgError::InvalidShape(s) => "invalid shape: "@ + s@,
            LinalgError::Singular => "matrix is singular"@,
        }
    }

    /// The refusal by its name and contents.
    pub open spec fn label(self) -> Seq<char> {
        match self {
            LinalgError::NotSquare => "NotSquare"@,
            LinalgError::DimensionMismatch { expected, got } => "DimensionMismatch { expected: ("@ + decimal(
                expected.0 as nat,
            ) + ", "@ + decimal(expected.1 as nat) + "), got: ("@ + decimal(got.0 as nat) + ", "@ + decimal(
                got.1 as nat,
            ) + ") }"@,
            LinalgError::InvalidShape(s) => "InvalidShape("@ + debug_text(s@) + ")"@,
            LinalgError::Singular => "Singular"@,
        }
    }

    /// The refusal by its name and contents.
    pub fn label_text(&self) -> (r: String)
        ensures
            r@ == self.label(),
    {
        let mut t: Vec<char> = Vec::new();
        match self {
            LinalgError::NotSquare => extend_str(&mut t, "NotSquare"),
            LinalgError::DimensionMismatch { expected, got } => {
                extend_str(&mut t, "DimensionMismatch { expected: (");
                extend_decimal(&mut t, expected.0 as u64);
                extend_str(&mut t, ", ");
                extend_decimal(&mut t, expected.1 as u64);
                extend_str(&mut t, "), got: (");
                extend_decimal(&mut t, got.0 as u64);
                extend_str(&mut t, ", ");
                extend_decimal(&mut t, got.1 as u64);
                extend_str(&mut t, ") }");
            },
            LinalgError::InvalidShape(s) => {
                let shape: String = debug_of(s.as_str());
                extend_str(&mut t, "InvalidShape(");
                extend_str(&mut t, shape.as_str());
                extend_str(&mut t, ")");
            },
            LinalgError::Singular => extend_str(&mut t, "Singular"),
        }
        let r: String = string_of(&t);
        assert(r@ =~= self.label());
        r
    }

    /// The refusal in words.
    pub fn message(&self) -> (r: String)
        ensures
            r@ == self.text(),
    {
        let mut t: Vec<char> = Vec::new();
        match self {
            LinalgError::NotSquare => extend_str(&mut t, "matrix is not square"),
            LinalgError::DimensionMismatch { expected, got } => {
                extend_str(&mut t, "dimension mismatch: expected ");
                extend_decimal(&mut t, expected.0 as u64);
                extend_str(&mut t, "x");
                extend_decimal(&mut t, expected.1 as u64);
                extend_str(&mut t, ", got ");
                extend_decimal(&mut t, got.0 as u64);
                extend_str(&mut t, "x");
                extend_decimal(&mut t, got.1 as u64);
            },
            LinalgError::InvalidShape(s) => {
                extend_str(&mut t, "invalid shape: ");
                extend_str(&mut t, s.as_str());
            },
            LinalgError::Singular => extend_str(&mut t, "matrix is singular"),
        }
        let r: String = string_of(&t);
        assert(r@ =~= self.text());
        r
    }
}

/// The call was refused for this reason.
pub open spec fn refused<T>(r: Result<T, LinalgError>, e: Fault) -> bool {
    r is Err && r->Err_0.deep() == e
}

/// Sum of the products at the positions `k`, `k + 4`, and so on, `q` of them.
pub open spec fn lane<F: Fn(FloatOp, Real, Real, Real) -> Real>(
    fpu: &Fpu<F>,
    x: Seq<Real>,
    y: Seq<Real>,
    k: int,
    q: nat,
) -> Real
    decreases q,
{
    if q == 0 {
        zero()
    } else {
        fpu.plus(
            lane(fpu, x, y, k, (q - 1) as nat),
            fpu.times(x[4 * (q - 1) + k], y[4 * (q - 1) + k]),
        )
    }
}

/// The products from position `from` on.
pub open spec fn products_from<F: Fn(FloatOp, Real, Real, Real) -> Real>(
    fpu: &Fpu<F>,
    x: Seq<Real>,
    y: Seq<Real>,
    from: nat,
) -> Seq<Real> {
    Seq::new((x.len() - from) as nat, |i: int| fpu.times(x[from + i], y[from + i]))
}

/// The dot product: four interleaved sums over the part whose length is a
/// multiple of four, and then the rest.
pub open spec fn dot<F: Fn(FloatOp, Real, Real, Real) -> Real>(fpu: &Fpu<F>, x: Seq<Real>, y: Seq<Real>) -> Real {
    let q = x.len() / 4;
    fpu.plus(
        fpu.plus(
            fpu.plus(fpu.plus(lane(fpu, x, y, 0, q), lane(fpu, x, y, 1, q)), lane(fpu, x, y, 2, q)),
            lane(fpu, x, y, 3, q),
        ),
        total(fpu, products_from(fpu, x, y, q * 4)),
    )
}

fn fma<F: Fn(FloatOp, Real, Real, Real) -> Real>(fpu: &Fpu<F>, acc: Real, a: Real, b: Real) -> (r: Real)
    requires
        fpu.wf(),
    ensures
        r == fpu.plus(acc, fpu.times(a, b)),
{
    let p: Real = fpu.apply(FloatOp::Times, a, b);
    fpu.apply(FloatOp::Plus, acc, p)
}

/// The dot product of two vectors of the same length.
pub fn ddot<F: Fn(FloatOp, Real, Real, Real) -> Real>(fpu: &Fpu<F>, x: &[Real], y: &[Real]) -> (r: Real)
    requires
        fpu.wf(),
        x@.len() == y@.len(),
    ensures
        r == dot(fpu, x@, y@),
{
    let n: usize = x.len();
    let q: usize = n / 4;
    let z: Real = Real { bits: 0 };
    let mut s0: Real = z;
    let mut s1: Real = z;
    let mut s2: Real = z;
    let mut s3: Real = z;
    let mut k: usize = 0;
    while k < q
        invariant
            fpu.wf(),
            n == x@.len(),
            n == y@.len(),
            q == n / 4,
            k <= q,
            s0 == lane(fpu, x@, y@, 0, k as nat),
            s1 == lane(fpu, x@, y@, 1, k as nat),
            s2 == lane(fpu, x@, y@, 2, k as nat),
            s3 == lane(fpu, x@, y@, 3, k as nat),
        decreases q - k,
    {
        let i: usize = 4 * k;
        s0 = fma(fpu, s0, x[i], y[i]);
        s1 = fma(fpu, s1, x[i + 1], y[i + 1]);
        s2 = fma(fpu, s2, x[i + 2], y[i + 2]);
        s3 = fma(fpu, s3, x[i + 3], y[i + 3]);
        k += 1;
    }
    let main: usize = q * 4;
    let g = |i: usize| -> (v: Real)
        requires
            fpu.wf(),
            main + i < x@.len(),
            x@.len() == y@.len(),
        ensures
            v == fpu.times(x@[main + i], y@[main + i]),
        { fpu.apply(FloatOp::Times, x[main + i], y[main + i]) };
    let tail: Real = sum_of(fpu, n - main, &g, Ghost(products_from(fpu, x@, y@, main as nat)));
    let a: Real = fpu.apply(FloatOp::Plus, s0, s1);
    let b: Real = fpu.apply(FloatOp::Plus, a, s2);
    let c: Real = fpu.apply(FloatOp::Plus, b, s3);
    fpu.apply(FloatOp::Plus, c, tail)
}

/// `alpha * x + y`, entry by entry; `y` itself where `alpha` is zero.
pub open spec fn axpy<F: Fn(FloatOp, Real, Real, Real) -> Real>(
    fpu: &Fpu<F>,
    alpha: Real,
    x: Seq<Real>,
    y: Seq<Real>,
) -> Seq<Real> {
    if alpha.same(zero()) {
        y
    } else {
        Seq::new(y.len(), |i: int| fpu.plus(y[i], fpu.times(alpha, x[i])))
    }
}

/// Adds `alpha * x` to `y`.
pub fn daxpy<F: Fn(FloatOp, Real, Real, Real) -> Real>(fpu: &Fpu<F>, alpha: Real, x: &[Real], y: &mut Vec<Real>)
    requires
        fpu.wf(),
        x@.len() == old(y)@.len(),
    ensures
        final(y)@ == axpy(fpu, alpha, x@, old(y)@),
{
    if alpha.eq_value(&Real { bits: 0 }) {
        return;
    }
    let ghost y0 = y@;
    let n: usize = x.len();
    let mut i: usize = 0;
    while i < n
        invariant
            fpu.wf(),
            i <= n,
            n == x@.len(),
            y@.len() == n,
            y0.len() == n,
            forall|k: int| 0 <= k < i ==> #[trigger] y@[k] == fpu.plus(y0[k], fpu.times(alpha, x@[k])),
            forall|k: int| i <= k < n ==> #[trigger] y@[k] == y0[k],
        decreases n - i,
    {
        let v: Real = fma(fpu, y[i], alpha, x[i]);
        y.set(i, v);
        i += 1;
    }
    assert(y@ =~= axpy(fpu, alpha, x@, y0));
}

/// `alpha * x`; `x` itself where `alpha` is one.
pub open spec fn scaled<F: Fn(FloatOp, Real, Real, Real) -> Real>(
    fpu: &Fpu<F>,
    alpha: Real,
    x: Seq<Real>,
) -> Seq<Real> {
    if alpha.same(one()) {
        x
    } else {
        Seq::new(x.len(), |i: int| fpu.times(x[i], alpha))
    }
}

/// Multiplies a vector by a number.
pub fn dscal<F: Fn(FloatOp, Real, Real, Real) -> Real>(fpu: &Fpu<F>, alpha: Real, x: &mut Vec<Real>)
    requires
        fpu.wf(),
    ensures
        final(x)@ == scaled(fpu, alpha, old(x)@),
{
    if alpha.eq_value(&Real { bits: ONE_BITS }) {
        return;
    }
    let ghost x0 = x@;
    let n: usize = x.len();
    let mut i: usize = 0;
    while i < n
        invariant
            fpu.wf(),
            i <= n,
            x@.len() == n,
            x0.len() == n,
            forall|k: int| 0 <= k < i ==> #[trigger] x@[k] == fpu.times(x0[k], alpha),
            forall|k: int| i <= k < n ==> #[trigger] x@[k] == x0[k],
        decreases n - i,
    {
        let v: Real = fpu.apply(FloatOp::Times, x[i], alpha);
        x.set(i, v);
        i += 1;
    }
    assert(x@ =~= scaled(fpu, alpha, x0));
}

/// Position of the largest absolute value among the first `k`, counting only
/// what is strictly above all before it and above zero.
pub open spec fn peak(x: Seq<Real>, k: nat) -> (int, Real)
    decreases k,
{
    if k == 0 {
        (0, zero())
    } else {
        let p = peak(x, (k - 1) as nat);
        let v = x[k - 1].absolute();
        if p.1.below(v) {
            (k - 1, v)
        } else {
            p
        }
    }
}

fn find_peak(x: &[Real]) -> (r: (usize, Real))
    ensures
        (r.0 as int, r.1) == peak(x@, x@.len()),
{
    let mut idx: usize = 0;
    let mut max: Real = Real { bits: 0 };
    let mut i: usize = 0;
    while i < x.len()
        invariant
            i <= x.len(),
            (idx as int, max) == peak(x@, i as nat),
        decreases x.len() - i,
    {
        let v: Real = x[i].abs();
        if max.lt(&v) {
            max = v;
            idx = i;
        }
        i += 1;
    }
    (idx, max)
}

/// Position of the entry with the largest absolute value.
pub fn idamax(x: &[Real]) -> (r: usize)
    ensures
        r == peak(x@, x@.len()).0,
{
    find_peak(x).0
}

/// The squares of the entries, each divided by `max` first.
pub open spec fn ratio_squares<F: Fn(FloatOp, Real, Real, Real) -> Real>(
    fpu: &Fpu<F>,
    x: Seq<Real>,
    max: Real,
) -> Seq<Real> {
    Seq::new(x.len(), |i: int| fpu.times(fpu.over(x[i], max), fpu.over(x[i], max)))
}

/// The Euclidean norm, scaled by the largest absolute value.
pub open spec fn norm2<F: Fn(FloatOp, Real, Real, Real) -> Real>(fpu: &Fpu<F>, x: Seq<Real>) -> Real {
    let max = peak(x, x.len()).1;
    if max.same(zero()) {
        zero()
    } else {
        fpu.times(max, fpu.sqrt(total(fpu, ratio_squares(fpu, x, max))))
    }
}

/// The Euclidean norm of a vector.
pub fn dnrm2<F: Fn(FloatOp, Real, Real, Real) -> Real>(fpu: &Fpu<F>, x: &[Real]) -> (r: Real)
    requires
        fpu.wf(),
    ensures
        r == norm2(fpu, x@),
{
    let (_, max) = find_peak(x);
    if max.eq_value(&Real { bits: 0 }) {
        return Real { bits: 0 };
    }
    let g = |i: usize| -> (v: Real)
        requires
            fpu.wf(),
            i < x@.len(),
        ensures
            v == fpu.times(fpu.over(x@[i as int], max), fpu.over(x@[i as int], max)),
        {
            let q: Real = fpu.apply(FloatOp::Over, x[i], max);
            fpu.apply(FloatOp::Times, q, q)
        };
    let s: Real = sum_of(fpu, x.len(), &g, Ghost(ratio_squares(fpu, x@, max)));
    let root: Real = fpu.apply1(FloatOp::Sqrt, s);
    fpu.apply(FloatOp::Times, max, root)
}

pub open spec fn absolutes(x: Seq<Real>) -> Seq<Real> {
    Seq::new(x.len(), |i: int| x[i].absolute())
}

/// The sum of the absolute values.
pub fn dasum<F: Fn(FloatOp, Real, Real, Real) -> Real>(fpu: &Fpu<F>, x: &[Real]) -> (r: Real)
    requires
        fpu.wf(),
    ensures
        r == total(fpu, absolutes(x@)),
{
    let g = |i: usize| -> (v: Real)
        requires
            i < x@.len(),
        ensures
            v == x@[i as int].absolute(),
        { x[i].abs() };
    sum_of(fpu, x.len(), &g, Ghost(absolutes(x@)))
}

/// Copies a vector over another of the same length.
pub fn dcopy(x: &[Real], y: &mut Vec<Real>)
    requires
        x@.len() == old(y)@.len(),
    ensures
        final(y)@ == x@,
{
    let n: usize = x.len();
    let mut i: usize = 0;
    while i < n
        invariant
            i <= n,
            n == x@.len(),
            y@.len() == n,
            forall|k: int| 0 <= k < i ==> #[trigger] y@[k] == x@[k],
        decreases n - i,
    {
        y.set(i, x[i]);
        i += 1;
    }
    assert(y@ =~= x@);
}

/// Exchanges two vectors of the same length.
pub fn dswap(x: &mut Vec<Real>, y: &mut Vec<Real>)
    requires
        old(x)@.len() == old(y)@.len(),
    ensures
        final(x)@ == old(y)@,
        final(y)@ == old(x)@,
{
    let ghost x0 = x@;
    let ghost y0 = y@;
    let n: usize = x.len();
    let mut i: usize = 0;
    while i < n
        invariant
            i <= n,
            x@.len() == n,
            y@.len() == n,
            x0.len() == n,
            y0.len() == n,
            forall|k: int| 0 <= k < i ==> #[trigger] x@[k] == y0[k],
            forall|k: int| 0 <= k < i ==> #[trigger] y@[k] == x0[k],
            forall|k: int| i <= k < n ==> #[trigger] x@[k] == x0[k],
            forall|k: int| i <= k < n ==> #[trigger] y@[k] == y0[k],
        decreases n - i,
    {
        let t: Real = x[i];
        x.set(i, y[i]);
        y.set(i, t);
        i += 1;
    }
    assert(x@ =~= y0);
    assert(y@ =~= x0);
}

// ── Matrix and vector ────────────────────────────────────────────────

/// `beta * y`, where zero clears and one keeps.
pub open spec fn damped<F: Fn(FloatOp, Real, Real, Real) -> Real>(fpu: &Fpu<F>, beta: Real, y: Real) -> Real {
    if beta.same(zero()) {
        zero()
    } else if beta.same(one()) {
        y
    } else {
        fpu.times(y, beta)
    }
}

/// Entry `i` of `alpha * A * x + beta * y` after the first `k` columns; columns
/// whose factor is zero are skipped.
pub open spec fn gemv_entry<F: Fn(FloatOp, Real, Real, Real) -> Real>(
    fpu: &Fpu<F>,
    m: int,
    alpha: Real,
    a: Seq<Real>,
    x: Seq<Real>,
    start: Real,
    i: int,
    k: nat,
) -> Real
    decreases k,
{
    if k == 0 {
        start
    } else {
        let acc = gemv_entry(fpu, m, alpha, a, x, start, i, (k - 1) as nat);
        let f = fpu.times(alpha, x[k - 1]);
        if f.same(zero()) {
            acc
        } else {
            fpu.plus(acc, fpu.times(f, entry(a, m, i, k - 1)))
        }
    }
}

/// `alpha * A * x + beta * y` for a matrix of `m` rows.
pub open spec fn gemv<F: Fn(FloatOp, Real, Real, Real) -> Real>(
    fpu: &Fpu<F>,
    m: int,
    alpha: Real,
    a: Seq<Real>,
    x: Seq<Real>,
    beta: Real,
    y: Seq<Real>,
) -> Seq<Real> {
    Seq::new(
        y.len(),
        |i: int|
            if alpha.same(zero()) {
                damped(fpu, beta, y[i])
            } else {
                gemv_entry(fpu, m, alpha, a, x, damped(fpu, beta, y[i]), i, x.len())
            },
    )
}

/// The refusal of a matrix of `m` by `n` with vectors of the lengths `xs` and
/// `ys`.
pub open spec fn shape_error(
    a: nat,
    m: usize,
    n: usize,
    x: nat,
    y: nat,
    xs: usize,
    ys: usize,
    msg: Seq<char>,
) -> Option<Fault> {
    if a != m * n {
        Some(Fault::Shape(msg))
    } else if x != xs {
        Some(Fault::Mismatch((xs, 1), (x as usize, 1)))
    } else if y != ys {
        Some(Fault::Mismatch((ys, 1), (y as usize, 1)))
    } else {
        None
    }
}

/// The complaint about a matrix whose length does not fit its shape.
pub open spec fn area_message(len: nat, m: nat, n: nat) -> Seq<char> {
    "A length "@ + decimal(len) + " != "@ + decimal(m) + "x"@ + decimal(n)
}

fn area_text(len: usize, m: usize, n: usize) -> (r: String)
    ensures
        r@ == area_message(len as nat, m as nat, n as nat),
{
    let mut t: Vec<char> = Vec::new();
    extend_str(&mut t, "A length ");
    extend_decimal(&mut t, len as u64);
    extend_str(&mut t, " != ");
    extend_decimal(&mut t, m as u64);
    extend_str(&mut t, "x");
    extend_decimal(&mut t, n as u64);
    let r: String = string_of(&t);
    assert(r@ =~= area_message(len as nat, m as nat, n as nat));
    r
}

pub(crate) fn area_is(len: usize, m: usize, n: usize) -> (r: bool)
    ensures
        r == (len == m * n),
{
    if m == 0 || n == 0 {
        assert(m * n == 0) by (nonlinear_arith)
            requires
                m == 0 || n == 0,
        ;
        return len == 0;
    }
    if len % m != 0 {
        proof {
            if len == m * n {
                vstd::arithmetic::div_mod::lemma_mod_multiples_basic(n as int, m as int);
                assert(n * m == m * n) by (nonlinear_arith);
            }
        }
        return false;
    }
    proof {
        vstd::arithmetic::div_mod::lemma_fundamental_div_mod(len as int, m as int);
        if len / m != n {
            assert(len != m * n) by (nonlinear_arith)
                requires
                    len == m * (len as int / m as int),
                    len as int / m as int != n,
                    m > 0,
            ;
        }
    }
    len / m == n
}

fn check_shape(
    a: usize,
    m: usize,
    n: usize,
    x: usize,
    y: usize,
    xs: usize,
    ys: usize,
    msg: &str,
) -> (r: Option<LinalgError>)
    ensures
        match shape_error(a as nat, m, n, x as nat, y as nat, xs, ys, msg@) {
            Some(e) => r is Some && r->0.deep() == e,
            None => r is None,
        },
{
    if !area_is(a, m, n) {
        Some(LinalgError::InvalidShape(owned(msg)))
    } else if x != xs {
        Some(LinalgError::DimensionMismatch { expected: (xs, 1), got: (x, 1) })
    } else if y != ys {
        Some(LinalgError::DimensionMismatch { expected: (ys, 1), got: (y, 1) })
    } else {
        None
    }
}

fn damp<F: Fn(FloatOp, Real, Real, Real) -> Real>(fpu: &Fpu<F>, beta: Real, y: Real) -> (r: Real)
    requires
        fpu.wf(),
    ensures
        r == damped(fpu, beta, y),
{
    if beta.eq_value(&Real { bits: 0 }) {
        Real { bits: 0 }
    } else if beta.eq_value(&Real { bits: ONE_BITS }) {
        y
    } else {
        fpu.apply(FloatOp::Times, y, beta)
    }
}

/// `y = alpha * A * x + beta * y` for a matrix of `m` rows and `n` columns.
pub fn dgemv<F: Fn(FloatOp, Real, Real, Real) -> Real>(
    fpu: &Fpu<F>,
    m: usize,
    n: usize,
    alpha: Real,
    a: &[Real],
    x: &[Real],
    beta: Real,
    y: &mut Vec<Real>,
) -> (r: Result<(), LinalgError>)
    requires
        fpu.wf(),
    ensures
        match shape_error(
            a@.len(),
            m,
            n,
            x@.len(),
            old(y)@.len(),
            n,
            m,
            area_message(a@.len(), m as nat, n as nat),
        ) {
            Some(e) => refused(r, e) && final(y)@ == old(y)@,
            None => r is Ok && final(y)@ == gemv(fpu, m as int, alpha, a@, x@, beta, old(y)@),
        },
{
    let msg: String = area_text(a.len(), m, n);
    match check_shape(a.len(), m, n, x.len(), y.len(), n, m, msg.as_str()) {
        Some(e) => {
            return Err(e);
        },
        None => {},
    }
    let ghost y0 = y@;
    let ghost want = gemv(fpu, m as int, alpha, a@, x@, beta, y0);
    let idle: bool = alpha.eq_value(&Real { bits: 0 });
    let mut i: usize = 0;
    while i < m
        invariant
            fpu.wf(),
            i <= m,
            a@.len() == m * n,
            x@.len() == n,
            y@.len() == m,
            y0.len() == m,
            idle == alpha.same(zero()),
            want == gemv(fpu, m as int, alpha, a@, x@, beta, y0),
            forall|k: int| 0 <= k < i ==> #[trigger] y@[k] == want[k],
            forall|k: int| i <= k < m ==> #[trigger] y@[k] == y0[k],
        decreases m - i,
    {
        let start: Real = damp(fpu, beta, y[i]);
        let mut acc: Real = start;
        if !idle {
            let mut j: usize = 0;
            while j < n
                invariant
                    fpu.wf(),
                    i < m,
                    j <= n,
                    a@.len() == m * n,
                    x@.len() == n,
                    acc == gemv_entry(fpu, m as int, alpha, a@, x@, start, i as int, j as nat),
                decreases n - j,
            {
                let f: Real = fpu.apply(FloatOp::Times, alpha, x[j]);
                if !f.eq_value(&Real { bits: 0 }) {
                    proof {
                        lemma_cell(i as int, j as int, m as int, n as int);
                    }
                    let len: usize = a.len();
                    acc = fma(fpu, acc, f, a[j * m + i]);
                }
                j += 1;
            }
        }
        y.set(i, acc);
        assert(y@[i as int] == want[i as int]);
        i += 1;
    }
    assert(y@ =~= want);
    Ok(())
}

/// The products of column `j` with `x`.
pub open spec fn column_products<F: Fn(FloatOp, Real, Real, Real) -> Real>(
    fpu: &Fpu<F>,
    m: int,
    a: Seq<Real>,
    x: Seq<Real>,
    j: int,
) -> Seq<Real> {
    Seq::new(x.len(), |i: int| fpu.times(entry(a, m, i, j), x[i]))
}

/// `alpha * A' * x + beta * y` for a matrix of `m` rows.
pub open spec fn gemv_t<F: Fn(FloatOp, Real, Real, Real) -> Real>(
    fpu: &Fpu<F>,
    m: int,
    alpha: Real,
    a: Seq<Real>,
    x: Seq<Real>,
    beta: Real,
    y: Seq<Real>,
) -> Seq<Real> {
    Seq::new(
        y.len(),
        |j: int|
            if alpha.same(zero()) {
                damped(fpu, beta, y[j])
            } else {
                fpu.plus(
                    damped(fpu, beta, y[j]),
                    fpu.times(alpha, total(fpu, column_products(fpu, m, a, x, j))),
                )
            },
    )
}

/// `y = alpha * A' * x + beta * y` for a matrix of `m` rows and `n` columns.
pub fn dgemv_t<F: Fn(FloatOp, Real, Real, Real) -> Real>(
    fpu: &Fpu<F>,
    m: usize,
    n: usize,
    alpha: Real,
    a: &[Real],
    x: &[Real],
    beta: Real,
    y: &mut Vec<Real>,
) -> (r: Result<(), LinalgError>)
    requires
        fpu.wf(),
    ensures
        match shape_error(a@.len(), m, n, x@.len(), old(y)@.len(), m, n, "A length mismatch"@) {
            Some(e) => refused(r, e) && final(y)@ == old(y)@,
            None => r is Ok && final(y)@ == gemv_t(fpu, m as int, alpha, a@, x@, beta, old(y)@),
        },
{
    match check_shape(a.len(), m, n, x.len(), y.len(), m, n, "A length mismatch") {
        Some(e) => {
            return Err(e);
        },
        None => {},
    }
    let ghost y0 = y@;
    let ghost want = gemv_t(fpu, m as int, alpha, a@, x@, beta, y0);
    let idle: bool = alpha.eq_value(&Real { bits: 0 });
    let mut j: usize = 0;
    while j < n
        invariant
            fpu.wf(),
            j <= n,
            a@.len() == m * n,
            x@.len() == m,
            y@.len() == n,
            y0.len() == n,
            idle == alpha.same(zero()),
            want == gemv_t(fpu, m as int, alpha, a@, x@, beta, y0),
            forall|k: int| 0 <= k < j ==> #[trigger] y@[k] == want[k],
            forall|k: int| j <= k < n ==> #[trigger] y@[k] == y0[k],
        decreases n - j,
    {
        let start: Real = damp(fpu, beta, y[j]);
        if idle {
            y.set(j, start);
        } else {
            let len: usize = a.len();
            let g = |i: usize| -> (v: Real)
                requires
                    fpu.wf(),
                    i < m,
                    j < n,
                    a@.len() == m * n,
                    len == a@.len(),
                    x@.len() == m,
                ensures
                    v == fpu.times(entry(a@, m as int, i as int, j as int), x@[i as int]),
                {
                    proof {
                        lemma_cell(i as int, j as int, m as int, n as int);
                    }
                    fpu.apply(FloatOp::Times, a[j * m + i], x[i])
                };
            let d: Real = sum_of(fpu, m, &g, Ghost(column_products(fpu, m as int, a@, x@, j as int)));
            let v: Real = fma(fpu, start, alpha, d);
            y.set(j, v);
        }
        assert(y@[j as int] == want[j as int]);
        j += 1;
    }
    assert(y@ =~= want);
    Ok(())
}

/// `b - l1 x1 - l2 x2 - ...` over the first `k` solved entries of row `i`.
pub open spec fn lower_rest<F: Fn(FloatOp, Real, Real, Real) -> Real>(
    fpu: &Fpu<F>,
    n: int,
    l: Seq<Real>,
    x: Seq<Real>,
    b: Real,
    i: int,
    k: nat,
) -> Real
    decreases k,
{
    if k == 0 {
        b
    } else {
        fpu.minus(
            lower_rest(fpu, n, l, x, b, i, (k - 1) as nat),
            fpu.times(entry(l, n, i, k - 1), x[k - 1]),
        )
    }
}

/// The first `i` entries of the solution of `L x = b`, followed by what is left
/// of `b`.
pub open spec fn forward<F: Fn(FloatOp, Real, Real, Real) -> Real>(
    fpu: &Fpu<F>,
    n: int,
    l: Seq<Real>,
    b: Seq<Real>,
    unit_diag: bool,
    i: nat,
) -> Seq<Real>
    decreases i,
{
    if i == 0 {
        b
    } else {
        let x = forward(fpu, n, l, b, unit_diag, (i - 1) as nat);
        let rest = lower_rest(fpu, n, l, x, b[i - 1], i - 1, (i - 1) as nat);
        x.update(
            i - 1,
            if unit_diag {
                rest
            } else {
                fpu.over(rest, entry(l, n, i - 1, i - 1))
            },
        )
    }
}

/// A pivot that counts as zero.
pub open spec fn tiny(x: Real) -> bool {
    x.absolute().below(Real { bits: PIVOT_BITS })
}

/// The first tiny entry on the diagonal, or `n`.
pub open spec fn first_tiny(n: int, l: Seq<Real>, from: int) -> int
    decreases n - from,
{
    if from >= n || tiny(entry(l, n, from, from)) {
        from
    } else {
        first_tiny(n, l, from + 1)
    }
}

fn is_tiny(x: Real) -> (r: bool)
    ensures
        r == tiny(x),
{
    x.abs().lt(&Real { bits: PIVOT_BITS })
}

proof fn lemma_first_tiny(n: int, l: Seq<Real>, from: int, at: int)
    requires
        0 <= from <= at < n,
        forall|k: int| from <= k < at ==> !tiny(#[trigger] entry(l, n, k, k)),
    ensures
        tiny(entry(l, n, at, at)) ==> first_tiny(n, l, from) == at,
    decreases at - from,
{
    if from < at {
        assert(!tiny(entry(l, n, from, from)));
        lemma_first_tiny(n, l, from + 1, at);
    }
}

proof fn lemma_none_tiny(n: int, l: Seq<Real>, from: int)
    requires
        0 <= from <= n,
        forall|k: int| from <= k < n ==> !tiny(#[trigger] entry(l, n, k, k)),
    ensures
        first_tiny(n, l, from) == n,
    decreases n - from,
{
    if from < n {
        assert(!tiny(entry(l, n, from, from)));
        lemma_none_tiny(n, l, from + 1);
    }
}

/// Solves `L x = b` by forward substitution; `b` becomes the solution. Where a
/// diagonal entry is tiny, the entries before it are solved and the rest of `b`
/// is left.
pub fn dtrsv_lower<F: Fn(FloatOp, Real, Real, Real) -> Real>(
    fpu: &Fpu<F>,
    n: usize,
    l: &[Real],
    b: &mut Vec<Real>,
    unit_diag: bool,
) -> (r: Result<(), LinalgError>)
    requires
        fpu.wf(),
    ensures
        match shape_error(l@.len(), n, n, old(b)@.len(), old(b)@.len(), n, n, "L not square"@) {
            Some(e) => refused(r, e) && final(b)@ == old(b)@,
            None => {
                let at = if unit_diag {
                    n as int
                } else {
                    first_tiny(n as int, l@, 0)
                };
                &&& final(b)@ == forward(fpu, n as int, l@, old(b)@, unit_diag, at as nat)
                &&& if at < n {
                    refused(r, Fault::Singular)
                } else {
                    r is Ok
                }
            },
        },
{
    match check_shape(l.len(), n, n, b.len(), b.len(), n, n, "L not square") {
        Some(e) => {
            return Err(e);
        },
        None => {},
    }
    let ghost b0 = b@;
    let len: usize = l.len();
    let mut i: usize = 0;
    while i < n
        invariant
            fpu.wf(),
            i <= n,
            l@.len() == n * n,
            len == l@.len(),
            b0 == old(b)@,
            b0.len() == n,
            b@.len() == n,
            b@ == forward(fpu, n as int, l@, b0, unit_diag, i as nat),
            forall|k: int| i <= k < n ==> #[trigger] b@[k] == b0[k],
            !unit_diag ==> forall|k: int| 0 <= k < i ==> !tiny(#[trigger] entry(l@, n as int, k, k)),
        decreases n - i,
    {
        let ghost x = b@;
        let mut rest: Real = b[i];
        let mut j: usize = 0;
        while j < i
            invariant
                fpu.wf(),
                i < n,
                j <= i,
                l@.len() == n * n,
                len == l@.len(),
                b@ == x,
                x.len() == n,
                rest == lower_rest(fpu, n as int, l@, x, b0[i as int], i as int, j as nat),
            decreases i - j,
        {
            proof {
                lemma_cell(i as int, j as int, n as int, n as int);
            }
            let p: Real = fpu.apply(FloatOp::Times, l[j * n + i], b[j]);
            rest = fpu.apply(FloatOp::Minus, rest, p);
            j += 1;
        }
        if unit_diag {
            b.set(i, rest);
        } else {
            proof {
                lemma_cell(i as int, i as int, n as int, n as int);
            }
            let diag: Real = l[i * n + i];
            if is_tiny(diag) {
                proof {
                    lemma_first_tiny(n as int, l@, 0, i as int);
                }
                return Err(LinalgError::Singular);
            }
            let v: Real = fpu.apply(FloatOp::Over, rest, diag);
            b.set(i, v);
        }
        i += 1;
    }
    proof {
        if !unit_diag {
            lemma_none_tiny(n as int, l@, 0);
        }
    }
    Ok(())
}

/// `b - u x - ...` over the entries of row `i` right of the diagonal, up to
/// column `k`; `by_row` reads the matrix transposed.
pub open spec fn upper_rest<F: Fn(FloatOp, Real, Real, Real) -> Real>(
    fpu: &Fpu<F>,
    n: int,
    u: Seq<Real>,
    x: Seq<Real>,
    b: Real,
    transposed: bool,
    i: int,
    k: int,
) -> Real
    decreases k - i,
{
    if k <= i + 1 {
        b
    } else {
        let c = if transposed {
            entry(u, n, k - 1, i)
        } else {
            entry(u, n, i, k - 1)
        };
        fpu.minus(upper_rest(fpu, n, u, x, b, transposed, i, k - 1), fpu.times(c, x[k - 1]))
    }
}

/// The last `n - i` entries of the solution of `U x = b`, after what is left of
/// `b`.
pub open spec fn backward<F: Fn(FloatOp, Real, Real, Real) -> Real>(
    fpu: &Fpu<F>,
    n: int,
    u: Seq<Real>,
    b: Seq<Real>,
    transposed: bool,
    i: int,
) -> Seq<Real>
    decreases n - i,
{
    if i >= n {
        b
    } else {
        let x = backward(fpu, n, u, b, transposed, i + 1);
        x.update(
            i,
            fpu.over(upper_rest(fpu, n, u, x, b[i], transposed, i, n), entry(u, n, i, i)),
        )
    }
}

/// The last tiny entry on the diagonal before `to`, or -1.
pub open spec fn last_tiny(n: int, u: Seq<Real>, to: int) -> int
    decreases to,
{
    if to <= 0 {
        -1
    } else if tiny(entry(u, n, to - 1, to - 1)) {
        to - 1
    } else {
        last_tiny(n, u, to - 1)
    }
}

proof fn lemma_last_tiny(n: int, u: Seq<Real>, to: int, at: int)
    requires
        0 <= at < to,
        forall|k: int| at < k < to ==> !tiny(#[trigger] entry(u, n, k, k)),
        tiny(entry(u, n, at, at)),
    ensures
        last_tiny(n, u, to) == at,
    decreases to - at,
{
    if at < to - 1 {
        assert(!tiny(entry(u, n, to - 1, to - 1)));
        lemma_last_tiny(n, u, to - 1, at);
    }
}

proof fn lemma_no_last_tiny(n: int, u: Seq<Real>, to: int)
    requires
        0 <= to,
        forall|k: int| 0 <= k < to ==> !tiny(#[trigger] entry(u, n, k, k)),
    ensures
        last_tiny(n, u, to) == -1,
    decreases to,
{
    if to > 0 {
        assert(!tiny(entry(u, n, to - 1, to - 1)));
        lemma_no_last_tiny(n, u, to - 1);
    }
}

/// Back substitution on an upper triangle, or on the transpose of a lower one.
pub(crate) fn back_substitute<F: Fn(FloatOp, Real, Real, Real) -> Real>(
    fpu: &Fpu<F>,
    n: usize,
    u: &[Real],
    b: &mut Vec<Real>,
    transposed: bool,
) -> (r: Result<(), LinalgError>)
    requires
        fpu.wf(),
        u@.len() == n * n,
        old(b)@.len() == n,
    ensures
        ({
            let at = last_tiny(n as int, u@, n as int);
            &&& final(b)@ == backward(fpu, n as int, u@, old(b)@, transposed, at + 1)
            &&& final(b)@.len() == n
            &&& if at >= 0 {
                refused(r, Fault::Singular)
            } else {
                r is Ok
            }
        }),
{
    let ghost b0 = b@;
    let len: usize = u.len();
    let mut i: usize = n;
    while i > 0
        invariant
            fpu.wf(),
            i <= n,
            u@.len() == n * n,
            len == u@.len(),
            b0 == old(b)@,
            b0.len() == n,
            b@.len() == n,
            b@ == backward(fpu, n as int, u@, b0, transposed, i as int),
            forall|k: int| 0 <= k < i ==> #[trigger] b@[k] == b0[k],
            forall|k: int| i <= k < n ==> !tiny(#[trigger] entry(u@, n as int, k, k)),
        decreases i,
    {
        let r: usize = i - 1;
        let ghost x = b@;
        let mut rest: Real = b[r];
        let mut j: usize = i;
        while j < n
            invariant
                fpu.wf(),
                r == i - 1,
                i <= j <= n,
                u@.len() == n * n,
                len == u@.len(),
                b@ == x,
                x.len() == n,
                rest == upper_rest(fpu, n as int, u@, x, b0[r as int], transposed, r as int, j as int),
            decreases n - j,
        {
            proof {
                lemma_cell(r as int, j as int, n as int, n as int);
                lemma_cell(j as int, r as int, n as int, n as int);
            }
            let c: Real = if transposed { u[r * n + j] } else { u[j * n + r] };
            let p: Real = fpu.apply(FloatOp::Times, c, b[j]);
            rest = fpu.apply(FloatOp::Minus, rest, p);
            j += 1;
        }
        proof {
            lemma_cell(r as int, r as int, n as int, n as int);
        }
        let diag: Real = u[r * n + r];
        if is_tiny(diag) {
            proof {
                lemma_last_tiny(n as int, u@, n as int, r as int);
            }
            return Err(LinalgError::Singular);
        }
        let v: Real = fpu.apply(FloatOp::Over, rest, diag);
        b.set(r, v);
        i = r;
    }
    proof {
        lemma_no_last_tiny(n as int, u@, n as int);
    }
    Ok(())
}

/// Solves `U x = b` by back substitution; `b` becomes the solution. Where a
/// diagonal entry is tiny, the entries after it are solved and the rest of `b`
/// is left.
pub fn dtrsv_upper<F: Fn(FloatOp, Real, Real, Real) -> Real>(
    fpu: &Fpu<F>,
    n: usize,
    u: &[Real],
    b: &mut Vec<Real>,
) -> (r: Result<(), LinalgError>)
    requires
        fpu.wf(),
    ensures
        match shape_error(u@.len(), n, n, old(b)@.len(), old(b)@.len(), n, n, "U not square"@) {
            Some(e) => refused(r, e) && final(b)@ == old(b)@,
            None => {
                let at = last_tiny(n as int, u@, n as int);
                &&& final(b)@ == backward(fpu, n as int, u@, old(b)@, false, at + 1)
                &&& if at >= 0 {
                    refused(r, Fault::Singular)
                } else {
                    r is Ok
                }
            },
        },
{
    match check_shape(u.len(), n, n, b.len(), b.len(), n, n, "U not square") {
        Some(e) => {
            return Err(e);
        },
        None => {},
    }
    back_substitute(fpu, n, u, b, false)
}

/// Entry `(i, j)` of `alpha * x * y' + A`; a column whose factor is zero stays.
pub open spec fn ger_entry<F: Fn(FloatOp, Real, Real, Real) -> Real>(
    fpu: &Fpu<F>,
    alpha: Real,
    x: Real,
    y: Real,
    a: Real,
) -> Real {
    let f = fpu.times(alpha, y);
    if f.same(zero()) {
        a
    } else {
        fpu.plus(a, fpu.times(f, x))
    }
}

/// `A = alpha * x * y' + A` for a matrix of `m` rows and `n` columns.
pub fn dger<F: Fn(FloatOp, Real, Real, Real) -> Real>(
    fpu: &Fpu<F>,
    m: usize,
    n: usize,
    alpha: Real,
    x: &[Real],
    y: &[Real],
    a: &mut Vec<Real>,
) -> (r: Result<(), LinalgError>)
    requires
        fpu.wf(),
    ensures
        if old(a)@.len() != m * n {
            refused(r, Fault::Shape("A shape"@)) && final(a)@ == old(a)@
        } else if x@.len() != m || y@.len() != n {
            refused(r, Fault::Mismatch((m, n), (x@.len() as usize, y@.len() as usize)))
                && final(a)@ == old(a)@
        } else {
            &&& r is Ok
            &&& final(a)@ == crate::grid::table(
                m as nat,
                n as nat,
                |i: int, j: int| ger_entry(fpu, alpha, x@[i], y@[j], entry(old(a)@, m as int, i, j)),
            )
        },
{
    if !area_is(a.len(), m, n) {
        return Err(LinalgError::InvalidShape(owned("A shape")));
    }
    if x.len() != m || y.len() != n {
        return Err(LinalgError::DimensionMismatch { expected: (m, n), got: (x.len(), y.len()) });
    }
    let src: Vec<Real> = crate::value::dup_copies(a);
    let ghost f = |i: int, j: int| ger_entry(fpu, alpha, x@[i], y@[j], entry(src@, m as int, i, j));
    let total_len: usize = src.len();
    let g = |i: usize, j: usize| -> (v: Real)
        requires
            fpu.wf(),
            i < m,
            j < n,
            src@.len() == m * n,
            total_len == src@.len(),
            x@.len() == m,
            y@.len() == n,
        ensures
            v == ger_entry(fpu, alpha, x@[i as int], y@[j as int], entry(src@, m as int, i as int, j as int)),
        {
            proof {
                lemma_cell(i as int, j as int, m as int, n as int);
            }
            let ay: Real = fpu.apply(FloatOp::Times, alpha, y[j]);
            if ay.eq_value(&Real { bits: 0 }) {
                src[j * m + i]
            } else {
                fma(fpu, src[j * m + i], ay, x[i])
            }
        };
    let out: Vec<Real> = crate::grid::table_of(m, n, &g, Ghost(f));
    *a = out;
    Ok(())
}

} // verus!
