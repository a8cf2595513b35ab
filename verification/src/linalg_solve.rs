//! Linear systems and least squares.
//!
//! The factorizations themselves are supplied by the caller; what is done with
//! the factors stands here.
use crate::double::{FloatOp, Fpu, Real, ONE_BITS, one, zero};
use crate::grid::{entry, lemma_entry, table, table_of};
use crate::linalg::{
    Fault, LinalgError, area_is, back_substitute, backward, dgemv_t, dtrsv_lower, first_tiny, forward, gemv_t,
    last_tiny, refused, tiny,
};
use crate::text::owned;
use crate::value::dup_copies;
use vstd::prelude::*;

verus! {

/// A matrix factored as `P A = L U`: the unit lower triangle and the upper
/// triangle in one matrix, and for each row the row of `A` that it came from.
#[derive(Debug)]
pub struct Lu {
    pub a: Vec<Real>,
    pub ipiv: Vec<usize>,
}

impl Lu {
    pub open spec fn wf(&self, n: nat) -> bool {
        &&& self.a@.len() == n * n
        &&& self.ipiv@.len() == n
        &&& forall|i: int| 0 <= i < n ==> #[trigger] self.ipiv@[i] < n
    }
}

/// `g` factors any square matrix or says why not.
pub open spec fn factors_lu<G: Fn(usize, &[Real]) -> Result<Lu, LinalgError>>(g: G) -> bool {
    &&& forall|n: usize, s: &[Real]| s@.len() == n * n ==> #[trigger] call_requires(g, (n, s))
    &&& forall|n: usize, s: &[Real], lu: Lu| #[trigger]
        call_ensures(g, (n, s), Ok::<Lu, LinalgError>(lu)) ==> lu.wf(n as nat)
}

/// `g` turns a square matrix into one of the same size or says why not.
pub open spec fn factors_square<G: Fn(usize, &[Real]) -> Result<Vec<Real>, LinalgError>>(g: G) -> bool {
    &&& forall|n: usize, s: &[Real]| s@.len() == n * n ==> #[trigger] call_requires(g, (n, s))
    &&& forall|n: usize, s: &[Real], l: Vec<Real>| #[trigger]
        call_ensures(g, (n, s), Ok::<Vec<Real>, LinalgError>(l)) ==> l@.len() == n * n
}

pub open spec fn permuted(b: Seq<Real>, p: Seq<usize>) -> Seq<Real> {
    Seq::new(p.len(), |i: int| b[p[i] as int])
}

/// The solution of a factored system; of the entries that a tiny pivot keeps
/// from being solved, what forward substitution left.
pub open spec fn lu_solution<F: Fn(FloatOp, Real, Real, Real) -> Real>(
    fpu: &Fpu<F>,
    n: int,
    a: Seq<Real>,
    p: Seq<usize>,
    b: Seq<Real>,
) -> Seq<Real> {
    backward(
        fpu,
        n,
        a,
        forward(fpu, n, a, permuted(b, p), true, n as nat),
        false,
        last_tiny(n, a, n) + 1,
    )
}

fn solve_lu<F: Fn(FloatOp, Real, Real, Real) -> Real>(fpu: &Fpu<F>, n: usize, lu: &Lu, b: &Vec<Real>) -> (r: (Vec<
    Real,
>, bool))
    requires
        fpu.wf(),
        lu.wf(n as nat),
        b@.len() == n,
    ensures
        r.0@ == lu_solution(fpu, n as int, lu.a@, lu.ipiv@, b@),
        r.0@.len() == n,
        r.1 == (last_tiny(n as int, lu.a@, n as int) < 0),
{
    let mut x: Vec<Real> = Vec::new();
    let mut i: usize = 0;
    while i < n
        invariant
            i <= n,
            lu.wf(n as nat),
            b@.len() == n,
            x@.len() == i,
            forall|k: int| 0 <= k < i ==> #[trigger] x@[k] == b@[lu.ipiv@[k] as int],
        decreases n - i,
    {
        x.push(b[lu.ipiv[i]]);
        i += 1;
    }
    assert(x@ =~= permuted(b@, lu.ipiv@));
    let first = dtrsv_lower(fpu, n, lu.a.as_slice(), &mut x, true);
    proof {
        lemma_forward_len(fpu, n as int, lu.a@, permuted(b@, lu.ipiv@), true, n as nat);
    }
    let second = back_substitute(fpu, n, lu.a.as_slice(), &mut x, false);
    (x, second.is_ok())
}

proof fn lemma_forward_len<F: Fn(FloatOp, Real, Real, Real) -> Real>(
    fpu: &Fpu<F>,
    n: int,
    l: Seq<Real>,
    b: Seq<Real>,
    unit_diag: bool,
    i: nat,
)
    requires
        i <= b.len(),
    ensures
        forward(fpu, n, l, b, unit_diag, i).len() == b.len(),
    decreases i,
{
    if i > 0 {
        lemma_forward_len(fpu, n, l, b, unit_diag, (i - 1) as nat);
    }
}

/// Solves `A x = b` by the factorization that `factor` computes. `a` becomes
/// the factors and `b` the solution.
pub fn dgesv<
    F: Fn(FloatOp, Real, Real, Real) -> Real,
    G: Fn(usize, &[Real]) -> Result<Lu, LinalgError>,
>(fpu: &Fpu<F>, factor: &G, n: usize, a: &mut Vec<Real>, b: &mut Vec<Real>) -> (r: Result<(), LinalgError>)
    requires
        fpu.wf(),
        factors_lu(*factor),
    ensures
        if old(a)@.len() != n * n {
            refused(r, Fault::NotSquare) && final(a)@ == old(a)@ && final(b)@ == old(b)@
        } else if old(b)@.len() != n {
            refused(r, Fault::Mismatch((n, 1), (old(b)@.len() as usize, 1))) && final(a)@ == old(a)@
                && final(b)@ == old(b)@
        } else {
            exists|s: &[Real], out: Result<Lu, LinalgError>|
                s@ == old(a)@ && #[trigger] call_ensures(*factor, (n, s), out) && match out {
                    Err(e) => refused(r, e.deep()) && final(a)@ == old(a)@ && final(b)@ == old(b)@,
                    Ok(lu) => {
                        &&& final(a)@ == lu.a@
                        &&& final(b)@ == lu_solution(fpu, n as int, lu.a@, lu.ipiv@, old(b)@)
                        &&& if last_tiny(n as int, lu.a@, n as int) >= 0 {
                            refused(r, Fault::Singular)
                        } else {
                            r is Ok
                        }
                    },
                }
        },
{
    if !area_is(a.len(), n, n) {
        return Err(LinalgError::NotSquare);
    }
    if b.len() != n {
        return Err(LinalgError::DimensionMismatch { expected: (n, 1), got: (b.len(), 1) });
    }
    let src: Vec<Real> = dup_copies(a);
    let s: &[Real] = src.as_slice();
    let out: Result<Lu, LinalgError> = factor(n, s);
    assert(call_ensures(*factor, (n, s), out));
    match out {
        Err(e) => Err(e),
        Ok(lu) => {
            let (x, ok) = solve_lu(fpu, n, &lu, b);
            *b = x;
            *a = lu.a;
            if ok {
                Ok(())
            } else {
                Err(LinalgError::Singular)
            }
        },
    }
}

/// The state of `b` after solving `L L' x = b`; where the diagonal has a tiny
/// entry, what forward substitution got done.
pub open spec fn cholesky_solution<F: Fn(FloatOp, Real, Real, Real) -> Real>(
    fpu: &Fpu<F>,
    n: int,
    l: Seq<Real>,
    b: Seq<Real>,
) -> Seq<Real> {
    let at = first_tiny(n, l, 0);
    let y = forward(fpu, n, l, b, false, at as nat);
    if at < n {
        y
    } else {
        backward(fpu, n, l, y, true, 0)
    }
}

proof fn lemma_tiny_ends(n: int, l: Seq<Real>, from: int)
    requires
        0 <= from <= n,
        first_tiny(n, l, from) >= n,
    ensures
        forall|k: int| from <= k < n ==> !tiny(#[trigger] entry(l, n, k, k)),
        first_tiny(n, l, from) == n,
    decreases n - from,
{
    if from < n {
        lemma_tiny_ends(n, l, from + 1);
    }
}

proof fn lemma_no_tiny_last(n: int, l: Seq<Real>, to: int)
    requires
        0 <= to <= n,
        forall|k: int| 0 <= k < n ==> !tiny(#[trigger] entry(l, n, k, k)),
    ensures
        last_tiny(n, l, to) == -1,
    decreases to,
{
    if to > 0 {
        assert(!tiny(entry(l, n, to - 1, to - 1)));
        lemma_no_tiny_last(n, l, to - 1);
    }
}

fn solve_cholesky<F: Fn(FloatOp, Real, Real, Real) -> Real>(
    fpu: &Fpu<F>,
    n: usize,
    l: &[Real],
    b: &mut Vec<Real>,
) -> (r: Result<(), LinalgError>)
    requires
        fpu.wf(),
        l@.len() == n * n,
        old(b)@.len() == n,
    ensures
        final(b)@ == cholesky_solution(fpu, n as int, l@, old(b)@),
        r is Ok ==> final(b)@.len() == n,
        if first_tiny(n as int, l@, 0) < n {
            refused(r, Fault::Singular)
        } else {
            r is Ok
        },
{
    let ghost b0 = b@;
    match dtrsv_lower(fpu, n, l, b, false) {
        Err(e) => {
            return Err(e);
        },
        Ok(_) => {},
    }
    proof {
        lemma_tiny_ends(n as int, l@, 0);
        lemma_no_tiny_last(n as int, l@, n as int);
        lemma_forward_len(fpu, n as int, l@, b0, false, n as nat);
    }
    back_substitute(fpu, n, l, b, true)
}

/// Solves `A x = b` for a symmetric positive definite matrix by the Cholesky
/// factor that `factor` computes. `a` becomes the factor and `b` the solution.
pub fn dposv<
    F: Fn(FloatOp, Real, Real, Real) -> Real,
    G: Fn(usize, &[Real]) -> Result<Vec<Real>, LinalgError>,
>(fpu: &Fpu<F>, factor: &G, n: usize, a: &mut Vec<Real>, b: &mut Vec<Real>) -> (r: Result<(), LinalgError>)
    requires
        fpu.wf(),
        factors_square(*factor),
    ensures
        r is Ok ==> final(b)@.len() == n,
        if old(a)@.len() != n * n {
            refused(r, Fault::NotSquare) && final(a)@ == old(a)@ && final(b)@ == old(b)@
        } else if old(b)@.len() != n {
            refused(r, Fault::Mismatch((n, 1), (old(b)@.len() as usize, 1))) && final(a)@ == old(a)@
                && final(b)@ == old(b)@
        } else {
            exists|s: &[Real], out: Result<Vec<Real>, LinalgError>|
                s@ == old(a)@ && #[trigger] call_ensures(*factor, (n, s), out) && match out {
                    Err(e) => refused(r, e.deep()) && final(a)@ == old(a)@ && final(b)@ == old(b)@,
                    Ok(l) => {
                        &&& final(a)@ == l@
                        &&& final(b)@ == cholesky_solution(fpu, n as int, l@, old(b)@)
                        &&& if first_tiny(n as int, l@, 0) < n {
                            refused(r, Fault::Singular)
                        } else {
                            r is Ok
                        }
                    },
                }
        },
{
    if !area_is(a.len(), n, n) {
        return Err(LinalgError::NotSquare);
    }
    if b.len() != n {
        return Err(LinalgError::DimensionMismatch { expected: (n, 1), got: (b.len(), 1) });
    }
    let src: Vec<Real> = dup_copies(a);
    let s: &[Real] = src.as_slice();
    let out: Result<Vec<Real>, LinalgError> = factor(n, s);
    assert(call_ensures(*factor, (n, s), out));
    match out {
        Err(e) => Err(e),
        Ok(l) => {
            let r = solve_cholesky(fpu, n, l.as_slice(), b);
            *a = l;
            r
        },
    }
}

/// Column `c` of the unit matrix.
pub open spec fn unit_column(n: nat, c: int) -> Seq<Real> {
    Seq::new(n, |i: int| if i == c { one() } else { zero() })
}

/// The inverse from the factors.
pub open spec fn inverse<F: Fn(FloatOp, Real, Real, Real) -> Real>(
    fpu: &Fpu<F>,
    n: nat,
    a: Seq<Real>,
    p: Seq<usize>,
) -> Seq<Real> {
    table(n, n, |i: int, c: int| lu_solution(fpu, n as int, a, p, unit_column(n, c))[i])
}

/// Inverts a square matrix by the factorization that `factor` computes.
pub fn dgetri<
    F: Fn(FloatOp, Real, Real, Real) -> Real,
    G: Fn(usize, &[Real]) -> Result<Lu, LinalgError>,
>(fpu: &Fpu<F>, factor: &G, n: usize, a: &[Real]) -> (r: Result<Vec<Real>, LinalgError>)
    requires
        fpu.wf(),
        factors_lu(*factor),
    ensures
        if a@.len() != n * n {
            refused(r, Fault::NotSquare)
        } else {
            exists|out: Result<Lu, LinalgError>| #[trigger]
                call_ensures(*factor, (n, a), out) && inverts(fpu, n as nat, out, r)
        },
        r matches Ok(v) ==> v@.len() == n * n,
{
    if !area_is(a.len(), n, n) {
        return Err(LinalgError::NotSquare);
    }
    let out: Result<Lu, LinalgError> = factor(n, a);
    assert(call_ensures(*factor, (n, a), out));
    match out {
        Err(e) => {
            proof {
                assert(inverts(fpu, n as nat, Err::<Lu, LinalgError>(e), Err::<Vec<Real>, LinalgError>(e)));
            }
            Err(e)
        },
        Ok(lu) => {
            let ghost want = inverse(fpu, n as nat, lu.a@, lu.ipiv@);
            let ghost f = |i: int, c: int| lu_solution(fpu, n as int, lu.a@, lu.ipiv@, unit_column(n as nat, c))[i];
            let len: usize = a.len();
            let mut inv: Vec<Real> = Vec::new();
            let mut c: usize = 0;
            while c < n
                invariant
                    fpu.wf(),
                    lu.wf(n as nat),
                    len == n * n,
                    len == a@.len(),
                    c <= n,
                    want == table(n as nat, n as nat, f),
                    f == (|i: int, c: int|
                        lu_solution(fpu, n as int, lu.a@, lu.ipiv@, unit_column(n as nat, c))[i]),
                    inv@ == want.take(c * n),
                    call_ensures(*factor, (n, a), Ok::<Lu, LinalgError>(lu)),
                    c > 0 ==> last_tiny(n as int, lu.a@, n as int) < 0,
                decreases n - c,
            {
                let mut e: Vec<Real> = Vec::new();
                let mut i: usize = 0;
                while i < n
                    invariant
                        i <= n,
                        e@ == unit_column(n as nat, c as int).take(i as int),
                    decreases n - i,
                {
                    e.push(if i == c { Real { bits: ONE_BITS } } else { Real { bits: 0 } });
                    assert(e@ =~= unit_column(n as nat, c as int).take(i + 1));
                    i += 1;
                }
                assert(e@ =~= unit_column(n as nat, c as int));
                let (x, ok) = solve_lu(fpu, n, &lu, &e);
                if !ok {
                    assert(inverts(fpu, n as nat, Ok::<Lu, LinalgError>(lu), Err::<Vec<Real>, LinalgError>(LinalgError::Singular)));
                    return Err(LinalgError::Singular);
                }
                let mut i: usize = 0;
                proof {
                    assert(c * n + n <= n * n) by (nonlinear_arith)
                        requires
                            c + 1 <= n,
                    ;
                    assert((c + 1) * n == c * n + n) by (nonlinear_arith);
                    assert(0 <= c * n) by (nonlinear_arith);
                }
                while i < n
                    invariant
                        i <= n,
                        c < n,
                        x@.len() == n,
                        want == table(n as nat, n as nat, f),
                        f == (|i: int, c: int|
                            lu_solution(fpu, n as int, lu.a@, lu.ipiv@, unit_column(n as nat, c))[i]),
                        x@ == lu_solution(fpu, n as int, lu.a@, lu.ipiv@, unit_column(n as nat, c as int)),
                        0 <= c * n,
                        c * n + n <= n * n,
                        inv@ == want.take(c * n + i),
                    decreases n - i,
                {
                    inv.push(x[i]);
                    proof {
                        lemma_entry(n as nat, n as nat, f, i as int, c as int);
                        assert(want[c * n + i] == x@[i as int]);
                        assert(inv@ =~= want.take(c * n + i + 1));
                    }
                    i += 1;
                }
                c += 1;
            }
            proof {
                if n == 0 {
                    assert(last_tiny(0, lu.a@, 0) < 0);
                }
                assert(want.take(n * n) =~= want);
                assert(inverts(fpu, n as nat, Ok::<Lu, LinalgError>(lu), Ok::<Vec<Real>, LinalgError>(inv)));
            }
            Ok(inv)
        },
    }
}

/// `r` is the inverse that belongs to a factorization.
pub open spec fn inverts<F: Fn(FloatOp, Real, Real, Real) -> Real>(
    fpu: &Fpu<F>,
    n: nat,
    out: Result<Lu, LinalgError>,
    r: Result<Vec<Real>, LinalgError>,
) -> bool {
    match out {
        Err(e) => refused(r, e.deep()),
        Ok(lu) => if last_tiny(n as int, lu.a@, n as int) >= 0 {
            refused(r, Fault::Singular)
        } else {
            r is Ok && r->Ok_0@ == inverse(fpu, n, lu.a@, lu.ipiv@)
        },
    }
}

/// The sum of products, four rows at a time and then one by one: the total
/// after `r` rows, where `r` is a multiple of four or past the last one.
pub open spec fn fused<F: Fn(FloatOp, Real, Real, Real) -> Real>(
    fpu: &Fpu<F>,
    u: spec_fn(int) -> Real,
    v: spec_fn(int) -> Real,
    m: int,
    r: nat,
) -> Real
    decreases r,
{
    if r == 0 {
        zero()
    } else if r % 4 == 0 && r <= m - m % 4 {
        let i = r - 4;
        fpu.plus(
            fused(fpu, u, v, m, i as nat),
            fpu.plus(
                fpu.plus(
                    fpu.plus(fpu.times(u(i), v(i)), fpu.times(u(i + 1), v(i + 1))),
                    fpu.times(u(i + 2), v(i + 2)),
                ),
                fpu.times(u(i + 3), v(i + 3)),
            ),
        )
    } else {
        fpu.plus(fused(fpu, u, v, m, (r - 1) as nat), fpu.times(u(r - 1), v(r - 1)))
    }
}

fn fused_dot<F: Fn(FloatOp, Real, Real, Real) -> Real>(fpu: &Fpu<F>, u: &[Real], v: &[Real], uo: usize, vo: usize, m: usize) -> (r: Real)
    requires
        fpu.wf(),
        uo + m <= u@.len(),
        vo + m <= v@.len(),
    ensures
        r == fused(fpu, |i: int| u@[uo + i], |i: int| v@[vo + i], m as int, m as nat),
{
    let ghost su = |i: int| u@[uo + i];
    let ghost sv = |i: int| v@[vo + i];
    let ul: usize = u.len();
    let vl: usize = v.len();
    let m4: usize = m - m % 4;
    let mut acc: Real = Real { bits: 0 };
    let mut r: usize = 0;
    while r < m4
        invariant
            fpu.wf(),
            ul == u@.len(),
            vl == v@.len(),
            uo + m <= ul,
            vo + m <= vl,
            m4 == m - m % 4,
            r <= m4,
            r % 4 == 0,
            su == (|i: int| u@[uo + i]),
            sv == (|i: int| v@[vo + i]),
            acc == fused(fpu, su, sv, m as int, r as nat),
        decreases m4 - r,
    {
        let p0: Real = fpu.apply(FloatOp::Times, u[uo + r], v[vo + r]);
        let p1: Real = fpu.apply(FloatOp::Times, u[uo + r + 1], v[vo + r + 1]);
        let p2: Real = fpu.apply(FloatOp::Times, u[uo + r + 2], v[vo + r + 2]);
        let p3: Real = fpu.apply(FloatOp::Times, u[uo + r + 3], v[vo + r + 3]);
        let a: Real = fpu.apply(FloatOp::Plus, p0, p1);
        let b: Real = fpu.apply(FloatOp::Plus, a, p2);
        let c: Real = fpu.apply(FloatOp::Plus, b, p3);
        acc = fpu.apply(FloatOp::Plus, acc, c);
        r += 4;
    }
    while r < m
        invariant
            fpu.wf(),
            ul == u@.len(),
            vl == v@.len(),
            uo + m <= ul,
            vo + m <= vl,
            m4 == m - m % 4,
            m4 <= r <= m,
            su == (|i: int| u@[uo + i]),
            sv == (|i: int| v@[vo + i]),
            acc == fused(fpu, su, sv, m as int, r as nat),
        decreases m - r,
    {
        let p: Real = fpu.apply(FloatOp::Times, u[uo + r], v[vo + r]);
        acc = fpu.apply(FloatOp::Plus, acc, p);
        r += 1;
    }
    acc
}

/// `X' X` from columns of length `m`.
pub open spec fn cross<F: Fn(FloatOp, Real, Real, Real) -> Real>(fpu: &Fpu<F>, m: nat, n: nat, x: Seq<Real>) -> Seq<
    Real,
> {
    table(
        n,
        n,
        |i: int, j: int|
            if i >= j {
                fused(fpu, |r: int| x[i * m + r], |r: int| x[j * m + r], m as int, m)
            } else {
                fused(fpu, |r: int| x[j * m + r], |r: int| x[i * m + r], m as int, m)
            },
    )
}

/// `X' y` from columns of length `m`.
pub open spec fn cross_vector<F: Fn(FloatOp, Real, Real, Real) -> Real>(
    fpu: &Fpu<F>,
    m: nat,
    n: nat,
    x: Seq<Real>,
    y: Seq<Real>,
) -> Seq<Real> {
    Seq::new(n, |j: int| fused(fpu, |r: int| x[j * m + r], |r: int| y[0 + r], m as int, m))
}

/// `r` is the least-squares solution from the normal equations `g x = h`.
pub open spec fn normal_solution<
    F: Fn(FloatOp, Real, Real, Real) -> Real,
    G: Fn(usize, &[Real]) -> Result<Vec<Real>, LinalgError>,
>(fpu: &Fpu<F>, factor: G, n: usize, g: Seq<Real>, h: Seq<Real>, r: Result<Vec<Real>, LinalgError>) -> bool {
    exists|s: &[Real], out: Result<Vec<Real>, LinalgError>|
        s@ == g && #[trigger] call_ensures(factor, (n, s), out) && match out {
            Err(e) => refused(r, e.deep()),
            Ok(l) => if first_tiny(n as int, l@, 0) < n {
                refused(r, Fault::Singular)
            } else {
                r is Ok && r->Ok_0@ == cholesky_solution(fpu, n as int, l@, h)
            },
        }
}

/// Least squares for `m` rows and `n` columns: the normal equations, built in
/// one pass over the rows, solved by the Cholesky factor that `factor` computes.
pub fn dlsq_fused<
    F: Fn(FloatOp, Real, Real, Real) -> Real,
    G: Fn(usize, &[Real]) -> Result<Vec<Real>, LinalgError>,
>(fpu: &Fpu<F>, factor: &G, m: usize, n: usize, x: &[Real], y: &[Real]) -> (r: Result<Vec<Real>, LinalgError>)
    requires
        fpu.wf(),
        factors_square(*factor),
        n * n <= usize::MAX,
    ensures
        r matches Ok(v) ==> v@.len() == n,
        if x@.len() != m * n {
            refused(r, Fault::Shape("X"@))
        } else if y@.len() != m {
            refused(r, Fault::Mismatch((m, 1), (y@.len() as usize, 1)))
        } else {
            normal_solution(
                fpu,
                *factor,
                n,
                cross(fpu, m as nat, n as nat, x@),
                cross_vector(fpu, m as nat, n as nat, x@, y@),
                r,
            )
        },
{
    if !area_is(x.len(), m, n) {
        return Err(LinalgError::InvalidShape(owned("X")));
    }
    if y.len() != m {
        return Err(LinalgError::DimensionMismatch { expected: (m, 1), got: (y.len(), 1) });
    }
    let len: usize = x.len();
    let ghost f = |i: int, j: int|
        if i >= j {
            fused(fpu, |r: int| x@[i * m + r], |r: int| x@[j * m + r], m as int, m as nat)
        } else {
            fused(fpu, |r: int| x@[j * m + r], |r: int| x@[i * m + r], m as int, m as nat)
        };
    let g = |i: usize, j: usize| -> (v: Real)
        requires
            fpu.wf(),
            i < n,
            j < n,
            x@.len() == m * n,
            len == x@.len(),
        ensures
            v == (if i >= j {
                fused(fpu, |r: int| x@[i * m + r], |r: int| x@[j * m + r], m as int, m as nat)
            } else {
                fused(fpu, |r: int| x@[j * m + r], |r: int| x@[i * m + r], m as int, m as nat)
            }),
        {
            proof {
                lemma_columns(i as int, m as int, n as int);
                lemma_columns(j as int, m as int, n as int);
            }
            if i >= j {
                fused_dot(fpu, x, x, i * m, j * m, m)
            } else {
                fused_dot(fpu, x, x, j * m, i * m, m)
            }
        };
    let mut xtx: Vec<Real> = table_of(n, n, &g, Ghost(f));
    assert(xtx@ =~= cross(fpu, m as nat, n as nat, x@));
    let mut xty: Vec<Real> = Vec::new();
    let ghost want = cross_vector(fpu, m as nat, n as nat, x@, y@);
    let mut j: usize = 0;
    while j < n
        invariant
            fpu.wf(),
            j <= n,
            x@.len() == m * n,
            len == x@.len(),
            y@.len() == m,
            want == cross_vector(fpu, m as nat, n as nat, x@, y@),
            xty@ == want.take(j as int),
        decreases n - j,
    {
        proof {
            lemma_columns(j as int, m as int, n as int);
        }
        let v: Real = fused_dot(fpu, x, y, j * m, 0, m);
        assert(v == want[j as int]);
        xty.push(v);
        assert(xty@ =~= want.take(j + 1));
        j += 1;
    }
    assert(xty@ =~= want);
    let r = dposv(fpu, factor, n, &mut xtx, &mut xty);
    match r {
        Err(e) => Err(e),
        Ok(_) => Ok(xty),
    }
}

proof fn lemma_columns(j: int, m: int, n: int)
    requires
        0 <= j < n,
        m >= 0,
    ensures
        0 <= j * m,
        j * m + m <= m * n,
{
    assert(0 <= j * m && j * m + m <= m * n) by (nonlinear_arith)
        requires
            0 <= j,
            j + 1 <= n,
            m >= 0,
    ;
}

/// `g` computes `X' X` for `m` rows and `n` columns or says why not.
pub open spec fn crosses<C: Fn(usize, usize, &[Real]) -> Result<Vec<Real>, LinalgError>>(c: C) -> bool {
    &&& forall|m: usize, n: usize, s: &[Real]| s@.len() == m * n ==> #[trigger] call_requires(c, (m, n, s))
    &&& forall|m: usize, n: usize, s: &[Real], g: Vec<Real>| #[trigger]
        call_ensures(c, (m, n, s), Ok::<Vec<Real>, LinalgError>(g)) ==> g@.len() == n * n
}

/// Least squares by the normal equations, with `X' X` from `crossprod` and its
/// Cholesky factor from `factor`.
pub fn dlsq_normal<
    F: Fn(FloatOp, Real, Real, Real) -> Real,
    C: Fn(usize, usize, &[Real]) -> Result<Vec<Real>, LinalgError>,
    G: Fn(usize, &[Real]) -> Result<Vec<Real>, LinalgError>,
>(fpu: &Fpu<F>, crossprod: &C, factor: &G, m: usize, n: usize, a: &[Real], b: &[Real]) -> (r: Result<
    Vec<Real>,
    LinalgError,
>)
    requires
        fpu.wf(),
        crosses(*crossprod),
        factors_square(*factor),
    ensures
        if a@.len() != m * n {
            refused(r, Fault::Shape("A"@))
        } else if b@.len() != m {
            refused(r, Fault::Mismatch((m, 1), (b@.len() as usize, 1)))
        } else {
            exists|out: Result<Vec<Real>, LinalgError>| #[trigger]
                call_ensures(*crossprod, (m, n, a), out) && match out {
                    Err(e) => refused(r, e.deep()),
                    Ok(g) => normal_solution(
                        fpu,
                        *factor,
                        n,
                        g@,
                        gemv_t(fpu, m as int, one(), a@, b@, zero(), zeros(n as nat)),
                        r,
                    ),
                }
        },
{
    if !area_is(a.len(), m, n) {
        return Err(LinalgError::InvalidShape(owned("A")));
    }
    if b.len() != m {
        return Err(LinalgError::DimensionMismatch { expected: (m, 1), got: (b.len(), 1) });
    }
    let out: Result<Vec<Real>, LinalgError> = crossprod(m, n, a);
    assert(call_ensures(*crossprod, (m, n, a), out));
    match out {
        Err(e) => Err(e),
        Ok(g) => {
            let mut xtx: Vec<Real> = dup_copies(&g);
            let mut xtb: Vec<Real> = Vec::new();
            let mut i: usize = 0;
            while i < n
                invariant
                    i <= n,
                    xtb@ == zeros(n as nat).take(i as int),
                decreases n - i,
            {
                xtb.push(Real { bits: 0 });
                assert(xtb@ =~= zeros(n as nat).take(i + 1));
                i += 1;
            }
            assert(xtb@ =~= zeros(n as nat));
            let _ = dgemv_t(fpu, m, n, Real { bits: ONE_BITS }, a, b, Real { bits: 0 }, &mut xtb);
            let ghost h = xtb@;
            match dposv(fpu, factor, n, &mut xtx, &mut xtb) {
                Err(e) => {
                    proof {
                        assert(normal_solution(fpu, *factor, n, g@, h, Err::<Vec<Real>, LinalgError>(e)));
                    }
                    Err(e)
                },
                Ok(_) => {
                    proof {
                        assert(normal_solution(fpu, *factor, n, g@, h, Ok::<Vec<Real>, LinalgError>(xtb)));
                    }
                    Ok(xtb)
                },
            }
        },
    }
}

pub open spec fn zeros(n: nat) -> Seq<Real> {
    Seq::new(n, |i: int| zero())
}

/// `a d - b c`.
pub open spec fn minor<F: Fn(FloatOp, Real, Real, Real) -> Real>(fpu: &Fpu<F>, a: Real, d: Real, b: Real, c: Real) -> Real {
    fpu.minus(fpu.times(a, d), fpu.times(b, c))
}

fn minor_of<F: Fn(FloatOp, Real, Real, Real) -> Real>(fpu: &Fpu<F>, a: Real, d: Real, b: Real, c: Real) -> (r: Real)
    requires
        fpu.wf(),
    ensures
        r == minor(fpu, a, d, b, c),
{
    let p: Real = fpu.apply(FloatOp::Times, a, d);
    let q: Real = fpu.apply(FloatOp::Times, b, c);
    fpu.apply(FloatOp::Minus, p, q)
}

/// The solution of two equations by their determinants.
pub open spec fn solution_2x2<F: Fn(FloatOp, Real, Real, Real) -> Real>(fpu: &Fpu<F>, a: Seq<Real>, b: Seq<Real>) -> Seq<Real> {
    let inv = fpu.over(one(), minor(fpu, a[0], a[3], a[1], a[2]));
    seq![
        fpu.times(inv, minor(fpu, a[3], b[0], a[2], b[1])),
        fpu.times(inv, minor(fpu, a[0], b[1], a[1], b[0])),
    ]
}

/// Solves a system of two equations, the matrix given column by column.
pub fn solve_2x2<F: Fn(FloatOp, Real, Real, Real) -> Real>(fpu: &Fpu<F>, a: &[Real; 4], b: &[Real; 2]) -> (r: Result<
    [Real; 2],
    LinalgError,
>)
    requires
        fpu.wf(),
    ensures
        ({
            let det = minor(fpu, a@[0], a@[3], a@[1], a@[2]);
            let inv = fpu.over(one(), det);
            if tiny(det) {
                refused(r, Fault::Singular)
            } else {
                &&& r is Ok
                &&& r->Ok_0@ == solution_2x2(fpu, a@, b@)
                &&& r->Ok_0@[0] == fpu.times(inv, minor(fpu, a@[3], b@[0], a@[2], b@[1]))
                &&& r->Ok_0@[1] == fpu.times(inv, minor(fpu, a@[0], b@[1], a@[1], b@[0]))
            }
        }),
{
    let det: Real = minor_of(fpu, a[0], a[3], a[1], a[2]);
    if det.abs().lt(&Real { bits: crate::linalg::PIVOT_BITS }) {
        return Err(LinalgError::Singular);
    }
    let inv: Real = fpu.apply(FloatOp::Over, Real { bits: ONE_BITS }, det);
    let p: Real = minor_of(fpu, a[3], b[0], a[2], b[1]);
    let q: Real = minor_of(fpu, a[0], b[1], a[1], b[0]);
    let x0: Real = fpu.apply(FloatOp::Times, inv, p);
    let x1: Real = fpu.apply(FloatOp::Times, inv, q);
    let x: [Real; 2] = [x0, x1];
    assert(x@ =~= solution_2x2(fpu, a@, b@));
    Ok(x)
}

/// The determinant of three columns, expanded along the first entries of each:
/// `p0 (q1 r2 - q2 r1) - q0 (p1 r2 - p2 r1) + r0 (p1 q2 - p2 q1)`.
pub open spec fn det3<F: Fn(FloatOp, Real, Real, Real) -> Real>(
    fpu: &Fpu<F>,
    p: (Real, Real, Real),
    q: (Real, Real, Real),
    r: (Real, Real, Real),
) -> Real {
    fpu.plus(
        fpu.minus(
            fpu.times(p.0, minor(fpu, q.1, r.2, q.2, r.1)),
            fpu.times(q.0, minor(fpu, p.1, r.2, p.2, r.1)),
        ),
        fpu.times(r.0, minor(fpu, p.1, q.2, p.2, q.1)),
    )
}

fn det3_of<F: Fn(FloatOp, Real, Real, Real) -> Real>(
    fpu: &Fpu<F>,
    p: (Real, Real, Real),
    q: (Real, Real, Real),
    r: (Real, Real, Real),
) -> (d: Real)
    requires
        fpu.wf(),
    ensures
        d == det3(fpu, p, q, r),
{
    let a: Real = minor_of(fpu, q.1, r.2, q.2, r.1);
    let b: Real = minor_of(fpu, p.1, r.2, p.2, r.1);
    let c: Real = minor_of(fpu, p.1, q.2, p.2, q.1);
    let x: Real = fpu.apply(FloatOp::Times, p.0, a);
    let y: Real = fpu.apply(FloatOp::Times, q.0, b);
    let z: Real = fpu.apply(FloatOp::Times, r.0, c);
    let w: Real = fpu.apply(FloatOp::Minus, x, y);
    fpu.apply(FloatOp::Plus, w, z)
}

/// The solution of three equations by their determinants.
pub open spec fn solution_3x3<F: Fn(FloatOp, Real, Real, Real) -> Real>(fpu: &Fpu<F>, a: Seq<Real>, b: Seq<Real>) -> Seq<Real> {
    let p = (a[0], a[1], a[2]);
    let q = (a[3], a[4], a[5]);
    let s = (a[6], a[7], a[8]);
    let h = (b[0], b[1], b[2]);
    let inv = fpu.over(one(), det3(fpu, p, q, s));
    seq![
        fpu.times(inv, det3(fpu, h, q, s)),
        fpu.times(inv, det3(fpu, p, h, s)),
        fpu.times(inv, det3(fpu, p, q, h)),
    ]
}

/// Solves a system of three equations by Cramer's rule, the matrix given column
/// by column.
pub fn solve_3x3<F: Fn(FloatOp, Real, Real, Real) -> Real>(fpu: &Fpu<F>, a: &[Real; 9], b: &[Real; 3]) -> (r: Result<
    [Real; 3],
    LinalgError,
>)
    requires
        fpu.wf(),
    ensures
        ({
            let p = (a@[0], a@[1], a@[2]);
            let q = (a@[3], a@[4], a@[5]);
            let s = (a@[6], a@[7], a@[8]);
            let h = (b@[0], b@[1], b@[2]);
            let det = det3(fpu, p, q, s);
            let inv = fpu.over(one(), det);
            if tiny(det) {
                refused(r, Fault::Singular)
            } else {
                &&& r is Ok
                &&& r->Ok_0@ == solution_3x3(fpu, a@, b@)
                &&& r->Ok_0@[0] == fpu.times(inv, det3(fpu, h, q, s))
                &&& r->Ok_0@[1] == fpu.times(inv, det3(fpu, p, h, s))
                &&& r->Ok_0@[2] == fpu.times(inv, det3(fpu, p, q, h))
            }
        }),
{
    let p = (a[0], a[1], a[2]);
    let q = (a[3], a[4], a[5]);
    let s = (a[6], a[7], a[8]);
    let h = (b[0], b[1], b[2]);
    let det: Real = det3_of(fpu, p, q, s);
    if det.abs().lt(&Real { bits: crate::linalg::PIVOT_BITS }) {
        return Err(LinalgError::Singular);
    }
    let inv: Real = fpu.apply(FloatOp::Over, Real { bits: ONE_BITS }, det);
    let d0: Real = det3_of(fpu, h, q, s);
    let d1: Real = det3_of(fpu, p, h, s);
    let d2: Real = det3_of(fpu, p, q, h);
    let x0: Real = fpu.apply(FloatOp::Times, inv, d0);
    let x1: Real = fpu.apply(FloatOp::Times, inv, d1);
    let x2: Real = fpu.apply(FloatOp::Times, inv, d2);
    let x: [Real; 3] = [x0, x1, x2];
    assert(x@ =~= solution_3x3(fpu, a@, b@));
    Ok(x)
}

} // verus!
