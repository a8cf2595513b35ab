//! Distances between points.
use crate::double::{FloatOp, Fpu, ONE_BITS, Real, one, zero};
use crate::kernel::Backend;
use crate::kernel_map::par_for;
use crate::kernel_par::{ScanOp, folded, scan_combine, scan_identity};
use vstd::prelude::*;

verus! {

#[derive(Clone, Copy, PartialEq, Eq, Structural, Debug)]
pub enum DistanceOp {
    Euclidean,
    Manhattan,
    Cosine,
}

/// The coordinates that both points have, among the first `n`.
pub open spec fn shared(a: Seq<Option<Real>>, b: Seq<Option<Real>>, n: nat) -> Seq<(Real, Real)>
    decreases n,
{
    if n == 0 {
        Seq::empty()
    } else {
        let s = shared(a, b, (n - 1) as nat);
        match (a[n - 1], b[n - 1]) {
            (Some(x), Some(y)) => s.push((x, y)),
            _ => s,
        }
    }
}

/// What is added up over the shared coordinates.
#[derive(Clone, Copy, PartialEq, Eq, Structural, Debug)]
enum Term {
    Square,
    Gap,
    Product,
    First,
    Second,
}

pub open spec fn square_gaps<F: Fn(FloatOp, Real, Real, Real) -> Real>(
    fpu: &Fpu<F>,
    s: Seq<(Real, Real)>,
) -> Seq<Real> {
    Seq::new(s.len(), |i: int| fpu.square_diff(s[i].0, s[i].1))
}

pub open spec fn gaps<F: Fn(FloatOp, Real, Real, Real) -> Real>(fpu: &Fpu<F>, s: Seq<(Real, Real)>) -> Seq<Real> {
    Seq::new(s.len(), |i: int| fpu.minus(s[i].0, s[i].1).absolute())
}

pub open spec fn products<F: Fn(FloatOp, Real, Real, Real) -> Real>(
    fpu: &Fpu<F>,
    s: Seq<(Real, Real)>,
) -> Seq<Real> {
    Seq::new(s.len(), |i: int| fpu.times(s[i].0, s[i].1))
}

pub open spec fn first_squares<F: Fn(FloatOp, Real, Real, Real) -> Real>(
    fpu: &Fpu<F>,
    s: Seq<(Real, Real)>,
) -> Seq<Real> {
    Seq::new(s.len(), |i: int| fpu.times(s[i].0, s[i].0))
}

pub open spec fn second_squares<F: Fn(FloatOp, Real, Real, Real) -> Real>(
    fpu: &Fpu<F>,
    s: Seq<(Real, Real)>,
) -> Seq<Real> {
    Seq::new(s.len(), |i: int| fpu.times(s[i].1, s[i].1))
}

/// The distance over shared coordinates: none where there are none, and no
/// cosine distance from a point whose squares add up to zero.
pub open spec fn distance_over<F: Fn(FloatOp, Real, Real, Real) -> Real>(
    fpu: &Fpu<F>,
    op: DistanceOp,
    s: Seq<(Real, Real)>,
) -> Option<Real> {
    if s.len() == 0 {
        None
    } else {
        match op {
            DistanceOp::Euclidean => Some(fpu.sqrt(folded(fpu, ScanOp::Cumsum, square_gaps(fpu, s)))),
            DistanceOp::Manhattan => Some(folded(fpu, ScanOp::Cumsum, gaps(fpu, s))),
            DistanceOp::Cosine => {
                let dot = folded(fpu, ScanOp::Cumsum, products(fpu, s));
                let na = folded(fpu, ScanOp::Cumsum, first_squares(fpu, s));
                let nb = folded(fpu, ScanOp::Cumsum, second_squares(fpu, s));
                if na.same(zero()) || nb.same(zero()) {
                    None
                } else {
                    Some(fpu.minus(one(), fpu.over(dot, fpu.times(fpu.sqrt(na), fpu.sqrt(nb)))))
                }
            },
        }
    }
}

/// The distance between two points of the same dimension.
pub open spec fn distance_between<F: Fn(FloatOp, Real, Real, Real) -> Real>(
    fpu: &Fpu<F>,
    op: DistanceOp,
    a: Seq<Option<Real>>,
    b: Seq<Option<Real>>,
) -> Option<Real> {
    distance_over(fpu, op, shared(a, b, a.len()))
}

spec fn term_values<F: Fn(FloatOp, Real, Real, Real) -> Real>(
    fpu: &Fpu<F>,
    t: Term,
    s: Seq<(Real, Real)>,
) -> Seq<Real> {
    match t {
        Term::Square => square_gaps(fpu, s),
        Term::Gap => gaps(fpu, s),
        Term::Product => products(fpu, s),
        Term::First => first_squares(fpu, s),
        Term::Second => second_squares(fpu, s),
    }
}

fn term<F: Fn(FloatOp, Real, Real, Real) -> Real>(fpu: &Fpu<F>, t: Term, x: Real, y: Real) -> (r: Real)
    requires
        fpu.wf(),
    ensures
        seq![r] == term_values(fpu, t, seq![(x, y)]),
{
    let r: Real = match t {
        Term::Square => {
            let d: Real = fpu.apply(FloatOp::Minus, x, y);
            fpu.apply(FloatOp::Times, d, d)
        },
        Term::Gap => fpu.apply(FloatOp::Minus, x, y).abs(),
        Term::Product => fpu.apply(FloatOp::Times, x, y),
        Term::First => fpu.apply(FloatOp::Times, x, x),
        Term::Second => fpu.apply(FloatOp::Times, y, y),
    };
    assert(seq![r] =~= term_values(fpu, t, seq![(x, y)]));
    r
}

fn add_up<F: Fn(FloatOp, Real, Real, Real) -> Real>(
    fpu: &Fpu<F>,
    t: Term,
    a: &[Option<Real>],
    b: &[Option<Real>],
) -> (r: (Real, bool))
    requires
        fpu.wf(),
        a@.len() == b@.len(),
    ensures
        r.0 == folded(fpu, ScanOp::Cumsum, term_values(fpu, t, shared(a@, b@, a@.len()))),
        r.1 == (shared(a@, b@, a@.len()).len() > 0),
{
    let mut acc: Real = scan_identity(ScanOp::Cumsum);
    let mut any: bool = false;
    let mut i: usize = 0;
    assert(term_values(fpu, t, Seq::<(Real, Real)>::empty()) =~= Seq::<Real>::empty());
    while i < a.len()
        invariant
            fpu.wf(),
            i <= a.len(),
            a@.len() == b@.len(),
            acc == folded(fpu, ScanOp::Cumsum, term_values(fpu, t, shared(a@, b@, i as nat))),
            any == (shared(a@, b@, i as nat).len() > 0),
        decreases a.len() - i,
    {
        match (a[i], b[i]) {
            (Some(x), Some(y)) => {
                let v: Real = term(fpu, t, x, y);
                proof {
                    let s = shared(a@, b@, i as nat);
                    let u = term_values(fpu, t, s.push((x, y)));
                    assert(u.drop_last() =~= term_values(fpu, t, s));
                    assert(seq![v][0] == term_values(fpu, t, seq![(x, y)])[0]);
                    assert(u.last() == v);
                }
                acc = scan_combine(fpu, ScanOp::Cumsum, acc, v);
                any = true;
            },
            _ => {},
        }
        i += 1;
    }
    (acc, any)
}

/// The distance between two points of the same dimension. Coordinates that one
/// of them lacks are skipped.
pub fn distance<F: Fn(FloatOp, Real, Real, Real) -> Real>(
    fpu: &Fpu<F>,
    op: DistanceOp,
    a: &[Option<Real>],
    b: &[Option<Real>],
) -> (r: Option<Real>)
    requires
        fpu.wf(),
        a@.len() == b@.len(),
    ensures
        r == distance_between(fpu, op, a@, b@),
{
    match op {
        DistanceOp::Euclidean => {
            let (ss, any) = add_up(fpu, Term::Square, a, b);
            if any {
                Some(fpu.apply1(FloatOp::Sqrt, ss))
            } else {
                None
            }
        },
        DistanceOp::Manhattan => {
            let (s, any) = add_up(fpu, Term::Gap, a, b);
            if any {
                Some(s)
            } else {
                None
            }
        },
        DistanceOp::Cosine => {
            let (dot, any) = add_up(fpu, Term::Product, a, b);
            let (na, _) = add_up(fpu, Term::First, a, b);
            let (nb, _) = add_up(fpu, Term::Second, a, b);
            let z: Real = Real { bits: 0 };
            if !any || na.eq_value(&z) || nb.eq_value(&z) {
                None
            } else {
                let ra: Real = fpu.apply1(FloatOp::Sqrt, na);
                let rb: Real = fpu.apply1(FloatOp::Sqrt, nb);
                let den: Real = fpu.apply(FloatOp::Times, ra, rb);
                let q: Real = fpu.apply(FloatOp::Over, dot, den);
                Some(fpu.apply(FloatOp::Minus, Real { bits: ONE_BITS }, q))
            }
        },
    }
}

/// Row `i` of a matrix that is stored row by row.
pub open spec fn row(d: Seq<Option<Real>>, ncol: int, i: int) -> Seq<Option<Real>> {
    d.subrange(i * ncol, (i + 1) * ncol)
}

/// Cell `(i, j)` of the distance matrix: zero on the diagonal, and elsewhere
/// the distance from the earlier row to the later one.
pub open spec fn pair_distance<F: Fn(FloatOp, Real, Real, Real) -> Real>(
    fpu: &Fpu<F>,
    op: DistanceOp,
    d: Seq<Option<Real>>,
    ncol: int,
    i: int,
    j: int,
) -> Option<Real> {
    if i == j {
        Some(zero())
    } else if i < j {
        distance_between(fpu, op, row(d, ncol, i), row(d, ncol, j))
    } else {
        distance_between(fpu, op, row(d, ncol, j), row(d, ncol, i))
    }
}

proof fn lemma_row_bounds(n: int, ncol: int, i: int)
    requires
        0 <= i < n,
        ncol >= 0,
    ensures
        0 <= i * ncol <= (i + 1) * ncol <= n * ncol,
        (i + 1) * ncol - i * ncol == ncol,
{
    assert(0 <= i * ncol && (i + 1) * ncol == i * ncol + ncol && (i + 1) * ncol <= n * ncol) by (nonlinear_arith)
        requires
            0 <= i,
            i + 1 <= n,
            ncol >= 0,
    ;
}

fn row_distance<F: Fn(FloatOp, Real, Real, Real) -> Real>(
    fpu: &Fpu<F>,
    op: DistanceOp,
    data: &[Option<Real>],
    nrow: usize,
    ncol: usize,
    i: usize,
    j: usize,
) -> (r: Option<Real>)
    requires
        fpu.wf(),
        data@.len() == nrow * ncol,
        i < nrow,
        j < nrow,
    ensures
        r == distance_between(fpu, op, row(data@, ncol as int, i as int), row(data@, ncol as int, j as int)),
{
    let len: usize = data.len();
    proof {
        lemma_row_bounds(nrow as int, ncol as int, i as int);
        lemma_row_bounds(nrow as int, ncol as int, j as int);
    }
    let ri: &[Option<Real>] = vstd::slice::slice_subrange(data, i * ncol, (i + 1) * ncol);
    let rj: &[Option<Real>] = vstd::slice::slice_subrange(data, j * ncol, (j + 1) * ncol);
    distance(fpu, op, ri, rj)
}

/// All distances between the rows of a matrix that is stored row by row, again
/// row by row. Few rows are done serially.
pub fn pairwise_distance<F: Fn(FloatOp, Real, Real, Real) -> Real + Sync>(
    fpu: &Fpu<F>,
    op: DistanceOp,
    data: &[Option<Real>],
    nrow: usize,
    ncol: usize,
    on: Backend,
) -> (r: Vec<Option<Real>>)
    requires
        fpu.wf(),
        data@.len() == nrow * ncol,
        nrow * nrow <= usize::MAX,
    ensures
        r@.len() == nrow * nrow,
        forall|i: int, j: int|
            0 <= i < nrow && 0 <= j < nrow ==> #[trigger] r@[i * nrow + j] == pair_distance(
                fpu,
                op,
                data@,
                ncol as int,
                i,
                j,
            ),
{
    let cell = |idx: usize| -> (x: Option<Real>)
        requires
            fpu.wf(),
            data@.len() == nrow * ncol,
            idx < nrow * nrow,
        ensures
            x == pair_distance(
                fpu,
                op,
                data@,
                ncol as int,
                idx as int / nrow as int,
                idx as int % nrow as int,
            ),
        {
            proof {
                lemma_cell(nrow as int, idx as int);
            }
            let i: usize = idx / nrow;
            let j: usize = idx % nrow;
            if i == j {
                Some(Real { bits: 0 })
            } else if i < j {
                row_distance(fpu, op, data, nrow, ncol, i, j)
            } else {
                row_distance(fpu, op, data, nrow, ncol, j, i)
            }
        };
    let place: Backend = if nrow >= 16 { on } else { Backend::Serial };
    let r = par_for(place, nrow * nrow, cell);
    proof {
        assert forall|i: int, j: int| 0 <= i < nrow && 0 <= j < nrow implies #[trigger] r@[i * nrow + j]
            == pair_distance(fpu, op, data@, ncol as int, i, j) by {
            let idx = i * nrow + j;
            assert(0 <= idx < nrow * nrow) by (nonlinear_arith)
                requires
                    idx == i * nrow + j,
                    0 <= i < nrow,
                    0 <= j < nrow,
            ;
            vstd::arithmetic::div_mod::lemma_fundamental_div_mod_converse(idx, nrow as int, i, j);
            assert(call_ensures(cell, (idx as usize,), r@[idx]));
        }
    }
    r
}

proof fn lemma_cell(n: int, idx: int)
    requires
        n >= 0,
        0 <= idx < n * n,
    ensures
        n > 0,
        0 <= idx / n < n,
        0 <= idx % n < n,
{
    assert(n != 0) by (nonlinear_arith)
        requires
            0 <= idx < n * n,
    ;
    assert(0 <= idx / n < n) by (nonlinear_arith)
        requires
            0 <= idx < n * n,
            n > 0,
    ;
}

/// The distance matrix is symmetric with zeros on its diagonal.
pub proof fn law_distance_symmetric<F: Fn(FloatOp, Real, Real, Real) -> Real>(
    fpu: &Fpu<F>,
    op: DistanceOp,
    d: Seq<Option<Real>>,
    ncol: int,
    i: int,
    j: int,
)
    ensures
        pair_distance(fpu, op, d, ncol, i, j) == pair_distance(fpu, op, d, ncol, j, i),
        pair_distance(fpu, op, d, ncol, i, i) == Some(zero()),
{
}

} // verus!
