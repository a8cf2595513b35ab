//! Three equations solved by determinants give the solution, in exact
//! arithmetic.
use crate::double::{FloatOp, Fpu, Real, one};
use crate::exact::{
    Exact, exact, lemma_distributes, lemma_group, lemma_minus, lemma_nil, lemma_ops, lemma_shuffle, lemma_swap,
    lemma_times_minus, lemma_times_zero,
};
use crate::linalg_solve::{det3, solution_3x3};
use vstd::prelude::*;

verus! {

/// Three numbers: a column.
pub type Triple = (int, int, int);

spec fn cross2(e: Exact, a: int, d: int, b: int, c: int) -> int {
    e.minus(e.times(a, d), e.times(b, c))
}

spec fn volume(e: Exact, p: Triple, q: Triple, r: Triple) -> int {
    e.plus(
        e.minus(
            e.times(p.0, cross2(e, q.1, r.2, q.2, r.1)),
            e.times(q.0, cross2(e, p.1, r.2, p.2, r.1)),
        ),
        e.times(r.0, cross2(e, p.1, q.2, p.2, q.1)),
    )
}

spec fn mixed(e: Exact, x: int, p: Triple, h: Triple) -> Triple {
    (e.plus(e.times(x, p.0), h.0), e.plus(e.times(x, p.1), h.1), e.plus(e.times(x, p.2), h.2))
}

/// `a (x b + c)` is `x (a b) + a c`.
proof fn lemma_into(e: Exact, a: int, x: int, b: int, c: int)
    requires
        e.field(),
    ensures
        e.times(a, e.plus(e.times(x, b), c)) == e.plus(e.times(x, e.times(a, b)), e.times(a, c)),
        e.times(e.plus(e.times(x, b), c), a) == e.plus(e.times(x, e.times(b, a)), e.times(c, a)),
{
    lemma_distributes(e, a, e.times(x, b), c);
    lemma_group(e, a, x, b);
    lemma_swap(e, a, x);
    lemma_group(e, x, a, b);
    lemma_group(e, x, b, a);
}

/// `(x a + b) - (x c + d)` is `x (a - c) + (b - d)`.
proof fn lemma_apart(e: Exact, x: int, a: int, b: int, c: int, d: int)
    requires
        e.field(),
    ensures
        e.minus(e.plus(e.times(x, a), b), e.plus(e.times(x, c), d)) == e.plus(e.times(x, e.minus(a, c)), e.minus(b, d)),
{
    let (p, q) = (e.times(x, a), e.times(x, c));
    lemma_times_minus(e, x, a, c);
    // ((p - q) + (b - d)) + (q + d) is p + b.
    let left = e.plus(e.minus(p, q), e.minus(b, d));
    lemma_shuffle(e, e.minus(p, q), e.minus(b, d), q, d);
    lemma_minus(e, p, q);
    lemma_minus(e, b, d);
    assert(e.plus(left, e.plus(q, d)) == e.plus(p, b));
    lemma_minus(e, left, e.plus(q, d));
}

proof fn lemma_cross_mixed(e: Exact, x: int, a: int, h: int, d: int, b: int, k: int, c: int)
    requires
        e.field(),
    ensures
        cross2(e, e.plus(e.times(x, a), h), d, e.plus(e.times(x, b), k), c) == e.plus(
            e.times(x, cross2(e, a, d, b, c)),
            cross2(e, h, d, k, c),
        ),
{
    lemma_into(e, d, x, a, h);
    lemma_into(e, c, x, b, k);
    lemma_apart(e, x, e.times(a, d), e.times(h, d), e.times(b, c), e.times(k, c));
}

/// The determinant is linear in its first column.
proof fn lemma_linear(e: Exact, x: int, p: Triple, h: Triple, q: Triple, r: Triple)
    requires
        e.field(),
    ensures
        volume(e, mixed(e, x, p, h), q, r) == e.plus(e.times(x, volume(e, p, q, r)), volume(e, h, q, r)),
{
    let m = mixed(e, x, p, h);
    let c1 = cross2(e, q.1, r.2, q.2, r.1);
    lemma_into(e, c1, x, p.0, h.0);
    lemma_cross_mixed(e, x, p.1, h.1, r.2, p.2, h.2, r.1);
    lemma_cross_mixed(e, x, p.1, h.1, q.2, p.2, h.2, q.1);
    let (cp, ch) = (cross2(e, p.1, r.2, p.2, r.1), cross2(e, h.1, r.2, h.2, r.1));
    let (dp, dh) = (cross2(e, p.1, q.2, p.2, q.1), cross2(e, h.1, q.2, h.2, q.1));
    lemma_into(e, q.0, x, cp, ch);
    lemma_into(e, r.0, x, dp, dh);
    let (a, a2) = (e.times(p.0, c1), e.times(h.0, c1));
    let (b, b2) = (e.times(q.0, cp), e.times(q.0, ch));
    let (c, c2) = (e.times(r.0, dp), e.times(r.0, dh));
    lemma_apart(e, x, a, a2, b, b2);
    lemma_shuffle(e, e.times(x, e.minus(a, b)), e.minus(a2, b2), e.times(x, c), c2);
    lemma_distributes(e, x, e.minus(a, b), c);
}

/// Columns may be moved around in a circle.
proof fn lemma_circle(e: Exact, p: Triple, q: Triple, r: Triple)
    requires
        e.field(),
    ensures
        volume(e, q, r, p) == volume(e, p, q, r),
{
    // q0 (r1 p2 - r2 p1) is -(q0 (p1 r2 - p2 r1)).
    let a = e.times(p.0, cross2(e, q.1, r.2, q.2, r.1));
    let b = e.times(q.0, cross2(e, p.1, r.2, p.2, r.1));
    let c = e.times(r.0, cross2(e, p.1, q.2, p.2, q.1));
    lemma_turned(e, q.0, p.1, r.2, p.2, r.1);
    lemma_turned(e, r.0, p.1, q.2, p.2, q.1);
    assert(e.times(q.0, cross2(e, r.1, p.2, r.2, p.1)) == e.opposite(b));
    assert(e.times(r.0, cross2(e, q.1, p.2, q.2, p.1)) == e.opposite(c));
    // (-b - -c) + a is (a - b) + c.
    lemma_minus(e, c, c);
    assert(e.minus(e.opposite(b), e.opposite(c)) == e.plus(e.opposite(b), c));
    lemma_swap(e, e.plus(e.opposite(b), c), a);
    lemma_group(e, a, e.opposite(b), c);
}

/// `t (d2 ...)`: the cross turned over is its opposite.
proof fn lemma_turned(e: Exact, t: int, a: int, d: int, b: int, c: int)
    requires
        e.field(),
    ensures
        e.times(t, cross2(e, c, b, d, a)) == e.opposite(e.times(t, cross2(e, a, d, b, c))),
{
    lemma_swap(e, c, b);
    lemma_swap(e, d, a);
    lemma_minus(e, e.times(b, c), e.times(a, d));
    lemma_times_minus(e, t, cross2(e, a, d, b, c), e.zero);
}

/// With a column that is there already nothing is left.
proof fn lemma_twice(e: Exact, q: Triple, r: Triple)
    requires
        e.field(),
    ensures
        volume(e, q, q, r) == e.zero,
        volume(e, r, q, r) == e.zero,
{
    let b = e.times(q.0, cross2(e, q.1, r.2, q.2, r.1));
    lemma_minus(e, b, b);
    lemma_swap(e, q.1, q.2);
    lemma_minus(e, e.times(q.1, q.2), e.times(q.1, q.2));
    lemma_times_zero(e, r.0);
    lemma_nil(e, e.zero);
    // The second: r0 (q1 r2 - q2 r1) - q0 (r1 r2 - r2 r1) + r0 (r1 q2 - r2 q1).
    lemma_swap(e, r.1, r.2);
    lemma_minus(e, e.times(r.1, r.2), e.times(r.1, r.2));
    lemma_times_zero(e, q.0);
    let a = e.times(r.0, cross2(e, q.1, r.2, q.2, r.1));
    lemma_minus(e, a, e.zero);
    lemma_turned(e, r.0, q.1, r.2, q.2, r.1);
    lemma_nil(e, a);
}

/// The column that a solution makes.
spec fn combined(e: Exact, p: Triple, q: Triple, r: Triple, x: int, y: int, z: int) -> Triple {
    mixed(e, x, p, mixed(e, y, q, mixed(e, z, r, (e.zero, e.zero, e.zero))))
}

proof fn lemma_picked(e: Exact, p: Triple, q: Triple, r: Triple, x: int, y: int, z: int)
    requires
        e.field(),
    ensures
        volume(e, combined(e, p, q, r, x, y, z), q, r) == e.times(x, volume(e, p, q, r)),
{
    let o = (e.zero, e.zero, e.zero);
    let c = mixed(e, z, r, o);
    let b = mixed(e, y, q, c);
    lemma_linear(e, x, p, b, q, r);
    lemma_linear(e, y, q, c, q, r);
    lemma_linear(e, z, r, o, q, r);
    lemma_twice(e, q, r);
    lemma_times_zero(e, y);
    lemma_times_zero(e, z);
    lemma_times_zero(e, cross2(e, q.1, r.2, q.2, r.1));
    lemma_times_zero(e, q.0);
    lemma_times_zero(e, r.0);
    lemma_times_zero(e, r.1);
    lemma_times_zero(e, r.2);
    lemma_times_zero(e, q.1);
    lemma_times_zero(e, q.2);
    lemma_minus(e, e.zero, e.zero);
    lemma_nil(e, e.zero);
    lemma_nil(e, e.times(x, volume(e, p, q, r)));
}

/// The value of a column.
pub open spec fn worth(e: Exact, a: Seq<Real>, k: int) -> Triple {
    (e.v(a[k]), e.v(a[k + 1]), e.v(a[k + 2]))
}

/// `x`, `y` and `z` solve the equations, the matrix given column by column.
pub open spec fn solves_three(e: Exact, a: Seq<Real>, b: Seq<Real>, x: int, y: int, z: int) -> bool {
    forall|i: int|
        0 <= i < 3 ==> e.plus(
            e.times(x, e.v(a[i])),
            e.plus(e.times(y, e.v(a[3 + i])), e.times(z, e.v(a[6 + i]))),
        ) == e.v(#[trigger] b[i])
}

/// Three equations with a determinant that is not zero: what comes out is the
/// solution.
pub proof fn law_solves_three<F: Fn(FloatOp, Real, Real, Real) -> Real>(
    fpu: &Fpu<F>,
    e: Exact,
    a: Seq<Real>,
    b: Seq<Real>,
    x: int,
    y: int,
    z: int,
)
    requires
        exact(fpu, e),
        a.len() == 9,
        b.len() == 3,
        solves_three(e, a, b, x, y, z),
        e.v(det3(fpu, (a[0], a[1], a[2]), (a[3], a[4], a[5]), (a[6], a[7], a[8]))) != e.zero,
    ensures
        e.v(solution_3x3(fpu, a, b)[0]) == x,
        e.v(solution_3x3(fpu, a, b)[1]) == y,
        e.v(solution_3x3(fpu, a, b)[2]) == z,
{
    lemma_ops(fpu, e);
    let p = worth(e, a, 0);
    let q = worth(e, a, 3);
    let r = worth(e, a, 6);
    let h = worth(e, b, 0);
    let d = volume(e, p, q, r);
    let det = det3(fpu, (a[0], a[1], a[2]), (a[3], a[4], a[5]), (a[6], a[7], a[8]));
    assert(e.v(det) == d);
    let w = e.v(fpu.over(one(), det));
    assert(e.times(w, d) == e.one);
    assert(e.v(b[0]) == h.0 && e.v(b[1]) == h.1 && e.v(b[2]) == h.2);
    lemma_nil(e, e.times(x, p.0));
    // The right side in terms of each circle of the columns.
    lemma_column(e, a, b, x, y, z);
    lemma_picked(e, p, q, r, x, y, z);
    lemma_picked(e, q, r, p, y, z, x);
    lemma_picked(e, r, p, q, z, x, y);
    lemma_circle(e, p, q, r);
    lemma_circle(e, q, r, p);
    lemma_circle(e, p, h, r);
    lemma_circle(e, h, p, q);
    lemma_recovered(e, w, d, x);
    lemma_recovered(e, w, d, y);
    lemma_recovered(e, w, d, z);
}

proof fn lemma_recovered(e: Exact, w: int, d: int, x: int)
    requires
        e.field(),
        e.times(w, d) == e.one,
    ensures
        e.times(w, e.times(x, d)) == x,
{
    lemma_swap(e, x, d);
    lemma_group(e, w, d, x);
    lemma_nil(e, x);
}

proof fn lemma_column(e: Exact, a: Seq<Real>, b: Seq<Real>, x: int, y: int, z: int)
    requires
        e.field(),
        a.len() == 9,
        b.len() == 3,
        solves_three(e, a, b, x, y, z),
    ensures
        combined(e, worth(e, a, 0), worth(e, a, 3), worth(e, a, 6), x, y, z) == worth(e, b, 0),
        combined(e, worth(e, a, 3), worth(e, a, 6), worth(e, a, 0), y, z, x) == worth(e, b, 0),
        combined(e, worth(e, a, 6), worth(e, a, 0), worth(e, a, 3), z, x, y) == worth(e, b, 0),
{
    lemma_three(e, e.times(x, e.v(a[0])), e.times(y, e.v(a[3])), e.times(z, e.v(a[6])));
    lemma_three(e, e.times(x, e.v(a[1])), e.times(y, e.v(a[4])), e.times(z, e.v(a[7])));
    lemma_three(e, e.times(x, e.v(a[2])), e.times(y, e.v(a[5])), e.times(z, e.v(a[8])));
    assert(e.v(b[0]) == e.v(b[0]) && e.v(b[1]) == e.v(b[1]) && e.v(b[2]) == e.v(b[2]));
}

proof fn lemma_three(e: Exact, p: int, q: int, r: int)
    requires
        e.field(),
    ensures
        e.plus(p, e.plus(q, e.plus(r, e.zero))) == e.plus(p, e.plus(q, r)),
        e.plus(q, e.plus(r, e.plus(p, e.zero))) == e.plus(p, e.plus(q, r)),
        e.plus(r, e.plus(p, e.plus(q, e.zero))) == e.plus(p, e.plus(q, r)),
{
    lemma_nil(e, p);
    lemma_nil(e, q);
    lemma_nil(e, r);
    lemma_group(e, q, r, p);
    lemma_swap(e, e.plus(q, r), p);
    lemma_swap(e, r, e.plus(p, q));
    lemma_group(e, p, q, r);
}

} // verus!
