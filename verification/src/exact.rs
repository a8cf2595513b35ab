//! Exact arithmetic as a hypothesis.
//!
//! A double stands for a value in a field, and the supplied operations compute
//! the operations of that field: nothing is lost by rounding. Under it a
//! computation can be held against what it is for. The elements of the field are
//! numbered by the integers; the rational functions over the integers modulo a
//! prime are such a field, in which the doubles take values modulo the prime.
//! The laws that assume one speak of the operations alone, never of the order of
//! the values.
use crate::double::{FloatOp, Fpu, Real, nat_real, one, rounded, zero};
use crate::grid::total;
use crate::kernel_par::{ScanOp, folded};
use vstd::prelude::*;

verus! {

/// A field whose elements are named by integers, and the value of each double
/// in it.
pub struct Exact {
    pub val: spec_fn(Real) -> int,
    pub add: spec_fn(int, int) -> int,
    pub mul: spec_fn(int, int) -> int,
    pub neg: spec_fn(int) -> int,
    pub inv: spec_fn(int) -> int,
    pub zero: int,
    pub one: int,
}

impl Exact {
    /// The value of a double.
    pub open spec fn v(self, x: Real) -> int {
        (self.val)(x)
    }

    pub open spec fn plus(self, a: int, b: int) -> int {
        (self.add)(a, b)
    }

    pub open spec fn times(self, a: int, b: int) -> int {
        (self.mul)(a, b)
    }

    pub open spec fn opposite(self, a: int) -> int {
        (self.neg)(a)
    }

    pub open spec fn minus(self, a: int, b: int) -> int {
        self.plus(a, self.opposite(b))
    }

    pub open spec fn square(self, a: int) -> int {
        self.times(a, a)
    }

    /// Zero, one, and what takes an element to them.
    #[verifier::opaque]
    pub open spec fn units(self) -> bool {
        &&& self.zero != self.one
        &&& forall|a: int| #[trigger] self.plus(a, self.zero) == a
        &&& forall|a: int| self.plus(a, #[trigger] self.opposite(a)) == self.zero
        &&& forall|a: int| #[trigger] self.times(a, self.one) == a
        &&& forall|a: int| a != self.zero ==> self.times(a, #[trigger] (self.inv)(a)) == self.one
    }

    /// Sums and products commute, associate and distribute.
    #[verifier::opaque]
    pub open spec fn ring(self) -> bool {
        &&& forall|a: int, b: int| #[trigger] self.plus(a, b) == self.plus(b, a)
        &&& forall|a: int, b: int, c: int| #[trigger]
            self.plus(self.plus(a, b), c) == self.plus(a, self.plus(b, c))
        &&& forall|a: int, b: int| #[trigger] self.times(a, b) == self.times(b, a)
        &&& forall|a: int, b: int, c: int| #[trigger]
            self.times(self.times(a, b), c) == self.times(a, self.times(b, c))
        &&& forall|a: int, b: int, c: int| #[trigger]
            self.times(a, self.plus(b, c)) == self.plus(self.times(a, b), self.times(a, c))
    }

    /// The axioms of a field.
    pub open spec fn field(self) -> bool {
        self.units() && self.ring()
    }

    /// The `n`-fold sum of one.
    pub open spec fn count(self, n: nat) -> int
        decreases n,
    {
        if n == 0 {
            self.zero
        } else {
            self.plus(self.count((n - 1) as nat), self.one)
        }
    }

    /// The sum of `f(j)` for `a <= j < b`.
    pub open spec fn sum(self, f: spec_fn(int) -> int, a: int, b: int) -> int
        decreases b - a,
    {
        if b <= a {
            self.zero
        } else {
            self.plus(self.sum(f, a, b - 1), f(b - 1))
        }
    }

    /// The product of `f(j)` for `a <= j < b`.
    pub open spec fn product(self, f: spec_fn(int) -> int, a: int, b: int) -> int
        decreases b - a,
    {
        if b <= a {
            self.one
        } else {
            self.times(self.product(f, a, b - 1), f(b - 1))
        }
    }

    /// The value of entry `i`.
    pub open spec fn at(self, s: Seq<Real>) -> spec_fn(int) -> int {
        |i: int| self.v(s[i])
    }
}

/// The supplied operations are those of the field.
#[verifier::opaque]
pub open spec fn computes_in<F: Fn(FloatOp, Real, Real, Real) -> Real>(fpu: &Fpu<F>, e: Exact) -> bool {
    &&& e.v(zero()) == e.zero
    &&& e.v(one()) == e.one
    &&& forall|a: Real, b: Real| e.v(#[trigger] fpu.value2(FloatOp::Plus, a, b)) == e.plus(e.v(a), e.v(b))
    &&& forall|a: Real, b: Real| e.v(#[trigger] fpu.value2(FloatOp::Minus, a, b)) == e.minus(e.v(a), e.v(b))
    &&& forall|a: Real, b: Real| e.v(#[trigger] fpu.value2(FloatOp::Times, a, b)) == e.times(e.v(a), e.v(b))
    &&& forall|a: Real, b: Real|
        e.v(b) != e.zero ==> e.times(e.v(#[trigger] fpu.value2(FloatOp::Over, a, b)), e.v(b)) == e.v(a)
    &&& forall|n: nat| n < 0x20_0000_0000_0000 ==> e.v(#[trigger] nat_real(n)) == e.count(n)
    &&& forall|a: Real| e.v(#[trigger] a.negated()) == e.opposite(e.v(a))
}

/// Exact arithmetic: the operations are those of a field.
pub open spec fn exact<F: Fn(FloatOp, Real, Real, Real) -> Real>(fpu: &Fpu<F>, e: Exact) -> bool {
    e.field() && computes_in(fpu, e)
}

// ── The operations ─────────────────────────────────────────────────────────

/// What the operations give.
pub proof fn lemma_ops<F: Fn(FloatOp, Real, Real, Real) -> Real>(fpu: &Fpu<F>, e: Exact)
    requires
        exact(fpu, e),
    ensures
        e.v(zero()) == e.zero,
        e.v(one()) == e.one,
        forall|a: Real, b: Real| e.v(#[trigger] fpu.plus(a, b)) == e.plus(e.v(a), e.v(b)),
        forall|a: Real, b: Real| e.v(#[trigger] fpu.minus(a, b)) == e.minus(e.v(a), e.v(b)),
        forall|a: Real, b: Real| e.v(#[trigger] fpu.times(a, b)) == e.times(e.v(a), e.v(b)),
        forall|a: Real, b: Real|
            e.v(b) != e.zero ==> e.times(e.v(#[trigger] fpu.over(a, b)), e.v(b)) == e.v(a),
{
    reveal(computes_in);
}

/// The value of a count.
pub proof fn lemma_count<F: Fn(FloatOp, Real, Real, Real) -> Real>(fpu: &Fpu<F>, e: Exact, n: nat)
    requires
        exact(fpu, e),
        n < 0x20_0000_0000_0000,
    ensures
        e.v(nat_real(n)) == e.count(n),
        e.v(rounded(n)) == e.count(n),
{
    reveal(computes_in);
}

pub proof fn lemma_negated<F: Fn(FloatOp, Real, Real, Real) -> Real>(fpu: &Fpu<F>, e: Exact, a: Real)
    requires
        exact(fpu, e),
    ensures
        e.v(a.negated()) == e.opposite(e.v(a)),
{
    reveal(computes_in);
}

// ── The field ──────────────────────────────────────────────────────────────

pub proof fn lemma_swap(e: Exact, a: int, b: int)
    requires
        e.field(),
    ensures
        e.plus(a, b) == e.plus(b, a),
        e.times(a, b) == e.times(b, a),
{
    reveal(Exact::ring);
}

pub proof fn lemma_group(e: Exact, a: int, b: int, c: int)
    requires
        e.field(),
    ensures
        e.plus(e.plus(a, b), c) == e.plus(a, e.plus(b, c)),
        e.times(e.times(a, b), c) == e.times(a, e.times(b, c)),
{
    reveal(Exact::ring);
}

pub proof fn lemma_nil(e: Exact, a: int)
    requires
        e.field(),
    ensures
        e.plus(a, e.zero) == a,
        e.plus(e.zero, a) == a,
        e.plus(a, e.opposite(a)) == e.zero,
        e.plus(e.opposite(a), a) == e.zero,
        e.times(a, e.one) == a,
        e.times(e.one, a) == a,
        e.zero != e.one,
{
    assert(e.plus(a, e.zero) == a && e.plus(a, e.opposite(a)) == e.zero && e.times(a, e.one) == a && e.zero != e.one) by {
        reveal(Exact::units);
    }
    lemma_swap(e, a, e.zero);
    lemma_swap(e, a, e.opposite(a));
    lemma_swap(e, a, e.one);
}

pub proof fn lemma_distributes(e: Exact, a: int, b: int, c: int)
    requires
        e.field(),
    ensures
        e.times(a, e.plus(b, c)) == e.plus(e.times(a, b), e.times(a, c)),
        e.times(e.plus(b, c), a) == e.plus(e.times(b, a), e.times(c, a)),
{
    assert(e.times(a, e.plus(b, c)) == e.plus(e.times(a, b), e.times(a, c))) by {
        reveal(Exact::ring);
    }
    lemma_swap(e, e.plus(b, c), a);
    lemma_swap(e, a, b);
    lemma_swap(e, a, c);
}

/// What is added on both sides can be taken away.
pub proof fn lemma_cancel(e: Exact, a: int, b: int, c: int)
    requires
        e.field(),
        e.plus(a, c) == e.plus(b, c),
    ensures
        a == b,
{
    let d = e.opposite(c);
    lemma_group(e, a, c, d);
    lemma_group(e, b, c, d);
    lemma_nil(e, c);
    lemma_nil(e, a);
    lemma_nil(e, b);
}

/// Taking away and adding again.
pub proof fn lemma_minus(e: Exact, a: int, b: int)
    requires
        e.field(),
    ensures
        e.plus(e.minus(a, b), b) == a,
        e.minus(e.plus(a, b), b) == a,
        e.minus(a, a) == e.zero,
        e.minus(a, e.zero) == a,
        e.opposite(e.zero) == e.zero,
        e.opposite(e.opposite(a)) == a,
        e.minus(a, b) == e.opposite(e.minus(b, a)),
{
    let nb = e.opposite(b);
    lemma_nil(e, a);
    lemma_nil(e, b);
    lemma_nil(e, e.zero);
    lemma_group(e, a, nb, b);
    lemma_group(e, a, b, nb);
    lemma_nil(e, e.opposite(e.zero));
    let na = e.opposite(a);
    lemma_nil(e, na);
    lemma_cancel(e, e.opposite(na), a, na);
    let x = e.minus(b, a);
    let y = e.minus(a, b);
    lemma_group(e, a, nb, x);
    lemma_group(e, nb, b, na);
    assert(e.plus(y, x) == e.zero);
    lemma_nil(e, x);
    lemma_cancel(e, y, e.opposite(x), x);
}

pub proof fn lemma_times_zero(e: Exact, a: int)
    requires
        e.field(),
    ensures
        e.times(a, e.zero) == e.zero,
        e.times(e.zero, a) == e.zero,
{
    let z = e.times(a, e.zero);
    lemma_nil(e, e.zero);
    lemma_distributes(e, a, e.zero, e.zero);
    lemma_nil(e, z);
    lemma_cancel(e, z, e.zero, z);
    lemma_swap(e, a, e.zero);
}

pub proof fn lemma_times_minus(e: Exact, a: int, b: int, c: int)
    requires
        e.field(),
    ensures
        e.times(a, e.minus(b, c)) == e.minus(e.times(a, b), e.times(a, c)),
        e.times(e.minus(b, c), a) == e.minus(e.times(b, a), e.times(c, a)),
        e.times(a, e.opposite(b)) == e.opposite(e.times(a, b)),
{
    lemma_opposite_times(e, a, b);
    lemma_opposite_times(e, a, c);
    lemma_distributes(e, a, b, e.opposite(c));
    lemma_swap(e, e.minus(b, c), a);
    lemma_swap(e, b, a);
    lemma_swap(e, c, a);
}

proof fn lemma_opposite_times(e: Exact, a: int, b: int)
    requires
        e.field(),
    ensures
        e.times(a, e.opposite(b)) == e.opposite(e.times(a, b)),
{
    lemma_distributes(e, a, e.opposite(b), b);
    lemma_times_zero(e, a);
    lemma_nil(e, b);
    let x = e.times(a, b);
    lemma_nil(e, x);
    lemma_cancel(e, e.times(a, e.opposite(b)), e.opposite(x), x);
}

/// A factor that is not zero can be divided out.
pub proof fn lemma_cancel_factor(e: Exact, a: int, b: int, c: int)
    requires
        e.field(),
        c != e.zero,
        e.times(a, c) == e.times(b, c),
    ensures
        a == b,
{
    let d = (e.inv)(c);
    assert(e.times(c, d) == e.one) by {
        reveal(Exact::units);
    }
    lemma_group(e, a, c, d);
    lemma_group(e, b, c, d);
    lemma_nil(e, a);
    lemma_nil(e, b);
}

/// A product is zero only where a factor is.
pub proof fn lemma_nonzero(e: Exact, a: int, b: int)
    requires
        e.field(),
        a != e.zero,
        b != e.zero,
    ensures
        e.times(a, b) != e.zero,
{
    if e.times(a, b) == e.zero {
        lemma_times_zero(e, b);
        lemma_cancel_factor(e, a, e.zero, b);
    }
}

/// Four summands in two pairs.
pub proof fn lemma_shuffle(e: Exact, a: int, b: int, c: int, d: int)
    requires
        e.field(),
    ensures
        e.plus(e.plus(a, b), e.plus(c, d)) == e.plus(e.plus(a, c), e.plus(b, d)),
{
    lemma_group(e, a, b, e.plus(c, d));
    lemma_group(e, b, c, d);
    lemma_swap(e, b, c);
    lemma_group(e, c, b, d);
    lemma_group(e, a, c, e.plus(b, d));
}

/// Four factors in two pairs.
pub proof fn lemma_shuffle_factors(e: Exact, a: int, b: int, c: int, d: int)
    requires
        e.field(),
    ensures
        e.times(e.times(a, b), e.times(c, d)) == e.times(e.times(a, c), e.times(b, d)),
{
    lemma_group(e, a, b, e.times(c, d));
    lemma_group(e, b, c, d);
    lemma_swap(e, b, c);
    lemma_group(e, c, b, d);
    lemma_group(e, a, c, e.times(b, d));
}

// ── Sums ───────────────────────────────────────────────────────────────────

pub proof fn lemma_sum_same(e: Exact, f: spec_fn(int) -> int, g: spec_fn(int) -> int, a: int, b: int)
    requires
        forall|j: int| a <= j < b ==> #[trigger] f(j) == g(j),
    ensures
        e.sum(f, a, b) == e.sum(g, a, b),
    decreases b - a,
{
    if a < b {
        lemma_sum_same(e, f, g, a, b - 1);
        assert(f(b - 1) == g(b - 1));
    }
}

pub proof fn lemma_product_same(e: Exact, f: spec_fn(int) -> int, g: spec_fn(int) -> int, a: int, b: int)
    requires
        forall|j: int| a <= j < b ==> #[trigger] f(j) == g(j),
    ensures
        e.product(f, a, b) == e.product(g, a, b),
    decreases b - a,
{
    if a < b {
        lemma_product_same(e, f, g, a, b - 1);
        assert(f(b - 1) == g(b - 1));
    }
}

/// The first summand taken out.
pub proof fn lemma_sum_first(e: Exact, f: spec_fn(int) -> int, a: int, b: int)
    requires
        e.field(),
        a < b,
    ensures
        e.sum(f, a, b) == e.plus(f(a), e.sum(f, a + 1, b)),
    decreases b - a,
{
    if a + 1 == b {
        assert(e.sum(f, a, b - 1) == e.zero);
        assert(e.sum(f, a + 1, b) == e.zero);
        lemma_nil(e, f(a));
    } else {
        lemma_sum_first(e, f, a, b - 1);
        lemma_group(e, f(a), e.sum(f, a + 1, b - 1), f(b - 1));
    }
}

/// A sum cut in two.
pub proof fn lemma_sum_cut(e: Exact, f: spec_fn(int) -> int, a: int, m: int, b: int)
    requires
        e.field(),
        a <= m <= b,
    ensures
        e.sum(f, a, b) == e.plus(e.sum(f, a, m), e.sum(f, m, b)),
    decreases b - m,
{
    if m == b {
        lemma_nil(e, e.sum(f, a, b));
    } else {
        lemma_sum_cut(e, f, a, m, b - 1);
        lemma_group(e, e.sum(f, a, m), e.sum(f, m, b - 1), f(b - 1));
    }
}

/// The sum of sums.
pub proof fn lemma_sum_plus(
    e: Exact,
    f: spec_fn(int) -> int,
    g: spec_fn(int) -> int,
    h: spec_fn(int) -> int,
    a: int,
    b: int,
)
    requires
        e.field(),
        forall|j: int| a <= j < b ==> #[trigger] h(j) == e.plus(f(j), g(j)),
    ensures
        e.sum(h, a, b) == e.plus(e.sum(f, a, b), e.sum(g, a, b)),
    decreases b - a,
{
    if a < b {
        lemma_sum_plus(e, f, g, h, a, b - 1);
        assert(h(b - 1) == e.plus(f(b - 1), g(b - 1)));
        lemma_shuffle(e, e.sum(f, a, b - 1), e.sum(g, a, b - 1), f(b - 1), g(b - 1));
    } else {
        lemma_nil(e, e.zero);
    }
}

/// The sum of multiples.
pub proof fn lemma_sum_times(e: Exact, c: int, f: spec_fn(int) -> int, h: spec_fn(int) -> int, a: int, b: int)
    requires
        e.field(),
        forall|j: int| a <= j < b ==> #[trigger] h(j) == e.times(c, f(j)),
    ensures
        e.sum(h, a, b) == e.times(c, e.sum(f, a, b)),
    decreases b - a,
{
    if a < b {
        lemma_sum_times(e, c, f, h, a, b - 1);
        assert(h(b - 1) == e.times(c, f(b - 1)));
        lemma_distributes(e, c, e.sum(f, a, b - 1), f(b - 1));
    } else {
        lemma_times_zero(e, c);
    }
}

/// The sum of nothing but zeros.
pub proof fn lemma_sum_zero(e: Exact, f: spec_fn(int) -> int, a: int, b: int)
    requires
        e.field(),
        forall|j: int| a <= j < b ==> #[trigger] f(j) == e.zero,
    ensures
        e.sum(f, a, b) == e.zero,
    decreases b - a,
{
    if a < b {
        lemma_sum_zero(e, f, a, b - 1);
        assert(f(b - 1) == e.zero);
        lemma_nil(e, e.zero);
    }
}

/// A double sum in the other order.
pub proof fn lemma_sum_swap(e: Exact, f: spec_fn(int, int) -> int, a: int, b: int, c: int, d: int)
    requires
        e.field(),
    ensures
        e.sum(|i: int| e.sum(|j: int| f(i, j), c, d), a, b) == e.sum(|j: int| e.sum(|i: int| f(i, j), a, b), c, d),
    decreases b - a,
{
    let rows = |i: int| e.sum(|j: int| f(i, j), c, d);
    let cols = |j: int| e.sum(|i: int| f(i, j), a, b);
    if a < b {
        lemma_sum_swap(e, f, a, b - 1, c, d);
        let less = |j: int| e.sum(|i: int| f(i, j), a, b - 1);
        let last = |j: int| f(b - 1, j);
        assert forall|j: int| c <= j < d implies #[trigger] cols(j) == e.plus(less(j), last(j)) by {
            let col = |i: int| f(i, j);
            assert(e.sum(col, a, b) == e.plus(e.sum(col, a, b - 1), col(b - 1)));
        }
        lemma_sum_plus(e, less, last, cols, c, d);
        assert(rows(b - 1) == e.sum(last, c, d)) by {
            lemma_sum_same(e, |j: int| f(b - 1, j), last, c, d);
        }
    } else {
        assert forall|j: int| c <= j < d implies #[trigger] cols(j) == e.zero by {}
        lemma_sum_zero(e, cols, c, d);
    }
}

// ── Totals ─────────────────────────────────────────────────────────────────

/// A sum that starts later.
pub proof fn lemma_sum_shift(e: Exact, h: spec_fn(int) -> int, g: spec_fn(int) -> int, a: int, n: int)
    requires
        0 <= n,
        forall|j: int| 0 <= j < n ==> #[trigger] g(j) == h(a + j),
    ensures
        e.sum(h, a, a + n) == e.sum(g, 0, n),
    decreases n,
{
    if n > 0 {
        lemma_sum_shift(e, h, g, a, n - 1);
        assert(g(n - 1) == h(a + (n - 1)));
    }
}

/// A sum over a table, row by row.
pub proof fn lemma_sum_table(e: Exact, f: spec_fn(int, int) -> int, h: spec_fn(int) -> int, n: int, k: nat)
    requires
        e.field(),
        0 < n,
        forall|t: int| 0 <= t < n * k ==> #[trigger] h(t) == f(t / n, t % n),
    ensures
        e.sum(h, 0, n * k) == e.sum(|i: int| e.sum(|j: int| f(i, j), 0, n), 0, k as int),
    decreases k,
{
    let rows = |i: int| e.sum(|j: int| f(i, j), 0, n);
    if k == 0 {
        assert(n * k == 0) by (nonlinear_arith)
            requires
                k == 0,
        ;
    } else {
        let m = (k - 1) as nat;
        assert(n * k == n * m + n && 0 <= n * m) by (nonlinear_arith)
            requires
                k == m + 1,
                0 < n,
        ;
        lemma_sum_table(e, f, h, n, m);
        lemma_sum_cut(e, h, 0, n * m, n * k);
        let g = |j: int| f(m as int, j);
        assert forall|j: int| 0 <= j < n implies #[trigger] g(j) == h(n * m + j) by {
            vstd::arithmetic::div_mod::lemma_fundamental_div_mod_converse(n * m + j, n, m as int, j);
            assert(h(n * m + j) == f((n * m + j) / n, (n * m + j) % n));
        }
        lemma_sum_shift(e, h, g, n * m, n);
        assert(rows(k - 1) == e.sum(g, 0, n));
    }
}

/// The total of numbers is the sum of their values.
pub proof fn law_total<F: Fn(FloatOp, Real, Real, Real) -> Real>(fpu: &Fpu<F>, e: Exact, s: Seq<Real>)
    requires
        exact(fpu, e),
    ensures
        e.v(total(fpu, s)) == e.sum(e.at(s), 0, s.len() as int),
    decreases s.len(),
{
    lemma_ops(fpu, e);
    if s.len() > 0 {
        let t = s.drop_last();
        law_total(fpu, e, t);
        lemma_sum_same(e, e.at(t), e.at(s), 0, t.len() as int);
        assert(total(fpu, s) == fpu.plus(total(fpu, t), s.last()));
    }
}

/// The running product of numbers is the product of their values.
pub proof fn law_product<F: Fn(FloatOp, Real, Real, Real) -> Real>(fpu: &Fpu<F>, e: Exact, s: Seq<Real>)
    requires
        exact(fpu, e),
    ensures
        e.v(folded(fpu, ScanOp::Cumprod, s)) == e.product(e.at(s), 0, s.len() as int),
    decreases s.len(),
{
    lemma_ops(fpu, e);
    if s.len() > 0 {
        let t = s.drop_last();
        law_product(fpu, e, t);
        lemma_product_same(e, e.at(t), e.at(s), 0, t.len() as int);
        assert(folded(fpu, ScanOp::Cumprod, s) == fpu.times(folded(fpu, ScanOp::Cumprod, t), s.last()));
    }
}

} // verus!
