//! Doubles as bit patterns.
//!
//! A [`Real`] is an IEEE-754 double held by its 64 bits: one sign bit, eleven
//! exponent bits and fifty-two fraction bits. Everything that only reads a
//! number (its order, whether it is a NaN, the integer below it) is done on the
//! bits. Arithmetic that produces a new double is supplied by the caller as an
//! [`Fpu`].
use vstd::arithmetic::div_mod::lemma_div_denominator;
use vstd::arithmetic::power2::{lemma_pow2, lemma_pow2_pos, lemma_pow2_unfold, pow2};
use vstd::prelude::*;

verus! {

/// The sign bit.
pub const SIGN: u64 = 0x8000_0000_0000_0000;

/// Magnitude of infinity; every larger magnitude is a NaN.
pub const INF: u64 = 0x7ff0_0000_0000_0000;

/// Two to the 52, the weight of the lowest exponent bit.
pub const IMPLICIT: u64 = 0x0010_0000_0000_0000;

/// An IEEE-754 double, by its bits.
#[derive(Clone, Copy, PartialEq, Eq, Structural, Debug)]
pub struct Real {
    pub bits: u64,
}

/// Exponent of the highest power of two that is at most `n`, for `n > 0`.
pub open spec fn exponent(n: nat) -> nat
    decreases n,
{
    if n <= 1 {
        0
    } else {
        exponent(n / 2) + 1
    }
}

proof fn lemma_powers()
    ensures
        pow2(0) == 1,
        pow2(1) == 2,
        pow2(11) == 2048,
        pow2(12) == 4096,
        pow2(52) == 0x10_0000_0000_0000,
        pow2(53) == 0x20_0000_0000_0000,
{
    vstd::arithmetic::power2::lemma2_to64();
    vstd::arithmetic::power2::lemma2_to64_rest();
}

proof fn lemma_exponent(n: nat)
    requires
        n > 0,
    ensures
        pow2(exponent(n)) <= n < pow2(exponent(n) + 1),
    decreases n,
{
    lemma_pow2(0);
    lemma_powers();
    if n > 1 {
        lemma_exponent(n / 2);
        lemma_pow2_unfold(exponent(n));
        lemma_pow2_unfold(exponent(n) + 1);
    }
}

proof fn lemma_exponent_between(n: nat, e: nat)
    requires
        pow2(e) <= n < pow2(e + 1),
    ensures
        exponent(n) == e,
{
    lemma_pow2_pos(e);
    lemma_exponent(n);
    if exponent(n) < e {
        lemma_pow2_monotone(exponent(n) + 1, e);
    }
    if e < exponent(n) {
        lemma_pow2_monotone(e + 1, exponent(n));
    }
}

proof fn lemma_pow2_monotone(a: nat, b: nat)
    requires
        a <= b,
    ensures
        pow2(a) <= pow2(b),
    decreases b,
{
    if a < b {
        lemma_pow2_monotone(a, (b - 1) as nat);
        lemma_pow2_unfold(b);
        lemma_pow2_pos((b - 1) as nat);
    }
}

/// The double with exactly the value `n`, for `n` below two to the 53.
pub open spec fn nat_real(n: nat) -> Real
    recommends
        n < 0x20_0000_0000_0000,
{
    if n == 0 {
        Real { bits: 0 }
    } else {
        let e = exponent(n);
        Real {
            bits: ((1023 + e) * IMPLICIT + (n - pow2(e)) * pow2((52 - e) as nat)) as u64,
        }
    }
}

/// The double with exactly the value `n`.
pub open spec fn i32_real(n: i32) -> Real {
    if n < 0 {
        Real { bits: (nat_real((-n) as nat).bits + SIGN) as u64 }
    } else {
        nat_real(n as nat)
    }
}

/// The double nearest to `n`; of two equally near ones, the even one.
pub open spec fn rounded(n: nat) -> Real
    recommends
        n <= u64::MAX,
{
    if n < 0x20_0000_0000_0000 {
        nat_real(n)
    } else {
        let e = exponent(n);
        let d = pow2((e - 52) as nat);
        let q = n / d;
        let up = 2 * (n % d) > d || (2 * (n % d) == d && q % 2 == 1);
        Real {
            bits: ((1022 + e) * IMPLICIT + q + if up {
                1int
            } else {
                0
            }) as u64,
        }
    }
}

/// The double nearest to `n`; of two equally near ones, the even one.
pub open spec fn long_real(n: i64) -> Real {
    if n < 0 {
        Real { bits: (rounded((-n) as nat).bits + SIGN) as u64 }
    } else {
        rounded(n as nat)
    }
}

impl Real {
    pub open spec fn negative(self) -> bool {
        self.bits >= SIGN
    }

    /// The bits without the sign.
    pub open spec fn magnitude(self) -> int {
        if self.negative() {
            self.bits - SIGN
        } else {
            self.bits as int
        }
    }

    pub open spec fn nan(self) -> bool {
        self.magnitude() > INF
    }

    /// An integer by which doubles that are not NaN are ordered; both zeros
    /// have the key 0.
    pub open spec fn key(self) -> int {
        if self.negative() {
            -self.magnitude()
        } else {
            self.magnitude()
        }
    }

    /// `self < other` on doubles: false where either is a NaN.
    pub open spec fn below(self, other: Real) -> bool {
        !self.nan() && !other.nan() && self.key() < other.key()
    }

    /// `self == other` on doubles: false where either is a NaN.
    pub open spec fn same(self, other: Real) -> bool {
        !self.nan() && !other.nan() && self.key() == other.key()
    }

    /// The integer part of the absolute value; infinity counts as its bits say,
    /// which is above any machine integer.
    pub open spec fn whole(self) -> nat {
        let e = self.magnitude() / (IMPLICIT as int);
        let m = self.magnitude() % (IMPLICIT as int) + IMPLICIT;
        if e >= 1075 {
            (m * pow2((e - 1075) as nat)) as nat
        } else if e == 0 {
            0
        } else {
            (m / (pow2((1075 - e) as nat) as int)) as nat
        }
    }

    /// `self as usize`: toward zero, saturating, and 0 for a NaN.
    pub open spec fn as_count(self) -> usize {
        if self.nan() || self.negative() {
            0
        } else if self.whole() > usize::MAX {
            usize::MAX
        } else {
            self.whole() as usize
        }
    }

    /// `self as i64`: toward zero, saturating, and 0 for a NaN.
    pub open spec fn as_long(self) -> i64 {
        if self.nan() {
            0
        } else if self.negative() {
            if self.whole() > 0x8000_0000_0000_0000 {
                i64::MIN
            } else {
                (-(self.whole() as int)) as i64
            }
        } else if self.whole() > i64::MAX {
            i64::MAX
        } else {
            self.whole() as i64
        }
    }

    pub fn is_nan(&self) -> (r: bool)
        ensures
            r == self.nan(),
    {
        if self.bits >= SIGN {
            self.bits - SIGN > INF
        } else {
            self.bits > INF
        }
    }

    /// The integer by which the double is ordered.
    pub fn order_key(&self) -> (r: i64)
        ensures
            r == self.key(),
    {
        if self.bits >= SIGN {
            let m: i64 = (self.bits - SIGN) as i64;
            -m
        } else {
            self.bits as i64
        }
    }

    /// `self < other` on doubles.
    pub fn lt(&self, other: &Real) -> (r: bool)
        ensures
            r == self.below(*other),
    {
        !self.is_nan() && !other.is_nan() && self.order_key() < other.order_key()
    }

    /// `self == other` on doubles.
    pub fn eq_value(&self, other: &Real) -> (r: bool)
        ensures
            r == self.same(*other),
    {
        !self.is_nan() && !other.is_nan() && self.order_key() == other.order_key()
    }

    /// Integer part of the absolute value, cut off at two to the 64.
    fn whole_capped(&self) -> (r: u128)
        ensures
            r == if self.whole() > 0x1_0000_0000_0000_0000 {
                0x1_0000_0000_0000_0000int
            } else {
                self.whole() as int
            },
    {
        let mag: u64 = if self.bits >= SIGN { self.bits - SIGN } else { self.bits };
        let e: u64 = mag / IMPLICIT;
        let m: u64 = mag % IMPLICIT + IMPLICIT;
        proof {
            lemma_powers();
        }
        if e == 0 {
            return 0;
        }
        if e >= 1075 {
            let shift: u64 = e - 1075;
            if shift >= 12 {
                proof {
                    lemma_pow2_monotone(12, shift as nat);
                    assert(m * pow2(shift as nat) >= IMPLICIT * pow2(12)) by (nonlinear_arith)
                        requires
                            m >= IMPLICIT,
                            pow2(shift as nat) >= pow2(12),
                    ;
                }
                return 0x1_0000_0000_0000_0000;
            }
            let mut acc: u128 = m as u128;
            let mut j: u64 = 0;
            while j < shift
                invariant
                    j <= shift < 12,
                    m < 0x20_0000_0000_0000,
                    acc == m * pow2(j as nat),
                    pow2(j as nat) <= 2048,
                decreases shift - j,
            {
                proof {
                    lemma_pow2_unfold((j + 1) as nat);
                    assert(m * pow2((j + 1) as nat) == 2 * (m * pow2(j as nat)))
                        by (nonlinear_arith)
                        requires
                            pow2((j + 1) as nat) == 2 * pow2(j as nat),
                    ;
                    assert(m * pow2(j as nat) <= 0x20_0000_0000_0000 * 2048) by (nonlinear_arith)
                        requires
                            m <= 0x20_0000_0000_0000,
                            pow2(j as nat) <= 2048,
                    ;
                    lemma_powers();
                    lemma_pow2_monotone((j + 1) as nat, 11);
                }
                acc = acc * 2;
                j = j + 1;
            }
            if acc > 0x1_0000_0000_0000_0000 {
                return 0x1_0000_0000_0000_0000;
            }
            acc
        } else {
            let shift: u64 = 1075 - e;
            let mut acc: u64 = m;
            let mut j: u64 = 0;
            assert(acc == (m as int) / (pow2(0) as int));
            while j < shift
                invariant
                    j <= shift,
                    acc == (m as int) / (pow2(j as nat) as int),
                decreases shift - j,
            {
                proof {
                    lemma_pow2_unfold((j + 1) as nat);
                    lemma_pow2_pos(j as nat);
                    lemma_div_denominator(m as int, pow2(j as nat) as int, 2);
                }
                acc = acc / 2;
                j = j + 1;
            }
            acc as u128
        }
    }

    /// `self as usize`.
    pub fn to_usize(&self) -> (r: usize)
        ensures
            r == self.as_count(),
    {
        if self.is_nan() || self.bits >= SIGN {
            return 0;
        }
        let w: u128 = self.whole_capped();
        if w > usize::MAX as u128 {
            usize::MAX
        } else {
            w as usize
        }
    }

    /// `self as i64`.
    pub fn to_i64(&self) -> (r: i64)
        ensures
            r == self.as_long(),
    {
        if self.is_nan() {
            return 0;
        }
        let w: u128 = self.whole_capped();
        if self.bits >= SIGN {
            if w > 0x8000_0000_0000_0000 {
                i64::MIN
            } else {
                let v: i128 = w as i128;
                (-v) as i64
            }
        } else if w > 0x7fff_ffff_ffff_ffff {
            i64::MAX
        } else {
            w as i64
        }
    }

    /// The double with the value `n`.
    pub fn from_count(n: u64) -> (r: Real)
        requires
            n < 0x20_0000_0000_0000,
        ensures
            r == nat_real(n as nat),
            r.bits < INF,
    {
        if n == 0 {
            return Real { bits: 0 };
        }
        let mut e: u64 = 0;
        let mut p: u64 = 1;
        proof {
            lemma_powers();
        }
        while p * 2 <= n
            invariant
                0 < n < 0x20_0000_0000_0000,
                p == pow2(e as nat),
                p <= n,
                e <= 52,
            decreases n - p,
        {
            proof {
                lemma_pow2_unfold((e + 1) as nat);
                lemma_pow2_pos(e as nat);
                lemma_powers();
            }
            p = p * 2;
            e = e + 1;
        }
        proof {
            lemma_pow2_unfold((e + 1) as nat);
            lemma_exponent_between(n as nat, e as nat);
        }
        let mut frac: u64 = n - p;
        let mut j: u64 = 0;
        let ghost f0 = frac as int;
        assert(pow2(0) == 1);
        assert(f0 * 1 == f0);
        proof {
            lemma_pow2_product(e as nat, 0);
        }
        while j < 52 - e
            invariant
                e <= 52,
                j <= 52 - e,
                0 <= f0 < pow2(e as nat),
                frac == f0 * pow2(j as nat),
                frac < pow2((e + j) as nat),
            decreases 52 - e - j,
        {
            proof {
                lemma_pow2_unfold((j + 1) as nat);
                lemma_pow2_unfold((e + j + 1) as nat);
                assert(f0 * pow2((j + 1) as nat) == 2 * (f0 * pow2(j as nat))) by (nonlinear_arith)
                    requires
                        pow2((j + 1) as nat) == 2 * pow2(j as nat),
                ;
                lemma_pow2_monotone((e + j + 1) as nat, 52);
                lemma_powers();
            }
            frac = frac * 2;
            j = j + 1;
        }
        proof {
            lemma_powers();
        }
        Real { bits: (1023 + e) * IMPLICIT + frac }
    }

    /// `n as f64`.
    pub fn from_u64(n: u64) -> (r: Real)
        ensures
            r == rounded(n as nat),
            r.bits < INF,
    {
        if n < 0x20_0000_0000_0000 {
            return Real::from_count(n);
        }
        let mut e: u64 = 53;
        let mut p: u64 = 0x20_0000_0000_0000;
        let mut d: u64 = 2;
        proof {
            lemma_powers();
        }
        while p <= n / 2
            invariant
                n >= 0x20_0000_0000_0000,
                p == pow2(e as nat),
                d == pow2((e - 52) as nat),
                p <= n,
                53 <= e <= 63,
                2 <= d <= p,
            decreases n - p,
        {
            proof {
                lemma_pow2_unfold((e + 1) as nat);
                lemma_pow2_unfold((e - 51) as nat);
                vstd::arithmetic::power2::lemma2_to64_rest();
                if e == 63 {
                    assert(pow2(64) == 0x1_0000_0000_0000_0000);
                }
            }
            p = p * 2;
            d = d * 2;
            e = e + 1;
        }
        proof {
            lemma_pow2_unfold((e + 1) as nat);
            lemma_exponent_between(n as nat, e as nat);
            lemma_pow2_product(53, (e - 52) as nat);
            lemma_powers();
            assert(n < 0x20_0000_0000_0000 * d);
            vstd::arithmetic::div_mod::lemma_multiply_divide_lt(n as int, d as int, 0x20_0000_0000_0000);
            vstd::arithmetic::div_mod::lemma_mod_bound(n as int, d as int);
        }
        let q: u64 = n / d;
        let rem: u64 = n % d;
        let odd: bool = q % 2 == 1;
        let up: bool = rem > d - rem || (rem == d - rem && odd);
        assert(up == (2 * (n % d) > d || (2 * (n % d) == d && q % 2 == 1)));
        Real { bits: (1022 + e) * IMPLICIT + q + if up { 1u64 } else { 0 } }
    }

    /// `n as f64`.
    pub fn from_i64(n: i64) -> (r: Real)
        ensures
            r == long_real(n),
    {
        if n < 0 {
            let m: i128 = -(n as i128);
            let a: Real = Real::from_u64(m as u64);
            Real { bits: a.bits + SIGN }
        } else {
            Real::from_u64(n as u64)
        }
    }

    /// `n as f64`.
    pub fn from_i32(n: i32) -> (r: Real)
        ensures
            r == i32_real(n),
    {
        if n < 0 {
            let m: i64 = -(n as i64);
            let a: Real = Real::from_count(m as u64);
            Real { bits: a.bits + SIGN }
        } else {
            Real::from_count(n as u64)
        }
    }
}

proof fn lemma_pow2_product(a: nat, b: nat)
    ensures
        pow2(a + b) == pow2(a) * pow2(b),
{
    vstd::arithmetic::power2::lemma_pow2_adds(a, b);
}

/// Bits of the quiet NaN that stands for a missing number.
pub const NAN_BITS: u64 = 0x7ff8_0000_0000_0000;

/// Bits of one.
pub const ONE_BITS: u64 = 0x3ff0_0000_0000_0000;

/// Bits of two.
pub const TWO_BITS: u64 = 0x4000_0000_0000_0000;

/// Bits of minus one.
pub const MINUS_ONE_BITS: u64 = 0xbff0_0000_0000_0000;

/// Bits of minus infinity.
pub const NEG_INF: u64 = 0xfff0_0000_0000_0000;

/// Bits of one half.
pub const HALF_BITS: u64 = 0x3fe0_0000_0000_0000;

/// The double with the given bits.
pub open spec fn num(bits: u64) -> Real {
    Real { bits }
}

/// Positive zero.
pub open spec fn zero() -> Real {
    Real { bits: 0 }
}

pub open spec fn one() -> Real {
    Real { bits: ONE_BITS }
}

pub open spec fn two() -> Real {
    Real { bits: TWO_BITS }
}

impl Real {
    /// The smaller of two doubles, a NaN giving way to the other operand; of
    /// two equal ones the first.
    pub open spec fn least(self, other: Real) -> Real {
        if self.nan() || other.below(self) {
            other
        } else {
            self
        }
    }

    /// The larger of two doubles, a NaN giving way to the other operand; of
    /// two equal ones the first.
    pub open spec fn greatest(self, other: Real) -> Real {
        if self.nan() || self.below(other) {
            other
        } else {
            self
        }
    }

    /// The double with the other sign.
    pub open spec fn negated(self) -> Real {
        if self.negative() {
            Real { bits: (self.bits - SIGN) as u64 }
        } else {
            Real { bits: (self.bits + SIGN) as u64 }
        }
    }

    /// The double without its sign.
    pub open spec fn absolute(self) -> Real {
        Real { bits: self.magnitude() as u64 }
    }

    /// One, minus one or zero, as the double is above, below or equal to zero;
    /// a NaN for a NaN.
    pub open spec fn sign_of(self) -> Real {
        if self.nan() {
            Real { bits: NAN_BITS }
        } else if self.key() > 0 {
            one()
        } else if self.key() < 0 {
            Real { bits: MINUS_ONE_BITS }
        } else {
            zero()
        }
    }

    pub fn min_value(self, other: Real) -> (r: Real)
        ensures
            r == self.least(other),
    {
        if self.is_nan() || other.lt(&self) {
            other
        } else {
            self
        }
    }

    pub fn max_value(self, other: Real) -> (r: Real)
        ensures
            r == self.greatest(other),
    {
        if self.is_nan() || self.lt(&other) {
            other
        } else {
            self
        }
    }

    pub fn neg(self) -> (r: Real)
        ensures
            r == self.negated(),
    {
        if self.bits >= SIGN {
            Real { bits: self.bits - SIGN }
        } else {
            Real { bits: self.bits + SIGN }
        }
    }

    pub fn abs(self) -> (r: Real)
        ensures
            r == self.absolute(),
    {
        if self.bits >= SIGN {
            Real { bits: self.bits - SIGN }
        } else {
            self
        }
    }

    pub fn sign(self) -> (r: Real)
        ensures
            r == self.sign_of(),
    {
        if self.is_nan() {
            return Real { bits: NAN_BITS };
        }
        let k: i64 = self.order_key();
        if k > 0 {
            Real { bits: ONE_BITS }
        } else if k < 0 {
            Real { bits: MINUS_ONE_BITS }
        } else {
            Real { bits: 0 }
        }
    }
}

/// The operations on doubles that the library asks of its caller. Each is given
/// three operands; one that needs fewer is given its last one again.
#[derive(Clone, Copy, PartialEq, Eq, Structural, Debug)]
pub enum FloatOp {
    Plus,
    Minus,
    Times,
    Over,
    Power,
    /// The remainder of Euclidean division.
    Modulo,
    /// The first times the second plus the third.
    MulAdd,
    Sqrt,
    Exp,
    Ln,
    Log2,
    Log10,
    Sin,
    Cos,
    Tan,
    Asin,
    Acos,
    Atan,
    Sinh,
    Cosh,
    Tanh,
    Trunc,
    Expm1,
    Log1p,
}

/// Floating-point arithmetic, supplied by the caller as one function.
pub struct Fpu<F: Fn(FloatOp, Real, Real, Real) -> Real> {
    pub eval: F,
}

impl<F: Fn(FloatOp, Real, Real, Real) -> Real> Fpu<F> {
    /// The function takes every operand and always gives the same result for
    /// the same operands.
    pub open spec fn wf(&self) -> bool {
        &&& forall|o: FloatOp, a: Real, b: Real, c: Real| #[trigger]
            call_requires(self.eval, (o, a, b, c))
        &&& forall|o: FloatOp, a: Real, b: Real, c: Real, r: Real, s: Real| #[trigger]
            call_ensures(self.eval, (o, a, b, c), r) && #[trigger] call_ensures(
                self.eval,
                (o, a, b, c),
                s,
            ) ==> r == s
    }

    /// The result of an operation.
    pub open spec fn value(&self, o: FloatOp, a: Real, b: Real, c: Real) -> Real {
        choose|r: Real| call_ensures(self.eval, (o, a, b, c), r)
    }

    /// The result of an operation on one operand.
    pub open spec fn value1(&self, o: FloatOp, a: Real) -> Real {
        self.value(o, a, a, a)
    }

    /// The result of an operation on two operands.
    pub open spec fn value2(&self, o: FloatOp, a: Real, b: Real) -> Real {
        self.value(o, a, b, b)
    }

    pub open spec fn plus(&self, a: Real, b: Real) -> Real {
        self.value2(FloatOp::Plus, a, b)
    }

    pub open spec fn minus(&self, a: Real, b: Real) -> Real {
        self.value2(FloatOp::Minus, a, b)
    }

    pub open spec fn times(&self, a: Real, b: Real) -> Real {
        self.value2(FloatOp::Times, a, b)
    }

    pub open spec fn over(&self, a: Real, b: Real) -> Real {
        self.value2(FloatOp::Over, a, b)
    }

    pub open spec fn sqrt(&self, a: Real) -> Real {
        self.value1(FloatOp::Sqrt, a)
    }

    /// The square of the difference.
    pub open spec fn square_diff(&self, a: Real, b: Real) -> Real {
        self.times(self.minus(a, b), self.minus(a, b))
    }

    /// The square.
    pub open spec fn square(&self, a: Real) -> Real {
        self.times(a, a)
    }

    /// Performs an operation on three operands.
    pub fn apply3(&self, o: FloatOp, a: Real, b: Real, c: Real) -> (r: Real)
        requires
            self.wf(),
        ensures
            r == self.value(o, a, b, c),
    {
        let r = (self.eval)(o, a, b, c);
        assert(call_ensures(self.eval, (o, a, b, c), r));
        r
    }

    /// Performs an operation on two operands.
    pub fn apply(&self, o: FloatOp, a: Real, b: Real) -> (r: Real)
        requires
            self.wf(),
        ensures
            r == self.value2(o, a, b),
    {
        self.apply3(o, a, b, b)
    }

    /// `a + b`.
    pub fn sum(&self, a: Real, b: Real) -> (r: Real)
        requires
            self.wf(),
        ensures
            r == self.plus(a, b),
    {
        self.apply(FloatOp::Plus, a, b)
    }

    /// `a - b`.
    pub fn diff(&self, a: Real, b: Real) -> (r: Real)
        requires
            self.wf(),
        ensures
            r == self.minus(a, b),
    {
        self.apply(FloatOp::Minus, a, b)
    }

    /// `a * b`.
    pub fn prod(&self, a: Real, b: Real) -> (r: Real)
        requires
            self.wf(),
        ensures
            r == self.times(a, b),
    {
        self.apply(FloatOp::Times, a, b)
    }

    /// `a / b`.
    pub fn quot(&self, a: Real, b: Real) -> (r: Real)
        requires
            self.wf(),
        ensures
            r == self.over(a, b),
    {
        self.apply(FloatOp::Over, a, b)
    }

    /// The square root.
    pub fn root(&self, a: Real) -> (r: Real)
        requires
            self.wf(),
        ensures
            r == self.sqrt(a),
    {
        self.apply1(FloatOp::Sqrt, a)
    }

    /// The exponential.
    pub open spec fn exp(&self, a: Real) -> Real {
        self.value1(FloatOp::Exp, a)
    }

    /// The natural logarithm.
    pub open spec fn ln(&self, a: Real) -> Real {
        self.value1(FloatOp::Ln, a)
    }

    /// `a` to the power `b`.
    pub open spec fn pow(&self, a: Real, b: Real) -> Real {
        self.value2(FloatOp::Power, a, b)
    }

    /// Performs an operation on one operand.
    pub fn apply1(&self, o: FloatOp, a: Real) -> (r: Real)
        requires
            self.wf(),
        ensures
            r == self.value1(o, a),
    {
        self.apply3(o, a, a, a)
    }
}

// ── Laws ───────────────────────────────────────────────────────────────────

/// A number below two to the 53, as a double and back, is what it was.
pub proof fn law_counts_read_back(n: nat)
    requires
        n < 0x20_0000_0000_0000,
    ensures
        nat_real(n).whole() == n,
        !nat_real(n).nan(),
        !nat_real(n).negative(),
        n <= usize::MAX ==> nat_real(n).as_count() == n,
        nat_real(n).as_long() == n,
        long_real(-(n as int) as i64).as_long() == -(n as int),
{
    lemma_powers();
    if n > 0 {
        lemma_exponent(n);
        let e = exponent(n);
        if e >= 53 {
            lemma_pow2_monotone(53, e);
        }
        let d = pow2((52 - e) as nat);
        lemma_pow2_pos((52 - e) as nat);
        lemma_pow2_product(e, (52 - e) as nat);
        lemma_pow2_unfold(e + 1);
        let low = (n - pow2(e)) * d;
        assert(low == n * d - pow2(e) * d && 0 <= low && low < pow2(e) * d) by (nonlinear_arith)
            requires
                low == (n - pow2(e)) * d,
                pow2(e) <= n < 2 * pow2(e),
                d > 0,
        ;
        let top = 1023 + e;
        let b = top * IMPLICIT + low;
        assert(b < 1076 * IMPLICIT && 0 <= b) by (nonlinear_arith)
            requires
                b == top * IMPLICIT + low,
                0 <= top < 1076,
                0 <= low < IMPLICIT,
                top + 1 <= 1076,
        ;
        vstd::arithmetic::div_mod::lemma_fundamental_div_mod_converse(b, IMPLICIT as int, top as int, low);
        assert(nat_real(n).bits == b);
        assert(low + IMPLICIT == n * d);
        vstd::arithmetic::div_mod::lemma_div_multiples_vanish(n as int, d as int);
        assert(n * d == d * n) by (nonlinear_arith);
        let x = nat_real(n);
        assert(x.magnitude() == b);
        if e == 52 {
            assert(d == 1);
            assert(x.whole() == (n * d) * pow2(0));
            assert((n * d) * pow2(0) == n) by (nonlinear_arith)
                requires
                    d == 1,
                    pow2(0) == 1,
            ;
        } else {
            assert((1075 - top) as nat == (52 - e) as nat);
            assert(x.whole() == ((n * d) as int) / (d as int));
            assert(((n * d) as int) / (d as int) == n) by (nonlinear_arith)
                requires
                    d > 0,
            ;
        }
    }
}

/// The sign: turning it over twice gives the number back, and turns the order
/// over; without it a number is as far from zero, on the upper side.
pub proof fn law_signs(x: Real, y: Real)
    ensures
        x.negated().negated() == x,
        x.negated().key() == -x.key(),
        x.negated().nan() == x.nan(),
        x.below(y) == y.negated().below(x.negated()),
        !x.absolute().negative(),
        x.absolute() == x || x.absolute() == x.negated(),
        x.absolute().absolute() == x.absolute(),
        x.negated().absolute() == x.absolute(),
        !x.nan() && x.key() > 0 ==> x.sign_of() == one(),
        !x.nan() && x.key() < 0 ==> x.sign_of() == one().negated(),
        !x.nan() && x.key() == 0 ==> x.sign_of() == zero(),
{
}

/// The smaller and the larger of two numbers: one of the two, and the other one
/// of the two, where neither is a NaN; of a NaN and a number, the number.
pub proof fn law_extremes_of_two(x: Real, y: Real)
    ensures
        !x.nan() && !y.nan() ==> x.least(y).key() <= x.key() && x.least(y).key() <= y.key() && (x.least(y) == x
            || x.least(y) == y),
        !x.nan() && !y.nan() ==> x.greatest(y).key() >= x.key() && x.greatest(y).key() >= y.key() && (x.greatest(y) == x
            || x.greatest(y) == y),
        x.nan() && !y.nan() ==> x.least(y) == y && x.greatest(y) == y,
        !x.nan() && y.nan() ==> x.least(y) == x && x.greatest(y) == x,
{
}

} // verus!
