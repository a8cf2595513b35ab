//! What the statistics of the multivariate tests are, by what they satisfy in
//! exact arithmetic.
use crate::double::{FloatOp, Fpu, HALF_BITS, Real, nat_real, num, one, two};
use crate::exact::{
    Exact, exact, law_total, lemma_cancel_factor, lemma_count, lemma_distributes, lemma_group, lemma_minus, lemma_nil,
    lemma_nonzero, lemma_ops, lemma_product_same, lemma_shuffle_factors, lemma_sum_plus, lemma_sum_same, lemma_swap,
    lemma_times_minus,
};
use crate::grid::{entry, lemma_entry, mean};
use crate::kernel::free_of_nan;
use crate::kernel_laws::is_mean;
use crate::kernel_par::{ScanOp, folded};
use crate::linalg::forward;
use crate::linalg_laws::{law_forward, pivots_count, row_term};
use crate::stats_hotelling::{differences, one_sample_report, pooled, two_sample_report};
use crate::stats_manova::{solved_columns, solved_rows, symmetrized, table_column, table_row, whitened};
use crate::stats_matrix::{co_deviations, column, covariance, f_tail, freedom, means, positive};
use crate::stats_report::{SLACK, Sizes, manova_report, pillai, rao_m, rao_n, shares, sizes, statistics, widened, wilks};
use crate::value::{Val, num_val};
use vstd::prelude::*;

verus! {

/// The value of two.
proof fn lemma_two<F: Fn(FloatOp, Real, Real, Real) -> Real>(fpu: &Fpu<F>, e: Exact)
    requires
        exact(fpu, e),
    ensures
        e.v(two()) == e.plus(e.one, e.one),
        e.count(1) == e.one,
        e.count(2) == e.plus(e.one, e.one),
{
    lemma_count(fpu, e, 2);
    lemma_nil(e, e.one);
    reveal_with_fuel(Exact::count, 3);
    reveal_with_fuel(crate::double::exponent, 3);
    vstd::arithmetic::power2::lemma2_to64();
    assert(crate::double::exponent(2) == 1);
    assert(vstd::arithmetic::power2::pow2(1) == 2);
    assert((2 - 2) * vstd::arithmetic::power2::pow2(51) == 0) by (nonlinear_arith);
    assert(((1023 + 1) * crate::double::IMPLICIT) as u64 == crate::double::TWO_BITS);
    assert(nat_real(2) == two());
}

// ── Wilks, Pillai, Hotelling-Lawley and Roy ────────────────────────────────

/// One and each eigenvalue.
pub open spec fn one_and(e: Exact, lam: Seq<Real>) -> spec_fn(int) -> int {
    |i: int| e.plus(e.one, e.v(lam[i]))
}

proof fn lemma_wilks<F: Fn(FloatOp, Real, Real, Real) -> Real>(fpu: &Fpu<F>, e: Exact, lam: Seq<Real>)
    requires
        exact(fpu, e),
        forall|i: int| 0 <= i < lam.len() ==> #[trigger] one_and(e, lam)(i) != e.zero,
    ensures
        e.times(e.v(wilks(fpu, lam)), e.product(one_and(e, lam), 0, lam.len() as int)) == e.one,
    decreases lam.len(),
{
    lemma_ops(fpu, e);
    if lam.len() == 0 {
        lemma_nil(e, e.one);
    } else {
        let t = lam.drop_last();
        let f = one_and(e, lam);
        assert forall|i: int| 0 <= i < t.len() implies #[trigger] one_and(e, t)(i) != e.zero by {
            assert(f(i) != e.zero);
        }
        lemma_wilks(fpu, e, t);
        lemma_product_same(e, one_and(e, t), f, 0, t.len() as int);
        let n = lam.len() as int;
        let d = fpu.plus(one(), lam.last());
        assert(f(n - 1) != e.zero);
        assert(e.v(d) == f(n - 1));
        let w = e.v(wilks(fpu, lam));
        let p = e.product(f, 0, n - 1);
        lemma_swap(e, p, f(n - 1));
        lemma_group(e, w, f(n - 1), p);
        assert(e.times(w, f(n - 1)) == e.v(wilks(fpu, t)));
    }
}

/// What the four statistics satisfy: Wilks' lambda times the product of all
/// `1 + x` is one; Pillai's trace and the sum of all `1 / (1 + x)` are together
/// as many as there are eigenvalues; the Hotelling-Lawley trace is their sum;
/// and Roy's root is the largest of them.
pub proof fn law_statistics<F: Fn(FloatOp, Real, Real, Real) -> Real>(
    fpu: &Fpu<F>,
    e: Exact,
    lam: Seq<Real>,
    z: Sizes,
    inv: spec_fn(int) -> int,
)
    requires
        exact(fpu, e),
        0 < lam.len(),
        free_of_nan(lam),
        forall|i: int| 0 <= i < lam.len() ==> #[trigger] one_and(e, lam)(i) != e.zero,
        forall|i: int| 0 <= i < lam.len() ==> e.times(#[trigger] inv(i), e.plus(e.one, e.v(lam[i]))) == e.one,
    ensures
        ({
            let t = statistics(fpu, lam, z);
            let n = lam.len() as int;
            &&& e.times(e.v(t.wilks), e.product(one_and(e, lam), 0, n)) == e.one
            &&& e.plus(e.v(t.pillai), e.sum(inv, 0, n)) == e.count(lam.len())
            &&& e.v(t.trace) == e.sum(e.at(lam), 0, n)
            &&& lam.contains(t.roy)
            &&& forall|i: int| 0 <= i < n ==> (#[trigger] lam[i]).key() <= t.roy.key()
        }),
{
    lemma_ops(fpu, e);
    lemma_wilks(fpu, e, lam);
    law_total(fpu, e, lam);
    let n = lam.len() as int;
    let s = shares(fpu, lam);
    law_total(fpu, e, s);
    let ones = |i: int| e.one;
    assert forall|i: int| 0 <= i < n implies #[trigger] ones(i) == e.plus(e.at(s)(i), inv(i)) by {
        let x = e.v(lam[i]);
        let d = e.plus(e.one, x);
        let q = e.v(s[i]);
        assert(one_and(e, lam)(i) != e.zero);
        assert(e.v(fpu.plus(one(), lam[i])) == d);
        assert(e.times(q, d) == x);
        lemma_distributes(e, d, q, inv(i));
        lemma_swap(e, x, e.one);
        lemma_nil(e, d);
        lemma_cancel_factor(e, e.plus(q, inv(i)), e.one, d);
    }
    lemma_sum_plus(e, e.at(s), inv, ones, 0, n);
    lemma_ones(e, ones, lam.len());
    crate::kernel_laws::law_extremes(
        fpu,
        crate::kernel::ReduceOp::Max,
        lam,
        Some(folded(fpu, ScanOp::Cummax, lam)),
    );
}

proof fn lemma_ones(e: Exact, f: spec_fn(int) -> int, n: nat)
    requires
        forall|i: int| 0 <= i < n ==> #[trigger] f(i) == e.one,
    ensures
        e.sum(f, 0, n as int) == e.count(n),
    decreases n,
{
    if n > 0 {
        lemma_ones(e, f, (n - 1) as nat);
        assert(f(n - 1) == e.one);
    }
}

/// Twice half of one less, plus `s` and one, is what it was plus `s`.
proof fn lemma_widened<F: Fn(FloatOp, Real, Real, Real) -> Real>(fpu: &Fpu<F>, e: Exact, m: Real, s: Real, t: Real)
    requires
        exact(fpu, e),
        e.v(two()) != e.zero,
        m == fpu.over(fpu.minus(t, one()), two()),
    ensures
        e.v(widened(fpu, m, s)) == e.plus(e.v(t), e.v(s)),
{
    lemma_ops(fpu, e);
    let a = e.v(t);
    let d = e.minus(a, e.one);
    lemma_swap(e, e.v(two()), e.v(m));
    assert(e.times(e.v(two()), e.v(m)) == d);
    lemma_group(e, d, e.v(s), e.one);
    lemma_swap(e, e.v(s), e.one);
    lemma_group(e, d, e.one, e.v(s));
    lemma_minus(e, a, e.one);
}

/// The distance between the freedom of the hypothesis and the columns.
pub open spec fn apart<F: Fn(FloatOp, Real, Real, Real) -> Real>(fpu: &Fpu<F>, z: Sizes) -> Real {
    fpu.minus(z.vh, z.p).absolute()
}

/// The F approximation of Pillai's trace `V`: with `A` the distance between the
/// freedom of the hypothesis and the columns, the degrees of freedom are
/// `s (A + s)` and `s (ve - p + s)`, and `F (A + s) (s - V)` is
/// `(ve - p + s) V`.
pub proof fn law_pillai_f<F: Fn(FloatOp, Real, Real, Real) -> Real>(fpu: &Fpu<F>, e: Exact, lam: Seq<Real>, z: Sizes)
    requires
        exact(fpu, e),
        e.v(two()) != e.zero,
        e.plus(e.v(apart(fpu, z)), e.v(z.s)) != e.zero,
        e.minus(e.v(z.s), e.v(statistics(fpu, lam, z).pillai)) != e.zero,
    ensures
        ({
            let t = statistics(fpu, lam, z);
            let a = e.plus(e.v(apart(fpu, z)), e.v(z.s));
            let b = e.plus(e.minus(e.v(z.ve), e.v(z.p)), e.v(z.s));
            let v = e.v(t.pillai);
            &&& e.v(t.f_pillai.df1) == e.times(e.v(z.s), a)
            &&& e.v(t.f_pillai.df2) == e.times(e.v(z.s), b)
            &&& num(SLACK).below(fpu.minus(z.s, t.pillai)) ==> e.times(
                e.v(t.f_pillai.f),
                e.times(a, e.minus(e.v(z.s), v)),
            ) == e.times(b, v)
        }),
{
    lemma_ops(fpu, e);
    let p = pillai(fpu, lam);
    let a = widened(fpu, rao_m(fpu, z), z.s);
    let b = widened(fpu, rao_n(fpu, z), z.s);
    lemma_widened(fpu, e, rao_m(fpu, z), z.s, apart(fpu, z));
    lemma_widened(fpu, e, rao_n(fpu, z), z.s, fpu.minus(z.ve, z.p));
    let left = fpu.minus(z.s, p);
    let q1 = fpu.over(b, a);
    let q2 = fpu.over(p, left);
    lemma_shuffle_factors(e, e.v(q1), e.v(q2), e.v(a), e.v(left));
}

/// The F approximation of the Hotelling-Lawley trace `U`: `F s s (A + s)` is
/// `df2 U`, where `df2` is `s (ve - p - 1) + 2`.
pub proof fn law_trace_f<F: Fn(FloatOp, Real, Real, Real) -> Real>(fpu: &Fpu<F>, e: Exact, lam: Seq<Real>, z: Sizes)
    requires
        exact(fpu, e),
        e.v(two()) != e.zero,
        e.plus(e.v(apart(fpu, z)), e.v(z.s)) != e.zero,
        e.v(z.s) != e.zero,
    ensures
        ({
            let t = statistics(fpu, lam, z);
            let a = e.plus(e.v(apart(fpu, z)), e.v(z.s));
            &&& e.v(t.f_trace.df1) == e.times(e.v(z.s), a)
            &&& e.v(t.f_trace.df2) == e.plus(
                e.times(e.v(z.s), e.minus(e.minus(e.v(z.ve), e.v(z.p)), e.one)),
                e.plus(e.one, e.one),
            )
            &&& positive(t.f_trace.df2) && positive(z.s) ==> e.times(
                e.v(t.f_trace.f),
                e.times(e.square(e.v(z.s)), a),
            ) == e.times(e.v(t.f_trace.df2), e.v(t.trace))
        }),
{
    lemma_ops(fpu, e);
    lemma_two(fpu, e);
    let a = widened(fpu, rao_m(fpu, z), z.s);
    lemma_widened(fpu, e, rao_m(fpu, z), z.s, apart(fpu, z));
    let s = e.v(z.s);
    let n = e.v(rao_n(fpu, z));
    let w = e.v(two());
    let d = e.minus(e.minus(e.v(z.ve), e.v(z.p)), e.one);
    assert(e.times(n, w) == d);
    lemma_distributes(e, w, e.times(s, n), e.one);
    lemma_nil(e, w);
    lemma_swap(e, w, e.times(s, n));
    lemma_group(e, s, n, w);
    lemma_nonzero(e, s, s);
    lemma_nonzero(e, e.square(s), e.v(a));
}

/// The F approximation of Roy's root `t`: with `d` the larger of the columns
/// and the freedom of the hypothesis, the degrees of freedom are `d` and
/// `ve - d + s`, and `F d` is `t (ve - d + s)`.
pub proof fn law_roy_f<F: Fn(FloatOp, Real, Real, Real) -> Real>(fpu: &Fpu<F>, e: Exact, lam: Seq<Real>, z: Sizes)
    requires
        exact(fpu, e),
        !z.p.nan(),
        !z.vh.nan(),
    ensures
        ({
            let t = statistics(fpu, lam, z);
            let d = t.f_roy.df1;
            &&& d == z.p || d == z.vh
            &&& z.p.key() <= d.key() && z.vh.key() <= d.key()
            &&& e.v(t.f_roy.df2) == e.plus(e.minus(e.v(z.ve), e.v(d)), e.v(z.s))
            &&& positive(t.f_roy.df2) && e.v(d) != e.zero ==> e.times(e.v(t.f_roy.f), e.v(d)) == e.times(
                e.v(t.roy),
                e.v(t.f_roy.df2),
            )
        }),
{
    lemma_ops(fpu, e);
}

/// The F approximation of Wilks' lambda `w` with exponent `1 / s`: the first
/// degrees of freedom are the columns times the freedom of the hypothesis, and
/// `F` times the root of lambda times `df1` is one less the root, times `df2`.
/// Where the sizes are small the exponent is one.
pub proof fn law_wilks_f<F: Fn(FloatOp, Real, Real, Real) -> Real>(fpu: &Fpu<F>, e: Exact, lam: Seq<Real>, z: Sizes)
    requires
        exact(fpu, e),
        e.v(two()) != e.zero,
        e.times(e.v(z.p), e.v(z.vh)) != e.zero,
    ensures
        ({
            let t = statistics(fpu, lam, z);
            exists|s: Real, root: Real|
                #![trigger fpu.over(one(), s), e.v(root)]
                {
                    &&& root == fpu.pow(t.wilks, fpu.over(one(), s))
                    &&& e.v(t.f_wilks.df1) == e.times(e.v(z.p), e.v(z.vh))
                    &&& e.v(root) != e.zero ==> e.times(
                        e.v(t.f_wilks.f),
                        e.times(e.v(root), e.v(t.f_wilks.df1)),
                    ) == e.times(e.minus(e.one, e.v(root)), e.v(t.f_wilks.df2))
                    &&& e.times(e.plus(e.one, e.one), e.v(t.f_wilks.df2)) == e.plus(
                        e.minus(
                            e.times(
                                e.minus(
                                    e.times(e.plus(e.one, e.one), e.minus(e.v(z.ve), e.one)),
                                    e.plus(e.minus(e.v(z.p), e.v(z.vh)), e.one),
                                ),
                                e.v(s),
                            ),
                            e.v(t.f_wilks.df1),
                        ),
                        e.plus(e.one, e.one),
                    )
                }
        }),
{
    lemma_ops(fpu, e);
    lemma_two(fpu, e);
    let w = wilks(fpu, lam);
    let t = statistics(fpu, lam, z);
    let below = fpu.minus(fpu.plus(fpu.square(z.p), fpu.square(z.vh)), num(crate::stats_report::FIVE));
    let s = if !below.nan() && below.key() <= 0 {
        one()
    } else {
        fpu.sqrt(
            fpu.over(
                fpu.minus(fpu.times(fpu.times(fpu.square(z.p), z.vh), z.vh), num(crate::stats_report::FOUR)),
                below,
            ),
        )
    };
    let root = fpu.pow(w, fpu.over(one(), s));
    let df1 = fpu.times(z.p, z.vh);
    let df2 = t.f_wilks.df2;
    let q1 = fpu.over(fpu.minus(one(), root), root);
    let q2 = fpu.over(df2, df1);
    assert(t.f_wilks.f == fpu.times(q1, q2));
    lemma_shuffle_factors(e, e.v(q1), e.v(q2), e.v(root), e.v(df1));
    let h = fpu.over(fpu.plus(fpu.minus(z.p, z.vh), one()), two());
    let m = fpu.minus(fpu.minus(z.ve, one()), h);
    let k = e.v(two());
    let half = fpu.over(df1, two());
    assert(df2 == fpu.plus(fpu.minus(fpu.times(m, s), half), one()));
    let x = e.minus(e.times(e.v(m), e.v(s)), e.v(half));
    lemma_distributes(e, k, x, e.one);
    lemma_nil(e, k);
    lemma_times_minus(e, k, e.times(e.v(m), e.v(s)), e.v(half));
    lemma_swap(e, k, e.v(half));
    lemma_group(e, k, e.v(m), e.v(s));
    lemma_times_minus(e, k, e.minus(e.v(z.ve), e.one), e.v(h));
    lemma_swap(e, k, e.v(h));
    assert(e.v(root) == e.v(root) && fpu.over(one(), s) == fpu.over(one(), s));
}

/// The sizes of an analysis of `n` rows, `p` columns and `k` groups: the
/// freedom of the hypothesis and one make the groups, the freedom of the error
/// and the groups make the rows, and `s` is the smaller of the columns and the
/// freedom of the hypothesis.
pub proof fn law_sizes<F: Fn(FloatOp, Real, Real, Real) -> Real>(fpu: &Fpu<F>, e: Exact, n: nat, p: nat, k: nat)
    requires
        exact(fpu, e),
        1 <= k <= n < 0x20_0000_0000_0000,
        p < 0x20_0000_0000_0000,
    ensures
        ({
            let z = sizes(fpu, n, p, k);
            &&& e.v(z.n) == e.count(n)
            &&& e.v(z.p) == e.count(p)
            &&& e.plus(e.v(z.vh), e.one) == e.count(k)
            &&& e.plus(e.v(z.ve), e.count(k)) == e.count(n)
            &&& p < k ==> e.v(z.s) == e.count(p)
            &&& k <= p ==> e.v(z.s) == e.v(z.vh)
        }),
{
    lemma_ops(fpu, e);
    lemma_count(fpu, e, n);
    lemma_count(fpu, e, p);
    lemma_count(fpu, e, k);
    lemma_count(fpu, e, (k - 1) as nat);
    lemma_minus(e, e.count(n), e.count(k));
}

/// The statistic of an F test goes with its own degrees of freedom: the chance
/// is the tail at it.
pub proof fn law_chances<F: Fn(FloatOp, Real, Real, Real) -> Real>(fpu: &Fpu<F>, lam: Seq<Real>, z: Sizes)
    ensures
        ({
            let t = statistics(fpu, lam, z);
            &&& t.f_pillai.p == f_tail(fpu, t.f_pillai.f, t.f_pillai.df1, t.f_pillai.df2)
            &&& t.f_wilks.p == f_tail(fpu, t.f_wilks.f, t.f_wilks.df1, t.f_wilks.df2)
            &&& t.f_trace.p == f_tail(fpu, t.f_trace.f, t.f_trace.df1, t.f_trace.df2)
            &&& t.f_roy.p == f_tail(fpu, t.f_roy.f, t.f_roy.df1, t.f_roy.df2)
        }),
{
}

/// What a report of the analysis holds under which name.
pub proof fn law_manova_fields<F: Fn(FloatOp, Real, Real, Real) -> Real>(
    fpu: &Fpu<F>,
    lam: Seq<Real>,
    n: nat,
    p: nat,
    k: nat,
)
    ensures
        ({
            let r = manova_report(fpu, lam, n, p, k);
            let t = statistics(fpu, lam, sizes(fpu, n, p, k));
            &&& field_is(r, 1, "pillai.trace"@, t.pillai)
            &&& field_is(r, 2, "wilks.lambda"@, t.wilks)
            &&& field_is(r, 3, "hotelling.lawley"@, t.trace)
            &&& field_is(r, 4, "roy.largest"@, t.roy)
            &&& field_is(r, 5, "f.pillai"@, t.f_pillai.f)
            &&& field_is(r, 9, "f.wilks"@, t.f_wilks.f)
            &&& field_is(r, 13, "p.value"@, t.f_wilks.p)
            &&& field_is(r, 14, "f.hotelling.lawley"@, t.f_trace.f)
            &&& field_is(r, 18, "f.roy"@, t.f_roy.f)
        }),
{
}

// ── Hotelling ──────────────────────────────────────────────────────────────

/// The number in a field of a report.
pub open spec fn field_is(v: Val, i: int, name: Seq<char>, x: Real) -> bool {
    v is Instance && 0 <= i < v->Instance_1.len() && v->Instance_1[i] == (name, num_val(x))
}

/// The one-sample test: T-squared is `n` times the quadratic form, and `F`
/// times `p (n - 1)` is T-squared times `n - p`.
pub proof fn law_one_sample<F: Fn(FloatOp, Real, Real, Real) -> Real>(
    fpu: &Fpu<F>,
    e: Exact,
    method: Seq<char>,
    q: Real,
    n: nat,
    p: nat,
)
    requires
        exact(fpu, e),
        0 < p < n < 0x20_0000_0000_0000,
        e.count(p) != e.zero,
        e.count((n - 1) as nat) != e.zero,
    ensures
        exists|t2: Real, f: Real| #[trigger]
            field_is(one_sample_report(fpu, method, q, n, p), 1, "statistic.t2"@, t2) && #[trigger] field_is(
                one_sample_report(fpu, method, q, n, p),
                2,
                "statistic.f"@,
                f,
            ) && e.v(t2) == e.times(e.count(n), e.v(q)) && e.times(
                e.v(f),
                e.times(e.count(p), e.count((n - 1) as nat)),
            ) == e.times(e.v(t2), e.count((n - p) as nat)),
{
    lemma_ops(fpu, e);
    lemma_count(fpu, e, n);
    lemma_count(fpu, e, p);
    lemma_count(fpu, e, (n - p) as nat);
    lemma_minus(e, e.count((n - 1) as nat), e.one);
    lemma_nonzero(e, e.count(p), e.count((n - 1) as nat));
    let t2 = fpu.times(nat_real(n), q);
    let f = crate::stats_hotelling::one_sample_f(fpu, t2, n, p);
    assert(field_is(one_sample_report(fpu, method, q, n, p), 1, "statistic.t2"@, t2));
    assert(field_is(one_sample_report(fpu, method, q, n, p), 2, "statistic.f"@, f));
}

/// The two-sample test: T-squared times `n1 + n2` is `n1 n2` times the
/// quadratic form, and `F` times `p (n1 + n2 - 2)` is T-squared times
/// `n1 + n2 - p - 1`.
pub proof fn law_two_sample<F: Fn(FloatOp, Real, Real, Real) -> Real>(
    fpu: &Fpu<F>,
    e: Exact,
    q: Real,
    n1: nat,
    n2: nat,
    p: nat,
)
    requires
        exact(fpu, e),
        0 < p,
        p + 1 < n1 + n2 < 0x20_0000_0000_0000,
        e.plus(e.count(n1), e.count(n2)) != e.zero,
        e.times(e.count(p), e.minus(e.plus(e.count(n1), e.count(n2)), e.count(2))) != e.zero,
    ensures
        exists|t2: Real, f: Real| #[trigger]
            field_is(two_sample_report(fpu, q, n1, n2, p), 1, "statistic.t2"@, t2) && #[trigger] field_is(
                two_sample_report(fpu, q, n1, n2, p),
                2,
                "statistic.f"@,
                f,
            ) && e.times(e.v(t2), e.plus(e.count(n1), e.count(n2))) == e.times(
                e.times(e.count(n1), e.count(n2)),
                e.v(q),
            ) && e.times(e.v(f), e.times(e.count(p), e.minus(e.plus(e.count(n1), e.count(n2)), e.count(2)))) == e.times(
                e.v(t2),
                e.count((n1 + n2 - p - 1) as nat),
            ),
{
    lemma_ops(fpu, e);
    lemma_two(fpu, e);
    lemma_count(fpu, e, n1);
    lemma_count(fpu, e, n2);
    lemma_count(fpu, e, p);
    lemma_count(fpu, e, (n1 + n2 - p - 1) as nat);
    let f1 = nat_real(n1);
    let f2 = nat_real(n2);
    let r = fpu.over(fpu.times(f1, f2), fpu.plus(f1, f2));
    let t2 = fpu.times(r, q);
    let df2 = nat_real((n1 + n2 - p - 1) as nat);
    let f = fpu.over(fpu.times(t2, df2), fpu.times(nat_real(p), fpu.minus(fpu.plus(f1, f2), two())));
    let k = e.plus(e.count(n1), e.count(n2));
    lemma_group(e, e.v(r), e.v(q), k);
    lemma_swap(e, e.v(q), k);
    lemma_group(e, e.v(r), k, e.v(q));
    assert(field_is(two_sample_report(fpu, q, n1, n2, p), 1, "statistic.t2"@, t2));
    assert(field_is(two_sample_report(fpu, q, n1, n2, p), 2, "statistic.f"@, f));
}

/// A pooled entry, times the joint freedom, is what both samples give, each
/// times its own freedom.
pub proof fn law_pooled<F: Fn(FloatOp, Real, Real, Real) -> Real>(
    fpu: &Fpu<F>,
    e: Exact,
    sx: Seq<Real>,
    sy: Seq<Real>,
    n1: nat,
    n2: nat,
    i: int,
)
    requires
        exact(fpu, e),
        0 <= i < sx.len() == sy.len(),
        n1 < 0x20_0000_0000_0000,
        n2 < 0x20_0000_0000_0000,
        e.minus(e.plus(e.count(n1), e.count(n2)), e.count(2)) != e.zero,
    ensures
        e.times(e.v(pooled(fpu, sx, sy, n1, n2)[i]), e.minus(e.plus(e.count(n1), e.count(n2)), e.count(2))) == e.plus(
            e.times(e.minus(e.count(n1), e.one), e.v(sx[i])),
            e.times(e.minus(e.count(n2), e.one), e.v(sy[i])),
        ),
{
    lemma_ops(fpu, e);
    lemma_two(fpu, e);
    lemma_count(fpu, e, n1);
    lemma_count(fpu, e, n2);
}

/// A column mean, as often as there are rows, is the sum of the column.
pub proof fn law_mean<F: Fn(FloatOp, Real, Real, Real) -> Real>(fpu: &Fpu<F>, e: Exact, s: Seq<Real>)
    requires
        exact(fpu, e),
        s.len() < 0x20_0000_0000_0000,
        e.count(s.len()) != e.zero,
    ensures
        is_mean(e, s, e.v(mean(fpu, s))),
{
    lemma_ops(fpu, e);
    lemma_count(fpu, e, s.len());
    law_total(fpu, e, s);
}

/// A covariance, times the freedom, is the sum of the products of the
/// deviations of both columns from their means.
pub proof fn law_covariance<F: Fn(FloatOp, Real, Real, Real) -> Real>(
    fpu: &Fpu<F>,
    e: Exact,
    data: Seq<Real>,
    n: nat,
    p: nat,
    a: int,
    b: int,
    ma: int,
    mb: int,
)
    requires
        exact(fpu, e),
        0 <= a < p,
        0 <= b < p,
        2 <= n < 0x20_0000_0000_0000,
        e.count(n) != e.zero,
        e.count((n - 1) as nat) != e.zero,
        !fpu.minus(nat_real(n), one()).nan(),
        !fpu.minus(nat_real(n), one()).below(one()),
        is_mean(e, column(data, n, p, a), ma),
        is_mean(e, column(data, n, p, b), mb),
    ensures
        e.times(e.v(covariance(fpu, data, n, p, a, b)), e.count((n - 1) as nat)) == e.sum(
            |i: int|
                e.times(
                    e.minus(e.v(column(data, n, p, a)[i]), ma),
                    e.minus(e.v(column(data, n, p, b)[i]), mb),
                ),
            0,
            n as int,
        ),
{
    lemma_ops(fpu, e);
    lemma_count(fpu, e, n);
    lemma_minus(e, e.count((n - 1) as nat), e.one);
    assert(e.v(freedom(fpu, n)) == e.count((n - 1) as nat));
    law_mean(fpu, e, column(data, n, p, a));
    law_mean(fpu, e, column(data, n, p, b));
    let c = means(fpu, data, n, p);
    lemma_cancel_factor(e, e.v(c[a]), ma, e.count(n));
    lemma_cancel_factor(e, e.v(c[b]), mb, e.count(n));
    let s = co_deviations(fpu, data, n, p, c, a, b);
    law_total(fpu, e, s);
    lemma_sum_same(
        e,
        e.at(s),
        |i: int|
            e.times(
                e.minus(e.v(column(data, n, p, a)[i]), ma),
                e.minus(e.v(column(data, n, p, b)[i]), mb),
            ),
        0,
        n as int,
    );
}

/// The differences that a paired test is made on: adding the second sample
/// gives the first one back.
pub proof fn law_differences<F: Fn(FloatOp, Real, Real, Real) -> Real>(
    fpu: &Fpu<F>,
    e: Exact,
    a: Seq<Real>,
    b: Seq<Real>,
    i: int,
)
    requires
        exact(fpu, e),
        0 <= i < a.len() == b.len(),
    ensures
        e.plus(e.v(differences(fpu, a, b)[i]), e.v(b[i])) == e.v(a[i]),
{
    lemma_ops(fpu, e);
    lemma_minus(e, e.v(a[i]), e.v(b[i]));
}

// ── The eigenvalue problem ─────────────────────────────────────────────────

/// The matrix handed to the eigenvalue routine: the factor times the solved
/// columns gives `H` back, and the factor times the solved rows gives what they
/// were solved from.
pub proof fn law_solved<F: Fn(FloatOp, Real, Real, Real) -> Real>(
    fpu: &Fpu<F>,
    e: Exact,
    l: Seq<Real>,
    h: Seq<Real>,
    p: nat,
    i: int,
    c: int,
)
    requires
        exact(fpu, e),
        0 <= i < p,
        0 <= c < p,
        pivots_count(e, p as int, l),
    ensures
        e.sum(
            |k: int| e.times(e.v(entry(l, p as int, i, k)), e.v(entry(solved_columns(fpu, l, h, p), p as int, k, c))),
            0,
            i + 1,
        ) == e.v(entry(h, p as int, i, c)),
        e.sum(
            |k: int| e.times(e.v(entry(l, p as int, i, k)), e.v(entry(solved_rows(fpu, l, h, p), p as int, c, k))),
            0,
            i + 1,
        ) == e.v(entry(h, p as int, c, i)),
{
    let b = table_column(h, p, c);
    let x = forward(fpu, p as int, l, b, false, p);
    law_forward(fpu, e, p as int, l, b, false, p, i);
    let f = |k: int| e.times(e.v(entry(l, p as int, i, k)), e.v(entry(solved_columns(fpu, l, h, p), p as int, k, c)));
    assert forall|k: int| 0 <= k < i + 1 implies #[trigger] f(k) == row_term(e, p as int, l, x, i)(k) by {
        lemma_entry(p, p, |i: int, c: int| forward(fpu, p as int, l, table_column(h, p, c), false, p)[i], k, c);
    }
    lemma_sum_same(e, f, row_term(e, p as int, l, x, i), 0, i + 1);
    let r = table_row(h, p, c);
    let y = forward(fpu, p as int, l, r, false, p);
    law_forward(fpu, e, p as int, l, r, false, p, i);
    let g = |k: int| e.times(e.v(entry(l, p as int, i, k)), e.v(entry(solved_rows(fpu, l, h, p), p as int, c, k)));
    assert forall|k: int| 0 <= k < i + 1 implies #[trigger] g(k) == row_term(e, p as int, l, y, i)(k) by {
        lemma_entry(p, p, |r: int, j: int| forward(fpu, p as int, l, table_row(h, p, r), false, p)[j], c, k);
    }
    lemma_sum_same(e, g, row_term(e, p as int, l, y, i), 0, i + 1);
}

/// An entry that was made symmetric is the mean of the two it was made of: a
/// symmetric matrix stays as it is.
pub proof fn law_symmetrized<F: Fn(FloatOp, Real, Real, Real) -> Real>(
    fpu: &Fpu<F>,
    e: Exact,
    b: Seq<Real>,
    p: nat,
    i: int,
    j: int,
)
    requires
        exact(fpu, e),
        0 <= i < p,
        0 <= j < p,
        e.times(e.v(num(HALF_BITS)), e.plus(e.one, e.one)) == e.one,
        e.v(entry(b, p as int, i, j)) == e.v(entry(b, p as int, j, i)),
    ensures
        e.v(entry(symmetrized(fpu, b, p), p as int, i, j)) == e.v(entry(b, p as int, i, j)),
{
    lemma_ops(fpu, e);
    lemma_entry(
        p,
        p,
        |i: int, j: int|
            if i == j {
                entry(b, p as int, i, j)
            } else if i > j {
                fpu.times(fpu.plus(entry(b, p as int, i, j), entry(b, p as int, j, i)), num(HALF_BITS))
            } else {
                fpu.times(fpu.plus(entry(b, p as int, j, i), entry(b, p as int, i, j)), num(HALF_BITS))
            },
        i,
        j,
    );
    let x = e.v(entry(b, p as int, i, j));
    let h = e.v(num(HALF_BITS));
    lemma_nil(e, x);
    lemma_distributes(e, x, e.one, e.one);
    assert(e.plus(x, x) == e.times(x, e.plus(e.one, e.one)));
    lemma_group(e, x, e.plus(e.one, e.one), h);
    lemma_swap(e, e.plus(e.one, e.one), h);
}

/// The matrix whose eigenvalues are taken: the factor, times it, times the
/// factor turned over, is `H`, where what was solved is symmetric.
pub proof fn law_whitened<F: Fn(FloatOp, Real, Real, Real) -> Real>(
    fpu: &Fpu<F>,
    e: Exact,
    l: Seq<Real>,
    h: Seq<Real>,
    p: nat,
    i: int,
    j: int,
)
    requires
        exact(fpu, e),
        0 <= i < p,
        0 <= j < p,
        pivots_count(e, p as int, l),
        e.times(e.v(num(HALF_BITS)), e.plus(e.one, e.one)) == e.one,
        forall|a: int, b: int|
            0 <= a < p && 0 <= b < p ==> e.v(
                #[trigger] entry(solved_rows(fpu, l, solved_columns(fpu, l, h, p), p), p as int, a, b),
            ) == e.v(entry(solved_rows(fpu, l, solved_columns(fpu, l, h, p), p), p as int, b, a)),
    ensures
        e.sum(
            |k: int|
                e.times(
                    e.v(entry(l, p as int, i, k)),
                    e.sum(
                        |m: int| e.times(e.v(entry(l, p as int, j, m)), e.v(entry(whitened(fpu, l, h, p), p as int, k, m))),
                        0,
                        j + 1,
                    ),
                ),
            0,
            i + 1,
        ) == e.v(entry(h, p as int, i, j)),
{
    let n = p as int;
    let x = solved_columns(fpu, l, h, p);
    let b = solved_rows(fpu, l, x, p);
    let w = whitened(fpu, l, h, p);
    law_solved(fpu, e, l, h, p, i, j);
    let f = |k: int|
        e.times(
            e.v(entry(l, n, i, k)),
            e.sum(|m: int| e.times(e.v(entry(l, n, j, m)), e.v(entry(w, n, k, m))), 0, j + 1),
        );
    let g = |k: int| e.times(e.v(entry(l, n, i, k)), e.v(entry(x, n, k, j)));
    assert forall|k: int| 0 <= k < i + 1 implies #[trigger] f(k) == g(k) by {
        law_solved(fpu, e, l, x, p, j, k);
        let u = |m: int| e.times(e.v(entry(l, n, j, m)), e.v(entry(w, n, k, m)));
        let v = |m: int| e.times(e.v(entry(l, n, j, m)), e.v(entry(b, n, k, m)));
        assert forall|m: int| 0 <= m < j + 1 implies #[trigger] u(m) == v(m) by {
            assert(e.v(entry(b, n, k, m)) == e.v(entry(b, n, m, k)));
            law_symmetrized(fpu, e, b, p, k, m);
        }
        lemma_sum_same(e, u, v, 0, j + 1);
    }
    lemma_sum_same(e, f, g, 0, i + 1);
}

} // verus!
