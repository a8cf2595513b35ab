//! What the tests of mean vectors report, from the data to the statistic, in
//! exact arithmetic.
use crate::double::{FloatOp, Fpu, Real, one};
use crate::exact::{Exact, exact};
use crate::linalg::LinalgError;
use crate::linalg_solve::Lu;
use crate::stats_hotelling::{
    differences, null_mean, one_fault, one_sample_report, one_sample_result, paired_data, paired_fault,
    paired_sample_result, pooled, two_fault, two_sample_report, two_sample_result,
};
use crate::stats_laws::{field_is, law_differences, law_one_sample, law_two_sample};
use crate::stats_matrix::{column_count, covariances, means, quad_inverse, row_count, row_data};
use crate::stats_variance_laws::{factors_exactly, law_quadratic_inverse, solved_by};
use crate::value::{EvalArg, R2Err, RVal, nth};
use vstd::prelude::*;

verus! {

/// The distances `d` and a solution `w` of the system with the matrix `s` and
/// `d` on the right make `q`.
pub open spec fn form_of(e: Exact, p: int, s: Seq<Real>, d: Seq<Real>, q: int) -> bool {
    exists|w: spec_fn(int) -> int| #[trigger]
        solved_by(e, p, s, d, w) && q == e.sum(|a: int| e.times(e.v(d[a]), w(a)), 0, p)
}

/// The one-sample test: with `d` such that `d` and the null mean make the means
/// of the columns, T-squared is the rows times the form of `d` with the
/// covariances.
pub proof fn law_one_sample_test<
    F: Fn(FloatOp, Real, Real, Real) -> Real,
    G: Fn(usize, &[Real]) -> Result<Lu, LinalgError>,
>(fpu: &Fpu<F>, e: Exact, factor: G, a: Seq<EvalArg>, r: Result<RVal, R2Err>)
    requires
        exact(fpu, e),
        one_fault(a) is None,
        one_sample_result(fpu, factor, a, r),
        r is Ok,
        0 < column_count(nth(a, 0)) < row_count(nth(a, 0)) < 0x20_0000_0000_0000,
        column_count(nth(a, 0)) <= usize::MAX,
        null_mean(a, column_count(nth(a, 0))).len() == column_count(nth(a, 0)),
        e.count(column_count(nth(a, 0))) != e.zero,
        e.count((row_count(nth(a, 0)) - 1) as nat) != e.zero,
        factors_exactly(
            e,
            factor,
            column_count(nth(a, 0)) as usize,
            covariances(fpu, row_data(nth(a, 0)), row_count(nth(a, 0)), column_count(nth(a, 0))),
        ),
    ensures
        ({
            let x = nth(a, 0);
            let n = row_count(x);
            let p = column_count(x);
            let s = covariances(fpu, row_data(x), n, p);
            exists|t2: Real, d: Seq<Real>, q: int| #[trigger]
                field_is(r->Ok_0.deep(), 1, "statistic.t2"@, t2) && #[trigger] form_of(e, p as int, s, d, q) && d.len() == p
                    && e.v(t2) == e.times(e.count(n), q) && forall|j: int|
                    0 <= j < p ==> e.plus(e.v(#[trigger] d[j]), e.v(null_mean(a, p)[j])) == e.v(
                        means(fpu, row_data(x), n, p)[j],
                    )
        }),
{
    let x = nth(a, 0);
    let n = row_count(x);
    let p = column_count(x);
    let s = covariances(fpu, row_data(x), n, p);
    let m = means(fpu, row_data(x), n, p);
    let mu = null_mean(a, p);
    let d = differences(fpu, m, mu);
    let q = choose|q: Result<Real, R2Err>| #[trigger]
        quad_inverse(fpu, factor, d, s, p as usize, q) && match q {
            Err(e) => crate::stats_matrix::failed(r, (e.kind, e.msg@)),
            Ok(v) => r is Ok && r->Ok_0.deep() == one_sample_report(
                fpu,
                "Hotelling one-sample T\u{b2}"@,
                v,
                n,
                p as usize as nat,
            ),
        };
    assert(q is Ok);
    law_quadratic_inverse(fpu, e, factor, d, s, p as usize, q);
    law_one_sample(fpu, e, "Hotelling one-sample T\u{b2}"@, q->Ok_0, n, p);
    assert(form_of(e, p as int, s, d, e.v(q->Ok_0)));
    assert forall|j: int| 0 <= j < p implies e.plus(e.v(#[trigger] d[j]), e.v(mu[j])) == e.v(m[j]) by {
        law_differences(fpu, e, m, mu, j);
    }
}

/// The two-sample test: with `d` such that `d` and the means of the second
/// sample make those of the first, T-squared times the rows of both is the
/// product of their rows times the form of `d` with the pooled covariances.
pub proof fn law_two_sample_test<
    F: Fn(FloatOp, Real, Real, Real) -> Real,
    G: Fn(usize, &[Real]) -> Result<Lu, LinalgError>,
>(fpu: &Fpu<F>, e: Exact, factor: G, a: Seq<EvalArg>, r: Result<RVal, R2Err>)
    requires
        exact(fpu, e),
        two_fault(nth(a, 0), nth(a, 1)) is None,
        two_sample_result(fpu, factor, a, r),
        r is Ok,
        0 < column_count(nth(a, 0)) <= usize::MAX,
        column_count(nth(a, 0)) + 1 < row_count(nth(a, 0)) + row_count(nth(a, 1)) < 0x20_0000_0000_0000,
        e.plus(e.count(row_count(nth(a, 0))), e.count(row_count(nth(a, 1)))) != e.zero,
        e.times(
            e.count(column_count(nth(a, 0))),
            e.minus(e.plus(e.count(row_count(nth(a, 0))), e.count(row_count(nth(a, 1)))), e.count(2)),
        ) != e.zero,
        factors_exactly(
            e,
            factor,
            column_count(nth(a, 0)) as usize,
            pooled(
                fpu,
                covariances(fpu, row_data(nth(a, 0)), row_count(nth(a, 0)), column_count(nth(a, 0))),
                covariances(fpu, row_data(nth(a, 1)), row_count(nth(a, 1)), column_count(nth(a, 0))),
                row_count(nth(a, 0)),
                row_count(nth(a, 1)),
            ),
        ),
    ensures
        ({
            let x = nth(a, 0);
            let y = nth(a, 1);
            let (n1, n2) = (row_count(x), row_count(y));
            let p = column_count(x);
            let s = pooled(
                fpu,
                covariances(fpu, row_data(x), n1, p),
                covariances(fpu, row_data(y), n2, p),
                n1,
                n2,
            );
            exists|t2: Real, d: Seq<Real>, q: int| #[trigger]
                field_is(r->Ok_0.deep(), 1, "statistic.t2"@, t2) && #[trigger] form_of(e, p as int, s, d, q) && d.len() == p
                    && e.times(e.v(t2), e.plus(e.count(n1), e.count(n2))) == e.times(e.times(e.count(n1), e.count(n2)), q)
                    && forall|j: int|
                    0 <= j < p ==> e.plus(e.v(#[trigger] d[j]), e.v(means(fpu, row_data(y), n2, p)[j])) == e.v(
                        means(fpu, row_data(x), n1, p)[j],
                    )
        }),
{
    let x = nth(a, 0);
    let y = nth(a, 1);
    let (n1, n2) = (row_count(x), row_count(y));
    let p = column_count(x);
    let s = pooled(fpu, covariances(fpu, row_data(x), n1, p), covariances(fpu, row_data(y), n2, p), n1, n2);
    let m1 = means(fpu, row_data(x), n1, p);
    let m2 = means(fpu, row_data(y), n2, p);
    let d = differences(fpu, m1, m2);
    let q = choose|q: Result<Real, R2Err>| #[trigger]
        quad_inverse(fpu, factor, d, s, p as usize, q) && match q {
            Err(e) => crate::stats_matrix::failed(r, (e.kind, e.msg@)),
            Ok(v) => r is Ok && r->Ok_0.deep() == two_sample_report(fpu, v, n1, n2, p as usize as nat),
        };
    assert(q is Ok);
    law_quadratic_inverse(fpu, e, factor, d, s, p as usize, q);
    law_two_sample(fpu, e, q->Ok_0, n1, n2, p);
    assert(form_of(e, p as int, s, d, e.v(q->Ok_0)));
    assert forall|j: int| 0 <= j < p implies e.plus(e.v(#[trigger] d[j]), e.v(m2[j])) == e.v(m1[j]) by {
        law_differences(fpu, e, m1, m2, j);
    }
}

/// The paired test: a one-sample test of the differences of the two samples,
/// row by row, against zero.
pub proof fn law_paired_test<
    F: Fn(FloatOp, Real, Real, Real) -> Real,
    G: Fn(usize, &[Real]) -> Result<Lu, LinalgError>,
>(fpu: &Fpu<F>, e: Exact, factor: G, a: Seq<EvalArg>, r: Result<RVal, R2Err>, k: int)
    requires
        exact(fpu, e),
        paired_fault(nth(a, 0), nth(a, 1)) is None,
        paired_sample_result(fpu, factor, a, r),
        r is Ok,
        0 < column_count(nth(a, 0)) < row_count(nth(a, 0)) < 0x20_0000_0000_0000,
        column_count(nth(a, 0)) <= usize::MAX,
        0 <= k < row_data(nth(a, 0)).len() == row_data(nth(a, 1)).len(),
        e.count(column_count(nth(a, 0))) != e.zero,
        e.count((row_count(nth(a, 0)) - 1) as nat) != e.zero,
        factors_exactly(
            e,
            factor,
            column_count(nth(a, 0)) as usize,
            covariances(
                fpu,
                paired_data(fpu, row_data(nth(a, 0)), row_data(nth(a, 1))),
                row_count(nth(a, 0)),
                column_count(nth(a, 0)),
            ),
        ),
    ensures
        ({
            let x = nth(a, 0);
            let n = row_count(x);
            let p = column_count(x);
            let d = paired_data(fpu, row_data(x), row_data(nth(a, 1)));
            &&& e.plus(e.v(d[k]), e.v(row_data(nth(a, 1))[k])) == e.v(row_data(x)[k])
            &&& exists|t2: Real, q: int| #[trigger]
                field_is(r->Ok_0.deep(), 1, "statistic.t2"@, t2) && #[trigger] form_of(
                    e,
                    p as int,
                    covariances(fpu, d, n, p),
                    means(fpu, d, n, p),
                    q,
                ) && e.v(t2) == e.times(e.count(n), q)
        }),
{
    let x = nth(a, 0);
    let n = row_count(x);
    let p = column_count(x);
    let d = paired_data(fpu, row_data(x), row_data(nth(a, 1)));
    let s = covariances(fpu, d, n, p);
    let m = means(fpu, d, n, p);
    law_differences(fpu, e, row_data(x), row_data(nth(a, 1)), k);
    let q = choose|q: Result<Real, R2Err>| #[trigger]
        quad_inverse(fpu, factor, m, s, p as usize, q) && match q {
            Err(e) => crate::stats_matrix::failed(r, (e.kind, e.msg@)),
            Ok(v) => r is Ok && r->Ok_0.deep() == one_sample_report(
                fpu,
                "Hotelling paired T\u{b2} (multivariate)"@,
                v,
                n,
                p as usize as nat,
            ),
        };
    assert(q is Ok);
    law_quadratic_inverse(fpu, e, factor, m, s, p as usize, q);
    law_one_sample(fpu, e, "Hotelling paired T\u{b2} (multivariate)"@, q->Ok_0, n, p);
    assert(form_of(e, p as int, s, m, e.v(q->Ok_0)));
}

} // verus!
