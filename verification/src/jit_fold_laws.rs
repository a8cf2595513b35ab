//! What the compiled reductions and vector operations compute.
use crate::double::{FloatOp, Fpu, Real, one, zero};
use crate::exact::{Exact, exact, law_product, law_total, lemma_count, lemma_ops};
use crate::jit::{Reduction, op_fun, reduced, reduction_named};
use crate::jit_ir::{Arith, BinOp, Fun, binary_value};
use crate::jit_laws::fold_rows;
use crate::jit_lower::{FusedReduceOp, identity};
use crate::jit_meaning::{machine_exact, on_two};
use vstd::prelude::*;

verus! {

/// The function that a vector operation runs is the one that its operator
/// means on single numbers.
pub proof fn law_vector_operators(op: BinOp, a: Real, b: Real, arith: Arith)
    requires
        op_fun(op) is Some,
    ensures
        binary_value(op, a, b, arith) == Some(arith(op_fun(op)->0, seq![a, b])),
        op is Add || op is Sub || op is Mul || op is Div,
{
}

/// The results that there are, in order.
pub open spec fn results(res: Seq<Option<Real>>, n: nat) -> Seq<Real>
    decreases n,
{
    if n == 0 {
        Seq::empty()
    } else {
        match res[n - 1] {
            Some(x) => results(res, (n - 1) as nat).push(x),
            None => results(res, (n - 1) as nat),
        }
    }
}

/// A fused reduction: the sum of the results of all rows, or their product.
pub proof fn law_fused_reduction(e: Exact, res: Seq<Option<Real>>, n: nat, arith: Arith)
    requires
        e.field(),
        machine_exact(e, arith),
        e.v(zero()) == e.zero,
        e.v(one()) == e.one,
    ensures
        e.v(fold_rows(FusedReduceOp::Sum, res, n, arith)) == e.sum(
            e.at(results(res, n)),
            0,
            results(res, n).len() as int,
        ),
        e.v(fold_rows(FusedReduceOp::Prod, res, n, arith)) == e.product(
            e.at(results(res, n)),
            0,
            results(res, n).len() as int,
        ),
    decreases n,
{
    let s = results(res, n);
    if n > 0 {
        let m = (n - 1) as nat;
        law_fused_reduction(e, res, m, arith);
        let t = results(res, m);
        match res[n - 1] {
            Some(x) => {
                let a = fold_rows(FusedReduceOp::Sum, res, m, arith);
                let p = fold_rows(FusedReduceOp::Prod, res, m, arith);
                assert(e.v(on_two(arith, Fun::Add, a, x)) == e.plus(e.v(a), e.v(x)));
                assert(e.v(on_two(arith, Fun::Mul, p, x)) == e.times(e.v(p), e.v(x)));
                crate::exact::lemma_sum_same(e, e.at(t), e.at(s), 0, t.len() as int);
                crate::exact::lemma_product_same(e, e.at(t), e.at(s), 0, t.len() as int);
            },
            None => {},
        }
    } else {
        assert(identity(FusedReduceOp::Sum) == zero());
        assert(identity(FusedReduceOp::Prod) == one());
    }
}

/// The reductions of a vector: the sum, the product, how many numbers there
/// are, and a mean that as often makes the sum.
pub proof fn law_reductions<F: Fn(FloatOp, Real, Real, Real) -> Real>(fpu: &Fpu<F>, e: Exact, x: Seq<Real>)
    requires
        exact(fpu, e),
        x.len() < 0x20_0000_0000_0000,
    ensures
        e.v(reduced(fpu, Reduction::Sum, x)) == e.sum(e.at(x), 0, x.len() as int),
        e.v(reduced(fpu, Reduction::Prod, x)) == e.product(e.at(x), 0, x.len() as int),
        e.v(reduced(fpu, Reduction::Length, x)) == e.count(x.len()),
        x.len() > 0 && e.count(x.len()) != e.zero ==> e.times(e.v(reduced(fpu, Reduction::Mean, x)), e.count(x.len()))
            == e.sum(e.at(x), 0, x.len() as int),
        x.len() == 0 ==> reduced(fpu, Reduction::Mean, x).nan(),
        reduction_named("sum"@) == Some(Reduction::Sum),
{
    lemma_ops(fpu, e);
    lemma_count(fpu, e, x.len());
    law_total(fpu, e, x);
    law_product(fpu, e, x);
}

} // verus!
