//! What the specialisations of a closure compute is what its body says.
use crate::double::Real;
use crate::jit::{
    BodyV, Closure, Expr, JitKind, Plan, Reduction, fold_plan, is_symbol, on_params, one_arg_call, reduction_named,
    reduction_plans, with_literal,
};
use crate::jit_ir::{Arith, Fun, binary_value};
use crate::jit_lower::FusedReduceOp;
use crate::jit_meaning::on_two;
use vstd::prelude::*;

verus! {

/// The value of an expression whose names stand for numbers; none where it is
/// more than names, numbers and operators.
pub open spec fn expr_value(e: Expr, names: spec_fn(Seq<char>) -> Option<Real>, arith: Arith) -> Option<Real>
    decreases e,
{
    match e {
        Expr::Symbol(s) => names(s@),
        Expr::NumLit(k) => Some(k),
        Expr::Binary { op, lhs, rhs } => match (expr_value(*lhs, names, arith), expr_value(*rhs, names, arith)) {
            (Some(a), Some(b)) => binary_value(op, a, b, arith),
            _ => None,
        },
        _ => None,
    }
}

/// One name that stands for a number.
pub open spec fn one_name(v: Seq<char>, x: Real) -> spec_fn(Seq<char>) -> Option<Real> {
    |s: Seq<char>|
        if s == v {
            Some(x)
        } else {
            None
        }
}

/// Two names that stand for numbers.
pub open spec fn two_names(v: Seq<char>, x: Real, w: Seq<char>, y: Real) -> spec_fn(Seq<char>) -> Option<Real> {
    |s: Seq<char>|
        if s == v {
            Some(x)
        } else if s == w {
            Some(y)
        } else {
            None
        }
}

/// Sums and products do not depend on the order of their operands.
pub open spec fn machine_commutes(arith: Arith) -> bool {
    &&& forall|a: Real, b: Real| #[trigger] on_two(arith, Fun::Add, a, b) == on_two(arith, Fun::Add, b, a)
    &&& forall|a: Real, b: Real| #[trigger] on_two(arith, Fun::Mul, a, b) == on_two(arith, Fun::Mul, b, a)
}

/// A body that combines its parameter with a number: what the operator makes of
/// the parameter and the number, in this order, is what the body says, on
/// whichever side the number stands.
pub proof fn law_with_literal(e: Expr, v: Seq<char>, x: Real, arith: Arith)
    requires
        machine_commutes(arith),
        with_literal(e, v) is Some,
    ensures
        ({
            let (op, k) = with_literal(e, v)->0;
            expr_value(e, one_name(v, x), arith) == binary_value(op, x, k, arith)
        }),
{
    let (op, k) = with_literal(e, v)->0;
    reveal_with_fuel(expr_value, 3);
    assert(on_two(arith, Fun::Add, k, x) == on_two(arith, Fun::Add, x, k));
    assert(on_two(arith, Fun::Mul, k, x) == on_two(arith, Fun::Mul, x, k));
}

/// A body that combines its two parameters: the first one is the left operand.
pub proof fn law_on_params(e: Expr, a: Seq<char>, b: Seq<char>, x: Real, y: Real, arith: Arith)
    requires
        a != b,
        on_params(e, a, b) is Some,
    ensures
        expr_value(e, two_names(a, x, b, y), arith) == binary_value(on_params(e, a, b)->0, x, y, arith),
{
    reveal_with_fuel(expr_value, 3);
}

/// A call of a reduction on the parameter has that reduction among its plans,
/// and `sum` or `prod` of a compiled inner function the loop that sums or
/// multiplies.
pub proof fn law_reduction_plans(c: Closure, k: Reduction)
    requires
        one_arg_call(c.body) is Some,
        reduction_named((one_arg_call(c.body)->0).0) == Some(k),
    ensures
        is_symbol((one_arg_call(c.body)->0).1, c.params@[0].name@) ==> reduction_plans(c).contains(
            (Plan { body: BodyV::Reduction(k), arity: 1, kind: JitKind::Vector1ToScalar }),
        ),
        k is Sum && c.inner_ir is Some && fold_plan(c.inner_ir->0, FusedReduceOp::Sum) is Ok ==> reduction_plans(c).contains(
            fold_plan(c.inner_ir->0, FusedReduceOp::Sum)->Ok_0,
        ),
        k is Prod && c.inner_ir is Some && fold_plan(c.inner_ir->0, FusedReduceOp::Prod) is Ok ==> reduction_plans(
            c,
        ).contains(fold_plan(c.inner_ir->0, FusedReduceOp::Prod)->Ok_0),
        k is Mean || k is Length ==> reduction_plans(c).len() <= 1,
{
    let s = reduction_plans(c);
    if is_symbol((one_arg_call(c.body)->0).1, c.params@[0].name@) {
        assert(s[0] == (Plan { body: BodyV::Reduction(k), arity: 1, kind: JitKind::Vector1ToScalar }));
    }
    if s.len() > 0 {
        assert(s.contains(s[s.len() - 1]));
    }
}

} // verus!
