//! What the operators of the intermediate form mean, said of the order and the
//! signs of the doubles themselves.
use crate::double::{Real, one, zero};
use crate::exact::Exact;
use crate::jit_ir::{
    Arith, BinOp, Fun, IrFunc, IrInst, IrNext, IrState, IrTerm, UnOp, VReg, binary_value, call_value, follow, inst_dst,
    inst_value, ir_step, phi_count, run_insts, table_arity, table_index, table_names, unary_value,
};
use vstd::prelude::*;

verus! {

/// One for yes, zero for no.
pub open spec fn verdict(b: bool) -> Option<Real> {
    if b {
        Some(one())
    } else {
        Some(zero())
    }
}

/// Comparisons follow the order of the doubles: `a <= b` is one exactly where
/// `a` does not come after `b`, and so with the others. With a NaN nothing
/// holds but `!=`.
pub proof fn law_comparisons(a: Real, b: Real, arith: Arith)
    ensures
        !a.nan() && !b.nan() ==> {
            &&& binary_value(BinOp::Lt, a, b, arith) == verdict(a.key() < b.key())
            &&& binary_value(BinOp::Le, a, b, arith) == verdict(a.key() <= b.key())
            &&& binary_value(BinOp::Gt, a, b, arith) == verdict(b.key() < a.key())
            &&& binary_value(BinOp::Ge, a, b, arith) == verdict(b.key() <= a.key())
            &&& binary_value(BinOp::Eq, a, b, arith) == verdict(a.key() == b.key())
            &&& binary_value(BinOp::Ne, a, b, arith) == verdict(a.key() != b.key())
        },
        a.nan() || b.nan() ==> {
            &&& binary_value(BinOp::Lt, a, b, arith) == verdict(false)
            &&& binary_value(BinOp::Le, a, b, arith) == verdict(false)
            &&& binary_value(BinOp::Gt, a, b, arith) == verdict(false)
            &&& binary_value(BinOp::Ge, a, b, arith) == verdict(false)
            &&& binary_value(BinOp::Eq, a, b, arith) == verdict(false)
            &&& binary_value(BinOp::Ne, a, b, arith) == verdict(true)
        },
{
}

/// How comparisons hang together: `a <= b` is `a < b` or `a == b`, `a >= b` is
/// `b <= a`, `a > b` is `b < a`, and `a != b` is the opposite of `a == b`.
pub proof fn law_comparisons_agree(a: Real, b: Real, arith: Arith)
    ensures
        (binary_value(BinOp::Le, a, b, arith) == Some(one())) == (binary_value(BinOp::Lt, a, b, arith) == Some(one())
            || binary_value(BinOp::Eq, a, b, arith) == Some(one())),
        binary_value(BinOp::Ge, a, b, arith) == binary_value(BinOp::Le, b, a, arith),
        binary_value(BinOp::Gt, a, b, arith) == binary_value(BinOp::Lt, b, a, arith),
        (binary_value(BinOp::Ne, a, b, arith) == Some(one())) == (binary_value(BinOp::Eq, a, b, arith) == Some(zero())),
        !(binary_value(BinOp::Lt, a, b, arith) == Some(one()) && binary_value(BinOp::Gt, a, b, arith) == Some(one())),
{
    law_comparisons(a, b, arith);
    law_comparisons(b, a, arith);
}

/// What the machine makes of one operand.
pub open spec fn on_one(arith: Arith, f: Fun, x: Real) -> Real {
    arith(f, seq![x])
}

/// What the machine makes of two operands.
pub open spec fn on_two(arith: Arith, f: Fun, x: Real, y: Real) -> Real {
    arith(f, seq![x, y])
}

/// The machine's instructions compute in a field.
pub open spec fn machine_exact(e: Exact, arith: Arith) -> bool {
    &&& forall|a: Real, b: Real| e.v(#[trigger] on_two(arith, Fun::Add, a, b)) == e.plus(e.v(a), e.v(b))
    &&& forall|a: Real, b: Real| e.v(#[trigger] on_two(arith, Fun::Sub, a, b)) == e.minus(e.v(a), e.v(b))
    &&& forall|a: Real, b: Real| e.v(#[trigger] on_two(arith, Fun::Mul, a, b)) == e.times(e.v(a), e.v(b))
    &&& forall|a: Real, b: Real|
        e.v(b) != e.zero ==> e.times(e.v(#[trigger] on_two(arith, Fun::Div, a, b)), e.v(b)) == e.v(a)
}

/// Arithmetic operators compute the sum, the difference, the product and the
/// quotient: adding `b` undoes taking it away, and multiplying by it undoes
/// dividing.
pub proof fn law_arithmetic(e: Exact, a: Real, b: Real, arith: Arith)
    requires
        e.field(),
        machine_exact(e, arith),
    ensures
        binary_value(BinOp::Add, a, b, arith) is Some,
        e.v(binary_value(BinOp::Add, a, b, arith)->0) == e.plus(e.v(a), e.v(b)),
        e.v(binary_value(BinOp::Mul, a, b, arith)->0) == e.times(e.v(a), e.v(b)),
        e.v(binary_value(BinOp::Add, binary_value(BinOp::Sub, a, b, arith)->0, b, arith)->0) == e.v(a),
        e.v(b) != e.zero ==> e.v(
            binary_value(BinOp::Mul, binary_value(BinOp::Div, a, b, arith)->0, b, arith)->0,
        ) == e.v(a),
{
    let d = on_two(arith, Fun::Sub, a, b);
    let q = on_two(arith, Fun::Div, a, b);
    assert(e.v(on_two(arith, Fun::Add, d, b)) == e.plus(e.v(d), e.v(b)));
    assert(e.v(on_two(arith, Fun::Mul, q, b)) == e.times(e.v(q), e.v(b)));
    assert(e.v(on_two(arith, Fun::Add, a, b)) == e.plus(e.v(a), e.v(b)));
    assert(e.v(on_two(arith, Fun::Mul, a, b)) == e.times(e.v(a), e.v(b)));
    crate::exact::lemma_minus(e, e.v(a), e.v(b));
}

/// The sign changes, stays, or is asked for: minus turns the order round and
/// undoes itself, plus does nothing, and not gives one for a zero alone.
pub proof fn law_signs(a: Real)
    ensures
        unary_value(UnOp::Neg, a).key() == -a.key(),
        unary_value(UnOp::Neg, a).nan() == a.nan(),
        unary_value(UnOp::Neg, unary_value(UnOp::Neg, a)) == a,
        unary_value(UnOp::Pos, a) == a,
        Some(unary_value(UnOp::Not, a)) == verdict(!a.nan() && a.key() == 0),
{
}

/// The machine's rounding rounds, and its extremes are extreme.
pub open spec fn machine_rounds(arith: Arith) -> bool {
    forall|x: Real| !x.nan() ==> {
        &&& (#[trigger] on_one(arith, Fun::Floor, x)).key() <= x.key()
        &&& on_one(arith, Fun::Ceil, x).key() >= x.key()
    }
}

pub open spec fn machine_extremes(arith: Arith) -> bool {
    forall|x: Real, y: Real| !x.nan() && !y.nan() ==> {
        &&& (#[trigger] on_two(arith, Fun::Min, x, y)).key() <= x.key()
        &&& on_two(arith, Fun::Min, x, y).key() <= y.key()
        &&& on_two(arith, Fun::Max, x, y).key() >= x.key()
        &&& on_two(arith, Fun::Max, x, y).key() >= y.key()
    }
}

/// Calls of the mathematical functions that the machine has do what their
/// names say: `floor` comes out at most at its argument and `ceil` at least,
/// `min` at most at both and `max` at least, and `abs` drops the sign.
pub proof fn law_calls(x: Real, y: Real, arith: Arith)
    requires
        machine_rounds(arith),
        machine_extremes(arith),
        !x.nan(),
        !y.nan(),
    ensures
        call_value("floor"@, seq![x], arith) is Some,
        call_value("ceil"@, seq![x], arith) is Some,
        call_value("abs"@, seq![x], arith) is Some,
        call_value("min"@, seq![x, y], arith) is Some,
        call_value("max"@, seq![x, y], arith) is Some,
        (call_value("floor"@, seq![x], arith)->0).key() <= x.key(),
        (call_value("ceil"@, seq![x], arith)->0).key() >= x.key(),
        (call_value("abs"@, seq![x], arith)->0).key() == if x.key() < 0 {
            -x.key()
        } else {
            x.key()
        },
        (call_value("min"@, seq![x, y], arith)->0).key() <= x.key(),
        (call_value("min"@, seq![x, y], arith)->0).key() <= y.key(),
        (call_value("max"@, seq![x, y], arith)->0).key() >= x.key(),
        (call_value("max"@, seq![x, y], arith)->0).key() >= y.key(),
{
    lemma_names();
    assert(on_one(arith, Fun::Floor, x).key() <= x.key());
    assert(on_two(arith, Fun::Min, x, y).key() <= x.key());
}

/// The square root of `x`, the power `x ^ y` and the other functions of the
/// table go to the routine that stands at their name's place.
pub proof fn law_table(name: Seq<char>, args: Seq<Real>, arith: Arith)
    requires
        name == "exp"@ || name == "log"@ || name == "sin"@ || name == "cos"@,
        args.len() == 1,
    ensures
        call_value("sqrt"@, args, arith) == Some(arith(Fun::Sqrt, args)),
        call_value("trunc"@, args, arith) == Some(arith(Fun::Trunc, args)),
        call_value("round"@, args, arith) == Some(arith(Fun::Nearest, args)),
        call_value(name, args, arith) == Some(
            arith(
                Fun::Table(
                    if name == "exp"@ {
                        2
                    } else if name == "log"@ {
                        3
                    } else if name == "sin"@ {
                        6
                    } else {
                        7
                    },
                ),
                args,
            ),
        ),
{
    lemma_first_letters();
    reveal_with_fuel(table_index, 9);
    assert(table_index(name, 8) is Some);
    lemma_table_grows(name, 8, 24);
}

/// A name that was found stays found where it was.
proof fn lemma_table_grows(name: Seq<char>, k: nat, m: nat)
    requires
        k <= m,
        table_index(name, k) is Some,
    ensures
        table_index(name, m) == table_index(name, k),
    decreases m,
{
    if k < m {
        lemma_table_grows(name, k, (m - 1) as nat);
    }
}

proof fn lemma_first_letters()
    ensures
        "exp"@.len() == 3 && "exp"@[0] == 'e',
        "log"@.len() == 3 && "log"@[0] == 'l',
        "sin"@.len() == 3 && "sin"@[0] == 's' && "sin"@[1] == 'i',
        "cos"@.len() == 3 && "cos"@[0] == 'c',
        "sqrt"@.len() == 4 && "sqrt"@[0] == 's',
        "abs"@.len() == 3 && "abs"@[0] == 'a',
        "log2"@.len() == 4,
        "log10"@.len() == 5,
        "floor"@.len() == 5 && "floor"@[0] == 'f',
        "ceil"@.len() == 4 && "ceil"@[0] == 'c',
        "trunc"@.len() == 5 && "trunc"@[0] == 't',
        "round"@.len() == 5 && "round"@[0] == 'r',
{
    reveal_strlit("exp");
    reveal_strlit("log");
    reveal_strlit("sin");
    reveal_strlit("cos");
    reveal_strlit("sqrt");
    reveal_strlit("abs");
    reveal_strlit("log2");
    reveal_strlit("log10");
    reveal_strlit("floor");
    reveal_strlit("ceil");
    reveal_strlit("trunc");
    reveal_strlit("round");
}

/// A branch goes to its first block where the condition is not zero, and to its
/// second where it is; a return hands out the register that it names.
pub proof fn law_control(f: IrFunc, s: IrState, env: Map<u32, Real>, arith: Arith)
    requires
        ({
            let insts = f.blocks@[s.block].insts@;
            run_insts(insts, (insts.len() - phi_count(insts)) as nat, s.env, arith) == Some(env)
        }),
    ensures
        f.blocks@[s.block].term matches IrTerm::Branch { cond, yes, no } ==> env.contains_key(cond.n) ==> {
            &&& env[cond.n] == one() ==> ir_step(f, s, arith) == follow(f, f.blocks@[s.block].id, yes, env)
            &&& env[cond.n] == zero() ==> ir_step(f, s, arith) == follow(f, f.blocks@[s.block].id, no, env)
            &&& !env[cond.n].nan() && env[cond.n].key() != 0 ==> ir_step(f, s, arith) == follow(
                f,
                f.blocks@[s.block].id,
                yes,
                env,
            )
        },
        f.blocks@[s.block].term matches IrTerm::Return(Some(r)) ==> env.contains_key(r.n) ==> ir_step(f, s, arith)
            == IrNext::Done(Some(env[r.n])),
{
}

/// The operands of an instruction are the registers that it names, the first
/// one first, and the result goes to its destination alone.
pub proof fn law_operands(op: BinOp, d: VReg, a: VReg, b: VReg, env: Map<u32, Real>, arith: Arith)
    requires
        env.contains_key(a.n),
        env.contains_key(b.n),
    ensures
        inst_value(IrInst::Binary { dst: d, op, lhs: a, rhs: b }, env, arith) == binary_value(
            op,
            env[a.n],
            env[b.n],
            arith,
        ),
        inst_dst(IrInst::Binary { dst: d, op, lhs: a, rhs: b }) == d,
{
}

proof fn lemma_names()
    ensures
        "floor"@ != "ceil"@,
        "floor"@ != "sqrt"@,
        "ceil"@ != "sqrt"@,
        "abs"@ != "sqrt"@,
        "abs"@ != "floor"@,
        "abs"@ != "ceil"@,
        "abs"@ != "trunc"@,
        "abs"@ != "round"@,
        "min"@ != "max"@,
{
    reveal_strlit("floor");
    reveal_strlit("ceil");
    reveal_strlit("sqrt");
    reveal_strlit("abs");
    reveal_strlit("trunc");
    reveal_strlit("round");
    reveal_strlit("min");
    reveal_strlit("max");
    assert("floor"@[0] != "ceil"@[0]);
    assert("floor"@[0] != "sqrt"@[0]);
    assert("ceil"@[0] != "sqrt"@[0]);
    assert("abs"@[0] != "sqrt"@[0]);
    assert("abs"@[0] != "floor"@[0]);
    assert("abs"@[0] != "ceil"@[0]);
    assert("abs"@[0] != "trunc"@[0]);
    assert("abs"@[0] != "round"@[0]);
    assert("min"@[1] != "max"@[1]);
}

/// The power is the function in the table that goes by its sign, of two
/// operands; remainders, whole quotients and logical operators have no value.
pub proof fn law_power(a: Real, b: Real, i: int, arith: Arith)
    requires
        0 <= i < 24,
        table_names()[i] == "^"@,
    ensures
        binary_value(BinOp::Pow, a, b, arith) == Some(on_two(arith, Fun::Table(i as u8), a, b)),
        table_arity(i) == 2,
        binary_value(BinOp::Mod, a, b, arith) is None,
        binary_value(BinOp::IntDiv, a, b, arith) is None,
        binary_value(BinOp::And, a, b, arith) is None,
        binary_value(BinOp::Or, a, b, arith) is None,
{
    reveal_strlit("sqrt");
    reveal_strlit("abs");
    reveal_strlit("exp");
    reveal_strlit("log");
    reveal_strlit("log2");
    reveal_strlit("log10");
    reveal_strlit("sin");
    reveal_strlit("cos");
    reveal_strlit("tan");
    reveal_strlit("asin");
    reveal_strlit("acos");
    reveal_strlit("atan");
    reveal_strlit("sinh");
    reveal_strlit("cosh");
    reveal_strlit("tanh");
    reveal_strlit("floor");
    reveal_strlit("ceil");
    reveal_strlit("round");
    reveal_strlit("trunc");
    reveal_strlit("sign");
    reveal_strlit("^");
    reveal_strlit("atan2");
    reveal_strlit("min");
    reveal_strlit("max");
    assert("^"@.len() == 1);
    assert(table_names()[i].len() == 1);
}

} // verus!
