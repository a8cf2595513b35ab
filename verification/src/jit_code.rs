//! The code that is generated: blocks with parameters, on named values.
use crate::double::{i32_real, Real};
use crate::jit_ir::{absolute, negated, related, Arith, Fun, Rel};
use crate::value::bool_real;
use vstd::prelude::*;

verus! {

/// The name of a value. Every name is defined in one place.
#[derive(Clone, Copy, PartialEq, Eq, Structural, Hash, Debug)]
pub enum Name {
    /// A register of the intermediate form.
    Reg(u32),
    /// The number of rows, a parameter of the whole function.
    Len,
    /// The row, as the block with this number receives it.
    Row(usize),
    /// The accumulator, as the block with this number receives it.
    Acc(usize),
    /// The row after the one of this block.
    NextRow(usize),
    /// The accumulator after this block.
    NextAcc(usize),
    /// A constant that this block defines.
    Lit(usize),
    /// The value loaded from an input.
    Item(usize),
    /// The result, as the storing block receives it.
    Result,
    /// The number of rows less the odd one.
    Pairs,
    /// A register of the intermediate form, two rows at a time.
    Wide(u32),
}

#[derive(Clone, Copy, PartialEq, Eq, Structural, Debug)]
pub enum Ty {
    Int,
    Real,
}

/// What a value is computed from.
#[derive(Clone, Copy, PartialEq, Eq, Structural, Debug)]
pub enum Op {
    Int(i64),
    Step(Name, i64),
    Even(Name),
    Real(Real),
    FromInt(i32),
    Neg(Name),
    Abs(Name),
    Copy(Name),
    IsZero(Name),
    Compare(Rel, Name, Name),
    Fun1(Fun, Name),
    Fun2(Fun, Name, Name),
    Load(usize, Name),
    LoadPair(usize, Name),
    /// A constant for two rows.
    Both(Real),
    BothInt(i32),
}

#[derive(Clone, Copy, PartialEq, Eq, Structural, Debug)]
pub enum Inst {
    Def(Name, Op),
    Store(Name, Name),
    StorePair(Name, Name),
}

#[derive(Debug)]
pub enum Term {
    Jump(usize, Vec<Name>),
    /// Goes to the first block where the value is not zero.
    IfNonzero(Name, usize, Vec<Name>, usize, Vec<Name>),
    /// Goes to the first block where the first value is less than the second.
    IfLess(Name, Name, usize, Vec<Name>, usize, Vec<Name>),
    Return(Option<Name>),
    Trap,
}

#[derive(Debug)]
pub struct Block {
    pub params: Vec<(Name, Ty)>,
    pub insts: Vec<Inst>,
    pub term: Term,
}

#[derive(Debug)]
pub struct Code {
    pub blocks: Vec<Block>,
}

// ── Mathematical counterparts ────────────────────────────────────────

pub enum TermV {
    Jump(int, Seq<Name>),
    IfNonzero(Name, int, Seq<Name>, int, Seq<Name>),
    IfLess(Name, Name, int, Seq<Name>, int, Seq<Name>),
    Return(Option<Name>),
    Trap,
}

pub struct BlockV {
    pub params: Seq<(Name, Ty)>,
    pub insts: Seq<Inst>,
    pub term: TermV,
}

impl Term {
    pub open spec fn deep(self) -> TermV {
        match self {
            Term::Jump(b, a) => TermV::Jump(b as int, a@),
            Term::IfNonzero(c, y, ya, n, na) => TermV::IfNonzero(c, y as int, ya@, n as int, na@),
            Term::IfLess(a, b, y, ya, n, na) => TermV::IfLess(a, b, y as int, ya@, n as int, na@),
            Term::Return(v) => TermV::Return(v),
            Term::Trap => TermV::Trap,
        }
    }
}

impl Block {
    pub open spec fn deep(self) -> BlockV {
        BlockV { params: self.params@, insts: self.insts@, term: self.term.deep() }
    }
}

impl Code {
    pub open spec fn deep(self) -> Seq<BlockV> {
        Seq::new(self.blocks@.len(), |i: int| self.blocks@[i].deep())
    }
}

// ── Meaning ──────────────────────────────────────────────────────────

/// A value at run time.
pub enum Scal {
    Int(int),
    One(Real),
    Two(Real, Real),
}

pub type Env = Map<Name, Scal>;

/// A pair of results.
pub open spec fn lanes(a: Scal, f: spec_fn(Real) -> Real) -> Option<Scal> {
    match a {
        Scal::Int(_) => None,
        Scal::One(x) => Some(Scal::One(f(x))),
        Scal::Two(x, y) => Some(Scal::Two(f(x), f(y))),
    }
}

pub open spec fn lanes2(a: Scal, b: Scal, f: spec_fn(Real, Real) -> Real) -> Option<Scal> {
    match (a, b) {
        (Scal::One(x), Scal::One(y)) => Some(Scal::One(f(x, y))),
        (Scal::Two(x, u), Scal::Two(y, v)) => Some(Scal::Two(f(x, y), f(u, v))),
        _ => None,
    }
}

/// The value of an operation on the inputs `ins`.
pub open spec fn op_value(op: Op, env: Env, ins: Seq<Seq<Real>>, arith: Arith) -> Option<Scal> {
    match op {
        Op::Int(n) => Some(Scal::Int(n as int)),
        Op::Step(a, k) => match env[a] {
            Scal::Int(n) if env.contains_key(a) => Some(Scal::Int(n + k)),
            _ => None,
        },
        Op::Even(a) => match env[a] {
            Scal::Int(n) if env.contains_key(a) => Some(Scal::Int(n - n % 2)),
            _ => None,
        },
        Op::Real(x) => Some(Scal::One(x)),
        Op::FromInt(n) => Some(Scal::One(i32_real(n))),
        Op::Neg(a) => if env.contains_key(a) {
            lanes(env[a], |x: Real| negated(x))
        } else {
            None
        },
        Op::Abs(a) => if env.contains_key(a) {
            lanes(env[a], |x: Real| absolute(x))
        } else {
            None
        },
        Op::Copy(a) => if env.contains_key(a) {
            Some(env[a])
        } else {
            None
        },
        Op::IsZero(a) => if env.contains_key(a) {
            lanes(env[a], |x: Real| bool_real(x.same(Real { bits: 0 })))
        } else {
            None
        },
        Op::Compare(c, a, b) => if env.contains_key(a) && env.contains_key(b) {
            lanes2(env[a], env[b], |x: Real, y: Real| bool_real(related(c, x, y)))
        } else {
            None
        },
        Op::Fun1(f, a) => if env.contains_key(a) {
            lanes(env[a], |x: Real| arith(f, seq![x]))
        } else {
            None
        },
        Op::Fun2(f, a, b) => if env.contains_key(a) && env.contains_key(b) {
            lanes2(env[a], env[b], |x: Real, y: Real| arith(f, seq![x, y]))
        } else {
            None
        },
        Op::Load(k, i) => match env[i] {
            Scal::Int(n) if env.contains_key(i) && k < ins.len() && 0 <= n < ins[k as int].len()
                => Some(Scal::One(ins[k as int][n])),
            _ => None,
        },
        Op::LoadPair(k, i) => match env[i] {
            Scal::Int(n) if env.contains_key(i) && k < ins.len() && 0 <= n < ins[k as int].len()
                - 1 => Some(Scal::Two(ins[k as int][n], ins[k as int][n + 1])),
            _ => None,
        },
        Op::Both(x) => Some(Scal::Two(x, x)),
        Op::BothInt(n) => Some(Scal::Two(i32_real(n), i32_real(n))),
    }
}

/// Values and output after the first `k` instructions.
pub open spec fn insts_run(
    insts: Seq<Inst>,
    k: nat,
    env: Env,
    out: Seq<Real>,
    ins: Seq<Seq<Real>>,
    arith: Arith,
) -> Option<(Env, Seq<Real>)>
    decreases k,
{
    if k == 0 {
        Some((env, out))
    } else {
        match insts_run(insts, (k - 1) as nat, env, out, ins, arith) {
            None => None,
            Some((e, o)) => match insts[k - 1] {
                Inst::Def(d, op) => match op_value(op, e, ins, arith) {
                    Some(v) => Some((e.insert(d, v), o)),
                    None => None,
                },
                Inst::Store(i, v) => match (e[i], e[v]) {
                    (Scal::Int(n), Scal::One(x)) if e.contains_key(i) && e.contains_key(v) && 0
                        <= n < o.len() => Some((e, o.update(n, x))),
                    _ => None,
                },
                Inst::StorePair(i, v) => match (e[i], e[v]) {
                    (Scal::Int(n), Scal::Two(x, y)) if e.contains_key(i) && e.contains_key(v) && 0
                        <= n < o.len() - 1 => Some((e, o.update(n, x).update(n + 1, y))),
                    _ => None,
                },
            },
        }
    }
}

/// Where a run of the code stands.
pub struct State {
    pub block: int,
    pub env: Env,
    pub out: Seq<Real>,
}

pub enum Next {
    Goto(State),
    Return(Option<Real>, Seq<Real>),
    Stuck,
}

/// Whether all of some names have values.
pub open spec fn all_defined(names: Seq<Name>, env: Env) -> bool {
    forall|i: int| 0 <= i < names.len() ==> env.contains_key(#[trigger] names[i])
}

/// The first `k` parameters bound to values that are read before the edge.
pub open spec fn pass(params: Seq<(Name, Ty)>, k: nat, args: Seq<Name>, env: Env) -> Env
    decreases k,
{
    if k == 0 {
        env
    } else {
        pass(params, (k - 1) as nat, args, env).insert(params[k - 1].0, env[args[k - 1]])
    }
}

/// An edge to a block.
pub open spec fn goto(code: Seq<BlockV>, b: int, args: Seq<Name>, env: Env, out: Seq<Real>) -> Next {
    if 0 <= b < code.len() && args.len() == code[b].params.len() && all_defined(args, env) {
        Next::Goto(State { block: b, env: pass(code[b].params, args.len(), args, env), out })
    } else {
        Next::Stuck
    }
}

/// One block of a run.
pub open spec fn step(code: Seq<BlockV>, s: State, ins: Seq<Seq<Real>>, arith: Arith) -> Next {
    if !(0 <= s.block < code.len()) {
        Next::Stuck
    } else {
        let blk = code[s.block];
        match insts_run(blk.insts, blk.insts.len(), s.env, s.out, ins, arith) {
            None => Next::Stuck,
            Some((e, o)) => match blk.term {
                TermV::Jump(b, args) => goto(code, b, args, e, o),
                TermV::IfNonzero(c, y, ya, n, na) => match e[c] {
                    Scal::One(x) if e.contains_key(c) => if !x.same(Real { bits: 0 }) {
                        goto(code, y, ya, e, o)
                    } else {
                        goto(code, n, na, e, o)
                    },
                    _ => Next::Stuck,
                },
                TermV::IfLess(a, b, y, ya, n, na) => match (e[a], e[b]) {
                    (Scal::Int(u), Scal::Int(v)) if e.contains_key(a) && e.contains_key(b)
                        => if u < v {
                        goto(code, y, ya, e, o)
                    } else {
                        goto(code, n, na, e, o)
                    },
                    _ => Next::Stuck,
                },
                TermV::Return(None) => Next::Return(None, o),
                TermV::Return(Some(v)) => match e[v] {
                    Scal::One(x) if e.contains_key(v) => Next::Return(Some(x), o),
                    _ => Next::Stuck,
                },
                TermV::Trap => Next::Stuck,
            },
        }
    }
}

/// The state after `k` blocks.
pub open spec fn run(
    code: Seq<BlockV>,
    s: State,
    k: nat,
    ins: Seq<Seq<Real>>,
    arith: Arith,
) -> Option<State>
    decreases k,
{
    if k == 0 {
        Some(s)
    } else {
        match step(code, s, ins, arith) {
            Next::Goto(t) => run(code, t, (k - 1) as nat, ins, arith),
            _ => None,
        }
    }
}

/// Whether the code, started in block 0, returns `v` and leaves the output `out`.
pub open spec fn ends_with(
    code: Seq<BlockV>,
    env: Env,
    out0: Seq<Real>,
    ins: Seq<Seq<Real>>,
    arith: Arith,
    v: Option<Real>,
    out: Seq<Real>,
) -> bool {
    exists|k: nat, s: State|
        #![trigger run(code, State { block: 0, env, out: out0 }, k, ins, arith), step(code, s, ins, arith)]
        run(code, State { block: 0, env, out: out0 }, k, ins, arith) == Some(s) && step(
            code,
            s,
            ins,
            arith,
        ) == Next::Return(v, out)
}

} // verus!
