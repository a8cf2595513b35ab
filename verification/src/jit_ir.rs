//! The intermediate form that closures are compiled from: basic blocks of
//! single-assignment instructions on doubles.
use crate::double::{i32_real, Real, SIGN};
use crate::value::bool_real;
use vstd::prelude::*;

verus! {

/// A virtual register.
#[derive(Clone, Copy, PartialEq, Eq, Structural, Debug)]
pub struct VReg {
    pub n: u32,
}

/// The name of a block.
#[derive(Clone, Copy, PartialEq, Eq, Structural, Debug)]
pub struct BlockId {
    pub n: u32,
}

/// Element types.
#[derive(Clone, Copy, PartialEq, Eq, Structural, Debug)]
pub enum IrElem {
    Real,
    Int,
    Bool,
    Str,
    Unknown,
}

#[derive(Clone, Copy, PartialEq, Eq, Structural, Debug)]
pub enum BinOp {
    Add,
    Sub,
    Mul,
    Div,
    Pow,
    Mod,
    IntDiv,
    Lt,
    Gt,
    Le,
    Ge,
    Eq,
    Ne,
    And,
    Or,
}

#[derive(Clone, Copy, PartialEq, Eq, Structural, Debug)]
pub enum UnOp {
    Neg,
    Pos,
    Not,
}

#[derive(Debug)]
pub enum IrConst {
    Real(Real),
    Int(i32),
    Bool(bool),
    Null,
    NA,
    Str(String),
}

#[allow(inconsistent_fields)]
#[derive(Debug)]
pub enum IrInst {
    Const { dst: VReg, value: IrConst },
    Binary { dst: VReg, op: BinOp, lhs: VReg, rhs: VReg },
    Unary { dst: VReg, op: UnOp, src: VReg },
    Call { dst: VReg, name: String, args: Vec<VReg> },
    Phi { dst: VReg, sources: Vec<(BlockId, VReg)> },
    Intrinsic { dst: VReg, name: String },
}

#[derive(Debug)]
pub enum IrTerm {
    Return(Option<VReg>),
    Jump(BlockId),
    Branch { cond: VReg, yes: BlockId, no: BlockId },
    Unreachable,
}

#[derive(Debug)]
pub struct IrBlock {
    pub id: BlockId,
    pub insts: Vec<IrInst>,
    pub term: IrTerm,
}

#[derive(Debug)]
pub struct IrParam {
    pub name: String,
    pub elem: IrElem,
    pub reg: VReg,
}

#[derive(Debug)]
pub struct IrFunc {
    pub name: String,
    pub params: Vec<IrParam>,
    pub return_elem: IrElem,
    pub blocks: Vec<IrBlock>,
    pub entry: BlockId,
}

/// Arithmetic that is not fixed by the bits of its operands.
#[derive(Clone, Copy, PartialEq, Eq, Structural, Debug)]
pub enum Fun {
    Add,
    Sub,
    Mul,
    Div,
    Sqrt,
    Floor,
    Ceil,
    Trunc,
    Nearest,
    Min,
    Max,
    /// A function of the table of mathematical functions, by its position.
    Table(u8),
}

/// Comparisons of doubles.
#[derive(Clone, Copy, PartialEq, Eq, Structural, Debug)]
pub enum Rel {
    Lt,
    Gt,
    Le,
    Ge,
    Eq,
    Ne,
}

/// Whether two doubles stand in a relation; with a NaN only `Ne` holds.
pub open spec fn related(c: Rel, a: Real, b: Real) -> bool {
    match c {
        Rel::Lt => a.below(b),
        Rel::Gt => b.below(a),
        Rel::Le => a.below(b) || a.same(b),
        Rel::Ge => b.below(a) || a.same(b),
        Rel::Eq => a.same(b),
        Rel::Ne => !a.same(b),
    }
}

/// The sign changed.
pub open spec fn negated(a: Real) -> Real {
    if a.bits >= SIGN {
        Real { bits: (a.bits - SIGN) as u64 }
    } else {
        Real { bits: (a.bits + SIGN) as u64 }
    }
}

/// The sign removed.
pub open spec fn absolute(a: Real) -> Real {
    Real { bits: a.magnitude() as u64 }
}

/// What the functions of [`Fun`] compute; the same for the intermediate form
/// and for the generated code.
pub type Arith = spec_fn(Fun, Seq<Real>) -> Real;

/// The relation that an operator tests.
pub open spec fn relation(op: BinOp) -> Option<Rel> {
    match op {
        BinOp::Lt => Some(Rel::Lt),
        BinOp::Gt => Some(Rel::Gt),
        BinOp::Le => Some(Rel::Le),
        BinOp::Ge => Some(Rel::Ge),
        BinOp::Eq => Some(Rel::Eq),
        BinOp::Ne => Some(Rel::Ne),
        _ => None,
    }
}

/// The names of the mathematical functions, in the order of their table.
pub open spec fn table_names() -> Seq<Seq<char>> {
    seq![
        "sqrt"@,
        "abs"@,
        "exp"@,
        "log"@,
        "log2"@,
        "log10"@,
        "sin"@,
        "cos"@,
        "tan"@,
        "asin"@,
        "acos"@,
        "atan"@,
        "sinh"@,
        "cosh"@,
        "tanh"@,
        "floor"@,
        "ceil"@,
        "round"@,
        "trunc"@,
        "sign"@,
        "^"@,
        "atan2"@,
        "min"@,
        "max"@,
    ]
}

/// Position of a name among the first `k` of the table.
pub open spec fn table_index(name: Seq<char>, k: nat) -> Option<int>
    decreases k,
{
    if k == 0 {
        None
    } else {
        match table_index(name, (k - 1) as nat) {
            Some(i) => Some(i),
            None => if table_names()[k - 1] == name {
                Some(k - 1)
            } else {
                None
            },
        }
    }
}

/// The number of arguments of a function of the table.
pub open spec fn table_arity(i: int) -> nat {
    if i < 20 {
        1
    } else {
        2
    }
}

/// The machine instruction for a function of one argument, where there is one.
pub open spec fn native1(name: Seq<char>) -> Option<Fun> {
    if name == "sqrt"@ {
        Some(Fun::Sqrt)
    } else if name == "floor"@ {
        Some(Fun::Floor)
    } else if name == "ceil"@ {
        Some(Fun::Ceil)
    } else if name == "trunc"@ {
        Some(Fun::Trunc)
    } else if name == "round"@ {
        Some(Fun::Nearest)
    } else {
        None
    }
}

/// The machine instruction for a function of two arguments, where there is one.
pub open spec fn native2(name: Seq<char>) -> Option<Fun> {
    if name == "min"@ {
        Some(Fun::Min)
    } else if name == "max"@ {
        Some(Fun::Max)
    } else {
        None
    }
}

// ── Meaning ──────────────────────────────────────────────────────────

pub open spec fn const_value(c: IrConst) -> Option<Real> {
    match c {
        IrConst::Real(x) => Some(x),
        IrConst::Int(n) => Some(i32_real(n)),
        IrConst::Bool(b) => Some(bool_real(b)),
        IrConst::Null => Some(Real { bits: 0 }),
        IrConst::NA => Some(Real { bits: 0 }),
        IrConst::Str(_) => None,
    }
}

pub open spec fn binary_value(op: BinOp, a: Real, b: Real, arith: Arith) -> Option<Real> {
    match op {
        BinOp::Add => Some(arith(Fun::Add, seq![a, b])),
        BinOp::Sub => Some(arith(Fun::Sub, seq![a, b])),
        BinOp::Mul => Some(arith(Fun::Mul, seq![a, b])),
        BinOp::Div => Some(arith(Fun::Div, seq![a, b])),
        BinOp::Pow => Some(arith(Fun::Table(20), seq![a, b])),
        _ => match relation(op) {
            Some(c) => Some(bool_real(related(c, a, b))),
            None => None,
        },
    }
}

pub open spec fn unary_value(op: UnOp, a: Real) -> Real {
    match op {
        UnOp::Neg => negated(a),
        UnOp::Pos => a,
        UnOp::Not => bool_real(a.same(Real { bits: 0 })),
    }
}

/// The value of a call of a mathematical function.
pub open spec fn call_value(name: Seq<char>, args: Seq<Real>, arith: Arith) -> Option<Real> {
    if args.len() == 1 && native1(name) is Some {
        Some(arith(native1(name)->0, args))
    } else if args.len() == 1 && name == "abs"@ {
        Some(absolute(args[0]))
    } else if args.len() == 2 && native2(name) is Some {
        Some(arith(native2(name)->0, args))
    } else {
        match table_index(name, 24) {
            Some(i) => if args.len() == table_arity(i) {
                Some(arith(Fun::Table(i as u8), args))
            } else {
                None
            },
            None => None,
        }
    }
}

/// The values of some registers, where all of them have one.
pub open spec fn reg_values(regs: Seq<VReg>, env: Map<u32, Real>) -> Option<Seq<Real>> {
    if forall|i: int| 0 <= i < regs.len() ==> env.contains_key((#[trigger] regs[i]).n) {
        Some(Seq::new(regs.len(), |i: int| env[regs[i].n]))
    } else {
        None
    }
}

pub open spec fn inst_dst(inst: IrInst) -> VReg {
    match inst {
        IrInst::Const { dst, .. } => dst,
        IrInst::Binary { dst, .. } => dst,
        IrInst::Unary { dst, .. } => dst,
        IrInst::Call { dst, .. } => dst,
        IrInst::Phi { dst, .. } => dst,
        IrInst::Intrinsic { dst, .. } => dst,
    }
}

/// The value that an instruction computes from the registers.
pub open spec fn inst_value(inst: IrInst, env: Map<u32, Real>, arith: Arith) -> Option<Real> {
    match inst {
        IrInst::Const { value, .. } => const_value(value),
        IrInst::Binary { op, lhs, rhs, .. } => if env.contains_key(lhs.n) && env.contains_key(
            rhs.n,
        ) {
            binary_value(op, env[lhs.n], env[rhs.n], arith)
        } else {
            None
        },
        IrInst::Unary { op, src, .. } => if env.contains_key(src.n) {
            Some(unary_value(op, env[src.n]))
        } else {
            None
        },
        IrInst::Call { name, args, .. } => match reg_values(args@, env) {
            Some(vs) => call_value(name@, vs, arith),
            None => None,
        },
        IrInst::Phi { .. } => None,
        IrInst::Intrinsic { .. } => None,
    }
}

/// The number of phis at the start of a block.
pub open spec fn phi_count(insts: Seq<IrInst>) -> nat
    decreases insts.len(),
{
    if insts.len() > 0 && insts[0] is Phi {
        1 + phi_count(insts.drop_first())
    } else {
        0
    }
}

/// Registers after the first `k` instructions past the phis.
pub open spec fn run_insts(insts: Seq<IrInst>, k: nat, env: Map<u32, Real>, arith: Arith) -> Option<
    Map<u32, Real>,
>
    decreases k,
{
    if k == 0 {
        Some(env)
    } else {
        match run_insts(insts, (k - 1) as nat, env, arith) {
            None => None,
            Some(e) => {
                let inst = insts[phi_count(insts) + k - 1];
                match inst_value(inst, e, arith) {
                    Some(v) => Some(e.insert(inst_dst(inst).n, v)),
                    None => None,
                }
            },
        }
    }
}

/// Position of the block with a name.
pub open spec fn block_index(blocks: Seq<IrBlock>, id: BlockId) -> Option<int>
    decreases blocks.len(),
{
    if blocks.len() == 0 {
        None
    } else if blocks.last().id == id {
        Some(blocks.len() - 1)
    } else {
        block_index(blocks.drop_last(), id)
    }
}

/// The register that a phi takes from a predecessor.
pub open spec fn phi_source(sources: Seq<(BlockId, VReg)>, from: BlockId) -> Option<VReg>
    decreases sources.len(),
{
    if sources.len() == 0 {
        None
    } else if sources.last().0 == from {
        Some(sources.last().1)
    } else {
        phi_source(sources.drop_last(), from)
    }
}

/// The register that the `j`-th phi of a block takes from a predecessor.
pub open spec fn incoming(insts: Seq<IrInst>, j: int, from: BlockId) -> Option<VReg> {
    match insts[j] {
        IrInst::Phi { sources, .. } => phi_source(sources@, from),
        _ => None,
    }
}

/// Whether every phi has a value on the edge from a predecessor.
pub open spec fn edge_ready(insts: Seq<IrInst>, from: BlockId, env: Map<u32, Real>) -> bool {
    forall|j: int|
        0 <= j < phi_count(insts) ==> (#[trigger] incoming(insts, j, from)) is Some
            && env.contains_key(incoming(insts, j, from)->0.n)
}

/// Registers on entry of a block: its first `k` phis have taken their values,
/// all from the registers before the edge.
pub open spec fn enter(insts: Seq<IrInst>, k: nat, from: BlockId, env: Map<u32, Real>) -> Map<
    u32,
    Real,
>
    decreases k,
{
    if k == 0 {
        env
    } else {
        enter(insts, (k - 1) as nat, from, env).insert(
            inst_dst(insts[k - 1]).n,
            env[incoming(insts, k - 1, from)->0.n],
        )
    }
}

/// Where a run of the intermediate form stands.
pub struct IrState {
    pub block: int,
    pub env: Map<u32, Real>,
}

pub enum IrNext {
    Goto(IrState),
    Done(Option<Real>),
    Stuck,
}

/// What follows an edge to a block.
pub open spec fn follow(f: IrFunc, from: BlockId, to: BlockId, env: Map<u32, Real>) -> IrNext {
    match block_index(f.blocks@, to) {
        None => IrNext::Stuck,
        Some(b) => {
            let insts = f.blocks@[b].insts@;
            if edge_ready(insts, from, env) {
                IrNext::Goto(IrState { block: b, env: enter(insts, phi_count(insts), from, env) })
            } else {
                IrNext::Stuck
            }
        },
    }
}

/// One block of a run.
pub open spec fn ir_step(f: IrFunc, s: IrState, arith: Arith) -> IrNext {
    let blk = f.blocks@[s.block];
    let n = (blk.insts@.len() - phi_count(blk.insts@)) as nat;
    match run_insts(blk.insts@, n, s.env, arith) {
        None => IrNext::Stuck,
        Some(e) => match blk.term {
            IrTerm::Return(None) => IrNext::Done(None),
            IrTerm::Return(Some(r)) => if e.contains_key(r.n) {
                IrNext::Done(Some(e[r.n]))
            } else {
                IrNext::Stuck
            },
            IrTerm::Jump(t) => follow(f, blk.id, t, e),
            IrTerm::Branch { cond, yes, no } => if !e.contains_key(cond.n) {
                IrNext::Stuck
            } else if !e[cond.n].same(Real { bits: 0 }) {
                follow(f, blk.id, yes, e)
            } else {
                follow(f, blk.id, no, e)
            },
            IrTerm::Unreachable => IrNext::Stuck,
        },
    }
}

/// The state after `k` blocks.
pub open spec fn ir_run(f: IrFunc, s: IrState, k: nat, arith: Arith) -> Option<IrState>
    decreases k,
{
    if k == 0 {
        Some(s)
    } else {
        match ir_step(f, s, arith) {
            IrNext::Goto(t) => ir_run(f, t, (k - 1) as nat, arith),
            _ => None,
        }
    }
}

/// The first `k` parameters bound to their arguments.
pub open spec fn bind(params: Seq<IrParam>, k: nat, args: Seq<Real>) -> Map<u32, Real>
    decreases k,
{
    if k == 0 {
        Map::empty()
    } else {
        bind(params, (k - 1) as nat, args).insert(params[k - 1].reg.n, args[k - 1])
    }
}

/// Whether the function, called with `args`, comes to an end with `v`.
pub open spec fn yields(f: IrFunc, args: Seq<Real>, v: Option<Real>, arith: Arith) -> bool {
    &&& block_index(f.blocks@, f.entry) is Some
    &&& exists|k: nat, s: IrState|
        #![trigger ir_run(f, start(f, args), k, arith), ir_step(f, s, arith)]
        ir_run(f, start(f, args), k, arith) == Some(s) && ir_step(f, s, arith) == IrNext::Done(v)
}

pub open spec fn start(f: IrFunc, args: Seq<Real>) -> IrState {
    IrState {
        block: block_index(f.blocks@, f.entry)->0,
        env: bind(f.params@, f.params@.len(), args),
    }
}

} // verus!
