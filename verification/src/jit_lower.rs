//! Lowering of the intermediate form to code.
use crate::double::{Real, NAN_BITS, ONE_BITS};
use crate::jit_code::{BlockV, Inst, Name, Op, TermV, Ty};
use crate::jit_ir::{
    block_index, incoming, inst_dst, native1, native2, phi_count, relation, table_arity, table_index, BinOp,
    BlockId, Fun, IrConst, IrFunc, IrInst, IrParam, IrTerm, UnOp, VReg,
};
use crate::text::{debug_text, decimal, extend_decimal, extend_str, owned, string_of};
use crate::value::bool_real;
use vstd::prelude::*;

verus! {

/// Why a function cannot be compiled.
#[derive(Debug)]
pub enum JitError {
    Unsupported(String),
    CraneliftError(String),
    UndefinedVReg(VReg),
    UndefinedBlock(BlockId),
}

pub enum Refusal {
    Unsupported(Seq<char>),
    Cranelift(Seq<char>),
    UndefinedVReg(VReg),
    UndefinedBlock(BlockId),
}

impl JitError {
    pub open spec fn deep(self) -> Refusal {
        match self {
            JitError::Unsupported(s) => Refusal::Unsupported(s@),
            JitError::CraneliftError(s) => Refusal::Cranelift(s@),
            JitError::UndefinedVReg(r) => Refusal::UndefinedVReg(r),
            JitError::UndefinedBlock(b) => Refusal::UndefinedBlock(b),
        }
    }

    /// The message of an error.
    pub fn message(&self) -> (r: String)
        ensures
            r@ == refusal_text(self.deep()),
    {
        let mut m: Vec<char> = Vec::new();
        match self {
            JitError::Unsupported(s) => {
                extend_str(&mut m, "JIT: unsupported in current phase: ");
                extend_str(&mut m, s.as_str());
            },
            JitError::CraneliftError(s) => {
                extend_str(&mut m, "JIT: Cranelift error: ");
                extend_str(&mut m, s.as_str());
            },
            JitError::UndefinedVReg(v) => {
                extend_str(&mut m, "JIT: undefined VReg v");
                extend_decimal(&mut m, v.n as u64);
            },
            JitError::UndefinedBlock(b) => {
                extend_str(&mut m, "JIT: undefined block bb");
                extend_decimal(&mut m, b.n as u64);
            },
        }
        assert(m@ =~= refusal_text(self.deep()));
        string_of(&m)
    }
}

pub open spec fn refusal_text(e: Refusal) -> Seq<char> {
    match e {
        Refusal::Unsupported(s) => "JIT: unsupported in current phase: "@ + s,
        Refusal::Cranelift(s) => "JIT: Cranelift error: "@ + s,
        Refusal::UndefinedVReg(v) => "JIT: undefined VReg v"@ + decimal(v.n as nat),
        Refusal::UndefinedBlock(b) => "JIT: undefined block bb"@ + decimal(b.n as nat),
    }
}

/// The reduction that is fused with a map.
#[derive(Clone, Copy, PartialEq, Eq, Structural, Debug)]
pub enum FusedReduceOp {
    /// The sum, from 0.
    Sum,
    /// The product, from 1.
    Prod,
}

/// The shape of the generated function.
#[derive(Clone, Copy, PartialEq, Eq, Structural, Debug)]
pub enum Shape {
    /// One call of the body.
    Scalar,
    /// A loop that stores the body's result for every row.
    Rows(usize),
    /// A loop that accumulates the body's results.
    Fold(FusedReduceOp),
}

/// The number of blocks that the loop around the body takes.
pub open spec fn scaffold(shape: Shape) -> nat {
    match shape {
        Shape::Scalar => 0,
        Shape::Rows(_) => 5,
        Shape::Fold(_) => 4,
    }
}

// ── Instructions ─────────────────────────────────────────────────────

pub open spec fn bin_name(op: BinOp) -> Seq<char> {
    match op {
        BinOp::Add => "Add"@,
        BinOp::Sub => "Sub"@,
        BinOp::Mul => "Mul"@,
        BinOp::Div => "Div"@,
        BinOp::Pow => "Pow"@,
        BinOp::Mod => "Mod"@,
        BinOp::IntDiv => "IntDiv"@,
        BinOp::Lt => "Lt"@,
        BinOp::Gt => "Gt"@,
        BinOp::Le => "Le"@,
        BinOp::Ge => "Ge"@,
        BinOp::Eq => "Eq"@,
        BinOp::Ne => "Ne"@,
        BinOp::And => "And"@,
        BinOp::Or => "Or"@,
    }
}

pub fn bin_text(op: BinOp) -> (r: String)
    ensures
        r@ == bin_name(op),
{
    match op {
        BinOp::Add => owned("Add"),
        BinOp::Sub => owned("Sub"),
        BinOp::Mul => owned("Mul"),
        BinOp::Div => owned("Div"),
        BinOp::Pow => owned("Pow"),
        BinOp::Mod => owned("Mod"),
        BinOp::IntDiv => owned("IntDiv"),
        BinOp::Lt => owned("Lt"),
        BinOp::Gt => owned("Gt"),
        BinOp::Le => owned("Le"),
        BinOp::Ge => owned("Ge"),
        BinOp::Eq => owned("Eq"),
        BinOp::Ne => owned("Ne"),
        BinOp::And => owned("And"),
        BinOp::Or => owned("Or"),
    }
}

/// The first register of a list without a definition.
pub open spec fn first_undefined(args: Seq<VReg>, defs: Seq<u32>) -> Option<VReg>
    decreases args.len(),
{
    if args.len() == 0 {
        None
    } else {
        match first_undefined(args.drop_last(), defs) {
            Some(r) => Some(r),
            None => if defs.contains(args.last().n) {
                None
            } else {
                Some(args.last())
            },
        }
    }
}

/// The code of a call.
pub open spec fn call_op(name: Seq<char>, args: Seq<VReg>, math: bool) -> Result<Op, Refusal> {
    if args.len() == 1 && native1(name) is Some {
        Ok(Op::Fun1(native1(name)->0, Name::Reg(args[0].n)))
    } else if args.len() == 1 && name == "abs"@ {
        Ok(Op::Abs(Name::Reg(args[0].n)))
    } else if args.len() == 2 && native2(name) is Some {
        Ok(Op::Fun2(native2(name)->0, Name::Reg(args[0].n), Name::Reg(args[1].n)))
    } else if !math {
        Err(
            Refusal::Unsupported(
                "Call requires math-extern registration (compile path didn't enable it)"@,
            ),
        )
    } else {
        match table_index(name, 24) {
            None => Err(
                Refusal::Unsupported("Call to unsupported builtin `"@ + name + "`"@),
            ),
            Some(i) => if args.len() != table_arity(i) {
                Err(
                    Refusal::Unsupported(
                        "Call `"@ + name + "` arity "@ + decimal(args.len()) + " != expected "@
                            + decimal(table_arity(i)),
                    ),
                )
            } else if i < 20 {
                Ok(Op::Fun1(Fun::Table(i as u8), Name::Reg(args[0].n)))
            } else {
                Ok(Op::Fun2(Fun::Table(i as u8), Name::Reg(args[0].n), Name::Reg(args[1].n)))
            },
        }
    }
}

/// The code of a binary operator on defined registers.
pub open spec fn binary_op(op: BinOp, lhs: VReg, rhs: VReg, math: bool) -> Result<Op, Refusal> {
    let l = Name::Reg(lhs.n);
    let r = Name::Reg(rhs.n);
    match op {
        BinOp::Add => Ok(Op::Fun2(Fun::Add, l, r)),
        BinOp::Sub => Ok(Op::Fun2(Fun::Sub, l, r)),
        BinOp::Mul => Ok(Op::Fun2(Fun::Mul, l, r)),
        BinOp::Div => Ok(Op::Fun2(Fun::Div, l, r)),
        BinOp::Pow => if math {
            Ok(Op::Fun2(Fun::Table(20), l, r))
        } else {
            Err(
                Refusal::Unsupported(
                    "binop Pow needs math externs (compile path didn't register them)"@,
                ),
            )
        },
        _ => match relation(op) {
            Some(c) => Ok(Op::Compare(c, l, r)),
            None => Err(Refusal::Unsupported("binop "@ + bin_name(op))),
        },
    }
}

/// The code of an instruction, where the registers `defs` are defined; `math`
/// says whether the mathematical functions can be called.
pub open spec fn lower_op(inst: IrInst, defs: Seq<u32>, math: bool) -> Result<Op, Refusal> {
    match inst {
        IrInst::Const { value, .. } => match value {
            IrConst::Real(x) => Ok(Op::Real(x)),
            IrConst::Int(n) => Ok(Op::FromInt(n)),
            IrConst::Bool(b) => Ok(Op::Real(bool_real(b))),
            IrConst::Null => Ok(Op::Real(Real { bits: 0 })),
            IrConst::NA => Ok(Op::Real(Real { bits: 0 })),
            IrConst::Str(_) => Err(Refusal::Unsupported("string const"@)),
        },
        IrInst::Binary { op, lhs, rhs, .. } => if !defs.contains(lhs.n) {
            Err(Refusal::UndefinedVReg(lhs))
        } else if !defs.contains(rhs.n) {
            Err(Refusal::UndefinedVReg(rhs))
        } else {
            binary_op(op, lhs, rhs, math)
        },
        IrInst::Unary { op, src, .. } => if !defs.contains(src.n) {
            Err(Refusal::UndefinedVReg(src))
        } else {
            match op {
                UnOp::Neg => Ok(Op::Neg(Name::Reg(src.n))),
                UnOp::Pos => Ok(Op::Copy(Name::Reg(src.n))),
                UnOp::Not => Ok(Op::IsZero(Name::Reg(src.n))),
            }
        },
        IrInst::Call { name, args, .. } => match first_undefined(args@, defs) {
            Some(r) => Err(Refusal::UndefinedVReg(r)),
            None => call_op(name@, args@, math),
        },
        IrInst::Phi { .. } => Err(
            Refusal::Cranelift(
                "phi must appear at the start of a block (handled by lower_func_body)"@,
            ),
        ),
        IrInst::Intrinsic { dst, name } => Err(
            Refusal::Unsupported(
                "instruction Intrinsic { dst: VReg("@ + decimal(dst.n as nat) + "), name: "@ + debug_text(name@) + " }"@,
            ),
        ),
    }
}

/// The code of the first `k` instructions past the phis, and the registers that
/// are defined after them.
pub open spec fn lower_insts(insts: Seq<IrInst>, k: nat, defs: Seq<u32>, math: bool) -> Result<
    (Seq<Inst>, Seq<u32>),
    Refusal,
>
    decreases k,
{
    if k == 0 {
        Ok((Seq::empty(), defs))
    } else {
        match lower_insts(insts, (k - 1) as nat, defs, math) {
            Err(e) => Err(e),
            Ok((code, d)) => {
                let inst = insts[phi_count(insts) + k - 1];
                match lower_op(inst, d, math) {
                    Err(e) => Err(e),
                    Ok(op) => Ok(
                        (
                            code.push(Inst::Def(Name::Reg(inst_dst(inst).n), op)),
                            d.push(inst_dst(inst).n),
                        ),
                    ),
                }
            },
        }
    }
}

// ── Edges ────────────────────────────────────────────────────────────

/// The names that a block of the body passes on besides the phis.
pub open spec fn carried(shape: Shape, b: int) -> Seq<Name> {
    match shape {
        Shape::Scalar => Seq::empty(),
        Shape::Rows(_) => seq![Name::Row(b as usize)],
        Shape::Fold(_) => seq![Name::Row(b as usize), Name::Acc(b as usize)],
    }
}

/// The arguments for the first `j` phis of a block on the edge from `from`.
pub open spec fn phi_args(
    from: BlockId,
    to: BlockId,
    insts: Seq<IrInst>,
    j: nat,
    defs: Seq<u32>,
) -> Result<Seq<Name>, Refusal>
    decreases j,
{
    if j == 0 {
        Ok(Seq::empty())
    } else {
        match phi_args(from, to, insts, (j - 1) as nat, defs) {
            Err(e) => Err(e),
            Ok(a) => match incoming(insts, j - 1, from) {
                None => Err(
                    Refusal::Cranelift(
                        "phi in bb"@ + decimal(to.n as nat) + " has no source from bb"@ + decimal(
                            from.n as nat,
                        ),
                    ),
                ),
                Some(r) => if defs.contains(r.n) {
                    Ok(a.push(Name::Reg(r.n)))
                } else {
                    Err(Refusal::UndefinedVReg(r))
                },
            },
        }
    }
}

/// All arguments on an edge between blocks of the body.
pub open spec fn edge_args(
    f: IrFunc,
    shape: Shape,
    k: int,
    to: BlockId,
    defs: Seq<u32>,
) -> Result<Seq<Name>, Refusal> {
    let insts = f.blocks@[block_index(f.blocks@, to)->0].insts@;
    match phi_args(f.blocks@[k].id, to, insts, phi_count(insts), defs) {
        Err(e) => Err(e),
        Ok(a) => Ok(carried(shape, scaffold(shape) + k) + a),
    }
}

/// The arithmetic of a reduction.
pub open spec fn fold_fun(op: FusedReduceOp) -> Fun {
    match op {
        FusedReduceOp::Sum => Fun::Add,
        FusedReduceOp::Prod => Fun::Mul,
    }
}

/// What the body's end becomes: further instructions and a terminator.
pub open spec fn lower_return(shape: Shape, b: int, r: Option<VReg>) -> (Seq<Inst>, TermV) {
    let n = b as usize;
    match shape {
        Shape::Scalar => match r {
            Some(v) => (Seq::empty(), TermV::Return(Some(Name::Reg(v.n)))),
            None => (
                seq![Inst::Def(Name::Lit(n), Op::Real(Real { bits: 0 }))],
                TermV::Return(Some(Name::Lit(n))),
            ),
        },
        Shape::Rows(_) => match r {
            Some(v) => (Seq::empty(), TermV::Jump(3, seq![Name::Row(n), Name::Reg(v.n)])),
            None => (
                seq![Inst::Def(Name::Lit(n), Op::Real(Real { bits: NAN_BITS }))],
                TermV::Jump(3, seq![Name::Row(n), Name::Lit(n)]),
            ),
        },
        Shape::Fold(op) => match r {
            Some(v) => (
                seq![
                    Inst::Def(
                        Name::NextAcc(n),
                        Op::Fun2(fold_fun(op), Name::Acc(n), Name::Reg(v.n)),
                    ),
                    Inst::Def(Name::NextRow(n), Op::Step(Name::Row(n), 1)),
                ],
                TermV::Jump(1, seq![Name::NextRow(n), Name::NextAcc(n)]),
            ),
            None => (
                seq![Inst::Def(Name::NextRow(n), Op::Step(Name::Row(n), 1))],
                TermV::Jump(1, seq![Name::NextRow(n), Name::Acc(n)]),
            ),
        },
    }
}

/// The end of block `k` of the body.
pub open spec fn lower_term(f: IrFunc, shape: Shape, k: int, defs: Seq<u32>) -> Result<
    (Seq<Inst>, TermV),
    Refusal,
> {
    let base = scaffold(shape);
    match f.blocks@[k].term {
        IrTerm::Return(Some(r)) => if defs.contains(r.n) {
            Ok(lower_return(shape, base + k, Some(r)))
        } else {
            Err(Refusal::UndefinedVReg(r))
        },
        IrTerm::Return(None) => Ok(lower_return(shape, base + k, None)),
        IrTerm::Jump(t) => match block_index(f.blocks@, t) {
            None => Err(Refusal::UndefinedBlock(t)),
            Some(i) => match edge_args(f, shape, k, t, defs) {
                Err(e) => Err(e),
                Ok(a) => Ok((Seq::empty(), TermV::Jump(base + i, a))),
            },
        },
        IrTerm::Branch { cond, yes, no } => if !defs.contains(cond.n) {
            Err(Refusal::UndefinedVReg(cond))
        } else {
            match block_index(f.blocks@, yes) {
                None => Err(Refusal::UndefinedBlock(yes)),
                Some(y) => match block_index(f.blocks@, no) {
                    None => Err(Refusal::UndefinedBlock(no)),
                    Some(n) => match edge_args(f, shape, k, yes, defs) {
                        Err(e) => Err(e),
                        Ok(ya) => match edge_args(f, shape, k, no, defs) {
                            Err(e) => Err(e),
                            Ok(na) => Ok(
                                (
                                    Seq::empty(),
                                    TermV::IfNonzero(
                                        Name::Reg(cond.n),
                                        base + y,
                                        ya,
                                        base + n,
                                        na,
                                    ),
                                ),
                            ),
                        },
                    },
                },
            }
        },
        IrTerm::Unreachable => Ok((Seq::empty(), TermV::Trap)),
    }
}

// ── Blocks ───────────────────────────────────────────────────────────

pub open spec fn phi_regs(insts: Seq<IrInst>) -> Seq<u32> {
    Seq::new(phi_count(insts), |i: int| inst_dst(insts[i]).n)
}

pub open spec fn param_regs(params: Seq<IrParam>) -> Seq<u32> {
    Seq::new(params.len(), |i: int| params[i].reg.n)
}

pub open spec fn as_reals(regs: Seq<u32>) -> Seq<(Name, Ty)> {
    Seq::new(regs.len(), |i: int| (Name::Reg(regs[i]), Ty::Real))
}

/// The parameters that a block has besides the phis.
pub open spec fn carried_params(shape: Shape, b: int) -> Seq<(Name, Ty)> {
    match shape {
        Shape::Scalar => Seq::empty(),
        Shape::Rows(_) => seq![(Name::Row(b as usize), Ty::Int)],
        Shape::Fold(_) => seq![(Name::Row(b as usize), Ty::Int), (Name::Acc(b as usize), Ty::Real)],
    }
}

/// The registers that block `k` receives: its phis and, for the entry, the
/// parameters of the function.
pub open spec fn received(f: IrFunc, k: int) -> Seq<u32> {
    let blk = f.blocks@[k];
    phi_regs(blk.insts@) + if blk.id == f.entry {
        param_regs(f.params@)
    } else {
        Seq::empty()
    }
}

/// The registers that are defined where the instructions of block `k` begin.
pub open spec fn defs_at(f: IrFunc, shape: Shape, k: int, defs: Seq<u32>) -> Seq<u32> {
    if shape is Scalar && f.blocks@[k].id == f.entry {
        defs
    } else {
        defs + received(f, k)
    }
}

/// The code of block `k`, and the registers that are defined after it.
pub open spec fn lower_block(f: IrFunc, shape: Shape, k: int, defs: Seq<u32>) -> Result<
    (BlockV, Seq<u32>),
    Refusal,
> {
    let blk = f.blocks@[k];
    let n = (blk.insts@.len() - phi_count(blk.insts@)) as nat;
    match lower_insts(blk.insts@, n, defs_at(f, shape, k, defs), true) {
        Err(e) => Err(e),
        Ok((code, d)) => match lower_term(f, shape, k, d) {
            Err(e) => Err(e),
            Ok((more, term)) => Ok(
                (
                    BlockV {
                        params: carried_params(shape, scaffold(shape) + k) + as_reals(
                            received(f, k),
                        ),
                        insts: code + more,
                        term,
                    },
                    d,
                ),
            ),
        },
    }
}

/// The registers that are defined before the first block.
pub open spec fn initial_defs(f: IrFunc, shape: Shape) -> Seq<u32> {
    if shape is Scalar {
        received(f, block_index(f.blocks@, f.entry)->0)
    } else {
        Seq::empty()
    }
}

/// The code of the first `k` blocks, and the registers that are defined after
/// them.
pub open spec fn lower_blocks(f: IrFunc, shape: Shape, k: nat) -> Result<
    (Seq<BlockV>, Seq<u32>),
    Refusal,
>
    decreases k,
{
    if k == 0 {
        Ok((Seq::empty(), initial_defs(f, shape)))
    } else {
        match lower_blocks(f, shape, (k - 1) as nat) {
            Err(e) => Err(e),
            Ok((bs, d)) => match lower_block(f, shape, k - 1, d) {
                Err(e) => Err(e),
                Ok((b, d2)) => Ok((bs.push(b), d2)),
            },
        }
    }
}

pub open spec fn items(n: nat) -> Seq<Name> {
    Seq::new(n, |j: int| Name::Item(j as usize))
}

pub open spec fn loads(n: nat) -> Seq<Inst> {
    Seq::new(n, |j: int| Inst::Def(Name::Item(j as usize), Op::Load(j as usize, Name::Row(2))))
}

/// The bits of the identity of a reduction.
pub open spec fn identity(op: FusedReduceOp) -> Real {
    match op {
        FusedReduceOp::Sum => Real { bits: 0 },
        FusedReduceOp::Prod => Real { bits: ONE_BITS },
    }
}

/// The loop around a body whose entry is block `e`.
pub open spec fn loop_blocks(shape: Shape, e: int) -> Seq<BlockV> {
    match shape {
        Shape::Scalar => Seq::empty(),
        Shape::Rows(n) => seq![
            BlockV {
                params: seq![(Name::Len, Ty::Int)],
                insts: seq![Inst::Def(Name::Lit(0), Op::Int(0))],
                term: TermV::Jump(1, seq![Name::Lit(0)]),
            },
            BlockV {
                params: seq![(Name::Row(1), Ty::Int)],
                insts: Seq::empty(),
                term: TermV::IfLess(
                    Name::Row(1),
                    Name::Len,
                    2,
                    seq![Name::Row(1)],
                    4,
                    Seq::empty(),
                ),
            },
            BlockV {
                params: seq![(Name::Row(2), Ty::Int)],
                insts: loads(n as nat),
                term: TermV::Jump(5 + e, seq![Name::Row(2)] + items(n as nat)),
            },
            BlockV {
                params: seq![(Name::Row(3), Ty::Int), (Name::Result, Ty::Real)],
                insts: seq![
                    Inst::Store(Name::Row(3), Name::Result),
                    Inst::Def(Name::NextRow(3), Op::Step(Name::Row(3), 1)),
                ],
                term: TermV::Jump(1, seq![Name::NextRow(3)]),
            },
            BlockV { params: Seq::empty(), insts: Seq::empty(), term: TermV::Return(None) },
        ],
        Shape::Fold(op) => seq![
            BlockV {
                params: seq![(Name::Len, Ty::Int)],
                insts: seq![
                    Inst::Def(Name::Lit(0), Op::Int(0)),
                    Inst::Def(Name::Lit(1), Op::Real(identity(op))),
                ],
                term: TermV::Jump(1, seq![Name::Lit(0), Name::Lit(1)]),
            },
            BlockV {
                params: seq![(Name::Row(1), Ty::Int), (Name::Acc(1), Ty::Real)],
                insts: Seq::empty(),
                term: TermV::IfLess(
                    Name::Row(1),
                    Name::Len,
                    2,
                    seq![Name::Row(1), Name::Acc(1)],
                    3,
                    seq![Name::Acc(1)],
                ),
            },
            BlockV {
                params: seq![(Name::Row(2), Ty::Int), (Name::Acc(2), Ty::Real)],
                insts: loads(1),
                term: TermV::Jump(4 + e, seq![Name::Row(2), Name::Acc(2), Name::Item(0)]),
            },
            BlockV {
                params: seq![(Name::Acc(3), Ty::Real)],
                insts: Seq::empty(),
                term: TermV::Return(Some(Name::Acc(3))),
            },
        ],
    }
}

/// The code of a function, or why there is none: a body without blocks and an
/// entry without a block are found first, then the faults of the blocks in the
/// order in which the blocks and their instructions are listed.
pub open spec fn lower(f: IrFunc, shape: Shape) -> Result<Seq<BlockV>, Refusal> {
    if !(shape is Scalar) && f.blocks@.len() == 0 {
        Err(Refusal::Unsupported("empty IR body"@))
    } else {
        match block_index(f.blocks@, f.entry) {
            None => Err(Refusal::UndefinedBlock(f.entry)),
            Some(e) => match lower_blocks(f, shape, f.blocks@.len()) {
                Err(r) => Err(r),
                Ok((bs, _)) => Ok(loop_blocks(shape, e) + bs),
            },
        }
    }
}

} // verus!
