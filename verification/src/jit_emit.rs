//! Generation of code from the intermediate form.
use crate::double::{Real, NAN_BITS, ONE_BITS};
use crate::jit_code::{Block, BlockV, Code, Inst, Name, Op, Term, Ty};
use crate::jit_ir::{
    block_index, inst_dst, native1, native2, phi_count, phi_source, table_index, BinOp, BlockId, Fun, IrConst,
    IrFunc, IrInst, IrTerm, Rel, UnOp, VReg,
};
use crate::jit_lower::{
    as_reals, bin_text, binary_op, call_op, carried, carried_params, defs_at, edge_args, first_undefined,
    initial_defs, items, loads, loop_blocks, lower, lower_block, lower_blocks, lower_insts, lower_op, lower_return,
    lower_term, param_regs, phi_args, phi_regs, received, scaffold, FusedReduceOp, JitError, Refusal, Shape,
};
use crate::text::{chars_of, debug_of, extend_decimal, extend_str, found, owned, same_text, string_of};
use vstd::prelude::*;

verus! {

// ── Lookups ──────────────────────────────────────────────────────────

pub(crate) fn is_defined(defs: &Vec<u32>, r: u32) -> (b: bool)
    ensures
        b == defs@.contains(r),
{
    let mut i: usize = 0;
    while i < defs.len()
        invariant
            i <= defs@.len(),
            forall|j: int| 0 <= j < i ==> defs@[j] != r,
        decreases defs@.len() - i,
    {
        if defs[i] == r {
            return true;
        }
        i += 1;
    }
    false
}

pub(crate) fn count_phis(insts: &Vec<IrInst>) -> (r: usize)
    ensures
        r == phi_count(insts@),
        r <= insts@.len(),
{
    let mut i: usize = 0;
    assert(insts@.skip(0) =~= insts@);
    while i < insts.len()
        invariant
            i <= insts@.len(),
            phi_count(insts@) == i + phi_count(insts@.skip(i as int)),
        decreases insts@.len() - i,
    {
        assert(insts@.skip(i as int)[0] == insts@[i as int]);
        match &insts[i] {
            IrInst::Phi { .. } => {},
            _ => {
                return i;
            },
        }
        assert(insts@.skip(i as int).drop_first() =~= insts@.skip(i + 1));
        i += 1;
    }
    i
}

/// The position of a block.
pub fn find_block(f: &IrFunc, id: BlockId) -> (r: Option<usize>)
    ensures
        found(r) == block_index(f.blocks@, id),
        r matches Some(i) ==> i < f.blocks@.len(),
{
    let mut i: usize = f.blocks.len();
    assert(f.blocks@.subrange(0, i as int) =~= f.blocks@);
    while i > 0
        invariant
            i <= f.blocks@.len(),
            block_index(f.blocks@, id) == block_index(f.blocks@.subrange(0, i as int), id),
        decreases i,
    {
        assert(f.blocks@.subrange(0, i as int).drop_last() =~= f.blocks@.subrange(0, i - 1));
        i -= 1;
        if f.blocks[i].id == id {
            return Some(i);
        }
    }
    None
}

fn find_source(sources: &Vec<(BlockId, VReg)>, from: BlockId) -> (r: Option<VReg>)
    ensures
        r == phi_source(sources@, from),
{
    let mut i: usize = sources.len();
    assert(sources@.subrange(0, i as int) =~= sources@);
    while i > 0
        invariant
            i <= sources@.len(),
            phi_source(sources@, from) == phi_source(sources@.subrange(0, i as int), from),
        decreases i,
    {
        assert(sources@.subrange(0, i as int).drop_last() =~= sources@.subrange(0, i - 1));
        i -= 1;
        if sources[i].0 == from {
            return Some(sources[i].1);
        }
    }
    None
}

/// The position of a mathematical function in the table.
pub fn find_math_extern(name: &str) -> (r: Option<usize>)
    ensures
        found(r) == table_index(name@, 24),
        r matches Some(i) ==> i < 24,
{
    proof {
        reveal_with_fuel(table_index, 25);
    }
    if same_text(name, "sqrt") {
        return Some(0);
    }
    if same_text(name, "abs") {
        return Some(1);
    }
    if same_text(name, "exp") {
        return Some(2);
    }
    if same_text(name, "log") {
        return Some(3);
    }
    if same_text(name, "log2") {
        return Some(4);
    }
    if same_text(name, "log10") {
        return Some(5);
    }
    if same_text(name, "sin") {
        return Some(6);
    }
    if same_text(name, "cos") {
        return Some(7);
    }
    if same_text(name, "tan") {
        return Some(8);
    }
    if same_text(name, "asin") {
        return Some(9);
    }
    if same_text(name, "acos") {
        return Some(10);
    }
    if same_text(name, "atan") {
        return Some(11);
    }
    if same_text(name, "sinh") {
        return Some(12);
    }
    if same_text(name, "cosh") {
        return Some(13);
    }
    if same_text(name, "tanh") {
        return Some(14);
    }
    if same_text(name, "floor") {
        return Some(15);
    }
    if same_text(name, "ceil") {
        return Some(16);
    }
    if same_text(name, "round") {
        return Some(17);
    }
    if same_text(name, "trunc") {
        return Some(18);
    }
    if same_text(name, "sign") {
        return Some(19);
    }
    if same_text(name, "^") {
        return Some(20);
    }
    if same_text(name, "atan2") {
        return Some(21);
    }
    if same_text(name, "min") {
        return Some(22);
    }
    if same_text(name, "max") {
        return Some(23);
    }
    None
}

// ── Instructions ─────────────────────────────────────────────────────

pub(crate) fn unsupported(msg: &str) -> (r: JitError)
    ensures
        r.deep() == Refusal::Unsupported(msg@),
{
    JitError::Unsupported(owned(msg))
}

pub(crate) fn dst_of(inst: &IrInst) -> (r: VReg)
    ensures
        r == inst_dst(*inst),
{
    match inst {
        IrInst::Const { dst, .. } => *dst,
        IrInst::Binary { dst, .. } => *dst,
        IrInst::Unary { dst, .. } => *dst,
        IrInst::Call { dst, .. } => *dst,
        IrInst::Phi { dst, .. } => *dst,
        IrInst::Intrinsic { dst, .. } => *dst,
    }
}

pub(crate) fn undefined_arg(args: &Vec<VReg>, defs: &Vec<u32>) -> (r: Option<VReg>)
    ensures
        r == first_undefined(args@, defs@),
{
    let mut at: Option<VReg> = None;
    assert(args@.subrange(0, 0) =~= Seq::<VReg>::empty());
    for i in 0..args.len()
        invariant
            at == first_undefined(args@.subrange(0, i as int), defs@),
    {
        assert(args@.subrange(0, i + 1).drop_last() =~= args@.subrange(0, i as int));
        if at.is_none() && !is_defined(defs, args[i].n) {
            at = Some(args[i]);
        }
    }
    assert(args@.subrange(0, args@.len() as int) =~= args@);
    at
}

pub(crate) fn find_native1(name: &str) -> (r: Option<Fun>)
    ensures
        r == native1(name@),
{
    if same_text(name, "sqrt") {
        Some(Fun::Sqrt)
    } else if same_text(name, "floor") {
        Some(Fun::Floor)
    } else if same_text(name, "ceil") {
        Some(Fun::Ceil)
    } else if same_text(name, "trunc") {
        Some(Fun::Trunc)
    } else if same_text(name, "round") {
        Some(Fun::Nearest)
    } else {
        None
    }
}

pub(crate) fn find_native2(name: &str) -> (r: Option<Fun>)
    ensures
        r == native2(name@),
{
    if same_text(name, "min") {
        Some(Fun::Min)
    } else if same_text(name, "max") {
        Some(Fun::Max)
    } else {
        None
    }
}

fn emit_call(name: &str, args: &Vec<VReg>, math: bool) -> (r: Result<Op, JitError>)
    ensures
        match call_op(name@, args@, math) {
            Ok(op) => r is Ok && r->Ok_0 == op,
            Err(e) => r is Err && r->Err_0.deep() == e,
        },
{
    if args.len() == 1 {
        if let Some(g) = find_native1(name) {
            return Ok(Op::Fun1(g, Name::Reg(args[0].n)));
        }
        if same_text(name, "abs") {
            return Ok(Op::Abs(Name::Reg(args[0].n)));
        }
    }
    if args.len() == 2 {
        if let Some(g) = find_native2(name) {
            return Ok(Op::Fun2(g, Name::Reg(args[0].n), Name::Reg(args[1].n)));
        }
    }
    if !math {
        return Err(
            unsupported(
                "Call requires math-extern registration (compile path didn't enable it)",
            ),
        );
    }
    match find_math_extern(name) {
        None => {
            let mut m = chars_of("Call to unsupported builtin `");
            extend_str(&mut m, name);
            extend_str(&mut m, "`");
            Err(JitError::Unsupported(string_of(&m)))
        },
        Some(i) => {
            let arity: usize = if i < 20 {
                1
            } else {
                2
            };
            if args.len() != arity {
                let mut m = chars_of("Call `");
                extend_str(&mut m, name);
                extend_str(&mut m, "` arity ");
                extend_decimal(&mut m, args.len() as u64);
                extend_str(&mut m, " != expected ");
                extend_decimal(&mut m, arity as u64);
                Err(JitError::Unsupported(string_of(&m)))
            } else if i < 20 {
                Ok(Op::Fun1(Fun::Table(i as u8), Name::Reg(args[0].n)))
            } else {
                Ok(Op::Fun2(Fun::Table(i as u8), Name::Reg(args[0].n), Name::Reg(args[1].n)))
            }
        },
    }
}

fn emit_binary(op: BinOp, lhs: VReg, rhs: VReg, math: bool) -> (r: Result<Op, JitError>)
    ensures
        match binary_op(op, lhs, rhs, math) {
            Ok(o) => r is Ok && r->Ok_0 == o,
            Err(e) => r is Err && r->Err_0.deep() == e,
        },
{
    let a: Name = Name::Reg(lhs.n);
    let b: Name = Name::Reg(rhs.n);
    match op {
        BinOp::Add => Ok(Op::Fun2(Fun::Add, a, b)),
        BinOp::Sub => Ok(Op::Fun2(Fun::Sub, a, b)),
        BinOp::Mul => Ok(Op::Fun2(Fun::Mul, a, b)),
        BinOp::Div => Ok(Op::Fun2(Fun::Div, a, b)),
        BinOp::Pow => if math {
            Ok(Op::Fun2(Fun::Table(20), a, b))
        } else {
            Err(
                unsupported("binop Pow needs math externs (compile path didn't register them)"),
            )
        },
        BinOp::Lt => Ok(Op::Compare(Rel::Lt, a, b)),
        BinOp::Gt => Ok(Op::Compare(Rel::Gt, a, b)),
        BinOp::Le => Ok(Op::Compare(Rel::Le, a, b)),
        BinOp::Ge => Ok(Op::Compare(Rel::Ge, a, b)),
        BinOp::Eq => Ok(Op::Compare(Rel::Eq, a, b)),
        BinOp::Ne => Ok(Op::Compare(Rel::Ne, a, b)),
        _ => {
            let mut m = chars_of("binop ");
            let t = bin_text(op);
            extend_str(&mut m, t.as_str());
            Err(JitError::Unsupported(string_of(&m)))
        },
    }
}

/// The code of one instruction.
pub fn lower_inst(inst: &IrInst, defs: &Vec<u32>, math: bool) -> (r: Result<Op, JitError>)
    ensures
        match lower_op(*inst, defs@, math) {
            Ok(op) => r is Ok && r->Ok_0 == op,
            Err(e) => r is Err && r->Err_0.deep() == e,
        },
{
    match inst {
        IrInst::Const { value, .. } => match value {
            IrConst::Real(x) => Ok(Op::Real(*x)),
            IrConst::Int(n) => Ok(Op::FromInt(*n)),
            IrConst::Bool(b) => Ok(
                Op::Real(
                    if *b {
                        Real { bits: ONE_BITS }
                    } else {
                        Real { bits: 0 }
                    },
                ),
            ),
            IrConst::Null => Ok(Op::Real(Real { bits: 0 })),
            IrConst::NA => Ok(Op::Real(Real { bits: 0 })),
            IrConst::Str(_) => Err(unsupported("string const")),
        },
        IrInst::Binary { op, lhs, rhs, .. } => if !is_defined(defs, lhs.n) {
            Err(JitError::UndefinedVReg(*lhs))
        } else if !is_defined(defs, rhs.n) {
            Err(JitError::UndefinedVReg(*rhs))
        } else {
            emit_binary(*op, *lhs, *rhs, math)
        },
        IrInst::Unary { op, src, .. } => if !is_defined(defs, src.n) {
            Err(JitError::UndefinedVReg(*src))
        } else {
            match op {
                UnOp::Neg => Ok(Op::Neg(Name::Reg(src.n))),
                UnOp::Pos => Ok(Op::Copy(Name::Reg(src.n))),
                UnOp::Not => Ok(Op::IsZero(Name::Reg(src.n))),
            }
        },
        IrInst::Call { name, args, .. } => match undefined_arg(args, defs) {
            Some(v) => Err(JitError::UndefinedVReg(v)),
            None => emit_call(name.as_str(), args, math),
        },
        IrInst::Phi { .. } => Err(
            JitError::CraneliftError(
                owned("phi must appear at the start of a block (handled by lower_func_body)"),
            ),
        ),
        IrInst::Intrinsic { dst, name } => {
            let mut m = chars_of("instruction Intrinsic { dst: VReg(");
            extend_decimal(&mut m, dst.n as u64);
            extend_str(&mut m, "), name: ");
            let t: String = debug_of(name.as_str());
            extend_str(&mut m, t.as_str());
            extend_str(&mut m, " }");
            Err(JitError::Unsupported(string_of(&m)))
        },
    }
}

proof fn lemma_insts_stop(insts: Seq<IrInst>, j: nat, k: nat, defs: Seq<u32>, math: bool)
    requires
        j <= k,
        lower_insts(insts, j, defs, math) is Err,
    ensures
        lower_insts(insts, k, defs, math) == lower_insts(insts, j, defs, math),
    decreases k,
{
    if j < k {
        lemma_insts_stop(insts, j, (k - 1) as nat, defs, math);
    }
}

/// The code of the instructions past the phis; `defs` grows by their registers.
pub(crate) fn emit_insts(insts: &Vec<IrInst>, phis: usize, defs: &mut Vec<u32>, math: bool) -> (r: Result<
    Vec<Inst>,
    JitError,
>)
    requires
        phis == phi_count(insts@),
        phis <= insts@.len(),
    ensures
        match lower_insts(insts@, (insts@.len() - phis) as nat, old(defs)@, math) {
            Ok((code, d)) => r is Ok && r->Ok_0@ == code && final(defs)@ == d,
            Err(e) => r is Err && r->Err_0.deep() == e,
        },
{
    let ghost d0 = defs@;
    let mut out: Vec<Inst> = Vec::new();
    let mut i: usize = phis;
    while i < insts.len()
        invariant
            d0 == old(defs)@,
            phis == phi_count(insts@),
            phis <= i <= insts@.len(),
            lower_insts(insts@, (i - phis) as nat, d0, math) == Ok::<
                (Seq<Inst>, Seq<u32>),
                Refusal,
            >((out@, defs@)),
        decreases insts@.len() - i,
    {
        match lower_inst(&insts[i], defs, math) {
            Err(e) => {
                proof {
                    lemma_insts_stop(
                        insts@,
                        (i - phis + 1) as nat,
                        (insts@.len() - phis) as nat,
                        d0,
                        math,
                    );
                }
                return Err(e);
            },
            Ok(op) => {
                let d: VReg = dst_of(&insts[i]);
                out.push(Inst::Def(Name::Reg(d.n), op));
                defs.push(d.n);
            },
        }
        i += 1;
    }
    Ok(out)
}

// ── Edges ────────────────────────────────────────────────────────────

proof fn lemma_phi_args_stop(
    from: BlockId,
    to: BlockId,
    insts: Seq<IrInst>,
    j: nat,
    k: nat,
    defs: Seq<u32>,
)
    requires
        j <= k,
        phi_args(from, to, insts, j, defs) is Err,
    ensures
        phi_args(from, to, insts, k, defs) == phi_args(from, to, insts, j, defs),
    decreases k,
{
    if j < k {
        lemma_phi_args_stop(from, to, insts, j, (k - 1) as nat, defs);
    }
}

fn emit_edge(f: &IrFunc, shape: Shape, k: usize, to: BlockId, at: usize, defs: &Vec<u32>) -> (r: Result<
    Vec<Name>,
    JitError,
>)
    requires
        block_index(f.blocks@, to) == Some(at as int),
        at < f.blocks@.len(),
        k < f.blocks@.len(),
        f.blocks@.len() + 5 <= usize::MAX,
    ensures
        match edge_args(*f, shape, k as int, to, defs@) {
            Ok(a) => r is Ok && r->Ok_0@ == a,
            Err(e) => r is Err && r->Err_0.deep() == e,
        },
{
    let from: BlockId = f.blocks[k].id;
    let insts = &f.blocks[at].insts;
    let n: usize = count_phis(insts);
    let mut out: Vec<Name> = Vec::new();
    match shape {
        Shape::Scalar => {},
        Shape::Rows(_) => {
            out.push(Name::Row(k + 5));
        },
        Shape::Fold(_) => {
            out.push(Name::Row(k + 4));
            out.push(Name::Acc(k + 4));
        },
    }
    let ghost head = carried(shape, scaffold(shape) + k);
    assert(out@ =~= head);
    let ghost mut a: Seq<Name> = Seq::empty();
    for j in 0..n
        invariant
            n == phi_count(insts@),
            n <= insts@.len(),
            out@ =~= head + a,
            phi_args(from, to, insts@, j as nat, defs@) == Ok::<Seq<Name>, Refusal>(a),
            from == f.blocks@[k as int].id,
            insts@ == f.blocks@[block_index(f.blocks@, to)->0].insts@,
    {
        let src = match &insts[j] {
            IrInst::Phi { sources, .. } => find_source(sources, from),
            _ => None,
        };
        match src {
            None => {
                proof {
                    lemma_phi_args_stop(from, to, insts@, (j + 1) as nat, n as nat, defs@);
                }
                let mut m = chars_of("phi in bb");
                extend_decimal(&mut m, to.n as u64);
                extend_str(&mut m, " has no source from bb");
                extend_decimal(&mut m, from.n as u64);
                return Err(JitError::CraneliftError(string_of(&m)));
            },
            Some(v) => {
                if !is_defined(defs, v.n) {
                    proof {
                        lemma_phi_args_stop(from, to, insts@, (j + 1) as nat, n as nat, defs@);
                    }
                    return Err(JitError::UndefinedVReg(v));
                }
                proof {
                    a = a.push(Name::Reg(v.n));
                }
                out.push(Name::Reg(v.n));
            },
        }
    }
    Ok(out)
}

fn emit_return(shape: Shape, b: usize, v: Option<VReg>) -> (r: (Vec<Inst>, Term))
    ensures
        r.0@ == lower_return(shape, b as int, v).0,
        r.1.deep() == lower_return(shape, b as int, v).1,
{
    let mut more: Vec<Inst> = Vec::new();
    let ghost want = lower_return(shape, b as int, v);
    let term = match shape {
        Shape::Scalar => match v {
            Some(x) => Term::Return(Some(Name::Reg(x.n))),
            None => {
                more.push(Inst::Def(Name::Lit(b), Op::Real(Real { bits: 0 })));
                Term::Return(Some(Name::Lit(b)))
            },
        },
        Shape::Rows(_) => {
            let last: Name = match v {
                Some(x) => Name::Reg(x.n),
                None => {
                    more.push(Inst::Def(Name::Lit(b), Op::Real(Real { bits: NAN_BITS })));
                    Name::Lit(b)
                },
            };
            let args: Vec<Name> = vec![Name::Row(b), last];
            assert(args@ =~= seq![Name::Row(b), last]);
            Term::Jump(3, args)
        },
        Shape::Fold(op) => {
            let acc: Name = match v {
                Some(x) => {
                    let g: Fun = match op {
                        FusedReduceOp::Sum => Fun::Add,
                        FusedReduceOp::Prod => Fun::Mul,
                    };
                    more.push(
                        Inst::Def(Name::NextAcc(b), Op::Fun2(g, Name::Acc(b), Name::Reg(x.n))),
                    );
                    Name::NextAcc(b)
                },
                None => Name::Acc(b),
            };
            more.push(Inst::Def(Name::NextRow(b), Op::Step(Name::Row(b), 1)));
            let args: Vec<Name> = vec![Name::NextRow(b), acc];
            assert(args@ =~= seq![Name::NextRow(b), acc]);
            Term::Jump(1, args)
        },
    };
    assert(more@ =~= want.0);
    (more, term)
}

fn base_of(shape: Shape) -> (r: usize)
    ensures
        r == scaffold(shape),
{
    match shape {
        Shape::Scalar => 0,
        Shape::Rows(_) => 5,
        Shape::Fold(_) => 4,
    }
}

fn emit_term(f: &IrFunc, shape: Shape, k: usize, defs: &Vec<u32>) -> (r: Result<
    (Vec<Inst>, Term),
    JitError,
>)
    requires
        k < f.blocks@.len(),
        f.blocks@.len() + 5 <= usize::MAX,
    ensures
        match lower_term(*f, shape, k as int, defs@) {
            Ok((more, t)) => r is Ok && r->Ok_0.0@ == more && r->Ok_0.1.deep() == t,
            Err(e) => r is Err && r->Err_0.deep() == e,
        },
{
    let base: usize = base_of(shape);
    match &f.blocks[k].term {
        IrTerm::Return(None) => Ok(emit_return(shape, base + k, None)),
        IrTerm::Return(Some(v)) => if is_defined(defs, v.n) {
            Ok(emit_return(shape, base + k, Some(*v)))
        } else {
            Err(JitError::UndefinedVReg(*v))
        },
        IrTerm::Jump(t) => match find_block(f, *t) {
            None => Err(JitError::UndefinedBlock(*t)),
            Some(i) => match emit_edge(f, shape, k, *t, i, defs) {
                Err(e) => Err(e),
                Ok(a) => Ok((Vec::new(), Term::Jump(base + i, a))),
            },
        },
        IrTerm::Branch { cond, yes, no } => {
            if !is_defined(defs, cond.n) {
                return Err(JitError::UndefinedVReg(*cond));
            }
            let y: usize = match find_block(f, *yes) {
                None => return Err(JitError::UndefinedBlock(*yes)),
                Some(i) => i,
            };
            let n: usize = match find_block(f, *no) {
                None => return Err(JitError::UndefinedBlock(*no)),
                Some(i) => i,
            };
            let ya = match emit_edge(f, shape, k, *yes, y, defs) {
                Err(e) => return Err(e),
                Ok(a) => a,
            };
            let na = match emit_edge(f, shape, k, *no, n, defs) {
                Err(e) => return Err(e),
                Ok(a) => a,
            };
            Ok((Vec::new(), Term::IfNonzero(Name::Reg(cond.n), base + y, ya, base + n, na)))
        },
        IrTerm::Unreachable => Ok((Vec::new(), Term::Trap)),
    }
}

// ── Blocks ───────────────────────────────────────────────────────────

/// The registers that a block receives.
fn received_regs(f: &IrFunc, k: usize) -> (r: Vec<u32>)
    requires
        k < f.blocks@.len(),
    ensures
        r@ == received(*f, k as int),
{
    let blk = &f.blocks[k];
    let n: usize = count_phis(&blk.insts);
    let mut out: Vec<u32> = Vec::new();
    for i in 0..n
        invariant
            n == phi_count(blk.insts@),
            n <= blk.insts@.len(),
            out@ =~= phi_regs(blk.insts@).subrange(0, i as int),
    {
        out.push(dst_of(&blk.insts[i]).n);
    }
    assert(out@ =~= phi_regs(blk.insts@));
    if blk.id == f.entry {
        for i in 0..f.params.len()
            invariant
                out@ =~= phi_regs(blk.insts@) + param_regs(f.params@).subrange(0, i as int),
        {
            out.push(f.params[i].reg.n);
        }
        assert(out@ =~= phi_regs(blk.insts@) + param_regs(f.params@));
    }
    assert(out@ =~= received(*f, k as int));
    out
}

fn emit_block(f: &IrFunc, shape: Shape, k: usize, defs: &mut Vec<u32>) -> (r: Result<
    Block,
    JitError,
>)
    requires
        k < f.blocks@.len(),
        f.blocks@.len() + 5 <= usize::MAX,
    ensures
        match lower_block(*f, shape, k as int, old(defs)@) {
            Ok((b, d)) => r is Ok && r->Ok_0.deep() == b && final(defs)@ == d,
            Err(e) => r is Err && r->Err_0.deep() == e,
        },
{
    let ghost d0 = defs@;
    let base: usize = base_of(shape);
    let regs = received_regs(f, k);
    let mut params: Vec<(Name, Ty)> = Vec::new();
    match shape {
        Shape::Scalar => {},
        Shape::Rows(_) => {
            params.push((Name::Row(base + k), Ty::Int));
        },
        Shape::Fold(_) => {
            params.push((Name::Row(base + k), Ty::Int));
            params.push((Name::Acc(base + k), Ty::Real));
        },
    }
    let ghost head = carried_params(shape, scaffold(shape) + k);
    assert(params@ =~= head);
    let again: bool = match shape {
        Shape::Scalar => f.blocks[k].id == f.entry,
        _ => false,
    };
    for i in 0..regs.len()
        invariant
            params@ =~= head + as_reals(regs@).subrange(0, i as int),
            defs@ =~= if again {
                d0
            } else {
                d0 + regs@.subrange(0, i as int)
            },
    {
        params.push((Name::Reg(regs[i]), Ty::Real));
        if !again {
            defs.push(regs[i]);
        }
    }
    assert(params@ =~= head + as_reals(regs@));
    assert(regs@.subrange(0, regs@.len() as int) =~= regs@);
    assert(defs@ =~= defs_at(*f, shape, k as int, d0));
    let phis: usize = count_phis(&f.blocks[k].insts);
    let code = match emit_insts(&f.blocks[k].insts, phis, defs, true) {
        Err(e) => return Err(e),
        Ok(c) => c,
    };
    let (more, term) = match emit_term(f, shape, k, defs) {
        Err(e) => return Err(e),
        Ok(t) => t,
    };
    let ghost c0 = code@;
    let mut insts = code;
    for i in 0..more.len()
        invariant
            insts@ =~= c0 + more@.subrange(0, i as int),
    {
        insts.push(more[i]);
    }
    assert(insts@ =~= c0 + more@);
    Ok(Block { params, insts, term })
}

proof fn lemma_blocks_stop(f: IrFunc, shape: Shape, j: nat, k: nat)
    requires
        j <= k,
        lower_blocks(f, shape, j) is Err,
    ensures
        lower_blocks(f, shape, k) == lower_blocks(f, shape, j),
    decreases k,
{
    if j < k {
        lemma_blocks_stop(f, shape, j, (k - 1) as nat);
    }
}

pub(crate) fn block(params: Vec<(Name, Ty)>, insts: Vec<Inst>, term: Term) -> (r: Block)
    ensures
        r.deep() == (BlockV { params: params@, insts: insts@, term: term.deep() }),
{
    Block { params, insts, term }
}

/// The blocks of the loop around a body whose entry is block `e`.
fn emit_loop(shape: Shape, e: usize) -> (r: Vec<Block>)
    requires
        e + 5 <= usize::MAX,
    ensures
        r@.len() == loop_blocks(shape, e as int).len(),
        forall|i: int| 0 <= i < r@.len() ==> (#[trigger] r@[i]).deep() == loop_blocks(shape, e as int)[i],
{
    let ghost want = loop_blocks(shape, e as int);
    let mut out: Vec<Block> = Vec::new();
    match shape {
        Shape::Scalar => {},
        Shape::Rows(n) => {
            let p: Vec<(Name, Ty)> = vec![(Name::Len, Ty::Int)];
            let i: Vec<Inst> = vec![Inst::Def(Name::Lit(0), Op::Int(0))];
            let a: Vec<Name> = vec![Name::Lit(0)];
            assert(p@ =~= want[0].params && i@ =~= want[0].insts && a@ =~= seq![Name::Lit(0)]);
            out.push(block(p, i, Term::Jump(1, a)));
            let p: Vec<(Name, Ty)> = vec![(Name::Row(1), Ty::Int)];
            let a: Vec<Name> = vec![Name::Row(1)];
            let z: Vec<Name> = Vec::new();
            assert(p@ =~= want[1].params && a@ =~= seq![Name::Row(1)] && z@ =~= Seq::empty());
            out.push(block(p, Vec::new(), Term::IfLess(Name::Row(1), Name::Len, 2, a, 4, z)));
            let p: Vec<(Name, Ty)> = vec![(Name::Row(2), Ty::Int)];
            let mut i: Vec<Inst> = Vec::new();
            let mut a: Vec<Name> = vec![Name::Row(2)];
            assert(a@ =~= seq![Name::Row(2)]);
            for j in 0..n
                invariant
                    i@ =~= loads(n as nat).subrange(0, j as int),
                    a@ =~= seq![Name::Row(2)] + items(n as nat).subrange(0, j as int),
            {
                i.push(Inst::Def(Name::Item(j), Op::Load(j, Name::Row(2))));
                a.push(Name::Item(j));
            }
            assert(i@ =~= loads(n as nat));
            assert(a@ =~= seq![Name::Row(2)] + items(n as nat));
            assert(p@ =~= want[2].params);
            out.push(block(p, i, Term::Jump(5 + e, a)));
            let p: Vec<(Name, Ty)> = vec![(Name::Row(3), Ty::Int), (Name::Result, Ty::Real)];
            let i: Vec<Inst> = vec![
                Inst::Store(Name::Row(3), Name::Result),
                Inst::Def(Name::NextRow(3), Op::Step(Name::Row(3), 1)),
            ];
            let a: Vec<Name> = vec![Name::NextRow(3)];
            assert(p@ =~= want[3].params && i@ =~= want[3].insts && a@ =~= seq![Name::NextRow(3)]);
            out.push(block(p, i, Term::Jump(1, a)));
            out.push(block(Vec::new(), Vec::new(), Term::Return(None)));
        },
        Shape::Fold(op) => {
            let id: Real = match op {
                FusedReduceOp::Sum => Real { bits: 0 },
                FusedReduceOp::Prod => Real { bits: ONE_BITS },
            };
            let p: Vec<(Name, Ty)> = vec![(Name::Len, Ty::Int)];
            let i: Vec<Inst> = vec![
                Inst::Def(Name::Lit(0), Op::Int(0)),
                Inst::Def(Name::Lit(1), Op::Real(id)),
            ];
            let a: Vec<Name> = vec![Name::Lit(0), Name::Lit(1)];
            assert(p@ =~= want[0].params && i@ =~= want[0].insts && a@ =~= seq![
                Name::Lit(0),
                Name::Lit(1),
            ]);
            out.push(block(p, i, Term::Jump(1, a)));
            let p: Vec<(Name, Ty)> = vec![(Name::Row(1), Ty::Int), (Name::Acc(1), Ty::Real)];
            let a: Vec<Name> = vec![Name::Row(1), Name::Acc(1)];
            let z: Vec<Name> = vec![Name::Acc(1)];
            assert(p@ =~= want[1].params && a@ =~= seq![Name::Row(1), Name::Acc(1)] && z@ =~= seq![
                Name::Acc(1),
            ]);
            out.push(block(p, Vec::new(), Term::IfLess(Name::Row(1), Name::Len, 2, a, 3, z)));
            let p: Vec<(Name, Ty)> = vec![(Name::Row(2), Ty::Int), (Name::Acc(2), Ty::Real)];
            let i: Vec<Inst> = vec![Inst::Def(Name::Item(0), Op::Load(0, Name::Row(2)))];
            let a: Vec<Name> = vec![Name::Row(2), Name::Acc(2), Name::Item(0)];
            assert(i@ =~= loads(1));
            assert(p@ =~= want[2].params && a@ =~= seq![Name::Row(2), Name::Acc(2), Name::Item(0)]);
            out.push(block(p, i, Term::Jump(4 + e, a)));
            let p: Vec<(Name, Ty)> = vec![(Name::Acc(3), Ty::Real)];
            assert(p@ =~= want[3].params);
            out.push(block(p, Vec::new(), Term::Return(Some(Name::Acc(3)))));
        },
    }
    out
}

/// The code of a function in the given shape.
pub fn emit(f: &IrFunc, shape: Shape) -> (r: Result<Code, JitError>)
    requires
        f.blocks@.len() + 5 <= usize::MAX,
    ensures
        match lower(*f, shape) {
            Ok(bs) => r is Ok && r->Ok_0.deep() == bs,
            Err(e) => r is Err && r->Err_0.deep() == e,
        },
{
    let looped: bool = match shape {
        Shape::Scalar => false,
        _ => true,
    };
    if looped && f.blocks.len() == 0 {
        return Err(unsupported("empty IR body"));
    }
    let e: usize = match find_block(f, f.entry) {
        None => return Err(JitError::UndefinedBlock(f.entry)),
        Some(i) => i,
    };
    let mut out: Vec<Block> = emit_loop(shape, e);
    let ghost head = loop_blocks(shape, e as int);
    let mut defs: Vec<u32> = if looped {
        Vec::new()
    } else {
        received_regs(f, e)
    };
    assert(defs@ =~= initial_defs(*f, shape));
    let ghost mut bs: Seq<BlockV> = Seq::empty();
    let n: usize = f.blocks.len();
    let mut k: usize = 0;
    while k < n
        invariant
            k <= n == f.blocks@.len(),
            n + 5 <= usize::MAX,
            block_index(f.blocks@, f.entry) == Some(e as int),
            looped == !(shape is Scalar),
            looped ==> n > 0,
            lower_blocks(*f, shape, k as nat) == Ok::<(Seq<BlockV>, Seq<u32>), Refusal>((bs, defs@)),
            bs.len() == k,
            out@.len() == head.len() + k,
            forall|i: int| 0 <= i < head.len() ==> (#[trigger] out@[i]).deep() == head[i],
            forall|i: int| 0 <= i < k ==> (#[trigger] out@[head.len() + i]).deep() == bs[i],
        decreases n - k,
    {
        match emit_block(f, shape, k, &mut defs) {
            Err(e) => {
                proof {
                    lemma_blocks_stop(*f, shape, (k + 1) as nat, n as nat);
                }
                return Err(e);
            },
            Ok(b) => {
                proof {
                    bs = bs.push(b.deep());
                }
                out.push(b);
            },
        }
        k += 1;
    }
    let r = Code { blocks: out };
    assert(r.deep() =~= head + bs) by {
        assert forall|i: int| 0 <= i < out@.len() implies r.deep()[i] == (head + bs)[i] by {
            if i >= head.len() {
                assert(out@[head.len() + (i - head.len())].deep() == bs[i - head.len()]);
            } else {
                assert(out@[i].deep() == head[i]);
            }
        }
    }
    Ok(r)
}

} // verus!
