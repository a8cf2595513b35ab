//! Row loops that take two rows at a time.
use crate::double::{Real, ONE_BITS};
use crate::jit_code::{Block, BlockV, Code, Inst, Name, Op, Term, TermV, Ty};
use crate::jit_emit::{
    block, dst_of, emit_insts, find_native1, find_native2, is_defined, undefined_arg, unsupported,
};
use crate::jit_ir::{inst_dst, native1, native2, phi_count, BinOp, Fun, IrConst, IrFunc, IrInst, IrTerm, UnOp, VReg};
use crate::jit_lower::{bin_name, bin_text, first_undefined, lower_insts, param_regs, JitError, Refusal};
use crate::text::{chars_of, extend_str, same_text, string_of};
use crate::value::bool_real;
use vstd::prelude::*;

verus! {

/// The instructions that have a form for two rows.
pub open spec fn clean_inst(inst: IrInst) -> bool {
    match inst {
        IrInst::Const { value, .. } => value is Real || value is Int || value is Bool,
        IrInst::Unary { op, .. } => op is Neg || op is Pos,
        IrInst::Binary { op, .. } => op is Add || op is Sub || op is Mul || op is Div,
        IrInst::Call { name, args, .. } => {
            ||| args@.len() == 1 && (native1(name@) is Some || name@ == "abs"@)
            ||| args@.len() == 2 && native2(name@) is Some
        },
        _ => false,
    }
}

/// A body of one block that returns a value and has only such instructions.
pub open spec fn simd_clean(f: IrFunc) -> bool {
    &&& f.blocks@.len() == 1
    &&& f.blocks@[0].term matches IrTerm::Return(Some(_))
    &&& forall|i: int| 0 <= i < f.blocks@[0].insts@.len() ==> clean_inst(#[trigger] f.blocks@[0].insts@[i])
}

/// The code of an instruction for two rows.
pub open spec fn wide_op(inst: IrInst, defs: Seq<u32>) -> Result<Op, Refusal> {
    match inst {
        IrInst::Const { value, .. } => match value {
            IrConst::Real(x) => Ok(Op::Both(x)),
            IrConst::Int(n) => Ok(Op::BothInt(n)),
            IrConst::Bool(b) => Ok(Op::Both(bool_real(b))),
            _ => Err(Refusal::Unsupported("simd: unsupported const"@)),
        },
        IrInst::Binary { op, lhs, rhs, .. } => if !defs.contains(lhs.n) {
            Err(Refusal::UndefinedVReg(lhs))
        } else if !defs.contains(rhs.n) {
            Err(Refusal::UndefinedVReg(rhs))
        } else {
            let l = Name::Wide(lhs.n);
            let r = Name::Wide(rhs.n);
            match op {
                BinOp::Add => Ok(Op::Fun2(Fun::Add, l, r)),
                BinOp::Sub => Ok(Op::Fun2(Fun::Sub, l, r)),
                BinOp::Mul => Ok(Op::Fun2(Fun::Mul, l, r)),
                BinOp::Div => Ok(Op::Fun2(Fun::Div, l, r)),
                _ => Err(Refusal::Unsupported("simd: binop "@ + bin_name(op))),
            }
        },
        IrInst::Unary { op, src, .. } => if !defs.contains(src.n) {
            Err(Refusal::UndefinedVReg(src))
        } else {
            match op {
                UnOp::Neg => Ok(Op::Neg(Name::Wide(src.n))),
                UnOp::Pos => Ok(Op::Copy(Name::Wide(src.n))),
                UnOp::Not => Err(Refusal::Unsupported("simd: unsupported unop"@)),
            }
        },
        IrInst::Call { name, args, .. } => match first_undefined(args@, defs) {
            Some(r) => Err(Refusal::UndefinedVReg(r)),
            None => if args@.len() == 1 && native1(name@) is Some {
                Ok(Op::Fun1(native1(name@)->0, Name::Wide(args@[0].n)))
            } else if args@.len() == 1 && name@ == "abs"@ {
                Ok(Op::Abs(Name::Wide(args@[0].n)))
            } else if args@.len() == 2 && native2(name@) is Some {
                Ok(Op::Fun2(native2(name@)->0, Name::Wide(args@[0].n), Name::Wide(args@[1].n)))
            } else {
                Err(Refusal::Unsupported("simd: Call to `"@ + name@ + "`"@))
            },
        },
        _ => Err(Refusal::Unsupported("simd: unsupported instruction"@)),
    }
}

/// The code of the first `k` instructions for two rows, and the registers that
/// are defined after them.
pub open spec fn wide_insts(insts: Seq<IrInst>, k: nat, defs: Seq<u32>) -> Result<
    (Seq<Inst>, Seq<u32>),
    Refusal,
>
    decreases k,
{
    if k == 0 {
        Ok((Seq::empty(), defs))
    } else {
        match wide_insts(insts, (k - 1) as nat, defs) {
            Err(e) => Err(e),
            Ok((code, d)) => match wide_op(insts[k - 1], d) {
                Err(e) => Err(e),
                Ok(op) => Ok(
                    (
                        code.push(Inst::Def(Name::Wide(inst_dst(insts[k - 1]).n), op)),
                        d.push(inst_dst(insts[k - 1]).n),
                    ),
                ),
            },
        }
    }
}

pub open spec fn pair_loads(regs: Seq<u32>) -> Seq<Inst> {
    Seq::new(
        regs.len(),
        |k: int| Inst::Def(Name::Wide(regs[k]), Op::LoadPair(k as usize, Name::Row(1))),
    )
}

pub open spec fn single_loads(regs: Seq<u32>) -> Seq<Inst> {
    Seq::new(
        regs.len(),
        |k: int| Inst::Def(Name::Reg(regs[k]), Op::Load(k as usize, Name::Row(3))),
    )
}

/// The whole loop: pairs of rows, then the odd one.
pub open spec fn simd_blocks(
    regs: Seq<u32>,
    wide: Seq<Inst>,
    single: Seq<Inst>,
    ret: u32,
) -> Seq<BlockV> {
    seq![
        BlockV {
            params: seq![(Name::Len, Ty::Int)],
            insts: seq![
                Inst::Def(Name::Pairs, Op::Even(Name::Len)),
                Inst::Def(Name::Lit(0), Op::Int(0)),
            ],
            term: TermV::Jump(1, seq![Name::Lit(0)]),
        },
        BlockV {
            params: seq![(Name::Row(1), Ty::Int)],
            insts: Seq::empty(),
            term: TermV::IfLess(
                Name::Row(1),
                Name::Pairs,
                2,
                Seq::empty(),
                3,
                seq![Name::Row(1)],
            ),
        },
        BlockV {
            params: Seq::empty(),
            insts: pair_loads(regs) + wide + seq![
                Inst::StorePair(Name::Row(1), Name::Wide(ret)),
                Inst::Def(Name::NextRow(2), Op::Step(Name::Row(1), 2)),
            ],
            term: TermV::Jump(1, seq![Name::NextRow(2)]),
        },
        BlockV {
            params: seq![(Name::Row(3), Ty::Int)],
            insts: Seq::empty(),
            term: TermV::IfLess(Name::Row(3), Name::Len, 4, Seq::empty(), 5, Seq::empty()),
        },
        BlockV {
            params: Seq::empty(),
            insts: single_loads(regs) + single + seq![
                Inst::Store(Name::Row(3), Name::Reg(ret)),
                Inst::Def(Name::NextRow(4), Op::Step(Name::Row(3), 1)),
            ],
            term: TermV::Jump(3, seq![Name::NextRow(4)]),
        },
        BlockV { params: Seq::empty(), insts: Seq::empty(), term: TermV::Return(None) },
    ]
}

/// The code of a body that takes two rows at a time, or why there is none.
pub open spec fn lower_simd(f: IrFunc) -> Result<Seq<BlockV>, Refusal> {
    if !simd_clean(f) {
        Err(Refusal::Unsupported("body is not SIMD-clean"@))
    } else {
        let insts = f.blocks@[0].insts@;
        let regs = param_regs(f.params@);
        let ret = f.blocks@[0].term->Return_0->0;
        match wide_insts(insts, insts.len(), regs) {
            Err(e) => Err(e),
            Ok((wide, d)) => if !d.contains(ret.n) {
                Err(Refusal::UndefinedVReg(ret))
            } else {
                match lower_insts(insts, insts.len(), regs, false) {
                    Err(e) => Err(e),
                    Ok((single, _)) => Ok(simd_blocks(regs, wide, single, ret.n)),
                }
            },
        }
    }
}

// ── Generation ───────────────────────────────────────────────────────

/// Whether a body can take two rows at a time.
pub fn body_is_simd_clean(f: &IrFunc) -> (r: bool)
    ensures
        r == simd_clean(*f),
{
    if f.blocks.len() != 1 {
        return false;
    }
    let blk = &f.blocks[0];
    match blk.term {
        IrTerm::Return(Some(_)) => {},
        _ => {
            return false;
        },
    }
    let mut i: usize = 0;
    while i < blk.insts.len()
        invariant
            f.blocks@.len() == 1,
            *blk == f.blocks@[0],
            i <= blk.insts@.len(),
            forall|j: int| 0 <= j < i ==> clean_inst(#[trigger] blk.insts@[j]),
        decreases blk.insts@.len() - i,
    {
        let ok: bool = match &blk.insts[i] {
            IrInst::Const { value, .. } => match value {
                IrConst::Real(_) => true,
                IrConst::Int(_) => true,
                IrConst::Bool(_) => true,
                _ => false,
            },
            IrInst::Unary { op, .. } => match op {
                UnOp::Neg => true,
                UnOp::Pos => true,
                _ => false,
            },
            IrInst::Binary { op, .. } => match op {
                BinOp::Add => true,
                BinOp::Sub => true,
                BinOp::Mul => true,
                BinOp::Div => true,
                _ => false,
            },
            IrInst::Call { name, args, .. } => {
                (args.len() == 1 && (find_native1(name.as_str()).is_some() || same_text(
                    name.as_str(),
                    "abs",
                ))) || (args.len() == 2 && find_native2(name.as_str()).is_some())
            },
            _ => false,
        };
        if !ok {
            assert(!clean_inst(f.blocks@[0].insts@[i as int]));
            return false;
        }
        i += 1;
    }
    true
}

/// The code of one instruction for two rows.
pub fn lower_inst_simd(inst: &IrInst, defs: &Vec<u32>) -> (r: Result<Op, JitError>)
    ensures
        match wide_op(*inst, defs@) {
            Ok(op) => r is Ok && r->Ok_0 == op,
            Err(e) => r is Err && r->Err_0.deep() == e,
        },
{
    match inst {
        IrInst::Const { value, .. } => match value {
            IrConst::Real(x) => Ok(Op::Both(*x)),
            IrConst::Int(n) => Ok(Op::BothInt(*n)),
            IrConst::Bool(b) => Ok(
                Op::Both(
                    if *b {
                        Real { bits: ONE_BITS }
                    } else {
                        Real { bits: 0 }
                    },
                ),
            ),
            _ => Err(unsupported("simd: unsupported const")),
        },
        IrInst::Binary { op, lhs, rhs, .. } => {
            if !is_defined(defs, lhs.n) {
                return Err(JitError::UndefinedVReg(*lhs));
            }
            if !is_defined(defs, rhs.n) {
                return Err(JitError::UndefinedVReg(*rhs));
            }
            let a: Name = Name::Wide(lhs.n);
            let b: Name = Name::Wide(rhs.n);
            match op {
                BinOp::Add => Ok(Op::Fun2(Fun::Add, a, b)),
                BinOp::Sub => Ok(Op::Fun2(Fun::Sub, a, b)),
                BinOp::Mul => Ok(Op::Fun2(Fun::Mul, a, b)),
                BinOp::Div => Ok(Op::Fun2(Fun::Div, a, b)),
                _ => {
                    let mut m = chars_of("simd: binop ");
                    let t = bin_text(*op);
                    extend_str(&mut m, t.as_str());
                    Err(JitError::Unsupported(string_of(&m)))
                },
            }
        },
        IrInst::Unary { op, src, .. } => {
            if !is_defined(defs, src.n) {
                return Err(JitError::UndefinedVReg(*src));
            }
            match op {
                UnOp::Neg => Ok(Op::Neg(Name::Wide(src.n))),
                UnOp::Pos => Ok(Op::Copy(Name::Wide(src.n))),
                UnOp::Not => Err(unsupported("simd: unsupported unop")),
            }
        },
        IrInst::Call { name, args, .. } => {
            if let Some(v) = undefined_arg(args, defs) {
                return Err(JitError::UndefinedVReg(v));
            }
            if args.len() == 1 {
                if let Some(g) = find_native1(name.as_str()) {
                    return Ok(Op::Fun1(g, Name::Wide(args[0].n)));
                }
                if same_text(name.as_str(), "abs") {
                    return Ok(Op::Abs(Name::Wide(args[0].n)));
                }
            }
            if args.len() == 2 {
                if let Some(g) = find_native2(name.as_str()) {
                    return Ok(Op::Fun2(g, Name::Wide(args[0].n), Name::Wide(args[1].n)));
                }
            }
            let mut m = chars_of("simd: Call to `");
            extend_str(&mut m, name.as_str());
            extend_str(&mut m, "`");
            Err(JitError::Unsupported(string_of(&m)))
        },
        _ => Err(unsupported("simd: unsupported instruction")),
    }
}

proof fn lemma_wide_stop(insts: Seq<IrInst>, j: nat, k: nat, defs: Seq<u32>)
    requires
        j <= k,
        wide_insts(insts, j, defs) is Err,
    ensures
        wide_insts(insts, k, defs) == wide_insts(insts, j, defs),
    decreases k,
{
    if j < k {
        lemma_wide_stop(insts, j, (k - 1) as nat, defs);
    }
}

fn emit_wide(insts: &Vec<IrInst>, defs: &mut Vec<u32>) -> (r: Result<Vec<Inst>, JitError>)
    ensures
        match wide_insts(insts@, insts@.len(), old(defs)@) {
            Ok((code, d)) => r is Ok && r->Ok_0@ == code && final(defs)@ == d,
            Err(e) => r is Err && r->Err_0.deep() == e,
        },
{
    let ghost d0 = defs@;
    let mut out: Vec<Inst> = Vec::new();
    let mut i: usize = 0;
    while i < insts.len()
        invariant
            d0 == old(defs)@,
            i <= insts@.len(),
            wide_insts(insts@, i as nat, d0) == Ok::<(Seq<Inst>, Seq<u32>), Refusal>(
                (out@, defs@),
            ),
        decreases insts@.len() - i,
    {
        match lower_inst_simd(&insts[i], defs) {
            Err(e) => {
                proof {
                    lemma_wide_stop(insts@, (i + 1) as nat, insts@.len(), d0);
                }
                return Err(e);
            },
            Ok(op) => {
                let d: VReg = dst_of(&insts[i]);
                out.push(Inst::Def(Name::Wide(d.n), op));
                defs.push(d.n);
            },
        }
        i += 1;
    }
    Ok(out)
}

proof fn lemma_no_phis(insts: Seq<IrInst>)
    requires
        forall|i: int| 0 <= i < insts.len() ==> clean_inst(#[trigger] insts[i]),
    ensures
        phi_count(insts) == 0,
{
    if insts.len() > 0 {
        assert(clean_inst(insts[0]));
    }
}

/// The code of a body that takes two rows at a time.
pub fn emit_simd(f: &IrFunc) -> (r: Result<Code, JitError>)
    ensures
        match lower_simd(*f) {
            Ok(bs) => r is Ok && r->Ok_0.deep() == bs,
            Err(e) => r is Err && r->Err_0.deep() == e,
        },
{
    if !body_is_simd_clean(f) {
        return Err(unsupported("body is not SIMD-clean"));
    }
    let blk = &f.blocks[0];
    proof {
        lemma_no_phis(blk.insts@);
    }
    let ret: VReg = match blk.term {
        IrTerm::Return(Some(v)) => v,
        _ => VReg { n: 0 },
    };
    let mut regs: Vec<u32> = Vec::new();
    let mut wide_code: Vec<Inst> = Vec::new();
    let mut code: Vec<Inst> = Vec::new();
    for i in 0..f.params.len()
        invariant
            regs@ =~= param_regs(f.params@).subrange(0, i as int),
            wide_code@ =~= pair_loads(param_regs(f.params@)).subrange(0, i as int),
            code@ =~= single_loads(param_regs(f.params@)).subrange(0, i as int),
    {
        let n: u32 = f.params[i].reg.n;
        regs.push(n);
        wide_code.push(Inst::Def(Name::Wide(n), Op::LoadPair(i, Name::Row(1))));
        code.push(Inst::Def(Name::Reg(n), Op::Load(i, Name::Row(3))));
    }
    let ghost ps = param_regs(f.params@);
    assert(regs@ =~= ps && wide_code@ =~= pair_loads(ps) && code@ =~= single_loads(ps));
    let mut defs: Vec<u32> = Vec::new();
    for i in 0..regs.len()
        invariant
            defs@ =~= regs@.subrange(0, i as int),
    {
        defs.push(regs[i]);
    }
    assert(defs@ =~= ps);
    let mut wide = match emit_wide(&blk.insts, &mut defs) {
        Err(e) => return Err(e),
        Ok(c) => c,
    };
    if !is_defined(&defs, ret.n) {
        return Err(JitError::UndefinedVReg(ret));
    }
    let mut single = match emit_insts(&blk.insts, 0, &mut regs, false) {
        Err(e) => return Err(e),
        Ok(c) => c,
    };
    let ghost w0 = wide@;
    let ghost s0 = single@;
    wide_code.append(&mut wide);
    wide_code.push(Inst::StorePair(Name::Row(1), Name::Wide(ret.n)));
    wide_code.push(Inst::Def(Name::NextRow(2), Op::Step(Name::Row(1), 2)));
    code.append(&mut single);
    code.push(Inst::Store(Name::Row(3), Name::Reg(ret.n)));
    code.push(Inst::Def(Name::NextRow(4), Op::Step(Name::Row(3), 1)));
    let ghost want = simd_blocks(ps, w0, s0, ret.n);
    assert(wide_code@ =~= want[2].insts);
    assert(code@ =~= want[4].insts);
    let mut out: Vec<Block> = Vec::new();
    let p: Vec<(Name, Ty)> = vec![(Name::Len, Ty::Int)];
    let i: Vec<Inst> = vec![
        Inst::Def(Name::Pairs, Op::Even(Name::Len)),
        Inst::Def(Name::Lit(0), Op::Int(0)),
    ];
    let a: Vec<Name> = vec![Name::Lit(0)];
    assert(p@ =~= want[0].params && i@ =~= want[0].insts && a@ =~= seq![Name::Lit(0)]);
    out.push(block(p, i, Term::Jump(1, a)));
    let p: Vec<(Name, Ty)> = vec![(Name::Row(1), Ty::Int)];
    let a: Vec<Name> = vec![Name::Row(1)];
    assert(p@ =~= want[1].params && a@ =~= seq![Name::Row(1)]);
    out.push(
        block(p, Vec::new(), Term::IfLess(Name::Row(1), Name::Pairs, 2, Vec::new(), 3, a)),
    );
    let a: Vec<Name> = vec![Name::NextRow(2)];
    assert(a@ =~= seq![Name::NextRow(2)]);
    out.push(block(Vec::new(), wide_code, Term::Jump(1, a)));
    let p: Vec<(Name, Ty)> = vec![(Name::Row(3), Ty::Int)];
    assert(p@ =~= want[3].params);
    out.push(
        block(
            p,
            Vec::new(),
            Term::IfLess(Name::Row(3), Name::Len, 4, Vec::new(), 5, Vec::new()),
        ),
    );
    let a: Vec<Name> = vec![Name::NextRow(4)];
    assert(a@ =~= seq![Name::NextRow(4)]);
    out.push(block(Vec::new(), code, Term::Jump(3, a)));
    out.push(block(Vec::new(), Vec::new(), Term::Return(None)));
    let r = Code { blocks: out };
    assert(r.deep() =~= want);
    Ok(r)
}

} // verus!
