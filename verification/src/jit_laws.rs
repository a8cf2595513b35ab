//! The generated code computes what the intermediate form computes.
use crate::double::{Real, NAN_BITS};
use crate::jit_code::{
    all_defined, ends_with, goto, insts_run, op_value, pass, run, step, BlockV, Env, Inst, Name, Next, Op, Scal,
    State, TermV, Ty,
};
use crate::jit_ir::{
    bind, block_index, call_value, edge_ready, enter, follow, incoming, inst_dst, inst_value, ir_run, ir_step,
    phi_count, reg_values, run_insts, start, table_index, yields, Arith, BlockId, IrFunc, IrInst, IrNext, IrParam,
    IrState, IrTerm, VReg,
};
use crate::jit_lower::{
    as_reals, call_op, carried, carried_params, defs_at, edge_args, fold_fun, identity, items, loads, loop_blocks,
    lower, lower_block, lower_blocks, lower_insts, lower_op, lower_return, lower_term, param_regs, phi_args,
    phi_regs, received, scaffold, FusedReduceOp, Refusal, Shape,
};
use vstd::prelude::*;

verus! {

/// The values of the registers are those of the names.
pub open spec fn agree(env: Map<u32, Real>, names: Env) -> bool {
    forall|r: u32| #[trigger]
        env.contains_key(r) ==> names.contains_key(Name::Reg(r)) && names[Name::Reg(r)]
            == Scal::One(env[r])
}

/// Nothing but registers has changed.
pub open spec fn only_regs(a: Env, b: Env) -> bool {
    forall|n: Name|
        !(n is Reg) ==> (#[trigger] b.contains_key(n) == a.contains_key(n)) && b[n] == a[n]
}

/// Nothing jumps to the entry, which has no phis.
pub open spec fn entered_once(f: IrFunc) -> bool {
    &&& block_index(f.blocks@, f.entry) matches Some(e) ==> phi_count(f.blocks@[e].insts@) == 0
    &&& forall|k: int|
        0 <= k < f.blocks@.len() ==> match (#[trigger] f.blocks@[k]).term {
            IrTerm::Jump(t) => t != f.entry,
            IrTerm::Branch { yes, no, .. } => yes != f.entry && no != f.entry,
            _ => true,
        }
}

// ── Instructions ─────────────────────────────────────────────────────

proof fn lemma_table_index(name: Seq<char>, k: nat)
    ensures
        table_index(name, k) matches Some(i) ==> 0 <= i < k,
    decreases k,
{
    if k > 0 {
        lemma_table_index(name, (k - 1) as nat);
    }
}

proof fn lemma_call(name: Seq<char>, args: Seq<VReg>, env: Map<u32, Real>, names: Env, arith: Arith)
    requires
        agree(env, names),
        reg_values(args, env) is Some,
        call_value(name, reg_values(args, env)->0, arith) is Some,
        call_op(name, args, true) is Ok,
    ensures
        op_value(call_op(name, args, true)->Ok_0, names, Seq::empty(), arith) == Some(
            Scal::One(call_value(name, reg_values(args, env)->0, arith)->0),
        ),
{
    let vs = reg_values(args, env)->0;
    lemma_table_index(name, 24);
    if args.len() == 1 {
        assert(env.contains_key(args[0].n));
        assert(vs =~= seq![env[args[0].n]]);
    }
    if args.len() == 2 {
        assert(env.contains_key(args[0].n));
        assert(env.contains_key(args[1].n));
        assert(vs =~= seq![env[args[0].n], env[args[1].n]]);
    }
}

proof fn lemma_op(inst: IrInst, defs: Seq<u32>, env: Map<u32, Real>, names: Env, ins: Seq<Seq<Real>>, arith: Arith)
    requires
        agree(env, names),
        lower_op(inst, defs, true) is Ok,
        inst_value(inst, env, arith) is Some,
    ensures
        op_value(lower_op(inst, defs, true)->Ok_0, names, ins, arith) == Some(
            Scal::One(inst_value(inst, env, arith)->0),
        ),
{
    match inst {
        IrInst::Call { name, args, .. } => {
            lemma_call(name@, args@, env, names, arith);
            lemma_table_index(name@, 24);
        },
        IrInst::Binary { op, lhs, rhs, .. } => {
            assert(names[Name::Reg(lhs.n)] == Scal::One(env[lhs.n]));
            assert(names[Name::Reg(rhs.n)] == Scal::One(env[rhs.n]));
        },
        IrInst::Unary { op, src, .. } => {
            assert(names[Name::Reg(src.n)] == Scal::One(env[src.n]));
        },
        _ => {},
    }
}

pub proof fn lemma_lowered_len(insts: Seq<IrInst>, k: nat, defs: Seq<u32>)
    requires
        lower_insts(insts, k, defs, true) is Ok,
    ensures
        lower_insts(insts, k, defs, true)->Ok_0.0.len() == k,
    decreases k,
{
    if k > 0 {
        lemma_lowered_len(insts, (k - 1) as nat, defs);
    }
}

/// Instructions are unaffected by those that follow them.
proof fn lemma_prefix(a: Seq<Inst>, b: Seq<Inst>, k: nat, env: Env, out: Seq<Real>, ins: Seq<Seq<Real>>, arith: Arith)
    requires
        k <= a.len(),
    ensures
        insts_run(a + b, k, env, out, ins, arith) == insts_run(a, k, env, out, ins, arith),
    decreases k,
{
    if k > 0 {
        lemma_prefix(a, b, (k - 1) as nat, env, out, ins, arith);
        assert((a + b)[k - 1] == a[k - 1]);
    }
}

pub proof fn lemma_insts(
    insts: Seq<IrInst>,
    k: nat,
    defs: Seq<u32>,
    env: Map<u32, Real>,
    names: Env,
    out: Seq<Real>,
    ins: Seq<Seq<Real>>,
    arith: Arith,
)
    requires
        agree(env, names),
        lower_insts(insts, k, defs, true) is Ok,
        run_insts(insts, k, env, arith) is Some,
    ensures
        ({
            let code = lower_insts(insts, k, defs, true)->Ok_0.0;
            let r = insts_run(code, k, names, out, ins, arith);
            &&& r is Some
            &&& (r->0).1 == out
            &&& agree(run_insts(insts, k, env, arith)->0, (r->0).0)
            &&& only_regs(names, (r->0).0)
        }),
    decreases k,
{
    if k > 0 {
        let j = (k - 1) as nat;
        lemma_insts(insts, j, defs, env, names, out, ins, arith);
        lemma_lowered_len(insts, j, defs);
        let (c0, d) = lower_insts(insts, j, defs, true)->Ok_0;
        let inst = insts[phi_count(insts) + k - 1];
        let e = run_insts(insts, j, env, arith)->0;
        let before = (insts_run(c0, j, names, out, ins, arith)->0).0;
        let this = Inst::Def(Name::Reg(inst_dst(inst).n), lower_op(inst, d, true)->Ok_0);
        let code = lower_insts(insts, k, defs, true)->Ok_0.0;
        assert(code =~= c0 + seq![this]);
        lemma_prefix(c0, seq![this], j, names, out, ins, arith);
        lemma_op(inst, d, e, before, ins, arith);
        assert(code[k - 1] == this);
    }
}

// ── Edges ────────────────────────────────────────────────────────────

/// Registers assigned one after the other.
spec fn assigned(env: Map<u32, Real>, regs: Seq<u32>, vals: Seq<Real>, k: nat) -> Map<u32, Real>
    decreases k,
{
    if k == 0 {
        env
    } else {
        assigned(env, regs, vals, (k - 1) as nat).insert(regs[k - 1], vals[k - 1])
    }
}

proof fn lemma_enter(insts: Seq<IrInst>, k: nat, from: BlockId, env: Map<u32, Real>, vals: Seq<Real>)
    requires
        k <= phi_count(insts),
        forall|j: int| 0 <= j < k ==> #[trigger] vals[j] == env[incoming(insts, j, from)->0.n],
    ensures
        enter(insts, k, from, env) == assigned(env, phi_regs(insts), vals, k),
    decreases k,
{
    if k > 0 {
        lemma_enter(insts, (k - 1) as nat, from, env, vals);
        assert(vals[k - 1] == env[incoming(insts, k - 1, from)->0.n]);
    }
}

proof fn lemma_bind(params: Seq<IrParam>, k: nat, args: Seq<Real>)
    requires
        k <= params.len(),
    ensures
        bind(params, k, args) == assigned(Map::empty(), param_regs(params), args, k),
    decreases k,
{
    if k > 0 {
        lemma_bind(params, (k - 1) as nat, args);
    }
}

/// Passing registers to a block assigns them; what is passed in front of them
/// arrives as well.
proof fn lemma_pass(
    head: Seq<(Name, Ty)>,
    regs: Seq<u32>,
    hargs: Seq<Name>,
    rargs: Seq<Name>,
    k: nat,
    env: Map<u32, Real>,
    names: Env,
    vals: Seq<Real>,
)
    requires
        k <= regs.len(),
        regs.len() == rargs.len() == vals.len(),
        head.len() == hargs.len(),
        agree(env, names),
        forall|j: int| 0 <= j < head.len() ==> !((#[trigger] head[j]).0 is Reg),
        forall|j: int| 0 <= j < regs.len() ==> names[#[trigger] rargs[j]] == Scal::One(vals[j]),
    ensures
        ({
            let p = pass(head + as_reals(regs), head.len() + k, hargs + rargs, names);
            &&& agree(assigned(env, regs, vals, k), p)
            &&& only_regs(pass(head, head.len(), hargs, names), p)
        }),
    decreases k,
{
    let params = head + as_reals(regs);
    let args = hargs + rargs;
    if k == 0 {
        lemma_pass_prefix(head, as_reals(regs), hargs, rargs, head.len(), names);
        lemma_pass_head(head, head.len(), hargs, env, names);
    } else {
        lemma_pass(head, regs, hargs, rargs, (k - 1) as nat, env, names, vals);
        let i = head.len() + k - 1;
        assert(params[i] == (Name::Reg(regs[k - 1]), Ty::Real));
        assert(args[i] == rargs[k - 1]);
        assert(names[rargs[k - 1]] == Scal::One(vals[k - 1]));
    }
}

proof fn lemma_pass_prefix(
    head: Seq<(Name, Ty)>,
    tail: Seq<(Name, Ty)>,
    hargs: Seq<Name>,
    targs: Seq<Name>,
    k: nat,
    names: Env,
)
    requires
        k <= head.len(),
        head.len() == hargs.len(),
    ensures
        pass(head + tail, k, hargs + targs, names) == pass(head, k, hargs, names),
    decreases k,
{
    if k > 0 {
        lemma_pass_prefix(head, tail, hargs, targs, (k - 1) as nat, names);
        assert((head + tail)[k - 1] == head[k - 1]);
        assert((hargs + targs)[k - 1] == hargs[k - 1]);
    }
}

proof fn lemma_pass_head(head: Seq<(Name, Ty)>, k: nat, hargs: Seq<Name>, env: Map<u32, Real>, names: Env)
    requires
        k <= head.len(),
        agree(env, names),
        forall|j: int| 0 <= j < head.len() ==> !((#[trigger] head[j]).0 is Reg),
    ensures
        agree(env, pass(head, k, hargs, names)),
    decreases k,
{
    if k > 0 {
        lemma_pass_head(head, (k - 1) as nat, hargs, env, names);
        assert(!(head[k - 1].0 is Reg));
    }
}

/// What a block of the body receives besides registers.
spec fn holds(shape: Shape, b: int, row: int, acc: Real, len: int, names: Env) -> bool {
    let n = b as usize;
    match shape {
        Shape::Scalar => true,
        Shape::Rows(_) => {
            &&& names.contains_key(Name::Len) && names[Name::Len] == Scal::Int(len)
            &&& names.contains_key(Name::Row(n)) && names[Name::Row(n)] == Scal::Int(row)
        },
        Shape::Fold(_) => {
            &&& names.contains_key(Name::Len) && names[Name::Len] == Scal::Int(len)
            &&& names.contains_key(Name::Row(n)) && names[Name::Row(n)] == Scal::Int(row)
            &&& names.contains_key(Name::Acc(n)) && names[Name::Acc(n)] == Scal::One(acc)
        },
    }
}

proof fn lemma_holds_passed(shape: Shape, b: int, c: int, row: int, acc: Real, len: int, names: Env)
    requires
        holds(shape, b, row, acc, len, names),
    ensures
        holds(
            shape,
            c,
            row,
            acc,
            len,
            pass(carried_params(shape, c), carried_params(shape, c).len(), carried(shape, b), names),
        ),
        carried_params(shape, c).len() == carried(shape, b).len(),
        all_defined(carried(shape, b), names),
{
    let p = carried_params(shape, c);
    let a = carried(shape, b);
    reveal_with_fuel(pass, 3);
    match shape {
        Shape::Scalar => {},
        Shape::Rows(_) => {
            assert(p.len() == 1 && a.len() == 1);
        },
        Shape::Fold(_) => {
            assert(p.len() == 2 && a.len() == 2);
        },
    }
}

proof fn lemma_holds_only_regs(shape: Shape, b: int, row: int, acc: Real, len: int, x: Env, y: Env)
    requires
        holds(shape, b, row, acc, len, x),
        only_regs(x, y),
    ensures
        holds(shape, b, row, acc, len, y),
{
    let n = b as usize;
    assert(y.contains_key(Name::Len) == x.contains_key(Name::Len));
    assert(y.contains_key(Name::Row(n)) == x.contains_key(Name::Row(n)));
    assert(y.contains_key(Name::Acc(n)) == x.contains_key(Name::Acc(n)));
}

proof fn lemma_phi_args(
    from: BlockId,
    to: BlockId,
    insts: Seq<IrInst>,
    j: nat,
    defs: Seq<u32>,
    env: Map<u32, Real>,
    names: Env,
)
    requires
        j <= phi_count(insts),
        phi_args(from, to, insts, j, defs) is Ok,
        edge_ready(insts, from, env),
        agree(env, names),
    ensures
        ({
            let a = phi_args(from, to, insts, j, defs)->Ok_0;
            &&& a.len() == j
            &&& forall|i: int|
                0 <= i < j ==> #[trigger] a[i] == Name::Reg(incoming(insts, i, from)->0.n)
                    && names.contains_key(a[i]) && names[a[i]] == Scal::One(
                    env[incoming(insts, i, from)->0.n],
                )
        }),
    decreases j,
{
    if j > 0 {
        lemma_phi_args(from, to, insts, (j - 1) as nat, defs, env, names);
        assert(incoming(insts, j - 1, from) is Some);
        assert(env.contains_key(incoming(insts, j - 1, from)->0.n));
    }
}

proof fn lemma_block_index(blocks: Seq<crate::jit_ir::IrBlock>, id: BlockId)
    ensures
        block_index(blocks, id) matches Some(i) ==> 0 <= i < blocks.len() && blocks[i].id == id,
    decreases blocks.len(),
{
    if blocks.len() > 0 {
        lemma_block_index(blocks.drop_last(), id);
    }
}

/// Whether `b` is the lowering of block `k`.
spec fn from_block(f: IrFunc, shape: Shape, k: int, b: BlockV) -> bool {
    exists|d: Seq<u32>|
        (#[trigger] lower_block(f, shape, k, d)) is Ok && lower_block(f, shape, k, d)->Ok_0.0 == b
}

/// The code of the body: each block is the lowering of its counterpart.
spec fn is_lowered(f: IrFunc, shape: Shape, code: Seq<BlockV>) -> bool {
    &&& code.len() == scaffold(shape) + f.blocks@.len()
    &&& forall|k: int|
        0 <= k < f.blocks@.len() ==> #[trigger] from_block(
            f,
            shape,
            k,
            code[scaffold(shape) + k],
        )
}

proof fn lemma_is_lowered_prefix(f: IrFunc, shape: Shape, n: nat)
    requires
        n <= f.blocks@.len(),
        lower_blocks(f, shape, n) is Ok,
    ensures
        lower_blocks(f, shape, n)->Ok_0.0.len() == n,
        forall|k: int|
            0 <= k < n ==> #[trigger] from_block(
                f,
                shape,
                k,
                lower_blocks(f, shape, n)->Ok_0.0[k],
            ),
    decreases n,
{
    if n > 0 {
        lemma_is_lowered_prefix(f, shape, (n - 1) as nat);
        let (bs, d) = lower_blocks(f, shape, (n - 1) as nat)->Ok_0;
        let all = lower_blocks(f, shape, n)->Ok_0.0;
        assert forall|k: int| 0 <= k < n implies #[trigger] from_block(f, shape, k, all[k]) by {
            if k == n - 1 {
                assert(lower_block(f, shape, k, d) is Ok);
            } else {
                assert(all[k] == bs[k]);
                assert(from_block(f, shape, k, bs[k]));
            }
        }
    }
}

proof fn lemma_is_lowered(f: IrFunc, shape: Shape)
    requires
        lower(f, shape) is Ok,
    ensures
        is_lowered(f, shape, lower(f, shape)->Ok_0),
        ({
            let e = block_index(f.blocks@, f.entry)->0;
            let head = loop_blocks(shape, e);
            &&& head.len() == scaffold(shape)
            &&& forall|i: int| 0 <= i < head.len() ==> #[trigger] lower(f, shape)->Ok_0[i] == head[i]
        }),
{
    let n = f.blocks@.len();
    lemma_is_lowered_prefix(f, shape, n);
    let e = block_index(f.blocks@, f.entry)->0;
    let head = loop_blocks(shape, e);
    let bs = lower_blocks(f, shape, n)->Ok_0.0;
    let code = lower(f, shape)->Ok_0;
    assert(code == head + bs);
    assert(head.len() == scaffold(shape));
    assert forall|k: int| 0 <= k < n implies #[trigger] from_block(
        f,
        shape,
        k,
        code[scaffold(shape) + k],
    ) by {
        assert(code[scaffold(shape) + k] == bs[k]);
        assert(from_block(f, shape, k, bs[k]));
    }
}

/// An edge of the body.
proof fn lemma_follow(
    f: IrFunc,
    shape: Shape,
    code: Seq<BlockV>,
    k: int,
    to: BlockId,
    defs: Seq<u32>,
    env: Map<u32, Real>,
    names: Env,
    out: Seq<Real>,
    row: int,
    acc: Real,
    len: int,
)
    requires
        is_lowered(f, shape, code),
        0 <= k < f.blocks@.len(),
        to != f.entry,
        agree(env, names),
        holds(shape, scaffold(shape) + k, row, acc, len, names),
        follow(f, f.blocks@[k].id, to, env) is Goto,
        edge_args(f, shape, k, to, defs) is Ok,
    ensures
        ({
            let t = follow(f, f.blocks@[k].id, to, env)->Goto_0;
            let b = scaffold(shape) + t.block;
            let g = goto(code, b, edge_args(f, shape, k, to, defs)->Ok_0, names, out);
            &&& g is Goto
            &&& g->Goto_0.block == b
            &&& g->Goto_0.out == out
            &&& agree(t.env, g->Goto_0.env)
            &&& holds(shape, b, row, acc, len, g->Goto_0.env)
            &&& 0 <= t.block < f.blocks@.len()
        }),
{
    lemma_block_index(f.blocks@, to);
    let t = block_index(f.blocks@, to)->0;
    let insts = f.blocks@[t].insts@;
    let from = f.blocks@[k].id;
    let n = phi_count(insts);
    let b = scaffold(shape) + t;
    assert(f.blocks@[t].id == to);
    lemma_phi_args(from, to, insts, n, defs, env, names);
    let pa = phi_args(from, to, insts, n, defs)->Ok_0;
    assert(from_block(f, shape, t, code[scaffold(shape) + t]));
    let head = carried_params(shape, b);
    let hargs = carried(shape, scaffold(shape) + k);
    let regs = phi_regs(insts);
    assert(received(f, t) =~= regs);
    assert(code[b].params =~= head + as_reals(regs));
    let vals = Seq::new(n, |i: int| env[incoming(insts, i, from)->0.n]);
    lemma_holds_passed(shape, scaffold(shape) + k, b, row, acc, len, names);
    assert forall|j: int| 0 <= j < regs.len() implies names[#[trigger] pa[j]] == Scal::One(
        vals[j],
    ) by {}
    lemma_pass(head, regs, hargs, pa, n, env, names, vals);
    lemma_enter(insts, n, from, env, vals);
    let p0 = pass(head, head.len(), hargs, names);
    let p = pass(code[b].params, (head.len() + n) as nat, hargs + pa, names);
    lemma_holds_only_regs(shape, b, row, acc, len, p0, p);
    assert(all_defined(hargs + pa, names)) by {
        assert forall|i: int| 0 <= i < (hargs + pa).len() implies names.contains_key(
            #[trigger] (hargs + pa)[i],
        ) by {
            if i < hargs.len() {
                assert((hargs + pa)[i] == hargs[i]);
            } else {
                assert((hargs + pa)[i] == pa[i - hargs.len()]);
            }
        }
    }
}

/// One block of the body that goes on.
proof fn lemma_step_goto(
    f: IrFunc,
    shape: Shape,
    code: Seq<BlockV>,
    s: IrState,
    t: State,
    row: int,
    acc: Real,
    len: int,
    ins: Seq<Seq<Real>>,
    arith: Arith,
)
    requires
        is_lowered(f, shape, code),
        entered_once(f),
        0 <= s.block < f.blocks@.len(),
        t.block == scaffold(shape) + s.block,
        agree(s.env, t.env),
        holds(shape, t.block, row, acc, len, t.env),
        ir_step(f, s, arith) is Goto,
    ensures
        ({
            let s2 = ir_step(f, s, arith)->Goto_0;
            let r = step(code, t, ins, arith);
            &&& r is Goto
            &&& 0 <= s2.block < f.blocks@.len()
            &&& r->Goto_0.block == scaffold(shape) + s2.block
            &&& r->Goto_0.out == t.out
            &&& agree(s2.env, r->Goto_0.env)
            &&& holds(shape, r->Goto_0.block, row, acc, len, r->Goto_0.env)
        }),
{
    let k = s.block;
    let blk = f.blocks@[k];
    let n = (blk.insts@.len() - phi_count(blk.insts@)) as nat;
    assert(from_block(f, shape, k, code[scaffold(shape) + k]));
    let d = choose|d: Seq<u32>|
        (#[trigger] lower_block(f, shape, k, d)) is Ok && lower_block(f, shape, k, d)->Ok_0.0
            == code[scaffold(shape) + k];
    let d1 = defs_at(f, shape, k, d);
    lemma_insts(blk.insts@, n, d1, s.env, t.env, t.out, ins, arith);
    lemma_lowered_len(blk.insts@, n, d1);
    let (c0, d2) = lower_insts(blk.insts@, n, d1, true)->Ok_0;
    let (more, term) = lower_term(f, shape, k, d2)->Ok_0;
    assert(more =~= Seq::<Inst>::empty());
    assert(code[t.block].insts =~= c0);
    let e = run_insts(blk.insts@, n, s.env, arith)->0;
    let names = (insts_run(c0, n, t.env, t.out, ins, arith)->0).0;
    lemma_holds_only_regs(shape, t.block, row, acc, len, t.env, names);
    match blk.term {
        IrTerm::Jump(to) => {
            lemma_follow(f, shape, code, k, to, d2, e, names, t.out, row, acc, len);
        },
        IrTerm::Branch { cond, yes, no } => {
            assert(names[Name::Reg(cond.n)] == Scal::One(e[cond.n]));
            if !e[cond.n].same(Real { bits: 0 }) {
                lemma_follow(f, shape, code, k, yes, d2, e, names, t.out, row, acc, len);
            } else {
                lemma_follow(f, shape, code, k, no, d2, e, names, t.out, row, acc, len);
            }
        },
        _ => {},
    }
}

/// The body runs block for block as the intermediate form does.
proof fn lemma_body(
    f: IrFunc,
    shape: Shape,
    code: Seq<BlockV>,
    s: IrState,
    t: State,
    k: nat,
    row: int,
    acc: Real,
    len: int,
    ins: Seq<Seq<Real>>,
    arith: Arith,
)
    requires
        is_lowered(f, shape, code),
        entered_once(f),
        0 <= s.block < f.blocks@.len(),
        t.block == scaffold(shape) + s.block,
        agree(s.env, t.env),
        holds(shape, t.block, row, acc, len, t.env),
        ir_run(f, s, k, arith) is Some,
    ensures
        ({
            let u = ir_run(f, s, k, arith)->0;
            let r = run(code, t, k, ins, arith);
            &&& r is Some
            &&& 0 <= u.block < f.blocks@.len()
            &&& (r->0).block == scaffold(shape) + u.block
            &&& (r->0).out == t.out
            &&& agree(u.env, (r->0).env)
            &&& holds(shape, (r->0).block, row, acc, len, (r->0).env)
        }),
    decreases k,
{
    if k > 0 {
        lemma_step_goto(f, shape, code, s, t, row, acc, len, ins, arith);
        let s2 = ir_step(f, s, arith)->Goto_0;
        let t2 = step(code, t, ins, arith)->Goto_0;
        lemma_body(f, shape, code, s2, t2, (k - 1) as nat, row, acc, len, ins, arith);
    }
}

/// The value that stands for a result, where the body gives none.
pub open spec fn or_else(v: Option<Real>, d: Real) -> Real {
    match v {
        Some(x) => x,
        None => d,
    }
}

/// The accumulator after one more result.
pub open spec fn folded(op: FusedReduceOp, acc: Real, v: Option<Real>, arith: Arith) -> Real {
    match v {
        Some(x) => arith(fold_fun(op), seq![acc, x]),
        None => acc,
    }
}

/// The last block of the body: its instructions have run, and what follows them
/// is what the shape asks for.
proof fn lemma_last(
    f: IrFunc,
    shape: Shape,
    code: Seq<BlockV>,
    s: IrState,
    t: State,
    row: int,
    acc: Real,
    len: int,
    ins: Seq<Seq<Real>>,
    arith: Arith,
) -> (r: (Seq<Inst>, Env))
    requires
        is_lowered(f, shape, code),
        0 <= s.block < f.blocks@.len(),
        t.block == scaffold(shape) + s.block,
        agree(s.env, t.env),
        holds(shape, t.block, row, acc, len, t.env),
        ir_step(f, s, arith) is Done,
    ensures
        ({
            let (c0, names) = r;
            let v = f.blocks@[s.block].term->Return_0;
            let (more, term) = lower_return(shape, t.block, v);
            &&& f.blocks@[s.block].term is Return
            &&& code[t.block].insts == c0 + more
            &&& code[t.block].term == term
            &&& insts_run(c0 + more, c0.len(), t.env, t.out, ins, arith) == Some((names, t.out))
            &&& holds(shape, t.block, row, acc, len, names)
            &&& match v {
                Some(x) => names.contains_key(Name::Reg(x.n)) && ir_step(f, s, arith)->Done_0
                    is Some && names[Name::Reg(x.n)] == Scal::One(ir_step(f, s, arith)->Done_0->0),
                None => ir_step(f, s, arith)->Done_0 is None,
            }
        }),
{
    let k = s.block;
    let blk = f.blocks@[k];
    let n = (blk.insts@.len() - phi_count(blk.insts@)) as nat;
    assert(from_block(f, shape, k, code[scaffold(shape) + k]));
    let d = choose|d: Seq<u32>|
        (#[trigger] lower_block(f, shape, k, d)) is Ok && lower_block(f, shape, k, d)->Ok_0.0
            == code[scaffold(shape) + k];
    let d1 = defs_at(f, shape, k, d);
    lemma_insts(blk.insts@, n, d1, s.env, t.env, t.out, ins, arith);
    lemma_lowered_len(blk.insts@, n, d1);
    let (c0, d2) = lower_insts(blk.insts@, n, d1, true)->Ok_0;
    let names = (insts_run(c0, n, t.env, t.out, ins, arith)->0).0;
    lemma_holds_only_regs(shape, t.block, row, acc, len, t.env, names);
    match blk.term {
        IrTerm::Return(v) => {
            let more = lower_return(shape, t.block, v).0;
            lemma_prefix(c0, more, n, t.env, t.out, ins, arith);
        },
        IrTerm::Jump(_) => {
            assert(!(ir_step(f, s, arith) is Done));
        },
        IrTerm::Branch { .. } => {
            assert(!(ir_step(f, s, arith) is Done));
        },
        IrTerm::Unreachable => {},
    }
    (c0, names)
}

proof fn lemma_done_scalar(
    f: IrFunc,
    code: Seq<BlockV>,
    s: IrState,
    t: State,
    ins: Seq<Seq<Real>>,
    arith: Arith,
)
    requires
        is_lowered(f, Shape::Scalar, code),
        0 <= s.block < f.blocks@.len(),
        t.block == s.block,
        agree(s.env, t.env),
        ir_step(f, s, arith) is Done,
    ensures
        step(code, t, ins, arith) == Next::Return(
            Some(or_else(ir_step(f, s, arith)->Done_0, Real { bits: 0 })),
            t.out,
        ),
{
    let shape = Shape::Scalar;
    let (c0, names) = lemma_last(f, shape, code, s, t, 0, Real { bits: 0 }, 0, ins, arith);
    let v = f.blocks@[s.block].term->Return_0;
    let (more, term) = lower_return(shape, t.block, v);
    let all = c0 + more;
    reveal_with_fuel(insts_run, 3);
    if v is None {
        assert(all.len() == c0.len() + 1);
        assert(all[c0.len() as int] == more[0]);
    } else {
        assert(all =~= c0);
    }
}

proof fn lemma_done_rows(
    f: IrFunc,
    n_in: usize,
    code: Seq<BlockV>,
    s: IrState,
    t: State,
    row: int,
    len: int,
    ins: Seq<Seq<Real>>,
    arith: Arith,
)
    requires
        is_lowered(f, Shape::Rows(n_in), code),
        code[3].params == seq![(Name::Row(3), Ty::Int), (Name::Result, Ty::Real)],
        0 <= s.block < f.blocks@.len(),
        t.block == 5 + s.block,
        agree(s.env, t.env),
        holds(Shape::Rows(n_in), t.block, row, Real { bits: 0 }, len, t.env),
        ir_step(f, s, arith) is Done,
    ensures
        ({
            let r = step(code, t, ins, arith);
            &&& r is Goto
            &&& r->Goto_0.block == 3
            &&& r->Goto_0.out == t.out
            &&& holds(Shape::Rows(n_in), 3, row, Real { bits: 0 }, len, r->Goto_0.env)
            &&& r->Goto_0.env.contains_key(Name::Result)
            &&& r->Goto_0.env[Name::Result] == Scal::One(
                or_else(ir_step(f, s, arith)->Done_0, Real { bits: NAN_BITS }),
            )
        }),
{
    let shape = Shape::Rows(n_in);
    let (c0, names) = lemma_last(f, shape, code, s, t, row, Real { bits: 0 }, len, ins, arith);
    let v = f.blocks@[s.block].term->Return_0;
    let (more, term) = lower_return(shape, t.block, v);
    let all = c0 + more;
    reveal_with_fuel(insts_run, 3);
    reveal_with_fuel(pass, 4);
    if v is None {
        assert(all.len() == c0.len() + 1);
        assert(all[c0.len() as int] == more[0]);
    } else {
        assert(all =~= c0);
    }
}

proof fn lemma_done_fold(
    f: IrFunc,
    op: FusedReduceOp,
    code: Seq<BlockV>,
    s: IrState,
    t: State,
    row: int,
    acc: Real,
    len: int,
    ins: Seq<Seq<Real>>,
    arith: Arith,
)
    requires
        is_lowered(f, Shape::Fold(op), code),
        code[1].params == seq![(Name::Row(1), Ty::Int), (Name::Acc(1), Ty::Real)],
        0 <= s.block < f.blocks@.len(),
        t.block == 4 + s.block,
        agree(s.env, t.env),
        holds(Shape::Fold(op), t.block, row, acc, len, t.env),
        ir_step(f, s, arith) is Done,
    ensures
        ({
            let r = step(code, t, ins, arith);
            &&& r is Goto
            &&& r->Goto_0.block == 1
            &&& r->Goto_0.out == t.out
            &&& holds(
                Shape::Fold(op),
                1,
                row + 1,
                folded(op, acc, ir_step(f, s, arith)->Done_0, arith),
                len,
                r->Goto_0.env,
            )
        }),
{
    let shape = Shape::Fold(op);
    let (c0, names) = lemma_last(f, shape, code, s, t, row, acc, len, ins, arith);
    let v = f.blocks@[s.block].term->Return_0;
    let (more, term) = lower_return(shape, t.block, v);
    let all = c0 + more;
    reveal_with_fuel(insts_run, 3);
    reveal_with_fuel(pass, 4);
    assert(all[c0.len() as int] == more[0]);
    if v is None {
        assert(all.len() == c0.len() + 1);
    } else {
        assert(all.len() == c0.len() + 2);
        assert(all[c0.len() as int + 1] == more[1]);
    }
}

pub proof fn lemma_run_then(code: Seq<BlockV>, s: State, j: nat, k: nat, ins: Seq<Seq<Real>>, arith: Arith)
    requires
        run(code, s, j, ins, arith) is Some,
    ensures
        run(code, s, j + k, ins, arith) == run(
            code,
            run(code, s, j, ins, arith)->0,
            k,
            ins,
            arith,
        ),
    decreases j,
{
    if j > 0 {
        lemma_run_then(code, step(code, s, ins, arith)->Goto_0, (j - 1) as nat, k, ins, arith);
        assert((j - 1) as nat + k == (j + k - 1) as nat);
    }
}

// ── Loops ────────────────────────────────────────────────────────────

/// One row of the inputs.
pub open spec fn row_of(ins: Seq<Seq<Real>>, i: int) -> Seq<Real> {
    Seq::new(ins.len(), |j: int| ins[j][i])
}

proof fn lemma_loads(
    m: nat,
    k: nat,
    shape: Shape,
    names: Env,
    out: Seq<Real>,
    row: int,
    acc: Real,
    len: int,
    ins: Seq<Seq<Real>>,
    arith: Arith,
)
    requires
        k <= m,
        m == ins.len(),
        m <= usize::MAX,
        !(shape is Scalar),
        holds(shape, 2, row, acc, len, names),
        forall|j: int| 0 <= j < m ==> 0 <= row < (#[trigger] ins[j]).len(),
    ensures
        ({
            let r = insts_run(loads(m), k, names, out, ins, arith);
            &&& r is Some
            &&& (r->0).1 == out
            &&& holds(shape, 2, row, acc, len, (r->0).0)
            &&& forall|j: int|
                0 <= j < k ==> (r->0).0.contains_key(#[trigger] items(m)[j]) && (r->0).0[items(
                    m,
                )[j]] == Scal::One(ins[j][row])
        }),
    decreases k,
{
    if k > 0 {
        lemma_loads(m, (k - 1) as nat, shape, names, out, row, acc, len, ins, arith);
        let e = (insts_run(loads(m), (k - 1) as nat, names, out, ins, arith)->0).0;
        assert(loads(m)[k - 1] == Inst::Def(
            Name::Item((k - 1) as usize),
            Op::Load((k - 1) as usize, Name::Row(2)),
        ));
        assert(0 <= row < ins[k - 1].len());
        let e2 = (insts_run(loads(m), k, names, out, ins, arith)->0).0;
        assert forall|j: int| 0 <= j < k implies e2.contains_key(#[trigger] items(m)[j])
            && e2[items(m)[j]] == Scal::One(ins[j][row]) by {
            if j < k - 1 {
                assert(e.contains_key(items(m)[j]));
                assert(items(m)[j] != items(m)[k - 1]);
            }
        }
    }
}

/// From the block that loads a row to the entry of the body.
proof fn lemma_enter_body(
    f: IrFunc,
    shape: Shape,
    code: Seq<BlockV>,
    t: State,
    row: int,
    acc: Real,
    len: int,
    ins: Seq<Seq<Real>>,
    arith: Arith,
)
    requires
        is_lowered(f, shape, code),
        entered_once(f),
        !(shape is Scalar),
        block_index(f.blocks@, f.entry) is Some,
        t.block == 2,
        holds(shape, 2, row, acc, len, t.env),
        ins.len() == f.params@.len(),
        ins.len() <= usize::MAX,
        forall|j: int| 0 <= j < ins.len() ==> 0 <= row < (#[trigger] ins[j]).len(),
        code[2].insts == loads(ins.len()),
        code[2].term == TermV::Jump(
            scaffold(shape) + block_index(f.blocks@, f.entry)->0,
            carried(shape, 2) + items(ins.len()),
        ),
    ensures
        ({
            let r = step(code, t, ins, arith);
            let s = start(f, row_of(ins, row));
            &&& r is Goto
            &&& r->Goto_0.block == scaffold(shape) + s.block
            &&& r->Goto_0.out == t.out
            &&& 0 <= s.block < f.blocks@.len()
            &&& agree(s.env, r->Goto_0.env)
            &&& holds(shape, r->Goto_0.block, row, acc, len, r->Goto_0.env)
        }),
{
    let m = ins.len();
    lemma_loads(m, m, shape, t.env, t.out, row, acc, len, ins, arith);
    assert(code[2].insts.len() == m);
    let names = (insts_run(loads(m), m, t.env, t.out, ins, arith)->0).0;
    lemma_block_index(f.blocks@, f.entry);
    let e = block_index(f.blocks@, f.entry)->0;
    let b = scaffold(shape) + e;
    assert(from_block(f, shape, e, code[scaffold(shape) + e]));
    let head = carried_params(shape, b);
    let hargs = carried(shape, 2);
    let regs = param_regs(f.params@);
    assert(phi_regs(f.blocks@[e].insts@) =~= Seq::<u32>::empty());
    assert(received(f, e) =~= regs);
    assert(code[b].params =~= head + as_reals(regs));
    lemma_holds_passed(shape, 2, b, row, acc, len, names);
    let vals = row_of(ins, row);
    let env0: Map<u32, Real> = Map::empty();
    assert(agree(env0, names));
    assert forall|j: int| 0 <= j < regs.len() implies names[#[trigger] items(m)[j]] == Scal::One(
        vals[j],
    ) by {}
    lemma_pass(head, regs, hargs, items(m), m, env0, names, vals);
    lemma_bind(f.params@, m, vals);
    let p0 = pass(head, head.len(), hargs, names);
    let p = pass(code[b].params, (head.len() + m) as nat, hargs + items(m), names);
    lemma_holds_only_regs(shape, b, row, acc, len, p0, p);
    assert(all_defined(hargs + items(m), names)) by {
        assert forall|i: int| 0 <= i < (hargs + items(m)).len() implies names.contains_key(
            #[trigger] (hargs + items(m))[i],
        ) by {
            if i < hargs.len() {
                assert((hargs + items(m))[i] == hargs[i]);
            } else {
                assert((hargs + items(m))[i] == items(m)[i - hargs.len()]);
            }
        }
    }
}

proof fn lemma_one_row(
    f: IrFunc,
    n_in: usize,
    code: Seq<BlockV>,
    h: State,
    row: int,
    len: int,
    v: Option<Real>,
    ins: Seq<Seq<Real>>,
    arith: Arith,
) -> (m: nat)
    requires
        lower(f, Shape::Rows(n_in)) == Ok::<Seq<BlockV>, Refusal>(code),
        entered_once(f),
        f.params@.len() == n_in == ins.len(),
        forall|j: int| 0 <= j < ins.len() ==> (#[trigger] ins[j]).len() == len,
        h.block == 1,
        h.out.len() == len,
        0 <= row < len,
        holds(Shape::Rows(n_in), 1, row, Real { bits: 0 }, len, h.env),
        yields(f, row_of(ins, row), v, arith),
    ensures
        ({
            let r = run(code, h, m, ins, arith);
            &&& r is Some
            &&& (r->0).block == 1
            &&& (r->0).out == h.out.update(row, or_else(v, Real { bits: NAN_BITS }))
            &&& holds(Shape::Rows(n_in), 1, row + 1, Real { bits: 0 }, len, (r->0).env)
        }),
{
    let shape = Shape::Rows(n_in);
    let z = Real { bits: 0 };
    lemma_is_lowered(f, shape);
    reveal_with_fuel(pass, 4);
    reveal_with_fuel(insts_run, 3);
    reveal_with_fuel(run, 3);
    let (k, u): (nat, IrState) = choose|k: nat, u: IrState|
        #![trigger ir_run(f, start(f, row_of(ins, row)), k, arith), ir_step(f, u, arith)]
        ir_run(f, start(f, row_of(ins, row)), k, arith) == Some(u) && ir_step(f, u, arith)
            == IrNext::Done(v);
    let s0 = start(f, row_of(ins, row));
    assert(code[1].params.len() == 1 && code[2].params.len() == 1);
    let g = step(code, h, ins, arith);
    assert(g is Goto && g->Goto_0.block == 2);
    let t2 = g->Goto_0;
    assert(carried(shape, 2) =~= seq![Name::Row(2)]);
    lemma_enter_body(f, shape, code, t2, row, z, len, ins, arith);
    let t5 = step(code, t2, ins, arith)->Goto_0;
    assert(run(code, h, 2, ins, arith) == Some(t5));
    lemma_body(f, shape, code, s0, t5, k, row, z, len, ins, arith);
    let tk = run(code, t5, k, ins, arith)->0;
    lemma_run_then(code, h, 2, k, ins, arith);
    lemma_done_rows(f, n_in, code, u, tk, row, len, ins, arith);
    let t3 = step(code, tk, ins, arith)->Goto_0;
    let i3 = code[3].insts;
    assert(i3.len() == 2 && i3[0] == Inst::Store(Name::Row(3), Name::Result) && i3[1] == Inst::Def(
        Name::NextRow(3),
        Op::Step(Name::Row(3), 1),
    ));
    let t1 = step(code, t3, ins, arith);
    assert(t1 is Goto);
    assert(run(code, tk, 2, ins, arith) == Some(t1->Goto_0));
    lemma_run_then(code, h, 2 + k, 2, ins, arith);
    2 + k + 2
}

proof fn lemma_all_rows(
    f: IrFunc,
    n_in: usize,
    code: Seq<BlockV>,
    h: State,
    row: int,
    len: int,
    res: Seq<Option<Real>>,
    ins: Seq<Seq<Real>>,
    arith: Arith,
) -> (m: nat)
    requires
        lower(f, Shape::Rows(n_in)) == Ok::<Seq<BlockV>, Refusal>(code),
        entered_once(f),
        f.params@.len() == n_in == ins.len(),
        forall|j: int| 0 <= j < ins.len() ==> (#[trigger] ins[j]).len() == len,
        h.block == 1,
        h.out.len() == len == res.len(),
        0 <= row <= len,
        holds(Shape::Rows(n_in), 1, row, Real { bits: 0 }, len, h.env),
        forall|i: int| 0 <= i < len ==> yields(f, row_of(ins, i), #[trigger] res[i], arith),
    ensures
        ({
            let r = run(code, h, m, ins, arith);
            &&& r is Some
            &&& (r->0).block == 4
            &&& (r->0).out == Seq::new(
                len as nat,
                |i: int|
                    if i < row {
                        h.out[i]
                    } else {
                        or_else(res[i], Real { bits: NAN_BITS })
                    },
            )
        }),
    decreases len - row,
{
    lemma_is_lowered(f, Shape::Rows(n_in));
    reveal_with_fuel(pass, 4);
    reveal_with_fuel(run, 3);
    let want = Seq::new(
        len as nat,
        |i: int|
            if i < row {
                h.out[i]
            } else {
                or_else(res[i], Real { bits: NAN_BITS })
            },
    );
    if row < len {
        assert(yields(f, row_of(ins, row), res[row], arith));
        let m1 = lemma_one_row(f, n_in, code, h, row, len, res[row], ins, arith);
        let h2 = run(code, h, m1, ins, arith)->0;
        let m2 = lemma_all_rows(f, n_in, code, h2, row + 1, len, res, ins, arith);
        lemma_run_then(code, h, m1, m2, ins, arith);
        assert((run(code, h2, m2, ins, arith)->0).out =~= want);
        m1 + m2
    } else {
        assert(code[4].params.len() == 0);
        let g = step(code, h, ins, arith);
        assert(g is Goto && g->Goto_0.block == 4);
        assert(h.out =~= want);
        assert(run(code, h, 1, ins, arith) == Some(g->Goto_0));
        1
    }
}

/// The values that a generated function is started with.
pub open spec fn started(len: int) -> Env {
    Map::empty().insert(Name::Len, Scal::Int(len))
}

/// A generated row loop stores, for every row, what the intermediate form yields
/// for that row; where it yields nothing, a NaN.
pub proof fn law_rows(
    f: IrFunc,
    n_in: usize,
    code: Seq<BlockV>,
    ins: Seq<Seq<Real>>,
    out: Seq<Real>,
    res: Seq<Option<Real>>,
    arith: Arith,
)
    requires
        lower(f, Shape::Rows(n_in)) == Ok::<Seq<BlockV>, Refusal>(code),
        entered_once(f),
        f.params@.len() == n_in == ins.len(),
        out.len() == res.len(),
        forall|j: int| 0 <= j < ins.len() ==> (#[trigger] ins[j]).len() == res.len(),
        forall|i: int| 0 <= i < res.len() ==> yields(f, row_of(ins, i), #[trigger] res[i], arith),
    ensures
        ends_with(
            code,
            started(res.len() as int),
            out,
            ins,
            arith,
            None,
            Seq::new(res.len(), |i: int| or_else(res[i], Real { bits: NAN_BITS })),
        ),
{
    let shape = Shape::Rows(n_in);
    let len = res.len() as int;
    lemma_is_lowered(f, shape);
    reveal_with_fuel(pass, 4);
    reveal_with_fuel(insts_run, 3);
    reveal_with_fuel(run, 3);
    let s = State { block: 0, env: started(len), out };
    assert(code[0].insts.len() == 1 && code[0].insts[0] == Inst::Def(Name::Lit(0), Op::Int(0)));
    assert(code[1].params.len() == 1);
    let g = step(code, s, ins, arith);
    assert(g is Goto);
    let h = g->Goto_0;
    assert(run(code, s, 1, ins, arith) == Some(h));
    let m = lemma_all_rows(f, n_in, code, h, 0, len, res, ins, arith);
    lemma_run_then(code, s, 1, m, ins, arith);
    let e = run(code, h, m, ins, arith)->0;
    assert(code[4].insts.len() == 0);
    assert(e.out =~= Seq::new(res.len(), |i: int| or_else(res[i], Real { bits: NAN_BITS })));
    assert(step(code, e, ins, arith) == Next::Return(None, e.out));
    assert(run(code, s, 1 + m, ins, arith) == Some(e));
}

/// The accumulator after the rows before `i`.
pub open spec fn fold_rows(op: FusedReduceOp, res: Seq<Option<Real>>, i: nat, arith: Arith) -> Real
    decreases i,
{
    if i == 0 {
        identity(op)
    } else {
        folded(op, fold_rows(op, res, (i - 1) as nat, arith), res[i - 1], arith)
    }
}

proof fn lemma_all_folds(
    f: IrFunc,
    op: FusedReduceOp,
    code: Seq<BlockV>,
    h: State,
    row: int,
    len: int,
    res: Seq<Option<Real>>,
    ins: Seq<Seq<Real>>,
    arith: Arith,
) -> (m: nat)
    requires
        lower(f, Shape::Fold(op)) == Ok::<Seq<BlockV>, Refusal>(code),
        entered_once(f),
        f.params@.len() == 1 == ins.len(),
        ins[0].len() == len == res.len(),
        h.block == 1,
        0 <= row <= len,
        holds(Shape::Fold(op), 1, row, fold_rows(op, res, row as nat, arith), len, h.env),
        forall|i: int| 0 <= i < len ==> yields(f, row_of(ins, i), #[trigger] res[i], arith),
    ensures
        ({
            let r = run(code, h, m, ins, arith);
            &&& r is Some
            &&& (r->0).block == 3
            &&& (r->0).out == h.out
            &&& (r->0).env.contains_key(Name::Acc(3))
            &&& (r->0).env[Name::Acc(3)] == Scal::One(fold_rows(op, res, len as nat, arith))
        }),
    decreases len - row,
{
    let shape = Shape::Fold(op);
    lemma_is_lowered(f, shape);
    reveal_with_fuel(pass, 4);
    reveal_with_fuel(run, 3);
    let acc = fold_rows(op, res, row as nat, arith);
    assert(code[1].params.len() == 2 && code[2].params.len() == 2 && code[3].params.len() == 1);
    if row < len {
        let v = res[row];
        assert(yields(f, row_of(ins, row), v, arith));
        let (k, u): (nat, IrState) = choose|k: nat, u: IrState|
            #![trigger ir_run(f, start(f, row_of(ins, row)), k, arith), ir_step(f, u, arith)]
            ir_run(f, start(f, row_of(ins, row)), k, arith) == Some(u) && ir_step(f, u, arith)
                == IrNext::Done(v);
        let s0 = start(f, row_of(ins, row));
        let g = step(code, h, ins, arith);
        assert(g is Goto && g->Goto_0.block == 2);
        let t2 = g->Goto_0;
        assert(carried(shape, 2) + items(1) =~= seq![Name::Row(2), Name::Acc(2), Name::Item(0)]);
        lemma_enter_body(f, shape, code, t2, row, acc, len, ins, arith);
        let t5 = step(code, t2, ins, arith)->Goto_0;
        assert(run(code, h, 2, ins, arith) == Some(t5));
        lemma_body(f, shape, code, s0, t5, k, row, acc, len, ins, arith);
        let tk = run(code, t5, k, ins, arith)->0;
        lemma_run_then(code, h, 2, k, ins, arith);
        lemma_done_fold(f, op, code, u, tk, row, acc, len, ins, arith);
        let h2 = step(code, tk, ins, arith)->Goto_0;
        assert(run(code, tk, 1, ins, arith) == Some(h2));
        lemma_run_then(code, h, 2 + k, 1, ins, arith);
        assert(run(code, h, 2 + k + 1, ins, arith) == Some(h2));
        let m2 = lemma_all_folds(f, op, code, h2, row + 1, len, res, ins, arith);
        lemma_run_then(code, h, 2 + k + 1, m2, ins, arith);
        2 + k + 1 + m2
    } else {
        let g = step(code, h, ins, arith);
        assert(g is Goto && g->Goto_0.block == 3);
        assert(run(code, h, 1, ins, arith) == Some(g->Goto_0));
        1
    }
}

/// A generated fused loop returns the sum or product, from the first row to the
/// last, of what the intermediate form yields; rows that yield nothing are
/// passed over.
pub proof fn law_fold(
    f: IrFunc,
    op: FusedReduceOp,
    code: Seq<BlockV>,
    ins: Seq<Seq<Real>>,
    out: Seq<Real>,
    res: Seq<Option<Real>>,
    arith: Arith,
)
    requires
        lower(f, Shape::Fold(op)) == Ok::<Seq<BlockV>, Refusal>(code),
        entered_once(f),
        f.params@.len() == 1 == ins.len(),
        ins[0].len() == res.len(),
        forall|i: int| 0 <= i < res.len() ==> yields(f, row_of(ins, i), #[trigger] res[i], arith),
    ensures
        ends_with(
            code,
            started(res.len() as int),
            out,
            ins,
            arith,
            Some(fold_rows(op, res, res.len(), arith)),
            out,
        ),
{
    let shape = Shape::Fold(op);
    let len = res.len() as int;
    lemma_is_lowered(f, shape);
    reveal_with_fuel(pass, 4);
    reveal_with_fuel(insts_run, 3);
    reveal_with_fuel(run, 3);
    let s = State { block: 0, env: started(len), out };
    assert(code[0].insts.len() == 2 && code[0].insts[0] == Inst::Def(Name::Lit(0), Op::Int(0))
        && code[0].insts[1] == Inst::Def(Name::Lit(1), Op::Real(identity(op))));
    assert(code[1].params.len() == 2);
    let g = step(code, s, ins, arith);
    assert(g is Goto);
    let h = g->Goto_0;
    assert(run(code, s, 1, ins, arith) == Some(h));
    let m = lemma_all_folds(f, op, code, h, 0, len, res, ins, arith);
    lemma_run_then(code, s, 1, m, ins, arith);
    let e = run(code, h, m, ins, arith)->0;
    assert(code[3].insts.len() == 0);
    assert(step(code, e, ins, arith) == Next::Return(
        Some(fold_rows(op, res, res.len(), arith)),
        out,
    ));
    assert(run(code, s, 1 + m, ins, arith) == Some(e));
}

/// A generated scalar function, started at its entry with its parameters bound,
/// returns what the intermediate form yields for them; zero where it yields
/// nothing.
pub proof fn law_scalar(
    f: IrFunc,
    code: Seq<BlockV>,
    args: Seq<Real>,
    v: Option<Real>,
    names: Env,
    out: Seq<Real>,
    arith: Arith,
)
    requires
        lower(f, Shape::Scalar) == Ok::<Seq<BlockV>, Refusal>(code),
        entered_once(f),
        args.len() == f.params@.len(),
        agree(bind(f.params@, f.params@.len(), args), names),
        yields(f, args, v, arith),
    ensures
        exists|k: nat, t: State|
            #![trigger run(code, State { block: block_index(f.blocks@, f.entry)->0, env: names, out }, k, Seq::empty(), arith), step(code, t, Seq::empty(), arith)]
            run(
                code,
                State { block: block_index(f.blocks@, f.entry)->0, env: names, out },
                k,
                Seq::empty(),
                arith,
            ) == Some(t) && step(code, t, Seq::empty(), arith) == Next::Return(
                Some(or_else(v, Real { bits: 0 })),
                out,
            ),
{
    let shape = Shape::Scalar;
    let ins: Seq<Seq<Real>> = Seq::empty();
    lemma_is_lowered(f, shape);
    lemma_block_index(f.blocks@, f.entry);
    let (k, u): (nat, IrState) = choose|k: nat, u: IrState|
        #![trigger ir_run(f, start(f, args), k, arith), ir_step(f, u, arith)]
        ir_run(f, start(f, args), k, arith) == Some(u) && ir_step(f, u, arith) == IrNext::Done(v);
    let s0 = start(f, args);
    let t0 = State { block: s0.block, env: names, out };
    lemma_body(f, shape, code, s0, t0, k, 0, Real { bits: 0 }, 0, ins, arith);
    let t = run(code, t0, k, ins, arith)->0;
    lemma_done_scalar(f, code, u, t, ins, arith);
    assert(step(code, t, ins, arith) == Next::Return(Some(or_else(v, Real { bits: 0 })), out));
}

} // verus!
