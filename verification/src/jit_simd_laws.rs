//! Code that takes two rows at a time computes what the intermediate form
//! computes for each row.
use crate::double::{Real, NAN_BITS};
use crate::jit_code::{ends_with, insts_run, op_value, pass, run, step, BlockV, Env, Inst, Name, Next, Op, Scal, State};
use crate::jit_ir::{
    bind, block_index, inst_dst, inst_value, ir_run, ir_step, phi_count, reg_values, run_insts, start, yields,
    Arith, IrFunc, IrInst, IrNext, IrParam, IrState,
};
use crate::jit_laws::{
    agree, lemma_insts, lemma_lowered_len, lemma_run_then, only_regs, or_else, row_of, started,
};
use crate::jit_lower::{lower_insts, param_regs, Refusal};
use crate::jit_simd::{clean_inst, lower_simd, pair_loads, simd_clean, single_loads, wide_insts, wide_op};
use vstd::prelude::*;

verus! {

/// The values of the registers in two rows are those of the wide names.
spec fn agree2(a: Map<u32, Real>, b: Map<u32, Real>, names: Env) -> bool {
    forall|r: u32|
        a.contains_key(r) && b.contains_key(r) ==> (#[trigger] names.contains_key(Name::Wide(r)))
            && names[Name::Wide(r)] == Scal::Two(a[r], b[r])
}

/// Nothing but wide registers has changed.
spec fn only_wides(a: Env, b: Env) -> bool {
    forall|n: Name|
        !(n is Wide) ==> (#[trigger] b.contains_key(n) == a.contains_key(n)) && b[n] == a[n]
}

proof fn lemma_wide_op(
    inst: IrInst,
    defs: Seq<u32>,
    a: Map<u32, Real>,
    b: Map<u32, Real>,
    names: Env,
    ins: Seq<Seq<Real>>,
    arith: Arith,
)
    requires
        agree2(a, b, names),
        wide_op(inst, defs) is Ok,
        inst_value(inst, a, arith) is Some,
        inst_value(inst, b, arith) is Some,
    ensures
        op_value(wide_op(inst, defs)->Ok_0, names, ins, arith) == Some(
            Scal::Two(inst_value(inst, a, arith)->0, inst_value(inst, b, arith)->0),
        ),
{
    match inst {
        IrInst::Binary { op, lhs, rhs, .. } => {
            assert(names.contains_key(Name::Wide(lhs.n)));
            assert(names.contains_key(Name::Wide(rhs.n)));
        },
        IrInst::Unary { op, src, .. } => {
            assert(names.contains_key(Name::Wide(src.n)));
        },
        IrInst::Call { name, args, .. } => {
            let va = reg_values(args@, a)->0;
            let vb = reg_values(args@, b)->0;
            if args@.len() == 1 {
                assert(a.contains_key(args@[0].n) && b.contains_key(args@[0].n));
                assert(names.contains_key(Name::Wide(args@[0].n)));
                assert(va =~= seq![a[args@[0].n]]);
                assert(vb =~= seq![b[args@[0].n]]);
            }
            if args@.len() == 2 {
                assert(a.contains_key(args@[0].n) && b.contains_key(args@[0].n));
                assert(a.contains_key(args@[1].n) && b.contains_key(args@[1].n));
                assert(names.contains_key(Name::Wide(args@[0].n)));
                assert(names.contains_key(Name::Wide(args@[1].n)));
                assert(va =~= seq![a[args@[0].n], a[args@[1].n]]);
                assert(vb =~= seq![b[args@[0].n], b[args@[1].n]]);
            }
        },
        _ => {},
    }
}

/// Instructions run one after the other.
proof fn lemma_concat(
    a: Seq<Inst>,
    b: Seq<Inst>,
    k: nat,
    env: Env,
    out: Seq<Real>,
    ins: Seq<Seq<Real>>,
    arith: Arith,
)
    requires
        k <= b.len(),
    ensures
        insts_run(a + b, a.len() + k, env, out, ins, arith) == match insts_run(
            a,
            a.len(),
            env,
            out,
            ins,
            arith,
        ) {
            Some((e, o)) => insts_run(b, k, e, o, ins, arith),
            None => None,
        },
    decreases k,
{
    if k == 0 {
        lemma_head(a, b, a.len(), env, out, ins, arith);
    } else {
        lemma_concat(a, b, (k - 1) as nat, env, out, ins, arith);
        assert((a + b)[a.len() + k - 1] == b[k - 1]);
    }
}

proof fn lemma_head(
    a: Seq<Inst>,
    b: Seq<Inst>,
    k: nat,
    env: Env,
    out: Seq<Real>,
    ins: Seq<Seq<Real>>,
    arith: Arith,
)
    requires
        k <= a.len(),
    ensures
        insts_run(a + b, k, env, out, ins, arith) == insts_run(a, k, env, out, ins, arith),
    decreases k,
{
    if k > 0 {
        lemma_head(a, b, (k - 1) as nat, env, out, ins, arith);
        assert((a + b)[k - 1] == a[k - 1]);
    }
}

proof fn lemma_wide_len(insts: Seq<IrInst>, k: nat, defs: Seq<u32>)
    requires
        wide_insts(insts, k, defs) is Ok,
    ensures
        wide_insts(insts, k, defs)->Ok_0.0.len() == k,
    decreases k,
{
    if k > 0 {
        lemma_wide_len(insts, (k - 1) as nat, defs);
    }
}

proof fn lemma_wide_insts(
    insts: Seq<IrInst>,
    k: nat,
    defs: Seq<u32>,
    a: Map<u32, Real>,
    b: Map<u32, Real>,
    names: Env,
    out: Seq<Real>,
    ins: Seq<Seq<Real>>,
    arith: Arith,
)
    requires
        phi_count(insts) == 0,
        k <= insts.len(),
        agree2(a, b, names),
        wide_insts(insts, k, defs) is Ok,
        run_insts(insts, k, a, arith) is Some,
        run_insts(insts, k, b, arith) is Some,
    ensures
        ({
            let r = insts_run(wide_insts(insts, k, defs)->Ok_0.0, k, names, out, ins, arith);
            &&& r is Some
            &&& (r->0).1 == out
            &&& agree2(
                run_insts(insts, k, a, arith)->0,
                run_insts(insts, k, b, arith)->0,
                (r->0).0,
            )
            &&& only_wides(names, (r->0).0)
        }),
    decreases k,
{
    if k > 0 {
        let j = (k - 1) as nat;
        lemma_wide_insts(insts, j, defs, a, b, names, out, ins, arith);
        lemma_wide_len(insts, j, defs);
        let (c0, d) = wide_insts(insts, j, defs)->Ok_0;
        let inst = insts[k - 1];
        let ea = run_insts(insts, j, a, arith)->0;
        let eb = run_insts(insts, j, b, arith)->0;
        let before = (insts_run(c0, j, names, out, ins, arith)->0).0;
        let this = Inst::Def(Name::Wide(inst_dst(inst).n), wide_op(inst, d)->Ok_0);
        let code = wide_insts(insts, k, defs)->Ok_0.0;
        assert(code =~= c0 + seq![this]);
        lemma_head(c0, seq![this], j, names, out, ins, arith);
        lemma_wide_op(inst, d, ea, eb, before, ins, arith);
        assert(code[k - 1] == this);
    }
}

/// Code without the mathematical functions is the same code.
proof fn lemma_no_math(insts: Seq<IrInst>, k: nat, defs: Seq<u32>)
    requires
        lower_insts(insts, k, defs, false) is Ok,
    ensures
        lower_insts(insts, k, defs, true) == lower_insts(insts, k, defs, false),
    decreases k,
{
    if k > 0 {
        lemma_no_math(insts, (k - 1) as nat, defs);
    }
}

proof fn lemma_pair_loads(
    params: Seq<IrParam>,
    k: nat,
    names: Env,
    out: Seq<Real>,
    row: int,
    ins: Seq<Seq<Real>>,
    arith: Arith,
)
    requires
        k <= params.len(),
        params.len() == ins.len(),
        params.len() <= usize::MAX,
        names.contains_key(Name::Row(1)),
        names[Name::Row(1)] == Scal::Int(row),
        0 <= row,
        forall|j: int| 0 <= j < ins.len() ==> row + 1 < (#[trigger] ins[j]).len(),
    ensures
        ({
            let r = insts_run(pair_loads(param_regs(params)), k, names, out, ins, arith);
            &&& r is Some
            &&& (r->0).1 == out
            &&& only_wides(names, (r->0).0)
            &&& agree2(
                bind(params, k, row_of(ins, row)),
                bind(params, k, row_of(ins, row + 1)),
                (r->0).0,
            )
        }),
    decreases k,
{
    if k > 0 {
        lemma_pair_loads(params, (k - 1) as nat, names, out, row, ins, arith);
        assert(0 <= row < ins[k - 1].len() - 1);
        let e = (insts_run(
            pair_loads(param_regs(params)),
            (k - 1) as nat,
            names,
            out,
            ins,
            arith,
        )->0).0;
        assert(e.contains_key(Name::Row(1)));
        let r = params[k - 1].reg.n;
        assert(pair_loads(param_regs(params))[k - 1] == Inst::Def(
            Name::Wide(r),
            Op::LoadPair((k - 1) as usize, Name::Row(1)),
        ));
        let e2 = (insts_run(pair_loads(param_regs(params)), k, names, out, ins, arith)->0).0;
        assert(e2 == e.insert(Name::Wide(r), Scal::Two(ins[k - 1][row], ins[k - 1][row + 1])));
        assert(row_of(ins, row)[k - 1] == ins[k - 1][row]);
        assert(row_of(ins, row + 1)[k - 1] == ins[k - 1][row + 1]);
        let a = bind(params, k, row_of(ins, row));
        let b = bind(params, k, row_of(ins, row + 1));
        assert forall|q: u32| a.contains_key(q) && b.contains_key(q) implies (
        #[trigger] e2.contains_key(Name::Wide(q))) && e2[Name::Wide(q)] == Scal::Two(
            a[q],
            b[q],
        ) by {
            if q != r {
                assert(e.contains_key(Name::Wide(q)));
            }
        }
        assert(agree2(a, b, e2));
        assert(only_wides(names, e2));
    } else {
        let z: Map<u32, Real> = Map::empty();
        assert(agree2(z, z, names));
        assert(only_wides(names, names));
    }
}

proof fn lemma_single_loads(
    params: Seq<IrParam>,
    k: nat,
    names: Env,
    out: Seq<Real>,
    row: int,
    ins: Seq<Seq<Real>>,
    arith: Arith,
)
    requires
        k <= params.len(),
        params.len() == ins.len(),
        params.len() <= usize::MAX,
        names.contains_key(Name::Row(3)),
        names[Name::Row(3)] == Scal::Int(row),
        0 <= row,
        forall|j: int| 0 <= j < ins.len() ==> row < (#[trigger] ins[j]).len(),
    ensures
        ({
            let r = insts_run(single_loads(param_regs(params)), k, names, out, ins, arith);
            &&& r is Some
            &&& (r->0).1 == out
            &&& only_regs(names, (r->0).0)
            &&& agree(bind(params, k, row_of(ins, row)), (r->0).0)
        }),
    decreases k,
{
    if k > 0 {
        lemma_single_loads(params, (k - 1) as nat, names, out, row, ins, arith);
        assert(0 <= row < ins[k - 1].len());
        let e = (insts_run(
            single_loads(param_regs(params)),
            (k - 1) as nat,
            names,
            out,
            ins,
            arith,
        )->0).0;
        assert(e.contains_key(Name::Row(3)));
        let r = params[k - 1].reg.n;
        assert(single_loads(param_regs(params))[k - 1] == Inst::Def(
            Name::Reg(r),
            Op::Load((k - 1) as usize, Name::Row(3)),
        ));
        let e2 = (insts_run(single_loads(param_regs(params)), k, names, out, ins, arith)->0).0;
        assert(e2 == e.insert(Name::Reg(r), Scal::One(ins[k - 1][row])));
        assert(row_of(ins, row)[k - 1] == ins[k - 1][row]);
        assert(bind(params, k, row_of(ins, row)) == bind(
            params,
            (k - 1) as nat,
            row_of(ins, row),
        ).insert(r, ins[k - 1][row]));
    }
}

/// A body of one block yields what its instructions leave in the returned
/// register.
proof fn lemma_one_block(f: IrFunc, args: Seq<Real>, v: Option<Real>, arith: Arith)
    requires
        simd_clean(f),
        block_index(f.blocks@, f.entry) == Some(0int),
        yields(f, args, v, arith),
    ensures
        ({
            let insts = f.blocks@[0].insts@;
            let ret = f.blocks@[0].term->Return_0->0;
            let e = run_insts(insts, insts.len(), bind(f.params@, f.params@.len(), args), arith);
            &&& phi_count(insts) == 0
            &&& e is Some
            &&& (e->0).contains_key(ret.n)
            &&& v == Some((e->0)[ret.n])
        }),
{
    let insts = f.blocks@[0].insts@;
    if insts.len() > 0 {
        assert(clean_inst(insts[0]));
    }
    let (k, u): (nat, IrState) = choose|k: nat, u: IrState|
        #![trigger ir_run(f, start(f, args), k, arith), ir_step(f, u, arith)]
        ir_run(f, start(f, args), k, arith) == Some(u) && ir_step(f, u, arith) == IrNext::Done(v);
    if k > 0 {
        assert(ir_step(f, start(f, args), arith) is Goto);
    }
}

/// What is known of the code and its inputs.
spec fn setting(f: IrFunc, code: Seq<BlockV>, ins: Seq<Seq<Real>>, res: Seq<Option<Real>>, arith: Arith) -> bool {
    &&& lower_simd(f) == Ok::<Seq<BlockV>, Refusal>(code)
    &&& block_index(f.blocks@, f.entry) == Some(0int)
    &&& f.params@.len() == ins.len() <= usize::MAX
    &&& forall|j: int| 0 <= j < ins.len() ==> (#[trigger] ins[j]).len() == res.len()
    &&& forall|i: int| 0 <= i < res.len() ==> yields(f, row_of(ins, i), #[trigger] res[i], arith)
}

spec fn value(res: Seq<Option<Real>>, i: int) -> Real {
    or_else(res[i], Real { bits: NAN_BITS })
}

/// The loop variables of the loop over pairs.
spec fn in_pairs(h: State, row: int, len: int) -> bool {
    &&& h.block == 1
    &&& h.env.contains_key(Name::Len) && h.env[Name::Len] == Scal::Int(len)
    &&& h.env.contains_key(Name::Pairs) && h.env[Name::Pairs] == Scal::Int(len - len % 2)
    &&& h.env.contains_key(Name::Row(1)) && h.env[Name::Row(1)] == Scal::Int(row)
    &&& h.out.len() == len
}

/// The loop variables of the loop over the rest.
spec fn in_rest(h: State, row: int, len: int) -> bool {
    &&& h.block == 3
    &&& h.env.contains_key(Name::Len) && h.env[Name::Len] == Scal::Int(len)
    &&& h.env.contains_key(Name::Row(3)) && h.env[Name::Row(3)] == Scal::Int(row)
    &&& h.out.len() == len
}

proof fn lemma_pair(
    f: IrFunc,
    code: Seq<BlockV>,
    h: State,
    row: int,
    ins: Seq<Seq<Real>>,
    res: Seq<Option<Real>>,
    arith: Arith,
)
    requires
        setting(f, code, ins, res, arith),
        in_pairs(h, row, res.len() as int),
        0 <= row < res.len() - res.len() % 2,
        row % 2 == 0,
    ensures
        ({
            let r = run(code, h, 2, ins, arith);
            &&& r is Some
            &&& in_pairs(r->0, row + 2, res.len() as int)
            &&& (r->0).out == h.out.update(row, value(res, row)).update(row + 1, value(res, row + 1))
        }),
{
    let insts = f.blocks@[0].insts@;
    let regs = param_regs(f.params@);
    let ret = f.blocks@[0].term->Return_0->0;
    let n = insts.len();
    let m = f.params@.len();
    let len = res.len() as int;
    let (wide, d) = wide_insts(insts, n, regs)->Ok_0;
    assert(yields(f, row_of(ins, row), res[row], arith));
    assert(yields(f, row_of(ins, row + 1), res[row + 1], arith));
    lemma_one_block(f, row_of(ins, row), res[row], arith);
    lemma_one_block(f, row_of(ins, row + 1), res[row + 1], arith);
    assert(code[1].insts.len() == 0 && code[2].params.len() == 0);
    reveal_with_fuel(pass, 3);
    let g = step(code, h, ins, arith);
    assert(g is Goto && g->Goto_0.block == 2);
    let t = g->Goto_0;
    assert(t.env == h.env);
    let a = pair_loads(regs);
    let c = seq![
        Inst::StorePair(Name::Row(1), Name::Wide(ret.n)),
        Inst::Def(Name::NextRow(2), Op::Step(Name::Row(1), 2)),
    ];
    lemma_pair_loads(f.params@, m, t.env, t.out, row, ins, arith);
    let e1 = (insts_run(a, m, t.env, t.out, ins, arith)->0).0;
    lemma_wide_len(insts, n, regs);
    let ba = bind(f.params@, m, row_of(ins, row));
    let bb = bind(f.params@, m, row_of(ins, row + 1));
    lemma_wide_insts(insts, n, regs, ba, bb, e1, t.out, ins, arith);
    lemma_concat(a, wide, n, t.env, t.out, ins, arith);
    let e2 = (insts_run(wide, n, e1, t.out, ins, arith)->0).0;
    lemma_concat(a + wide, c, 2, t.env, t.out, ins, arith);
    assert(code[2].insts == a + wide + c);
    assert(a.len() == m);
    reveal_with_fuel(insts_run, 3);
    assert(e1.contains_key(Name::Row(1)) && e1.contains_key(Name::Len) && e1.contains_key(
        Name::Pairs,
    ));
    assert(e2.contains_key(Name::Row(1)) && e2.contains_key(Name::Len) && e2.contains_key(
        Name::Pairs,
    ));
    assert(e2.contains_key(Name::Wide(ret.n)));
    let x = value(res, row);
    let y = value(res, row + 1);
    assert(e2[Name::Wide(ret.n)] == Scal::Two(x, y));
    assert(row + 1 < len);
    let o2 = t.out.update(row, x).update(row + 1, y);
    assert(insts_run(c, 2, e2, t.out, ins, arith) == Some(
        (e2.insert(Name::NextRow(2), Scal::Int(row + 2)), o2),
    )) by {
        assert(c[0] == Inst::StorePair(Name::Row(1), Name::Wide(ret.n)));
        assert(c[1] == Inst::Def(Name::NextRow(2), Op::Step(Name::Row(1), 2)));
    }
    let g2 = step(code, t, ins, arith);
    assert(code[1].params.len() == 1);
    assert(g2 is Goto);
    assert(run(code, h, 2, ins, arith) == Some(g2->Goto_0)) by {
        reveal_with_fuel(run, 3);
    }
}

proof fn lemma_single(
    f: IrFunc,
    code: Seq<BlockV>,
    h: State,
    row: int,
    ins: Seq<Seq<Real>>,
    res: Seq<Option<Real>>,
    arith: Arith,
)
    requires
        setting(f, code, ins, res, arith),
        in_rest(h, row, res.len() as int),
        0 <= row < res.len(),
    ensures
        ({
            let r = run(code, h, 2, ins, arith);
            &&& r is Some
            &&& in_rest(r->0, row + 1, res.len() as int)
            &&& (r->0).out == h.out.update(row, value(res, row))
        }),
{
    let insts = f.blocks@[0].insts@;
    let regs = param_regs(f.params@);
    let ret = f.blocks@[0].term->Return_0->0;
    let n = insts.len();
    let m = f.params@.len();
    let len = res.len() as int;
    let single = lower_insts(insts, n, regs, false)->Ok_0.0;
    assert(yields(f, row_of(ins, row), res[row], arith));
    lemma_one_block(f, row_of(ins, row), res[row], arith);
    lemma_no_math(insts, n, regs);
    assert(code[3].insts.len() == 0 && code[4].params.len() == 0);
    reveal_with_fuel(pass, 3);
    let g = step(code, h, ins, arith);
    assert(g is Goto && g->Goto_0.block == 4);
    let t = g->Goto_0;
    assert(t.env == h.env);
    let a = single_loads(regs);
    let c = seq![
        Inst::Store(Name::Row(3), Name::Reg(ret.n)),
        Inst::Def(Name::NextRow(4), Op::Step(Name::Row(3), 1)),
    ];
    lemma_single_loads(f.params@, m, t.env, t.out, row, ins, arith);
    let e1 = (insts_run(a, m, t.env, t.out, ins, arith)->0).0;
    lemma_lowered_len(insts, n, regs);
    let ba = bind(f.params@, m, row_of(ins, row));
    lemma_insts(insts, n, regs, ba, e1, t.out, ins, arith);
    lemma_concat(a, single, n, t.env, t.out, ins, arith);
    let e2 = (insts_run(single, n, e1, t.out, ins, arith)->0).0;
    lemma_concat(a + single, c, 2, t.env, t.out, ins, arith);
    assert(code[4].insts == a + single + c);
    assert(a.len() == m);
    reveal_with_fuel(insts_run, 3);
    assert(e1.contains_key(Name::Row(3)) && e1.contains_key(Name::Len));
    assert(e2.contains_key(Name::Row(3)) && e2.contains_key(Name::Len));
    let x = value(res, row);
    let o2 = t.out.update(row, x);
    assert(insts_run(c, 2, e2, t.out, ins, arith) == Some(
        (e2.insert(Name::NextRow(4), Scal::Int(row + 1)), o2),
    )) by {
        assert(c[0] == Inst::Store(Name::Row(3), Name::Reg(ret.n)));
        assert(c[1] == Inst::Def(Name::NextRow(4), Op::Step(Name::Row(3), 1)));
    }
    let g2 = step(code, t, ins, arith);
    assert(code[3].params.len() == 1);
    assert(g2 is Goto);
    assert(run(code, h, 2, ins, arith) == Some(g2->Goto_0)) by {
        reveal_with_fuel(run, 3);
    }
}

/// The output where the rows before `row` are done.
spec fn from_row(out: Seq<Real>, row: int, res: Seq<Option<Real>>) -> Seq<Real> {
    Seq::new(
        res.len(),
        |i: int|
            if i < row {
                out[i]
            } else {
                value(res, i)
            },
    )
}

proof fn lemma_rest(
    f: IrFunc,
    code: Seq<BlockV>,
    h: State,
    row: int,
    ins: Seq<Seq<Real>>,
    res: Seq<Option<Real>>,
    arith: Arith,
) -> (k: nat)
    requires
        setting(f, code, ins, res, arith),
        in_rest(h, row, res.len() as int),
        0 <= row <= res.len(),
    ensures
        ({
            let r = run(code, h, k, ins, arith);
            &&& r is Some
            &&& (r->0).block == 5
            &&& (r->0).out == from_row(h.out, row, res)
        }),
    decreases res.len() - row,
{
    if row < res.len() {
        lemma_single(f, code, h, row, ins, res, arith);
        let h2 = run(code, h, 2, ins, arith)->0;
        let k = lemma_rest(f, code, h2, row + 1, ins, res, arith);
        lemma_run_then(code, h, 2, k, ins, arith);
        assert(from_row(h2.out, row + 1, res) =~= from_row(h.out, row, res));
        2 + k
    } else {
        assert(code[3].insts.len() == 0 && code[5].params.len() == 0);
        let g = step(code, h, ins, arith);
        assert(g is Goto && g->Goto_0.block == 5);
        assert(from_row(h.out, row, res) =~= h.out);
        reveal_with_fuel(run, 2);
        assert(run(code, h, 1, ins, arith) == Some(g->Goto_0));
        1
    }
}

proof fn lemma_pairs(
    f: IrFunc,
    code: Seq<BlockV>,
    h: State,
    row: int,
    ins: Seq<Seq<Real>>,
    res: Seq<Option<Real>>,
    arith: Arith,
) -> (k: nat)
    requires
        setting(f, code, ins, res, arith),
        in_pairs(h, row, res.len() as int),
        0 <= row <= res.len() - res.len() % 2,
        row % 2 == 0,
    ensures
        ({
            let r = run(code, h, k, ins, arith);
            &&& r is Some
            &&& (r->0).block == 5
            &&& (r->0).out == from_row(h.out, row, res)
        }),
    decreases res.len() - row,
{
    if row < res.len() - res.len() % 2 {
        lemma_pair(f, code, h, row, ins, res, arith);
        let h2 = run(code, h, 2, ins, arith)->0;
        let k = lemma_pairs(f, code, h2, row + 2, ins, res, arith);
        lemma_run_then(code, h, 2, k, ins, arith);
        assert(from_row(h2.out, row + 2, res) =~= from_row(h.out, row, res));
        2 + k
    } else {
        assert(code[1].insts.len() == 0 && code[3].params.len() == 1);
        reveal_with_fuel(pass, 3);
        reveal_with_fuel(run, 2);
        let g = step(code, h, ins, arith);
        assert(g is Goto && g->Goto_0.block == 3);
        let h3 = g->Goto_0;
        assert(run(code, h, 1, ins, arith) == Some(h3));
        let k = lemma_rest(f, code, h3, row, ins, res, arith);
        lemma_run_then(code, h, 1, k, ins, arith);
        1 + k
    }
}

/// A generated loop over pairs of rows stores, for every row, what the
/// intermediate form yields for that row, for even and odd numbers of rows.
pub proof fn law_simd(
    f: IrFunc,
    code: Seq<BlockV>,
    ins: Seq<Seq<Real>>,
    out: Seq<Real>,
    res: Seq<Option<Real>>,
    arith: Arith,
)
    requires
        lower_simd(f) == Ok::<Seq<BlockV>, Refusal>(code),
        block_index(f.blocks@, f.entry) == Some(0int),
        f.params@.len() == ins.len() <= usize::MAX,
        out.len() == res.len(),
        forall|j: int| 0 <= j < ins.len() ==> (#[trigger] ins[j]).len() == res.len(),
        forall|i: int| 0 <= i < res.len() ==> yields(f, row_of(ins, i), #[trigger] res[i], arith),
    ensures
        ends_with(
            code,
            started(res.len() as int),
            out,
            ins,
            arith,
            None,
            Seq::new(res.len(), |i: int| or_else(res[i], Real { bits: NAN_BITS })),
        ),
{
    let len = res.len() as int;
    let s = State { block: 0, env: started(len), out };
    reveal_with_fuel(pass, 3);
    reveal_with_fuel(insts_run, 3);
    reveal_with_fuel(run, 2);
    assert(code[0].insts.len() == 2 && code[0].insts[0] == Inst::Def(
        Name::Pairs,
        Op::Even(Name::Len),
    ) && code[0].insts[1] == Inst::Def(Name::Lit(0), Op::Int(0)));
    assert(code[1].params.len() == 1);
    let g = step(code, s, ins, arith);
    assert(g is Goto);
    let h = g->Goto_0;
    assert(run(code, s, 1, ins, arith) == Some(h));
    let k = lemma_pairs(f, code, h, 0, ins, res, arith);
    lemma_run_then(code, s, 1, k, ins, arith);
    let e = run(code, h, k, ins, arith)->0;
    assert(code[5].insts.len() == 0);
    assert(e.out =~= Seq::new(res.len(), |i: int| or_else(res[i], Real { bits: NAN_BITS })));
    assert(step(code, e, ins, arith) == Next::Return(None, e.out));
    assert(run(code, s, 1 + k, ins, arith) == Some(e));
}

} // verus!
