//! Compilation of closures: which specialisations a closure has, and their code.
use crate::double::{FloatOp, Fpu, NAN_BITS, Real, num, rounded};
use crate::jit_code::{
    ends_with, insts_run, pass, run, step, Block, BlockV, Code, Inst, Name, Next, Op, Scal, State, Term, TermV, Ty,
};
use crate::jit_emit::{block, emit, unsupported};
use crate::jit_ir::{Arith, BinOp, Fun, IrElem, IrFunc, IrParam, UnOp};
use crate::jit_laws::{lemma_run_then, started};
use crate::jit_lower::{
    bin_name, bin_text, lower, FusedReduceOp, JitError, Refusal, Shape,
};
use crate::jit_simd::{emit_simd, lower_simd};
use crate::kernel_par::{ScanOp, fold_slice, folded};
use crate::text::{chars_of, debug_of, debug_text, extend_str, owned, same_text, string_of};
use crate::value::{bool_real, RVal, Val};
use vstd::prelude::*;

verus! {

/// How a compiled function is called.
#[derive(Clone, Copy, PartialEq, Eq, Structural, Debug)]
pub enum JitKind {
    Scalar,
    Vector1ToScalar,
    VectorMap,
    VectorBinaryMap,
    VectorTernaryMap,
}

/// The reductions of a whole vector that are called as they are.
#[derive(Clone, Copy, PartialEq, Eq, Structural, Debug)]
pub enum Reduction {
    Sum,
    Mean,
    Length,
    Prod,
}

#[derive(Debug)]
pub enum Body {
    Code(Code),
    Reduction(Reduction),
}

/// A function that is ready to be assembled.
#[derive(Debug)]
pub struct CompiledFn {
    pub body: Body,
    pub arity: usize,
    pub kind: JitKind,
}

pub enum BodyV {
    Code(Seq<BlockV>),
    Reduction(Reduction),
}

pub struct Plan {
    pub body: BodyV,
    pub arity: nat,
    pub kind: JitKind,
}

impl CompiledFn {
    pub open spec fn deep(self) -> Plan {
        Plan {
            body: match self.body {
                Body::Code(c) => BodyV::Code(c.deep()),
                Body::Reduction(r) => BodyV::Reduction(r),
            },
            arity: self.arity as nat,
            kind: self.kind,
        }
    }

    /// Whether a call with `n` scalars is served.
    pub fn takes_scalars(&self, n: usize) -> (r: bool)
        ensures
            r == (self.kind == JitKind::Scalar && n == self.arity && self.arity <= 2),
    {
        self.kind == JitKind::Scalar && n == self.arity && self.arity <= 2
    }
}

/// What a compilation gives.
pub open spec fn gives(r: Result<CompiledFn, JitError>, want: Result<Plan, Refusal>) -> bool {
    match want {
        Ok(p) => r is Ok && r->Ok_0.deep() == p,
        Err(e) => r is Err && r->Err_0.deep() == e,
    }
}

pub open spec fn coded(code: Result<Seq<BlockV>, Refusal>, arity: nat, kind: JitKind) -> Result<
    Plan,
    Refusal,
> {
    match code {
        Ok(c) => Ok(Plan { body: BodyV::Code(c), arity, kind }),
        Err(e) => Err(e),
    }
}

pub open spec fn is_scalar_numeric(e: IrElem) -> bool {
    e is Real || e is Int || e is Bool
}

pub open spec fn elem_name(e: IrElem) -> Seq<char> {
    match e {
        IrElem::Real => "Real"@,
        IrElem::Int => "Int"@,
        IrElem::Bool => "Bool"@,
        IrElem::Str => "Str"@,
        IrElem::Unknown => "Unknown"@,
    }
}

fn elem_text(e: IrElem) -> (r: String)
    ensures
        r@ == elem_name(e),
{
    match e {
        IrElem::Real => owned("Real"),
        IrElem::Int => owned("Int"),
        IrElem::Bool => owned("Bool"),
        IrElem::Str => owned("Str"),
        IrElem::Unknown => owned("Unknown"),
    }
}

fn scalar_numeric(e: IrElem) -> (r: bool)
    ensures
        r == is_scalar_numeric(e),
{
    match e {
        IrElem::Real => true,
        IrElem::Int => true,
        IrElem::Bool => true,
        _ => false,
    }
}

/// The first of `k` parameters whose type is not a number's.
pub open spec fn bad_param(params: Seq<IrParam>, k: nat) -> Option<int>
    decreases k,
{
    if k == 0 {
        None
    } else {
        match bad_param(params, (k - 1) as nat) {
            Some(i) => Some(i),
            None => if is_scalar_numeric(params[k - 1].elem) {
                None
            } else {
                Some(k - 1)
            },
        }
    }
}

proof fn lemma_bad_param(params: Seq<IrParam>, j: nat, k: nat)
    requires
        j <= k,
        bad_param(params, j) is Some,
    ensures
        bad_param(params, k) == bad_param(params, j),
    decreases k,
{
    if j < k {
        lemma_bad_param(params, j, (k - 1) as nat);
    }
}

/// The scalar compilation of a function of numbers.
pub open spec fn scalar_plan(f: IrFunc) -> Result<Plan, Refusal> {
    match bad_param(f.params@, f.params@.len()) {
        Some(i) => Err(
            Refusal::Unsupported(
                "param '"@ + f.params@[i].name@ + "' has unsupported type "@ + elem_name(
                    f.params@[i].elem,
                ),
            ),
        ),
        None => if !is_scalar_numeric(f.return_elem) && !(f.return_elem is Unknown) {
            Err(Refusal::Unsupported("return type "@ + elem_name(f.return_elem)))
        } else {
            coded(lower(f, Shape::Scalar), f.params@.len(), JitKind::Scalar)
        },
    }
}

/// The reduction with a name.
pub open spec fn reduction_named(name: Seq<char>) -> Option<Reduction> {
    if name == "sum"@ {
        Some(Reduction::Sum)
    } else if name == "mean"@ {
        Some(Reduction::Mean)
    } else if name == "length"@ {
        Some(Reduction::Length)
    } else if name == "prod"@ {
        Some(Reduction::Prod)
    } else {
        None
    }
}

fn find_reduction(name: &str) -> (r: Option<Reduction>)
    ensures
        r == reduction_named(name@),
{
    if same_text(name, "sum") {
        Some(Reduction::Sum)
    } else if same_text(name, "mean") {
        Some(Reduction::Mean)
    } else if same_text(name, "length") {
        Some(Reduction::Length)
    } else if same_text(name, "prod") {
        Some(Reduction::Prod)
    } else {
        None
    }
}

/// What a reduction makes of a vector: the sum or product from the first number
/// to the last, the sum over the number of numbers, or that number. The mean of
/// nothing is a NaN.
pub open spec fn reduced<F: Fn(FloatOp, Real, Real, Real) -> Real>(fpu: &Fpu<F>, k: Reduction, x: Seq<Real>) -> Real {
    match k {
        Reduction::Sum => folded(fpu, ScanOp::Cumsum, x),
        Reduction::Prod => folded(fpu, ScanOp::Cumprod, x),
        Reduction::Length => rounded(x.len()),
        Reduction::Mean => if x.len() == 0 {
            num(NAN_BITS)
        } else {
            fpu.over(folded(fpu, ScanOp::Cumsum, x), rounded(x.len()))
        },
    }
}

/// Reduces a vector.
pub fn reduce_vector<F: Fn(FloatOp, Real, Real, Real) -> Real>(fpu: &Fpu<F>, k: Reduction, x: &[Real]) -> (r: Real)
    requires
        fpu.wf(),
    ensures
        r == reduced(fpu, k, x@),
{
    let n: usize = x.len();
    match k {
        Reduction::Sum => fold_slice(fpu, ScanOp::Cumsum, x),
        Reduction::Prod => fold_slice(fpu, ScanOp::Cumprod, x),
        Reduction::Length => Real::from_u64(n as u64),
        Reduction::Mean => if n == 0 {
            Real { bits: NAN_BITS }
        } else {
            fpu.quot(fold_slice(fpu, ScanOp::Cumsum, x), Real::from_u64(n as u64))
        },
    }
}

/// The arithmetic of an operator.
pub open spec fn op_fun(op: BinOp) -> Option<Fun> {
    match op {
        BinOp::Add => Some(Fun::Add),
        BinOp::Sub => Some(Fun::Sub),
        BinOp::Mul => Some(Fun::Mul),
        BinOp::Div => Some(Fun::Div),
        _ => None,
    }
}

fn find_fun(op: BinOp) -> (r: Option<Fun>)
    ensures
        r == op_fun(op),
{
    match op {
        BinOp::Add => Some(Fun::Add),
        BinOp::Sub => Some(Fun::Sub),
        BinOp::Mul => Some(Fun::Mul),
        BinOp::Div => Some(Fun::Div),
        _ => None,
    }
}

/// The loop that applies one operation to every row; the second operand is a
/// constant or the second input.
pub open spec fn op_loop(g: Fun, second: Option<Real>) -> Seq<BlockV> {
    let load2 = match second {
        Some(x) => Op::Real(x),
        None => Op::Load(1, Name::Row(1)),
    };
    seq![
        BlockV {
            params: seq![(Name::Len, Ty::Int)],
            insts: seq![Inst::Def(Name::Lit(0), Op::Int(0))],
            term: TermV::Jump(1, seq![Name::Lit(0)]),
        },
        BlockV {
            params: seq![(Name::Row(1), Ty::Int)],
            insts: Seq::empty(),
            term: TermV::IfLess(Name::Row(1), Name::Len, 2, Seq::empty(), 3, Seq::empty()),
        },
        BlockV {
            params: Seq::empty(),
            insts: seq![
                Inst::Def(Name::Item(0), Op::Load(0, Name::Row(1))),
                Inst::Def(Name::Item(1), load2),
                Inst::Def(Name::Result, Op::Fun2(g, Name::Item(0), Name::Item(1))),
                Inst::Store(Name::Row(1), Name::Result),
                Inst::Def(Name::NextRow(2), Op::Step(Name::Row(1), 1)),
            ],
            term: TermV::Jump(1, seq![Name::NextRow(2)]),
        },
        BlockV { params: Seq::empty(), insts: Seq::empty(), term: TermV::Return(None) },
    ]
}

fn emit_op_loop(g: Fun, second: Option<Real>) -> (r: Code)
    ensures
        r.deep() == op_loop(g, second),
{
    let ghost want = op_loop(g, second);
    let load2: Op = match second {
        Some(x) => Op::Real(x),
        None => Op::Load(1, Name::Row(1)),
    };
    let mut out: Vec<Block> = Vec::new();
    let p: Vec<(Name, Ty)> = vec![(Name::Len, Ty::Int)];
    let i: Vec<Inst> = vec![Inst::Def(Name::Lit(0), Op::Int(0))];
    let a: Vec<Name> = vec![Name::Lit(0)];
    assert(p@ =~= want[0].params && i@ =~= want[0].insts && a@ =~= seq![Name::Lit(0)]);
    out.push(block(p, i, Term::Jump(1, a)));
    let p: Vec<(Name, Ty)> = vec![(Name::Row(1), Ty::Int)];
    assert(p@ =~= want[1].params);
    out.push(
        block(
            p,
            Vec::new(),
            Term::IfLess(Name::Row(1), Name::Len, 2, Vec::new(), 3, Vec::new()),
        ),
    );
    let i: Vec<Inst> = vec![
        Inst::Def(Name::Item(0), Op::Load(0, Name::Row(1))),
        Inst::Def(Name::Item(1), load2),
        Inst::Def(Name::Result, Op::Fun2(g, Name::Item(0), Name::Item(1))),
        Inst::Store(Name::Row(1), Name::Result),
        Inst::Def(Name::NextRow(2), Op::Step(Name::Row(1), 1)),
    ];
    let a: Vec<Name> = vec![Name::NextRow(2)];
    assert(i@ =~= want[2].insts && a@ =~= seq![Name::NextRow(2)]);
    out.push(block(Vec::new(), i, Term::Jump(1, a)));
    out.push(block(Vec::new(), Vec::new(), Term::Return(None)));
    let r = Code { blocks: out };
    assert(r.deep() =~= want);
    r
}

/// The second operand of a row.
pub open spec fn second_of(second: Option<Real>, ins: Seq<Seq<Real>>, i: int) -> Real {
    match second {
        Some(x) => x,
        None => ins[1][i],
    }
}

spec fn at_row(h: State, row: int, len: int) -> bool {
    &&& h.block == 1
    &&& h.env.contains_key(Name::Len) && h.env[Name::Len] == Scal::Int(len)
    &&& h.env.contains_key(Name::Row(1)) && h.env[Name::Row(1)] == Scal::Int(row)
    &&& h.out.len() == len
}

proof fn lemma_op_row(
    g: Fun,
    second: Option<Real>,
    h: State,
    row: int,
    len: int,
    ins: Seq<Seq<Real>>,
    arith: Arith,
)
    requires
        at_row(h, row, len),
        0 <= row < len,
        ins.len() >= 1,
        ins[0].len() == len,
        second is None ==> ins.len() >= 2 && ins[1].len() == len,
    ensures
        ({
            let r = run(op_loop(g, second), h, 2, ins, arith);
            &&& r is Some
            &&& at_row(r->0, row + 1, len)
            &&& (r->0).out == h.out.update(
                row,
                arith(g, seq![ins[0][row], second_of(second, ins, row)]),
            )
        }),
{
    let code = op_loop(g, second);
    assert(code[1].insts.len() == 0 && code[2].params.len() == 0);
    let s = step(code, h, ins, arith);
    assert(s is Goto && s->Goto_0.block == 2);
    let t = s->Goto_0;
    assert(t.env == h.env);
    let i = code[2].insts;
    let x = ins[0][row];
    let y = second_of(second, ins, row);
    let z = arith(g, seq![x, y]);
    let e1 = t.env.insert(Name::Item(0), Scal::One(x));
    let e2 = e1.insert(Name::Item(1), Scal::One(y));
    let e3 = e2.insert(Name::Result, Scal::One(z));
    let e4 = e3.insert(Name::NextRow(2), Scal::Int(row + 1));
    let o = t.out.update(row, z);
    assert(insts_run(i, 0, t.env, t.out, ins, arith) == Some((t.env, t.out)));
    assert(i[0] == Inst::Def(Name::Item(0), Op::Load(0, Name::Row(1))));
    assert(insts_run(i, 1, t.env, t.out, ins, arith) == Some((e1, t.out)));
    assert(insts_run(i, 2, t.env, t.out, ins, arith) == Some((e2, t.out)));
    assert(i[2] == Inst::Def(Name::Result, Op::Fun2(g, Name::Item(0), Name::Item(1))));
    assert(insts_run(i, 3, t.env, t.out, ins, arith) == Some((e3, t.out)));
    assert(i[3] == Inst::Store(Name::Row(1), Name::Result));
    assert(insts_run(i, 4, t.env, t.out, ins, arith) == Some((e3, o)));
    assert(i[4] == Inst::Def(Name::NextRow(2), Op::Step(Name::Row(1), 1)));
    assert(insts_run(i, 5, t.env, t.out, ins, arith) == Some((e4, o)));
    assert(i.len() == 5);
    assert(code[1].params.len() == 1);
    reveal_with_fuel(pass, 3);
    let s2 = step(code, t, ins, arith);
    assert(s2 is Goto);
    assert(run(code, h, 2, ins, arith) == Some(s2->Goto_0)) by {
        reveal_with_fuel(run, 3);
    }
}

spec fn op_rows(
    g: Fun,
    second: Option<Real>,
    out: Seq<Real>,
    row: int,
    len: int,
    ins: Seq<Seq<Real>>,
    arith: Arith,
) -> Seq<Real> {
    Seq::new(
        len as nat,
        |i: int|
            if i < row {
                out[i]
            } else {
                arith(g, seq![ins[0][i], second_of(second, ins, i)])
            },
    )
}

proof fn lemma_op_rows(
    g: Fun,
    second: Option<Real>,
    h: State,
    row: int,
    len: int,
    ins: Seq<Seq<Real>>,
    arith: Arith,
) -> (k: nat)
    requires
        at_row(h, row, len),
        0 <= row <= len,
        ins.len() >= 1,
        ins[0].len() == len,
        second is None ==> ins.len() >= 2 && ins[1].len() == len,
    ensures
        ({
            let r = run(op_loop(g, second), h, k, ins, arith);
            &&& r is Some
            &&& (r->0).block == 3
            &&& (r->0).out == op_rows(g, second, h.out, row, len, ins, arith)
        }),
    decreases len - row,
{
    let code = op_loop(g, second);
    let want = op_rows(g, second, h.out, row, len, ins, arith);
    if row < len {
        lemma_op_row(g, second, h, row, len, ins, arith);
        let h2 = run(code, h, 2, ins, arith)->0;
        let k = lemma_op_rows(g, second, h2, row + 1, len, ins, arith);
        lemma_run_then(code, h, 2, k, ins, arith);
        assert(op_rows(g, second, h2.out, row + 1, len, ins, arith) =~= want);
        2 + k
    } else {
        assert(code[1].insts.len() == 0 && code[3].params.len() == 0);
        let s = step(code, h, ins, arith);
        assert(s is Goto && s->Goto_0.block == 3);
        assert(h.out =~= want);
        reveal_with_fuel(run, 3);
        assert(run(code, h, 1, ins, arith) == Some(s->Goto_0));
        1
    }
}

/// The loop of one operation stores its result for every row.
pub proof fn law_op_loop(
    g: Fun,
    second: Option<Real>,
    len: nat,
    ins: Seq<Seq<Real>>,
    out: Seq<Real>,
    arith: Arith,
)
    requires
        ins.len() >= 1,
        ins[0].len() == len,
        second is None ==> ins.len() >= 2 && ins[1].len() == len,
        out.len() == len,
    ensures
        ends_with(
            op_loop(g, second),
            started(len as int),
            out,
            ins,
            arith,
            None,
            Seq::new(len, |i: int| arith(g, seq![ins[0][i], second_of(second, ins, i)])),
        ),
{
    let code = op_loop(g, second);
    reveal_with_fuel(pass, 3);
    reveal_with_fuel(run, 2);
    reveal_with_fuel(insts_run, 3);
    let s = State { block: 0, env: started(len as int), out };
    assert(code[0].insts.len() == 1 && code[1].params.len() == 1 && code[3].insts.len() == 0);
    let t = step(code, s, ins, arith);
    assert(t is Goto);
    let h = t->Goto_0;
    assert(run(code, s, 1, ins, arith) == Some(h));
    let k = lemma_op_rows(g, second, h, 0, len as int, ins, arith);
    lemma_run_then(code, s, 1, k, ins, arith);
    let e = run(code, h, k, ins, arith)->0;
    assert(e.out =~= Seq::new(len, |i: int| arith(g, seq![ins[0][i], second_of(second, ins, i)])));
    assert(step(code, e, ins, arith) == Next::Return(None, e.out));
    assert(run(code, s, 1 + k, ins, arith) == Some(e));
}

/// The compiler.
pub struct JitCompiler {}

fn wrap(code: Result<Code, JitError>, arity: usize, kind: JitKind) -> (r: Result<
    CompiledFn,
    JitError,
>)
    ensures
        match code {
            Ok(c) => r is Ok && r->Ok_0.deep() == (Plan {
                body: BodyV::Code(c.deep()),
                arity: arity as nat,
                kind,
            }),
            Err(e) => r is Err && r->Err_0.deep() == e.deep(),
        },
{
    match code {
        Ok(c) => Ok(CompiledFn { body: Body::Code(c), arity, kind }),
        Err(e) => Err(e),
    }
}

pub open spec fn op_plan(
    what: Seq<char>,
    op: BinOp,
    second: Option<Real>,
    arity: nat,
    kind: JitKind,
) -> Result<Plan, Refusal> {
    match op_fun(op) {
        Some(g) => Ok(Plan { body: BodyV::Code(op_loop(g, second)), arity, kind }),
        None => Err(Refusal::Unsupported(what + bin_name(op))),
    }
}

pub open spec fn rows_plan(f: IrFunc, n: usize, refusal: Seq<char>, kind: JitKind) -> Result<
    Plan,
    Refusal,
> {
    if f.params@.len() != n {
        Err(Refusal::Unsupported(refusal))
    } else {
        coded(lower(f, Shape::Rows(n)), n as nat, kind)
    }
}

pub open spec fn fold_plan(f: IrFunc, op: FusedReduceOp) -> Result<Plan, Refusal> {
    if f.params@.len() != 1 {
        Err(Refusal::Unsupported("map-reduce expects 1 inner param"@))
    } else {
        coded(lower(f, Shape::Fold(op)), 1, JitKind::Vector1ToScalar)
    }
}

pub open spec fn simd_plan(f: IrFunc) -> Result<Plan, Refusal> {
    if f.params@.len() != 1 {
        Err(Refusal::Unsupported("simd vector map expects 1 param"@))
    } else {
        coded(lower_simd(f), 1, JitKind::VectorMap)
    }
}

impl JitCompiler {
    /// Compiles a function of scalar numbers.
    pub fn compile(f: &IrFunc) -> (r: Result<CompiledFn, JitError>)
        requires
            f.blocks@.len() + 5 <= usize::MAX,
        ensures
            gives(r, scalar_plan(*f)),
    {
        let mut i: usize = 0;
        while i < f.params.len()
            invariant
                i <= f.params@.len(),
                bad_param(f.params@, i as nat) is None,
            decreases f.params@.len() - i,
        {
            if !scalar_numeric(f.params[i].elem) {
                proof {
                    lemma_bad_param(f.params@, (i + 1) as nat, f.params@.len());
                }
                let mut m = chars_of("param '");
                extend_str(&mut m, f.params[i].name.as_str());
                extend_str(&mut m, "' has unsupported type ");
                let t = elem_text(f.params[i].elem);
                extend_str(&mut m, t.as_str());
                return Err(JitError::Unsupported(string_of(&m)));
            }
            i += 1;
        }
        let unknown: bool = match f.return_elem {
            IrElem::Unknown => true,
            _ => false,
        };
        if !scalar_numeric(f.return_elem) && !unknown {
            let mut m = chars_of("return type ");
            let t = elem_text(f.return_elem);
            extend_str(&mut m, t.as_str());
            return Err(JitError::Unsupported(string_of(&m)));
        }
        wrap(emit(f, Shape::Scalar), f.params.len(), JitKind::Scalar)
    }

    /// Compiles a reduction of a vector: `sum`, `mean`, `length` or `prod`.
    pub fn compile_vector_reduction(name: &str) -> (r: Result<CompiledFn, JitError>)
        ensures
            match reduction_named(name@) {
                Some(k) => r is Ok && r->Ok_0.deep() == (Plan {
                    body: BodyV::Reduction(k),
                    arity: 1,
                    kind: JitKind::Vector1ToScalar,
                }),
                None => r is Err && r->Err_0.deep() == Refusal::Unsupported(
                    "reduction "@ + debug_text(name@),
                ),
            },
    {
        match find_reduction(name) {
            Some(k) => Ok(
                CompiledFn { body: Body::Reduction(k), arity: 1, kind: JitKind::Vector1ToScalar },
            ),
            None => {
                let mut m = chars_of("reduction ");
                let t: String = debug_of(name);
                extend_str(&mut m, t.as_str());
                Err(JitError::Unsupported(string_of(&m)))
            },
        }
    }

    /// Compiles `x[i] op scalar` for every row.
    pub fn compile_vector_map_scalar_op(op: BinOp, scalar: Real) -> (r: Result<
        CompiledFn,
        JitError,
    >)
        ensures
            gives(r, op_plan("vector op "@, op, Some(scalar), 1, JitKind::VectorMap)),
    {
        match find_fun(op) {
            Some(g) => wrap(Ok(emit_op_loop(g, Some(scalar))), 1, JitKind::VectorMap),
            None => {
                let mut m = chars_of("vector op ");
                let t = bin_text(op);
                extend_str(&mut m, t.as_str());
                Err(JitError::Unsupported(string_of(&m)))
            },
        }
    }

    /// Compiles `a[i] op b[i]` for every row.
    pub fn compile_vector_binary_op(op: BinOp) -> (r: Result<CompiledFn, JitError>)
        ensures
            gives(r, op_plan("vec-vec op "@, op, None, 2, JitKind::VectorBinaryMap)),
    {
        match find_fun(op) {
            Some(g) => wrap(Ok(emit_op_loop(g, None)), 2, JitKind::VectorBinaryMap),
            None => {
                let mut m = chars_of("vec-vec op ");
                let t = bin_text(op);
                extend_str(&mut m, t.as_str());
                Err(JitError::Unsupported(string_of(&m)))
            },
        }
    }

    /// Compiles a function of one argument for every row.
    pub fn compile_vector_map_generic(f: &IrFunc) -> (r: Result<CompiledFn, JitError>)
        requires
            f.blocks@.len() + 5 <= usize::MAX,
        ensures
            gives(r, rows_plan(*f, 1, "generic vector map expects 1 param"@, JitKind::VectorMap)),
    {
        if f.params.len() != 1 {
            return Err(unsupported("generic vector map expects 1 param"));
        }
        wrap(emit(f, Shape::Rows(1)), 1, JitKind::VectorMap)
    }

    /// Compiles a function of two arguments for every row.
    pub fn compile_vector_binary_map_generic(f: &IrFunc) -> (r: Result<CompiledFn, JitError>)
        requires
            f.blocks@.len() + 5 <= usize::MAX,
        ensures
            gives(
                r,
                rows_plan(*f, 2, "vector binary map expects 2 params"@, JitKind::VectorBinaryMap),
            ),
    {
        if f.params.len() != 2 {
            return Err(unsupported("vector binary map expects 2 params"));
        }
        wrap(emit(f, Shape::Rows(2)), 2, JitKind::VectorBinaryMap)
    }

    /// Compiles a function of three arguments for every row.
    pub fn compile_vector_ternary_map_generic(f: &IrFunc) -> (r: Result<CompiledFn, JitError>)
        requires
            f.blocks@.len() + 5 <= usize::MAX,
        ensures
            gives(
                r,
                rows_plan(*f, 3, "vector ternary map expects 3 params"@, JitKind::VectorTernaryMap),
            ),
    {
        if f.params.len() != 3 {
            return Err(unsupported("vector ternary map expects 3 params"));
        }
        wrap(emit(f, Shape::Rows(3)), 3, JitKind::VectorTernaryMap)
    }

    /// Compiles a map and a reduction into one loop.
    pub fn compile_vector_map_reduce(f: &IrFunc, op: FusedReduceOp) -> (r: Result<
        CompiledFn,
        JitError,
    >)
        requires
            f.blocks@.len() + 5 <= usize::MAX,
        ensures
            gives(r, fold_plan(*f, op)),
    {
        if f.params.len() != 1 {
            return Err(unsupported("map-reduce expects 1 inner param"));
        }
        wrap(emit(f, Shape::Fold(op)), 1, JitKind::Vector1ToScalar)
    }

    /// Compiles a function of one argument for two rows at a time.
    pub fn compile_vector_simd_map_f64x2(f: &IrFunc) -> (r: Result<CompiledFn, JitError>)
        ensures
            gives(r, simd_plan(*f)),
    {
        if f.params.len() != 1 {
            return Err(unsupported("simd vector map expects 1 param"));
        }
        wrap(emit_simd(f), 1, JitKind::VectorMap)
    }
}

// ── Closures ─────────────────────────────────────────────────────────

/// An expression.
#[allow(inconsistent_fields)]
#[derive(Debug)]
pub enum Expr {
    NumLit(Real),
    Symbol(String),
    Binary { op: BinOp, lhs: Box<Expr>, rhs: Box<Expr> },
    Unary { op: UnOp, expr: Box<Expr> },
    Call { func: Box<Expr>, args: Vec<Expr> },
    If { cond: Box<Expr>, yes: Box<Expr>, no: Option<Box<Expr>> },
}

/// A parameter of a closure.
#[derive(Debug)]
pub struct Param {
    pub name: String,
    pub has_default: bool,
    pub dots: bool,
}

/// A closure with its body, in which captured numbers stand as constants, and
/// the intermediate forms of the body and, where the body is a call with one
/// argument, of that argument.
#[derive(Debug)]
pub struct Closure {
    pub params: Vec<Param>,
    pub body: Expr,
    pub body_ir: IrFunc,
    pub inner_ir: Option<IrFunc>,
}

pub open spec fn is_symbol(e: Expr, name: Seq<char>) -> bool {
    e matches Expr::Symbol(s) && s@ == name
}

fn symbol_is(e: &Expr, name: &str) -> (r: bool)
    ensures
        r == is_symbol(*e, name@),
{
    match e {
        Expr::Symbol(s) => same_text(s.as_str(), name),
        _ => false,
    }
}

/// The called name of a call with one argument.
pub open spec fn one_arg_call(e: Expr) -> Option<(Seq<char>, Expr)> {
    match e {
        Expr::Call { func, args } => match *func {
            Expr::Symbol(s) => if args@.len() == 1 {
                Some((s@, args@[0]))
            } else {
                None
            },
            _ => None,
        },
        _ => None,
    }
}

/// `Some` of what was compiled.
pub open spec fn compiled(p: Result<Plan, Refusal>) -> Seq<Plan> {
    match p {
        Ok(x) => seq![x],
        Err(_) => Seq::empty(),
    }
}

/// Specialisations of a reduction: `sum(v)`, and `sum(f(v))` in one loop.
pub open spec fn reduction_plans(c: Closure) -> Seq<Plan> {
    match one_arg_call(c.body) {
        None => Seq::empty(),
        Some((name, arg)) => match reduction_named(name) {
            None => Seq::empty(),
            Some(k) => {
                let whole = if is_symbol(arg, c.params@[0].name@) {
                    seq![
                        Plan {
                            body: BodyV::Reduction(k),
                            arity: 1,
                            kind: JitKind::Vector1ToScalar,
                        },
                    ]
                } else {
                    Seq::empty()
                };
                let fused = match (k, c.inner_ir) {
                    (Reduction::Sum, Some(f)) => compiled(fold_plan(f, FusedReduceOp::Sum)),
                    (Reduction::Prod, Some(f)) => compiled(fold_plan(f, FusedReduceOp::Prod)),
                    _ => Seq::empty(),
                };
                whole + fused
            },
        },
    }
}

/// The operator and constant of `v op k`, or of `k op v` where the operands can
/// be exchanged.
pub open spec fn with_literal(e: Expr, v: Seq<char>) -> Option<(BinOp, Real)> {
    match e {
        Expr::Binary { op, lhs, rhs } => match (*lhs, *rhs) {
            (Expr::Symbol(s), Expr::NumLit(k)) => if s@ == v {
                Some((op, k))
            } else {
                None
            },
            (Expr::NumLit(k), Expr::Symbol(s)) => if s@ == v && (op is Add || op is Mul) {
                Some((op, k))
            } else {
                None
            },
            _ => None,
        },
        _ => None,
    }
}

/// The operator of `a op b` on the two parameters.
pub open spec fn on_params(e: Expr, a: Seq<char>, b: Seq<char>) -> Option<BinOp> {
    match e {
        Expr::Binary { op, lhs, rhs } => if is_symbol(*lhs, a) && is_symbol(*rhs, b) {
            Some(op)
        } else {
            None
        },
        _ => None,
    }
}

/// The specialisations of a closure, the preferred ones first. A closure with
/// more than three parameters, or with a default or dots among them, has none.
pub open spec fn plans(c: Closure) -> Seq<Plan> {
    let n = c.params@.len();
    if n > 3 || exists|i: int|
        0 <= i < n && ((#[trigger] c.params@[i]).has_default || c.params@[i].dots) {
        Seq::empty()
    } else {
        let special = if n == 1 {
            reduction_plans(c) + match with_literal(c.body, c.params@[0].name@) {
                Some((op, k)) => compiled(
                    op_plan("vector op "@, op, Some(k), 1, JitKind::VectorMap),
                ),
                None => Seq::empty(),
            } + compiled(simd_plan(c.body_ir)) + compiled(
                rows_plan(
                    c.body_ir,
                    1,
                    "generic vector map expects 1 param"@,
                    JitKind::VectorMap,
                ),
            )
        } else if n == 2 {
            (match on_params(c.body, c.params@[0].name@, c.params@[1].name@) {
                Some(op) => compiled(
                    op_plan("vec-vec op "@, op, None, 2, JitKind::VectorBinaryMap),
                ),
                None => Seq::empty(),
            }) + compiled(
                rows_plan(
                    c.body_ir,
                    2,
                    "vector binary map expects 2 params"@,
                    JitKind::VectorBinaryMap,
                ),
            )
        } else if n == 3 {
            compiled(
                rows_plan(
                    c.body_ir,
                    3,
                    "vector ternary map expects 3 params"@,
                    JitKind::VectorTernaryMap,
                ),
            )
        } else {
            Seq::empty()
        };
        special + compiled(scalar_plan(c.body_ir))
    }
}

pub open spec fn plans_of(v: Seq<CompiledFn>) -> Seq<Plan> {
    Seq::new(v.len(), |i: int| v[i].deep())
}

fn add_plan(out: &mut Vec<CompiledFn>, c: Result<CompiledFn, JitError>, Ghost(want): Ghost<Result<Plan, Refusal>>)
    requires
        gives(c, want),
    ensures
        plans_of(final(out)@) == plans_of(old(out)@) + compiled(want),
{
    let ghost before = out@;
    match c {
        Ok(p) => {
            out.push(p);
            assert(plans_of(out@) =~= plans_of(before) + compiled(want));
        },
        Err(_) => {
            assert(plans_of(out@) =~= plans_of(before) + compiled(want));
        },
    }
}

fn add_reductions(out: &mut Vec<CompiledFn>, c: &Closure)
    requires
        c.params@.len() == 1,
        c.inner_ir matches Some(f) ==> f.blocks@.len() + 5 <= usize::MAX,
    ensures
        plans_of(final(out)@) == plans_of(old(out)@) + reduction_plans(*c),
{
    let ghost before = plans_of(out@);
    if let Expr::Call { func, args } = &c.body {
        if let Expr::Symbol(name) = &**func {
            if args.len() == 1 {
                if let Some(k) = find_reduction(name.as_str()) {
                    if symbol_is(&args[0], c.params[0].name.as_str()) {
                        let p = CompiledFn {
                            body: Body::Reduction(k),
                            arity: 1,
                            kind: JitKind::Vector1ToScalar,
                        };
                        let ghost want: Result<Plan, Refusal> = Ok(p.deep());
                        add_plan(out, Ok(p), Ghost(want));
                    }
                    if let Some(f) = &c.inner_ir {
                        match k {
                            Reduction::Sum => {
                                add_plan(
                                    out,
                                    JitCompiler::compile_vector_map_reduce(f, FusedReduceOp::Sum),
                                    Ghost(fold_plan(*f, FusedReduceOp::Sum)),
                                );
                            },
                            Reduction::Prod => {
                                add_plan(
                                    out,
                                    JitCompiler::compile_vector_map_reduce(f, FusedReduceOp::Prod),
                                    Ghost(fold_plan(*f, FusedReduceOp::Prod)),
                                );
                            },
                            _ => {},
                        }
                    }
                }
            }
        }
    }
    assert(plans_of(out@) =~= before + reduction_plans(*c));
}

fn find_literal(e: &Expr, v: &str) -> (r: Option<(BinOp, Real)>)
    ensures
        r == with_literal(*e, v@),
{
    match e {
        Expr::Binary { op, lhs, rhs } => match (&**lhs, &**rhs) {
            (Expr::Symbol(s), Expr::NumLit(k)) => if same_text(s.as_str(), v) {
                Some((*op, *k))
            } else {
                None
            },
            (Expr::NumLit(k), Expr::Symbol(s)) => {
                let swaps: bool = match op {
                    BinOp::Add => true,
                    BinOp::Mul => true,
                    _ => false,
                };
                if same_text(s.as_str(), v) && swaps {
                    Some((*op, *k))
                } else {
                    None
                }
            },
            _ => None,
        },
        _ => None,
    }
}

/// All specialisations of a closure, the preferred ones first.
pub fn closure_plans(c: &Closure) -> (r: Vec<CompiledFn>)
    requires
        c.body_ir.blocks@.len() + 5 <= usize::MAX,
        c.inner_ir matches Some(f) ==> f.blocks@.len() + 5 <= usize::MAX,
    ensures
        plans_of(r@) == plans(*c),
{
    let mut out: Vec<CompiledFn> = Vec::new();
    assert(plans_of(out@) =~= Seq::empty());
    let n: usize = c.params.len();
    if n > 3 {
        return out;
    }
    let mut i: usize = 0;
    while i < n
        invariant
            i <= n == c.params@.len(),
            plans_of(out@) =~= Seq::<Plan>::empty(),
            forall|j: int| 0 <= j < i ==> !(#[trigger] c.params@[j]).has_default && !c.params@[j].dots,
        decreases n - i,
    {
        if c.params[i].has_default || c.params[i].dots {
            return out;
        }
        i += 1;
    }
    if n == 1 {
        add_reductions(&mut out, c);
        if let Some((op, k)) = find_literal(&c.body, c.params[0].name.as_str()) {
            add_plan(
                &mut out,
                JitCompiler::compile_vector_map_scalar_op(op, k),
                Ghost(op_plan("vector op "@, op, Some(k), 1, JitKind::VectorMap)),
            );
        }
        add_plan(
            &mut out,
            JitCompiler::compile_vector_simd_map_f64x2(&c.body_ir),
            Ghost(simd_plan(c.body_ir)),
        );
        add_plan(
            &mut out,
            JitCompiler::compile_vector_map_generic(&c.body_ir),
            Ghost(
                rows_plan(
                    c.body_ir,
                    1,
                    "generic vector map expects 1 param"@,
                    JitKind::VectorMap,
                ),
            ),
        );
    }
    if n == 2 {
        if let Expr::Binary { op, lhs, rhs } = &c.body {
            if symbol_is(&**lhs, c.params[0].name.as_str()) && symbol_is(
                &**rhs,
                c.params[1].name.as_str(),
            ) {
                add_plan(
                    &mut out,
                    JitCompiler::compile_vector_binary_op(*op),
                    Ghost(op_plan("vec-vec op "@, *op, None, 2, JitKind::VectorBinaryMap)),
                );
            }
        }
        add_plan(
            &mut out,
            JitCompiler::compile_vector_binary_map_generic(&c.body_ir),
            Ghost(
                rows_plan(
                    c.body_ir,
                    2,
                    "vector binary map expects 2 params"@,
                    JitKind::VectorBinaryMap,
                ),
            ),
        );
    }
    if n == 3 {
        add_plan(
            &mut out,
            JitCompiler::compile_vector_ternary_map_generic(&c.body_ir),
            Ghost(
                rows_plan(
                    c.body_ir,
                    3,
                    "vector ternary map expects 3 params"@,
                    JitKind::VectorTernaryMap,
                ),
            ),
        );
    }
    add_plan(&mut out, JitCompiler::compile(&c.body_ir), Ghost(scalar_plan(c.body_ir)));
    assert(plans_of(out@) =~= plans(*c));
    out
}

/// The preferred specialisation of a closure; none where the machine is not
/// `supported`.
pub fn try_compile_closure(c: &Closure, supported: bool) -> (r: Option<CompiledFn>)
    requires
        c.body_ir.blocks@.len() + 5 <= usize::MAX,
        c.inner_ir matches Some(f) ==> f.blocks@.len() + 5 <= usize::MAX,
    ensures
        match r {
            Some(p) => supported && plans(*c).len() > 0 && p.deep() == plans(*c)[0],
            None => !supported || plans(*c).len() == 0,
        },
{
    if !supported {
        return None;
    }
    let mut all = closure_plans(c);
    if all.len() == 0 {
        None
    } else {
        let ghost before = all@;
        assert(plans_of(before)[0] == before[0].deep());
        Some(all.remove(0))
    }
}

// ── Captured numbers ─────────────────────────────────────────────────

/// The number in a vector of length one that is not missing.
pub open spec fn lone_number(v: Val) -> Option<Real> {
    match v {
        Val::Numeric(s, _) => if s.len() == 1 {
            s[0]
        } else {
            None
        },
        Val::Integer(s, _) => if s.len() == 1 {
            match s[0] {
                Some(n) => Some(crate::double::i32_real(n)),
                None => None,
            }
        } else {
            None
        },
        Val::Logical(s, _) => if s.len() == 1 {
            match s[0] {
                Some(b) => Some(bool_real(b)),
                None => None,
            }
        } else {
            None
        },
        _ => None,
    }
}

/// The number that a captured value can be baked in as.
pub fn scalar_f64_of(v: &RVal) -> (r: Option<Real>)
    ensures
        r == lone_number(v.deep()),
{
    proof {
        reveal_with_fuel(RVal::deep, 2);
    }
    match v {
        RVal::Numeric(s, _) => if s.len() == 1 {
            s[0]
        } else {
            None
        },
        RVal::Integer(s, _) => if s.len() == 1 {
            match s[0] {
                Some(n) => Some(Real::from_i32(n)),
                None => None,
            }
        } else {
            None
        },
        RVal::Logical(s, _) => if s.len() == 1 {
            match s[0] {
                Some(b) => Some(
                    if b {
                        Real { bits: crate::double::ONE_BITS }
                    } else {
                        Real { bits: 0 }
                    },
                ),
                None => None,
            }
        } else {
            None
        },
        _ => None,
    }
}

/// The captured values that are baked in: those that are numbers.
pub open spec fn baked(found: Seq<(String, RVal)>) -> Seq<(Seq<char>, Real)>
    decreases found.len(),
{
    if found.len() == 0 {
        Seq::empty()
    } else {
        let b = baked(found.drop_last());
        match lone_number(found.last().1.deep()) {
            Some(x) => b.push((found.last().0@, x)),
            None => b,
        }
    }
}

/// The numbers to put in place of captured variables, given the variables that
/// are free in the body and bound where the closure was made.
pub fn captured_numbers(found: &Vec<(String, RVal)>) -> (r: Vec<(String, Real)>)
    ensures
        r@.map_values(|p: (String, Real)| (p.0@, p.1)) == baked(found@),
{
    let mut out: Vec<(String, Real)> = Vec::new();
    let mut i: usize = 0;
    assert(found@.take(0) =~= Seq::<(String, RVal)>::empty());
    assert(out@.map_values(|p: (String, Real)| (p.0@, p.1)) =~= Seq::<(Seq<char>, Real)>::empty());
    while i < found.len()
        invariant
            i <= found.len(),
            out@.map_values(|p: (String, Real)| (p.0@, p.1)) == baked(found@.take(i as int)),
        decreases found.len() - i,
    {
        assert(found@.take(i + 1).drop_last() =~= found@.take(i as int));
        if let Some(x) = scalar_f64_of(&found[i].1) {
            let ghost before = out@.map_values(|p: (String, Real)| (p.0@, p.1));
            let name: String = owned(found[i].0.as_str());
            out.push((name, x));
            assert(out@.map_values(|p: (String, Real)| (p.0@, p.1)) =~= before.push((name@, x)));
        }
        i += 1;
    }
    assert(found@.take(found@.len() as int) =~= found@);
    out
}

} // verus!
