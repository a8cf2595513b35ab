use ardon_r2::double::{FloatOp, Fpu, Real};
use ardon_r2::jit::{
    Body, Closure, CompiledFn, Expr, JitCompiler, JitKind, Param, captured_numbers, closure_plans, reduce_vector, scalar_f64_of, try_compile_closure,
};
use ardon_r2::jit_code::{Code, Inst, Name, Op, Term};
use ardon_r2::jit_emit::{find_block, find_math_extern};
use ardon_r2::jit_ir::{
    BinOp, BlockId, Fun, IrBlock, IrConst, IrElem, IrFunc, IrInst, IrParam, IrTerm, Rel, UnOp, VReg,
};
use ardon_r2::jit_lower::{FusedReduceOp, JitError};
use ardon_r2::jit_simd::body_is_simd_clean;
use ardon_r2::value::{Attrs, RVal};
use std::collections::HashMap;

fn dbl(x: f64) -> Real {
    Real { bits: x.to_bits() }
}

fn float(x: Real) -> f64 {
    f64::from_bits(x.bits)
}

fn num(n: f64) -> Expr {
    Expr::NumLit(dbl(n))
}

fn sym(s: &str) -> Expr {
    Expr::Symbol(s.to_string())
}

fn bin(op: BinOp, l: Expr, r: Expr) -> Expr {
    Expr::Binary { op, lhs: Box::new(l), rhs: Box::new(r) }
}

fn plus(l: Expr, r: Expr) -> Expr {
    bin(BinOp::Add, l, r)
}

fn mul(l: Expr, r: Expr) -> Expr {
    bin(BinOp::Mul, l, r)
}

fn lt(l: Expr, r: Expr) -> Expr {
    bin(BinOp::Lt, l, r)
}

fn call(fname: &str, args: Vec<Expr>) -> Expr {
    Expr::Call { func: Box::new(sym(fname)), args }
}

// ── Expressions to the intermediate form ─────────────────────────────

struct Lowering {
    params: Vec<String>,
    regs: u32,
    blocks: Vec<IrBlock>,
    insts: Vec<IrInst>,
    current: u32,
}

impl Lowering {
    fn fresh(&mut self) -> VReg {
        self.regs += 1;
        VReg { n: self.regs - 1 }
    }

    fn close(&mut self, term: IrTerm, next: u32) {
        let insts = std::mem::take(&mut self.insts);
        self.blocks.push(IrBlock { id: BlockId { n: self.current }, insts, term });
        self.current = next;
    }

    fn expr(&mut self, e: &Expr) -> VReg {
        match e {
            Expr::NumLit(x) => {
                let dst = self.fresh();
                self.insts.push(IrInst::Const { dst, value: IrConst::Real(*x) });
                dst
            }
            Expr::Symbol(s) => match self.params.iter().position(|p| p == s) {
                Some(i) => VReg { n: i as u32 },
                None => {
                    let dst = self.fresh();
                    self.insts.push(IrInst::Intrinsic { dst, name: s.clone() });
                    dst
                }
            },
            Expr::Binary { op, lhs, rhs } => {
                let l = self.expr(lhs);
                let r = self.expr(rhs);
                let dst = self.fresh();
                self.insts.push(IrInst::Binary { dst, op: *op, lhs: l, rhs: r });
                dst
            }
            Expr::Unary { op, expr } => {
                let src = self.expr(expr);
                let dst = self.fresh();
                self.insts.push(IrInst::Unary { dst, op: *op, src });
                dst
            }
            Expr::Call { func, args } => {
                let args: Vec<VReg> = args.iter().map(|a| self.expr(a)).collect();
                let name = match &**func {
                    Expr::Symbol(s) => s.clone(),
                    _ => panic!("not a name"),
                };
                let dst = self.fresh();
                self.insts.push(IrInst::Call { dst, name, args });
                dst
            }
            Expr::If { cond, yes, no } => {
                let c = self.expr(cond);
                let base = self.blocks.len() as u32 * 3 + 1;
                let (y, n, end) = (base + 100, base + 200, base + 300);
                self.close(IrTerm::Branch { cond: c, yes: BlockId { n: y }, no: BlockId { n: n } }, y);
                let a = self.expr(yes);
                let from_yes = self.current;
                self.close(IrTerm::Jump(BlockId { n: end }), n);
                let b = match no {
                    Some(e) => self.expr(e),
                    None => panic!("no alternative"),
                };
                let from_no = self.current;
                self.close(IrTerm::Jump(BlockId { n: end }), end);
                let dst = self.fresh();
                self.insts.push(IrInst::Phi {
                    dst,
                    sources: vec![(BlockId { n: from_yes }, a), (BlockId { n: from_no }, b)],
                });
                dst
            }
        }
    }
}

fn lower_function(name: &str, params: &[&str], body: &Expr) -> IrFunc {
    let mut l = Lowering {
        params: params.iter().map(|p| p.to_string()).collect(),
        regs: params.len() as u32,
        blocks: Vec::new(),
        insts: Vec::new(),
        current: 0,
    };
    let v = l.expr(body);
    l.close(IrTerm::Return(Some(v)), 0);
    IrFunc {
        name: name.to_string(),
        params: params
            .iter()
            .enumerate()
            .map(|(i, p)| IrParam { name: p.to_string(), elem: IrElem::Real, reg: VReg { n: i as u32 } })
            .collect(),
        return_elem: IrElem::Real,
        blocks: l.blocks,
        entry: BlockId { n: 0 },
    }
}

fn closure(params: &[&str], dots: bool, body: Expr) -> Closure {
    let body_ir = lower_function("f", params, &body);
    let inner_ir = match &body {
        Expr::Call { args, .. } if args.len() == 1 => Some(lower_function("g", params, &args[0])),
        _ => None,
    };
    Closure {
        params: params.iter().map(|p| Param { name: p.to_string(), has_default: false, dots }).collect(),
        body,
        body_ir,
        inner_ir,
    }
}

// ── Running code ─────────────────────────────────────────────────────

#[derive(Clone, Copy)]
enum Item {
    Int(i64),
    One(f64),
    Two(f64, f64),
}

fn fun1(f: Fun, x: f64) -> f64 {
    match f {
        Fun::Sqrt => x.sqrt(),
        Fun::Floor => x.floor(),
        Fun::Ceil => x.ceil(),
        Fun::Trunc => x.trunc(),
        Fun::Nearest => x.round_ties_even(),
        Fun::Table(1) => x.abs(),
        Fun::Table(2) => x.exp(),
        Fun::Table(3) => x.ln(),
        Fun::Table(6) => x.sin(),
        Fun::Table(7) => x.cos(),
        _ => panic!("{:?}", f),
    }
}

fn fun2(f: Fun, x: f64, y: f64) -> f64 {
    match f {
        Fun::Add => x + y,
        Fun::Sub => x - y,
        Fun::Mul => x * y,
        Fun::Div => x / y,
        Fun::Min => x.min(y),
        Fun::Max => x.max(y),
        Fun::Table(20) => x.powf(y),
        Fun::Table(21) => x.atan2(y),
        _ => panic!("{:?}", f),
    }
}

fn holds(c: Rel, x: f64, y: f64) -> f64 {
    let b = match c {
        Rel::Lt => x < y,
        Rel::Gt => x > y,
        Rel::Le => x <= y,
        Rel::Ge => x >= y,
        Rel::Eq => x == y,
        Rel::Ne => x != y,
    };
    if b { 1.0 } else { 0.0 }
}

fn int_of(x: Item) -> i64 {
    match x {
        Item::Int(n) => n,
        _ => panic!("no integer"),
    }
}

fn one_of(x: Item) -> f64 {
    match x {
        Item::One(v) => v,
        _ => panic!("no number"),
    }
}

fn lanes(x: Item, f: &dyn Fn(f64) -> f64) -> Item {
    match x {
        Item::One(a) => Item::One(f(a)),
        Item::Two(a, b) => Item::Two(f(a), f(b)),
        Item::Int(_) => panic!("no number"),
    }
}

fn lanes2(x: Item, y: Item, f: &dyn Fn(f64, f64) -> f64) -> Item {
    match (x, y) {
        (Item::One(a), Item::One(b)) => Item::One(f(a, b)),
        (Item::Two(a, c), Item::Two(b, d)) => Item::Two(f(a, b), f(c, d)),
        _ => panic!("lanes differ"),
    }
}

fn op_value(op: &Op, env: &HashMap<Name, Item>, ins: &[&Vec<f64>]) -> Item {
    match op {
        Op::Int(n) => Item::Int(*n),
        Op::Step(a, k) => Item::Int(int_of(env[a]) + k),
        Op::Even(a) => Item::Int(int_of(env[a]) & !1),
        Op::Real(x) => Item::One(float(*x)),
        Op::FromInt(n) => Item::One(*n as f64),
        Op::Neg(a) => lanes(env[a], &|x| -x),
        Op::Abs(a) => lanes(env[a], &|x| x.abs()),
        Op::Copy(a) => env[a],
        Op::IsZero(a) => lanes(env[a], &|x| if x == 0.0 { 1.0 } else { 0.0 }),
        Op::Compare(c, a, b) => lanes2(env[a], env[b], &|x, y| holds(*c, x, y)),
        Op::Fun1(f, a) => lanes(env[a], &|x| fun1(*f, x)),
        Op::Fun2(f, a, b) => lanes2(env[a], env[b], &|x, y| fun2(*f, x, y)),
        Op::Load(k, i) => Item::One(ins[*k][int_of(env[i]) as usize]),
        Op::LoadPair(k, i) => {
            let n = int_of(env[i]) as usize;
            Item::Two(ins[*k][n], ins[*k][n + 1])
        }
        Op::Both(x) => Item::Two(float(*x), float(*x)),
        Op::BothInt(n) => Item::Two(*n as f64, *n as f64),
    }
}

fn run(code: &Code, env: HashMap<Name, Item>, ins: &[&Vec<f64>], out: &mut Vec<f64>) -> Option<f64> {
    let mut env = env;
    let mut at = 0;
    loop {
        let b = &code.blocks[at];
        for inst in &b.insts {
            match inst {
                Inst::Def(d, op) => {
                    let v = op_value(op, &env, ins);
                    env.insert(*d, v);
                }
                Inst::Store(i, v) => out[int_of(env[i]) as usize] = one_of(env[v]),
                Inst::StorePair(i, v) => match env[v] {
                    Item::Two(x, y) => {
                        let n = int_of(env[i]) as usize;
                        out[n] = x;
                        out[n + 1] = y;
                    }
                    _ => panic!("no pair"),
                },
            }
        }
        let (next, args) = match &b.term {
            Term::Jump(n, args) => (*n, args),
            Term::IfNonzero(c, y, ya, n, na) => {
                if one_of(env[c]) != 0.0 {
                    (*y, ya)
                } else {
                    (*n, na)
                }
            }
            Term::IfLess(p, q, y, ya, n, na) => {
                if int_of(env[p]) < int_of(env[q]) {
                    (*y, ya)
                } else {
                    (*n, na)
                }
            }
            Term::Return(v) => return v.map(|n| one_of(env[&n])),
            Term::Trap => panic!("trap"),
        };
        let values: Vec<Item> = args.iter().map(|a| env[a]).collect();
        for ((name, _), v) in code.blocks[next].params.iter().zip(values) {
            env.insert(*name, v);
        }
        at = next;
    }
}

fn call_scalar(c: &CompiledFn, args: &[f64]) -> Option<f64> {
    if !c.takes_scalars(args.len()) {
        return None;
    }
    match &c.body {
        Body::Code(code) => {
            let env = args.iter().enumerate().map(|(i, x)| (Name::Reg(i as u32), Item::One(*x))).collect();
            run(code, env, &[], &mut Vec::new())
        }
        Body::Reduction(_) => None,
    }
}

fn arith(op: FloatOp, a: Real, b: Real, _: Real) -> Real {
    let (x, y) = (f64::from_bits(a.bits), f64::from_bits(b.bits));
    let r = match op {
        FloatOp::Plus => x + y,
        FloatOp::Times => x * y,
        FloatOp::Over => x / y,
        _ => panic!(),
    };
    Real { bits: r.to_bits() }
}

fn call_reduction(c: &CompiledFn, data: &Vec<f64>) -> Option<f64> {
    if c.kind != JitKind::Vector1ToScalar {
        return None;
    }
    match &c.body {
        Body::Code(code) => {
            let env = HashMap::from([(Name::Len, Item::Int(data.len() as i64))]);
            run(code, env, &[data], &mut Vec::new())
        }
        Body::Reduction(r) => {
            let x: Vec<Real> = data.iter().map(|x| Real { bits: x.to_bits() }).collect();
            Some(f64::from_bits(reduce_vector(&Fpu { eval: arith }, *r, &x).bits))
        }
    }
}

fn call_map(c: &CompiledFn, ins: &[&Vec<f64>], out: &mut Vec<f64>) -> bool {
    let arity = match c.kind {
        JitKind::VectorMap => 1,
        JitKind::VectorBinaryMap => 2,
        JitKind::VectorTernaryMap => 3,
        _ => 0,
    };
    if arity != ins.len() {
        return false;
    }
    match &c.body {
        Body::Code(code) => {
            let env = HashMap::from([(Name::Len, Item::Int(out.len() as i64))]);
            run(code, env, ins, out);
            true
        }
        Body::Reduction(_) => false,
    }
}

fn call_jit_single(handle: &CompiledFn, x: f64) -> f64 {
    match handle.kind {
        JitKind::Scalar => call_scalar(handle, &[x]).expect("scalar call"),
        JitKind::VectorMap => {
            let input = vec![x];
            let mut out = vec![0.0_f64; 1];
            assert!(call_map(handle, &[&input], &mut out), "vec_map call");
            out[0]
        }
        other => panic!("unexpected JIT kind: {:?}", other),
    }
}

#[test]
fn jit_const_returns_real() {
    let f = lower_function("k", &[], &num(42.0));
    let c = JitCompiler::compile(&f).expect("compile ok");
    assert_eq!(call_scalar(&c, &[]), Some(42.0));
}

#[test]
fn jit_one_param_identity() {
    let body = sym("x");
    let f = lower_function("ident", &["x"], &body);
    let c = JitCompiler::compile(&f).expect("compile ok");
    assert_eq!(call_scalar(&c, &[7.0]), Some(7.0));
    assert_eq!(call_scalar(&c, &[-3.5]), Some(-3.5));
}

#[test]
fn jit_two_param_add() {
    let body = plus(sym("x"), sym("y"));
    let f = lower_function("add", &["x", "y"], &body);
    let c = JitCompiler::compile(&f).expect("compile ok");
    assert_eq!(call_scalar(&c, &[1.5, 2.5]), Some(4.0));
}

#[test]
fn jit_polynomial() {
    let body = plus(plus(mul(sym("x"), sym("x")), mul(num(2.0), sym("x"))), num(1.0));
    let f = lower_function("poly", &["x"], &body);
    let c = JitCompiler::compile(&f).expect("compile ok");
    assert_eq!(call_scalar(&c, &[3.0]), Some(16.0));
}

#[test]
fn jit_if_else_with_phi() {
    let body = Expr::If {
        cond: Box::new(lt(sym("x"), num(0.0))),
        yes: Box::new(Expr::Unary { op: UnOp::Neg, expr: Box::new(sym("x")) }),
        no: Some(Box::new(sym("x"))),
    };
    let f = lower_function("absval", &["x"], &body);
    let c = JitCompiler::compile(&f).expect("compile ok");
    assert_eq!(call_scalar(&c, &[-3.0]), Some(3.0));
    assert_eq!(call_scalar(&c, &[5.0]), Some(5.0));
    assert_eq!(call_scalar(&c, &[0.0]), Some(0.0));
}

#[test]
fn jit_comparison_returns_one_or_zero() {
    let body = Expr::Binary { op: BinOp::Gt, lhs: Box::new(sym("x")), rhs: Box::new(num(0.0)) };
    let f = lower_function("ispos", &["x"], &body);
    let c = JitCompiler::compile(&f).expect("compile ok");
    assert_eq!(call_scalar(&c, &[1.0]), Some(1.0));
    assert_eq!(call_scalar(&c, &[-1.0]), Some(0.0));
}

#[test]
fn try_compile_closure_round_trip() {
    let body = Expr::Binary {
        op: BinOp::Add,
        lhs: Box::new(Expr::Binary {
            op: BinOp::Mul,
            lhs: Box::new(sym("x")),
            rhs: Box::new(sym("x")),
        }),
        rhs: Box::new(sym("y")),
    };

    let cl = closure(&["x", "y"], false, body);

    let handle = try_compile_closure(&cl, true).expect("Closure should compile");
    assert_eq!(handle.arity, 2);
    match handle.kind {
        JitKind::Scalar => {
            assert_eq!(call_scalar(&handle, &[3.0, 5.0]), Some(14.0));
            assert_eq!(call_scalar(&handle, &[1.0]), None);
        }
        JitKind::VectorBinaryMap => {
            let a = vec![3.0_f64]; let b = vec![5.0_f64];
            let mut out = vec![0.0_f64; 1];
            let ok = call_map(&handle, &[&a, &b], &mut out);
            assert!(ok);
            assert!((out[0] - 14.0).abs() < 1e-12);
        }
        other => panic!("unexpected kind: {:?}", other),
    }
}

#[test]
fn try_compile_closure_vector_sum() {
    let body = Expr::Call {
        func: Box::new(sym("sum")),
        args: vec![sym("v")],
    };
    let cl = closure(&["v"], false, body);
    let handle = try_compile_closure(&cl, true).expect("should compile sum");
    assert_eq!(handle.kind, JitKind::Vector1ToScalar);

    let data: Vec<f64> = vec![1.0, 2.0, 3.0, 4.0, 5.0];
    let result = call_reduction(&handle, &data);
    assert_eq!(result, Some(15.0));
}

#[test]
fn try_compile_closure_vector_mean() {
    let body = Expr::Call {
        func: Box::new(sym("mean")),
        args: vec![sym("xs")],
    };
    let cl = closure(&["xs"], false, body);
    let handle = try_compile_closure(&cl, true).expect("should compile mean");
    let data: Vec<f64> = vec![2.0, 4.0, 6.0, 8.0];
    let result = call_reduction(&handle, &data);
    assert_eq!(result, Some(5.0));
}

#[test]
fn try_compile_closure_vector_map_add() {
    let body = Expr::Binary {
        op: BinOp::Add,
        lhs: Box::new(sym("v")),
        rhs: Box::new(num(1.0)),
    };
    let cl = closure(&["v"], false, body);
    let handle = try_compile_closure(&cl, true).expect("should compile");
    assert_eq!(handle.kind, JitKind::VectorMap);

    let input: Vec<f64> = vec![1.0, 2.0, 3.0, 4.0];
    let mut output: Vec<f64> = vec![0.0; 4];
    let ok = call_map(&handle, &[&input], &mut output);
    assert!(ok);
    assert_eq!(output, vec![2.0, 3.0, 4.0, 5.0]);
}

#[test]
fn try_compile_closure_vector_map_mul() {
    let body = Expr::Binary {
        op: BinOp::Mul,
        lhs: Box::new(num(2.0)),
        rhs: Box::new(sym("v")),
    };
    let cl = closure(&["v"], false, body);
    let handle = try_compile_closure(&cl, true).expect("should compile");
    let input: Vec<f64> = vec![1.5, 2.5, 3.5];
    let mut output: Vec<f64> = vec![0.0; 3];
    let ok = call_map(&handle, &[&input], &mut output);
    assert!(ok);
    assert_eq!(output, vec![3.0, 5.0, 7.0]);
}

#[test]
fn try_compile_closure_vector_binary_add() {
    let body = Expr::Binary {
        op: BinOp::Add,
        lhs: Box::new(sym("a")),
        rhs: Box::new(sym("b")),
    };
    let cl = closure(&["a", "b"], false, body);
    let handle = try_compile_closure(&cl, true).expect("should compile");
    assert_eq!(handle.kind, JitKind::VectorBinaryMap);

    let a: Vec<f64> = vec![1.0, 2.0, 3.0];
    let b: Vec<f64> = vec![10.0, 20.0, 30.0];
    let mut out: Vec<f64> = vec![0.0; 3];
    let ok = call_map(&handle, &[&a, &b], &mut out);
    assert!(ok);
    assert_eq!(out, vec![11.0, 22.0, 33.0]);
}

#[test]
fn try_compile_closure_vector_binary_div_with_nan() {
    let body = Expr::Binary {
        op: BinOp::Div,
        lhs: Box::new(sym("a")),
        rhs: Box::new(sym("b")),
    };
    let cl = closure(&["a", "b"], false, body);
    let handle = try_compile_closure(&cl, true).expect("should compile");

    let a: Vec<f64> = vec![10.0, f64::NAN, 9.0];
    let b: Vec<f64> = vec![ 2.0,    3.0,   3.0];
    let mut out: Vec<f64> = vec![0.0; 3];
    let ok = call_map(&handle, &[&a, &b], &mut out);
    assert!(ok);
    assert_eq!(out[0], 5.0);
    assert!(out[1].is_nan(), "NA in input should propagate through arithmetic");
    assert_eq!(out[2], 3.0);
}

#[test]
fn try_compile_closure_composed_vector_map() {
    let body = Expr::Binary {
        op: BinOp::Mul,
        lhs: Box::new(Expr::Binary {
            op: BinOp::Add,
            lhs: Box::new(sym("v")),
            rhs: Box::new(num(1.0)),
        }),
        rhs: Box::new(num(2.0)),
    };
    let cl = closure(&["v"], false, body);
    let handle = try_compile_closure(&cl, true).expect("should compile (v+1)*2");
    assert_eq!(handle.kind, JitKind::VectorMap);
    let input: Vec<f64> = vec![1.0, 2.0, 3.0];
    let mut output: Vec<f64> = vec![0.0; 3];
    let ok = call_map(&handle, &[&input], &mut output);
    assert!(ok);
    assert_eq!(output, vec![4.0, 6.0, 8.0]);
}

#[test]
fn try_compile_closure_squaring_vector_map() {
    let body = Expr::Binary {
        op: BinOp::Sub,
        lhs: Box::new(Expr::Binary {
            op: BinOp::Mul,
            lhs: Box::new(sym("v")),
            rhs: Box::new(sym("v")),
        }),
        rhs: Box::new(num(1.0)),
    };
    let cl = closure(&["v"], false, body);
    let handle = try_compile_closure(&cl, true).expect("should compile v*v - 1");
    let input: Vec<f64> = vec![0.0, 1.0, 2.0, 3.0];
    let mut output: Vec<f64> = vec![0.0; 4];
    let ok = call_map(&handle, &[&input], &mut output);
    assert!(ok);
    assert_eq!(output, vec![-1.0, 0.0, 3.0, 8.0]);
}

#[test]
fn try_compile_closure_branchy_vector_map_abs() {
    let body = Expr::If {
        cond: Box::new(Expr::Binary {
            op: BinOp::Gt,
            lhs: Box::new(sym("x")),
            rhs: Box::new(num(0.0)),
        }),
        yes: Box::new(sym("x")),
        no: Some(Box::new(Expr::Unary { op: UnOp::Neg, expr: Box::new(sym("x")) })),
    };
    let cl = closure(&["x"], false, body);
    let handle = try_compile_closure(&cl, true).expect("should compile branchy unary map");
    assert_eq!(handle.kind, JitKind::VectorMap);

    let input: Vec<f64> = vec![-3.0, -1.0, 0.0, 2.0, -5.5];
    let mut out: Vec<f64> = vec![0.0; input.len()];
    let ok = call_map(&handle, &[&input], &mut out);
    assert!(ok);
    let expected = vec![3.0, 1.0, 0.0, 2.0, 5.5];
    for (got, exp) in out.iter().zip(expected.iter()) {
        assert!((got.abs() - exp).abs() < 1e-12, "got {} expected {}", got, exp);
    }
}

#[test]
fn try_compile_closure_ternary_ifelse() {
    let body = Expr::If {
        cond: Box::new(Expr::Binary {
            op: BinOp::Gt,
            lhs: Box::new(sym("c")),
            rhs: Box::new(num(0.0)),
        }),
        yes: Box::new(sym("a")),
        no: Some(Box::new(sym("b"))),
    };
    let cl = closure(&["c", "a", "b"], false, body);
    let handle = try_compile_closure(&cl, true).expect("should compile ternary ifelse");
    assert_eq!(handle.kind, JitKind::VectorTernaryMap);
    assert_eq!(handle.arity, 3);

    let c: Vec<f64> = vec![1.0, -1.0, 2.0, 0.0, -0.5];
    let a: Vec<f64> = vec![10.0, 20.0, 30.0, 40.0, 50.0];
    let b: Vec<f64> = vec![-10.0, -20.0, -30.0, -40.0, -50.0];
    let mut out: Vec<f64> = vec![0.0; c.len()];
    let ok = call_map(&handle, &[&c, &a, &b], &mut out);
    assert!(ok);
    assert_eq!(out, vec![10.0, -20.0, 30.0, -40.0, -50.0]);
}

#[test]
fn try_compile_closure_rejects_dots() {
    let cl = closure(&["..."], true, num(1.0));
    assert!(try_compile_closure(&cl, true).is_none());
}

#[test]
fn jit_call_to_sqrt() {
    let cl = closure(&["x"], false, call("sqrt", vec![plus(mul(sym("x"), sym("x")), num(1.0))]));
    let handle = try_compile_closure(&cl, true).expect("should compile");
    let r = call_jit_single(&handle, 3.0);
    assert!((r - 10.0_f64.sqrt()).abs() < 1e-12);
    let r = call_jit_single(&handle, 0.0);
    assert!((r - 1.0).abs() < 1e-12);
}

#[test]
fn jit_call_to_exp_log() {
    let cl = closure(&["x"], false, call("log", vec![call("exp", vec![sym("x")])]));
    let handle = try_compile_closure(&cl, true).expect("should compile");
    for x in [0.0, 1.0, 2.5, -3.7, 10.0] {
        let r = call_jit_single(&handle, x);
        assert!((r - x).abs() < 1e-10, "log(exp({})) = {}", x, r);
    }
}

#[test]
fn jit_call_to_abs() {
    let cl = closure(&["x"], false, call("abs", vec![sym("x")]));
    let handle = try_compile_closure(&cl, true).expect("should compile");
    assert!((call_jit_single(&handle, -5.0) - 5.0).abs() < 1e-12);
    assert!((call_jit_single(&handle,  5.0) - 5.0).abs() < 1e-12);
    assert!((call_jit_single(&handle,  0.0) - 0.0).abs() < 1e-12);
}

#[test]
fn vector_jit_call_to_sqrt() {
    let cl = closure(&["x"], false, call("sqrt", vec![sym("x")]));
    let handle = try_compile_closure(&cl, true).expect("should compile");
    match handle.kind {
        JitKind::Scalar => {
            let r = call_scalar(&handle, &[4.0]).expect("scalar ok");
            assert!((r - 2.0).abs() < 1e-12);
        }
        JitKind::VectorMap => {
            let input: Vec<f64> = vec![1.0, 4.0, 9.0, 16.0];
            let mut out = vec![0.0_f64; 4];
            let ok = call_map(&handle, &[&input], &mut out);
            assert!(ok);
            for (got, exp) in out.iter().zip([1.0, 2.0, 3.0, 4.0].iter()) {
                assert!((got - exp).abs() < 1e-12);
            }
        }
        other => panic!("unexpected kind: {:?}", other),
    }
}

#[test]
fn simd_jit_produces_correct_results_for_sqrt_xx_plus_1() {
    let cl = closure(&["x"], false, call("sqrt", vec![plus(mul(sym("x"), sym("x")), num(1.0))]));
    let handle = try_compile_closure(&cl, true).expect("should compile");
    assert_eq!(handle.kind, JitKind::VectorMap);
    let input: Vec<f64> = (1..=7).map(|i| i as f64).collect();
    let mut out = vec![0.0_f64; input.len()];
    let ok = call_map(&handle, &[&input], &mut out);
    assert!(ok);
    let expected: Vec<f64> = input.iter().map(|x| (x*x + 1.0).sqrt()).collect();
    for (got, exp) in out.iter().zip(expected.iter()) {
        assert!((got - exp).abs() < 1e-12, "SIMD mismatch: {} vs {}", got, exp);
    }
}

#[test]
fn simd_jit_correctly_falls_back_for_fcalls() {
    let cl = closure(&["x"], false, call("sin", vec![sym("x")]));
    let handle = try_compile_closure(&cl, true).expect("should compile (via fallback)");
    assert!(matches!(handle.kind,
        JitKind::VectorMap | JitKind::Scalar));
}

#[test]
fn jit_2arg_with_math_call_compiles() {
    let body = call("sqrt", vec![
        plus(mul(sym("x"), sym("x")), mul(sym("y"), sym("y")))
    ]);
    let cl = closure(&["x", "y"], false, body);
    let handle = try_compile_closure(&cl, true).expect("should compile");
    assert_eq!(handle.kind, JitKind::VectorBinaryMap);
    assert_eq!(handle.arity, 2);
    let a = vec![3.0_f64, 5.0, 8.0];
    let b = vec![4.0_f64, 12.0, 15.0];
    let mut out = vec![0.0_f64; 3];
    let ok = call_map(&handle, &[&a, &b], &mut out);
    assert!(ok);
    for (got, exp) in out.iter().zip([5.0, 13.0, 17.0].iter()) {
        assert!((got - exp).abs() < 1e-12, "{} vs {}", got, exp);
    }
}

#[test]
fn unsupported_call_falls_through() {
    let cl = closure(&["x"], false, call("length", vec![sym("x")]));
    let _ = try_compile_closure(&cl, true);
}

#[test]
fn closure_capture_scalar_baked_in() {
    let scale = RVal::Numeric(vec![Some(dbl(2.5))], Attrs { names: None });
    let subs = captured_numbers(&vec![("scale".to_string(), scale)]);
    let body = mul(sym("x"), Expr::NumLit(subs[0].1));
    let cl = closure(&["x"], false, body);
    let handle = try_compile_closure(&cl, true).expect("should compile via capture inference");
    match handle.kind {
        JitKind::Scalar => {
            let r = call_scalar(&handle, &[4.0]).expect("scalar call");
            assert!((r - 10.0).abs() < 1e-12);
        }
        JitKind::VectorMap => {
            let input = vec![1.0_f64, 2.0, 3.0];
            let mut out = vec![0.0_f64; 3];
            let ok = call_map(&handle, &[&input], &mut out);
            assert!(ok);
            assert!((out[0] - 2.5).abs() < 1e-12);
            assert!((out[1] - 5.0).abs() < 1e-12);
            assert!((out[2] - 7.5).abs() < 1e-12);
        }
        other => panic!("unexpected kind: {:?}", other),
    }
}

#[test]
fn closure_with_unbound_free_var_still_falls_through_gracefully() {
    let cl = closure(&["x"], false, Expr::Binary {
            op: BinOp::Add,
            lhs: Box::new(sym("x")),
            rhs: Box::new(sym("undefined_thing")),
        });
    let _ = try_compile_closure(&cl, true);
}

#[test]
fn jit_fused_map_reduce_sum_of_squares() {
    let body = Expr::Call {
        func: Box::new(sym("sum")),
        args: vec![Expr::Binary { op: BinOp::Mul, lhs: Box::new(sym("v")), rhs: Box::new(sym("v")) }],
    };
    let cl = closure(&["v"], false, body);
    let handle = try_compile_closure(&cl, true).expect("should compile fused");
    assert_eq!(handle.kind, JitKind::Vector1ToScalar);
    let input: Vec<f64> = vec![1.0, 2.0, 3.0, 4.0, 5.0];
    let r = call_reduction(&handle, &input);
    assert_eq!(r, Some(55.0));
}

#[test]
fn jit_fused_map_reduce_sum_of_sqrt_plus_one() {
    let body = call("sum", vec![call("sqrt", vec![plus(mul(sym("v"), sym("v")), num(1.0))])]);
    let cl = closure(&["v"], false, body);
    let handle = try_compile_closure(&cl, true).expect("should compile fused");
    assert_eq!(handle.kind, JitKind::Vector1ToScalar);
    let input: Vec<f64> = vec![3.0, 4.0];
    let r = call_reduction(&handle, &input);
    let expected = 10.0_f64.sqrt() + 17.0_f64.sqrt();
    assert!((r.unwrap() - expected).abs() < 1e-12, "got {:?} expected {}", r, expected);
}

#[test]
fn jit_fused_map_reduce_prod_identity() {
    let body = Expr::Call {
        func: Box::new(sym("prod")),
        args: vec![sym("v")],
    };
    let cl = closure(&["v"], false, body);
    let handle = try_compile_closure(&cl, true).expect("should compile");
    assert_eq!(handle.kind, JitKind::Vector1ToScalar);
    let input: Vec<f64> = vec![2.0, 3.0, 5.0];
    let r = call_reduction(&handle, &input);
    assert_eq!(r, Some(30.0));
}

#[test]
fn nothing_compiles_on_other_machines() {
    let cl = closure(&["x"], false, plus(sym("x"), num(1.0)));
    assert!(try_compile_closure(&cl, false).is_none());
    assert!(try_compile_closure(&cl, true).is_some());
}

#[test]
fn all_specialisations_of_a_closure_agree() {
    let cl = closure(&["x"], false, plus(mul(sym("x"), sym("x")), num(1.0)));
    let plans = closure_plans(&cl);
    assert!(plans.len() >= 3);
    for p in &plans {
        assert_eq!(call_jit_single(p, 3.0), 10.0);
    }
}

#[test]
fn two_rows_at_a_time_match_one() {
    let body = call("sqrt", vec![plus(mul(sym("x"), sym("x")), num(1.0))]);
    let f = lower_function("f", &["x"], &body);
    assert!(body_is_simd_clean(&f));
    let wide = JitCompiler::compile_vector_simd_map_f64x2(&f).unwrap();
    let narrow = JitCompiler::compile_vector_map_generic(&f).unwrap();
    for n in 0..6 {
        let input: Vec<f64> = (0..n).map(|i| i as f64 * 0.75 - 1.0).collect();
        let mut a = vec![0.0; n];
        let mut b = vec![0.0; n];
        assert!(call_map(&wide, &[&input], &mut a));
        assert!(call_map(&narrow, &[&input], &mut b));
        assert_eq!(a, b);
    }
    assert!(!body_is_simd_clean(&lower_function("g", &["x"], &call("sin", vec![sym("x")]))));
}

#[test]
fn reductions_by_name() {
    let data = vec![1.0, 2.0, 4.0];
    for (name, want) in [("sum", 7.0), ("mean", 7.0 / 3.0), ("length", 3.0), ("prod", 8.0)] {
        let c = JitCompiler::compile_vector_reduction(name).unwrap();
        assert_eq!(call_reduction(&c, &data), Some(want));
    }
    for (name, want) in [("sum", 0.0), ("length", 0.0), ("prod", 1.0)] {
        let c = JitCompiler::compile_vector_reduction(name).unwrap();
        assert_eq!(call_reduction(&c, &vec![]), Some(want));
    }
    let c = JitCompiler::compile_vector_reduction("mean").unwrap();
    assert!(call_reduction(&c, &vec![]).unwrap().is_nan());
    assert!(JitCompiler::compile_vector_reduction("median").is_err());
    for name in ["median", "a \"b\"\n", "\u{7f}\\"] {
        match JitCompiler::compile_vector_reduction(name) {
            Err(JitError::Unsupported(m)) => assert_eq!(m, format!("reduction {:?}", name)),
            _ => panic!(),
        }
    }
}

#[test]
fn operations_with_a_constant() {
    let input = vec![1.0, 2.0];
    for (op, want) in [
        (BinOp::Add, vec![3.0, 4.0]),
        (BinOp::Sub, vec![-1.0, 0.0]),
        (BinOp::Mul, vec![2.0, 4.0]),
        (BinOp::Div, vec![0.5, 1.0]),
    ] {
        let c = JitCompiler::compile_vector_map_scalar_op(op, dbl(2.0)).unwrap();
        let mut out = vec![0.0; 2];
        assert!(call_map(&c, &[&input], &mut out));
        assert_eq!(out, want);
        let c = JitCompiler::compile_vector_binary_op(op).unwrap();
        let mut out = vec![0.0; 2];
        assert!(call_map(&c, &[&input, &vec![2.0, 2.0]], &mut out));
        assert_eq!(out, want);
    }
    assert!(matches!(JitCompiler::compile_vector_binary_op(BinOp::And), Err(JitError::Unsupported(_))));
}

#[test]
fn a_fused_loop_folds_every_row() {
    let f = lower_function("f", &["v"], &plus(sym("v"), num(1.0)));
    let input = vec![1.0, 2.0, 3.0];
    let c = JitCompiler::compile_vector_map_reduce(&f, FusedReduceOp::Sum).unwrap();
    assert_eq!(call_reduction(&c, &input), Some(9.0));
    let c = JitCompiler::compile_vector_map_reduce(&f, FusedReduceOp::Prod).unwrap();
    assert_eq!(call_reduction(&c, &input), Some(24.0));
    assert_eq!(call_reduction(&c, &Vec::new()), Some(1.0));
}

#[test]
fn faults_of_the_intermediate_form() {
    let mut f = lower_function("f", &["x"], &sym("x"));
    f.blocks[0].term = IrTerm::Return(Some(VReg { n: 9 }));
    let e = JitCompiler::compile(&f).unwrap_err();
    assert_eq!(e.message(), "JIT: undefined VReg v9");
    let mut f = lower_function("f", &["x"], &sym("x"));
    f.blocks[0].term = IrTerm::Jump(BlockId { n: 7 });
    let e = JitCompiler::compile(&f).unwrap_err();
    assert_eq!(e.message(), "JIT: undefined block bb7");
    let f = lower_function("f", &["x"], &call("mystery", vec![sym("x")]));
    assert!(JitCompiler::compile(&f).unwrap_err().message().starts_with("JIT: unsupported in current phase: "));
    assert_eq!(JitError::CraneliftError("x".to_string()).message(), "JIT: Cranelift error: x");
}

#[test]
fn lookups() {
    let f = lower_function("f", &["x"], &sym("x"));
    assert_eq!(find_block(&f, BlockId { n: 0 }), Some(0));
    assert_eq!(find_block(&f, BlockId { n: 3 }), None);
    assert_eq!(find_math_extern("sqrt"), Some(0));
    assert_eq!(find_math_extern("max"), Some(23));
    assert_eq!(find_math_extern("length"), None);
}

#[test]
fn numbers_from_captures() {
    let none = || Attrs { names: None };
    assert_eq!(scalar_f64_of(&RVal::Integer(vec![Some(3)], none())).map(float), Some(3.0));
    assert_eq!(scalar_f64_of(&RVal::Logical(vec![Some(true)], none())).map(float), Some(1.0));
    assert!(scalar_f64_of(&RVal::Numeric(vec![None], none())).is_none());
    assert!(scalar_f64_of(&RVal::Numeric(vec![Some(dbl(1.0)), Some(dbl(2.0))], none())).is_none());
    let found = vec![
        ("a".to_string(), RVal::Numeric(vec![Some(dbl(2.5))], none())),
        ("b".to_string(), RVal::Null),
        ("c".to_string(), RVal::Integer(vec![Some(4)], none())),
    ];
    let got: Vec<(String, f64)> = captured_numbers(&found).into_iter().map(|(n, x)| (n, float(x))).collect();
    assert_eq!(got, vec![("a".to_string(), 2.5), ("c".to_string(), 4.0)]);
}
