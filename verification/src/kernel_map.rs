//! Element-wise operations, reductions along a stride, and loops over a range.
use crate::double::{FloatOp, Fpu, Real};
use crate::kernel::{
    Backend, RayonBackend, ReduceOp, SerialBackend, column_free_of_nan, column_reduced, free_of_nan, has_na,
    law_serial_determined, reduce_values, reduces, values,
};
use crate::kernel_par::{par_any, par_for_rayon};
use vstd::prelude::*;

verus! {

#[derive(Clone, Copy, PartialEq, Eq, Structural, Debug)]
pub enum MapOp {
    Sqrt,
    Abs,
    Exp,
    Ln,
    Log2,
    Log10,
    Neg,
    Sin,
    Cos,
    Tan,
    Asin,
    Acos,
    Atan,
    Sinh,
    Cosh,
    Tanh,
    Sign,
    Trunc,
    Expm1,
    Log1p,
}

#[derive(Clone, Copy, PartialEq, Eq, Structural, Debug)]
pub enum BinaryOp {
    Add,
    Sub,
    Mul,
    Div,
    Pow,
    Mod,
}

#[derive(Clone, Copy, PartialEq, Eq, Structural, Debug)]
pub enum TernaryOp {
    MulAdd,
}

/// One number mapped. Sign, absolute value and negation are read off the bits.
pub open spec fn op_value<F: Fn(FloatOp, Real, Real, Real) -> Real>(
    fpu: &Fpu<F>,
    op: MapOp,
    v: Real,
) -> Real {
    match op {
        MapOp::Sqrt => fpu.sqrt(v),
        MapOp::Abs => v.absolute(),
        MapOp::Exp => fpu.value1(FloatOp::Exp, v),
        MapOp::Ln => fpu.value1(FloatOp::Ln, v),
        MapOp::Log2 => fpu.value1(FloatOp::Log2, v),
        MapOp::Log10 => fpu.value1(FloatOp::Log10, v),
        MapOp::Neg => v.negated(),
        MapOp::Sin => fpu.value1(FloatOp::Sin, v),
        MapOp::Cos => fpu.value1(FloatOp::Cos, v),
        MapOp::Tan => fpu.value1(FloatOp::Tan, v),
        MapOp::Asin => fpu.value1(FloatOp::Asin, v),
        MapOp::Acos => fpu.value1(FloatOp::Acos, v),
        MapOp::Atan => fpu.value1(FloatOp::Atan, v),
        MapOp::Sinh => fpu.value1(FloatOp::Sinh, v),
        MapOp::Cosh => fpu.value1(FloatOp::Cosh, v),
        MapOp::Tanh => fpu.value1(FloatOp::Tanh, v),
        MapOp::Sign => v.sign_of(),
        MapOp::Trunc => fpu.value1(FloatOp::Trunc, v),
        MapOp::Expm1 => fpu.value1(FloatOp::Expm1, v),
        MapOp::Log1p => fpu.value1(FloatOp::Log1p, v),
    }
}

pub fn apply_op<F: Fn(FloatOp, Real, Real, Real) -> Real>(fpu: &Fpu<F>, op: MapOp, v: Real) -> (r: Real)
    requires
        fpu.wf(),
    ensures
        r == op_value(fpu, op, v),
{
    match op {
        MapOp::Sqrt => fpu.apply1(FloatOp::Sqrt, v),
        MapOp::Abs => v.abs(),
        MapOp::Exp => fpu.apply1(FloatOp::Exp, v),
        MapOp::Ln => fpu.apply1(FloatOp::Ln, v),
        MapOp::Log2 => fpu.apply1(FloatOp::Log2, v),
        MapOp::Log10 => fpu.apply1(FloatOp::Log10, v),
        MapOp::Neg => v.neg(),
        MapOp::Sin => fpu.apply1(FloatOp::Sin, v),
        MapOp::Cos => fpu.apply1(FloatOp::Cos, v),
        MapOp::Tan => fpu.apply1(FloatOp::Tan, v),
        MapOp::Asin => fpu.apply1(FloatOp::Asin, v),
        MapOp::Acos => fpu.apply1(FloatOp::Acos, v),
        MapOp::Atan => fpu.apply1(FloatOp::Atan, v),
        MapOp::Sinh => fpu.apply1(FloatOp::Sinh, v),
        MapOp::Cosh => fpu.apply1(FloatOp::Cosh, v),
        MapOp::Tanh => fpu.apply1(FloatOp::Tanh, v),
        MapOp::Sign => v.sign(),
        MapOp::Trunc => fpu.apply1(FloatOp::Trunc, v),
        MapOp::Expm1 => fpu.apply1(FloatOp::Expm1, v),
        MapOp::Log1p => fpu.apply1(FloatOp::Log1p, v),
    }
}

/// Two numbers combined.
pub open spec fn binop_value<F: Fn(FloatOp, Real, Real, Real) -> Real>(
    fpu: &Fpu<F>,
    op: BinaryOp,
    a: Real,
    b: Real,
) -> Real {
    match op {
        BinaryOp::Add => fpu.plus(a, b),
        BinaryOp::Sub => fpu.minus(a, b),
        BinaryOp::Mul => fpu.times(a, b),
        BinaryOp::Div => fpu.over(a, b),
        BinaryOp::Pow => fpu.value2(FloatOp::Power, a, b),
        BinaryOp::Mod => fpu.value2(FloatOp::Modulo, a, b),
    }
}

pub fn apply_binop<F: Fn(FloatOp, Real, Real, Real) -> Real>(
    fpu: &Fpu<F>,
    op: BinaryOp,
    a: Real,
    b: Real,
) -> (r: Real)
    requires
        fpu.wf(),
    ensures
        r == binop_value(fpu, op, a, b),
{
    let o: FloatOp = match op {
        BinaryOp::Add => FloatOp::Plus,
        BinaryOp::Sub => FloatOp::Minus,
        BinaryOp::Mul => FloatOp::Times,
        BinaryOp::Div => FloatOp::Over,
        BinaryOp::Pow => FloatOp::Power,
        BinaryOp::Mod => FloatOp::Modulo,
    };
    fpu.apply(o, a, b)
}

/// Three numbers combined: `a * b + c`, rounded once.
pub open spec fn ternop_value<F: Fn(FloatOp, Real, Real, Real) -> Real>(
    fpu: &Fpu<F>,
    op: TernaryOp,
    a: Real,
    b: Real,
    c: Real,
) -> Real {
    match op {
        TernaryOp::MulAdd => fpu.value(FloatOp::MulAdd, a, b, c),
    }
}

pub fn apply_ternop<F: Fn(FloatOp, Real, Real, Real) -> Real>(
    fpu: &Fpu<F>,
    op: TernaryOp,
    a: Real,
    b: Real,
    c: Real,
) -> (r: Real)
    requires
        fpu.wf(),
    ensures
        r == ternop_value(fpu, op, a, b, c),
{
    match op {
        TernaryOp::MulAdd => fpu.apply3(FloatOp::MulAdd, a, b, c),
    }
}

/// A cell mapped; a missing one stays missing.
pub open spec fn map_cell<F: Fn(FloatOp, Real, Real, Real) -> Real>(
    fpu: &Fpu<F>,
    op: MapOp,
    x: Option<Real>,
) -> Option<Real> {
    match x {
        Some(v) => Some(op_value(fpu, op, v)),
        None => None,
    }
}

/// Two cells combined; missing where either is.
pub open spec fn binary_cell<F: Fn(FloatOp, Real, Real, Real) -> Real>(
    fpu: &Fpu<F>,
    op: BinaryOp,
    x: Option<Real>,
    y: Option<Real>,
) -> Option<Real> {
    match (x, y) {
        (Some(a), Some(b)) => Some(binop_value(fpu, op, a, b)),
        _ => None,
    }
}

/// Three cells combined; missing where any is.
pub open spec fn ternary_cell<F: Fn(FloatOp, Real, Real, Real) -> Real>(
    fpu: &Fpu<F>,
    op: TernaryOp,
    x: Option<Real>,
    y: Option<Real>,
    z: Option<Real>,
) -> Option<Real> {
    match (x, y, z) {
        (Some(a), Some(b), Some(c)) => Some(ternop_value(fpu, op, a, b, c)),
        _ => None,
    }
}

/// `f` of each number below `n`, in order, on the calling thread.
fn for_each<T, M: Fn(usize) -> T>(n: usize, f: M) -> (r: Vec<T>)
    requires
        forall|i: usize| i < n ==> #[trigger] call_requires(f, (i,)),
    ensures
        r@.len() == n,
        forall|i: int| 0 <= i < n ==> call_ensures(f, (i as usize,), #[trigger] r@[i]),
{
    let mut r: Vec<T> = Vec::new();
    let mut i: usize = 0;
    while i < n
        invariant
            i <= n,
            r@.len() == i,
            forall|i: usize| i < n ==> #[trigger] call_requires(f, (i,)),
            forall|k: int| 0 <= k < i ==> call_ensures(f, (k as usize,), #[trigger] r@[k]),
        decreases n - i,
    {
        let x = f(i);
        r.push(x);
        i += 1;
    }
    r
}

/// `f` of each number below `n`, in order, on the given backend.
pub fn par_for<T: Send, M: Fn(usize) -> T + Send + Sync>(on: Backend, n: usize, f: M) -> (r: Vec<T>)
    requires
        forall|i: usize| i < n ==> #[trigger] call_requires(f, (i,)),
    ensures
        r@.len() == n,
        forall|i: int| 0 <= i < n ==> call_ensures(f, (i as usize,), #[trigger] r@[i]),
{
    match on {
        Backend::Serial => for_each(n, f),
        Backend::Rayon => par_for_rayon(n, f),
    }
}

/// Maps a column on the given backend.
pub fn map<F: Fn(FloatOp, Real, Real, Real) -> Real + Sync>(
    fpu: &Fpu<F>,
    op: MapOp,
    data: &[Option<Real>],
    on: Backend,
) -> (r: Vec<Option<Real>>)
    requires
        fpu.wf(),
    ensures
        r@ == Seq::new(data@.len(), |i: int| map_cell(fpu, op, data@[i])),
{
    let f = |i: usize| -> (x: Option<Real>)
        requires
            i < data@.len(),
            fpu.wf(),
        ensures
            x == map_cell(fpu, op, data@[i as int]),
        {
            match data[i] {
                Some(v) => Some(apply_op(fpu, op, v)),
                None => None,
            }
        };
    let r = par_for(on, data.len(), f);
    assert(r@ =~= Seq::new(data@.len(), |i: int| map_cell(fpu, op, data@[i]))) by {
        assert forall|i: int| 0 <= i < r@.len() implies #[trigger] r@[i] == map_cell(fpu, op, data@[i]) by {
            assert(call_ensures(f, (i as usize,), r@[i]));
        }
    }
    r
}

/// Combines two columns of equal length on the given backend.
pub fn binary<F: Fn(FloatOp, Real, Real, Real) -> Real + Sync>(
    fpu: &Fpu<F>,
    op: BinaryOp,
    a: &[Option<Real>],
    b: &[Option<Real>],
    on: Backend,
) -> (r: Vec<Option<Real>>)
    requires
        fpu.wf(),
        a@.len() == b@.len(),
    ensures
        r@ == Seq::new(a@.len(), |i: int| binary_cell(fpu, op, a@[i], b@[i])),
{
    let f = |i: usize| -> (x: Option<Real>)
        requires
            i < a@.len(),
            a@.len() == b@.len(),
            fpu.wf(),
        ensures
            x == binary_cell(fpu, op, a@[i as int], b@[i as int]),
        {
            match (a[i], b[i]) {
                (Some(x), Some(y)) => Some(apply_binop(fpu, op, x, y)),
                _ => None,
            }
        };
    let r = par_for(on, a.len(), f);
    assert(r@ =~= Seq::new(a@.len(), |i: int| binary_cell(fpu, op, a@[i], b@[i]))) by {
        assert forall|i: int| 0 <= i < r@.len() implies #[trigger] r@[i] == binary_cell(fpu, op, a@[i], b@[i]) by {
            assert(call_ensures(f, (i as usize,), r@[i]));
        }
    }
    r
}

/// Combines three columns of equal length on the given backend.
pub fn ternary<F: Fn(FloatOp, Real, Real, Real) -> Real + Sync>(
    fpu: &Fpu<F>,
    op: TernaryOp,
    a: &[Option<Real>],
    b: &[Option<Real>],
    c: &[Option<Real>],
    on: Backend,
) -> (r: Vec<Option<Real>>)
    requires
        fpu.wf(),
        a@.len() == b@.len(),
        a@.len() == c@.len(),
    ensures
        r@ == Seq::new(a@.len(), |i: int| ternary_cell(fpu, op, a@[i], b@[i], c@[i])),
{
    let f = |i: usize| -> (x: Option<Real>)
        requires
            i < a@.len(),
            a@.len() == b@.len(),
            a@.len() == c@.len(),
            fpu.wf(),
        ensures
            x == ternary_cell(fpu, op, a@[i as int], b@[i as int], c@[i as int]),
        {
            match (a[i], b[i], c[i]) {
                (Some(x), Some(y), Some(z)) => Some(apply_ternop(fpu, op, x, y, z)),
                _ => None,
            }
        };
    let r = par_for(on, a.len(), f);
    assert(r@ =~= Seq::new(a@.len(), |i: int| ternary_cell(fpu, op, a@[i], b@[i], c@[i]))) by {
        assert forall|i: int| 0 <= i < r@.len() implies #[trigger] r@[i] == ternary_cell(
            fpu,
            op,
            a@[i],
            b@[i],
            c@[i],
        ) by {
            assert(call_ensures(f, (i as usize,), r@[i]));
        }
    }
    r
}

/// An element-wise operation on one column.
pub trait MapBackend {
    fn map<F: Fn(FloatOp, Real, Real, Real) -> Real + Sync>(
        &self,
        fpu: &Fpu<F>,
        op: MapOp,
        data: &[Option<Real>],
    ) -> (r: Vec<Option<Real>>)
        requires
            fpu.wf(),
        ensures
            r@ == Seq::new(data@.len(), |i: int| map_cell(fpu, op, data@[i])),
    ;
}

impl MapBackend for SerialBackend {
    fn map<F: Fn(FloatOp, Real, Real, Real) -> Real + Sync>(
        &self,
        fpu: &Fpu<F>,
        op: MapOp,
        data: &[Option<Real>],
    ) -> (r: Vec<Option<Real>>) {
        map(fpu, op, data, Backend::Serial)
    }
}

impl MapBackend for RayonBackend {
    fn map<F: Fn(FloatOp, Real, Real, Real) -> Real + Sync>(
        &self,
        fpu: &Fpu<F>,
        op: MapOp,
        data: &[Option<Real>],
    ) -> (r: Vec<Option<Real>>) {
        map(fpu, op, data, Backend::Rayon)
    }
}

/// An element-wise operation on two columns.
pub trait BinaryBackend {
    fn binary<F: Fn(FloatOp, Real, Real, Real) -> Real + Sync>(
        &self,
        fpu: &Fpu<F>,
        op: BinaryOp,
        a: &[Option<Real>],
        b: &[Option<Real>],
    ) -> (r: Vec<Option<Real>>)
        requires
            fpu.wf(),
            a@.len() == b@.len(),
        ensures
            r@ == Seq::new(a@.len(), |i: int| binary_cell(fpu, op, a@[i], b@[i])),
    ;
}

impl BinaryBackend for SerialBackend {
    fn binary<F: Fn(FloatOp, Real, Real, Real) -> Real + Sync>(
        &self,
        fpu: &Fpu<F>,
        op: BinaryOp,
        a: &[Option<Real>],
        b: &[Option<Real>],
    ) -> (r: Vec<Option<Real>>) {
        binary(fpu, op, a, b, Backend::Serial)
    }
}

impl BinaryBackend for RayonBackend {
    fn binary<F: Fn(FloatOp, Real, Real, Real) -> Real + Sync>(
        &self,
        fpu: &Fpu<F>,
        op: BinaryOp,
        a: &[Option<Real>],
        b: &[Option<Real>],
    ) -> (r: Vec<Option<Real>>) {
        binary(fpu, op, a, b, Backend::Rayon)
    }
}

/// An element-wise operation on three columns.
pub trait TernaryBackend {
    fn ternary<F: Fn(FloatOp, Real, Real, Real) -> Real + Sync>(
        &self,
        fpu: &Fpu<F>,
        op: TernaryOp,
        a: &[Option<Real>],
        b: &[Option<Real>],
        c: &[Option<Real>],
    ) -> (r: Vec<Option<Real>>)
        requires
            fpu.wf(),
            a@.len() == b@.len(),
            a@.len() == c@.len(),
        ensures
            r@ == Seq::new(a@.len(), |i: int| ternary_cell(fpu, op, a@[i], b@[i], c@[i])),
    ;
}

impl TernaryBackend for SerialBackend {
    fn ternary<F: Fn(FloatOp, Real, Real, Real) -> Real + Sync>(
        &self,
        fpu: &Fpu<F>,
        op: TernaryOp,
        a: &[Option<Real>],
        b: &[Option<Real>],
        c: &[Option<Real>],
    ) -> (r: Vec<Option<Real>>) {
        ternary(fpu, op, a, b, c, Backend::Serial)
    }
}

impl TernaryBackend for RayonBackend {
    fn ternary<F: Fn(FloatOp, Real, Real, Real) -> Real + Sync>(
        &self,
        fpu: &Fpu<F>,
        op: TernaryOp,
        a: &[Option<Real>],
        b: &[Option<Real>],
        c: &[Option<Real>],
    ) -> (r: Vec<Option<Real>>) {
        ternary(fpu, op, a, b, c, Backend::Rayon)
    }
}

/// The cells at `offset`, `offset + stride`, and so on, `count` of them.
pub open spec fn strided(d: Seq<Option<Real>>, offset: int, stride: int, count: nat) -> Seq<Option<Real>> {
    Seq::new(count, |k: int| d[offset + k * stride])
}

/// The last of the strided cells lies inside the data.
pub open spec fn stride_fits(len: int, offset: int, stride: int, count: int) -> bool {
    count > 0 && offset + (count - 1) * stride < len
}

/// The backend that does the work of a strided reduction: those that need more
/// than one pass over the data run serially.
pub open spec fn strided_on(op: ReduceOp, on: Backend) -> Backend {
    match op {
        ReduceOp::Var | ReduceOp::Sd | ReduceOp::Median => Backend::Serial,
        _ => on,
    }
}

/// `r` is the reduction of the strided cells: missing where there are none,
/// where they reach past the data, or where one of them is missing.
pub open spec fn stride_reduced<F: Fn(FloatOp, Real, Real, Real) -> Real>(
    fpu: &Fpu<F>,
    op: ReduceOp,
    data: Seq<Option<Real>>,
    offset: int,
    stride: int,
    count: nat,
    on: Backend,
    r: Option<Real>,
) -> bool {
    let cells = strided(data, offset, stride, count);
    if !stride_fits(data.len() as int, offset, stride, count as int) || has_na(cells) {
        r is None
    } else {
        reduces(fpu, op, values(cells), strided_on(op, on), false, r)
    }
}

fn last_fits(len: usize, offset: usize, stride: usize, count: usize) -> (r: bool)
    requires
        stride > 0,
        count > 0,
    ensures
        r == stride_fits(len as int, offset as int, stride as int, count as int),
{
    if offset >= len {
        proof {
            assert((count - 1) * stride >= 0) by (nonlinear_arith)
                requires
                    count >= 1,
                    stride > 0,
            ;
        }
        return false;
    }
    let room: usize = len - 1 - offset;
    let q: usize = room / stride;
    proof {
        let c = count - 1;
        let s = stride as int;
        let m = room as int;
        assert((c <= m / s) == (c * s <= m)) by (nonlinear_arith)
            requires
                s > 0,
                m >= 0,
                c >= 0,
        ;
    }
    count - 1 <= q
}

proof fn lemma_stride_index(len: int, offset: int, stride: int, count: int, k: int)
    requires
        stride_fits(len, offset, stride, count),
        0 <= k < count,
        stride > 0,
        offset >= 0,
    ensures
        0 <= k * stride,
        0 <= offset + k * stride < len,
{
    assert(0 <= k * stride <= (count - 1) * stride) by (nonlinear_arith)
        requires
            0 <= k <= count - 1,
            stride > 0,
    ;
}

fn gather(data: &[Option<Real>], offset: usize, stride: usize, count: usize, on: Backend) -> (r: Option<Vec<Real>>)
    requires
        stride > 0,
        stride_fits(data@.len() as int, offset as int, stride as int, count as int),
    ensures
        r is None <==> has_na(strided(data@, offset as int, stride as int, count as nat)),
        r is Some ==> (r->0)@ == values(strided(data@, offset as int, stride as int, count as nat)),
{
    let n: usize = data.len();
    let ghost cells = strided(data@, offset as int, stride as int, count as nat);
    let cell = |k: usize| -> (x: Option<Real>)
        requires
            k < count,
            n == data@.len(),
            stride > 0,
            stride_fits(n as int, offset as int, stride as int, count as int),
        ensures
            x == data@[offset + k * stride],
        {
            proof {
                lemma_stride_index(n as int, offset as int, stride as int, count as int, k as int);
            }
            data[offset + k * stride]
        };
    let all: Vec<Option<Real>> = par_for(on, count, cell);
    assert(all@ =~= cells) by {
        assert forall|k: int| 0 <= k < count implies #[trigger] all@[k] == data@[offset + k * stride] by {
            assert(call_ensures(cell, (k as usize,), all@[k]));
        }
    }
    let missing = |k: usize| -> (b: bool)
        requires
            k < all@.len(),
        ensures
            b == (all@[k as int] is None),
        { all[k].is_none() };
    match on {
        Backend::Rayon => {
            if par_any(count, missing) {
                proof {
                    let k = choose|k: usize| k < count && #[trigger] call_ensures(missing, (k,), true);
                    assert(cells[k as int] is None);
                }
                return None;
            }
            assert forall|k: int| 0 <= k < count implies #[trigger] cells[k] is Some by {
                assert(call_ensures(missing, (k as usize,), false));
            }
        },
        Backend::Serial => {},
    }
    let mut v: Vec<Real> = Vec::new();
    let mut i: usize = 0;
    while i < all.len()
        invariant
            i <= all.len(),
            all@ == cells,
            cells == strided(data@, offset as int, stride as int, count as nat),
            v@.len() == i,
            forall|k: int| 0 <= k < i ==> cells[k] == Some(#[trigger] v@[k]),
        decreases all.len() - i,
    {
        match all[i] {
            Some(x) => v.push(x),
            None => {
                assert(cells[i as int] is None);
                return None;
            },
        }
        i += 1;
    }
    assert(v@ =~= values(cells));
    assert forall|k: int| 0 <= k < cells.len() implies #[trigger] cells[k] is Some by {
        assert(cells[k] == Some(v@[k]));
    }
    Some(v)
}

/// Reduces the cells at `offset`, `offset + stride`, and so on, `count` of
/// them. The result is missing where there are none, where they reach past the
/// data, or where one of them is missing.
pub fn reduce_strided<F: Fn(FloatOp, Real, Real, Real) -> Real + Sync>(
    fpu: &Fpu<F>,
    op: ReduceOp,
    data: &[Option<Real>],
    offset: usize,
    stride: usize,
    count: usize,
    on: Backend,
) -> (r: Option<Real>)
    requires
        fpu.wf(),
        stride > 0,
        op == ReduceOp::Median && stride_fits(data@.len() as int, offset as int, stride as int, count as int)
            ==> column_free_of_nan(strided(data@, offset as int, stride as int, count as nat)),
    ensures
        stride_reduced(fpu, op, data@, offset as int, stride as int, count as nat, on, r),
{
    if count == 0 || !last_fits(data.len(), offset, stride, count) {
        return None;
    }
    let ghost cells = strided(data@, offset as int, stride as int, count as nat);
    match gather(data, offset, stride, count, on) {
        None => None,
        Some(v) => {
            proof {
                if op == ReduceOp::Median {
                    assert forall|k: int| 0 <= k < v@.len() implies !(#[trigger] v@[k]).nan() by {
                        assert(cells[k] is Some);
                    }
                    assert(free_of_nan(v@));
                }
            }
            let place: Backend = match op {
                ReduceOp::Var | ReduceOp::Sd | ReduceOp::Median => Backend::Serial,
                _ => on,
            };
            reduce_values(fpu, op, v.as_slice(), place, false)
        },
    }
}

/// A reduction along a stride.
pub trait StridedReduceBackend {
    fn reduce_strided<F: Fn(FloatOp, Real, Real, Real) -> Real + Sync>(
        &self,
        fpu: &Fpu<F>,
        op: ReduceOp,
        data: &[Option<Real>],
        offset: usize,
        stride: usize,
        count: usize,
    ) -> (r: Option<Real>)
        requires
            fpu.wf(),
            stride > 0,
            op == ReduceOp::Median && stride_fits(data@.len() as int, offset as int, stride as int, count as int)
                ==> column_free_of_nan(strided(data@, offset as int, stride as int, count as nat)),
        ensures
            (!stride_fits(data@.len() as int, offset as int, stride as int, count as int)
                || has_na(strided(data@, offset as int, stride as int, count as nat))) ==> r is None,
    ;
}

impl StridedReduceBackend for SerialBackend {
    fn reduce_strided<F: Fn(FloatOp, Real, Real, Real) -> Real + Sync>(
        &self,
        fpu: &Fpu<F>,
        op: ReduceOp,
        data: &[Option<Real>],
        offset: usize,
        stride: usize,
        count: usize,
    ) -> (r: Option<Real>)
        ensures
            stride_reduced(fpu, op, data@, offset as int, stride as int, count as nat, Backend::Serial, r),
    {
        reduce_strided(fpu, op, data, offset, stride, count, Backend::Serial)
    }
}

impl StridedReduceBackend for RayonBackend {
    fn reduce_strided<F: Fn(FloatOp, Real, Real, Real) -> Real + Sync>(
        &self,
        fpu: &Fpu<F>,
        op: ReduceOp,
        data: &[Option<Real>],
        offset: usize,
        stride: usize,
        count: usize,
    ) -> (r: Option<Real>)
        ensures
            stride_reduced(fpu, op, data@, offset as int, stride as int, count as nat, Backend::Rayon, r),
    {
        reduce_strided(fpu, op, data, offset, stride, count, Backend::Rayon)
    }
}

/// On one thread a strided reduction is the reduction of a copy of the strided
/// cells, so that cells beside the stride do not count; where there are none, or
/// they reach past the data, it is missing.
pub proof fn law_stride_is_reduction_of_copy<F: Fn(FloatOp, Real, Real, Real) -> Real>(
    fpu: &Fpu<F>,
    op: ReduceOp,
    data: Seq<Option<Real>>,
    offset: nat,
    stride: nat,
    copy: Seq<Option<Real>>,
    a: Option<Real>,
    b: Option<Real>,
)
    requires
        stride > 0,
        stride_reduced(fpu, op, data, offset as int, stride as int, copy.len(), Backend::Serial, a),
        column_reduced(fpu, op, copy, Backend::Serial, b),
    ensures
        copy.len() == 0 || offset + (copy.len() - 1) * stride >= data.len() ==> a is None,
        copy.len() > 0 && offset + (copy.len() - 1) * stride < data.len() && (forall|k: int|
            0 <= k < copy.len() ==> #[trigger] copy[k] == data[offset + k * stride]) ==> a == b,
{
    let cells = strided(data, offset as int, stride as int, copy.len());
    if copy.len() > 0 && offset + (copy.len() - 1) * stride < data.len() && (forall|k: int|
        0 <= k < copy.len() ==> #[trigger] copy[k] == data[offset + k * stride]) {
        assert(cells =~= copy);
        law_serial_determined(fpu, op, copy, a, b);
    }
}

} // verus!
