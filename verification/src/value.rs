//! R values: vectors, factors, matrices, data frames and lists.
//!
//! Each type has a mathematical counterpart ([`Val`], [`Frame`], [`Grid`]) made
//! of sequences; `deep` maps a value to it. Contracts speak of values by that
//! counterpart.
use crate::double::{i32_real, Real, ONE_BITS};
use crate::text::{is_text, opt_text, opt_texts, owned, texts};
use vstd::prelude::*;

verus! {

/// Attributes of a vector.
#[derive(Debug)]
pub struct Attrs {
    pub names: Option<Vec<String>>,
}

/// A categorical vector: for each entry the index of its level.
#[derive(Debug)]
pub struct Factor {
    pub codes: Vec<Option<u32>>,
    pub levels: Vec<String>,
}

/// A matrix of numbers, column by column.
#[derive(Debug)]
pub struct Matrix {
    pub data: Vec<Real>,
    pub nrow: usize,
    pub ncol: usize,
    pub col_names: Option<Vec<String>>,
}

/// Named columns of equal length.
#[derive(Debug)]
pub struct DataFrame {
    pub columns: Vec<(String, RVal)>,
    pub row_names: Option<Vec<String>>,
}

/// The result object of a model or a test: a class name and named fields.
#[derive(Debug)]
pub struct TypeInstance {
    pub class_name: String,
    pub fields: Vec<(String, RVal)>,
}

/// An R value.
#[derive(Debug)]
pub enum RVal {
    Null,
    Numeric(Vec<Option<Real>>, Attrs),
    Integer(Vec<Option<i32>>, Attrs),
    Logical(Vec<Option<bool>>, Attrs),
    Character(Vec<Option<String>>, Attrs),
    Factor(Factor),
    Matrix(Matrix),
    DataFrame(DataFrame),
    List(Vec<(Option<String>, RVal)>),
    TypeInstance(TypeInstance),
}

/// An evaluated argument of a call.
#[derive(Debug)]
pub struct EvalArg {
    pub name: Option<String>,
    pub value: RVal,
}

#[derive(Clone, Copy, PartialEq, Eq, Structural, Debug)]
pub enum ErrKind {
    Runtime,
    Type,
}

/// An error with its message.
#[derive(Debug)]
pub struct R2Err {
    pub msg: String,
    pub kind: ErrKind,
}

// ── Mathematical counterparts ────────────────────────────────────────

pub type Names = Option<Seq<Seq<char>>>;

#[verifier::ext_equal]
pub struct Grid {
    pub data: Seq<Real>,
    pub nrow: nat,
    pub ncol: nat,
    pub col_names: Names,
}

#[verifier::ext_equal]
pub struct Frame {
    pub columns: Seq<(Seq<char>, Val)>,
    pub row_names: Names,
}

#[verifier::ext_equal]
pub enum Val {
    Null,
    Numeric(Seq<Option<Real>>, Names),
    Integer(Seq<Option<i32>>, Names),
    Logical(Seq<Option<bool>>, Names),
    Character(Seq<Option<Seq<char>>>, Names),
    Factor(Seq<Option<u32>>, Seq<Seq<char>>),
    Matrix(Grid),
    DataFrame(Frame),
    List(Seq<(Option<Seq<char>>, Val)>),
    Instance(Seq<char>, Seq<(Seq<char>, Val)>),
}

pub open spec fn opt_names(o: Option<Vec<String>>) -> Names {
    match o {
        Some(v) => Some(texts(v@)),
        None => None,
    }
}

impl Matrix {
    pub open spec fn deep(self) -> Grid {
        Grid {
            data: self.data@,
            nrow: self.nrow as nat,
            ncol: self.ncol as nat,
            col_names: opt_names(self.col_names),
        }
    }
}

impl Grid {
    pub open spec fn wf(self) -> bool {
        self.data.len() == self.nrow * self.ncol
    }

    /// Entry in row `i` and column `j`.
    pub open spec fn at(self, i: int, j: int) -> Real {
        self.data[j * self.nrow + i]
    }
}

impl DataFrame {
    pub open spec fn deep(self) -> Frame
        decreases self,
    {
        Frame {
            columns: Seq::new(
                self.columns@.len(),
                |i: int|
                    if 0 <= i < self.columns@.len() {
                        (self.columns@[i].0@, self.columns@[i].1.deep())
                    } else {
                        arbitrary()
                    },
            ),
            row_names: opt_names(self.row_names),
        }
    }
}

impl TypeInstance {
    pub open spec fn deep(self) -> Val
        decreases self,
    {
        Val::Instance(
            self.class_name@,
            Seq::new(
                self.fields@.len(),
                |i: int|
                    if 0 <= i < self.fields@.len() {
                        (self.fields@[i].0@, self.fields@[i].1.deep())
                    } else {
                        arbitrary()
                    },
            ),
        )
    }
}

impl RVal {
    pub open spec fn deep(self) -> Val
        decreases self,
    {
        match self {
            RVal::Null => Val::Null,
            RVal::Numeric(v, a) => Val::Numeric(v@, opt_names(a.names)),
            RVal::Integer(v, a) => Val::Integer(v@, opt_names(a.names)),
            RVal::Logical(v, a) => Val::Logical(v@, opt_names(a.names)),
            RVal::Character(v, a) => Val::Character(opt_texts(v@), opt_names(a.names)),
            RVal::Factor(f) => Val::Factor(f.codes@, texts(f.levels@)),
            RVal::Matrix(m) => Val::Matrix(m.deep()),
            RVal::DataFrame(d) => Val::DataFrame(d.deep()),
            RVal::List(v) => Val::List(
                Seq::new(
                    v@.len(),
                    |i: int|
                        if 0 <= i < v@.len() {
                            (opt_text(v@[i].0), v@[i].1.deep())
                        } else {
                            arbitrary()
                        },
                ),
            ),
            RVal::TypeInstance(t) => t.deep(),
        }
    }
}

/// Number of entries of a vector; other values count as one.
pub open spec fn length(v: Val) -> nat {
    match v {
        Val::Null => 0,
        Val::Numeric(s, _) => s.len(),
        Val::Integer(s, _) => s.len(),
        Val::Logical(s, _) => s.len(),
        Val::Character(s, _) => s.len(),
        Val::Factor(s, _) => s.len(),
        Val::Matrix(g) => g.data.len(),
        Val::DataFrame(f) => f.columns.len(),
        Val::List(s) => s.len(),
        Val::Instance(_, _) => 1,
    }
}

/// Number of rows: the length of the first column.
pub open spec fn frame_rows(f: Frame) -> nat {
    if f.columns.len() == 0 {
        0
    } else {
        length(f.columns[0].1)
    }
}

// ── Coercions ────────────────────────────────────────────────────────

pub open spec fn bool_real(b: bool) -> Real {
    if b {
        Real { bits: ONE_BITS }
    } else {
        Real { bits: 0 }
    }
}

/// The numbers in a numeric, integer or logical vector.
pub open spec fn reals(v: Val) -> Option<Seq<Option<Real>>> {
    match v {
        Val::Numeric(s, _) => Some(s),
        Val::Integer(s, _) => Some(
            Seq::new(
                s.len(),
                |i: int|
                    match s[i] {
                        Some(n) => Some(i32_real(n)),
                        None => None,
                    },
            ),
        ),
        Val::Logical(s, _) => Some(
            Seq::new(
                s.len(),
                |i: int|
                    match s[i] {
                        Some(b) => Some(bool_real(b)),
                        None => None,
                    },
            ),
        ),
        _ => None,
    }
}

/// The truth values in a numeric, integer or logical vector; a number counts as
/// true unless it is zero.
pub open spec fn logicals(v: Val) -> Option<Seq<Option<bool>>> {
    match v {
        Val::Logical(s, _) => Some(s),
        Val::Integer(s, _) => Some(
            Seq::new(
                s.len(),
                |i: int|
                    match s[i] {
                        Some(n) => Some(n != 0),
                        None => None,
                    },
            ),
        ),
        Val::Numeric(s, _) => Some(
            Seq::new(
                s.len(),
                |i: int|
                    match s[i] {
                        Some(x) => Some(!x.same(Real { bits: 0 })),
                        None => None,
                    },
            ),
        ),
        _ => None,
    }
}

/// The first number of a vector, where it has one that is not missing.
pub open spec fn scalar(v: Val) -> Option<Real> {
    match reals(v) {
        Some(s) => if s.len() > 0 {
            s[0]
        } else {
            None
        },
        None => None,
    }
}

/// The numbers that are present, in order.
pub open spec fn present(s: Seq<Option<Real>>) -> Seq<Real>
    decreases s.len(),
{
    if s.len() == 0 {
        Seq::empty()
    } else {
        match s.last() {
            Some(x) => present(s.drop_last()).push(x),
            None => present(s.drop_last()),
        }
    }
}

pub open spec fn class_name(v: Val) -> Seq<char> {
    match v {
        Val::Null => "NULL"@,
        Val::Numeric(_, _) => "numeric"@,
        Val::Integer(_, _) => "integer"@,
        Val::Logical(_, _) => "logical"@,
        Val::Character(_, _) => "character"@,
        Val::Factor(_, _) => "factor"@,
        Val::Matrix(_) => "matrix"@,
        Val::DataFrame(_) => "data.frame"@,
        Val::List(_) => "list"@,
        Val::Instance(t, _) => t,
    }
}

// ── Executable counterparts ──────────────────────────────────────────

pub fn dup_strings(v: &Vec<String>) -> (r: Vec<String>)
    ensures
        texts(r@) == texts(v@),
        r@.len() == v@.len(),
{
    let mut out: Vec<String> = Vec::new();
    for i in 0..v.len()
        invariant
            texts(out@) =~= texts(v@).subrange(0, i as int),
    {
        let s = owned(v[i].as_str());
        let ghost o = out@;
        out.push(s);
        assert(texts(out@) =~= texts(o).push(v@[i as int]@));
    }
    assert(texts(v@).subrange(0, v@.len() as int) =~= texts(v@));
    assert(texts(out@).len() == texts(v@).len());
    out
}

pub fn dup_names(v: &Option<Vec<String>>) -> (r: Option<Vec<String>>)
    ensures
        opt_names(r) == opt_names(*v),
{
    match v {
        Some(n) => Some(dup_strings(n)),
        None => None,
    }
}

pub fn dup_opt_string(v: &Option<String>) -> (r: Option<String>)
    ensures
        opt_text(r) == opt_text(*v),
{
    match v {
        Some(s) => Some(owned(s.as_str())),
        None => None,
    }
}

pub fn dup_opt_strings(v: &Vec<Option<String>>) -> (r: Vec<Option<String>>)
    ensures
        opt_texts(r@) == opt_texts(v@),
{
    let mut out: Vec<Option<String>> = Vec::new();
    for i in 0..v.len()
        invariant
            opt_texts(out@) =~= opt_texts(v@).subrange(0, i as int),
    {
        let s = dup_opt_string(&v[i]);
        let ghost o = out@;
        out.push(s);
        assert(opt_texts(out@) =~= opt_texts(o).push(opt_text(v@[i as int])));
    }
    assert(opt_texts(v@).subrange(0, v@.len() as int) =~= opt_texts(v@));
    out
}

/// A copy of a vector of plain values.
pub fn dup_copies<T: Copy>(v: &Vec<T>) -> (r: Vec<T>)
    ensures
        r@ == v@,
{
    let mut out: Vec<T> = Vec::new();
    for i in 0..v.len()
        invariant
            out@ == v@.subrange(0, i as int),
    {
        out.push(v[i]);
    }
    assert(v@.subrange(0, v@.len() as int) =~= v@);
    out
}

pub fn no_attrs() -> (r: Attrs)
    ensures
        r.names is None,
{
    Attrs { names: None }
}

impl Attrs {
    pub fn dup(&self) -> (r: Attrs)
        ensures
            opt_names(r.names) == opt_names(self.names),
    {
        Attrs { names: dup_names(&self.names) }
    }
}

impl Matrix {
    pub fn dup(&self) -> (r: Matrix)
        ensures
            r.deep() == self.deep(),
    {
        Matrix {
            data: dup_copies(&self.data),
            nrow: self.nrow,
            ncol: self.ncol,
            col_names: dup_names(&self.col_names),
        }
    }

    /// Entry in row `i` and column `j`.
    pub fn get(&self, i: usize, j: usize) -> (r: Real)
        requires
            self.deep().wf(),
            i < self.nrow,
            j < self.ncol,
        ensures
            r == self.deep().at(i as int, j as int),
    {
        proof {
            lemma_cell(i as int, j as int, self.nrow as int, self.ncol as int);
        }
        let n: usize = self.data.len();
        assert(n == self.nrow * self.ncol);
        self.data[j * self.nrow + i]
    }
}

/// The position of a cell lies within the data.
pub proof fn lemma_cell(i: int, j: int, nrow: int, ncol: int)
    requires
        0 <= i < nrow,
        0 <= j < ncol,
    ensures
        0 <= j * nrow,
        j * nrow + i < nrow * ncol,
        j * nrow <= nrow * ncol,
{
    assert(0 <= j * nrow) by (nonlinear_arith)
        requires
            0 <= j,
            0 < nrow,
    ;
    assert((j + 1) * nrow <= ncol * nrow) by (nonlinear_arith)
        requires
            j + 1 <= ncol,
            0 < nrow,
    ;
    assert((j + 1) * nrow == j * nrow + nrow) by (nonlinear_arith);
    assert(ncol * nrow == nrow * ncol) by (nonlinear_arith);
}

impl DataFrame {
    pub fn dup(&self) -> (r: DataFrame)
        ensures
            r.deep() == self.deep(),
        decreases self,
    {
        let mut out: Vec<(String, RVal)> = Vec::new();
        let n: usize = self.columns.len();
        let mut i: usize = 0;
        while i < n
            invariant
                i <= n == self.columns@.len(),
                out@.len() == i,
                forall|j: int|
                    0 <= j < i ==> (#[trigger] out@[j]).0@ == self.columns@[j].0@ && out@[j].1.deep()
                        == self.columns@[j].1.deep(),
            decreases n - i,
        {
            let name = owned(self.columns[i].0.as_str());
            let col = self.columns[i].1.dup();
            out.push((name, col));
            i += 1;
        }
        let r = DataFrame { columns: out, row_names: dup_names(&self.row_names) };
        assert(r.deep().columns =~= self.deep().columns);
        r
    }

    /// Number of rows: the length of the first column.
    pub fn nrow(&self) -> (r: usize)
        ensures
            r == frame_rows(self.deep()),
    {
        if self.columns.len() == 0 {
            0
        } else {
            assert(self.deep().columns[0] == (self.columns@[0].0@, self.columns@[0].1.deep()));
            self.columns[0].1.len()
        }
    }
}

impl TypeInstance {
    pub fn dup(&self) -> (r: TypeInstance)
        ensures
            r.deep() == self.deep(),
        decreases self,
    {
        let mut out: Vec<(String, RVal)> = Vec::new();
        let n: usize = self.fields.len();
        let mut i: usize = 0;
        while i < n
            invariant
                i <= n == self.fields@.len(),
                out@.len() == i,
                forall|j: int|
                    0 <= j < i ==> (#[trigger] out@[j]).0@ == self.fields@[j].0@ && out@[j].1.deep()
                        == self.fields@[j].1.deep(),
            decreases n - i,
        {
            let name = owned(self.fields[i].0.as_str());
            let col = self.fields[i].1.dup();
            out.push((name, col));
            i += 1;
        }
        let r = TypeInstance { class_name: owned(self.class_name.as_str()), fields: out };
        assert(r.deep()->Instance_1 =~= self.deep()->Instance_1);
        r
    }
}

impl RVal {
    /// Number of entries.
    pub fn len(&self) -> (r: usize)
        ensures
            r == length(self.deep()),
    {
        proof {
            reveal_with_fuel(RVal::deep, 2);
        }
        match self {
            RVal::Null => 0,
            RVal::Numeric(v, _) => v.len(),
            RVal::Integer(v, _) => v.len(),
            RVal::Logical(v, _) => v.len(),
            RVal::Character(v, _) => v.len(),
            RVal::Factor(f) => f.codes.len(),
            RVal::Matrix(m) => m.data.len(),
            RVal::DataFrame(d) => d.columns.len(),
            RVal::List(v) => v.len(),
            RVal::TypeInstance(_) => 1,
        }
    }

    /// A copy.
    pub fn dup(&self) -> (r: RVal)
        ensures
            r.deep() == self.deep(),
        decreases self,
    {
        match self {
            RVal::Null => RVal::Null,
            RVal::Numeric(v, a) => RVal::Numeric(dup_copies(v), a.dup()),
            RVal::Integer(v, a) => RVal::Integer(dup_copies(v), a.dup()),
            RVal::Logical(v, a) => RVal::Logical(dup_copies(v), a.dup()),
            RVal::Character(v, a) => RVal::Character(dup_opt_strings(v), a.dup()),
            RVal::Factor(f) => RVal::Factor(
                Factor { codes: dup_copies(&f.codes), levels: dup_strings(&f.levels) },
            ),
            RVal::Matrix(m) => RVal::Matrix(m.dup()),
            RVal::DataFrame(d) => RVal::DataFrame(d.dup()),
            RVal::List(v) => {
                let mut out: Vec<(Option<String>, RVal)> = Vec::new();
                let n: usize = v.len();
                let mut i: usize = 0;
                while i < n
                    invariant
                        *self is List,
                        self->List_0@ == v@,
                        i <= n == v@.len(),
                        out@.len() == i,
                        forall|j: int|
                            0 <= j < i ==> opt_text((#[trigger] out@[j]).0) == opt_text(v@[j].0)
                                && out@[j].1.deep() == v@[j].1.deep(),
                    decreases n - i,
                {
                    let name = dup_opt_string(&v[i].0);
                    let item = v[i].1.dup();
                    out.push((name, item));
                    i += 1;
                }
                let r = RVal::List(out);
                assert(r.deep()->List_0 =~= self.deep()->List_0);
                r
            },
            RVal::TypeInstance(t) => RVal::TypeInstance(t.dup()),
        }
    }

    /// Name of the value's type.
    pub fn class_name(&self) -> (r: String)
        ensures
            r@ == class_name(self.deep()),
    {
        proof {
            reveal_with_fuel(RVal::deep, 2);
        }
        match self {
            RVal::Null => owned("NULL"),
            RVal::Numeric(_, _) => owned("numeric"),
            RVal::Integer(_, _) => owned("integer"),
            RVal::Logical(_, _) => owned("logical"),
            RVal::Character(_, _) => owned("character"),
            RVal::Factor(_) => owned("factor"),
            RVal::Matrix(_) => owned("matrix"),
            RVal::DataFrame(_) => owned("data.frame"),
            RVal::List(_) => owned("list"),
            RVal::TypeInstance(t) => owned(t.class_name.as_str()),
        }
    }

    /// The numbers in a numeric, integer or logical vector.
    pub fn as_reals(&self) -> (r: Result<Vec<Option<Real>>, R2Err>)
        ensures
            match reals(self.deep()) {
                Some(s) => r is Ok && r->Ok_0@ == s,
                None => r is Err && r->Err_0.kind == ErrKind::Type && r->Err_0.msg@
                    == "cannot coerce to numeric"@,
            },
    {
        proof {
            reveal_with_fuel(RVal::deep, 2);
        }
        match self {
            RVal::Numeric(v, _) => Ok(dup_copies(v)),
            RVal::Integer(v, _) => {
                let mut out: Vec<Option<Real>> = Vec::new();
                for i in 0..v.len()
                    invariant
                        *self is Integer,
                        self->Integer_0@ == v@,
                        out@ =~= reals(self.deep())->0.subrange(0, i as int),
                {
                    let x = match v[i] {
                        Some(n) => Some(Real::from_i32(n)),
                        None => None,
                    };
                    out.push(x);
                }
                assert(out@ =~= reals(self.deep())->0);
                Ok(out)
            },
            RVal::Logical(v, _) => {
                let mut out: Vec<Option<Real>> = Vec::new();
                for i in 0..v.len()
                    invariant
                        *self is Logical,
                        self->Logical_0@ == v@,
                        out@ =~= reals(self.deep())->0.subrange(0, i as int),
                {
                    let x = match v[i] {
                        Some(b) => Some(
                            if b {
                                Real { bits: ONE_BITS }
                            } else {
                                Real { bits: 0 }
                            },
                        ),
                        None => None,
                    };
                    out.push(x);
                }
                assert(out@ =~= reals(self.deep())->0);
                Ok(out)
            },
            _ => Err(fail(ErrKind::Type, "cannot coerce to numeric")),
        }
    }

    /// The truth values in a numeric, integer or logical vector.
    pub fn as_logicals(&self) -> (r: Result<Vec<Option<bool>>, R2Err>)
        ensures
            match logicals(self.deep()) {
                Some(s) => r is Ok && r->Ok_0@ == s,
                None => r is Err && r->Err_0.kind == ErrKind::Type && r->Err_0.msg@
                    == "cannot coerce to logical"@,
            },
    {
        proof {
            reveal_with_fuel(RVal::deep, 2);
        }
        match self {
            RVal::Logical(v, _) => Ok(dup_copies(v)),
            RVal::Integer(v, _) => {
                let mut out: Vec<Option<bool>> = Vec::new();
                for i in 0..v.len()
                    invariant
                        *self is Integer,
                        self->Integer_0@ == v@,
                        out@ =~= logicals(self.deep())->0.subrange(0, i as int),
                {
                    let x = match v[i] {
                        Some(n) => Some(n != 0),
                        None => None,
                    };
                    out.push(x);
                }
                assert(out@ =~= logicals(self.deep())->0);
                Ok(out)
            },
            RVal::Numeric(v, _) => {
                let zero: Real = Real { bits: 0 };
                let mut out: Vec<Option<bool>> = Vec::new();
                for i in 0..v.len()
                    invariant
                        zero == (Real { bits: 0 }),
                        *self is Numeric,
                        self->Numeric_0@ == v@,
                        out@ =~= logicals(self.deep())->0.subrange(0, i as int),
                {
                    let x = match v[i] {
                        Some(n) => Some(!n.eq_value(&zero)),
                        None => None,
                    };
                    out.push(x);
                }
                assert(out@ =~= logicals(self.deep())->0);
                Ok(out)
            },
            _ => Err(fail(ErrKind::Type, "cannot coerce to logical")),
        }
    }

    /// The first number of a vector, where it has one that is not missing.
    pub fn scalar_f64(&self) -> (r: Option<Real>)
        ensures
            r == scalar(self.deep()),
    {
        match self.as_reals() {
            Ok(v) => if v.len() > 0 {
                v[0]
            } else {
                None
            },
            Err(_) => None,
        }
    }
}

/// An error with a fixed message.
pub fn fail(kind: ErrKind, msg: &str) -> (r: R2Err)
    ensures
        r.kind == kind,
        r.msg@ == msg@,
{
    R2Err { msg: owned(msg), kind }
}

/// The numbers that are present, in order.
pub fn keep_present(v: &[Option<Real>]) -> (r: Vec<Real>)
    ensures
        r@ == present(v@),
{
    let mut out: Vec<Real> = Vec::new();
    let mut i: usize = 0;
    assert(v@.subrange(0, 0) =~= Seq::<Option<Real>>::empty());
    while i < v.len()
        invariant
            i <= v@.len(),
            out@ == present(v@.subrange(0, i as int)),
        decreases v@.len() - i,
    {
        assert(v@.subrange(0, i + 1).drop_last() =~= v@.subrange(0, i as int));
        if let Some(x) = v[i] {
            out.push(x);
        }
        i += 1;
    }
    assert(v@.subrange(0, v@.len() as int) =~= v@);
    out
}

/// A numeric vector with one number.
pub open spec fn num_val(x: Real) -> Val {
    Val::Numeric(seq![Some(x)], None)
}

/// A numeric vector without missing entries.
pub open spec fn nums_val(s: Seq<Real>) -> Val {
    Val::Numeric(Seq::new(s.len(), |i: int| Some(s[i])), None)
}

/// A character vector with one string.
pub open spec fn str_val(s: Seq<char>) -> Val {
    Val::Character(seq![Some(s)], None)
}

pub fn rnum(x: Real) -> (r: RVal)
    ensures
        r.deep() == num_val(x),
{
    let v: Vec<Option<Real>> = vec![Some(x)];
    let r = RVal::Numeric(v, no_attrs());
    assert(r.deep()->Numeric_0 =~= seq![Some(x)]);
    r
}

pub fn rnums(s: &Vec<Real>) -> (r: RVal)
    ensures
        r.deep() == nums_val(s@),
{
    let mut out: Vec<Option<Real>> = Vec::new();
    for i in 0..s.len()
        invariant
            out@.len() == i,
            forall|j: int| 0 <= j < i ==> out@[j] == Some(s@[j]),
    {
        out.push(Some(s[i]));
    }
    let r = RVal::Numeric(out, no_attrs());
    assert(r.deep()->Numeric_0 =~= nums_val(s@)->Numeric_0);
    r
}

pub fn rstr(s: &str) -> (r: RVal)
    ensures
        r.deep() == str_val(s@),
{
    let v: Vec<Option<String>> = vec![Some(owned(s))];
    let r = RVal::Character(v, no_attrs());
    assert(r.deep()->Character_0 =~= seq![Some(s@)]);
    r
}

/// Named fields by their names and contents.
pub open spec fn field_list(v: Seq<(String, RVal)>) -> Seq<(Seq<char>, Val)> {
    Seq::new(v.len(), |i: int| (v[i].0@, v[i].1.deep()))
}

/// Appends a named field.
pub fn put(fields: &mut Vec<(String, RVal)>, name: &str, value: RVal)
    ensures
        field_list(final(fields)@) == field_list(old(fields)@).push((name@, value.deep())),
{
    let ghost before = fields@;
    fields.push((owned(name), value));
    assert(field_list(fields@) =~= field_list(before).push((name@, value.deep())));
}

/// An object of the given class with the given fields.
pub fn instance(class: &str, fields: Vec<(String, RVal)>) -> (r: RVal)
    ensures
        r.deep() == Val::Instance(class@, field_list(fields@)),
{
    let t = TypeInstance { class_name: owned(class), fields };
    let r = RVal::TypeInstance(t);
    proof {
        reveal_with_fuel(RVal::deep, 2);
        reveal_with_fuel(TypeInstance::deep, 2);
        assert(t.deep()->Instance_1 =~= field_list(fields@));
    }
    r
}

// ── Arguments of a call ──────────────────────────────────────────────

/// The value of the `i`-th argument, `NULL` where there is none.
pub open spec fn nth(args: Seq<EvalArg>, i: int) -> Val {
    if 0 <= i < args.len() {
        args[i].value.deep()
    } else {
        Val::Null
    }
}

/// Position of the first argument with the given name.
pub open spec fn name_index(args: Seq<EvalArg>, name: Seq<char>) -> Option<int>
    decreases args.len(),
{
    if args.len() == 0 {
        None
    } else {
        match name_index(args.drop_last(), name) {
            Some(i) => Some(i),
            None => if opt_text(args.last().name) == Some(name) {
                Some(args.len() - 1)
            } else {
                None
            },
        }
    }
}

/// The value of the first argument with the given name.
pub open spec fn named(args: Seq<EvalArg>, name: Seq<char>) -> Option<Val> {
    match name_index(args, name) {
        Some(i) => Some(args[i].value.deep()),
        None => None,
    }
}

/// The value of the `i`-th argument.
pub fn nth_arg(args: &[EvalArg], i: usize) -> (r: RVal)
    ensures
        r.deep() == nth(args@, i as int),
{
    if i < args.len() {
        args[i].value.dup()
    } else {
        RVal::Null
    }
}

/// The value of the first argument with the given name.
pub fn arg_named<'a>(args: &'a [EvalArg], name: &str) -> (r: Option<&'a RVal>)
    ensures
        r is Some == named(args@, name@) is Some,
        r matches Some(v) ==> v.deep() == named(args@, name@)->0,
{
    let mut at: Option<usize> = None;
    let mut i: usize = 0;
    assert(args@.subrange(0, 0) =~= Seq::<EvalArg>::empty());
    while i < args.len()
        invariant
            i <= args@.len(),
            match at {
                Some(k) => name_index(args@.subrange(0, i as int), name@) == Some(k as int) && k
                    < args@.len(),
                None => name_index(args@.subrange(0, i as int), name@) is None,
            },
        decreases args@.len() - i,
    {
        assert(args@.subrange(0, i + 1).drop_last() =~= args@.subrange(0, i as int));
        if at.is_none() && is_text(&args[i].name, name) {
            at = Some(i);
        }
        i += 1;
    }
    assert(args@.subrange(0, i as int) =~= args@);
    match at {
        Some(k) => Some(&args[k].value),
        None => None,
    }
}

/// A number given by name, as a count; `default` where it is not given.
pub open spec fn count_named(args: Seq<EvalArg>, name: Seq<char>, default: usize) -> usize {
    match named(args, name) {
        Some(v) => match scalar(v) {
            Some(x) => x.as_count(),
            None => default,
        },
        None => default,
    }
}

/// A number given by name, as a count; `default` where it is not given.
pub fn arg_count(args: &[EvalArg], name: &str, default: usize) -> (r: usize)
    ensures
        r == count_named(args@, name@, default),
{
    match arg_named(args, name) {
        Some(v) => match v.scalar_f64() {
            Some(x) => x.to_usize(),
            None => default,
        },
        None => default,
    }
}

} // verus!
