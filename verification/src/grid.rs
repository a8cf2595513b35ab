//! Sums and tables of computed entries.
//!
//! Tables are stored column by column: entry `(i, j)` of a table with `nrow`
//! rows is element `j * nrow + i`.
use crate::double::{FloatOp, Fpu, Real, nat_real};
use crate::kernel_par::{ScanOp, folded, scan_combine, scan_identity};
use vstd::arithmetic::div_mod::{lemma_fundamental_div_mod, lemma_fundamental_div_mod_converse};
use vstd::prelude::*;

verus! {

/// The sum from the left, starting with zero.
pub open spec fn total<F: Fn(FloatOp, Real, Real, Real) -> Real>(fpu: &Fpu<F>, s: Seq<Real>) -> Real {
    folded(fpu, ScanOp::Cumsum, s)
}

/// The mean: the sum over the number of terms.
pub open spec fn mean<F: Fn(FloatOp, Real, Real, Real) -> Real>(fpu: &Fpu<F>, s: Seq<Real>) -> Real {
    fpu.over(total(fpu, s), nat_real(s.len()))
}

/// `g` computes the entries of `s`.
pub open spec fn computes<G: Fn(usize) -> Real>(g: G, s: Seq<Real>) -> bool {
    &&& forall|i: usize| i < s.len() ==> #[trigger] call_requires(g, (i,))
    &&& forall|i: usize, x: Real| i < s.len() && #[trigger] call_ensures(g, (i,), x) ==> x == s[i as int]
}

/// Sum of computed terms.
pub(crate) fn sum_of<F: Fn(FloatOp, Real, Real, Real) -> Real, G: Fn(usize) -> Real>(
    fpu: &Fpu<F>,
    n: usize,
    g: &G,
    Ghost(s): Ghost<Seq<Real>>,
) -> (r: Real)
    requires
        fpu.wf(),
        s.len() == n,
        computes(*g, s),
    ensures
        r == total(fpu, s),
{
    let mut acc: Real = scan_identity(ScanOp::Cumsum);
    let mut i: usize = 0;
    assert(s.take(0) =~= Seq::<Real>::empty());
    while i < n
        invariant
            fpu.wf(),
            i <= n,
            s.len() == n,
            computes(*g, s),
            acc == total(fpu, s.take(i as int)),
        decreases n - i,
    {
        let x: Real = g(i);
        assert(s.take(i + 1).drop_last() =~= s.take(i as int));
        acc = scan_combine(fpu, ScanOp::Cumsum, acc, x);
        i += 1;
    }
    assert(s.take(n as int) =~= s);
    acc
}

/// Sum of a slice.
pub fn sum_reals<F: Fn(FloatOp, Real, Real, Real) -> Real>(fpu: &Fpu<F>, v: &[Real]) -> (r: Real)
    requires
        fpu.wf(),
    ensures
        r == total(fpu, v@),
{
    crate::kernel_par::fold_slice(fpu, ScanOp::Cumsum, v)
}

/// A list of computed entries.
pub(crate) fn list_of<G: Fn(usize) -> Real>(n: usize, g: &G, Ghost(s): Ghost<Seq<Real>>) -> (r: Vec<Real>)
    requires
        s.len() == n,
        computes(*g, s),
    ensures
        r@ == s,
{
    let mut out: Vec<Real> = Vec::new();
    let mut i: usize = 0;
    while i < n
        invariant
            i <= n,
            s.len() == n,
            computes(*g, s),
            out@ == s.take(i as int),
        decreases n - i,
    {
        let x: Real = g(i);
        out.push(x);
        assert(out@ =~= s.take(i + 1));
        i += 1;
    }
    assert(s.take(n as int) =~= s);
    out
}

/// A table whose entry `(i, j)` is `f(i, j)`.
pub open spec fn table(nrow: nat, ncol: nat, f: spec_fn(int, int) -> Real) -> Seq<Real> {
    Seq::new(nrow * ncol, |x: int| f(x % (nrow as int), x / (nrow as int)))
}

/// Entry `(i, j)` of a table with `nrow` rows.
pub open spec fn entry(s: Seq<Real>, nrow: int, i: int, j: int) -> Real {
    s[j * nrow + i]
}

pub proof fn lemma_entry(nrow: nat, ncol: nat, f: spec_fn(int, int) -> Real, i: int, j: int)
    requires
        0 <= i < nrow,
        0 <= j < ncol,
    ensures
        0 <= j * nrow + i < nrow * ncol,
        entry(table(nrow, ncol, f), nrow as int, i, j) == f(i, j),
{
    crate::value::lemma_cell(i, j, nrow as int, ncol as int);
    lemma_fundamental_div_mod_converse(j * nrow + i, nrow as int, j, i);
}

/// Every element of a table has a row and a column.
pub proof fn lemma_split(nrow: int, ncol: int, x: int)
    requires
        nrow >= 0,
        0 <= x < nrow * ncol,
    ensures
        nrow > 0,
        0 <= x % nrow < nrow,
        0 <= x / nrow < ncol,
        x == (x / nrow) * nrow + x % nrow,
{
    assert(nrow != 0) by (nonlinear_arith)
        requires
            0 <= x < nrow * ncol,
    ;
    lemma_fundamental_div_mod(x, nrow);
    assert(0 <= x / nrow < ncol) by (nonlinear_arith)
        requires
            0 <= x < nrow * ncol,
            nrow > 0,
    ;
    assert((x / nrow) * nrow == nrow * (x / nrow)) by (nonlinear_arith);
}

/// `g` computes the entries of a table.
pub open spec fn fills<G: Fn(usize, usize) -> Real>(
    g: G,
    nrow: nat,
    ncol: nat,
    f: spec_fn(int, int) -> Real,
) -> bool {
    &&& forall|i: usize, j: usize| i < nrow && j < ncol ==> #[trigger] call_requires(g, (i, j))
    &&& forall|i: usize, j: usize, x: Real|
        i < nrow && j < ncol && #[trigger] call_ensures(g, (i, j), x) ==> x == f(i as int, j as int)
}

/// A table of computed entries.
pub(crate) fn table_of<G: Fn(usize, usize) -> Real>(
    nrow: usize,
    ncol: usize,
    g: &G,
    Ghost(f): Ghost<spec_fn(int, int) -> Real>,
) -> (r: Vec<Real>)
    requires
        nrow * ncol <= usize::MAX,
        fills(*g, nrow as nat, ncol as nat, f),
    ensures
        r@ == table(nrow as nat, ncol as nat, f),
        r@.len() == nrow * ncol,
{
    let n: usize = nrow * ncol;
    let ghost t = table(nrow as nat, ncol as nat, f);
    let mut out: Vec<Real> = Vec::new();
    let mut x: usize = 0;
    while x < n
        invariant
            x <= n,
            n == nrow * ncol,
            fills(*g, nrow as nat, ncol as nat, f),
            t == table(nrow as nat, ncol as nat, f),
            out@ == t.take(x as int),
        decreases n - x,
    {
        proof {
            lemma_split(nrow as int, ncol as int, x as int);
        }
        let v: Real = g(x % nrow, x / nrow);
        out.push(v);
        assert(out@ =~= t.take(x + 1));
        x += 1;
    }
    assert(t.take(n as int) =~= t);
    out
}

} // verus!
