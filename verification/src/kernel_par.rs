//! Work handed to the thread pool.
//!
//! The pool may bracket a reduction as it likes. A [`Tree`] describes one such
//! bracketing; what is proved of a parallel reduction holds for every tree.
use crate::double::{FloatOp, Fpu, Real, INF, NEG_INF, ONE_BITS, one, zero};
use rayon::iter::{IntoParallelIterator, ParallelIterator};
use rayon::slice::ParallelSliceMut;
use vstd::prelude::*;

verus! {

/// A running total: what is added up, multiplied, or kept.
#[derive(Clone, Copy, PartialEq, Eq, Structural, Debug)]
pub enum ScanOp {
    Cumsum,
    Cumprod,
    Cummax,
    Cummin,
}

/// The total of nothing.
pub open spec fn identity(op: ScanOp) -> Real {
    match op {
        ScanOp::Cumsum => zero(),
        ScanOp::Cumprod => one(),
        ScanOp::Cummax => Real { bits: NEG_INF },
        ScanOp::Cummin => Real { bits: INF },
    }
}

/// One step of a running total.
pub open spec fn combined<F: Fn(FloatOp, Real, Real, Real) -> Real>(
    fpu: &Fpu<F>,
    op: ScanOp,
    acc: Real,
    v: Real,
) -> Real {
    match op {
        ScanOp::Cumsum => fpu.plus(acc, v),
        ScanOp::Cumprod => fpu.times(acc, v),
        ScanOp::Cummax => acc.greatest(v),
        ScanOp::Cummin => acc.least(v),
    }
}

/// The total of a sequence from the left, starting with `init`.
pub open spec fn folded_from<F: Fn(FloatOp, Real, Real, Real) -> Real>(
    fpu: &Fpu<F>,
    op: ScanOp,
    init: Real,
    s: Seq<Real>,
) -> Real
    decreases s.len(),
{
    if s.len() == 0 {
        init
    } else {
        combined(fpu, op, folded_from(fpu, op, init, s.drop_last()), s.last())
    }
}

/// The total of a sequence from the left.
pub open spec fn folded<F: Fn(FloatOp, Real, Real, Real) -> Real>(
    fpu: &Fpu<F>,
    op: ScanOp,
    s: Seq<Real>,
) -> Real {
    folded_from(fpu, op, identity(op), s)
}

/// A way to bracket a reduction: leaves are positions, and the identity may be
/// put in anywhere.
pub enum Tree {
    Unit,
    Leaf(nat),
    Join(Box<Tree>, Box<Tree>),
}

impl Tree {
    /// The positions from left to right.
    pub open spec fn leaves(self) -> Seq<nat>
        decreases self,
    {
        match self {
            Tree::Unit => Seq::<nat>::empty(),
            Tree::Leaf(i) => seq![i],
            Tree::Join(a, b) => a.leaves() + b.leaves(),
        }
    }

    /// The total of `s` as this tree brackets it.
    pub open spec fn total<F: Fn(FloatOp, Real, Real, Real) -> Real>(
        self,
        fpu: &Fpu<F>,
        op: ScanOp,
        s: Seq<Real>,
    ) -> Real
        decreases self,
    {
        match self {
            Tree::Unit => identity(op),
            Tree::Leaf(i) => s[i as int],
            Tree::Join(a, b) => combined(fpu, op, a.total(fpu, op, s), b.total(fpu, op, s)),
        }
    }
}

/// The numbers below `n` in order.
pub open spec fn upto(n: nat) -> Seq<nat> {
    Seq::new(n, |i: int| i as nat)
}

/// `v` is the total of `s` under some bracketing.
pub open spec fn bracketed<F: Fn(FloatOp, Real, Real, Real) -> Real>(
    fpu: &Fpu<F>,
    op: ScanOp,
    s: Seq<Real>,
    v: Real,
) -> bool {
    exists|t: Tree| #[trigger] t.leaves() == upto(s.len()) && v == t.total(fpu, op, s)
}

/// `r` can come out of combining the results of `f` by `g` as the tree says.
pub open spec fn gives<M: Fn(usize) -> Real, G: Fn(Real, Real) -> Real>(
    t: Tree,
    f: M,
    unit: Real,
    g: G,
    r: Real,
) -> bool
    decreases t,
{
    match t {
        Tree::Unit => r == unit,
        Tree::Leaf(i) => call_ensures(f, (i as usize,), r),
        Tree::Join(a, b) => exists|x: Real, y: Real|
            #![trigger call_ensures(g, (x, y), r)]
            gives(*a, f, unit, g, x) && gives(*b, f, unit, g, y) && call_ensures(g, (x, y), r),
    }
}

/// `r` can come out of combining the results of `f` for the numbers below `n`
/// in their order, however bracketed.
pub open spec fn reduces_to<M: Fn(usize) -> Real, G: Fn(Real, Real) -> Real>(
    n: nat,
    f: M,
    unit: Real,
    g: G,
    r: Real,
) -> bool {
    exists|t: Tree| #[trigger] t.leaves() == upto(n) && gives(t, f, unit, g, r)
}

/// `f` of each number below `n`, computed on the thread pool by rayon's
/// `into_par_iter().map(f).collect()`: the results stand in the order of the
/// numbers.
#[verifier::external_body]
pub(crate) fn par_for_rayon<T: Send, M: Fn(usize) -> T + Send + Sync>(n: usize, f: M) -> (r: Vec<T>)
    requires
        forall|i: usize| i < n ==> #[trigger] call_requires(f, (i,)),
    ensures
        r@.len() == n,
        forall|i: int| 0 <= i < n ==> call_ensures(f, (i as usize,), #[trigger] r@[i]),
{
    (0..n).into_par_iter().map(f).collect()
}

/// Reduction on the thread pool by rayon's `map(f).reduce(|| unit, g)`: each
/// piece of the range is folded from the left, starting with the unit, and the
/// totals of neighbouring pieces are combined. How the range is cut is not
/// said, so the result is that of some bracketing that keeps the order.
#[verifier::external_body]
pub(crate) fn par_reduce<M: Fn(usize) -> Real + Send + Sync, G: Fn(Real, Real) -> Real + Send + Sync>(
    n: usize,
    f: M,
    unit: Real,
    g: G,
) -> (r: Real)
    requires
        forall|i: usize| i < n ==> #[trigger] call_requires(f, (i,)),
        forall|x: Real, y: Real| #[trigger] call_requires(g, (x, y)),
    ensures
        reduces_to(n as nat, f, unit, g, r),
{
    (0..n).into_par_iter().map(f).reduce(|| unit, g)
}

/// Whether `f` holds of some number below `n`, asked on the thread pool by
/// rayon's `any`.
#[verifier::external_body]
pub(crate) fn par_any<M: Fn(usize) -> bool + Send + Sync>(n: usize, f: M) -> (r: bool)
    requires
        forall|i: usize| i < n ==> #[trigger] call_requires(f, (i,)),
    ensures
        r ==> exists|i: usize| i < n && #[trigger] call_ensures(f, (i,), true),
        !r ==> forall|i: usize| i < n ==> #[trigger] call_ensures(f, (i,), false),
{
    (0..n).into_par_iter().any(f)
}

/// Pairs in ascending order, by the first number and then by the second.
pub open spec fn pairs_ascend(s: Seq<(i64, usize)>) -> bool {
    forall|i: int, j: int|
        0 <= i < j < s.len() ==> {
            let a = #[trigger] s[i];
            let b = #[trigger] s[j];
            a.0 < b.0 || (a.0 == b.0 && a.1 <= b.1)
        }
}

/// Sorts pairs of integers on the thread pool by rayon's `par_sort`: the same
/// pairs, in ascending order.
#[verifier::external_body]
pub(crate) fn par_sort_pairs(v: &mut Vec<(i64, usize)>)
    ensures
        final(v)@.to_multiset() == old(v)@.to_multiset(),
        final(v)@.len() == old(v)@.len(),
        pairs_ascend(final(v)@),
{
    v.par_sort();
}

/// The total of nothing.
pub fn scan_identity(op: ScanOp) -> (r: Real)
    ensures
        r == identity(op),
{
    match op {
        ScanOp::Cumsum => Real { bits: 0 },
        ScanOp::Cumprod => Real { bits: ONE_BITS },
        ScanOp::Cummax => Real { bits: NEG_INF },
        ScanOp::Cummin => Real { bits: INF },
    }
}

/// One step of a running total.
pub fn scan_combine<F: Fn(FloatOp, Real, Real, Real) -> Real>(
    fpu: &Fpu<F>,
    op: ScanOp,
    acc: Real,
    v: Real,
) -> (r: Real)
    requires
        fpu.wf(),
    ensures
        r == combined(fpu, op, acc, v),
{
    match op {
        ScanOp::Cumsum => fpu.apply(FloatOp::Plus, acc, v),
        ScanOp::Cumprod => fpu.apply(FloatOp::Times, acc, v),
        ScanOp::Cummax => acc.max_value(v),
        ScanOp::Cummin => acc.min_value(v),
    }
}

/// Total of a slice from the left.
pub fn fold_slice<F: Fn(FloatOp, Real, Real, Real) -> Real>(
    fpu: &Fpu<F>,
    op: ScanOp,
    v: &[Real],
) -> (r: Real)
    requires
        fpu.wf(),
    ensures
        r == folded(fpu, op, v@),
{
    let mut acc: Real = scan_identity(op);
    let mut i: usize = 0;
    while i < v.len()
        invariant
            i <= v.len(),
            fpu.wf(),
            acc == folded(fpu, op, v@.take(i as int)),
        decreases v.len() - i,
    {
        assert(v@.take(i + 1).drop_last() =~= v@.take(i as int));
        acc = scan_combine(fpu, op, acc, v[i]);
        i += 1;
    }
    assert(v@.take(i as int) =~= v@);
    acc
}

/// Total of a slice, computed on the thread pool.
pub fn par_fold_slice<F: Fn(FloatOp, Real, Real, Real) -> Real + Sync>(
    fpu: &Fpu<F>,
    op: ScanOp,
    v: &[Real],
) -> (r: Real)
    requires
        fpu.wf(),
    ensures
        bracketed(fpu, op, v@, r),
{
    let n: usize = v.len();
    let unit: Real = scan_identity(op);
    let f = |i: usize| -> (x: Real)
        requires
            i < v@.len(),
        ensures
            x == v@[i as int],
        { v[i] };
    let g = |x: Real, y: Real| -> (z: Real)
        requires
            fpu.wf(),
        ensures
            z == combined(fpu, op, x, y),
        { scan_combine(fpu, op, x, y) };
    let r: Real = par_reduce(n, f, unit, g);
    proof {
        let t = choose|t: Tree| #[trigger] t.leaves() == upto(n as nat) && gives(t, f, unit, g, r);
        assert forall|k: int| 0 <= k < t.leaves().len() implies #[trigger] t.leaves()[k] < n by {}
        lemma_gives(fpu, op, v@, f, g, t, r);
    }
    r
}

proof fn lemma_gives<
    F: Fn(FloatOp, Real, Real, Real) -> Real,
    M: Fn(usize) -> Real,
    G: Fn(Real, Real) -> Real,
>(fpu: &Fpu<F>, op: ScanOp, s: Seq<Real>, f: M, g: G, t: Tree, r: Real)
    requires
        s.len() <= usize::MAX,
        forall|k: int| 0 <= k < t.leaves().len() ==> #[trigger] t.leaves()[k] < s.len(),
        forall|i: usize, x: Real| i < s.len() && #[trigger] call_ensures(f, (i,), x) ==> x == s[i as int],
        forall|x: Real, y: Real, z: Real| #[trigger] call_ensures(g, (x, y), z) ==> z == combined(fpu, op, x, y),
        gives(t, f, identity(op), g, r),
    ensures
        r == t.total(fpu, op, s),
    decreases t,
{
    match t {
        Tree::Unit => {},
        Tree::Leaf(i) => {
            assert(t.leaves()[0] == i);
            assert(call_ensures(f, (i as usize,), r));
        },
        Tree::Join(a, b) => {
            let (x, y) = choose|x: Real, y: Real|
                #![trigger call_ensures(g, (x, y), r)]
                gives(*a, f, identity(op), g, x) && gives(*b, f, identity(op), g, y)
                    && call_ensures(g, (x, y), r);
            assert forall|k: int| 0 <= k < a.leaves().len() implies #[trigger] a.leaves()[k] < s.len() by {
                assert(t.leaves()[k] == a.leaves()[k]);
            }
            assert forall|k: int| 0 <= k < b.leaves().len() implies #[trigger] b.leaves()[k] < s.len() by {
                assert(t.leaves()[a.leaves().len() + k] == b.leaves()[k]);
            }
            lemma_gives(fpu, op, s, f, g, *a, x);
            lemma_gives(fpu, op, s, f, g, *b, y);
        },
    }
}

/// The left fold is one of the bracketings.
pub proof fn law_fold_bracketed<F: Fn(FloatOp, Real, Real, Real) -> Real>(
    fpu: &Fpu<F>,
    op: ScanOp,
    s: Seq<Real>,
)
    ensures
        bracketed(fpu, op, s, folded(fpu, op, s)),
{
    lemma_left_tree(fpu, op, s, s.len());
    assert(s.take(s.len() as int) =~= s);
}

spec fn left_tree(n: nat) -> Tree
    decreases n,
{
    if n == 0 {
        Tree::Unit
    } else {
        Tree::Join(Box::new(left_tree((n - 1) as nat)), Box::new(Tree::Leaf((n - 1) as nat)))
    }
}

proof fn lemma_left_tree<F: Fn(FloatOp, Real, Real, Real) -> Real>(
    fpu: &Fpu<F>,
    op: ScanOp,
    s: Seq<Real>,
    n: nat,
)
    requires
        n <= s.len(),
    ensures
        left_tree(n).leaves() == upto(n),
        left_tree(n).total(fpu, op, s) == folded(fpu, op, s.take(n as int)),
    decreases n,
{
    if n > 0 {
        lemma_left_tree(fpu, op, s, (n - 1) as nat);
        assert(s.take(n as int).drop_last() =~= s.take(n - 1));
        reveal_with_fuel(Tree::total, 2);
        reveal_with_fuel(Tree::leaves, 2);
        assert(upto((n - 1) as nat) + seq![(n - 1) as nat] =~= upto(n));
        assert(left_tree(n).leaves() =~= upto(n));
    } else {
        assert(left_tree(n).leaves() =~= upto(n));
    }
}

/// On the values of `dom` the step is associative, stays inside and has the
/// total of nothing as its unit.
pub open spec fn monoid<F: Fn(FloatOp, Real, Real, Real) -> Real>(
    fpu: &Fpu<F>,
    op: ScanOp,
    dom: spec_fn(Real) -> bool,
) -> bool {
    &&& dom(identity(op))
    &&& forall|a: Real, b: Real| dom(a) && dom(b) ==> dom(#[trigger] combined(fpu, op, a, b))
    &&& forall|a: Real| #[trigger] dom(a) ==> combined(fpu, op, identity(op), a) == a
        && combined(fpu, op, a, identity(op)) == a
    &&& forall|a: Real, b: Real, c: Real|
        dom(a) && dom(b) && dom(c) ==> #[trigger] combined(fpu, op, combined(fpu, op, a, b), c)
            == combined(fpu, op, a, combined(fpu, op, b, c))
}

pub open spec fn all_in(dom: spec_fn(Real) -> bool, s: Seq<Real>) -> bool {
    forall|i: int| 0 <= i < s.len() ==> dom(#[trigger] s[i])
}

/// Where the step is associative, every bracketing gives the total from the
/// left: a parallel reduction and a serial one agree.
pub proof fn law_brackets_agree<F: Fn(FloatOp, Real, Real, Real) -> Real>(
    fpu: &Fpu<F>,
    op: ScanOp,
    dom: spec_fn(Real) -> bool,
    s: Seq<Real>,
    v: Real,
)
    requires
        monoid(fpu, op, dom),
        all_in(dom, s),
        bracketed(fpu, op, s, v),
    ensures
        v == folded(fpu, op, s),
{
    let t = choose|t: Tree| #[trigger] t.leaves() == upto(s.len()) && v == t.total(fpu, op, s);
    assert forall|k: int| 0 <= k < t.leaves().len() implies #[trigger] t.leaves()[k] < s.len() by {}
    lemma_total_folded(fpu, op, dom, s, t);
    assert(picked(t.leaves(), s) =~= s);
}

spec fn picked(p: Seq<nat>, s: Seq<Real>) -> Seq<Real> {
    Seq::new(p.len(), |i: int| s[p[i] as int])
}

proof fn lemma_total_folded<F: Fn(FloatOp, Real, Real, Real) -> Real>(
    fpu: &Fpu<F>,
    op: ScanOp,
    dom: spec_fn(Real) -> bool,
    s: Seq<Real>,
    t: Tree,
)
    requires
        monoid(fpu, op, dom),
        all_in(dom, s),
        forall|k: int| 0 <= k < t.leaves().len() ==> #[trigger] t.leaves()[k] < s.len(),
    ensures
        t.total(fpu, op, s) == folded(fpu, op, picked(t.leaves(), s)),
        dom(t.total(fpu, op, s)),
    decreases t,
{
    match t {
        Tree::Unit => {},
        Tree::Leaf(i) => {
            assert(t.leaves()[0] == i);
            let p = picked(t.leaves(), s);
            assert(p.len() == 1 && p[0] == s[i as int]);
            assert(p.drop_last() =~= Seq::<Real>::empty());
            reveal_with_fuel(folded_from, 2);
        },
        Tree::Join(a, b) => {
            assert forall|k: int| 0 <= k < a.leaves().len() implies #[trigger] a.leaves()[k] < s.len() by {
                assert(t.leaves()[k] == a.leaves()[k]);
            }
            assert forall|k: int| 0 <= k < b.leaves().len() implies #[trigger] b.leaves()[k] < s.len() by {
                assert(t.leaves()[a.leaves().len() + k] == b.leaves()[k]);
            }
            lemma_total_folded(fpu, op, dom, s, *a);
            lemma_total_folded(fpu, op, dom, s, *b);
            let pa = picked(a.leaves(), s);
            let pb = picked(b.leaves(), s);
            lemma_folded_joins(fpu, op, dom, pa, pb);
            assert(pa + pb =~= picked(t.leaves(), s));
        },
    }
}

/// The total of two sequences in a row is that of their totals.
pub proof fn lemma_folded_joins<F: Fn(FloatOp, Real, Real, Real) -> Real>(
    fpu: &Fpu<F>,
    op: ScanOp,
    dom: spec_fn(Real) -> bool,
    a: Seq<Real>,
    b: Seq<Real>,
)
    requires
        monoid(fpu, op, dom),
        all_in(dom, a),
        all_in(dom, b),
    ensures
        folded(fpu, op, a + b) == combined(fpu, op, folded(fpu, op, a), folded(fpu, op, b)),
        dom(folded(fpu, op, a)),
        dom(folded(fpu, op, b)),
    decreases b.len(),
{
    lemma_folded_in(fpu, op, dom, a);
    lemma_folded_in(fpu, op, dom, b);
    if b.len() == 0 {
        assert(a + b =~= a);
    } else {
        lemma_folded_joins(fpu, op, dom, a, b.drop_last());
        assert((a + b).drop_last() =~= a + b.drop_last());
        assert(dom(b.last()));
    }
}

proof fn lemma_folded_in<F: Fn(FloatOp, Real, Real, Real) -> Real>(
    fpu: &Fpu<F>,
    op: ScanOp,
    dom: spec_fn(Real) -> bool,
    s: Seq<Real>,
)
    requires
        monoid(fpu, op, dom),
        all_in(dom, s),
    ensures
        dom(folded(fpu, op, s)),
    decreases s.len(),
{
    if s.len() > 0 {
        lemma_folded_in(fpu, op, dom, s.drop_last());
        assert(dom(s.last()));
    }
}

/// The largest and the smallest of numbers without a NaN do not depend on the
/// bracketing.
pub proof fn law_extremes_associate<F: Fn(FloatOp, Real, Real, Real) -> Real>(fpu: &Fpu<F>, op: ScanOp)
    requires
        op == ScanOp::Cummax || op == ScanOp::Cummin,
    ensures
        monoid(fpu, op, |x: Real| !x.nan()),
{
}

} // verus!
