//! Regression and classification trees as the fits of this crate use them: how
//! rows are drawn for a tree, what a tree predicts, and how trees are listed
//! node by node.
//!
//! Growing a tree, following it down and listing its nodes are functions that
//! the caller supplies.
use crate::double::{FloatOp, Fpu, ONE_BITS, Real, one, rounded, zero};
use crate::grid::computes;
use crate::kernel::Backend;
use crate::kernel_map::par_for;
use crate::text::{opt_text, opt_texts, owned, texts};
use crate::value::{Attrs, Matrix, RVal, Val, dup_strings, field_list, no_attrs, nums_val, put, rnums};
use vstd::prelude::*;

verus! {

/// How far a tree is grown.
#[derive(Clone, Copy, PartialEq, Eq, Structural, Debug)]
pub struct TreeLimits {
    pub max_depth: usize,
    pub min_samples: usize,
    pub classify: bool,
}

/// A node as it is listed.
#[derive(Clone, Copy, PartialEq, Eq, Structural, Debug)]
pub struct Node {
    pub feature: usize,
    pub threshold: Real,
    pub value: Real,
    pub leaf: bool,
    pub left: usize,
    pub right: usize,
}

/// The caller's functions on trees: `build` grows one from the columns, the
/// response, the numbers of rows and columns, the rows to use and the limits;
/// `predict` follows one down for a row; `list` gives its nodes as they stand
/// in a listing that holds so many nodes already.
pub struct Kit<B, P, L> {
    pub build: B,
    pub predict: P,
    pub list: L,
}

/// The functions of a kit can be called where they are called here, and
/// `predict` and `list` give the same for the same tree and numbers.
pub open spec fn kit_ready<
    T,
    B: Fn(&Vec<Real>, &Vec<Real>, usize, usize, &Vec<bool>, TreeLimits) -> T,
    P: Fn(&T, &Vec<Real>, usize, usize) -> Real,
    L: Fn(&T, usize) -> Vec<Node>,
>(k: &Kit<B, P, L>) -> bool {
    &&& forall|x: &Vec<Real>, y: &Vec<Real>, m: usize, n: usize, rows: &Vec<bool>, l: TreeLimits|
        x@.len() == m * n && y@.len() >= m && rows@.len() == m ==> #[trigger] call_requires(
            k.build,
            (x, y, m, n, rows, l),
        )
    &&& forall|t: &T, x: &Vec<Real>, m: usize, i: usize|
        i < m ==> #[trigger] call_requires(k.predict, (t, x, m, i))
    &&& forall|t: &T, x: &Vec<Real>, z: &Vec<Real>, m: usize, i: usize, r: Real, q: Real|
        x@ == z@ && #[trigger] call_ensures(k.predict, (t, x, m, i), r) && #[trigger] call_ensures(
            k.predict,
            (t, z, m, i),
            q,
        ) ==> r == q
    &&& forall|t: &T, b: usize| #[trigger] call_requires(k.list, (t, b))
    &&& forall|t: &T, b: usize, r: Vec<Node>, q: Vec<Node>| #[trigger]
        call_ensures(k.list, (t, b), r) && #[trigger] call_ensures(k.list, (t, b), q) ==> r@ == q@
}

/// What a tree predicts for row `i` of columns of `m` numbers.
pub open spec fn predicted<T, B, P: Fn(&T, &Vec<Real>, usize, usize) -> Real, L>(
    k: &Kit<B, P, L>,
    t: &T,
    x: Seq<Real>,
    m: usize,
    i: int,
) -> Real {
    choose|r: Real| predicts(k, t, x, m, i, r)
}

/// `r` is a prediction for row `i`.
pub open spec fn predicts<T, B, P: Fn(&T, &Vec<Real>, usize, usize) -> Real, L>(
    k: &Kit<B, P, L>,
    t: &T,
    x: Seq<Real>,
    m: usize,
    i: int,
    r: Real,
) -> bool {
    exists|v: &Vec<Real>| v@ == x && #[trigger] call_ensures(k.predict, (t, v, m, i as usize), r)
}

/// The nodes of a tree in a listing that holds `base` nodes already.
pub open spec fn listing<T, B, P, L: Fn(&T, usize) -> Vec<Node>>(k: &Kit<B, P, L>, t: &T, base: nat) -> Seq<Node> {
    choose|s: Seq<Node>| lists_as(k, t, base, s)
}

pub open spec fn lists_as<T, B, P, L: Fn(&T, usize) -> Vec<Node>>(
    k: &Kit<B, P, L>,
    t: &T,
    base: nat,
    s: Seq<Node>,
) -> bool {
    exists|v: Vec<Node>| #[trigger] call_ensures(k.list, (t, base as usize), v) && v@ == s
}

/// The tree was grown from these columns, this response and these rows.
pub open spec fn built<T, B: Fn(&Vec<Real>, &Vec<Real>, usize, usize, &Vec<bool>, TreeLimits) -> T, P, L>(
    k: &Kit<B, P, L>,
    m: &Matrix,
    y: Seq<Real>,
    rows: Seq<bool>,
    l: TreeLimits,
    t: T,
) -> bool {
    exists|v: &Vec<Real>, w: &Vec<bool>|
        v@ == y && w@ == rows && #[trigger] call_ensures(k.build, (&m.data, v, m.nrow, m.ncol, w, l), t)
}

/// One prediction.
pub fn predict_row<
    T,
    B: Fn(&Vec<Real>, &Vec<Real>, usize, usize, &Vec<bool>, TreeLimits) -> T,
    P: Fn(&T, &Vec<Real>, usize, usize) -> Real,
    L: Fn(&T, usize) -> Vec<Node>,
>(k: &Kit<B, P, L>, t: &T, x: &Vec<Real>, m: usize, i: usize) -> (r: Real)
    requires
        kit_ready(k),
        i < m,
    ensures
        r == predicted(k, t, x@, m, i as int),
{
    let r: Real = (k.predict)(t, x, m, i);
    proof {
        assert(predicts(k, t, x@, m, i as int, r));
        let q = predicted(k, t, x@, m, i as int);
        assert(predicts(k, t, x@, m, i as int, q));
    }
    r
}

/// The predictions of a tree for each row.
pub open spec fn predictions<T, B, P: Fn(&T, &Vec<Real>, usize, usize) -> Real, L>(
    k: &Kit<B, P, L>,
    t: &T,
    x: Seq<Real>,
    m: usize,
) -> Seq<Real> {
    Seq::new(m as nat, |i: int| predicted(k, t, x, m, i))
}

/// The predictions of a tree for each row.
pub fn predict_rows<
    T,
    B: Fn(&Vec<Real>, &Vec<Real>, usize, usize, &Vec<bool>, TreeLimits) -> T,
    P: Fn(&T, &Vec<Real>, usize, usize) -> Real,
    L: Fn(&T, usize) -> Vec<Node>,
>(k: &Kit<B, P, L>, t: &T, x: &Vec<Real>, m: usize) -> (r: Vec<Real>)
    requires
        kit_ready(k),
    ensures
        r@ == predictions(k, t, x@, m),
{
    let ghost want = predictions(k, t, x@, m);
    let mut out: Vec<Real> = Vec::new();
    let mut i: usize = 0;
    while i < m
        invariant
            kit_ready(k),
            i <= m,
            want == predictions(k, t, x@, m),
            out@ == want.take(i as int),
        decreases m - i,
    {
        let p: Real = predict_row(k, t, x, m, i);
        out.push(p);
        assert(out@ =~= want.take(i + 1));
        i += 1;
    }
    assert(out@ =~= want);
    out
}

// ── Drawing rows ───────────────────────────────────────────────────────────

/// The row that a random number picks.
pub open spec fn slot<F: Fn(FloatOp, Real, Real, Real) -> Real>(fpu: &Fpu<F>, u: Real, m: nat) -> int {
    fpu.times(u, rounded(m)).as_count() as int % (m as int)
}

/// A row is drawn by one of the numbers.
pub open spec fn drawn<F: Fn(FloatOp, Real, Real, Real) -> Real>(fpu: &Fpu<F>, draws: Seq<Real>, m: nat, i: int) -> bool {
    exists|d: int| 0 <= d < draws.len() && slot(fpu, #[trigger] draws[d], m) == i
}

/// The rows that the numbers draw, with replacement.
pub open spec fn drawn_rows<F: Fn(FloatOp, Real, Real, Real) -> Real>(fpu: &Fpu<F>, draws: Seq<Real>, m: nat) -> Seq<bool> {
    Seq::new(m, |i: int| drawn(fpu, draws, m, i))
}

/// `d` can be asked for any number.
pub open spec fn draw_ready<D: Fn(u64, usize) -> Real>(d: &D) -> bool {
    forall|t: u64, i: usize| #[trigger] call_requires(*d, (t, i))
}

/// The numbers were drawn from stream `t`, one after the other.
pub open spec fn drew<D: Fn(u64, usize) -> Real>(d: &D, t: int, draws: Seq<Real>) -> bool {
    forall|i: int| 0 <= i < draws.len() ==> call_ensures(*d, (t as u64, i as usize), #[trigger] draws[i])
}

/// Draws `count` times among `m` rows, by stream `t`.
pub(crate) fn draw_rows<F: Fn(FloatOp, Real, Real, Real) -> Real, D: Fn(u64, usize) -> Real>(
    fpu: &Fpu<F>,
    draw: &D,
    t: u64,
    count: usize,
    m: usize,
) -> (r: (Vec<bool>, Ghost<Seq<Real>>))
    requires
        fpu.wf(),
        draw_ready(draw),
        count > 0 ==> m > 0,
    ensures
        r.1@.len() == count,
        drew(draw, t as int, r.1@),
        r.0@ == drawn_rows(fpu, r.1@, m as nat),
{
    let mut rows: Vec<bool> = Vec::new();
    let mut j: usize = 0;
    while j < m
        invariant
            j <= m,
            rows@.len() == j,
            forall|i: int| 0 <= i < j ==> !#[trigger] rows@[i],
        decreases m - j,
    {
        rows.push(false);
        j += 1;
    }
    let ghost mut draws = Seq::<Real>::empty();
    let size: Real = Real::from_u64(m as u64);
    let mut i: usize = 0;
    while i < count
        invariant
            fpu.wf(),
            draw_ready(draw),
            count > 0 ==> m > 0,
            i <= count,
            size == rounded(m as nat),
            draws.len() == i,
            drew(draw, t as int, draws),
            rows@.len() == m,
            forall|k: int| 0 <= k < m ==> #[trigger] rows@[k] == drawn(fpu, draws, m as nat, k),
        decreases count - i,
    {
        let u: Real = draw(t, i);
        let at: usize = fpu.prod(u, size).to_usize() % m;
        let ghost before = draws;
        let ghost old_rows = rows@;
        rows.set(at, true);
        proof {
            draws = draws.push(u);
            assert(slot(fpu, draws[i as int], m as nat) == at);
            assert(forall|d: int| 0 <= d < i ==> #[trigger] draws[d] == before[d]);
            assert forall|k: int| 0 <= k < m implies #[trigger] rows@[k] == drawn(fpu, draws, m as nat, k) by {
                assert(old_rows[k] == drawn(fpu, before, m as nat, k));
                if drawn(fpu, before, m as nat, k) {
                    let d = choose|d: int| 0 <= d < before.len() && slot(fpu, #[trigger] before[d], m as nat) == k;
                    assert(slot(fpu, draws[d], m as nat) == k);
                }
                if drawn(fpu, draws, m as nat, k) && k != at {
                    let d = choose|d: int| 0 <= d < draws.len() && slot(fpu, #[trigger] draws[d], m as nat) == k;
                    assert(slot(fpu, before[d], m as nat) == k);
                }
            }
        }
        i += 1;
    }
    assert(rows@ =~= drawn_rows(fpu, draws, m as nat));
    (rows, Ghost(draws))
}

/// The tree was grown from rows that `count` numbers drew.
pub open spec fn grown<
    T,
    F: Fn(FloatOp, Real, Real, Real) -> Real,
    B: Fn(&Vec<Real>, &Vec<Real>, usize, usize, &Vec<bool>, TreeLimits) -> T,
    P,
    L,
    D: Fn(u64, usize) -> Real,
>(
    fpu: &Fpu<F>,
    k: &Kit<B, P, L>,
    draw: &D,
    t: int,
    count: nat,
    m: &Matrix,
    y: Seq<Real>,
    l: TreeLimits,
    tree: T,
) -> bool {
    exists|draws: Seq<Real>| #[trigger]
        drew(draw, t, draws) && draws.len() == count && built(k, m, y, drawn_rows(fpu, draws, m.nrow as nat), l, tree)
}

/// Grows a tree from rows that `count` numbers of stream `t` draw.
pub fn grow<
    T,
    F: Fn(FloatOp, Real, Real, Real) -> Real,
    B: Fn(&Vec<Real>, &Vec<Real>, usize, usize, &Vec<bool>, TreeLimits) -> T,
    P: Fn(&T, &Vec<Real>, usize, usize) -> Real,
    L: Fn(&T, usize) -> Vec<Node>,
    D: Fn(u64, usize) -> Real,
>(
    fpu: &Fpu<F>,
    k: &Kit<B, P, L>,
    draw: &D,
    t: u64,
    count: usize,
    m: &Matrix,
    y: &Vec<Real>,
    l: TreeLimits,
) -> (r: T)
    requires
        fpu.wf(),
        kit_ready(k),
        draw_ready(draw),
        count > 0 ==> m.nrow > 0,
        m.data@.len() == m.nrow * m.ncol,
        y@.len() >= m.nrow,
    ensures
        grown(fpu, k, draw, t as int, count as nat, m, y@, l, r),
{
    let (rows, Ghost(draws)) = draw_rows(fpu, draw, t, count, m.nrow);
    let r: T = (k.build)(&m.data, y, m.nrow, m.ncol, &rows, l);
    proof {
        let v: &Vec<Real> = y;
        let w: &Vec<bool> = &rows;
        assert(call_ensures(k.build, (&m.data, v, m.nrow, m.ncol, w, l), r));
        assert(built(k, m, y@, drawn_rows(fpu, draws, m.nrow as nat), l, r));
    }
    r
}

// ── Listing ────────────────────────────────────────────────────────────────

/// The nodes of trees, one tree after the other.
pub open spec fn all_nodes<T, B, P, L: Fn(&T, usize) -> Vec<Node>>(k: &Kit<B, P, L>, trees: Seq<T>) -> Seq<Node>
    decreases trees.len(),
{
    if trees.len() == 0 {
        Seq::empty()
    } else {
        let s = all_nodes(k, trees.drop_last());
        s + listing(k, &trees.last(), s.len())
    }
}

/// Where each tree starts in the listing.
pub open spec fn offsets<T, B, P, L: Fn(&T, usize) -> Vec<Node>>(k: &Kit<B, P, L>, trees: Seq<T>) -> Seq<Real> {
    Seq::new(trees.len(), |t: int| rounded(all_nodes(k, trees.take(t)).len()))
}

/// The nodes of trees, one tree after the other, and where each tree starts.
pub fn list_trees<
    T,
    B: Fn(&Vec<Real>, &Vec<Real>, usize, usize, &Vec<bool>, TreeLimits) -> T,
    P: Fn(&T, &Vec<Real>, usize, usize) -> Real,
    L: Fn(&T, usize) -> Vec<Node>,
>(k: &Kit<B, P, L>, trees: &Vec<T>) -> (r: (Vec<Node>, Vec<Real>))
    requires
        kit_ready(k),
    ensures
        r.0@ == all_nodes(k, trees@),
        r.1@ == offsets(k, trees@),
{
    let mut nodes: Vec<Node> = Vec::new();
    let mut starts: Vec<Real> = Vec::new();
    let mut t: usize = 0;
    assert(trees@.take(0) =~= Seq::<T>::empty());
    while t < trees.len()
        invariant
            kit_ready(k),
            t <= trees.len(),
            nodes@ == all_nodes(k, trees@.take(t as int)),
            starts@ == offsets(k, trees@).take(t as int),
        decreases trees.len() - t,
    {
        starts.push(Real::from_u64(nodes.len() as u64));
        assert(starts@ =~= offsets(k, trees@).take(t + 1));
        let base: usize = nodes.len();
        let more: Vec<Node> = (k.list)(&trees[t], base);
        let ghost before = nodes@;
        proof {
            assert(lists_as(k, &trees@[t as int], base as nat, more@));
            let s = listing(k, &trees@[t as int], base as nat);
            assert(lists_as(k, &trees@[t as int], base as nat, s));
            assert(more@ == s);
            assert(trees@.take(t + 1).drop_last() =~= trees@.take(t as int));
            assert(trees@.take(t + 1).last() == trees@[t as int]);
        }
        let mut j: usize = 0;
        while j < more.len()
            invariant
                j <= more.len(),
                nodes@ == before + more@.take(j as int),
            decreases more.len() - j,
        {
            nodes.push(more[j]);
            j += 1;
            assert(nodes@ =~= before + more@.take(j as int));
        }
        assert(more@.take(more@.len() as int) =~= more@);
        t += 1;
    }
    assert(trees@.take(trees@.len() as int) =~= trees@);
    assert(starts@ =~= offsets(k, trees@));
    (nodes, starts)
}

/// The fields of a listing.
pub open spec fn listed_fields(nodes: Seq<Node>) -> Seq<(Seq<char>, Val)> {
    seq![
        ("_tree_feat"@, nums_val(Seq::new(nodes.len(), |i: int| rounded(nodes[i].feature as nat)))),
        ("_tree_thresh"@, nums_val(Seq::new(nodes.len(), |i: int| nodes[i].threshold))),
        ("_tree_pred"@, nums_val(Seq::new(nodes.len(), |i: int| nodes[i].value))),
        ("_tree_leaf"@, nums_val(Seq::new(nodes.len(), |i: int| if nodes[i].leaf { one() } else { zero() }))),
        ("_tree_left"@, nums_val(Seq::new(nodes.len(), |i: int| rounded(nodes[i].left as nat)))),
        ("_tree_right"@, nums_val(Seq::new(nodes.len(), |i: int| rounded(nodes[i].right as nat)))),
    ]
}

/// Appends the fields of a listing.
pub(crate) fn put_nodes(fields: &mut Vec<(String, RVal)>, nodes: &Vec<Node>)
    ensures
        field_list(final(fields)@) == field_list(old(fields)@) + listed_fields(nodes@),
{
    let mut feat: Vec<Real> = Vec::new();
    let mut thresh: Vec<Real> = Vec::new();
    let mut pred: Vec<Real> = Vec::new();
    let mut leaf: Vec<Real> = Vec::new();
    let mut left: Vec<Real> = Vec::new();
    let mut right: Vec<Real> = Vec::new();
    let mut i: usize = 0;
    while i < nodes.len()
        invariant
            i <= nodes.len(),
            feat@ == Seq::new(i as nat, |i: int| rounded(nodes@[i].feature as nat)),
            thresh@ == Seq::new(i as nat, |i: int| nodes@[i].threshold),
            pred@ == Seq::new(i as nat, |i: int| nodes@[i].value),
            leaf@ == Seq::new(i as nat, |i: int| if nodes@[i].leaf { one() } else { zero() }),
            left@ == Seq::new(i as nat, |i: int| rounded(nodes@[i].left as nat)),
            right@ == Seq::new(i as nat, |i: int| rounded(nodes@[i].right as nat)),
        decreases nodes.len() - i,
    {
        let node: Node = nodes[i];
        feat.push(Real::from_u64(node.feature as u64));
        thresh.push(node.threshold);
        pred.push(node.value);
        leaf.push(if node.leaf { Real { bits: ONE_BITS } } else { Real { bits: 0 } });
        left.push(Real::from_u64(node.left as u64));
        right.push(Real::from_u64(node.right as u64));
        i += 1;
        proof {
            assert(feat@ =~= Seq::new(i as nat, |i: int| rounded(nodes@[i].feature as nat)));
            assert(thresh@ =~= Seq::new(i as nat, |i: int| nodes@[i].threshold));
            assert(pred@ =~= Seq::new(i as nat, |i: int| nodes@[i].value));
            assert(leaf@ =~= Seq::new(i as nat, |i: int| if nodes@[i].leaf { one() } else { zero() }));
            assert(left@ =~= Seq::new(i as nat, |i: int| rounded(nodes@[i].left as nat)));
            assert(right@ =~= Seq::new(i as nat, |i: int| rounded(nodes@[i].right as nat)));
        }
    }
    let ghost before = field_list(fields@);
    put(fields, "_tree_feat", rnums(&feat));
    put(fields, "_tree_thresh", rnums(&thresh));
    put(fields, "_tree_pred", rnums(&pred));
    put(fields, "_tree_leaf", rnums(&leaf));
    put(fields, "_tree_left", rnums(&left));
    put(fields, "_tree_right", rnums(&right));
    assert(field_list(fields@) =~= before + listed_fields(nodes@));
}

// ── Importance ─────────────────────────────────────────────────────────────

/// How many of the nodes split on feature `j`.
pub open spec fn splits_on(nodes: Seq<Node>, j: int) -> nat
    decreases nodes.len(),
{
    if nodes.len() == 0 {
        0
    } else {
        splits_on(nodes.drop_last(), j) + if !nodes.last().leaf && nodes.last().feature == j {
            1nat
        } else {
            0
        }
    }
}

/// How many of the nodes split on one of the first `n` features.
pub open spec fn splits_below(nodes: Seq<Node>, n: int) -> nat
    decreases nodes.len(),
{
    if nodes.len() == 0 {
        0
    } else {
        splits_below(nodes.drop_last(), n) + if !nodes.last().leaf && nodes.last().feature < n {
            1nat
        } else {
            0
        }
    }
}

/// The share of the splits that each of `n` features has.
pub open spec fn importance<F: Fn(FloatOp, Real, Real, Real) -> Real>(fpu: &Fpu<F>, nodes: Seq<Node>, n: nat) -> Seq<Real> {
    let all = splits_below(nodes, n as int);
    Seq::new(
        n,
        |j: int|
            fpu.over(
                rounded(splits_on(nodes, j)),
                rounded(if all == 0 {
                    1
                } else {
                    all
                }),
            ),
    )
}

/// The share of the splits that each of `n` features has.
pub fn importances<F: Fn(FloatOp, Real, Real, Real) -> Real>(fpu: &Fpu<F>, nodes: &Vec<Node>, n: usize) -> (r: Vec<Real>)
    requires
        fpu.wf(),
    ensures
        r@ == importance(fpu, nodes@, n as nat),
{
    let mut counts: Vec<u64> = Vec::new();
    let mut j: usize = 0;
    while j < n
        invariant
            j <= n,
            counts@.len() == j,
            forall|i: int| 0 <= i < j ==> #[trigger] counts@[i] == 0,
        decreases n - j,
    {
        counts.push(0);
        j += 1;
    }
    let mut all: u64 = 0;
    let mut i: usize = 0;
    assert(nodes@.take(0) =~= Seq::<Node>::empty());
    while i < nodes.len()
        invariant
            i <= nodes.len(),
            counts@.len() == n,
            all == splits_below(nodes@.take(i as int), n as int),
            all <= i,
            forall|j: int| 0 <= j < n ==> #[trigger] counts@[j] == splits_on(nodes@.take(i as int), j),
            forall|j: int| 0 <= j < n ==> #[trigger] counts@[j] <= i,
        decreases nodes.len() - i,
    {
        let node: Node = nodes[i];
        proof {
            assert(nodes@.take(i + 1).drop_last() =~= nodes@.take(i as int));
            assert(nodes@.take(i + 1).last() == node);
        }
        if !node.leaf && node.feature < n {
            let c: u64 = counts[node.feature];
            counts.set(node.feature, c + 1);
            all = all + 1;
        }
        i += 1;
    }
    assert(nodes@.take(nodes@.len() as int) =~= nodes@);
    let base: Real = Real::from_u64(if all == 0 { 1 } else { all });
    let mut out: Vec<Real> = Vec::new();
    let ghost want = importance(fpu, nodes@, n as nat);
    let mut j: usize = 0;
    while j < n
        invariant
            fpu.wf(),
            j <= n,
            counts@.len() == n,
            all == splits_below(nodes@, n as int),
            base == rounded(if all == 0 {
                1
            } else {
                all as nat
            }),
            forall|j: int| 0 <= j < n ==> #[trigger] counts@[j] == splits_on(nodes@, j),
            want == importance(fpu, nodes@, n as nat),
            out@ == want.take(j as int),
        decreases n - j,
    {
        let c: u64 = counts[j];
        let v: Real = fpu.quot(Real::from_u64(c), base);
        assert(v == want[j as int]);
        out.push(v);
        assert(out@ =~= want.take(j + 1));
        j += 1;
    }
    assert(out@ =~= want);
    out
}

/// Numbers with names.
pub open spec fn named_nums(s: Seq<Real>, names: Seq<Seq<char>>) -> Val {
    Val::Numeric(Seq::new(s.len(), |i: int| Some(s[i])), Some(names))
}

/// Numbers with names.
pub fn rnums_named(s: &Vec<Real>, names: &Vec<String>) -> (r: RVal)
    ensures
        r.deep() == named_nums(s@, texts(names@)),
{
    let mut v: Vec<Option<Real>> = Vec::new();
    let mut i: usize = 0;
    while i < s.len()
        invariant
            i <= s.len(),
            v@ == Seq::new(i as nat, |k: int| Some(s@[k])),
        decreases s.len() - i,
    {
        v.push(Some(s[i]));
        i += 1;
        assert(v@ =~= Seq::new(i as nat, |k: int| Some(s@[k])));
    }
    RVal::Numeric(v, Attrs { names: Some(dup_strings(names)) })
}

/// Texts as a vector.
pub open spec fn texts_val(names: Seq<Seq<char>>) -> Val {
    Val::Character(Seq::new(names.len(), |i: int| Some(names[i])), None)
}

/// Texts as a vector.
pub fn rtexts(names: &Vec<String>) -> (r: RVal)
    ensures
        r.deep() == texts_val(texts(names@)),
{
    let mut v: Vec<Option<String>> = Vec::new();
    let mut i: usize = 0;
    while i < names.len()
        invariant
            i <= names.len(),
            v@.len() == i,
            forall|k: int| 0 <= k < i ==> opt_text(#[trigger] v@[k]) == Some(names@[k]@),
        decreases names.len() - i,
    {
        v.push(Some(owned(names[i].as_str())));
        i += 1;
    }
    assert(opt_texts(v@) =~= Seq::new(names@.len(), |i: int| Some(texts(names@)[i])));
    RVal::Character(v, no_attrs())
}

/// Computes a list on the given backend.
pub(crate) fn spread_out<G: Fn(usize) -> Real + Send + Sync>(on: Backend, n: usize, g: G, Ghost(s): Ghost<Seq<Real>>) -> (r: Vec<
    Real,
>)
    requires
        s.len() == n,
        computes(g, s),
    ensures
        r@ == s,
{
    let r: Vec<Real> = par_for(on, n, g);
    assert(r@ =~= s);
    r
}

} // verus!
