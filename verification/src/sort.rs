//! Stable sorting of row numbers.
use vstd::prelude::*;

verus! {

/// The numbers `lo` to `hi - 1`, each once.
pub open spec fn lists(p: Seq<usize>, lo: int, hi: int) -> bool {
    &&& p.len() == hi - lo
    &&& p.no_duplicates()
    &&& forall|k: usize| #[trigger] p.contains(k) <==> lo <= k < hi
}

/// The numbers below `n` in some order.
pub open spec fn permutes(p: Seq<usize>, n: int) -> bool {
    lists(p, 0, n)
}

/// Any two of the numbers below `n` are related one way or the other, and the
/// relation is transitive.
pub open spec fn preorder(rel: spec_fn(usize, usize) -> bool, n: int) -> bool {
    &&& forall|a: usize, b: usize| a < n && b < n ==> #[trigger] rel(a, b) || rel(b, a)
    &&& forall|a: usize, b: usize, c: usize|
        a < n && b < n && c < n && #[trigger] rel(a, b) && #[trigger] rel(b, c) ==> rel(a, c)
}

/// `a` comes before `b` in a stable ascending order.
pub open spec fn comes_first(rel: spec_fn(usize, usize) -> bool, a: usize, b: usize) -> bool {
    rel(a, b) && (rel(b, a) ==> a < b)
}

/// Ascending, and related both ways only in the order of the numbers.
pub open spec fn ascends(rel: spec_fn(usize, usize) -> bool, p: Seq<usize>) -> bool {
    forall|i: int, j: int| 0 <= i < j < p.len() ==> comes_first(rel, #[trigger] p[i], #[trigger] p[j])
}

/// `f` answers for the numbers below `n`, and answers `rel`.
pub open spec fn decides<F: Fn(usize, usize) -> bool>(
    f: F,
    rel: spec_fn(usize, usize) -> bool,
    n: int,
) -> bool {
    &&& forall|a: usize, b: usize| a < n && b < n ==> #[trigger] call_requires(f, (a, b))
    &&& forall|a: usize, b: usize, r: bool|
        a < n && b < n && #[trigger] call_ensures(f, (a, b), r) ==> r == rel(a, b)
}

fn merge<F: Fn(usize, usize) -> bool>(
    left: &Vec<usize>,
    right: &Vec<usize>,
    f: &F,
    Ghost(rel): Ghost<spec_fn(usize, usize) -> bool>,
    Ghost(lo): Ghost<int>,
    Ghost(mid): Ghost<int>,
    Ghost(hi): Ghost<int>,
) -> (out: Vec<usize>)
    requires
        0 <= lo <= mid <= hi <= usize::MAX,
        lists(left@, lo, mid),
        lists(right@, mid, hi),
        decides(*f, rel, hi),
    ensures
        lists(out@, lo, hi),
        preorder(rel, hi) && ascends(rel, left@) && ascends(rel, right@) ==> ascends(rel, out@),
{
    let mut out: Vec<usize> = Vec::new();
    let mut i: usize = 0;
    let mut j: usize = 0;
    let ghost good = preorder(rel, hi) && ascends(rel, left@) && ascends(rel, right@);
    while i < left.len() || j < right.len()
        invariant
            0 <= lo <= mid <= hi <= usize::MAX,
            lists(left@, lo, mid),
            lists(right@, mid, hi),
            decides(*f, rel, hi),
            i <= left.len(),
            j <= right.len(),
            out@.len() == i + j,
            out@.no_duplicates(),
            forall|k: int| 0 <= k < i ==> out@.contains(#[trigger] left@[k]),
            forall|k: int| 0 <= k < j ==> out@.contains(#[trigger] right@[k]),
            forall|k: int| 0 <= k < out@.len() ==> from(left@, i as int, #[trigger] out@[k]) || from(right@, j as int, out@[k]),
            good == (preorder(rel, hi) && ascends(rel, left@) && ascends(rel, right@)),
            good ==> ascends(rel, out@),
            good ==> forall|k: int, m: int|
                0 <= k < out@.len() && i <= m < left@.len() ==> comes_first(rel, #[trigger] out@[k], #[trigger] left@[m]),
            good ==> forall|k: int, m: int|
                0 <= k < out@.len() && j <= m < right@.len() ==> comes_first(rel, #[trigger] out@[k], #[trigger] right@[m]),
        decreases left.len() - i + right.len() - j,
    {
        let ghost before = out@;
        assert(i < left.len() ==> left@.contains(left@[i as int]));
        assert(j < right.len() ==> right@.contains(right@[j as int]));
        let take_left: bool = if i >= left.len() {
            false
        } else if j >= right.len() {
            true
        } else {
            f(left[i], right[j])
        };
        if take_left {
            let x: usize = left[i];
            proof {
                assert forall|k: int| 0 <= k < before.len() implies before[k] != x by {
                    if from(left@, i as int, before[k]) {
                        let w = choose|w: int| 0 <= w < i && left@[w] == before[k];
                        assert(left@[w] != left@[i as int]);
                    } else {
                        let w = choose|w: int| 0 <= w < j && right@[w] == before[k];
                        assert(right@.contains(right@[w]));
                    }
                }
            }
            out.push(x);
            i += 1;
            proof {
                assert(out@[before.len() as int] == x);
                assert forall|k: int| 0 <= k < i implies out@.contains(#[trigger] left@[k]) by {
                    if k < i - 1 {
                        let w = choose|w: int| 0 <= w < before.len() && before[w] == left@[k];
                        assert(out@[w] == left@[k]);
                    }
                }
                assert forall|k: int| 0 <= k < j implies out@.contains(#[trigger] right@[k]) by {
                    let w = choose|w: int| 0 <= w < before.len() && before[w] == right@[k];
                    assert(out@[w] == right@[k]);
                }
                assert forall|k: int| 0 <= k < out@.len() implies from(left@, i as int, #[trigger] out@[k]) || from(right@, j as int, out@[k]) by {
                    if k < before.len() {
                        assert(out@[k] == before[k]);
                        if from(left@, i - 1, before[k]) {
                            let w = choose|w: int| 0 <= w < i - 1 && left@[w] == before[k];
                            assert(0 <= w < i && left@[w] == out@[k]);
                        }
                    } else {
                        assert(left@[i - 1] == out@[k]);
                    }
                }
                if good {
                    assert forall|m: int| i <= m < left@.len() implies comes_first(rel, x, #[trigger] left@[m]) by {
                        assert(comes_first(rel, left@[i - 1], left@[m]));
                    }
                    assert forall|m: int| j <= m < right@.len() implies comes_first(rel, x, #[trigger] right@[m]) by {
                        lemma_across(rel, left@, right@, lo, mid, hi, i - 1, j as int, m);
                    }
                }
            }
        } else {
            let x: usize = right[j];
            proof {
                assert forall|k: int| 0 <= k < before.len() implies before[k] != x by {
                    if from(right@, j as int, before[k]) {
                        let w = choose|w: int| 0 <= w < j && right@[w] == before[k];
                        assert(right@[w] != right@[j as int]);
                    } else {
                        let w = choose|w: int| 0 <= w < i && left@[w] == before[k];
                        assert(left@.contains(left@[w]));
                    }
                }
            }
            out.push(x);
            j += 1;
            proof {
                assert(out@[before.len() as int] == x);
                assert forall|k: int| 0 <= k < j implies out@.contains(#[trigger] right@[k]) by {
                    if k < j - 1 {
                        let w = choose|w: int| 0 <= w < before.len() && before[w] == right@[k];
                        assert(out@[w] == right@[k]);
                    }
                }
                assert forall|k: int| 0 <= k < i implies out@.contains(#[trigger] left@[k]) by {
                    let w = choose|w: int| 0 <= w < before.len() && before[w] == left@[k];
                    assert(out@[w] == left@[k]);
                }
                assert forall|k: int| 0 <= k < out@.len() implies from(left@, i as int, #[trigger] out@[k]) || from(right@, j as int, out@[k]) by {
                    if k < before.len() {
                        assert(out@[k] == before[k]);
                        if !from(left@, i as int, before[k]) {
                            let w = choose|w: int| 0 <= w < j - 1 && right@[w] == before[k];
                            assert(0 <= w < j && right@[w] == out@[k]);
                        }
                    } else {
                        assert(right@[j - 1] == out@[k]);
                    }
                }
                if good {
                    assert forall|m: int| j <= m < right@.len() implies comes_first(rel, x, #[trigger] right@[m]) by {
                        assert(comes_first(rel, right@[j - 1], right@[m]));
                    }
                    assert forall|m: int| i <= m < left@.len() implies comes_first(rel, x, #[trigger] left@[m]) by {
                        lemma_back(rel, left@, right@, lo, mid, hi, i as int, j - 1, m);
                    }
                }
            }
        }
    }
    proof {
        assert forall|k: usize| #[trigger] out@.contains(k) <==> lo <= k < hi by {
            if out@.contains(k) {
                let w = choose|w: int| 0 <= w < out@.len() && out@[w] == k;
                if from(left@, i as int, out@[w]) {
                    assert(left@.contains(k));
                } else {
                    assert(right@.contains(k));
                }
            }
            if lo <= k < mid {
                assert(left@.contains(k));
                let w = choose|w: int| 0 <= w < left@.len() && left@[w] == k;
                assert(out@.contains(left@[w]));
            }
            if mid <= k < hi {
                assert(right@.contains(k));
                let w = choose|w: int| 0 <= w < right@.len() && right@[w] == k;
                assert(out@.contains(right@[w]));
            }
        }
    }
    out
}

/// `x` is one of the first `n` of `s`.
spec fn from(s: Seq<usize>, n: int, x: usize) -> bool {
    exists|w: int| 0 <= w < n && #[trigger] s[w] == x
}

proof fn lemma_across(
    rel: spec_fn(usize, usize) -> bool,
    left: Seq<usize>,
    right: Seq<usize>,
    lo: int,
    mid: int,
    hi: int,
    i: int,
    j: int,
    m: int,
)
    requires
        0 <= lo <= mid <= hi <= usize::MAX,
        lists(left, lo, mid),
        lists(right, mid, hi),
        preorder(rel, hi),
        ascends(rel, right),
        0 <= i < left.len(),
        0 <= j <= m < right.len(),
        rel(left[i], right[j]),
    ensures
        comes_first(rel, left[i], right[m]),
{
    assert(left.contains(left[i]));
    assert(right.contains(right[j]));
    assert(right.contains(right[m]));
    if j < m {
        assert(comes_first(rel, right[j], right[m]));
        assert(rel(left[i], right[j]) && rel(right[j], right[m]));
    }
}

proof fn lemma_back(
    rel: spec_fn(usize, usize) -> bool,
    left: Seq<usize>,
    right: Seq<usize>,
    lo: int,
    mid: int,
    hi: int,
    i: int,
    j: int,
    m: int,
)
    requires
        0 <= lo <= mid <= hi <= usize::MAX,
        lists(left, lo, mid),
        lists(right, mid, hi),
        preorder(rel, hi),
        ascends(rel, left),
        0 <= j < right.len(),
        0 <= i <= m < left.len(),
        !rel(left[i], right[j]),
    ensures
        comes_first(rel, right[j], left[m]),
{
    assert(right.contains(right[j]));
    assert(left.contains(left[i]));
    assert(left.contains(left[m]));
    assert(rel(left[i], right[j]) || rel(right[j], left[i]));
    if i < m {
        assert(comes_first(rel, left[i], left[m]));
        assert(rel(right[j], left[i]) && rel(left[i], left[m]));
    }
    if rel(left[m], right[j]) {
        if i < m {
            assert(rel(left[i], left[m]) && rel(left[m], right[j]));
        }
    }
}

fn sort_range<F: Fn(usize, usize) -> bool>(
    lo: usize,
    hi: usize,
    f: &F,
    Ghost(rel): Ghost<spec_fn(usize, usize) -> bool>,
) -> (out: Vec<usize>)
    requires
        lo <= hi,
        decides(*f, rel, hi as int),
    ensures
        lists(out@, lo as int, hi as int),
        preorder(rel, hi as int) ==> ascends(rel, out@),
    decreases hi - lo,
{
    if hi - lo == 0 {
        let out: Vec<usize> = Vec::new();
        return out;
    }
    if hi - lo == 1 {
        let mut out: Vec<usize> = Vec::new();
        out.push(lo);
        assert(out@[0] == lo);
        assert forall|k: usize| #[trigger] out@.contains(k) <==> lo <= k < hi by {
            if k == lo {
                assert(out@[0] == k);
            }
        }
        return out;
    }
    let mid: usize = lo + (hi - lo) / 2;
    let left = sort_range(lo, mid, f, Ghost(rel));
    let right = sort_range(mid, hi, f, Ghost(rel));
    merge(&left, &right, f, Ghost(rel), Ghost(lo as int), Ghost(mid as int), Ghost(hi as int))
}

/// Numbers below `n` in stable ascending order of `rel`, which `f` decides.
/// The result is a permutation even where `rel` is no order.
pub(crate) fn sort_indices<F: Fn(usize, usize) -> bool>(
    n: usize,
    f: &F,
    Ghost(rel): Ghost<spec_fn(usize, usize) -> bool>,
) -> (out: Vec<usize>)
    requires
        decides(*f, rel, n as int),
    ensures
        permutes(out@, n as int),
        preorder(rel, n as int) ==> ascends(rel, out@),
{
    sort_range(0, n, f, Ghost(rel))
}

/// There is only one stable ascending order: two permutations of the same
/// numbers that both ascend are equal.
pub proof fn law_order_unique(
    rel: spec_fn(usize, usize) -> bool,
    p: Seq<usize>,
    q: Seq<usize>,
    n: int,
)
    requires
        permutes(p, n),
        permutes(q, n),
        ascends(rel, p),
        ascends(rel, q),
    ensures
        p == q,
{
    lemma_same_prefix(rel, p, q, n, n);
    assert(p =~= q);
}

proof fn lemma_same_prefix(
    rel: spec_fn(usize, usize) -> bool,
    p: Seq<usize>,
    q: Seq<usize>,
    n: int,
    k: int,
)
    requires
        0 <= k <= n,
        permutes(p, n),
        permutes(q, n),
        ascends(rel, p),
        ascends(rel, q),
    ensures
        forall|i: int| 0 <= i < k ==> p[i] == q[i],
    decreases k,
{
    if k > 0 {
        lemma_same_prefix(rel, p, q, n, k - 1);
        let i = k - 1;
        if p[i] != q[i] {
            assert(p.contains(p[i]) && q.contains(q[i]));
            assert(q.contains(p[i]) && p.contains(q[i]));
            let w = choose|w: int| 0 <= w < q.len() && q[w] == p[i];
            let v = choose|v: int| 0 <= v < p.len() && p[v] == q[i];
            assert(w >= i && v >= i) by {
                if w < i {
                    assert(p[w] == q[w]);
                }
                if v < i {
                    assert(p[v] == q[v]);
                }
            }
            assert(comes_first(rel, q[i], q[w]));
            assert(comes_first(rel, p[i], p[v]));
        }
    }
}

} // verus!
