//! Positions of extremes, order statistics, and the largest or smallest few.
use crate::double::Real;
use crate::kernel::{arrange, column_free_of_nan, free_of_nan, has_na, ranked, values};
use crate::value::{keep_present, present};
use vstd::prelude::*;

verus! {

/// `x` takes the place of `best`: it is strictly larger, or strictly smaller.
pub open spec fn beats(x: Real, best: Real, largest: bool) -> bool {
    if largest {
        best.below(x)
    } else {
        x.below(best)
    }
}

/// Position of the extreme of the first `k` values, a later value counting only
/// where it strictly beats the best so far.
pub open spec fn extreme_at(s: Seq<Real>, k: nat, largest: bool) -> int
    decreases k,
{
    if k <= 1 {
        0
    } else {
        let b = extreme_at(s, (k - 1) as nat, largest);
        if beats(s[k - 1], s[b], largest) {
            k - 1
        } else {
            b
        }
    }
}

fn which_extreme(data: &[Option<Real>], largest: bool) -> (r: Option<usize>)
    ensures
        r is None <==> data@.len() == 0 || has_na(data@),
        r matches Some(i) ==> i == extreme_at(values(data@), data@.len(), largest),
{
    if data.len() == 0 {
        return None;
    }
    let mut best_idx: usize = 0;
    let mut best_val: Real = match data[0] {
        Some(v) => v,
        None => {
            assert(data@[0] is None);
            return None;
        },
    };
    let mut i: usize = 1;
    while i < data.len()
        invariant
            1 <= i <= data.len(),
            best_idx < i,
            forall|k: int| 0 <= k < i ==> #[trigger] data@[k] is Some,
            best_idx == extreme_at(values(data@), i as nat, largest),
            data@[best_idx as int] == Some(best_val),
        decreases data.len() - i,
    {
        match data[i] {
            Some(x) => {
                let better: bool = if largest { best_val.lt(&x) } else { x.lt(&best_val) };
                if better {
                    best_val = x;
                    best_idx = i;
                }
            },
            None => {
                assert(data@[i as int] is None);
                return None;
            },
        }
        i += 1;
    }
    Some(best_idx)
}

/// Position of the first largest value; none where a value is missing or there
/// are none.
pub fn which_max(data: &[Option<Real>]) -> (r: Option<usize>)
    ensures
        r is None <==> data@.len() == 0 || has_na(data@),
        r matches Some(i) ==> i == extreme_at(values(data@), data@.len(), true),
{
    which_extreme(data, true)
}

/// Position of the first smallest value; none where a value is missing or there
/// are none.
pub fn which_min(data: &[Option<Real>]) -> (r: Option<usize>)
    ensures
        r is None <==> data@.len() == 0 || has_na(data@),
        r matches Some(i) ==> i == extreme_at(values(data@), data@.len(), false),
{
    which_extreme(data, false)
}

/// Among values without a NaN the position is that of the first extreme: no
/// value beats it, and it beats every earlier one.
pub proof fn law_first_extreme(s: Seq<Real>, k: nat, largest: bool)
    requires
        free_of_nan(s),
        0 < k <= s.len(),
    ensures
        0 <= extreme_at(s, k, largest) < k,
        forall|j: int| 0 <= j < k ==> !beats(#[trigger] s[j], s[extreme_at(s, k, largest)], largest),
        forall|j: int|
            0 <= j < extreme_at(s, k, largest) ==> beats(s[extreme_at(s, k, largest)], #[trigger] s[j], largest),
    decreases k,
{
    if k > 1 {
        law_first_extreme(s, (k - 1) as nat, largest);
    }
}

/// The value at rank `k` among those that are present, counted from zero at the
/// smallest; none where there are not that many.
pub fn nth_smallest(data: &[Option<Real>], k: usize) -> (r: Option<Real>)
    requires
        column_free_of_nan(data@),
    ensures
        r is Some <==> k < present(data@).len(),
        r matches Some(v) ==> ranked(present(data@), k as int, v),
{
    let v: Vec<Real> = keep_present(data);
    if k >= v.len() {
        return None;
    }
    let p: Vec<usize> = arrange(v.as_slice());
    assert(p@.contains(p@[k as int]));
    Some(v[p[k]])
}

/// An integer by which the wanted values come first.
pub open spec fn rank_key(x: Real, largest: bool) -> int {
    if largest {
        -x.key()
    } else {
        x.key()
    }
}

/// The rank of a position that holds a value.
pub open spec fn rank_at(d: Seq<Option<Real>>, largest: bool, i: usize) -> int {
    rank_key(d[i as int]->0, largest)
}

/// Where a position of rank `x` goes in a list in ascending order: behind all
/// that rank the same or lower.
pub open spec fn slot(d: Seq<Option<Real>>, largest: bool, s: Seq<usize>, x: int) -> int
    decreases s.len(),
{
    if s.len() == 0 || rank_at(d, largest, s.last()) <= x {
        s.len() as int
    } else {
        slot(d, largest, s.drop_last(), x)
    }
}

/// Which entry of a full list gives way to a better one: of those that rank
/// last, the latest among the smallest, and the earliest among the largest.
pub open spec fn victim(d: Seq<Option<Real>>, largest: bool, s: Seq<usize>) -> int
    decreases s.len(),
{
    if largest && s.len() >= 2 && rank_at(d, largest, s[s.len() - 2]) == rank_at(d, largest, s.last()) {
        victim(d, largest, s.drop_last())
    } else {
        s.len() - 1
    }
}

/// The list after position `i` has been looked at.
pub open spec fn considered(
    d: Seq<Option<Real>>,
    largest: bool,
    k: int,
    s: Seq<usize>,
    i: usize,
) -> Seq<usize> {
    if d[i as int] is None {
        s
    } else {
        let x = rank_at(d, largest, i);
        if s.len() < k {
            s.insert(slot(d, largest, s, x), i)
        } else if x < rank_at(d, largest, s.last()) {
            let t = s.remove(victim(d, largest, s));
            t.insert(slot(d, largest, t, x), i)
        } else {
            s
        }
    }
}

/// The `k` largest, or smallest, among the first `n` positions.
pub open spec fn chosen(d: Seq<Option<Real>>, largest: bool, k: int, n: nat) -> Seq<usize>
    decreases n,
{
    if n == 0 {
        Seq::empty()
    } else {
        considered(d, largest, k, chosen(d, largest, k, (n - 1) as nat), (n - 1) as usize)
    }
}

/// How many of the first `n` cells hold a value.
pub open spec fn held(d: Seq<Option<Real>>, n: nat) -> nat
    decreases n,
{
    if n == 0 {
        0
    } else {
        held(d, (n - 1) as nat) + if d[n - 1] is Some {
            1nat
        } else {
            0nat
        }
    }
}

/// `s` lists `k` positions, or all there are, of the highest ranks among the
/// first `n`, in ascending order of rank.
pub open spec fn best_of(d: Seq<Option<Real>>, largest: bool, k: int, n: nat, s: Seq<usize>) -> bool {
    &&& s.len() == if held(d, n) < k {
        held(d, n) as int
    } else {
        k
    }
    &&& s.no_duplicates()
    &&& forall|a: int| 0 <= a < s.len() ==> (#[trigger] s[a]) < n && d[s[a] as int] is Some
    &&& forall|a: int, b: int|
        0 <= a <= b < s.len() ==> rank_at(d, largest, #[trigger] s[a]) <= rank_at(d, largest, #[trigger] s[b])
    &&& forall|j: usize|
        j < n && d[j as int] is Some && !(#[trigger] s.contains(j)) ==> s.len() == k && rank_at(
            d,
            largest,
            s.last(),
        ) <= rank_at(d, largest, j)
}

proof fn lemma_slot(d: Seq<Option<Real>>, largest: bool, s: Seq<usize>, x: int)
    requires
        forall|a: int, b: int|
            0 <= a <= b < s.len() ==> rank_at(d, largest, #[trigger] s[a]) <= rank_at(d, largest, #[trigger] s[b]),
    ensures
        0 <= slot(d, largest, s, x) <= s.len(),
        forall|a: int| 0 <= a < slot(d, largest, s, x) ==> rank_at(d, largest, #[trigger] s[a]) <= x,
        forall|a: int| slot(d, largest, s, x) <= a < s.len() ==> rank_at(d, largest, #[trigger] s[a]) > x,
    decreases s.len(),
{
    if s.len() == 0 {
    } else if rank_at(d, largest, s.last()) <= x {
        assert forall|a: int| 0 <= a < s.len() implies rank_at(d, largest, #[trigger] s[a]) <= x by {
            assert(rank_at(d, largest, s[a]) <= rank_at(d, largest, s[s.len() - 1]));
        }
    } else {
        lemma_slot(d, largest, s.drop_last(), x);
        let p = slot(d, largest, s, x);
        assert forall|a: int| 0 <= a < p implies rank_at(d, largest, #[trigger] s[a]) <= x by {
            assert(s.drop_last()[a] == s[a]);
        }
        assert forall|a: int| p <= a < s.len() implies rank_at(d, largest, #[trigger] s[a]) > x by {
            if a < s.len() - 1 {
                assert(s.drop_last()[a] == s[a]);
            }
        }
    }
}

proof fn lemma_victim(d: Seq<Option<Real>>, largest: bool, s: Seq<usize>)
    requires
        s.len() > 0,
    ensures
        0 <= victim(d, largest, s) < s.len(),
        rank_at(d, largest, s[victim(d, largest, s)]) == rank_at(d, largest, s.last()),
    decreases s.len(),
{
    if largest && s.len() >= 2 && rank_at(d, largest, s[s.len() - 2]) == rank_at(d, largest, s.last()) {
        lemma_victim(d, largest, s.drop_last());
    }
}

proof fn lemma_inserted(d: Seq<Option<Real>>, largest: bool, s: Seq<usize>, i: usize)
    requires
        s.no_duplicates(),
        !s.contains(i),
        forall|a: int, b: int|
            0 <= a <= b < s.len() ==> rank_at(d, largest, #[trigger] s[a]) <= rank_at(d, largest, #[trigger] s[b]),
    ensures
        ({
            let p = slot(d, largest, s, rank_at(d, largest, i));
            let t = s.insert(p, i);
            &&& 0 <= p <= s.len()
            &&& t.len() == s.len() + 1
            &&& t.no_duplicates()
            &&& t[p] == i
            &&& forall|j: usize| #[trigger] t.contains(j) <==> j == i || s.contains(j)
            &&& forall|a: int, b: int|
                0 <= a <= b < t.len() ==> rank_at(d, largest, #[trigger] t[a]) <= rank_at(
                    d,
                    largest,
                    #[trigger] t[b],
                )
            &&& rank_at(d, largest, t.last()) == if p == s.len() {
                rank_at(d, largest, i)
            } else {
                rank_at(d, largest, s.last())
            }
        }),
{
    let x = rank_at(d, largest, i);
    lemma_slot(d, largest, s, x);
    let p = slot(d, largest, s, x);
    let t = s.insert(p, i);
    assert forall|j: usize| #[trigger] t.contains(j) <==> j == i || s.contains(j) by {
        if t.contains(j) {
            let w = choose|w: int| 0 <= w < t.len() && t[w] == j;
            if w < p {
                assert(s[w] == j);
            } else if w > p {
                assert(s[w - 1] == j);
            }
        }
        if j == i {
            assert(t[p] == i);
        }
        if s.contains(j) {
            let w = choose|w: int| 0 <= w < s.len() && s[w] == j;
            if w < p {
                assert(t[w] == j);
            } else {
                assert(t[w + 1] == j);
            }
        }
    }
    assert forall|a: int, b: int| 0 <= a <= b < t.len() implies rank_at(d, largest, #[trigger] t[a]) <= rank_at(
        d,
        largest,
        #[trigger] t[b],
    ) by {
        let sa = if a < p {
            a
        } else {
            a - 1
        };
        let sb = if b < p {
            b
        } else {
            b - 1
        };
        if a == p {
            if b > p {
                assert(rank_at(d, largest, s[sb]) > x);
            }
        } else if b == p {
            assert(rank_at(d, largest, s[sa]) <= x);
        } else {
            assert(rank_at(d, largest, s[sa]) <= rank_at(d, largest, s[sb]));
        }
    }
    assert(t.no_duplicates()) by {
        assert forall|a: int, b: int| 0 <= a < b < t.len() implies t[a] != t[b] by {
            if a == p {
                assert(s.contains(s[b - 1]));
            } else if b == p {
                assert(s.contains(s[a]));
            }
        }
    }
}

proof fn lemma_removed(d: Seq<Option<Real>>, largest: bool, r: Seq<usize>)
    requires
        r.len() > 0,
        r.no_duplicates(),
        forall|a: int, b: int|
            0 <= a <= b < r.len() ==> rank_at(d, largest, #[trigger] r[a]) <= rank_at(d, largest, #[trigger] r[b]),
    ensures
        ({
            let v = victim(d, largest, r);
            let t = r.remove(v);
            &&& 0 <= v < r.len()
            &&& rank_at(d, largest, r[v]) == rank_at(d, largest, r.last())
            &&& t.len() == r.len() - 1
            &&& t.no_duplicates()
            &&& forall|j: usize| #[trigger] t.contains(j) <==> j != r[v] && r.contains(j)
            &&& forall|a: int, b: int|
                0 <= a <= b < t.len() ==> rank_at(d, largest, #[trigger] t[a]) <= rank_at(
                    d,
                    largest,
                    #[trigger] t[b],
                )
            &&& t.len() > 0 ==> rank_at(d, largest, t.last()) <= rank_at(d, largest, r.last())
        }),
{
    lemma_victim(d, largest, r);
    let v = victim(d, largest, r);
    let t = r.remove(v);
    assert forall|j: usize| #[trigger] t.contains(j) <==> j != r[v] && r.contains(j) by {
        if t.contains(j) {
            let w = choose|w: int| 0 <= w < t.len() && t[w] == j;
            if w < v {
                assert(r[w] == j);
            } else {
                assert(r[w + 1] == j);
            }
        }
        if j != r[v] && r.contains(j) {
            let w = choose|w: int| 0 <= w < r.len() && r[w] == j;
            if w < v {
                assert(t[w] == j);
            } else {
                assert(t[w - 1] == j);
            }
        }
    }
    assert forall|a: int, b: int| 0 <= a <= b < t.len() implies rank_at(d, largest, #[trigger] t[a]) <= rank_at(
        d,
        largest,
        #[trigger] t[b],
    ) by {
        let ra = if a < v {
            a
        } else {
            a + 1
        };
        let rb = if b < v {
            b
        } else {
            b + 1
        };
        assert(t[a] == r[ra] && t[b] == r[rb]);
    }
    if t.len() > 0 {
        let w = if v == r.len() - 1 {
            r.len() - 2
        } else {
            r.len() - 1
        };
        assert(t.last() == r[w]);
        assert(rank_at(d, largest, r[w]) <= rank_at(d, largest, r[r.len() - 1]));
    }
}

proof fn lemma_considered(d: Seq<Option<Real>>, largest: bool, k: int, n: nat, r: Seq<usize>)
    requires
        k > 0,
        0 < n <= d.len() <= usize::MAX,
        best_of(d, largest, k, (n - 1) as nat, r),
        d[n - 1] is Some,
    ensures
        best_of(d, largest, k, n, considered(d, largest, k, r, (n - 1) as usize)),
{
    let i = (n - 1) as usize;
    let s = considered(d, largest, k, r, i);
    let x = rank_at(d, largest, i);
    assert(!r.contains(i));
    if r.len() < k || x < rank_at(d, largest, r.last()) {
        let t = if r.len() < k {
            r
        } else {
            r.remove(victim(d, largest, r))
        };
        if r.len() >= k {
            lemma_removed(d, largest, r);
        }
        lemma_inserted(d, largest, t, i);
        assert forall|a: int| 0 <= a < s.len() implies (#[trigger] s[a]) < n && d[s[a] as int] is Some by {
            assert(s.contains(s[a]));
            if s[a] != i {
                assert(t.contains(s[a]));
                assert(r.contains(s[a]));
            }
        }
        assert forall|j: usize| j < n && d[j as int] is Some && !(#[trigger] s.contains(j)) implies s.len() == k
            && rank_at(d, largest, s.last()) <= rank_at(d, largest, j) by {
            assert(!t.contains(j));
            assert(j < n - 1);
            if r.len() >= k {
                if r.contains(j) {
                    assert(j == r[victim(d, largest, r)]);
                }
            } else {
                assert(!r.contains(j));
            }
        }
    } else {
        assert forall|j: usize| j < n && d[j as int] is Some && !(#[trigger] s.contains(j)) implies s.len() == k
            && rank_at(d, largest, s.last()) <= rank_at(d, largest, j) by {
            assert(!r.contains(j));
        }
    }
}

/// The chosen positions are the best: each value that was left out ranks behind
/// or level with all that were kept.
pub proof fn law_chosen_best(d: Seq<Option<Real>>, largest: bool, k: int, n: nat)
    requires
        k > 0,
        n <= d.len() <= usize::MAX,
    ensures
        best_of(d, largest, k, n, chosen(d, largest, k, n)),
    decreases n,
{
    let s = chosen(d, largest, k, n);
    if n > 0 {
        law_chosen_best(d, largest, k, (n - 1) as nat);
        let r = chosen(d, largest, k, (n - 1) as nat);
        if d[n - 1] is None {
            assert forall|j: usize| j < n && d[j as int] is Some && !(#[trigger] s.contains(j)) implies s.len() == k
                && rank_at(d, largest, s.last()) <= rank_at(d, largest, j) by {
                assert(!r.contains(j));
                assert(j < n - 1);
            }
        } else {
            lemma_considered(d, largest, k, n, r);
        }
    } else {
        assert(s.no_duplicates());
    }
}

fn rank_of(data: &[Option<Real>], largest: bool, i: usize) -> (r: i64)
    requires
        i < data@.len(),
        data@[i as int] is Some,
    ensures
        r == rank_at(data@, largest, i),
        -0x7fff_ffff_ffff_ffff <= r,
{
    let k: i64 = match data[i] {
        Some(x) => x.order_key(),
        None => 0,
    };
    if largest {
        -k
    } else {
        k
    }
}

fn select_k(data: &[Option<Real>], k: usize, largest: bool) -> (r: Vec<usize>)
    requires
        k > 0,
        column_free_of_nan(data@),
    ensures
        r@ == chosen(data@, largest, k as int, data@.len()),
        best_of(data@, largest, k as int, data@.len(), r@),
{
    let mut s: Vec<usize> = Vec::new();
    let mut i: usize = 0;
    let n: usize = data.len();
    while i < n
        invariant
            k > 0,
            i <= n,
            n == data@.len(),
            s@ == chosen(data@, largest, k as int, i as nat),
        decreases n - i,
    {
        proof {
            law_chosen_best(data@, largest, k as int, i as nat);
        }
        if data[i].is_some() {
            let x: i64 = rank_of(data, largest, i);
            let mut enters: bool = true;
            if s.len() >= k {
                let last: usize = s[s.len() - 1];
                if x < rank_of(data, largest, last) {
                    let mut v: usize = s.len() - 1;
                    let ghost full = s@;
                    assert(full.take(v + 1) =~= full);
                    while largest && v >= 1 && rank_of(data, largest, s[v - 1]) == rank_of(data, largest, s[v])
                        invariant
                            v < s@.len(),
                            s@ == full,
                            n == data@.len(),
                            forall|a: int| 0 <= a < s@.len() ==> (#[trigger] s@[a]) < n && data@[s@[a] as int] is Some,
                            victim(data@, largest, full.take(v + 1)) == victim(data@, largest, full),
                        decreases v,
                    {
                        assert(full.take(v + 1).drop_last() =~= full.take(v as int));
                        v = v - 1;
                    }
                    s.remove(v);
                } else {
                    enters = false;
                }
            }
            if enters {
                let mut p: usize = s.len();
                let ghost t = s@;
                assert(t.take(t.len() as int) =~= t);
                assert forall|a: int| 0 <= a < t.len() implies (#[trigger] t[a]) < n && data@[t[a] as int] is Some by {
                    assert(s@.contains(t[a]));
                }
                while p >= 1 && rank_of(data, largest, s[p - 1]) > x
                    invariant
                        p <= s@.len(),
                        s@ == t,
                        n == data@.len(),
                        forall|a: int| 0 <= a < t.len() ==> (#[trigger] t[a]) < n && data@[t[a] as int] is Some,
                        slot(data@, largest, t.take(p as int), x as int) == slot(data@, largest, t, x as int),
                    decreases p,
                {
                    assert(t.take(p as int).drop_last() =~= t.take(p - 1));
                    p = p - 1;
                }
                s.insert(p, i);
            }
        }
        i += 1;
    }
    proof {
        law_chosen_best(data@, largest, k as int, n as nat);
    }
    s
}

/// Positions of the `k` largest values in descending order of value, missing
/// ones left out.
pub fn top_k(data: &[Option<Real>], k: usize) -> (r: Vec<usize>)
    requires
        column_free_of_nan(data@),
    ensures
        k == 0 ==> r@.len() == 0,
        k > 0 ==> r@ == chosen(data@, true, k as int, data@.len()),
        k > 0 ==> best_of(data@, true, k as int, data@.len(), r@),
{
    if k == 0 {
        return Vec::new();
    }
    select_k(data, k, true)
}

/// Positions of the `k` smallest values in ascending order of value, missing
/// ones left out.
pub fn bottom_k(data: &[Option<Real>], k: usize) -> (r: Vec<usize>)
    requires
        column_free_of_nan(data@),
    ensures
        k == 0 ==> r@.len() == 0,
        k > 0 ==> r@ == chosen(data@, false, k as int, data@.len()),
        k > 0 ==> best_of(data@, false, k as int, data@.len(), r@),
{
    if k == 0 {
        return Vec::new();
    }
    select_k(data, k, false)
}

} // verus!
