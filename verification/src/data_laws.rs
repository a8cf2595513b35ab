//! What the orders, codes and coercions of data are, said of the data alone.
use crate::double::{Real, i32_real, law_counts_read_back, one, rounded};
use crate::grouping::{first_seen, lemma_first_seen};
use crate::ml_data::{Predictor, frame_predictors, full_column, label_codes, place_of, stacked};
use crate::ordering::{comparable, number_order, orders, ranks_in};
use crate::sort::comes_first;
use crate::stats_design::{Items, item_named};
use crate::text::decimal;
use crate::value::{Frame, Val, present, reals};
use vstd::prelude::*;

verus! {

// ── Orders ─────────────────────────────────────────────────────────────────

/// The places of numbers in order: no later one is smaller, equal ones keep
/// their order, and with `decreasing` none is larger.
pub proof fn law_orders(s: Seq<Real>, p: Seq<usize>, i: int, j: int)
    requires
        comparable(s),
        0 <= i < j < s.len(),
    ensures
        orders(s, false, p) ==> s[p[i] as int].key() < s[p[j] as int].key() || (s[p[i] as int].key() == s[p[j] as int].key()
            && p[i] < p[j]),
        orders(s, true, p) ==> s[p[i] as int].key() > s[p[j] as int].key() || (s[p[i] as int].key() == s[p[j] as int].key()
            && p[i] < p[j]),
{
    if orders(s, false, p) || orders(s, true, p) {
        assert(p.contains(p[i]));
        assert(p.contains(p[j]));
        assert(!s[p[i] as int].nan());
        assert(!s[p[j] as int].nan());
    }
    if orders(s, false, p) {
        assert(comes_first(number_order(s, false), p[i], p[j]));
    }
    if orders(s, true, p) {
        assert(comes_first(number_order(s, true), p[i], p[j]));
    }
}

/// Ranks: the smaller of two numbers has the smaller rank, of equal ones the
/// first, and the ranks are one, two, three and so on.
pub proof fn law_ranks(s: Seq<Real>, p: Seq<usize>, r: Seq<Real>, a: usize, b: usize)
    requires
        comparable(s),
        orders(s, false, p),
        ranks_in(p, r),
        a < s.len() < 0x20_0000_0000_0000,
        b < s.len(),
        s[a as int].key() < s[b as int].key() || (s[a as int].key() == s[b as int].key() && a < b),
    ensures
        1 <= r[a as int].whole() < r[b as int].whole() <= s.len(),
{
    assert(p.contains(a));
    assert(p.contains(b));
    let i = choose|i: int| 0 <= i < p.len() && p[i] == a;
    let j = choose|j: int| 0 <= j < p.len() && p[j] == b;
    if j < i {
        law_orders(s, p, j, i);
    }
    law_counts_read_back((i + 1) as nat);
    law_counts_read_back((j + 1) as nat);
    assert(r[p[i] as int] == rounded((i + 1) as nat));
    assert(r[p[j] as int] == rounded((j + 1) as nat));
}

// ── Codes ──────────────────────────────────────────────────────────────────

proof fn lemma_place(d: Seq<Seq<char>>, x: Seq<char>)
    requires
        d.contains(x),
    ensures
        place_of(d, x) < d.len(),
        d[place_of(d, x) as int] == x,
    decreases d.len(),
{
    if d[0] != x {
        let t = d.drop_first();
        let k = choose|k: int| 0 <= k < d.len() && d[k] == x;
        assert(t[k - 1] == x);
        lemma_place(t, x);
    }
}

/// Labels are numbered from one up, without a gap: equal labels have equal
/// numbers, different ones different numbers.
pub proof fn law_label_codes(labels: Seq<Seq<char>>, i: int, j: int)
    requires
        0 <= i < labels.len() < 0x10_0000_0000_0000,
        0 <= j < labels.len(),
    ensures
        labels[i] == labels[j] <==> label_codes(labels)[i] == label_codes(labels)[j],
        1 <= label_codes(labels)[i].whole() <= first_seen(labels).len(),
        first_seen(labels)[label_codes(labels)[i].whole() - 1] == labels[i],
{
    let d = first_seen(labels);
    lemma_first_seen(labels);
    assert(labels.contains(labels[i]));
    assert(labels.contains(labels[j]));
    lemma_place(d, labels[i]);
    lemma_place(d, labels[j]);
    law_counts_read_back(place_of(d, labels[i]) + 1);
    law_counts_read_back(place_of(d, labels[j]) + 1);
}

// ── Columns ────────────────────────────────────────────────────────────────

/// The predictors of a data frame: columns of the frame under their names,
/// without the response, each with a number in every row.
pub proof fn law_predictors(f: Frame, skip: Option<Seq<char>>, nrow: nat, k: nat)
    requires
        k <= f.columns.len(),
    ensures
        forall|i: int|
            #![trigger frame_predictors(f, skip, nrow, k)[i]]
            0 <= i < frame_predictors(f, skip, nrow, k).len() ==> {
                let p = frame_predictors(f, skip, nrow, k)[i];
                &&& p.1.len() == nrow
                &&& skip != Some(p.0)
                &&& exists|c: int|
                    0 <= c < k && (#[trigger] f.columns[c]).0 == p.0 && full_column(f.columns[c].1, nrow) == Some(p.1)
            },
        forall|c: int|
            0 <= c < k && skip != Some((#[trigger] f.columns[c]).0) && full_column(f.columns[c].1, nrow) is Some
                ==> frame_predictors(f, skip, nrow, k).contains((f.columns[c].0, full_column(f.columns[c].1, nrow)->0)),
    decreases k,
{
    if k > 0 {
        let m = (k - 1) as nat;
        law_predictors(f, skip, nrow, m);
        let s = frame_predictors(f, skip, nrow, m);
        let all = frame_predictors(f, skip, nrow, k);
        assert forall|i: int| #![trigger all[i]] 0 <= i < all.len() implies {
            let p = all[i];
            &&& p.1.len() == nrow
            &&& skip != Some(p.0)
            &&& exists|c: int|
                0 <= c < k && (#[trigger] f.columns[c]).0 == p.0 && full_column(f.columns[c].1, nrow) == Some(p.1)
        } by {
            if i < s.len() {
                assert(all[i] == s[i]);
                let c = choose|c: int|
                    0 <= c < m && (#[trigger] f.columns[c]).0 == s[i].0 && full_column(f.columns[c].1, nrow) == Some(s[i].1);
                assert(f.columns[c].0 == all[i].0);
            } else {
                assert(f.columns[k - 1].0 == all[i].0);
            }
        }
        assert forall|c: int|
            0 <= c < k && skip != Some((#[trigger] f.columns[c]).0) && full_column(f.columns[c].1, nrow) is Some implies all.contains(
            (f.columns[c].0, full_column(f.columns[c].1, nrow)->0),
        ) by {
            let want = (f.columns[c].0, full_column(f.columns[c].1, nrow)->0);
            if c < m {
                assert(s.contains(want));
                let w = choose|w: int| 0 <= w < s.len() && s[w] == want;
                assert(all[w] == want);
            } else {
                assert(all[all.len() - 1] == want);
            }
        }
    }
}

/// Columns one after the other: number `i` of column `j`.
pub proof fn law_stacked(p: Seq<Predictor>, k: nat, nrow: nat, i: int, j: int)
    requires
        k <= p.len(),
        forall|c: int| 0 <= c < p.len() ==> (#[trigger] p[c]).1.len() == nrow,
        0 <= i < nrow,
        0 <= j < k,
    ensures
        stacked(p, k).len() == k * nrow,
        0 <= j * nrow + i < stacked(p, k).len(),
        stacked(p, k)[j * nrow + i] == p[j].1[i],
    decreases k,
{
    lemma_stacked_size(p, k, nrow);
    lemma_stacked_size(p, (k - 1) as nat, nrow);
    assert(j * nrow + i < k * nrow) by (nonlinear_arith)
        requires
            0 <= j < k,
            0 <= i < nrow,
    ;
    assert(0 <= j * nrow) by (nonlinear_arith)
        requires
            0 <= j,
    ;
    if j < k - 1 {
        law_stacked(p, (k - 1) as nat, nrow, i, j);
    } else {
        assert(p[k - 1].1.len() == nrow);
    }
}

proof fn lemma_stacked_size(p: Seq<Predictor>, k: nat, nrow: nat)
    requires
        k <= p.len(),
        forall|c: int| 0 <= c < p.len() ==> (#[trigger] p[c]).1.len() == nrow,
    ensures
        stacked(p, k).len() == k * nrow,
    decreases k,
{
    if k > 0 {
        lemma_stacked_size(p, (k - 1) as nat, nrow);
        assert(p[k - 1].1.len() == nrow);
        assert(k * nrow == (k - 1) * nrow + nrow) by (nonlinear_arith)
            requires
                k > 0,
        ;
    } else {
        assert(0 * nrow == 0) by (nonlinear_arith);
    }
}

/// The numbers that are present: all of them where none is missing, and a
/// missing one changes nothing.
pub proof fn law_present(s: Seq<Option<Real>>, x: Option<Real>)
    ensures
        (forall|i: int| 0 <= i < s.len() ==> (#[trigger] s[i]) is Some) ==> present(s) == Seq::new(
            s.len(),
            |i: int| s[i]->0,
        ),
        x is None ==> present(s.push(x)) == present(s),
        x is Some ==> present(s.push(x)) == present(s).push(x->0),
        present(s).len() <= s.len(),
    decreases s.len(),
{
    assert(s.push(x).drop_last() =~= s);
    if s.len() > 0 {
        let t = s.drop_last();
        law_present(t, s.last());
        if forall|i: int| 0 <= i < s.len() ==> (#[trigger] s[i]) is Some {
            assert forall|i: int| 0 <= i < t.len() implies (#[trigger] t[i]) is Some by {
                assert(t[i] == s[i]);
            }
            assert(s[s.len() - 1] is Some);
            assert(present(s) =~= Seq::new(s.len(), |i: int| s[i]->0));
        }
    } else {
        assert(present(s) =~= Seq::new(s.len(), |i: int| s[i]->0));
    }
}

/// Integers and truth values as numbers: an integer keeps its value, yes is one
/// and no is zero, and what is missing stays missing.
pub proof fn law_coercions(ints: Seq<Option<i32>>, bools: Seq<Option<bool>>, i: int)
    ensures
        0 <= i < ints.len() ==> ({
            let r = reals(Val::Integer(ints, None))->0;
            &&& r.len() == ints.len()
            &&& ints[i] is None ==> r[i] is None
            &&& ints[i] is Some ==> r[i] is Some && (r[i]->0).as_long() == ints[i]->0
        }),
        0 <= i < bools.len() ==> ({
            let r = reals(Val::Logical(bools, None))->0;
            &&& r.len() == bools.len()
            &&& bools[i] is None ==> r[i] is None
            &&& bools[i] == Some(true) ==> r[i] == Some(one())
            &&& bools[i] == Some(false) ==> r[i] == Some(crate::double::zero())
        }),
{
    if 0 <= i < ints.len() && ints[i] is Some {
        let n = ints[i]->0;
        if n < 0 {
            law_counts_read_back((-n) as nat);
            assert(i32_real(n) == crate::double::long_real(-((-n) as nat as int) as i64));
        } else {
            law_counts_read_back(n as nat);
        }
    }
}

/// The item with a name is the first one that has it.
pub proof fn law_item_named(items: Items, name: Seq<char>, k: int)
    requires
        0 <= k < items.len(),
        items[k].0 == Some(name),
        forall|i: int| 0 <= i < k ==> (#[trigger] items[i]).0 != Some(name),
    ensures
        item_named(items, name) == items[k].1,
    decreases k,
{
    if k > 0 {
        assert(items[0].0 != Some(name));
        let t = items.drop_first();
        assert forall|i: int| 0 <= i < k - 1 implies (#[trigger] t[i]).0 != Some(name) by {
            assert(t[i] == items[i + 1]);
        }
        law_item_named(t, name, k - 1);
    }
}

// ── Decimal digits ─────────────────────────────────────────────────────────

/// The value of decimal digits.
pub open spec fn digits_value(s: Seq<char>) -> int
    decreases s.len(),
{
    if s.len() == 0 {
        0
    } else {
        10 * digits_value(s.drop_last()) + (s.last() as int - '0' as int)
    }
}

/// The digits of a number have its value, and no zero stands before them.
pub proof fn law_decimal(n: nat)
    ensures
        digits_value(decimal(n)) == n,
        forall|i: int| 0 <= i < decimal(n).len() ==> '0' as int <= (#[trigger] decimal(n)[i]) as int <= '9' as int,
        n > 0 ==> decimal(n)[0] != '0',
        decimal(n).len() > 0,
    decreases n,
{
    if n < 10 {
        let s = decimal(n);
        assert(s.drop_last() =~= Seq::<char>::empty());
        assert(digits_value(s.drop_last()) == 0);
    } else {
        law_decimal(n / 10);
        assert(decimal(n).drop_last() =~= decimal(n / 10));
    }
}

} // verus!
