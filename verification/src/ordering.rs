//! Repeated values, sort orders and ranks of vectors.
use crate::double::{FloatOp, Fpu, NAN_BITS, Real, num, rounded};
use crate::sort::{ascends, permutes, preorder, sort_indices};
use crate::stats_matrix::failed;
use crate::text::{chars_before, chars_of, lemma_dictionary, opt_text, opt_texts, same_text, text_before};
use crate::value::{
    ErrKind, EvalArg, R2Err, RVal, Val, arg_named, fail, logicals, named, no_attrs, nth, nth_arg, nums_val, reals,
    rnums,
};
use vstd::prelude::*;

verus! {

/// 1e-10
pub const CLOSE_BITS: u64 = 0x3ddb_7cdf_d9d7_bdbb;

/// Two to the minus 52.
pub const EPSILON_BITS: u64 = 0x3cb0_0000_0000_0000;

/// Two numbers within a distance.
pub open spec fn within<F: Fn(FloatOp, Real, Real, Real) -> Real>(fpu: &Fpu<F>, a: Real, b: Real, eps: Real) -> bool {
    fpu.minus(a, b).absolute().below(eps)
}

fn is_within<F: Fn(FloatOp, Real, Real, Real) -> Real>(fpu: &Fpu<F>, a: Real, b: Real, eps: Real) -> (r: bool)
    requires
        fpu.wf(),
    ensures
        r == within(fpu, a, b, eps),
{
    fpu.diff(a, b).abs().lt(&eps)
}

// ── duplicated ─────────────────────────────────────────────────────────────

/// The number at `i` was met before, up to a small distance.
pub open spec fn number_again<F: Fn(FloatOp, Real, Real, Real) -> Real>(fpu: &Fpu<F>, s: Seq<Option<Real>>, i: int) -> bool {
    s[i] is Some && exists|j: int|
        0 <= j < i && (#[trigger] s[j]) is Some && within(fpu, s[j]->0, s[i]->0, num(CLOSE_BITS))
}

/// The text at `i` was met before.
pub open spec fn text_again(s: Seq<Option<Seq<char>>>, i: int) -> bool {
    s[i] is Some && exists|j: int| 0 <= j < i && #[trigger] s[j] == s[i]
}

fn numbers_again<F: Fn(FloatOp, Real, Real, Real) -> Real>(fpu: &Fpu<F>, s: &Vec<Option<Real>>) -> (r: Vec<Option<bool>>)
    requires
        fpu.wf(),
    ensures
        r@ == Seq::new(s@.len(), |i: int| Some(number_again(fpu, s@, i))),
{
    let close = Real { bits: CLOSE_BITS };
    let mut out: Vec<Option<bool>> = Vec::new();
    let mut i: usize = 0;
    while i < s.len()
        invariant
            fpu.wf(),
            close == num(CLOSE_BITS),
            i <= s.len(),
            out@ == Seq::new(i as nat, |i: int| Some(number_again(fpu, s@, i))),
        decreases s.len() - i,
    {
        let mut again: bool = false;
        if let Some(x) = s[i] {
            let mut j: usize = 0;
            while j < i
                invariant
                    fpu.wf(),
                    close == num(CLOSE_BITS),
                    i < s.len(),
                    j <= i,
                    s@[i as int] == Some(x),
                    again == exists|k: int|
                        0 <= k < j && (#[trigger] s@[k]) is Some && within(fpu, s@[k]->0, x, num(CLOSE_BITS)),
                decreases i - j,
            {
                if let Some(y) = s[j] {
                    if is_within(fpu, y, x, close) {
                        again = true;
                        assert(s@[j as int] is Some);
                    }
                }
                j += 1;
            }
        }
        out.push(Some(again));
        i += 1;
        assert(out@ =~= Seq::new(i as nat, |i: int| Some(number_again(fpu, s@, i))));
    }
    out
}

fn texts_again(s: &Vec<Option<String>>) -> (r: Vec<Option<bool>>)
    ensures
        r@ == Seq::new(s@.len(), |i: int| Some(text_again(opt_texts(s@), i))),
{
    let ghost all = opt_texts(s@);
    let mut out: Vec<Option<bool>> = Vec::new();
    let mut i: usize = 0;
    while i < s.len()
        invariant
            all == opt_texts(s@),
            i <= s.len(),
            out@ == Seq::new(i as nat, |i: int| Some(text_again(all, i))),
        decreases s.len() - i,
    {
        assert(all[i as int] == opt_text(s@[i as int]));
        let mut again: bool = false;
        if let Some(x) = &s[i] {
            let mut j: usize = 0;
            while j < i
                invariant
                    all == opt_texts(s@),
                    i < s.len(),
                    j <= i,
                    all[i as int] == Some(x@),
                    again == exists|k: int| 0 <= k < j && #[trigger] all[k] == all[i as int],
                decreases i - j,
            {
                assert(all[j as int] == opt_text(s@[j as int]));
                if let Some(y) = &s[j] {
                    if same_text(y.as_str(), x.as_str()) {
                        again = true;
                    }
                }
                j += 1;
            }
        }
        out.push(Some(again));
        i += 1;
        assert(out@ =~= Seq::new(i as nat, |i: int| Some(text_again(all, i))));
    }
    out
}

/// Marks the entries of a vector that were met before. A missing entry never
/// counts as met.
pub fn bi_duplicated<F: Fn(FloatOp, Real, Real, Real) -> Real>(fpu: &Fpu<F>, a: &[EvalArg]) -> (r: Result<RVal, R2Err>)
    requires
        fpu.wf(),
    ensures
        match nth(a@, 0) {
            Val::Numeric(s, _) => r is Ok && r->Ok_0.deep() == Val::Logical(
                Seq::new(s.len(), |i: int| Some(number_again(fpu, s, i))),
                None,
            ),
            Val::Character(s, _) => r is Ok && r->Ok_0.deep() == Val::Logical(
                Seq::new(s.len(), |i: int| Some(text_again(s, i))),
                None,
            ),
            _ => failed(r, (ErrKind::Type, "duplicated() not supported for this type"@)),
        },
{
    let first: RVal = nth_arg(a, 0);
    proof {
        reveal_with_fuel(RVal::deep, 2);
    }
    match &first {
        RVal::Numeric(v, _) => Ok(RVal::Logical(numbers_again(fpu, v), no_attrs())),
        RVal::Character(v, _) => Ok(RVal::Logical(texts_again(v), no_attrs())),
        _ => Err(fail(ErrKind::Type, "duplicated() not supported for this type")),
    }
}

// ── unique ─────────────────────────────────────────────────────────────────

/// One of the numbers lies at the number, up to rounding.
pub open spec fn met<F: Fn(FloatOp, Real, Real, Real) -> Real>(fpu: &Fpu<F>, s: Seq<Real>, x: Real) -> bool {
    exists|j: int| 0 <= j < s.len() && within(fpu, #[trigger] s[j], x, num(EPSILON_BITS))
}

/// The numbers at their first occurrences.
pub open spec fn firsts<F: Fn(FloatOp, Real, Real, Real) -> Real>(fpu: &Fpu<F>, s: Seq<Option<Real>>) -> Seq<Real>
    decreases s.len(),
{
    if s.len() == 0 {
        Seq::empty()
    } else {
        let d = firsts(fpu, s.drop_last());
        match s.last() {
            Some(x) => if met(fpu, d, x) {
                d
            } else {
                d.push(x)
            },
            None => d,
        }
    }
}

/// The numbers of a vector, each once, at their first occurrences; missing ones
/// are left out.
pub fn bi_unique<F: Fn(FloatOp, Real, Real, Real) -> Real>(fpu: &Fpu<F>, a: &[EvalArg]) -> (r: Result<RVal, R2Err>)
    requires
        fpu.wf(),
    ensures
        match reals(nth(a@, 0)) {
            None => failed(r, (ErrKind::Type, "cannot coerce to numeric"@)),
            Some(s) => r is Ok && r->Ok_0.deep() == nums_val(firsts(fpu, s)),
        },
{
    let v: Vec<Option<Real>> = match nth_arg(a, 0).as_reals() {
        Ok(v) => v,
        Err(e) => {
            return Err(e);
        },
    };
    let eps = Real { bits: EPSILON_BITS };
    let mut seen: Vec<Real> = Vec::new();
    let mut i: usize = 0;
    assert(v@.take(0) =~= Seq::<Option<Real>>::empty());
    while i < v.len()
        invariant
            fpu.wf(),
            eps == num(EPSILON_BITS),
            i <= v.len(),
            seen@ == firsts(fpu, v@.take(i as int)),
        decreases v.len() - i,
    {
        assert(v@.take(i + 1).drop_last() =~= v@.take(i as int));
        if let Some(x) = v[i] {
            let mut known: bool = false;
            let mut j: usize = 0;
            while j < seen.len()
                invariant
                    fpu.wf(),
                    eps == num(EPSILON_BITS),
                    j <= seen.len(),
                    known == exists|k: int| 0 <= k < j && within(fpu, #[trigger] seen@[k], x, num(EPSILON_BITS)),
                decreases seen.len() - j,
            {
                if is_within(fpu, seen[j], x, eps) {
                    known = true;
                }
                j += 1;
            }
            if !known {
                seen.push(x);
            }
        }
        i += 1;
    }
    assert(v@.take(v@.len() as int) =~= v@);
    Ok(rnums(&seen))
}

/// What is left of a vector without repeats is its own, and no number of it
/// lies at an earlier one.
pub proof fn law_unique_apart<F: Fn(FloatOp, Real, Real, Real) -> Real>(fpu: &Fpu<F>, s: Seq<Option<Real>>)
    ensures
        forall|i: int| 0 <= i < firsts(fpu, s).len() ==> s.contains(Some(#[trigger] firsts(fpu, s)[i])),
        forall|i: int, j: int|
            0 <= i < j < firsts(fpu, s).len() ==> !within(
                fpu,
                #[trigger] firsts(fpu, s)[i],
                #[trigger] firsts(fpu, s)[j],
                num(EPSILON_BITS),
            ),
    decreases s.len(),
{
    if s.len() > 0 {
        law_unique_apart(fpu, s.drop_last());
        let d = firsts(fpu, s.drop_last());
        let all = firsts(fpu, s);
        assert forall|i: int| 0 <= i < all.len() implies s.contains(Some(#[trigger] all[i])) by {
            if i < d.len() {
                let k = choose|k: int| 0 <= k < s.len() - 1 && s.drop_last()[k] == Some(d[i]);
                assert(s.drop_last().contains(Some(d[i])));
                assert(s[k] == Some(all[i]));
            } else {
                assert(s[s.len() - 1] == Some(all[i]));
            }
        }
    }
}

// ── order ──────────────────────────────────────────────────────────────────

/// A number, or a NaN where it is missing.
pub open spec fn or_nan(x: Option<Real>) -> Real {
    match x {
        Some(v) => v,
        None => num(NAN_BITS),
    }
}

/// The order of numbers, missing ones and NaNs equal to all.
pub open spec fn number_order(s: Seq<Real>, decreasing: bool) -> spec_fn(usize, usize) -> bool {
    |i: usize, j: usize|
        if decreasing {
            !s[i as int].below(s[j as int])
        } else {
            !s[j as int].below(s[i as int])
        }
}

/// None of the numbers is a NaN.
pub open spec fn comparable(s: Seq<Real>) -> bool {
    forall|i: int| 0 <= i < s.len() ==> !(#[trigger] s[i]).nan()
}

/// `p` lists the places in order; where the numbers hold a NaN it lists them
/// in some order.
pub open spec fn orders(s: Seq<Real>, decreasing: bool, p: Seq<usize>) -> bool {
    &&& permutes(p, s.len() as int)
    &&& comparable(s) ==> ascends(number_order(s, decreasing), p)
}

pub(crate) fn order_numbers(s: &Vec<Real>, decreasing: bool) -> (p: Vec<usize>)
    ensures
        orders(s@, decreasing, p@),
{
    let ghost rel = number_order(s@, decreasing);
    let f = |i: usize, j: usize| -> (r: bool)
        requires
            i < s@.len(),
            j < s@.len(),
        ensures
            r == (if decreasing {
                !s@[i as int].below(s@[j as int])
            } else {
                !s@[j as int].below(s@[i as int])
            }),
        {
            if decreasing {
                !s[i].lt(&s[j])
            } else {
                !s[j].lt(&s[i])
            }
        };
    proof {
        if comparable(s@) {
            let n = s@.len() as int;
            assert forall|a: usize, b: usize| a < n && b < n implies #[trigger] rel(a, b) || rel(b, a) by {
                assert(!s@[a as int].nan() && !s@[b as int].nan());
            }
            assert forall|a: usize, b: usize, c: usize|
                a < n && b < n && c < n && #[trigger] rel(a, b) && #[trigger] rel(b, c) implies rel(a, c) by {
                assert(!s@[a as int].nan() && !s@[b as int].nan() && !s@[c as int].nan());
            }
            assert(preorder(rel, n));
        }
    }
    sort_indices(s.len(), &f, Ghost(rel))
}

/// The order of texts, a missing one as the empty text.
pub open spec fn text_order(s: Seq<Seq<char>>, decreasing: bool) -> spec_fn(usize, usize) -> bool {
    |i: usize, j: usize|
        if decreasing {
            !text_before(s[i as int], s[j as int])
        } else {
            !text_before(s[j as int], s[i as int])
        }
}

pub open spec fn or_empty(s: Seq<Option<Seq<char>>>) -> Seq<Seq<char>> {
    Seq::new(
        s.len(),
        |i: int|
            match s[i] {
                Some(t) => t,
                None => Seq::empty(),
            },
    )
}

/// Places counted from one, in the range of an integer vector: a place beyond it
/// wraps around.
pub open spec fn from_one(p: Seq<usize>) -> Val {
    Val::Integer(Seq::new(p.len(), |i: int| Some((p[i] + 1) as i32)), None)
}

fn count_from_one(p: &Vec<usize>) -> (r: RVal)
    requires
        permutes(p@, p@.len() as int),
    ensures
        r.deep() == from_one(p@),
{
    let mut out: Vec<Option<i32>> = Vec::new();
    let mut i: usize = 0;
    while i < p.len()
        invariant
            permutes(p@, p@.len() as int),
            i <= p.len(),
            out@ == Seq::new(i as nat, |i: int| Some((p@[i] + 1) as i32)),
        decreases p.len() - i,
    {
        assert(p@.contains(p@[i as int]));
        out.push(Some((p[i] + 1) as i32));
        i += 1;
        assert(out@ =~= Seq::new(i as nat, |i: int| Some((p@[i] + 1) as i32)));
    }
    let r = RVal::Integer(out, no_attrs());
    assert(r.deep()->Integer_0 =~= from_one(p@)->Integer_0);
    r
}

/// The first entry of a switch is true.
pub open spec fn first_true(v: Option<Val>) -> bool {
    match v {
        None => false,
        Some(x) => match logicals(x) {
            None => false,
            Some(s) => s.len() > 0 && s[0] == Some(true),
        },
    }
}

pub(crate) fn is_first_true(v: Option<&RVal>) -> (r: bool)
    ensures
        r == match v {
            Some(x) => first_true(Some(x.deep())),
            None => false,
        },
{
    match v {
        None => false,
        Some(x) => match x.as_logicals() {
            Err(_) => false,
            Ok(s) => if s.len() > 0 {
                match s[0] {
                    Some(b) => b,
                    None => false,
                }
            } else {
                false
            },
        },
    }
}

pub(crate) fn fill_nan(v: &Vec<Option<Real>>, n: usize) -> (r: Vec<Real>)
    ensures
        r@ == Seq::new(
            n as nat,
            |i: int|
                if i < v@.len() {
                    or_nan(v@[i])
                } else {
                    num(NAN_BITS)
                },
        ),
{
    let ghost want = Seq::new(
        n as nat,
        |i: int|
            if i < v@.len() {
                or_nan(v@[i])
            } else {
                num(NAN_BITS)
            },
    );
    let mut out: Vec<Real> = Vec::new();
    let mut i: usize = 0;
    while i < n
        invariant
            i <= n,
            want == Seq::new(
                n as nat,
                |i: int|
                    if i < v@.len() {
                        or_nan(v@[i])
                    } else {
                        num(NAN_BITS)
                    },
            ),
            out@ == want.take(i as int),
        decreases n - i,
    {
        let x: Real = if i < v.len() {
            match v[i] {
                Some(x) => x,
                None => Real { bits: NAN_BITS },
            }
        } else {
            Real { bits: NAN_BITS }
        };
        out.push(x);
        assert(out@ =~= want.take(i + 1));
        i += 1;
    }
    assert(out@ =~= want);
    out
}

pub open spec fn nan_filled(s: Seq<Option<Real>>) -> Seq<Real> {
    Seq::new(s.len(), |i: int| or_nan(s[i]))
}

fn order_texts(v: &Vec<Option<String>>, decreasing: bool) -> (p: Vec<usize>)
    ensures
        permutes(p@, v@.len() as int),
        ascends(text_order(or_empty(opt_texts(v@)), decreasing), p@),
{
    let ghost all = or_empty(opt_texts(v@));
    let mut rows: Vec<Vec<char>> = Vec::new();
    let mut i: usize = 0;
    while i < v.len()
        invariant
            all == or_empty(opt_texts(v@)),
            i <= v.len(),
            rows@.len() == i,
            forall|k: int| 0 <= k < i ==> (#[trigger] rows@[k])@ == all[k],
        decreases v.len() - i,
    {
        assert(opt_texts(v@)[i as int] == opt_text(v@[i as int]));
        let row: Vec<char> = match &v[i] {
            Some(s) => chars_of(s.as_str()),
            None => Vec::new(),
        };
        assert(row@ =~= all[i as int]);
        rows.push(row);
        i += 1;
    }
    let ghost rel = text_order(all, decreasing);
    let f = |i: usize, j: usize| -> (r: bool)
        requires
            i < rows@.len(),
            j < rows@.len(),
        ensures
            r == (if decreasing {
                !text_before(rows@[i as int]@, rows@[j as int]@)
            } else {
                !text_before(rows@[j as int]@, rows@[i as int]@)
            }),
        {
            if decreasing {
                !chars_before(&rows[i], &rows[j])
            } else {
                !chars_before(&rows[j], &rows[i])
            }
        };
    proof {
        let n = all.len() as int;
        assert forall|a: usize, b: usize| a < n && b < n implies #[trigger] rel(a, b) || rel(b, a) by {
            lemma_dictionary(all[a as int], all[b as int], all[b as int]);
        }
        assert forall|a: usize, b: usize, c: usize|
            a < n && b < n && c < n && #[trigger] rel(a, b) && #[trigger] rel(b, c) implies rel(a, c) by {
            lemma_dictionary(all[a as int], all[b as int], all[c as int]);
            lemma_dictionary(all[c as int], all[b as int], all[a as int]);
        }
    }
    sort_indices(v.len(), &f, Ghost(rel))
}

/// The places of a vector's entries in ascending or descending order, counted
/// from one; equal entries in the order of their places. Where numbers are
/// missing or NaNs every place is listed, in some order.
pub fn bi_order(a: &[EvalArg]) -> (r: Result<RVal, R2Err>)
    ensures
        match nth(a@, 0) {
            Val::Numeric(s, _) => exists|p: Seq<usize>| #[trigger]
                orders(nan_filled(s), first_true(named(a@, "decreasing"@)), p) && r is Ok && r->Ok_0.deep() == from_one(p),
            Val::Character(s, _) => exists|p: Seq<usize>| #[trigger]
                permutes(p, s.len() as int) && ascends(
                    text_order(or_empty(s), first_true(named(a@, "decreasing"@))),
                    p,
                ) && r is Ok && r->Ok_0.deep() == from_one(p),
            _ => failed(r, (ErrKind::Type, "order() needs numeric or character"@)),
        },
{
    let decreasing: bool = is_first_true(arg_named(a, "decreasing"));
    let first: RVal = nth_arg(a, 0);
    proof {
        reveal_with_fuel(RVal::deep, 2);
    }
    match &first {
        RVal::Numeric(v, _) => {
            let s: Vec<Real> = fill_nan(v, v.len());
            assert(s@ =~= nan_filled(v@));
            let p: Vec<usize> = order_numbers(&s, decreasing);
            let ghost ord = p@;
            let out: RVal = count_from_one(&p);
            assert(nth(a@, 0)->Numeric_0 == v@);
            assert(orders(nan_filled(nth(a@, 0)->Numeric_0), first_true(named(a@, "decreasing"@)), ord));
            assert(out.deep() == from_one(ord));
            Ok(out)
        },
        RVal::Character(v, _) => {
            let p: Vec<usize> = order_texts(v, decreasing);
            let ghost ord = p@;
            let out: RVal = count_from_one(&p);
            assert(nth(a@, 0)->Character_0 == opt_texts(v@));
            assert(permutes(ord, nth(a@, 0)->Character_0.len() as int));
            assert(ascends(text_order(or_empty(nth(a@, 0)->Character_0), first_true(named(a@, "decreasing"@))), ord));
            assert(out.deep() == from_one(ord));
            Ok(out)
        },
        _ => Err(fail(ErrKind::Type, "order() needs numeric or character")),
    }
}

// ── rank ───────────────────────────────────────────────────────────────────

/// Each place's rank in an order, counted from one.
pub open spec fn ranks_in(p: Seq<usize>, r: Seq<Real>) -> bool {
    &&& r.len() == p.len()
    &&& forall|k: int| 0 <= k < p.len() ==> r[#[trigger] p[k] as int] == rounded((k + 1) as nat)
}

/// The ranks of numbers in ascending order; equal numbers rank in the order of
/// their places.
pub fn bi_rank(a: &[EvalArg]) -> (r: Result<RVal, R2Err>)
    ensures
        match reals(nth(a@, 0)) {
            None => failed(r, (ErrKind::Type, "cannot coerce to numeric"@)),
            Some(s) => exists|p: Seq<usize>, q: Seq<Real>| #[trigger]
                orders(nan_filled(s), false, p) && #[trigger] ranks_in(p, q) && r is Ok && r->Ok_0.deep() == nums_val(q),
        },
{
    let v: Vec<Option<Real>> = match nth_arg(a, 0).as_reals() {
        Ok(v) => v,
        Err(e) => {
            return Err(e);
        },
    };
    let n: usize = v.len();
    let s: Vec<Real> = fill_nan(&v, n);
    assert(s@ =~= nan_filled(v@));
    let p: Vec<usize> = order_numbers(&s, false);
    let mut ranks: Vec<Real> = Vec::new();
    let mut i: usize = 0;
    while i < n
        invariant
            i <= n,
            ranks@.len() == i,
        decreases n - i,
    {
        ranks.push(Real { bits: 0 });
        i += 1;
    }
    let mut k: usize = 0;
    while k < n
        invariant
            permutes(p@, n as int),
            ranks@.len() == n,
            k <= n,
            forall|j: int| 0 <= j < k ==> ranks@[#[trigger] p@[j] as int] == rounded((j + 1) as nat),
        decreases n - k,
    {
        assert(p@.contains(p@[k as int]));
        let at: usize = p[k];
        let ghost before = ranks@;
        ranks.set(at, Real::from_u64(k as u64 + 1));
        assert forall|j: int| 0 <= j < k + 1 implies ranks@[#[trigger] p@[j] as int] == rounded((j + 1) as nat) by {
            assert(p@.contains(p@[j]));
            if j < k {
                assert(p@[j] != p@[k as int]);
                assert(before[p@[j] as int] == rounded((j + 1) as nat));
            }
        }
        k += 1;
    }
    proof {
        assert(ranks_in(p@, ranks@));
    }
    Ok(rnums(&ranks))
}

} // verus!
