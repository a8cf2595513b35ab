//! Reductions over a window that slides along a column.
//!
//! Output `i` belongs to the cells `i` to `i + window - 1`. It is missing where
//! one of them is.
use crate::double::{FloatOp, Fpu, Real, rounded};
use crate::kernel::{deviations, has_na, values};
use crate::kernel_par::{ScanOp, fold_slice, folded, scan_combine, scan_identity};
use crate::value::present;
use std::collections::VecDeque;
use vstd::prelude::*;

verus! {

#[derive(Clone, Copy, PartialEq, Eq, Structural, Debug)]
pub enum RollingOp {
    Sum,
    Mean,
    Max,
    Min,
    Sd,
}

/// The sum that slides along: what leaves the window is taken off, what enters
/// is added; missing cells count for nothing.
pub open spec fn slide<F: Fn(FloatOp, Real, Real, Real) -> Real>(
    fpu: &Fpu<F>,
    d: Seq<Option<Real>>,
    w: int,
    i: nat,
) -> Real
    decreases i,
{
    if i == 0 {
        folded(fpu, ScanOp::Cumsum, present(d.take(w)))
    } else {
        let s = slide(fpu, d, w, (i - 1) as nat);
        let off = match d[i - 1] {
            Some(x) => fpu.minus(s, x),
            None => s,
        };
        match d[i - 1 + w] {
            Some(x) => fpu.plus(off, x),
            None => off,
        }
    }
}

/// How many values come before the first NaN.
pub open spec fn lead(s: Seq<Real>) -> nat
    decreases s.len(),
{
    if s.len() == 0 || s[0].nan() {
        0
    } else {
        1 + lead(s.drop_first())
    }
}

/// `a` is at least as good as `b`: no smaller, or no larger; false where either
/// is a NaN.
pub open spec fn as_good(a: Real, b: Real, largest: bool) -> bool {
    !a.nan() && !b.nan() && if largest {
        a.key() >= b.key()
    } else {
        a.key() <= b.key()
    }
}

/// `p` is where the window's extreme stands: the last of the best among the
/// values before the first NaN, or the first value where that is a NaN.
pub open spec fn picks(s: Seq<Real>, largest: bool, p: int) -> bool {
    let e = lead(s) as int;
    if e == 0 {
        p == 0
    } else {
        &&& 0 <= p < e
        &&& forall|j: int| 0 <= j < p ==> as_good(s[p], #[trigger] s[j], largest)
        &&& forall|j: int| p < j < e ==> !as_good(#[trigger] s[j], s[p], largest)
    }
}

/// The standard deviation of a window without missing values.
pub open spec fn window_sd<F: Fn(FloatOp, Real, Real, Real) -> Real>(fpu: &Fpu<F>, s: Seq<Real>) -> Real {
    let mean = fpu.over(folded(fpu, ScanOp::Cumsum, s), rounded(s.len()));
    fpu.sqrt(
        fpu.over(folded(fpu, ScanOp::Cumsum, deviations(fpu, s, mean)), rounded((s.len() - 1) as nat)),
    )
}

/// `r` is the output for the window that starts at `i`.
pub open spec fn rolls<F: Fn(FloatOp, Real, Real, Real) -> Real>(
    fpu: &Fpu<F>,
    op: RollingOp,
    d: Seq<Option<Real>>,
    w: int,
    i: int,
    r: Option<Real>,
) -> bool {
    let win = d.subrange(i, i + w);
    if has_na(win) {
        r is None
    } else {
        match op {
            RollingOp::Sum => r == Some(slide(fpu, d, w, i as nat)),
            RollingOp::Mean => r == Some(fpu.over(slide(fpu, d, w, i as nat), rounded(w as nat))),
            RollingOp::Max => r is Some && exists|p: int| #[trigger]
                picks(values(win), true, p) && r->0 == values(win)[p],
            RollingOp::Min => r is Some && exists|p: int| #[trigger]
                picks(values(win), false, p) && r->0 == values(win)[p],
            RollingOp::Sd => if w < 2 {
                r is None
            } else {
                r == Some(window_sd(fpu, values(win)))
            },
        }
    }
}

/// How many cells from `a` to `b` are missing.
spec fn gaps(d: Seq<Option<Real>>, a: int, b: int) -> nat
    decreases b - a,
{
    if a >= b {
        0
    } else {
        gaps(d, a, b - 1) + if d[b - 1] is None {
            1nat
        } else {
            0nat
        }
    }
}

proof fn lemma_gaps_first(d: Seq<Option<Real>>, a: int, b: int)
    requires
        a < b,
    ensures
        gaps(d, a, b) == gaps(d, a + 1, b) + if d[a] is None {
            1nat
        } else {
            0nat
        },
    decreases b - a,
{
    if b > a + 1 {
        lemma_gaps_first(d, a, b - 1);
    } else {
        assert(gaps(d, a, a) == 0);
        assert(gaps(d, a + 1, b) == 0);
    }
}

proof fn lemma_gaps(d: Seq<Option<Real>>, a: int, b: int)
    requires
        0 <= a <= b <= d.len(),
    ensures
        gaps(d, a, b) > 0 <==> has_na(d.subrange(a, b)),
        gaps(d, a, b) <= b - a,
    decreases b - a,
{
    if a < b {
        lemma_gaps(d, a, b - 1);
        let s = d.subrange(a, b);
        let t = d.subrange(a, b - 1);
        if has_na(t) {
            let i = choose|i: int| 0 <= i < t.len() && #[trigger] t[i] is None;
            assert(s[i] is None);
        }
        if d[b - 1] is None {
            assert(s[b - 1 - a] is None);
        }
        if has_na(s) {
            let i = choose|i: int| 0 <= i < s.len() && #[trigger] s[i] is None;
            if i < t.len() {
                assert(t[i] is None);
            }
        }
    }
}

fn roll_sums<F: Fn(FloatOp, Real, Real, Real) -> Real>(
    fpu: &Fpu<F>,
    op: RollingOp,
    data: &[Option<Real>],
    window: usize,
) -> (out: Vec<Option<Real>>)
    requires
        fpu.wf(),
        0 < window <= data@.len(),
        op == RollingOp::Sum || op == RollingOp::Mean,
    ensures
        out@.len() == data@.len() - window + 1,
        forall|i: int| 0 <= i < out@.len() ==> rolls(fpu, op, data@, window as int, i, #[trigger] out@[i]),
{
    let n: usize = data.len();
    let mut sum: Real = scan_identity(ScanOp::Cumsum);
    let mut na_count: usize = 0;
    let mut i: usize = 0;
    assert(present(data@.take(0)) =~= Seq::<Real>::empty());
    while i < window
        invariant
            fpu.wf(),
            i <= window <= data@.len(),
            na_count == gaps(data@, 0, i as int),
            na_count <= i,
            sum == folded(fpu, ScanOp::Cumsum, present(data@.take(i as int))),
        decreases window - i,
    {
        assert(data@.take(i + 1).drop_last() =~= data@.take(i as int));
        match data[i] {
            Some(x) => {
                proof {
                    let a = present(data@.take(i + 1));
                    assert(a.drop_last() =~= present(data@.take(i as int)));
                }
                sum = scan_combine(fpu, ScanOp::Cumsum, sum, x);
            },
            None => {
                na_count += 1;
            },
        }
        i += 1;
    }
    let denom: Real = Real::from_u64(window as u64);
    let mut out: Vec<Option<Real>> = Vec::new();
    let mut start: usize = 0;
    loop
        invariant_except_break
            out@.len() == start,
        invariant
            fpu.wf(),
            n == data@.len(),
            0 < window <= n,
            start + window <= n,
            op == RollingOp::Sum || op == RollingOp::Mean,
            denom == rounded(window as nat),
            na_count == gaps(data@, start as int, start + window),
            sum == slide(fpu, data@, window as int, start as nat),
            forall|i: int| 0 <= i < out@.len() ==> rolls(fpu, op, data@, window as int, i, #[trigger] out@[i]),
        ensures
            out@.len() == data@.len() - window + 1,
            forall|i: int| 0 <= i < out@.len() ==> rolls(fpu, op, data@, window as int, i, #[trigger] out@[i]),
        decreases n - start,
    {
        proof {
            lemma_gaps(data@, start as int, start + window);
        }
        if na_count > 0 {
            out.push(None);
        } else if op == RollingOp::Mean {
            out.push(Some(fpu.apply(FloatOp::Over, sum, denom)));
        } else {
            out.push(Some(sum));
        }
        assert(rolls(fpu, op, data@, window as int, start as int, out@[start as int]));
        if start + window == n {
            break;
        }
        proof {
            lemma_gaps_first(data@, start as int, start + window);
            lemma_gaps(data@, start + 1, start + window);
        }
        match data[start] {
            Some(x) => {
                sum = fpu.apply(FloatOp::Minus, sum, x);
            },
            None => {
                na_count = na_count - 1;
            },
        }
        match data[start + window] {
            Some(x) => {
                sum = fpu.apply(FloatOp::Plus, sum, x);
            },
            None => {
                na_count += 1;
            },
        }
        start += 1;
    }
    out
}

fn roll_sds<F: Fn(FloatOp, Real, Real, Real) -> Real>(
    fpu: &Fpu<F>,
    data: &[Option<Real>],
    window: usize,
) -> (out: Vec<Option<Real>>)
    requires
        fpu.wf(),
        0 < window <= data@.len(),
    ensures
        out@.len() == data@.len() - window + 1,
        forall|i: int|
            0 <= i < out@.len() ==> rolls(fpu, RollingOp::Sd, data@, window as int, i, #[trigger] out@[i]),
{
    let n: usize = data.len();
    let mut out: Vec<Option<Real>> = Vec::new();
    let mut start: usize = 0;
    while start <= n - window
        invariant
            fpu.wf(),
            n == data@.len(),
            0 < window <= n,
            start <= n - window + 1,
            out@.len() == start,
            forall|i: int|
                0 <= i < out@.len() ==> rolls(fpu, RollingOp::Sd, data@, window as int, i, #[trigger] out@[i]),
        decreases n - window + 1 - start,
    {
        let mut vals: Vec<Real> = Vec::new();
        let ghost win = data@.subrange(start as int, start + window);
        let mut na: bool = false;
        let mut k: usize = 0;
        while k < window
            invariant
                k <= window,
                start + window <= n,
                n == data@.len(),
                win == data@.subrange(start as int, start + window),
                na ==> has_na(win),
                !na ==> vals@.len() == k,
                !na ==> forall|j: int| 0 <= j < k ==> win[j] == Some(#[trigger] vals@[j]),
            decreases window - k,
        {
            match data[start + k] {
                Some(x) => {
                    vals.push(x);
                },
                None => {
                    assert(win[k as int] is None);
                    na = true;
                },
            }
            k += 1;
        }
        proof {
            if !na {
                assert forall|j: int| 0 <= j < win.len() implies #[trigger] win[j] is Some by {
                    assert(win[j] == Some(vals@[j]));
                }
                assert(vals@ =~= values(win));
            }
        }
        if na || window < 2 {
            out.push(None);
        } else {
            let sum: Real = fold_slice(fpu, ScanOp::Cumsum, vals.as_slice());
            let mean: Real = fpu.apply(FloatOp::Over, sum, Real::from_u64(window as u64));
            let mut sq: Vec<Real> = Vec::new();
            let mut k: usize = 0;
            while k < vals.len()
                invariant
                    fpu.wf(),
                    k <= vals.len(),
                    sq@.len() == k,
                    forall|j: int| 0 <= j < k ==> #[trigger] sq@[j] == fpu.square_diff(vals@[j], mean),
                decreases vals.len() - k,
            {
                let x: Real = fpu.apply(FloatOp::Minus, vals[k], mean);
                sq.push(fpu.apply(FloatOp::Times, x, x));
                k += 1;
            }
            assert(sq@ =~= deviations(fpu, vals@, mean));
            let ss: Real = fold_slice(fpu, ScanOp::Cumsum, sq.as_slice());
            let var: Real = fpu.apply(FloatOp::Over, ss, Real::from_u64((window - 1) as u64));
            out.push(Some(fpu.apply1(FloatOp::Sqrt, var)));
        }
        assert(rolls(fpu, RollingOp::Sd, data@, window as int, start as int, out@[start as int]));
        start += 1;
    }
    out
}

/// No cell from `a` to `b` is a NaN.
spec fn no_nan(d: Seq<Option<Real>>, a: int, b: int) -> bool {
    forall|j: int| a <= j < b ==> !(#[trigger] d[j])->0.nan()
}

/// What the queue holds once the cells before `i` have been seen, of which
/// those from `base` on are there: ascending positions, the last of them
/// `i - 1`; between two of them only values no better than the later one; and
/// behind each, up to a NaN, only worse values.
spec fn queued(d: Seq<Option<Real>>, largest: bool, q: Seq<usize>, base: int, i: int) -> bool {
    &&& 0 <= base <= i <= d.len()
    &&& forall|j: int| base <= j < i ==> #[trigger] d[j] is Some
    &&& base < i <==> q.len() > 0
    &&& q.len() > 0 ==> q.last() == i - 1
    &&& forall|t: int| 0 <= t < q.len() ==> base <= #[trigger] q[t] < i
    &&& forall|t: int, u: int| 0 <= t < u < q.len() ==> #[trigger] q[t] < #[trigger] q[u]
    &&& covers(d, largest, q, base)
    &&& falls(d, largest, q, i)
}

/// What lies before an entry of the queue, back to the entry before it, is no
/// better than it.
#[verifier::opaque]
spec fn covers(d: Seq<Option<Real>>, largest: bool, q: Seq<usize>, base: int) -> bool {
    forall|t: int, j: int|
        0 <= t < q.len() && before(q, base, t) <= j < q[t] ==> as_good(
            d[#[trigger] q[t] as int]->0,
            (#[trigger] d[j])->0,
            largest,
        )
}

/// What lies behind an entry of the queue, up to a NaN, is worse than it.
#[verifier::opaque]
spec fn falls(d: Seq<Option<Real>>, largest: bool, q: Seq<usize>, i: int) -> bool {
    forall|t: int, j: int|
        0 <= t < q.len() && q[t] < j < i && no_nan(d, q[t] as int, j + 1) ==> !as_good(
            (#[trigger] d[j])->0,
            d[#[trigger] q[t] as int]->0,
            largest,
        )
}

/// The first position that entry `t` of the queue stands for.
spec fn before(q: Seq<usize>, base: int, t: int) -> int {
    if t == 0 {
        base
    } else {
        q[t - 1] + 1
    }
}

proof fn lemma_lead(s: Seq<Real>)
    ensures
        lead(s) <= s.len(),
        forall|j: int| 0 <= j < lead(s) ==> !(#[trigger] s[j]).nan(),
        lead(s) < s.len() ==> s[lead(s) as int].nan(),
    decreases s.len(),
{
    if s.len() > 0 && !s[0].nan() {
        lemma_lead(s.drop_first());
        assert forall|j: int| 0 <= j < lead(s) implies !(#[trigger] s[j]).nan() by {
            if j > 0 {
                assert(s.drop_first()[j - 1] == s[j]);
            }
        }
    }
}

#[verifier::spinoff_prover]
#[verifier::rlimit(40)]
proof fn lemma_front(d: Seq<Option<Real>>, largest: bool, q: Seq<usize>, base: int, i: int)
    requires
        queued(d, largest, q, base, i),
        base < i,
    ensures
        picks(values(d.subrange(base, i)), largest, q[0] - base),
{
    let s = values(d.subrange(base, i));
    let p = q[0] - base;
    lemma_lead(s);
    let e = lead(s) as int;
    assert(before(q, base, 0) == base);
    assert forall|j: int| 0 <= j < p implies as_good(s[p], #[trigger] s[j], largest) by {
        reveal(covers);
        assert(as_good(d[q[0] as int]->0, d[base + j]->0, largest));
    }
    if e == 0 {
        assert(s[0].nan());
        if p > 0 {
            assert(as_good(s[p], s[0], largest));
        }
    } else {
        if p >= e {
            if p == e {
                assert(as_good(s[p], s[0], largest));
            } else {
                assert(as_good(s[p], s[e], largest));
            }
        }
        assert forall|j: int| p < j < e implies !as_good(#[trigger] s[j], s[p], largest) by {
            assert(no_nan(d, q[0] as int, base + j + 1)) by {
                assert forall|m: int| q[0] <= m < base + j + 1 implies !(#[trigger] d[m])->0.nan() by {
                    assert(s[m - base] == d[m]->0);
                }
            }
            reveal(falls);
            assert(!as_good(d[base + j]->0, d[q[0] as int]->0, largest));
        }
    }
}

proof fn lemma_falls_to(d: Seq<Option<Real>>, largest: bool, q: Seq<usize>, r: Seq<usize>, i: usize, t: int)
    requires
        i < d.len(),
        r.len() <= q.len(),
        r =~= q.take(r.len() as int),
        0 <= t < r.len(),
        forall|t: int| 0 <= t < q.len() ==> #[trigger] q[t] < i,
        forall|t: int, u: int| 0 <= t < u < q.len() ==> #[trigger] q[t] < #[trigger] q[u],
        falls(d, largest, q, i as int),
        !as_good(d[i as int]->0, d[r.last() as int]->0, largest),
        no_nan(d, q[t] as int, i + 1),
    ensures
        !as_good(d[i as int]->0, d[q[t] as int]->0, largest),
{
    reveal(falls);
    let b = r.last();
    assert(b == q[r.len() - 1]);
    if t < r.len() - 1 {
        assert(q[t] < q[r.len() - 1]);
        assert(no_nan(d, q[t] as int, b + 1));
        assert(!as_good(d[b as int]->0, d[q[t] as int]->0, largest));
        assert(!d[q[t] as int]->0.nan());
        assert(!d[b as int]->0.nan());
        assert(!d[i as int]->0.nan());
    }
}

/// Dropping worse entries from the back and putting `i` behind them.
proof fn lemma_pushed(d: Seq<Option<Real>>, largest: bool, q: Seq<usize>, r: Seq<usize>, base: int, i: usize)
    requires
        i < d.len() <= usize::MAX,
        d[i as int] is Some,
        queued(d, largest, q, base, i as int),
        r.len() <= q.len(),
        r =~= q.take(r.len() as int),
        r.len() > 0 ==> !as_good(d[i as int]->0, d[r.last() as int]->0, largest),
        forall|j: int|
            before(q, base, r.len() as int) <= j < i ==> as_good(d[i as int]->0, (#[trigger] d[j])->0, largest),
    ensures
        queued(d, largest, r.push(i), base, i + 1),
{
    let s = r.push(i);
    assert(covers(d, largest, s, base)) by {
        reveal(covers);
        assert forall|t: int, j: int| 0 <= t < s.len() && before(s, base, t) <= j < s[t] implies as_good(
            d[#[trigger] s[t] as int]->0,
            (#[trigger] d[j])->0,
            largest,
        ) by {
            if t < r.len() {
                assert(s[t] == q[t]);
                assert(before(s, base, t) == before(q, base, t));
            } else {
                assert(before(s, base, t) == before(q, base, r.len() as int));
            }
        }
    }
    assert(falls(d, largest, s, i + 1)) by {
        reveal(falls);
        assert forall|t: int, j: int|
            0 <= t < s.len() && s[t] < j < i + 1 && no_nan(d, s[t] as int, j + 1) implies !as_good(
            (#[trigger] d[j])->0,
            d[#[trigger] s[t] as int]->0,
            largest,
        ) by {
            if t < r.len() && j == i {
                lemma_falls_to(d, largest, q, r, i, t);
            } else if t < r.len() {
                assert(s[t] == q[t]);
            }
        }
    }
    assert forall|j: int| base <= j < i + 1 implies #[trigger] d[j] is Some by {}
    assert forall|t: int| 0 <= t < s.len() implies base <= #[trigger] s[t] < i + 1 by {
        if t < r.len() {
            assert(s[t] == q[t]);
        }
    }
    assert forall|t: int, u: int| 0 <= t < u < s.len() implies #[trigger] s[t] < #[trigger] s[u] by {
        assert(s[t] == q[t]);
        if u < r.len() {
            assert(s[u] == q[u]);
        }
    }
}

/// Dropping the first entry once it lies before the new base.
proof fn lemma_advanced(d: Seq<Option<Real>>, largest: bool, q: Seq<usize>, base: int, next: int, i: int)
    requires
        queued(d, largest, q, base, i),
        base <= next < i,
        q.len() > 0,
        q[0] < next,
    ensures
        q.len() > 1,
        queued(d, largest, q.drop_first(), q[0] + 1, i),
{
    reveal(covers);
    reveal(falls);
    let r = q.drop_first();
    if q.len() == 1 {
        assert(q.last() == q[0]);
    }
    assert(q.len() > 1);
    assert forall|t: int, j: int| 0 <= t < r.len() && before(r, q[0] + 1, t) <= j < r[t] implies as_good(
        d[#[trigger] r[t] as int]->0,
        (#[trigger] d[j])->0,
        largest,
    ) by {
        assert(r[t] == q[t + 1]);
        assert(before(q, base, t + 1) == before(r, q[0] + 1, t));
    }
    assert forall|t: int, j: int|
        0 <= t < r.len() && r[t] < j < i && no_nan(d, r[t] as int, j + 1) implies !as_good(
        (#[trigger] d[j])->0,
        d[#[trigger] r[t] as int]->0,
        largest,
    ) by {
        assert(r[t] == q[t + 1]);
    }
    assert forall|t: int| 0 <= t < r.len() implies q[0] + 1 <= #[trigger] r[t] < i by {
        assert(r[t] == q[t + 1]);
        assert(q[0] < q[t + 1]);
    }
    assert forall|t: int, u: int| 0 <= t < u < r.len() implies #[trigger] r[t] < #[trigger] r[u] by {
        assert(q[t + 1] < q[u + 1]);
    }
    assert(r.last() == q.last());
}

/// Raising the base to a position that is still before the first entry.
proof fn lemma_raised(d: Seq<Option<Real>>, largest: bool, q: Seq<usize>, base: int, next: int, i: int)
    requires
        queued(d, largest, q, base, i),
        base <= next <= i,
        q.len() > 0 ==> next <= q[0],
        next < i <==> q.len() > 0,
    ensures
        queued(d, largest, q, next, i),
{
    reveal(covers);
    assert forall|t: int, j: int| 0 <= t < q.len() && before(q, next, t) <= j < q[t] implies as_good(
        d[#[trigger] q[t] as int]->0,
        (#[trigger] d[j])->0,
        largest,
    ) by {
        assert(before(q, base, t) <= before(q, next, t));
    }
    assert forall|t: int| 0 <= t < q.len() implies next <= #[trigger] q[t] < i by {
        if t > 0 {
            assert(q[0] < q[t]);
        }
    }
}

fn good(a: Real, b: Real, largest: bool) -> (r: bool)
    ensures
        r == as_good(a, b, largest),
{
    if a.is_nan() || b.is_nan() {
        return false;
    }
    if largest {
        a.order_key() >= b.order_key()
    } else {
        a.order_key() <= b.order_key()
    }
}

/// Drops from the back what `i` makes useless, and puts `i` at the back.
fn enqueue(
    data: &[Option<Real>],
    largest: bool,
    q: &mut VecDeque<usize>,
    i: usize,
    x: Real,
    Ghost(base): Ghost<int>,
)
    requires
        i < data@.len(),
        data@[i as int] == Some(x),
        queued(data@, largest, old(q)@, base, i as int),
    ensures
        queued(data@, largest, final(q)@, base, i + 1),
{
    proof {
        reveal(covers);
    }
    let ghost q0 = q@;
    let n: usize = data.len();
    assert(q0.take(q0.len() as int) =~= q0);
    loop
        invariant
            n == data@.len(),
            i < data@.len(),
            data@[i as int] == Some(x),
            queued(data@, largest, q0, base, i as int),
            q@.len() <= q0.len(),
            q@ == q0.take(q@.len() as int),
            forall|j: int|
                before(q0, base, q@.len() as int) <= j < i ==> as_good(x, (#[trigger] data@[j])->0, largest),
        ensures
            q@.len() > 0 ==> !as_good(x, data@[q@.last() as int]->0, largest),
        decreases q@.len(),
    {
        let m: usize = q.len();
        if m == 0 {
            break;
        }
        let back: usize = q[m - 1];
        assert(back == q0[m - 1]);
        let y: Real = match data[back] {
            Some(y) => y,
            None => x,
        };
        if !good(x, y, largest) {
            break;
        }
        q.pop_back();
        proof {
            assert(q@ =~= q0.take(m - 1));
            reveal(covers);
            assert forall|j: int| before(q0, base, m - 1) <= j < i implies as_good(
                x,
                (#[trigger] data@[j])->0,
                largest,
            ) by {
                if j < back {
                    assert(as_good(data@[q0[m - 1] as int]->0, data@[j]->0, largest));
                }
            }
        }
    }
    proof {
        lemma_pushed(data@, largest, q0, q@, base, i);
    }
    q.push_back(i);
}

#[verifier::spinoff_prover]
#[verifier::rlimit(40)]
fn roll_extremes<F: Fn(FloatOp, Real, Real, Real) -> Real>(
    fpu: &Fpu<F>,
    op: RollingOp,
    data: &[Option<Real>],
    window: usize,
) -> (out: Vec<Option<Real>>)
    requires
        0 < window <= data@.len(),
        op == RollingOp::Max || op == RollingOp::Min,
    ensures
        out@.len() == data@.len() - window + 1,
        forall|i: int| 0 <= i < out@.len() ==> rolls(fpu, op, data@, window as int, i, #[trigger] out@[i]),
{
    let n: usize = data.len();
    let largest: bool = op == RollingOp::Max;
    let mut q: VecDeque<usize> = VecDeque::new();
    let mut out: Vec<Option<Real>> = Vec::new();
    let mut last_na: Option<usize> = None;
    let ghost mut base: int = 0;
    let mut i: usize = 0;
    assert(queued(data@, largest, q@, base, 0)) by {
        reveal(covers);
        reveal(falls);
    }
    while i < n
        invariant
            n == data@.len(),
            0 < window <= n,
            i <= n,
            op == RollingOp::Max || op == RollingOp::Min,
            largest == (op == RollingOp::Max),
            queued(data@, largest, q@, base, i as int),
            last_na matches Some(k) ==> k < i && k < base && data@[k as int] is None,
            last_na matches Some(k) ==> base == k + 1 || base <= i + 1 - window,
            last_na is None ==> base == 0 || base <= i + 1 - window,
            out@.len() == (if i + 1 >= window {
                i + 1 - window
            } else {
                0
            }),
            forall|k: int| 0 <= k < out@.len() ==> rolls(fpu, op, data@, window as int, k, #[trigger] out@[k]),
        decreases n - i,
    {
        match data[i] {
            None => {
                last_na = Some(i);
                q.clear();
                proof {
                    base = i + 1;
                    assert(queued(data@, largest, q@, base, i + 1)) by {
                        reveal(covers);
                        reveal(falls);
                    }
                }
            },
            Some(x) => {
                enqueue(data, largest, &mut q, i, x, Ghost(base));
            },
        }
        if i + 1 >= window {
            let start: usize = i + 1 - window;
            while q.len() > 0 && q[0] < start
                invariant
                    n == data@.len(),
                    i < n,
                    0 < window,
                    start == i + 1 - window,
                    base <= i + 1,
                    queued(data@, largest, q@, base, i + 1),
                    last_na matches Some(k) ==> k < i + 1 && k < base && data@[k as int] is None,
                    last_na matches Some(k) ==> base == k + 1 || base <= start,
                    last_na is None ==> base == 0 || base <= start,
                decreases q@.len(),
            {
                proof {
                    if base > start {
                        assert(q@[0] >= base);
                    }
                    lemma_advanced(data@, largest, q@, base, start as int, i + 1);
                    base = q@[0] + 1;
                }
                let ghost before_pop = q@;
                q.pop_front();
                assert(q@ =~= before_pop.drop_first());
            }
            let missing: bool = match last_na {
                Some(k) => k >= start,
                None => false,
            };
            let ghost win = data@.subrange(start as int, start + window);
            if missing || q.len() == 0 {
                proof {
                    match last_na {
                        Some(k) => {
                            if k >= start {
                                assert(win[k - start] is None);
                            }
                        },
                        None => {},
                    }
                    assert(has_na(win));
                }
                out.push(None);
            } else {
                proof {
                    assert(base <= start);
                    lemma_raised(data@, largest, q@, base, start as int, i + 1);
                    base = start as int;
                    lemma_front(data@, largest, q@, start as int, i + 1);
                    assert forall|j: int| 0 <= j < win.len() implies #[trigger] win[j] is Some by {
                        assert(data@[start + j] is Some);
                    }
                    assert(values(win)[q@[0] - start] == data@[q@[0] as int]->0);
                }
                out.push(data[q[0]]);
            }
            assert(rolls(fpu, op, data@, window as int, start as int, out@[start as int]));
        }
        i += 1;
    }
    out
}

/// The reduction over each window of the given width; nothing where the width
/// is 0 or larger than the column.
pub fn rolling<F: Fn(FloatOp, Real, Real, Real) -> Real>(
    fpu: &Fpu<F>,
    op: RollingOp,
    data: &[Option<Real>],
    window: usize,
) -> (out: Vec<Option<Real>>)
    requires
        fpu.wf(),
    ensures
        out@.len() == (if window == 0 || data@.len() < window {
            0
        } else {
            data@.len() - window + 1
        }),
        forall|i: int| 0 <= i < out@.len() ==> rolls(fpu, op, data@, window as int, i, #[trigger] out@[i]),
{
    if window == 0 || data.len() < window {
        return Vec::new();
    }
    match op {
        RollingOp::Sum | RollingOp::Mean => roll_sums(fpu, op, data, window),
        RollingOp::Max | RollingOp::Min => roll_extremes(fpu, op, data, window),
        RollingOp::Sd => roll_sds(fpu, data, window),
    }
}

/// The extreme of a window is pinned: no two positions can both be picked.
pub proof fn law_pick_unique(s: Seq<Real>, largest: bool, p: int, q: int)
    requires
        picks(s, largest, p),
        picks(s, largest, q),
    ensures
        p == q,
{
    if lead(s) > 0 && p != q {
        let a = if p < q {
            p
        } else {
            q
        };
        let b = if p < q {
            q
        } else {
            p
        };
        assert(as_good(s[b], s[a], largest));
        assert(!as_good(s[b], s[a], largest));
    }
}

} // verus!
