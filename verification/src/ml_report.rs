//! The reports that model fits print.
use crate::device::{Figures, Style};
use crate::double::{FloatOp, Fpu, ONE_BITS, Real, num, rounded};
use crate::grid::{sum_reals, total};
use crate::ml_cv::{mse, mse_of};
use crate::ordering::{order_numbers, orders};
use crate::report_text::{extend_number, extend_right, right};
use crate::sort::permutes;
use crate::stats_design::Printer;
use crate::stats_matrix::SIZE_LIMIT;
use crate::text::{chars_of, decimal, extend_decimal, extend_str, join, joined, string_of, texts};
use vstd::prelude::*;

verus! {

/// A hundred.
pub const HUNDRED_BITS: u64 = 0x4059_0000_0000_0000;

// ── How well a model fits ────────────────────────────────────────────────

/// How many of the first `n` predictions have the class of what was observed.
pub open spec fn hits(p: Seq<Real>, y: Seq<Real>, n: nat) -> nat
    decreases n,
{
    if n == 0 {
        0
    } else {
        hits(p, y, (n - 1) as nat) + if p[n - 1].as_long() == y[n - 1].as_long() {
            1nat
        } else {
            0nat
        }
    }
}

/// How many predictions have the class of what was observed.
pub fn count_hits(p: &Vec<Real>, y: &Vec<Real>) -> (r: usize)
    requires
        p@.len() == y@.len(),
    ensures
        r == hits(p@, y@, p@.len()),
{
    let mut n: usize = 0;
    let mut i: usize = 0;
    while i < p.len()
        invariant
            p@.len() == y@.len(),
            i <= p.len(),
            n <= i,
            n == hits(p@, y@, i as nat),
        decreases p.len() - i,
    {
        if p[i].to_i64() == y[i].to_i64() {
            n += 1;
        }
        i += 1;
    }
    n
}

/// A percentage.
pub open spec fn percent<F: Fn(FloatOp, Real, Real, Real) -> Real>(fpu: &Fpu<F>, k: nat, n: nat) -> Real {
    fpu.times(fpu.over(rounded(k), rounded(n)), num(HUNDRED_BITS))
}

/// How well the predictions `p` of the observed `y` do.
pub open spec fn fit_text<F: Fn(FloatOp, Real, Real, Real) -> Real, P: Fn(Real) -> String>(
    out: Seq<char>,
    fpu: &Fpu<F>,
    printer: &Printer<P>,
    classify: bool,
    p: Seq<Real>,
    y: Seq<Real>,
) -> Seq<char> {
    if classify {
        out + "Training accuracy: "@ + decimal(hits(p, y, p.len())) + "/"@ + decimal(p.len()) + " ("@ + printer.text(
            percent(fpu, hits(p, y, p.len()), p.len()),
        ) + "%)\n"@
    } else {
        out + "Training MSE: "@ + printer.text(mse(fpu, p, y)) + "\n"@
    }
}

fn extend_fit<F: Fn(FloatOp, Real, Real, Real) -> Real, P: Fn(Real) -> String>(
    out: &mut Vec<char>,
    fpu: &Fpu<F>,
    printer: &Printer<P>,
    classify: bool,
    p: &Vec<Real>,
    y: &Vec<Real>,
)
    requires
        fpu.wf(),
        printer.wf(),
        p@.len() == y@.len(),
        y@.len() < SIZE_LIMIT,
    ensures
        final(out)@ == fit_text(old(out)@, fpu, printer, classify, p@, y@),
{
    if classify {
        extend_accuracy(out, fpu, printer, p, y);
    } else {
        extend_str(out, "Training MSE: ");
        let e: Real = mse_of(fpu, p, y);
        extend_number(out, printer, e);
        extend_str(out, "\n");
    }
}

fn extend_accuracy<F: Fn(FloatOp, Real, Real, Real) -> Real, P: Fn(Real) -> String>(
    out: &mut Vec<char>,
    fpu: &Fpu<F>,
    printer: &Printer<P>,
    p: &Vec<Real>,
    y: &Vec<Real>,
)
    requires
        fpu.wf(),
        printer.wf(),
        p@.len() == y@.len(),
    ensures
        final(out)@ == fit_text(old(out)@, fpu, printer, true, p@, y@),
{
    let k: usize = count_hits(p, y);
    let m: usize = p.len();
    extend_str(out, "Training accuracy: ");
    extend_decimal(out, k as u64);
    extend_str(out, "/");
    extend_decimal(out, m as u64);
    extend_str(out, " (");
    let share: Real = fpu.quot(Real::from_u64(k as u64), Real::from_u64(m as u64));
    let x: Real = fpu.prod(share, Real { bits: HUNDRED_BITS });
    extend_number(out, printer, x);
    extend_str(out, "%)\n");
}

// ── Feature importance ───────────────────────────────────────────────────

/// The shares as percentages.
pub open spec fn percents<F: Fn(FloatOp, Real, Real, Real) -> Real>(fpu: &Fpu<F>, shares: Seq<Real>) -> Seq<Real> {
    Seq::new(shares.len(), |i: int| fpu.times(shares[i], num(HUNDRED_BITS)))
}

/// The name of a feature.
pub open spec fn feature_name(names: Seq<Seq<char>>, i: int) -> Seq<char> {
    if 0 <= i < names.len() {
        names[i]
    } else {
        "?"@
    }
}

/// The features at the first `n` places of `order`, those without splits left
/// out.
pub open spec fn shares_text<P: Fn(Real) -> String>(
    out: Seq<char>,
    printer: &Printer<P>,
    pct: Seq<Real>,
    names: Seq<Seq<char>>,
    order: Seq<usize>,
    n: nat,
) -> Seq<char>
    decreases n,
{
    if n == 0 {
        out
    } else {
        let o = shares_text(out, printer, pct, names, order, (n - 1) as nat);
        let i = order[n - 1] as int;
        if num(0).below(pct[i]) {
            o + "  "@ + feature_name(names, i) + ": "@ + printer.text(pct[i]) + "%\n"@
        } else {
            o
        }
    }
}

pub open spec fn at_most_ten(n: nat) -> nat {
    if n < 10 {
        n
    } else {
        10
    }
}

/// Some feature has a share.
pub open spec fn shared(shares: Seq<Real>) -> bool {
    exists|i: int| 0 <= i < shares.len() && num(0).below(#[trigger] shares[i])
}

/// The features with the largest shares of the splits first, ten at most;
/// nothing where no feature has one.
pub open spec fn importance_text<F: Fn(FloatOp, Real, Real, Real) -> Real, P: Fn(Real) -> String>(
    out: Seq<char>,
    fpu: &Fpu<F>,
    printer: &Printer<P>,
    shares: Seq<Real>,
    names: Seq<Seq<char>>,
    order: Seq<usize>,
) -> Seq<char> {
    if shared(shares) {
        shares_text(
            out + "\nFeature importance:\n"@,
            printer,
            percents(fpu, shares),
            names,
            order,
            at_most_ten(shares.len()),
        )
    } else {
        out
    }
}

fn any_share(shares: &Vec<Real>) -> (r: bool)
    ensures
        r == shared(shares@),
{
    let zero: Real = Real { bits: 0 };
    let mut i: usize = 0;
    while i < shares.len()
        invariant
            zero == num(0),
            i <= shares.len(),
            forall|j: int| 0 <= j < i ==> !num(0).below(#[trigger] shares@[j]),
        decreases shares.len() - i,
    {
        if zero.lt(&shares[i]) {
            assert(num(0).below(shares@[i as int]));
            return true;
        }
        i += 1;
    }
    false
}

fn extend_importance<F: Fn(FloatOp, Real, Real, Real) -> Real, P: Fn(Real) -> String>(
    out: &mut Vec<char>,
    fpu: &Fpu<F>,
    printer: &Printer<P>,
    shares: &Vec<Real>,
    names: &Vec<String>,
) -> (order: Ghost<Seq<usize>>)
    requires
        fpu.wf(),
        printer.wf(),
    ensures
        orders(percents(fpu, shares@), true, order@),
        final(out)@ == importance_text(old(out)@, fpu, printer, shares@, texts(names@), order@),
{
    let n: usize = shares.len();
    let ghost want = percents(fpu, shares@);
    let mut pct: Vec<Real> = Vec::new();
    let mut i: usize = 0;
    while i < n
        invariant
            fpu.wf(),
            shares@.len() == n,
            want == percents(fpu, shares@),
            i <= n,
            pct@ == want.take(i as int),
        decreases n - i,
    {
        pct.push(fpu.prod(shares[i], Real { bits: HUNDRED_BITS }));
        i += 1;
        assert(pct@ =~= want.take(i as int));
    }
    assert(pct@ =~= want);
    let order: Vec<usize> = order_numbers(&pct, true);
    if any_share(shares) {
        extend_str(out, "\nFeature importance:\n");
        let ghost start = out@;
        let top: usize = if n < 10 {
            n
        } else {
            10
        };
        let zero: Real = Real { bits: 0 };
        let mut k: usize = 0;
        while k < top
            invariant
                printer.wf(),
                zero == num(0),
                pct@.len() == n,
                permutes(order@, n as int),
                k <= top <= n,
                out@ == shares_text(start, printer, pct@, texts(names@), order@, k as nat),
            decreases top - k,
        {
            assert(order@.contains(order@[k as int]));
            let j: usize = order[k];
            if zero.lt(&pct[j]) {
                extend_str(out, "  ");
                if j < names.len() {
                    assert(texts(names@)[j as int] == names@[j as int]@);
                    extend_str(out, names[j].as_str());
                } else {
                    extend_str(out, "?");
                }
                extend_str(out, ": ");
                extend_number(out, printer, pct[j]);
                extend_str(out, "%\n");
            }
            k += 1;
        }
    }
    Ghost(order@)
}

// ── Trees ────────────────────────────────────────────────────────────────

/// The report of one tree, whose drawing is given.
pub fn tree_report<F: Fn(FloatOp, Real, Real, Real) -> Real, P: Fn(Real) -> String>(
    fpu: &Fpu<F>,
    printer: &Printer<P>,
    kind: &str,
    max_depth: usize,
    drawing: &str,
    classify: bool,
    p: &Vec<Real>,
    y: &Vec<Real>,
) -> (r: String)
    requires
        fpu.wf(),
        printer.wf(),
        p@.len() == y@.len(),
        y@.len() < SIZE_LIMIT,
    ensures
        r@ == fit_text(
            Seq::<char>::empty() + "\nDecision tree ("@ + kind@ + ", depth="@ + decimal(max_depth as nat) + "):\n"@
                + drawing@ + "\n"@,
            fpu,
            printer,
            classify,
            p@,
            y@,
        ),
{
    let mut out: Vec<char> = Vec::new();
    extend_str(&mut out, "\nDecision tree (");
    extend_str(&mut out, kind);
    extend_str(&mut out, ", depth=");
    extend_decimal(&mut out, max_depth as u64);
    extend_str(&mut out, "):\n");
    extend_str(&mut out, drawing);
    extend_str(&mut out, "\n");
    extend_fit(&mut out, fpu, printer, classify, p, y);
    string_of(&out)
}

/// The report of a forest.
pub fn forest_report<F: Fn(FloatOp, Real, Real, Real) -> Real, P: Fn(Real) -> String>(
    fpu: &Fpu<F>,
    printer: &Printer<P>,
    ntrees: usize,
    max_depth: usize,
    classify: bool,
    p: &Vec<Real>,
    y: &Vec<Real>,
    shares: &Vec<Real>,
    names: &Vec<String>,
) -> (r: String)
    requires
        fpu.wf(),
        printer.wf(),
        p@.len() == y@.len(),
        y@.len() < SIZE_LIMIT,
    ensures
        exists|order: Seq<usize>| #[trigger]
            orders(percents(fpu, shares@), true, order) && r@ == importance_text(
                fit_text(
                    Seq::<char>::empty() + "Random Forest: "@ + decimal(ntrees as nat) + " trees, max_depth="@ + decimal(
                        max_depth as nat,
                    ) + ", features="@ + decimal(shares@.len()) + "\n"@,
                    fpu,
                    printer,
                    classify,
                    p@,
                    y@,
                ),
                fpu,
                printer,
                shares@,
                texts(names@),
                order,
            ),
{
    let mut out: Vec<char> = Vec::new();
    extend_str(&mut out, "Random Forest: ");
    extend_decimal(&mut out, ntrees as u64);
    extend_str(&mut out, " trees, max_depth=");
    extend_decimal(&mut out, max_depth as u64);
    extend_str(&mut out, ", features=");
    extend_decimal(&mut out, shares.len() as u64);
    extend_str(&mut out, "\n");
    extend_fit(&mut out, fpu, printer, classify, p, y);
    let Ghost(order) = extend_importance(&mut out, fpu, printer, shares, names);
    assert(orders(percents(fpu, shares@), true, order));
    string_of(&out)
}

// ── Boosting ─────────────────────────────────────────────────────────────

/// Every twenty-fifth loss, and the last one.
pub open spec fn progress_text<P: Fn(Real) -> String>(
    out: Seq<char>,
    printer: &Printer<P>,
    losses: Seq<Real>,
    n: nat,
) -> Seq<char>
    decreases n,
{
    if n == 0 {
        out
    } else {
        let o = progress_text(out, printer, losses, (n - 1) as nat);
        if n % 25 == 0 || n == losses.len() {
            o + "\r  Iter "@ + decimal(n) + "/"@ + decimal(losses.len()) + ": loss = "@ + printer.text(losses[n - 1])
        } else {
            o
        }
    }
}

/// The share of the variance that predictions explain.
pub open spec fn explained<F: Fn(FloatOp, Real, Real, Real) -> Real>(fpu: &Fpu<F>, p: Seq<Real>, y: Seq<Real>) -> Real {
    let m = rounded(y.len());
    let mean = fpu.over(total(fpu, y), m);
    let ss = total(fpu, Seq::new(y.len(), |i: int| fpu.square_diff(y[i], mean)));
    fpu.minus(num(ONE_BITS), fpu.over(fpu.times(mse(fpu, p, y), m), ss))
}

fn explain<F: Fn(FloatOp, Real, Real, Real) -> Real>(fpu: &Fpu<F>, p: &Vec<Real>, y: &Vec<Real>) -> (r: Real)
    requires
        fpu.wf(),
        p@.len() == y@.len(),
        y@.len() < SIZE_LIMIT,
    ensures
        r == explained(fpu, p@, y@),
{
    let m: Real = Real::from_u64(y.len() as u64);
    let s: Real = sum_reals(fpu, y.as_slice());
    let mean: Real = fpu.quot(s, m);
    let ghost want = Seq::new(y@.len(), |i: int| fpu.square_diff(y@[i], mean));
    let mut sq: Vec<Real> = Vec::new();
    let mut i: usize = 0;
    while i < y.len()
        invariant
            fpu.wf(),
            want == Seq::new(y@.len(), |i: int| fpu.square_diff(y@[i], mean)),
            i <= y.len(),
            sq@ == want.take(i as int),
        decreases y.len() - i,
    {
        let d: Real = fpu.diff(y[i], mean);
        sq.push(fpu.prod(d, d));
        i += 1;
        assert(sq@ =~= want.take(i as int));
    }
    assert(sq@ =~= want);
    let ss: Real = sum_reals(fpu, sq.as_slice());
    let e: Real = mse_of(fpu, p, y);
    let rest: Real = fpu.quot(fpu.prod(e, m), ss);
    fpu.diff(Real { bits: ONE_BITS }, rest)
}

/// The fit of a boosted model.
pub open spec fn boost_fit_text<F: Fn(FloatOp, Real, Real, Real) -> Real, P: Fn(Real) -> String>(
    out: Seq<char>,
    fpu: &Fpu<F>,
    printer: &Printer<P>,
    classify: bool,
    p: Seq<Real>,
    y: Seq<Real>,
) -> Seq<char> {
    if classify {
        fit_text(out, fpu, printer, true, p, y)
    } else {
        out + "Training MSE: "@ + printer.text(mse(fpu, p, y)) + ",  R²: "@ + printer.text(explained(fpu, p, y)) + "\n"@
    }
}

/// The report of a boosted model.
pub fn boost_report<
    F: Fn(FloatOp, Real, Real, Real) -> Real,
    P: Fn(Real) -> String,
    S: Fn(Style, Real) -> String,
>(
    fpu: &Fpu<F>,
    printer: &Printer<P>,
    fig: &Figures<S>,
    rate: Real,
    max_depth: usize,
    loss: &str,
    losses: &Vec<Real>,
    classify: bool,
    p: &Vec<Real>,
    y: &Vec<Real>,
    shares: &Vec<Real>,
    names: &Vec<String>,
) -> (r: String)
    requires
        fpu.wf(),
        printer.wf(),
        fig.wf(),
        p@.len() == y@.len(),
        y@.len() < SIZE_LIMIT,
    ensures
        exists|order: Seq<usize>| #[trigger]
            orders(percents(fpu, shares@), true, order) && r@ == importance_text(
                boost_fit_text(
                    progress_text(
                        Seq::<char>::empty() + "Gradient Boosted Trees: "@ + decimal(losses@.len()) + " trees, lr="@
                            + fig.plain(rate) + ", depth="@ + decimal(max_depth as nat) + ", loss="@ + loss@ + "\n"@,
                        printer,
                        losses@,
                        losses@.len(),
                    ) + "\n"@,
                    fpu,
                    printer,
                    classify,
                    p@,
                    y@,
                ),
                fpu,
                printer,
                shares@,
                texts(names@),
                order,
            ),
{
    let mut out: Vec<char> = Vec::new();
    let count: usize = losses.len();
    extend_str(&mut out, "Gradient Boosted Trees: ");
    extend_decimal(&mut out, count as u64);
    extend_str(&mut out, " trees, lr=");
    fig.put(&mut out, Style::Shortest, rate);
    extend_str(&mut out, ", depth=");
    extend_decimal(&mut out, max_depth as u64);
    extend_str(&mut out, ", loss=");
    extend_str(&mut out, loss);
    extend_str(&mut out, "\n");
    let ghost start = out@;
    let mut t: usize = 0;
    while t < count
        invariant
            printer.wf(),
            count == losses@.len(),
            t <= count,
            out@ == progress_text(start, printer, losses@, t as nat),
        decreases count - t,
    {
        let k: usize = t + 1;
        if k % 25 == 0 || k == count {
            extend_str(&mut out, "\r  Iter ");
            extend_decimal(&mut out, k as u64);
            extend_str(&mut out, "/");
            extend_decimal(&mut out, count as u64);
            extend_str(&mut out, ": loss = ");
            extend_number(&mut out, printer, losses[t]);
        }
        t += 1;
    }
    extend_str(&mut out, "\n");
    if classify {
        extend_accuracy(&mut out, fpu, printer, p, y);
    } else {
        extend_str(&mut out, "Training MSE: ");
        let e: Real = mse_of(fpu, p, y);
        extend_number(&mut out, printer, e);
        extend_str(&mut out, ",  R²: ");
        let x: Real = explain(fpu, p, y);
        extend_number(&mut out, printer, x);
        extend_str(&mut out, "\n");
    }
    let Ghost(order) = extend_importance(&mut out, fpu, printer, shares, names);
    assert(orders(percents(fpu, shares@), true, order));
    string_of(&out)
}

// ── Clusters ─────────────────────────────────────────────────────────────

/// Names at the right of their fields.
pub open spec fn heads_text(out: Seq<char>, names: Seq<Seq<char>>, n: nat) -> Seq<char>
    decreases n,
{
    if n == 0 {
        out
    } else {
        heads_text(out, names, (n - 1) as nat) + "  "@ + right(feature_name(names, n - 1), 10)
    }
}

/// The first `j` numbers of row `c` of a matrix with `k` rows.
pub open spec fn centre_text<P: Fn(Real) -> String>(
    out: Seq<char>,
    printer: &Printer<P>,
    centres: Seq<Real>,
    c: int,
    k: int,
    j: nat,
) -> Seq<char>
    decreases j,
{
    if j == 0 {
        out
    } else {
        centre_text(out, printer, centres, c, k, (j - 1) as nat) + "  "@ + right(
            printer.text(centres[(j - 1) * k + c]),
            10,
        )
    }
}

/// The first `c` of `k` rows of centres.
pub open spec fn centres_text<P: Fn(Real) -> String>(
    out: Seq<char>,
    printer: &Printer<P>,
    centres: Seq<Real>,
    k: nat,
    n: nat,
    c: nat,
) -> Seq<char>
    decreases c,
{
    if c == 0 {
        out
    } else {
        let o = centres_text(out, printer, centres, k, n, (c - 1) as nat);
        centre_text(o + "  ["@ + decimal(c) + "]"@, printer, centres, c - 1, k as int, n) + "\n"@
    }
}

/// The first `c` numbers, each after two blanks.
pub open spec fn spaced_text<P: Fn(Real) -> String>(out: Seq<char>, printer: &Printer<P>, s: Seq<Real>, c: nat) -> Seq<char>
    decreases c,
{
    if c == 0 {
        out
    } else {
        spaced_text(out, printer, s, (c - 1) as nat) + "  "@ + printer.text(s[c - 1])
    }
}

/// The sizes of clusters as texts.
pub open spec fn size_texts(s: Seq<usize>) -> Seq<Seq<char>> {
    Seq::new(s.len(), |i: int| decimal(s[i] as nat))
}

fn sizes_of(s: &Vec<usize>) -> (r: Vec<String>)
    ensures
        texts(r@) == size_texts(s@),
{
    let mut out: Vec<String> = Vec::new();
    let mut i: usize = 0;
    while i < s.len()
        invariant
            i <= s.len(),
            out@.len() == i,
            forall|k: int| 0 <= k < i ==> (#[trigger] out@[k])@ == decimal(s@[k] as nat),
        decreases s.len() - i,
    {
        let mut t: Vec<char> = Vec::new();
        extend_decimal(&mut t, s[i] as u64);
        assert(t@ =~= decimal(s@[i as int] as nat));
        out.push(string_of(&t));
        i += 1;
    }
    assert(texts(out@) =~= size_texts(s@));
    out
}

/// The report of a clustering; the centres are a matrix with a row for each
/// cluster.
pub fn clusters_report<F: Fn(FloatOp, Real, Real, Real) -> Real, P: Fn(Real) -> String>(
    fpu: &Fpu<F>,
    printer: &Printer<P>,
    sizes: &Vec<usize>,
    centres: &Vec<Real>,
    names: &Vec<String>,
    n: usize,
    within: &Vec<Real>,
    between: Real,
    whole: Real,
) -> (r: String)
    requires
        fpu.wf(),
        printer.wf(),
        centres@.len() == sizes@.len() * n,
    ensures
        r@ == spaced_text(
            centres_text(
                heads_text(
                    Seq::<char>::empty() + "K-means clustering with "@ + decimal(sizes@.len()) + " clusters of sizes "@
                        + joined(size_texts(sizes@), ", "@) + "\n\nCluster means:\n     "@,
                    texts(names@),
                    n as nat,
                ) + "\n"@,
                printer,
                centres@,
                sizes@.len(),
                n as nat,
                sizes@.len(),
            ) + "\nWithin cluster sum of squares by cluster:\n"@,
            printer,
            within@,
            within@.len(),
        ) + "\n(between_SS / total_SS = "@ + printer.text(fpu.times(fpu.over(between, whole), num(HUNDRED_BITS)))
            + "%)\n"@,
{
    let k: usize = sizes.len();
    let size: usize = centres.len();
    let mut out: Vec<char> = Vec::new();
    extend_str(&mut out, "K-means clustering with ");
    extend_decimal(&mut out, k as u64);
    extend_str(&mut out, " clusters of sizes ");
    let all: Vec<String> = sizes_of(sizes);
    let list: String = join(&all, ", ");
    extend_str(&mut out, list.as_str());
    extend_str(&mut out, "\n\nCluster means:\n     ");
    let ghost a = out@;
    let mut j: usize = 0;
    while j < n
        invariant
            j <= n,
            out@ == heads_text(a, texts(names@), j as nat),
        decreases n - j,
    {
        extend_str(&mut out, "  ");
        let name: Vec<char> = if j < names.len() {
            assert(texts(names@)[j as int] == names@[j as int]@);
            chars_of(names[j].as_str())
        } else {
            chars_of("?")
        };
        extend_right(&mut out, &name, 10);
        j += 1;
    }
    extend_str(&mut out, "\n");
    let ghost b = out@;
    let mut c: usize = 0;
    while c < k
        invariant
            printer.wf(),
            size == centres@.len() == k * n,
            c <= k,
            out@ == centres_text(b, printer, centres@, k as nat, n as nat, c as nat),
        decreases k - c,
    {
        extend_str(&mut out, "  [");
        extend_decimal(&mut out, c as u64 + 1);
        extend_str(&mut out, "]");
        let ghost row = out@;
        let mut j: usize = 0;
        while j < n
            invariant
                printer.wf(),
                size == centres@.len() == k * n,
                c < k,
                j <= n,
                out@ == centre_text(row, printer, centres@, c as int, k as int, j as nat),
            decreases n - j,
        {
            assert(0 <= j * k && j * k + c < k * n) by (nonlinear_arith)
                requires
                    0 <= c < k,
                    0 <= j < n,
            ;
            assert(j * k + c < size);
            extend_str(&mut out, "  ");
            let x: String = printer.print(centres[j * k + c]);
            let t: Vec<char> = chars_of(x.as_str());
            extend_right(&mut out, &t, 10);
            j += 1;
        }
        extend_str(&mut out, "\n");
        c += 1;
    }
    extend_str(&mut out, "\nWithin cluster sum of squares by cluster:\n");
    let ghost d = out@;
    let mut i: usize = 0;
    while i < within.len()
        invariant
            printer.wf(),
            i <= within.len(),
            out@ == spaced_text(d, printer, within@, i as nat),
        decreases within.len() - i,
    {
        extend_str(&mut out, "  ");
        extend_number(&mut out, printer, within[i]);
        i += 1;
    }
    extend_str(&mut out, "\n(between_SS / total_SS = ");
    let share: Real = fpu.quot(between, whole);
    let x: Real = fpu.prod(share, Real { bits: HUNDRED_BITS });
    extend_number(&mut out, printer, x);
    extend_str(&mut out, "%)\n");
    string_of(&out)
}

// ── Cross-validation ─────────────────────────────────────────────────────

/// The errors of the first `n` folds.
pub open spec fn folds_text<P: Fn(Real) -> String>(out: Seq<char>, printer: &Printer<P>, s: Seq<Real>, n: nat) -> Seq<char>
    decreases n,
{
    if n == 0 {
        out
    } else {
        folds_text(out, printer, s, (n - 1) as nat) + "  Fold "@ + decimal(n) + ": MSE = "@ + printer.text(s[n - 1])
            + "\n"@
    }
}

/// The report of a cross-validation.
pub fn folds_report<P: Fn(Real) -> String>(
    printer: &Printer<P>,
    model: &str,
    errors: &Vec<Real>,
    mean: Real,
    sd: Real,
) -> (r: String)
    requires
        printer.wf(),
    ensures
        r@ == folds_text(
            Seq::<char>::empty() + decimal(errors@.len()) + "-fold cross-validation (model: "@ + model@ + ")\n"@,
            printer,
            errors@,
            errors@.len(),
        ) + "\nAverage MSE: "@ + printer.text(mean) + " (±"@ + printer.text(sd) + ")\n"@,
{
    let mut out: Vec<char> = Vec::new();
    extend_decimal(&mut out, errors.len() as u64);
    extend_str(&mut out, "-fold cross-validation (model: ");
    extend_str(&mut out, model);
    extend_str(&mut out, ")\n");
    let ghost start = out@;
    let mut i: usize = 0;
    while i < errors.len()
        invariant
            printer.wf(),
            i <= errors.len(),
            out@ == folds_text(start, printer, errors@, i as nat),
        decreases errors.len() - i,
    {
        extend_str(&mut out, "  Fold ");
        extend_decimal(&mut out, i as u64 + 1);
        extend_str(&mut out, ": MSE = ");
        extend_number(&mut out, printer, errors[i]);
        extend_str(&mut out, "\n");
        i += 1;
    }
    extend_str(&mut out, "\nAverage MSE: ");
    extend_number(&mut out, printer, mean);
    extend_str(&mut out, " (±");
    extend_number(&mut out, printer, sd);
    extend_str(&mut out, ")\n");
    string_of(&out)
}

// ── Neighbours and classes ───────────────────────────────────────────────

/// The report of a classification by neighbours.
pub fn neighbours_report(points: usize, k: usize) -> (r: String)
    ensures
        r@ == Seq::<char>::empty() + "KNN: classified "@ + decimal(points as nat) + " points using k="@ + decimal(k as nat)
            + "\n"@,
{
    let mut out: Vec<char> = Vec::new();
    extend_str(&mut out, "KNN: classified ");
    extend_decimal(&mut out, points as u64);
    extend_str(&mut out, " points using k=");
    extend_decimal(&mut out, k as u64);
    extend_str(&mut out, "\n");
    string_of(&out)
}

/// The first `n` classes.
pub open spec fn classes_text<P: Fn(Real) -> String, S: Fn(Style, Real) -> String>(
    out: Seq<char>,
    printer: &Printer<P>,
    fig: &Figures<S>,
    classes: Seq<Real>,
    priors: Seq<Real>,
    counts: Seq<usize>,
    n: nat,
) -> Seq<char>
    decreases n,
{
    if n == 0 {
        out
    } else {
        classes_text(out, printer, fig, classes, priors, counts, (n - 1) as nat) + "  Class "@ + fig.plain(
            classes[n - 1],
        ) + ": prior="@ + printer.text(priors[n - 1]) + ", n="@ + decimal(counts[n - 1] as nat) + "\n"@
    }
}

/// The report of a classifier by classes.
pub fn classes_report<P: Fn(Real) -> String, S: Fn(Style, Real) -> String>(
    printer: &Printer<P>,
    fig: &Figures<S>,
    classes: &Vec<Real>,
    priors: &Vec<Real>,
    counts: &Vec<usize>,
    n: usize,
) -> (r: String)
    requires
        printer.wf(),
        fig.wf(),
        priors@.len() == classes@.len(),
        counts@.len() == classes@.len(),
    ensures
        r@ == classes_text(
            Seq::<char>::empty() + "Naive Bayes classifier: "@ + decimal(classes@.len()) + " classes, "@ + decimal(
                n as nat,
            ) + " features\n"@,
            printer,
            fig,
            classes@,
            priors@,
            counts@,
            classes@.len(),
        ),
{
    let mut out: Vec<char> = Vec::new();
    extend_str(&mut out, "Naive Bayes classifier: ");
    extend_decimal(&mut out, classes.len() as u64);
    extend_str(&mut out, " classes, ");
    extend_decimal(&mut out, n as u64);
    extend_str(&mut out, " features\n");
    let ghost start = out@;
    let mut i: usize = 0;
    while i < classes.len()
        invariant
            printer.wf(),
            fig.wf(),
            priors@.len() == classes@.len(),
            counts@.len() == classes@.len(),
            i <= classes.len(),
            out@ == classes_text(start, printer, fig, classes@, priors@, counts@, i as nat),
        decreases classes.len() - i,
    {
        extend_str(&mut out, "  Class ");
        fig.put(&mut out, Style::Shortest, classes[i]);
        extend_str(&mut out, ": prior=");
        extend_number(&mut out, printer, priors[i]);
        extend_str(&mut out, ", n=");
        extend_decimal(&mut out, counts[i] as u64);
        extend_str(&mut out, "\n");
        i += 1;
    }
    string_of(&out)
}

/// No more predictions hit than there are.
pub proof fn law_hits_bounded(p: Seq<Real>, y: Seq<Real>, n: nat)
    ensures
        hits(p, y, n) <= n,
    decreases n,
{
    if n > 0 {
        law_hits_bounded(p, y, (n - 1) as nat);
    }
}

} // verus!
