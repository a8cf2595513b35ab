//! Where the plots put things, by what the places satisfy in exact arithmetic.
use crate::device::{Figures, Panel, PlotDevice, Style};
use crate::double::{FloatOp, Fpu, INF, NEG_INF, Real, num, one, rounded, two, zero};
use crate::drawing::{bar_label, bar_value, colour_bar, column_bar, dot, tick_below, tick_beside};
use crate::exact::{
    Exact, exact, lemma_count, lemma_distributes, lemma_group, lemma_minus, lemma_nil, lemma_ops, lemma_swap,
    lemma_times_minus,
};
use crate::kernel::arranged;
use crate::overlays::{across, down};
use crate::plots::{
    Area, Cloud, FENCE_BITS, GAP_BITS, HALF_TEXT_BITS, LEFT_MARGIN_BITS, NARROW_BITS, QUARTERS_BITS, TICK_DROP_BITS,
    TOP_MARGIN_BITS, area, at_rank, bar_colour, bars, box_of, cloud, columns, dots, height, highest, hist_line,
    hist_width, label_at, lowest, most, order_of, placed, span, ticks,
};
use vstd::prelude::*;

verus! {

// ── Ranges ─────────────────────────────────────────────────────────────────

/// The lowest of numbers is one of them, and none lies below it.
pub proof fn law_lowest(s: Seq<Real>)
    requires
        0 < s.len(),
        forall|i: int| 0 <= i < s.len() ==> !(#[trigger] s[i]).nan() && s[i].key() < num(INF).key(),
    ensures
        s.contains(lowest(s)),
        forall|i: int| 0 <= i < s.len() ==> lowest(s).key() <= (#[trigger] s[i]).key(),
    decreases s.len(),
{
    let t = s.drop_last();
    let last = s[s.len() - 1];
    assert(!last.nan());
    if t.len() > 0 {
        assert forall|i: int| 0 <= i < t.len() implies !(#[trigger] t[i]).nan() && t[i].key() < num(INF).key() by {
            assert(t[i] == s[i]);
        }
        law_lowest(t);
        let k = choose|k: int| 0 <= k < t.len() && t[k] == lowest(t);
        assert(s[k] == lowest(t));
        assert forall|i: int| 0 <= i < s.len() implies lowest(s).key() <= (#[trigger] s[i]).key() by {
            if i < t.len() {
                assert(t[i] == s[i]);
            }
        }
    } else {
        assert(lowest(t) == num(INF));
        assert(lowest(s) == last);
    }
}

/// The highest of numbers and a start is one of them, and none lies above it.
pub proof fn law_highest(start: Real, s: Seq<Real>)
    requires
        !start.nan(),
        forall|i: int| 0 <= i < s.len() ==> !(#[trigger] s[i]).nan(),
    ensures
        highest(start, s) == start || s.contains(highest(start, s)),
        start.key() <= highest(start, s).key(),
        !highest(start, s).nan(),
        forall|i: int| 0 <= i < s.len() ==> (#[trigger] s[i]).key() <= highest(start, s).key(),
    decreases s.len(),
{
    if s.len() > 0 {
        let t = s.drop_last();
        assert forall|i: int| 0 <= i < t.len() implies !(#[trigger] t[i]).nan() by {
            assert(t[i] == s[i]);
        }
        law_highest(start, t);
        assert(!s[s.len() - 1].nan());
        if highest(start, t) != start {
            let k = choose|k: int| 0 <= k < t.len() && t[k] == highest(start, t);
            assert(s[k] == highest(start, t));
        }
        assert forall|i: int| 0 <= i < s.len() implies (#[trigger] s[i]).key() <= highest(start, s).key() by {
            if i < t.len() {
                assert(t[i] == s[i]);
            }
        }
    }
}

/// The largest count is one of them, and none is larger.
pub proof fn law_most(c: Seq<nat>)
    ensures
        forall|i: int| 0 <= i < c.len() ==> #[trigger] c[i] <= most(c),
        most(c) == 0 || c.contains(most(c)),
    decreases c.len(),
{
    if c.len() > 0 {
        let t = c.drop_last();
        law_most(t);
        assert forall|i: int| 0 <= i < c.len() implies #[trigger] c[i] <= most(c) by {
            if i < t.len() {
                assert(t[i] == c[i]);
            }
        }
        if most(t) != 0 {
            let k = choose|k: int| 0 <= k < t.len() && t[k] == most(t);
            assert(c[k] == most(t));
        }
        assert(c[c.len() - 1] == c.last());
    }
}

/// A range that is not narrow reaches from the low to the high end.
pub proof fn law_span<F: Fn(FloatOp, Real, Real, Real) -> Real>(fpu: &Fpu<F>, e: Exact, lo: Real, hi: Real)
    requires
        exact(fpu, e),
    ensures
        span(fpu, lo, hi) == one() || e.plus(e.v(lo), e.v(span(fpu, lo, hi))) == e.v(hi),
        fpu.minus(hi, lo).absolute().below(num(NARROW_BITS)) ==> span(fpu, lo, hi) == one(),
{
    lemma_ops(fpu, e);
    lemma_minus(e, e.v(hi), e.v(lo));
    lemma_swap(e, e.minus(e.v(hi), e.v(lo)), e.v(lo));
}

/// A number is placed in proportion: its place times the range is its distance
/// from the low end times the extent.
pub proof fn law_placed<F: Fn(FloatOp, Real, Real, Real) -> Real>(
    fpu: &Fpu<F>,
    e: Exact,
    v: Real,
    min: Real,
    range: Real,
    extent: Real,
)
    requires
        exact(fpu, e),
        e.v(range) != e.zero,
    ensures
        e.times(e.v(placed(fpu, v, min, range, extent)), e.v(range)) == e.times(
            e.minus(e.v(v), e.v(min)),
            e.v(extent),
        ),
{
    lemma_ops(fpu, e);
    let q = e.v(fpu.over(fpu.minus(v, min), range));
    lemma_group(e, q, e.v(extent), e.v(range));
    lemma_swap(e, e.v(extent), e.v(range));
    lemma_group(e, q, e.v(range), e.v(extent));
}

// ── The plotting area ──────────────────────────────────────────────────────

/// The area and its margins make the panel, and the ticks are on its bottom.
pub proof fn law_area<F: Fn(FloatOp, Real, Real, Real) -> Real>(fpu: &Fpu<F>, e: Exact, p: Panel, mr: Real, mb: Real)
    requires
        exact(fpu, e),
    ensures
        ({
            let r = area(fpu, p, mr, mb);
            &&& r.panel == p
            &&& e.v(r.left) == e.plus(e.v(p.x), e.v(num(LEFT_MARGIN_BITS)))
            &&& e.plus(e.plus(e.v(r.w), e.v(mr)), e.v(num(LEFT_MARGIN_BITS))) == e.v(p.w)
            &&& e.v(r.top) == e.plus(e.v(p.y), e.v(num(TOP_MARGIN_BITS)))
            &&& e.plus(e.plus(e.v(r.h), e.v(mb)), e.v(num(TOP_MARGIN_BITS))) == e.v(p.h)
            &&& e.v(r.bottom) == e.plus(e.v(r.top), e.v(r.h))
            &&& e.v(r.bottom) == e.v(r.tick_line)
        }),
{
    lemma_ops(fpu, e);
    let r = area(fpu, p, mr, mb);
    let l = e.v(num(LEFT_MARGIN_BITS));
    let t = e.v(num(TOP_MARGIN_BITS));
    lemma_minus(e, e.minus(e.v(p.w), l), e.v(mr));
    lemma_minus(e, e.v(p.w), l);
    lemma_minus(e, e.minus(e.v(p.h), t), e.v(mb));
    lemma_minus(e, e.v(p.h), t);
    // (y + t) + ((h - t) - m) is (y + h) - m.
    let y = e.v(p.y);
    let h = e.v(p.h);
    lemma_group(e, e.plus(y, t), e.minus(h, t), e.opposite(e.v(mb)));
    lemma_group(e, y, t, e.minus(h, t));
    lemma_swap(e, t, e.minus(h, t));
}

/// The panels of a grid lie side by side: each starts where its column and row
/// say, as many times the size of a panel, and the sizes of all make the canvas.
pub proof fn law_panels<F: Fn(FloatOp, Real, Real, Real) -> Real>(
    fpu: &Fpu<F>,
    e: Exact,
    dev: &PlotDevice,
    i: nat,
)
    requires
        exact(fpu, e),
        dev.layout() is Some,
        0 < (dev.layout()->0).0 < 0x20_0000_0000_0000,
        0 < (dev.layout()->0).1 < 0x20_0000_0000_0000,
        dev.place(i).0 < 0x20_0000_0000_0000,
        dev.place(i).1 < 0x20_0000_0000_0000,
        e.count((dev.layout()->0).0) != e.zero,
        e.count((dev.layout()->0).1) != e.zero,
    ensures
        ({
            let p = dev.panel(fpu, i);
            let (r, c, by_column) = dev.layout()->0;
            let (row, col) = dev.place(i);
            &&& e.times(e.v(p.w), e.count(c)) == e.v(dev.width)
            &&& e.times(e.v(p.h), e.count(r)) == e.v(dev.height)
            &&& e.v(p.x) == e.times(e.count(col), e.v(p.w))
            &&& e.v(p.y) == e.times(e.count(row), e.v(p.h))
            &&& by_column ==> i == col * r + row && row < r
            &&& !by_column ==> i == row * c + col && col < c
        }),
{
    lemma_ops(fpu, e);
    let (r, c, by_column) = dev.layout()->0;
    let (row, col) = dev.place(i);
    lemma_count(fpu, e, r);
    lemma_count(fpu, e, c);
    lemma_count(fpu, e, row);
    lemma_count(fpu, e, col);
    if by_column {
        vstd::arithmetic::div_mod::lemma_fundamental_div_mod(i as int, r as int);
        assert(col * r == r * (i / r)) by (nonlinear_arith)
            requires
                col == i / r,
        ;
    } else {
        vstd::arithmetic::div_mod::lemma_fundamental_div_mod(i as int, c as int);
        assert(row * c == c * (i / c)) by (nonlinear_arith)
            requires
                row == i / c,
        ;
    }
}

// ── Points, ticks and bars ─────────────────────────────────────────────────

/// A point of a scatter plot lies in proportion: to the right by its share of
/// the range of the abscissas, and up from the bottom by its share of the range
/// of the ordinates.
pub proof fn law_dots<F: Fn(FloatOp, Real, Real, Real) -> Real, S: Fn(Style, Real) -> String>(
    fpu: &Fpu<F>,
    e: Exact,
    fig: &Figures<S>,
    out: Seq<char>,
    r: Area,
    c: Cloud,
    n: nat,
)
    requires
        exact(fpu, e),
        0 < n,
        e.v(c.xrange) != e.zero,
        e.v(c.yrange) != e.zero,
    ensures
        exists|x: Real, y: Real|
            #![trigger dot(fig, dots(fpu, fig, out, r, c, (n - 1) as nat), x, y, c.col)]
            {
                &&& dots(fpu, fig, out, r, c, n) == dot(fig, dots(fpu, fig, out, r, c, (n - 1) as nat), x, y, c.col)
                &&& e.times(e.minus(e.v(x), e.v(r.left)), e.v(c.xrange)) == e.times(
                    e.minus(e.v(c.x[n - 1]), e.v(c.xmin)),
                    e.v(r.w),
                )
                &&& e.times(e.minus(e.v(r.bottom), e.v(y)), e.v(c.yrange)) == e.times(
                    e.minus(e.v(c.y[n - 1]), e.v(c.ymin)),
                    e.v(r.h),
                )
            },
{
    lemma_ops(fpu, e);
    let px = placed(fpu, c.x[n - 1], c.xmin, c.xrange, r.w);
    let py = placed(fpu, c.y[n - 1], c.ymin, c.yrange, r.h);
    law_placed(fpu, e, c.x[n - 1], c.xmin, c.xrange, r.w);
    law_placed(fpu, e, c.y[n - 1], c.ymin, c.yrange, r.h);
    let x = fpu.plus(r.left, px);
    let y = fpu.minus(r.bottom, py);
    lemma_back(e, e.v(r.left), e.v(px));
    lemma_back(e, e.v(r.bottom), e.v(py));
    assert(dots(fpu, fig, out, r, c, n) == dot(fig, dots(fpu, fig, out, r, c, (n - 1) as nat), x, y, c.col));
}

proof fn lemma_back(e: Exact, a: int, b: int)
    requires
        e.field(),
    ensures
        e.minus(e.plus(a, b), a) == b,
        e.minus(a, e.minus(a, b)) == b,
        e.plus(a, e.minus(b, a)) == b,
{
    lemma_swap(e, a, b);
    lemma_minus(e, b, a);
    lemma_swap(e, e.minus(b, a), a);
    // a - (a - b) is a + (b - a).
    lemma_minus(e, b, a);
    assert(e.minus(b, a) == e.opposite(e.minus(a, b)));
}

/// The ranges of a cloud of points are those of its numbers.
pub proof fn law_cloud<F: Fn(FloatOp, Real, Real, Real) -> Real>(
    fpu: &Fpu<F>,
    e: Exact,
    x: Seq<Real>,
    y: Seq<Real>,
    col: Seq<char>,
)
    requires
        exact(fpu, e),
    ensures
        ({
            let c = cloud(fpu, x, y, col);
            &&& c.x == x && c.y == y && c.col == col
            &&& c.xmin == lowest(x) && c.ymin == lowest(y)
            &&& c.xrange == one() || e.plus(e.v(c.xmin), e.v(c.xrange)) == e.v(highest(num(NEG_INF), x))
            &&& c.yrange == one() || e.plus(e.v(c.ymin), e.v(c.yrange)) == e.v(highest(num(NEG_INF), y))
        }),
{
    law_span(fpu, e, lowest(x), highest(num(NEG_INF), x));
    law_span(fpu, e, lowest(y), highest(num(NEG_INF), y));
}

/// Tick `n - 1` of five lies `n - 1` quarters along both axes, and names the
/// number there.
pub proof fn law_ticks<F: Fn(FloatOp, Real, Real, Real) -> Real, S: Fn(Style, Real) -> String>(
    fpu: &Fpu<F>,
    e: Exact,
    fig: &Figures<S>,
    out: Seq<char>,
    r: Area,
    c: Cloud,
    n: nat,
)
    requires
        exact(fpu, e),
        0 < n <= 5,
        e.v(num(QUARTERS_BITS)) != e.zero,
    ensures
        exists|x: Real, vx: Real, y: Real, vy: Real|
            #![trigger tick_beside(fig, tick_below(fig, ticks(fpu, fig, out, r, c, (n - 1) as nat), x, fpu.plus(r.tick_line, num(TICK_DROP_BITS)), vx), fpu.minus(r.left, num(GAP_BITS)), y, vy)]
            {
                &&& ticks(fpu, fig, out, r, c, n) == tick_beside(
                    fig,
                    tick_below(
                        fig,
                        ticks(fpu, fig, out, r, c, (n - 1) as nat),
                        x,
                        fpu.plus(r.tick_line, num(TICK_DROP_BITS)),
                        vx,
                    ),
                    fpu.minus(r.left, num(GAP_BITS)),
                    y,
                    vy,
                )
                &&& e.times(e.minus(e.v(x), e.v(r.left)), e.v(num(QUARTERS_BITS))) == e.times(
                    e.count((n - 1) as nat),
                    e.v(r.w),
                )
                &&& e.times(e.minus(e.v(vx), e.v(c.xmin)), e.v(num(QUARTERS_BITS))) == e.times(
                    e.count((n - 1) as nat),
                    e.v(c.xrange),
                )
                &&& e.times(
                    e.minus(e.v(r.bottom), e.minus(e.v(y), e.v(num(HALF_TEXT_BITS)))),
                    e.v(num(QUARTERS_BITS)),
                ) == e.times(e.count((n - 1) as nat), e.v(r.h))
                &&& e.times(e.minus(e.v(vy), e.v(c.ymin)), e.v(num(QUARTERS_BITS))) == e.times(
                    e.count((n - 1) as nat),
                    e.v(c.yrange),
                )
            },
{
    lemma_ops(fpu, e);
    let q = e.v(num(QUARTERS_BITS));
    let k = e.count((n - 1) as nat);
    lemma_count(fpu, e, (n - 1) as nat);
    let frac = fpu.over(rounded((n - 1) as nat), num(QUARTERS_BITS));
    let f = e.v(frac);
    let x = fpu.plus(r.left, fpu.times(frac, r.w));
    let vx = fpu.plus(c.xmin, fpu.times(frac, c.xrange));
    let y0 = fpu.minus(r.bottom, fpu.times(frac, r.h));
    let y = fpu.plus(y0, num(HALF_TEXT_BITS));
    let vy = fpu.plus(c.ymin, fpu.times(frac, c.yrange));
    lemma_share(e, f, q, k, e.v(r.w));
    lemma_share(e, f, q, k, e.v(r.h));
    lemma_share(e, f, q, k, e.v(c.xrange));
    lemma_share(e, f, q, k, e.v(c.yrange));
    lemma_back(e, e.v(r.left), e.times(f, e.v(r.w)));
    lemma_back(e, e.v(c.xmin), e.times(f, e.v(c.xrange)));
    lemma_back(e, e.v(r.bottom), e.times(f, e.v(r.h)));
    lemma_back(e, e.v(c.ymin), e.times(f, e.v(c.yrange)));
    lemma_minus(e, e.v(y0), e.v(num(HALF_TEXT_BITS)));
    assert(ticks(fpu, fig, out, r, c, n) == tick_beside(
        fig,
        tick_below(
            fig,
            ticks(fpu, fig, out, r, c, (n - 1) as nat),
            x,
            fpu.plus(r.tick_line, num(TICK_DROP_BITS)),
            vx,
        ),
        fpu.minus(r.left, num(GAP_BITS)),
        y,
        vy,
    ));
}

proof fn lemma_share(e: Exact, f: int, q: int, k: int, w: int)
    requires
        e.field(),
        e.times(f, q) == k,
    ensures
        e.times(e.times(f, w), q) == e.times(k, w),
{
    lemma_group(e, f, w, q);
    lemma_swap(e, w, q);
    lemma_group(e, f, q, w);
}

/// The bars of a histogram: all as wide, side by side, standing on the bottom,
/// and as high in proportion as their counts; the largest count is as high as
/// the area.
pub proof fn law_columns<F: Fn(FloatOp, Real, Real, Real) -> Real, S: Fn(Style, Real) -> String>(
    fpu: &Fpu<F>,
    e: Exact,
    fig: &Figures<S>,
    out: Seq<char>,
    r: Area,
    counts: Seq<nat>,
    n: nat,
)
    requires
        exact(fpu, e),
        0 < n <= counts.len() < 0x20_0000_0000_0000,
        0 < most(counts) < 0x20_0000_0000_0000,
        counts[n - 1] <= most(counts),
        e.count(counts.len()) != e.zero,
        e.count(most(counts)) != e.zero,
    ensures
        exists|x: Real, y: Real, w: Real, h: Real|
            #![trigger column_bar(fig, columns(fpu, fig, out, r, counts, (n - 1) as nat), x, y, w, h)]
            {
                &&& columns(fpu, fig, out, r, counts, n) == column_bar(
                    fig,
                    columns(fpu, fig, out, r, counts, (n - 1) as nat),
                    x,
                    y,
                    w,
                    h,
                )
                &&& e.times(e.v(w), e.count(counts.len())) == e.v(r.w)
                &&& e.minus(e.v(x), e.v(r.left)) == e.times(e.count((n - 1) as nat), e.v(w))
                &&& e.times(e.v(h), e.count(most(counts))) == e.times(e.count(counts[n - 1]), e.v(r.h))
                &&& e.plus(e.v(y), e.v(h)) == e.v(r.bottom)
            },
{
    lemma_ops(fpu, e);
    lemma_count(fpu, e, counts.len());
    lemma_count(fpu, e, most(counts));
    lemma_count(fpu, e, counts[n - 1]);
    lemma_count(fpu, e, (n - 1) as nat);
    let w = fpu.over(r.w, rounded(counts.len()));
    let q = fpu.over(rounded(counts[n - 1]), rounded(most(counts)));
    let h = fpu.times(q, r.h);
    let x = fpu.plus(r.left, fpu.times(rounded((n - 1) as nat), w));
    let y = fpu.minus(r.bottom, h);
    lemma_share(e, e.v(q), e.count(most(counts)), e.count(counts[n - 1]), e.v(r.h));
    lemma_back(e, e.v(r.left), e.times(e.count((n - 1) as nat), e.v(w)));
    lemma_minus(e, e.v(r.bottom), e.v(h));
    assert(columns(fpu, fig, out, r, counts, n) == column_bar(
        fig,
        columns(fpu, fig, out, r, counts, (n - 1) as nat),
        x,
        y,
        w,
        h,
    ));
}

/// The lines of a histogram in text: the bins start at the least number, are
/// all as wide, and each ends where the next one starts; the width of all of
/// them together reaches to the largest number.
pub proof fn law_hist_lines<F: Fn(FloatOp, Real, Real, Real) -> Real>(
    fpu: &Fpu<F>,
    e: Exact,
    x: Seq<Real>,
    counts: Seq<nat>,
    nbins: nat,
    i: int,
)
    requires
        exact(fpu, e),
        0 <= i,
        i + 1 < nbins < 0x20_0000_0000_0000,
        e.count(nbins) != e.zero,
    ensures
        ({
            let w = hist_width(fpu, x, nbins);
            let a = hist_line(fpu, lowest(x), w, counts, i);
            let b = hist_line(fpu, lowest(x), w, counts, i + 1);
            &&& e.v(hist_line(fpu, lowest(x), w, counts, 0).lo) == e.v(lowest(x))
            &&& e.v(a.hi) == e.v(b.lo)
            &&& e.minus(e.v(a.hi), e.v(a.lo)) == e.v(w)
            &&& e.plus(e.v(lowest(x)), e.times(e.v(w), e.count(nbins))) == e.v(highest(num(NEG_INF), x))
        }),
{
    lemma_ops(fpu, e);
    lemma_count(fpu, e, i as nat);
    lemma_count(fpu, e, (i + 1) as nat);
    lemma_count(fpu, e, 0);
    lemma_count(fpu, e, nbins);
    let w = hist_width(fpu, x, nbins);
    let wv = e.v(w);
    let m = e.v(lowest(x));
    crate::exact::lemma_times_zero(e, wv);
    lemma_nil(e, m);
    let c = e.count(i as nat);
    lemma_distributes(e, wv, c, e.one);
    lemma_nil(e, wv);
    lemma_group(e, m, e.times(c, wv), wv);
    lemma_back(e, e.plus(m, e.times(c, wv)), wv);
    lemma_back(e, m, e.v(highest(num(NEG_INF), x)));
}

/// The bars of a bar plot: one to an equal share of the width, in its middle,
/// standing on the bottom, and as high in proportion as their numbers; the
/// largest is as high as the area.
pub proof fn law_bars<F: Fn(FloatOp, Real, Real, Real) -> Real, S: Fn(Style, Real) -> String>(
    fpu: &Fpu<F>,
    e: Exact,
    fig: &Figures<S>,
    out: Seq<char>,
    r: Area,
    heights: Seq<Real>,
    labels: Seq<Seq<char>>,
    n: nat,
)
    requires
        exact(fpu, e),
        0 < n <= heights.len() < 0x20_0000_0000_0000,
        zero().below(highest(zero(), heights)),
        e.v(highest(zero(), heights)) != e.zero,
        e.count(heights.len()) != e.zero,
        e.v(two()) == e.plus(e.one, e.one),
        e.v(two()) != e.zero,
    ensures
        exists|x: Real, y: Real, w: Real, h: Real, gap: Real, mid: Real|
            #![trigger colour_bar(fig, bars(fpu, fig, out, r, heights, labels, (n - 1) as nat), x, y, w, h, bar_colour(n - 1)), e.v(gap), e.v(mid)]
            {
                &&& bars(fpu, fig, out, r, heights, labels, n) == bar_label(
                    fig,
                    bar_value(
                        fig,
                        colour_bar(
                            fig,
                            bars(fpu, fig, out, r, heights, labels, (n - 1) as nat),
                            x,
                            y,
                            w,
                            h,
                            bar_colour(n - 1),
                        ),
                        mid,
                        fpu.minus(y, num(GAP_BITS)),
                        heights[n - 1],
                    ),
                    mid,
                    fpu.plus(r.tick_line, num(crate::plots::RIGHT_MARGIN_BITS)),
                    label_at(labels, n - 1),
                )
                &&& e.times(e.v(gap), e.count(heights.len())) == e.v(r.w)
                &&& e.times(e.v(h), e.v(highest(zero(), heights))) == e.times(e.v(heights[n - 1]), e.v(r.h))
                &&& e.plus(e.v(y), e.v(h)) == e.v(r.bottom)
                &&& e.v(w) == e.times(e.v(gap), e.v(num(crate::plots::BAR_SHARE_BITS)))
                &&& e.times(e.plus(e.one, e.one), e.minus(e.v(mid), e.v(x))) == e.v(w)
                &&& e.times(
                    e.plus(e.one, e.one),
                    e.minus(e.v(x), e.plus(e.v(r.left), e.times(e.v(gap), e.count((n - 1) as nat)))),
                ) == e.minus(e.v(gap), e.v(w))
            },
{
    lemma_ops(fpu, e);
    lemma_count(fpu, e, heights.len());
    lemma_count(fpu, e, (n - 1) as nat);
    let top = highest(zero(), heights);
    let gap = fpu.over(r.w, rounded(heights.len()));
    let w = fpu.times(gap, num(crate::plots::BAR_SHARE_BITS));
    let q = fpu.over(heights[n - 1], top);
    let h = fpu.times(q, r.h);
    let start = fpu.plus(r.left, fpu.times(gap, rounded((n - 1) as nat)));
    let half = fpu.over(fpu.minus(gap, w), two());
    let x = fpu.plus(start, half);
    let y = fpu.minus(r.bottom, h);
    let hw = fpu.over(w, two());
    let mid = fpu.plus(x, hw);
    lemma_share(e, e.v(q), e.v(top), e.v(heights[n - 1]), e.v(r.h));
    lemma_minus(e, e.v(r.bottom), e.v(h));
    lemma_back(e, e.v(x), e.v(hw));
    lemma_back(e, e.v(start), e.v(half));
    lemma_swap(e, e.v(two()), e.v(hw));
    lemma_swap(e, e.v(two()), e.v(half));
    assert(e.v(gap) == e.v(gap) && e.v(mid) == e.v(mid));
    assert(bars(fpu, fig, out, r, heights, labels, n) == bar_label(
        fig,
        bar_value(
            fig,
            colour_bar(fig, bars(fpu, fig, out, r, heights, labels, (n - 1) as nat), x, y, w, h, bar_colour(n - 1)),
            mid,
            fpu.minus(y, num(GAP_BITS)),
            heights[n - 1],
        ),
        mid,
        fpu.plus(r.tick_line, num(crate::plots::RIGHT_MARGIN_BITS)),
        label_at(labels, n - 1),
    ));
}

/// Eight colours, in turn: neighbours differ, and the ninth is the first again.
pub proof fn law_bar_colours(i: int)
    requires
        0 <= i,
    ensures
        bar_colour(i + 8) == bar_colour(i),
{
}

// ── Boxes ──────────────────────────────────────────────────────────────────

/// The height of a number in a box plot, in proportion from the bottom.
pub proof fn law_height<F: Fn(FloatOp, Real, Real, Real) -> Real>(
    fpu: &Fpu<F>,
    e: Exact,
    r: Area,
    min: Real,
    range: Real,
    v: Real,
)
    requires
        exact(fpu, e),
        e.v(range) != e.zero,
    ensures
        e.times(e.minus(e.v(r.bottom), e.v(height(fpu, r, min, range, v))), e.v(range)) == e.times(
            e.minus(e.v(v), e.v(min)),
            e.v(r.h),
        ),
{
    lemma_ops(fpu, e);
    law_placed(fpu, e, v, min, range, r.h);
    lemma_back(e, e.v(r.bottom), e.v(placed(fpu, v, min, range, r.h)));
}

/// The five numbers of a box are in order, the fences stay inside the numbers,
/// and a fence that is none of the numbers is one and a half boxes away.
pub proof fn law_box<F: Fn(FloatOp, Real, Real, Real) -> Real>(fpu: &Fpu<F>, e: Exact, s: Seq<Real>)
    requires
        exact(fpu, e),
        2 <= s.len() <= usize::MAX,
        forall|i: int| 0 <= i < s.len() ==> !(#[trigger] s[i]).nan(),
        arranged(s, order_of(s)),
    ensures
        ({
            let b = box_of(fpu, s);
            let reach = e.times(e.v(num(FENCE_BITS)), e.minus(e.v(b.q3), e.v(b.q1)));
            let least = at_rank(s, 0);
            let most = at_rank(s, s.len() - 1);
            &&& b.q1.key() <= b.median.key() <= b.q3.key()
            &&& forall|i: int| 0 <= i < s.len() ==> least.key() <= (#[trigger] s[i]).key() <= most.key()
            &&& b.lower == least || e.plus(e.v(b.lower), reach) == e.v(b.q1)
            &&& b.upper == most || e.v(b.upper) == e.plus(e.v(b.q3), reach)
            &&& least.key() <= b.lower.key()
            &&& b.upper.key() <= most.key()
        }),
{
    lemma_ops(fpu, e);
    let p = order_of(s);
    let n = s.len() as int;
    let b = box_of(fpu, s);
    assert(p.len() == n);
    lemma_ranks(s, p, n / 4, n / 2);
    lemma_ranks(s, p, n / 2, 3 * n / 4);
    let reach = fpu.times(num(FENCE_BITS), fpu.minus(b.q3, b.q1));
    lemma_minus(e, e.v(b.q1), e.v(reach));
    lemma_ranks(s, p, 0, n - 1);
    assert(!s[p[0] as int].nan());
    assert(!s[p[n - 1] as int].nan());
    assert forall|i: int| 0 <= i < n implies at_rank(s, 0).key() <= (#[trigger] s[i]).key() <= at_rank(s, n - 1).key() by {
        assert(p.contains(i as usize));
        let k = choose|k: int| 0 <= k < p.len() && p[k] == i as usize;
        lemma_ranks(s, p, 0, k);
        lemma_ranks(s, p, k, n - 1);
    }
}

proof fn lemma_ranks(s: Seq<Real>, p: Seq<usize>, a: int, b: int)
    requires
        arranged(s, p),
        0 <= a <= b < s.len(),
    ensures
        p.len() == s.len(),
        0 <= p[a] < s.len(),
        0 <= p[b] < s.len(),
        s[p[a] as int].key() <= s[p[b] as int].key(),
{
    assert(p.contains(p[a]));
    assert(p.contains(p[b]));
    if a < b {
        assert(crate::sort::comes_first(crate::kernel::key_order(s), p[a], p[b]));
    }
}

/// A number on an overlay: ten points to a unit, to the right from the left
/// edge and up from the base.
pub proof fn law_overlay_places<F: Fn(FloatOp, Real, Real, Real) -> Real>(fpu: &Fpu<F>, e: Exact, a: Real, b: Real)
    requires
        exact(fpu, e),
    ensures
        e.minus(e.v(across(fpu, b)), e.v(across(fpu, a))) == e.times(
            e.minus(e.v(b), e.v(a)),
            e.v(num(crate::overlays::TEN_BITS)),
        ),
        e.minus(e.v(down(fpu, a)), e.v(down(fpu, b))) == e.times(
            e.minus(e.v(b), e.v(a)),
            e.v(num(crate::overlays::TEN_BITS)),
        ),
{
    lemma_ops(fpu, e);
    let t = e.v(num(crate::overlays::TEN_BITS));
    let x = e.times(e.v(a), t);
    let y = e.times(e.v(b), t);
    lemma_times_minus(e, t, e.v(b), e.v(a));
    lemma_steps(e, e.v(num(crate::overlays::LEFT_BITS)), x, y);
    lemma_steps(e, e.v(num(crate::overlays::BASE_BITS)), x, y);
}

proof fn lemma_steps(e: Exact, l: int, x: int, y: int)
    requires
        e.field(),
    ensures
        e.minus(e.plus(l, y), e.plus(l, x)) == e.minus(y, x),
        e.minus(e.minus(l, x), e.minus(l, y)) == e.minus(y, x),
{
    let a = e.plus(l, x);
    lemma_minus(e, y, x);
    lemma_swap(e, e.minus(y, x), x);
    lemma_group(e, l, x, e.minus(y, x));
    assert(e.plus(l, y) == e.plus(a, e.minus(y, x)));
    lemma_back(e, a, e.minus(y, x));
    let b = e.minus(l, y);
    // l - x is (l - y) + (y - x).
    lemma_group(e, b, y, e.opposite(x));
    lemma_minus(e, l, y);
    lemma_back(e, b, e.minus(y, x));
}

/// The middle of a panel: as far from both sides.
pub proof fn law_centre<F: Fn(FloatOp, Real, Real, Real) -> Real>(fpu: &Fpu<F>, e: Exact, p: Panel)
    requires
        exact(fpu, e),
        e.v(two()) != e.zero,
    ensures
        e.times(e.minus(e.v(crate::plots::centre(fpu, p)), e.v(p.x)), e.v(two())) == e.v(p.w),
{
    lemma_ops(fpu, e);
    lemma_back(e, e.v(p.x), e.v(fpu.over(p.w, two())));
}

/// The bar of a histogram line: as long in proportion as its count, the longest
/// as long as the largest count.
pub proof fn law_hist_bar<F: Fn(FloatOp, Real, Real, Real) -> Real>(
    fpu: &Fpu<F>,
    e: Exact,
    min: Real,
    width: Real,
    counts: Seq<nat>,
    i: int,
)
    requires
        exact(fpu, e),
        0 <= i < counts.len(),
        counts[i] <= most(counts) < 0x20_0000_0000_0000,
        e.count(most(counts)) != e.zero,
    ensures
        exists|b: Real|
            #![trigger b.as_count()]
            hist_line(fpu, min, width, counts, i).bar == b.as_count() && e.times(e.v(b), e.count(most(counts))) == e.times(
                e.count(counts[i]),
                e.v(num(crate::plots::BOTTOM_MARGIN_BITS)),
            ),
        hist_line(fpu, min, width, counts, i).count == counts[i],
{
    lemma_ops(fpu, e);
    lemma_count(fpu, e, counts[i]);
    lemma_count(fpu, e, most(counts));
    let q = fpu.over(rounded(counts[i]), rounded(most(counts)));
    let b = fpu.times(q, num(crate::plots::BOTTOM_MARGIN_BITS));
    lemma_share(e, e.v(q), e.count(most(counts)), e.count(counts[i]), e.v(num(crate::plots::BOTTOM_MARGIN_BITS)));
    assert(hist_line(fpu, min, width, counts, i).bar == b.as_count());
}

} // verus!
