//! The plots of data: scatter plots, histograms, box plots and bar plots, drawn
//! on a device.
use crate::device::{Figures, Panel, PlotDevice, Style, begin_plot, begun, draw, overlaid};
use crate::double::{FloatOp, Fpu, INF, NEG_INF, ONE_BITS, Real, TWO_BITS, num, one, rounded, two, zero};
use crate::drawing::{
    axis_line, bar_label, bar_value, below_label, colour_bar, column_bar, dot, frame, group_label, heading, median_line,
    middle_box, plot_title, put_axis_line, put_bar_label, put_bar_value, put_below_label, put_colour_bar, put_column_bar,
    put_dot, put_frame, put_group_label, put_heading, put_median_line, put_middle_box, put_plot_title, put_side_label,
    put_tick_below, put_tick_beside, put_whisker, side_label, tick_below, tick_beside, whisker,
};
use crate::kernel::{arrange, arranged, key_order};
use crate::ml_cv::{arg_text, text_named};
use crate::overlays::{filled_texts, shorter};
use crate::sort::law_order_unique;
use crate::report_text::{extend_right, right};
use crate::stats_design::Printer;
use crate::stats_matrix::{SIZE_LIMIT, failed};
use crate::text::{
    chars_of, decimal, extend_decimal, extend_str, has_prefix, is_text, numbered, opt_text, owned, part, starts_with,
    string_of, texts,
};
use crate::value::{
    ErrKind, EvalArg, R2Err, RVal, Val, arg_count, arg_named, count_named, fail, keep_present, named, nth, nth_arg, present,
    reals, rstr, str_val,
};
use vstd::prelude::*;

verus! {

/// 60
pub const LEFT_MARGIN_BITS: u64 = 0x404e_0000_0000_0000;

/// 20
pub const RIGHT_MARGIN_BITS: u64 = 0x4034_0000_0000_0000;

/// 30
pub const TOP_MARGIN_BITS: u64 = 0x403e_0000_0000_0000;

/// 40
pub const BOTTOM_MARGIN_BITS: u64 = 0x4044_0000_0000_0000;

/// 50
pub const DEEP_MARGIN_BITS: u64 = 0x4049_0000_0000_0000;

/// 18
pub const TITLE_DROP_BITS: u64 = 0x4032_0000_0000_0000;

/// 14
pub const TITLE_SIZE_BITS: u64 = 0x402c_0000_0000_0000;

/// 5
pub const GAP_BITS: u64 = 0x4014_0000_0000_0000;

/// 15
pub const TICK_DROP_BITS: u64 = 0x402e_0000_0000_0000;

/// 3
pub const HALF_TEXT_BITS: u64 = 0x4008_0000_0000_0000;

/// 4
pub const QUARTERS_BITS: u64 = 0x4010_0000_0000_0000;

/// 0.6
pub const BOX_SHARE_BITS: u64 = 0x3fe3_3333_3333_3333;

/// 0.8
pub const BAR_SHARE_BITS: u64 = 0x3fe9_9999_9999_999a;

/// 1.5
pub const FENCE_BITS: u64 = 0x3ff8_0000_0000_0000;

/// 1e-10
pub const NARROW_BITS: u64 = 0x3ddb_7cdf_d9d7_bdbb;

// ── Ranges ─────────────────────────────────────────────────────────────────

/// The least of the numbers; infinity for none.
pub open spec fn lowest(s: Seq<Real>) -> Real
    decreases s.len(),
{
    if s.len() == 0 {
        num(INF)
    } else {
        lowest(s.drop_last()).least(s.last())
    }
}

/// The greatest of the numbers and `start`.
pub open spec fn highest(start: Real, s: Seq<Real>) -> Real
    decreases s.len(),
{
    if s.len() == 0 {
        start
    } else {
        highest(start, s.drop_last()).greatest(s.last())
    }
}

fn lowest_of(s: &Vec<Real>) -> (r: Real)
    ensures
        r == lowest(s@),
{
    let mut acc: Real = Real { bits: INF };
    let mut i: usize = 0;
    assert(s@.take(0) =~= Seq::<Real>::empty());
    while i < s.len()
        invariant
            i <= s.len(),
            acc == lowest(s@.take(i as int)),
        decreases s.len() - i,
    {
        assert(s@.take(i + 1).drop_last() =~= s@.take(i as int));
        acc = acc.min_value(s[i]);
        i += 1;
    }
    assert(s@.take(s@.len() as int) =~= s@);
    acc
}

fn highest_of(start: Real, s: &Vec<Real>) -> (r: Real)
    ensures
        r == highest(start, s@),
{
    let mut acc: Real = start;
    let mut i: usize = 0;
    assert(s@.take(0) =~= Seq::<Real>::empty());
    while i < s.len()
        invariant
            i <= s.len(),
            acc == highest(start, s@.take(i as int)),
        decreases s.len() - i,
    {
        assert(s@.take(i + 1).drop_last() =~= s@.take(i as int));
        acc = acc.max_value(s[i]);
        i += 1;
    }
    assert(s@.take(s@.len() as int) =~= s@);
    acc
}

/// The distance between two ends, one where it is negligible.
pub open spec fn span<F: Fn(FloatOp, Real, Real, Real) -> Real>(fpu: &Fpu<F>, lo: Real, hi: Real) -> Real {
    let d = fpu.minus(hi, lo);
    if d.absolute().below(num(NARROW_BITS)) {
        one()
    } else {
        d
    }
}

fn span_of<F: Fn(FloatOp, Real, Real, Real) -> Real>(fpu: &Fpu<F>, lo: Real, hi: Real) -> (r: Real)
    requires
        fpu.wf(),
    ensures
        r == span(fpu, lo, hi),
{
    let d: Real = fpu.diff(hi, lo);
    if d.abs().lt(&Real { bits: NARROW_BITS }) {
        Real { bits: ONE_BITS }
    } else {
        d
    }
}

/// The drawing area of a panel: the panel, where the area starts, and its
/// extent.
#[derive(Clone, Copy, PartialEq, Eq, Structural, Debug)]
pub struct Area {
    pub panel: Panel,
    pub left: Real,
    pub top: Real,
    pub w: Real,
    pub h: Real,
    pub bottom: Real,
    pub tick_line: Real,
}

/// The area of a panel with the given margins at the right and at the bottom:
/// `bottom` is its lower edge, and `tick_line` the lower margin's edge.
pub open spec fn area<F: Fn(FloatOp, Real, Real, Real) -> Real>(fpu: &Fpu<F>, p: Panel, mr: Real, mb: Real) -> Area {
    let top = fpu.plus(p.y, num(TOP_MARGIN_BITS));
    let h = fpu.minus(fpu.minus(p.h, num(TOP_MARGIN_BITS)), mb);
    Area {
        panel: p,
        left: fpu.plus(p.x, num(LEFT_MARGIN_BITS)),
        top,
        w: fpu.minus(fpu.minus(p.w, num(LEFT_MARGIN_BITS)), mr),
        h,
        bottom: fpu.plus(top, h),
        tick_line: fpu.minus(fpu.plus(p.y, p.h), mb),
    }
}

fn area_of<F: Fn(FloatOp, Real, Real, Real) -> Real>(fpu: &Fpu<F>, p: Panel, mr: Real, mb: Real) -> (r: Area)
    requires
        fpu.wf(),
    ensures
        r == area(fpu, p, mr, mb),
{
    let ml = Real { bits: LEFT_MARGIN_BITS };
    let mt = Real { bits: TOP_MARGIN_BITS };
    let top: Real = fpu.sum(p.y, mt);
    let h: Real = fpu.diff(fpu.diff(p.h, mt), mb);
    Area {
        panel: p,
        left: fpu.sum(p.x, ml),
        top,
        w: fpu.diff(fpu.diff(p.w, ml), mr),
        h,
        bottom: fpu.sum(top, h),
        tick_line: fpu.diff(fpu.sum(p.y, p.h), mb),
    }
}

/// Halfway across a panel.
pub open spec fn centre<F: Fn(FloatOp, Real, Real, Real) -> Real>(fpu: &Fpu<F>, p: Panel) -> Real {
    fpu.plus(p.x, fpu.over(p.w, two()))
}

/// The height of a title.
pub open spec fn title_line<F: Fn(FloatOp, Real, Real, Real) -> Real>(fpu: &Fpu<F>, p: Panel) -> Real {
    fpu.plus(p.y, num(TITLE_DROP_BITS))
}

fn put_head<F: Fn(FloatOp, Real, Real, Real) -> Real, S: Fn(Style, Real) -> String>(
    fpu: &Fpu<F>,
    fig: &Figures<S>,
    out: &mut Vec<char>,
    p: Panel,
    title: &str,
)
    requires
        fpu.wf(),
        fig.wf(),
    ensures
        final(out)@ == heading(fig, old(out)@, centre(fpu, p), title_line(fpu, p), title@),
{
    let x: Real = fpu.sum(p.x, fpu.quot(p.w, Real { bits: TWO_BITS }));
    let y: Real = fpu.sum(p.y, Real { bits: TITLE_DROP_BITS });
    put_heading(fig, out, x, y, title);
}

/// The device after a drawing was made on it.
pub open spec fn plotted(old: &PlotDevice, new: &PlotDevice, drawing: Seq<char>) -> bool {
    exists|mid: PlotDevice| #[trigger]
        begun(old, &mid) && new.svg_body@ == mid.svg_body@ + drawing && new.has_plot && new.width == mid.width && new.height
            == mid.height && new.params == mid.params && new.panel_cursor == mid.panel_cursor
}

/// The panel that a new plot is drawn on.
pub open spec fn target<F: Fn(FloatOp, Real, Real, Real) -> Real>(fpu: &Fpu<F>, dev: &PlotDevice) -> Panel {
    if overlaid(dev) {
        dev.panel(fpu, dev.current())
    } else {
        dev.panel(fpu, dev.upcoming())
    }
}

fn numbers_of(v: &RVal) -> (r: Result<Vec<Real>, R2Err>)
    ensures
        match reals(v.deep()) {
            Some(s) => r is Ok && r->Ok_0@ == present(s),
            None => failed(r, (ErrKind::Type, "cannot coerce to numeric"@)),
        },
{
    match v.as_reals() {
        Ok(s) => Ok(keep_present(s.as_slice())),
        Err(e) => Err(e),
    }
}

// ── plot ───────────────────────────────────────────────────────────────────

/// The second argument gives the ordinates.
pub open spec fn has_ordinates(a: Seq<EvalArg>) -> bool {
    a.len() > 1 && a[1].name is None
}

/// The ordinates: given, or one, two, three and so on.
pub open spec fn ordinates(a: Seq<EvalArg>, n: nat) -> Seq<Real> {
    if has_ordinates(a) {
        present(reals(nth(a, 1))->0)
    } else {
        Seq::new(n, |i: int| rounded((i + 1) as nat))
    }
}

/// Abscissas or ordinates are no numbers.
pub open spec fn plot_fault(a: Seq<EvalArg>) -> bool {
    reals(nth(a, 0)) is None || (has_ordinates(a) && reals(nth(a, 1)) is None)
}

/// What a scatter plot shows: the points, their ranges and their colour.
pub struct Cloud {
    pub x: Seq<Real>,
    pub y: Seq<Real>,
    pub xmin: Real,
    pub ymin: Real,
    pub xrange: Real,
    pub yrange: Real,
    pub col: Seq<char>,
}

pub open spec fn cloud<F: Fn(FloatOp, Real, Real, Real) -> Real>(fpu: &Fpu<F>, x: Seq<Real>, y: Seq<Real>, col: Seq<char>) -> Cloud {
    Cloud {
        x,
        y,
        xmin: lowest(x),
        ymin: lowest(y),
        xrange: span(fpu, lowest(x), highest(num(NEG_INF), x)),
        yrange: span(fpu, lowest(y), highest(num(NEG_INF), y)),
        col,
    }
}

/// A number placed along an extent: its share of the range.
pub open spec fn placed<F: Fn(FloatOp, Real, Real, Real) -> Real>(
    fpu: &Fpu<F>,
    v: Real,
    min: Real,
    range: Real,
    extent: Real,
) -> Real {
    fpu.times(fpu.over(fpu.minus(v, min), range), extent)
}

fn placed_at<F: Fn(FloatOp, Real, Real, Real) -> Real>(fpu: &Fpu<F>, v: Real, min: Real, range: Real, extent: Real) -> (r: Real)
    requires
        fpu.wf(),
    ensures
        r == placed(fpu, v, min, range, extent),
{
    fpu.prod(fpu.quot(fpu.diff(v, min), range), extent)
}

/// The first `n` points.
pub open spec fn dots<F: Fn(FloatOp, Real, Real, Real) -> Real, S: Fn(Style, Real) -> String>(
    fpu: &Fpu<F>,
    fig: &Figures<S>,
    out: Seq<char>,
    r: Area,
    c: Cloud,
    n: nat,
) -> Seq<char>
    decreases n,
{
    if n == 0 {
        out
    } else {
        let i = n - 1;
        dot(
            fig,
            dots(fpu, fig, out, r, c, i as nat),
            fpu.plus(r.left, placed(fpu, c.x[i], c.xmin, c.xrange, r.w)),
            fpu.minus(r.bottom, placed(fpu, c.y[i], c.ymin, c.yrange, r.h)),
            c.col,
        )
    }
}

/// The first `n` ticks of both axes.
pub open spec fn ticks<F: Fn(FloatOp, Real, Real, Real) -> Real, S: Fn(Style, Real) -> String>(
    fpu: &Fpu<F>,
    fig: &Figures<S>,
    out: Seq<char>,
    r: Area,
    c: Cloud,
    n: nat,
) -> Seq<char>
    decreases n,
{
    if n == 0 {
        out
    } else {
        let frac = fpu.over(rounded((n - 1) as nat), num(QUARTERS_BITS));
        tick_beside(
            fig,
            tick_below(
                fig,
                ticks(fpu, fig, out, r, c, (n - 1) as nat),
                fpu.plus(r.left, fpu.times(frac, r.w)),
                fpu.plus(r.tick_line, num(TICK_DROP_BITS)),
                fpu.plus(c.xmin, fpu.times(frac, c.xrange)),
            ),
            fpu.minus(r.left, num(GAP_BITS)),
            fpu.plus(fpu.minus(r.bottom, fpu.times(frac, r.h)), num(HALF_TEXT_BITS)),
            fpu.plus(c.ymin, fpu.times(frac, c.yrange)),
        )
    }
}

/// The labels of a plot.
pub open spec fn plot_labels<F: Fn(FloatOp, Real, Real, Real) -> Real, S: Fn(Style, Real) -> String>(
    fpu: &Fpu<F>,
    fig: &Figures<S>,
    r: Area,
    title: Seq<char>,
    xlab: Seq<char>,
    ylab: Seq<char>,
    cex: Real,
) -> Seq<char> {
    let p = r.panel;
    let framed = frame(fig, Seq::empty(), r.left, r.top, r.w, r.h);
    let titled = if title.len() == 0 {
        framed
    } else {
        plot_title(fig, framed, centre(fpu, p), title_line(fpu, p), fpu.times(num(TITLE_SIZE_BITS), cex), title)
    };
    side_label(
        fig,
        below_label(
            fig,
            titled,
            fpu.plus(r.left, fpu.over(r.w, two())),
            fpu.minus(fpu.plus(p.y, p.h), num(GAP_BITS)),
            xlab,
        ),
        fpu.plus(p.x, num(TICK_DROP_BITS)),
        fpu.plus(r.top, fpu.over(r.h, two())),
        ylab,
    )
}

/// A scatter plot.
pub open spec fn plot_svg<F: Fn(FloatOp, Real, Real, Real) -> Real, S: Fn(Style, Real) -> String>(
    fpu: &Fpu<F>,
    fig: &Figures<S>,
    p: Panel,
    c: Cloud,
    title: Seq<char>,
    xlab: Seq<char>,
    ylab: Seq<char>,
    cex: Real,
) -> Seq<char> {
    let r = area(fpu, p, num(RIGHT_MARGIN_BITS), num(BOTTOM_MARGIN_BITS));
    ticks(
        fpu,
        fig,
        dots(fpu, fig, plot_labels(fpu, fig, r, title, xlab, ylab, cex), r, c, shorter(c.x.len(), c.y.len())),
        r,
        c,
        5,
    )
}

fn put_labels<F: Fn(FloatOp, Real, Real, Real) -> Real, S: Fn(Style, Real) -> String>(
    fpu: &Fpu<F>,
    fig: &Figures<S>,
    r: Area,
    title: &str,
    xlab: &str,
    ylab: &str,
    cex: Real,
) -> (out: Vec<char>)
    requires
        fpu.wf(),
        fig.wf(),
    ensures
        out@ == plot_labels(fpu, fig, r, title@, xlab@, ylab@, cex),
{
    let p: Panel = r.panel;
    let pair = Real { bits: TWO_BITS };
    let mut out: Vec<char> = Vec::new();
    put_frame(fig, &mut out, r.left, r.top, r.w, r.h);
    let shown: Vec<char> = chars_of(title);
    if shown.len() > 0 {
        let x: Real = fpu.sum(p.x, fpu.quot(p.w, pair));
        let y: Real = fpu.sum(p.y, Real { bits: TITLE_DROP_BITS });
        let size: Real = fpu.prod(Real { bits: TITLE_SIZE_BITS }, cex);
        put_plot_title(fig, &mut out, x, y, size, title);
    }
    let x: Real = fpu.sum(r.left, fpu.quot(r.w, pair));
    let y: Real = fpu.diff(fpu.sum(p.y, p.h), Real { bits: GAP_BITS });
    put_below_label(fig, &mut out, x, y, xlab);
    let sx: Real = fpu.sum(p.x, Real { bits: TICK_DROP_BITS });
    let sy: Real = fpu.sum(r.top, fpu.quot(r.h, pair));
    put_side_label(fig, &mut out, sx, sy, ylab);
    out
}

fn put_cloud<F: Fn(FloatOp, Real, Real, Real) -> Real, S: Fn(Style, Real) -> String>(
    fpu: &Fpu<F>,
    fig: &Figures<S>,
    out: &mut Vec<char>,
    r: Area,
    x: &Vec<Real>,
    y: &Vec<Real>,
    col: &str,
)
    requires
        fpu.wf(),
        fig.wf(),
    ensures
        final(out)@ == ({
            let c = cloud(fpu, x@, y@, col@);
            ticks(fpu, fig, dots(fpu, fig, old(out)@, r, c, shorter(x@.len(), y@.len())), r, c, 5)
        }),
{
    let ghost first = out@;
    let ghost c = cloud(fpu, x@, y@, col@);
    let xmin: Real = lowest_of(x);
    let xmax: Real = highest_of(Real { bits: NEG_INF }, x);
    let ymin: Real = lowest_of(y);
    let ymax: Real = highest_of(Real { bits: NEG_INF }, y);
    let xrange: Real = span_of(fpu, xmin, xmax);
    let yrange: Real = span_of(fpu, ymin, ymax);
    let n: usize = if x.len() < y.len() { x.len() } else { y.len() };
    let mut i: usize = 0;
    while i < n
        invariant
            fpu.wf(),
            fig.wf(),
            n <= x@.len(),
            n <= y@.len(),
            i <= n,
            c.x == x@,
            c.y == y@,
            c.xmin == xmin,
            c.ymin == ymin,
            c.xrange == xrange,
            c.yrange == yrange,
            c.col == col@,
            out@ == dots(fpu, fig, first, r, c, i as nat),
        decreases n - i,
    {
        let px: Real = fpu.sum(r.left, placed_at(fpu, x[i], xmin, xrange, r.w));
        let py: Real = fpu.diff(r.bottom, placed_at(fpu, y[i], ymin, yrange, r.h));
        put_dot(fig, out, px, py, col);
        i += 1;
    }
    let ghost middle = out@;
    let mut k: u64 = 0;
    while k < 5
        invariant
            fpu.wf(),
            fig.wf(),
            k <= 5,
            c.xmin == xmin,
            c.ymin == ymin,
            c.xrange == xrange,
            c.yrange == yrange,
            out@ == ticks(fpu, fig, middle, r, c, k as nat),
        decreases 5 - k,
    {
        let frac: Real = fpu.quot(Real::from_u64(k), Real { bits: QUARTERS_BITS });
        let xv: Real = fpu.sum(xmin, fpu.prod(frac, xrange));
        let yv: Real = fpu.sum(ymin, fpu.prod(frac, yrange));
        let px: Real = fpu.sum(r.left, fpu.prod(frac, r.w));
        let py: Real = fpu.diff(r.bottom, fpu.prod(frac, r.h));
        put_tick_below(fig, out, px, fpu.sum(r.tick_line, Real { bits: TICK_DROP_BITS }), xv);
        put_tick_beside(
            fig,
            out,
            fpu.diff(r.left, Real { bits: GAP_BITS }),
            fpu.sum(py, Real { bits: HALF_TEXT_BITS }),
            yv,
        );
        k += 1;
    }
}

/// A scatter plot of one or two vectors on the device. The result names the
/// file that the drawing belongs in.
pub fn bi_plot<F: Fn(FloatOp, Real, Real, Real) -> Real, P: Fn(Real) -> String, S: Fn(Style, Real) -> String>(
    fpu: &Fpu<F>,
    printer: &Printer<P>,
    fig: &Figures<S>,
    dev: &mut PlotDevice,
    a: &[EvalArg],
) -> (r: Result<RVal, R2Err>)
    requires
        fpu.wf(),
        printer.wf(),
        fig.wf(),
        old(dev).countable(),
    ensures
        if plot_fault(a@) {
            failed(r, (ErrKind::Type, "cannot coerce to numeric"@)) && *final(dev) == *old(dev)
        } else {
            let x = present(reals(nth(a@, 0))->0);
            r is Ok && r->Ok_0.deep() == str_val("plot.svg"@) && plotted(
                old(dev),
                final(dev),
                plot_svg(
                    fpu,
                    fig,
                    target(fpu, old(dev)),
                    cloud(fpu, x, ordinates(a@, x.len()), old(dev).params.col@),
                    text_named(printer, a@, "main"@, ""@),
                    text_named(printer, a@, "xlab"@, "x"@),
                    text_named(printer, a@, "ylab"@, "y"@),
                    old(dev).params.cex,
                ),
            )
        },
{
    let x: Vec<Real> = match numbers_of(&nth_arg(a, 0)) {
        Ok(v) => v,
        Err(e) => {
            return Err(e);
        },
    };
    let given: bool = a.len() > 1 && a[1].name.is_none();
    let y: Vec<Real> = if given {
        match numbers_of(&nth_arg(a, 1)) {
            Ok(v) => v,
            Err(e) => {
                return Err(e);
            },
        }
    } else {
        count_up(x.len())
    };
    let title: String = arg_text(printer, a, "main", "");
    let xlab: String = arg_text(printer, a, "xlab", "x");
    let ylab: String = arg_text(printer, a, "ylab", "y");
    let col: String = owned(dev.params.col.as_str());
    let cex: Real = dev.params.cex;
    let p: Panel = begin_plot(fpu, dev);
    let ghost mid = *dev;
    let r: Area = area_of(fpu, p, Real { bits: RIGHT_MARGIN_BITS }, Real { bits: BOTTOM_MARGIN_BITS });
    let mut out: Vec<char> = put_labels(fpu, fig, r, title.as_str(), xlab.as_str(), ylab.as_str(), cex);
    put_cloud(fpu, fig, &mut out, r, &x, &y, col.as_str());
    let drawing: String = string_of(&out);
    draw(dev, drawing.as_str());
    proof {
        assert(y@ =~= ordinates(a@, x@.len()));
        assert(begun(old(dev), &mid));
    }
    Ok(rstr("plot.svg"))
}

fn count_up(n: usize) -> (r: Vec<Real>)
    ensures
        r@ == Seq::new(n as nat, |i: int| rounded((i + 1) as nat)),
{
    let mut out: Vec<Real> = Vec::new();
    let mut i: usize = 0;
    while i < n
        invariant
            i <= n,
            out@ == Seq::new(i as nat, |i: int| rounded((i + 1) as nat)),
        decreases n - i,
    {
        i += 1;
        out.push(Real::from_u64(i as u64));
        assert(out@ =~= Seq::new(i as nat, |i: int| rounded((i + 1) as nat)));
    }
    out
}

// ── Where a plot was saved ─────────────────────────────────────────────────

/// A path without the mark that Windows puts in front of an absolute one.
pub open spec fn unmarked(p: Seq<char>) -> Seq<char> {
    let mark = "\\\\?\\"@;
    if has_prefix(p, mark) {
        p.skip(mark.len() as int)
    } else {
        p
    }
}

/// The line that says where a plot was saved: its absolute path where that was
/// found, else the name that it was saved under.
pub fn saved_line(found: Option<&str>, rel: &str) -> (r: String)
    ensures
        r@ == "Plot saved to "@ + match found {
            Some(p) => unmarked(p@),
            None => rel@,
        },
{
    let mut out: Vec<char> = Vec::new();
    extend_str(&mut out, "Plot saved to ");
    match found {
        Some(p) => {
            let v: Vec<char> = chars_of(p);
            let mark: Vec<char> = chars_of("\\\\?\\");
            if starts_with(&v, "\\\\?\\") {
                let mut rest: Vec<char> = part(&v, mark.len(), v.len());
                assert(rest@ =~= unmarked(p@));
                out.append(&mut rest);
            } else {
                extend_str(&mut out, p);
            }
        },
        None => extend_str(&mut out, rel),
    }
    let r: String = string_of(&out);
    assert(r@ =~= "Plot saved to "@ + match found {
        Some(p) => unmarked(p@),
        None => rel@,
    });
    r
}

// ── hist ───────────────────────────────────────────────────────────────────

/// The bin of a number: the last bin takes what lies at the upper end.
pub open spec fn bin_of<F: Fn(FloatOp, Real, Real, Real) -> Real>(
    fpu: &Fpu<F>,
    v: Real,
    min: Real,
    width: Real,
    nbins: nat,
) -> int {
    let b = fpu.over(fpu.minus(v, min), width).as_count() as int;
    if b < nbins {
        b
    } else {
        nbins - 1
    }
}

/// How many of the numbers fall in bin `b`.
pub open spec fn in_bin<F: Fn(FloatOp, Real, Real, Real) -> Real>(
    fpu: &Fpu<F>,
    x: Seq<Real>,
    min: Real,
    width: Real,
    nbins: nat,
    b: int,
) -> nat
    decreases x.len(),
{
    if x.len() == 0 {
        0
    } else {
        in_bin(fpu, x.drop_last(), min, width, nbins, b) + if bin_of(fpu, x.last(), min, width, nbins) == b {
            1nat
        } else {
            0
        }
    }
}

/// The counts of all bins.
pub open spec fn bin_counts<F: Fn(FloatOp, Real, Real, Real) -> Real>(
    fpu: &Fpu<F>,
    x: Seq<Real>,
    min: Real,
    width: Real,
    nbins: nat,
) -> Seq<nat> {
    Seq::new(nbins, |b: int| in_bin(fpu, x, min, width, nbins, b))
}

/// The largest of the counts.
pub open spec fn most(c: Seq<nat>) -> nat
    decreases c.len(),
{
    if c.len() == 0 {
        0
    } else {
        let m = most(c.drop_last());
        if m < c.last() {
            c.last()
        } else {
            m
        }
    }
}

/// One line of a histogram in text: the ends of the bin, how many numbers it
/// holds, and the length of its bar.
#[derive(Clone, Copy, PartialEq, Eq, Structural, Debug)]
pub struct HistLine {
    pub lo: Real,
    pub hi: Real,
    pub count: u64,
    pub bar: usize,
}

/// Line `i` of a histogram in text.
pub open spec fn hist_line<F: Fn(FloatOp, Real, Real, Real) -> Real>(
    fpu: &Fpu<F>,
    min: Real,
    width: Real,
    counts: Seq<nat>,
    i: int,
) -> HistLine {
    let lo = fpu.plus(min, fpu.times(rounded(i as nat), width));
    HistLine {
        lo,
        hi: fpu.plus(lo, width),
        count: counts[i] as u64,
        bar: fpu.times(fpu.over(rounded(counts[i]), rounded(most(counts))), num(BOTTOM_MARGIN_BITS)).as_count(),
    }
}

/// The first `n` bars.
pub open spec fn columns<F: Fn(FloatOp, Real, Real, Real) -> Real, S: Fn(Style, Real) -> String>(
    fpu: &Fpu<F>,
    fig: &Figures<S>,
    out: Seq<char>,
    r: Area,
    counts: Seq<nat>,
    n: nat,
) -> Seq<char>
    decreases n,
{
    if n == 0 {
        out
    } else {
        let i = n - 1;
        let bw = fpu.over(r.w, rounded(counts.len()));
        let bh = if most(counts) > 0 {
            fpu.times(fpu.over(rounded(counts[i]), rounded(most(counts))), r.h)
        } else {
            zero()
        };
        column_bar(
            fig,
            columns(fpu, fig, out, r, counts, i as nat),
            fpu.plus(r.left, fpu.times(rounded(i as nat), bw)),
            fpu.minus(r.bottom, bh),
            bw,
            bh,
        )
    }
}

/// A histogram.
pub open spec fn hist_svg<F: Fn(FloatOp, Real, Real, Real) -> Real, S: Fn(Style, Real) -> String>(
    fpu: &Fpu<F>,
    fig: &Figures<S>,
    p: Panel,
    title: Seq<char>,
    counts: Seq<nat>,
) -> Seq<char> {
    let r = area(fpu, p, num(RIGHT_MARGIN_BITS), num(BOTTOM_MARGIN_BITS));
    let headed = heading(fig, Seq::empty(), centre(fpu, p), title_line(fpu, p), title);
    let bars = columns(fpu, fig, headed, r, counts, counts.len());
    axis_line(
        fig,
        axis_line(fig, bars, r.left, r.bottom, fpu.plus(r.left, r.w), r.bottom),
        r.left,
        r.top,
        r.left,
        r.bottom,
    )
}

fn count_bins<F: Fn(FloatOp, Real, Real, Real) -> Real>(fpu: &Fpu<F>, x: &Vec<Real>, min: Real, width: Real, nbins: usize) -> (r: Vec<
    u64,
>)
    requires
        fpu.wf(),
        x@.len() > 0 ==> nbins > 0,
    ensures
        r@.len() == nbins,
        forall|b: int| 0 <= b < nbins ==> #[trigger] r@[b] == in_bin(fpu, x@, min, width, nbins as nat, b),
{
    let mut counts: Vec<u64> = Vec::new();
    let mut b: usize = 0;
    while b < nbins
        invariant
            b <= nbins,
            counts@.len() == b,
            forall|k: int| 0 <= k < b ==> #[trigger] counts@[k] == 0,
        decreases nbins - b,
    {
        counts.push(0);
        b += 1;
    }
    let mut i: usize = 0;
    assert(x@.take(0) =~= Seq::<Real>::empty());
    while i < x.len()
        invariant
            fpu.wf(),
            x@.len() > 0 ==> nbins > 0,
            i <= x.len(),
            counts@.len() == nbins,
            forall|k: int| 0 <= k < nbins ==> #[trigger] counts@[k] <= i,
            forall|k: int|
                0 <= k < nbins ==> #[trigger] counts@[k] == in_bin(
                    fpu,
                    x@.take(i as int),
                    min,
                    width,
                    nbins as nat,
                    k,
                ),
        decreases x.len() - i,
    {
        let ghost s = x@.take(i + 1);
        assert(s.drop_last() =~= x@.take(i as int));
        assert(s.last() == x@[i as int]);
        let raw: usize = fpu.quot(fpu.diff(x[i], min), width).to_usize();
        let at: usize = if raw < nbins { raw } else { nbins - 1 };
        let c: u64 = counts[at];
        counts.set(at, c + 1);
        i += 1;
    }
    assert(x@.take(x@.len() as int) =~= x@);
    counts
}

pub open spec fn nats(s: Seq<u64>) -> Seq<nat> {
    Seq::new(s.len(), |i: int| s[i] as nat)
}

fn most_of(c: &Vec<u64>) -> (r: u64)
    ensures
        r == most(nats(c@)),
{
    let ghost all = nats(c@);
    let mut m: u64 = 0;
    let mut i: usize = 0;
    assert(all.take(0) =~= Seq::<nat>::empty());
    while i < c.len()
        invariant
            all == nats(c@),
            i <= c.len(),
            m == most(all.take(i as int)),
        decreases c.len() - i,
    {
        assert(all.take(i + 1).drop_last() =~= all.take(i as int));
        if m < c[i] {
            m = c[i];
        }
        i += 1;
    }
    assert(all.take(c@.len() as int) =~= all);
    m
}

fn put_columns<F: Fn(FloatOp, Real, Real, Real) -> Real, S: Fn(Style, Real) -> String>(
    fpu: &Fpu<F>,
    fig: &Figures<S>,
    out: &mut Vec<char>,
    r: Area,
    counts: &Vec<u64>,
)
    requires
        fpu.wf(),
        fig.wf(),
    ensures
        final(out)@ == columns(fpu, fig, old(out)@, r, nats(counts@), counts@.len()),
{
    let ghost first = out@;
    let ghost all = nats(counts@);
    let top: u64 = most_of(counts);
    let scale: Real = Real::from_u64(top);
    let bw: Real = fpu.quot(r.w, Real::from_u64(counts.len() as u64));
    let mut i: usize = 0;
    while i < counts.len()
        invariant
            fpu.wf(),
            fig.wf(),
            all == nats(counts@),
            top == most(all),
            scale == rounded(top as nat),
            bw == fpu.over(r.w, rounded(all.len())),
            i <= counts.len(),
            out@ == columns(fpu, fig, first, r, all, i as nat),
        decreases counts.len() - i,
    {
        let bh: Real = if top > 0 {
            fpu.prod(fpu.quot(Real::from_u64(counts[i]), scale), r.h)
        } else {
            Real { bits: 0 }
        };
        let bx: Real = fpu.sum(r.left, fpu.prod(Real::from_u64(i as u64), bw));
        let by: Real = fpu.diff(r.bottom, bh);
        put_column_bar(fig, out, bx, by, bw, bh);
        i += 1;
    }
}

fn text_lines<F: Fn(FloatOp, Real, Real, Real) -> Real>(fpu: &Fpu<F>, min: Real, width: Real, counts: &Vec<u64>) -> (r: Vec<HistLine>)
    requires
        fpu.wf(),
    ensures
        r@ == Seq::new(counts@.len(), |i: int| hist_line(fpu, min, width, nats(counts@), i)),
{
    let ghost all = nats(counts@);
    let scale: Real = Real::from_u64(most_of(counts));
    let ghost want = Seq::new(counts@.len(), |i: int| hist_line(fpu, min, width, all, i));
    let mut out: Vec<HistLine> = Vec::new();
    let mut i: usize = 0;
    while i < counts.len()
        invariant
            fpu.wf(),
            all == nats(counts@),
            scale == rounded(most(all)),
            want == Seq::new(counts@.len(), |i: int| hist_line(fpu, min, width, all, i)),
            i <= counts.len(),
            out@ == want.take(i as int),
        decreases counts.len() - i,
    {
        let lo: Real = fpu.sum(min, fpu.prod(Real::from_u64(i as u64), width));
        let hi: Real = fpu.sum(lo, width);
        let share: Real = fpu.quot(Real::from_u64(counts[i]), scale);
        let bar: usize = fpu.prod(share, Real { bits: BOTTOM_MARGIN_BITS }).to_usize();
        let line = HistLine { lo, hi, count: counts[i], bar };
        assert(line == want[i as int]);
        out.push(line);
        assert(out@ =~= want.take(i + 1));
        i += 1;
    }
    assert(out@ =~= want);
    out
}

/// The ends, the bin width and the counts of a histogram.
pub open spec fn hist_width<F: Fn(FloatOp, Real, Real, Real) -> Real>(fpu: &Fpu<F>, x: Seq<Real>, nbins: nat) -> Real {
    fpu.over(fpu.minus(highest(num(NEG_INF), x), lowest(x)), rounded(nbins))
}

/// A histogram on the device, and its lines in text.
pub fn bi_hist<F: Fn(FloatOp, Real, Real, Real) -> Real, P: Fn(Real) -> String, S: Fn(Style, Real) -> String>(
    fpu: &Fpu<F>,
    printer: &Printer<P>,
    fig: &Figures<S>,
    dev: &mut PlotDevice,
    a: &[EvalArg],
) -> (r: Result<(RVal, Vec<HistLine>), R2Err>)
    requires
        fpu.wf(),
        printer.wf(),
        fig.wf(),
        old(dev).countable(),
        reals(nth(a@, 0)) is Some && present(reals(nth(a@, 0))->0).len() > 0 ==> count_named(a@, "breaks"@, 10) > 0,
    ensures
        match reals(nth(a@, 0)) {
            None => failed(r, (ErrKind::Type, "cannot coerce to numeric"@)) && *final(dev) == *old(dev),
            Some(s) => {
                let x = present(s);
                let n = count_named(a@, "breaks"@, 10) as nat;
                let w = hist_width(fpu, x, n);
                let counts = bin_counts(fpu, x, lowest(x), w, n);
                &&& r is Ok
                &&& r->Ok_0.0.deep() == Val::Null
                &&& r->Ok_0.1@ == Seq::new(n, |i: int| hist_line(fpu, lowest(x), w, counts, i))
                &&& plotted(
                    old(dev),
                    final(dev),
                    hist_svg(
                        fpu,
                        fig,
                        target(fpu, old(dev)),
                        text_named(printer, a@, "main"@, "Histogram"@),
                        counts,
                    ),
                )
            },
        },
{
    let x: Vec<Real> = match numbers_of(&nth_arg(a, 0)) {
        Ok(v) => v,
        Err(e) => {
            return Err(e);
        },
    };
    let nbins: usize = arg_count(a, "breaks", 10);
    let title: String = arg_text(printer, a, "main", "Histogram");
    let min: Real = lowest_of(&x);
    let max: Real = highest_of(Real { bits: NEG_INF }, &x);
    let width: Real = fpu.quot(fpu.diff(max, min), Real::from_u64(nbins as u64));
    let counts: Vec<u64> = count_bins(fpu, &x, min, width, nbins);
    assert(nats(counts@) =~= bin_counts(fpu, x@, min, width, nbins as nat));
    let lines: Vec<HistLine> = text_lines(fpu, min, width, &counts);
    let p: Panel = begin_plot(fpu, dev);
    let ghost mid = *dev;
    let r: Area = area_of(fpu, p, Real { bits: RIGHT_MARGIN_BITS }, Real { bits: BOTTOM_MARGIN_BITS });
    let mut out: Vec<char> = Vec::new();
    put_head(fpu, fig, &mut out, p, title.as_str());
    put_columns(fpu, fig, &mut out, r, &counts);
    put_axis_line(fig, &mut out, r.left, r.bottom, fpu.sum(r.left, r.w), r.bottom);
    put_axis_line(fig, &mut out, r.left, r.top, r.left, r.bottom);
    let drawing: String = string_of(&out);
    draw(dev, drawing.as_str());
    proof {
        assert(begun(old(dev), &mid));
        reveal_with_fuel(RVal::deep, 2);
    }
    Ok((RVal::Null, lines))
}

/// Every number of a histogram falls in one of its bins.
pub proof fn law_bins_complete<F: Fn(FloatOp, Real, Real, Real) -> Real>(
    fpu: &Fpu<F>,
    v: Real,
    min: Real,
    width: Real,
    nbins: nat,
)
    requires
        nbins > 0,
    ensures
        0 <= bin_of(fpu, v, min, width, nbins) < nbins,
{
}

// ── boxplot ────────────────────────────────────────────────────────────────

/// A group of a box plot: its name and its numbers.
pub type Group = (Seq<char>, Seq<Real>);

/// The groups among the first `n` arguments: all but the title.
pub open spec fn box_groups(a: Seq<EvalArg>, n: nat) -> Seq<Group>
    decreases n,
{
    if n == 0 {
        Seq::empty()
    } else {
        let s = box_groups(a, (n - 1) as nat);
        let e = a[n - 1];
        if opt_text(e.name) == Some("main"@) {
            s
        } else {
            s.push(
                (
                    match opt_text(e.name) {
                        Some(t) => t,
                        None => "V"@ + decimal(n),
                    },
                    present(reals(e.value.deep())->0),
                ),
            )
        }
    }
}

/// One of the first `n` arguments is a group and not numeric.
pub open spec fn box_fault(a: Seq<EvalArg>, n: nat) -> bool {
    exists|i: int|
        0 <= i < n && opt_text((#[trigger] a[i]).name) != Some("main"@) && reals(a[i].value.deep()) is None
}

/// The order of the numbers.
pub open spec fn order_of(s: Seq<Real>) -> Seq<usize> {
    choose|p: Seq<usize>| arranged(s, p)
}

/// The number at a rank.
pub open spec fn at_rank(s: Seq<Real>, k: int) -> Real {
    s[order_of(s)[k] as int]
}

/// The five numbers of a box: the lower fence, the quartiles and the upper
/// fence.
#[derive(Debug)]
pub struct Box5 {
    pub lower: Real,
    pub q1: Real,
    pub median: Real,
    pub q3: Real,
    pub upper: Real,
}

pub open spec fn box_of<F: Fn(FloatOp, Real, Real, Real) -> Real>(fpu: &Fpu<F>, s: Seq<Real>) -> Box5 {
    let n = s.len() as int;
    let q1 = at_rank(s, n / 4);
    let q3 = at_rank(s, 3 * n / 4);
    let reach = fpu.times(num(FENCE_BITS), fpu.minus(q3, q1));
    Box5 {
        lower: fpu.minus(q1, reach).greatest(at_rank(s, 0)),
        q1,
        median: at_rank(s, n / 2),
        q3,
        upper: fpu.plus(q3, reach).least(at_rank(s, n - 1)),
    }
}

fn box_numbers<F: Fn(FloatOp, Real, Real, Real) -> Real>(fpu: &Fpu<F>, s: &Vec<Real>) -> (r: Box5)
    requires
        fpu.wf(),
        2 <= s@.len() < SIZE_LIMIT,
    ensures
        r == box_of(fpu, s@),
{
    let p: Vec<usize> = arrange(s.as_slice());
    let n: usize = s.len();
    proof {
        let q = order_of(s@);
        assert(arranged(s@, q));
        law_order_unique(key_order(s@), p@, q, n as int);
    }
    let three: u64 = 3 * (n as u64) / 4;
    let hi: usize = three as usize;
    proof {
        assert(p@.contains(p@[n as int / 4]));
        assert(p@.contains(p@[n as int / 2]));
        assert(p@.contains(p@[hi as int]));
        assert(p@.contains(p@[0]));
        assert(p@.contains(p@[n - 1]));
    }
    let q1: Real = s[p[n / 4]];
    let median: Real = s[p[n / 2]];
    let q3: Real = s[p[hi]];
    let least: Real = s[p[0]];
    let greatest: Real = s[p[n - 1]];
    let reach: Real = fpu.prod(Real { bits: FENCE_BITS }, fpu.diff(q3, q1));
    Box5 {
        lower: fpu.diff(q1, reach).max_value(least),
        q1,
        median,
        q3,
        upper: fpu.sum(q3, reach).min_value(greatest),
    }
}

/// All numbers of the first `n` groups.
pub open spec fn pooled(g: Seq<Group>, n: nat) -> Seq<Real>
    decreases n,
{
    if n == 0 {
        Seq::empty()
    } else {
        pooled(g, (n - 1) as nat) + g[n - 1].1
    }
}

/// The height of a number.
pub open spec fn height<F: Fn(FloatOp, Real, Real, Real) -> Real>(fpu: &Fpu<F>, r: Area, min: Real, range: Real, v: Real) -> Real {
    fpu.minus(r.bottom, placed(fpu, v, min, range, r.h))
}

/// One box with its name.
pub open spec fn one_box<F: Fn(FloatOp, Real, Real, Real) -> Real, S: Fn(Style, Real) -> String>(
    fpu: &Fpu<F>,
    fig: &Figures<S>,
    out: Seq<char>,
    r: Area,
    min: Real,
    range: Real,
    b: Box5,
    cx: Real,
    bw: Real,
    name: Seq<char>,
) -> Seq<char> {
    let lower = height(fpu, r, min, range, b.lower);
    let upper = height(fpu, r, min, range, b.upper);
    let y1 = height(fpu, r, min, range, b.q1);
    let y3 = height(fpu, r, min, range, b.q3);
    let ym = height(fpu, r, min, range, b.median);
    let quarter = fpu.over(bw, num(QUARTERS_BITS));
    let half = fpu.over(bw, two());
    let s1 = whisker(fig, out, cx, lower, cx, y1);
    let s2 = whisker(fig, s1, cx, y3, cx, upper);
    let s3 = whisker(fig, s2, fpu.minus(cx, quarter), lower, fpu.plus(cx, quarter), lower);
    let s4 = whisker(fig, s3, fpu.minus(cx, quarter), upper, fpu.plus(cx, quarter), upper);
    let s5 = middle_box(fig, s4, fpu.minus(cx, half), y3, bw, fpu.minus(y1, y3));
    let s6 = median_line(fig, s5, fpu.minus(cx, half), ym, fpu.plus(cx, half), ym);
    group_label(fig, s6, cx, fpu.plus(r.tick_line, num(TICK_DROP_BITS)), name)
}

fn height_of<F: Fn(FloatOp, Real, Real, Real) -> Real>(fpu: &Fpu<F>, r: Area, min: Real, range: Real, v: Real) -> (y: Real)
    requires
        fpu.wf(),
    ensures
        y == height(fpu, r, min, range, v),
{
    fpu.diff(r.bottom, placed_at(fpu, v, min, range, r.h))
}

fn put_box<F: Fn(FloatOp, Real, Real, Real) -> Real, S: Fn(Style, Real) -> String>(
    fpu: &Fpu<F>,
    fig: &Figures<S>,
    out: &mut Vec<char>,
    r: Area,
    min: Real,
    range: Real,
    b: Box5,
    cx: Real,
    bw: Real,
    name: &str,
)
    requires
        fpu.wf(),
        fig.wf(),
    ensures
        final(out)@ == one_box(fpu, fig, old(out)@, r, min, range, b, cx, bw, name@),
{
    let lower: Real = height_of(fpu, r, min, range, b.lower);
    let upper: Real = height_of(fpu, r, min, range, b.upper);
    let y1: Real = height_of(fpu, r, min, range, b.q1);
    let y3: Real = height_of(fpu, r, min, range, b.q3);
    let ym: Real = height_of(fpu, r, min, range, b.median);
    let quarter: Real = fpu.quot(bw, Real { bits: QUARTERS_BITS });
    let half: Real = fpu.quot(bw, Real { bits: TWO_BITS });
    put_whisker(fig, out, cx, lower, cx, y1);
    put_whisker(fig, out, cx, y3, cx, upper);
    put_whisker(fig, out, fpu.diff(cx, quarter), lower, fpu.sum(cx, quarter), lower);
    put_whisker(fig, out, fpu.diff(cx, quarter), upper, fpu.sum(cx, quarter), upper);
    put_middle_box(fig, out, fpu.diff(cx, half), y3, bw, fpu.diff(y1, y3));
    put_median_line(fig, out, fpu.diff(cx, half), ym, fpu.sum(cx, half), ym);
    put_group_label(fig, out, cx, fpu.sum(r.tick_line, Real { bits: TICK_DROP_BITS }), name);
}

/// The first `n` boxes; a group with fewer than two numbers has none.
pub open spec fn boxes<F: Fn(FloatOp, Real, Real, Real) -> Real, S: Fn(Style, Real) -> String>(
    fpu: &Fpu<F>,
    fig: &Figures<S>,
    out: Seq<char>,
    r: Area,
    g: Seq<Group>,
    n: nat,
) -> Seq<char>
    decreases n,
{
    if n == 0 {
        out
    } else {
        let i = n - 1;
        let prior = boxes(fpu, fig, out, r, g, i as nat);
        if g[i].1.len() < 2 {
            prior
        } else {
            let all = pooled(g, g.len());
            let min = lowest(all);
            let gap = fpu.over(r.w, rounded(g.len()));
            one_box(
                fpu,
                fig,
                prior,
                r,
                min,
                span(fpu, min, highest(num(NEG_INF), all)),
                box_of(fpu, g[i].1),
                fpu.plus(fpu.plus(r.left, fpu.times(gap, rounded(i as nat))), fpu.over(gap, two())),
                fpu.times(gap, num(BOX_SHARE_BITS)),
                g[i].0,
            )
        }
    }
}

/// A box plot.
pub open spec fn boxplot_svg<F: Fn(FloatOp, Real, Real, Real) -> Real, S: Fn(Style, Real) -> String>(
    fpu: &Fpu<F>,
    fig: &Figures<S>,
    p: Panel,
    title: Seq<char>,
    g: Seq<Group>,
) -> Seq<char> {
    let r = area(fpu, p, num(TOP_MARGIN_BITS), num(BOTTOM_MARGIN_BITS));
    boxes(
        fpu,
        fig,
        heading(fig, Seq::empty(), centre(fpu, p), title_line(fpu, p), title),
        r,
        g,
        g.len(),
    )
}

pub open spec fn group_list(v: Seq<(String, Vec<Real>)>) -> Seq<Group> {
    Seq::new(v.len(), |i: int| (v[i].0@, v[i].1@))
}

fn read_groups(a: &[EvalArg]) -> (r: Result<Vec<(String, Vec<Real>)>, R2Err>)
    requires
        a@.len() < SIZE_LIMIT,
    ensures
        if box_fault(a@, a@.len()) {
            failed(r, (ErrKind::Type, "cannot coerce to numeric"@))
        } else {
            r is Ok && group_list(r->Ok_0@) == box_groups(a@, a@.len())
        },
{
    let mut groups: Vec<(String, Vec<Real>)> = Vec::new();
    let mut i: usize = 0;
    assert(group_list(groups@) =~= Seq::<Group>::empty());
    while i < a.len()
        invariant
            a@.len() < SIZE_LIMIT,
            i <= a.len(),
            !box_fault(a@, i as nat),
            group_list(groups@) == box_groups(a@, i as nat),
        decreases a.len() - i,
    {
        if !is_text(&a[i].name, "main") {
            let data: Vec<Real> = match numbers_of(&a[i].value) {
                Ok(v) => v,
                Err(e) => {
                    assert(opt_text(a@[i as int].name) != Some("main"@));
                    return Err(e);
                },
            };
            let name: String = match &a[i].name {
                Some(t) => owned(t.as_str()),
                None => numbered("V", i as u64 + 1),
            };
            let ghost before = groups@;
            groups.push((name, data));
            assert(group_list(groups@) =~= group_list(before).push((name@, data@)));
        }
        i += 1;
    }
    Ok(groups)
}

fn pool(g: &Vec<(String, Vec<Real>)>) -> (r: Vec<Real>)
    ensures
        r@ == pooled(group_list(g@), g@.len()),
{
    let ghost gs = group_list(g@);
    let mut out: Vec<Real> = Vec::new();
    let mut i: usize = 0;
    while i < g.len()
        invariant
            gs == group_list(g@),
            i <= g.len(),
            out@ == pooled(gs, i as nat),
        decreases g.len() - i,
    {
        let ghost before = out@;
        let v: &Vec<Real> = &g[i].1;
        let mut k: usize = 0;
        assert(before + v@.take(0) =~= before);
        while k < v.len()
            invariant
                k <= v.len(),
                out@ == before + v@.take(k as int),
            decreases v.len() - k,
        {
            out.push(v[k]);
            k += 1;
            assert(out@ =~= before + v@.take(k as int));
        }
        assert(v@.take(v@.len() as int) =~= v@);
        assert(gs[i as int].1 == v@);
        i += 1;
    }
    out
}

/// The numbers of the groups of a call can be ordered.
pub open spec fn boxes_ready(g: Seq<Group>) -> bool {
    forall|i: int, k: int|
        0 <= i < g.len() && 0 <= k < g[i].1.len() && g[i].1.len() >= 2 ==> !(#[trigger] g[i].1[k]).nan() && g[i].1.len()
            < SIZE_LIMIT
}

fn put_boxes<F: Fn(FloatOp, Real, Real, Real) -> Real, S: Fn(Style, Real) -> String>(
    fpu: &Fpu<F>,
    fig: &Figures<S>,
    out: &mut Vec<char>,
    r: Area,
    g: &Vec<(String, Vec<Real>)>,
)
    requires
        fpu.wf(),
        fig.wf(),
        boxes_ready(group_list(g@)),
    ensures
        final(out)@ == boxes(fpu, fig, old(out)@, r, group_list(g@), g@.len()),
{
    let ghost first = out@;
    let ghost gs = group_list(g@);
    let all: Vec<Real> = pool(g);
    let min: Real = lowest_of(&all);
    let max: Real = highest_of(Real { bits: NEG_INF }, &all);
    let range: Real = span_of(fpu, min, max);
    let gap: Real = fpu.quot(r.w, Real::from_u64(g.len() as u64));
    let bw: Real = fpu.prod(gap, Real { bits: BOX_SHARE_BITS });
    let mut i: usize = 0;
    while i < g.len()
        invariant
            fpu.wf(),
            fig.wf(),
            gs == group_list(g@),
            boxes_ready(gs),
            min == lowest(pooled(gs, gs.len())),
            range == span(fpu, min, highest(num(NEG_INF), pooled(gs, gs.len()))),
            gap == fpu.over(r.w, rounded(gs.len())),
            bw == fpu.times(gap, num(BOX_SHARE_BITS)),
            i <= g.len(),
            out@ == boxes(fpu, fig, first, r, gs, i as nat),
        decreases g.len() - i,
    {
        assert(gs[i as int] == (g@[i as int].0@, g@[i as int].1@));
        if g[i].1.len() >= 2 {
            proof {
                let x = gs[i as int].1[0];
                assert(!gs[i as int].1[0].nan());
            }
            let b: Box5 = box_numbers(fpu, &g[i].1);
            let cx: Real = fpu.sum(
                fpu.sum(r.left, fpu.prod(gap, Real::from_u64(i as u64))),
                fpu.quot(gap, Real { bits: TWO_BITS }),
            );
            put_box(fpu, fig, out, r, min, range, b, cx, bw, g[i].0.as_str());
        }
        i += 1;
    }
}

/// A box plot on the device: a box for each argument but the title.
pub fn bi_boxplot<F: Fn(FloatOp, Real, Real, Real) -> Real, P: Fn(Real) -> String, S: Fn(Style, Real) -> String>(
    fpu: &Fpu<F>,
    printer: &Printer<P>,
    fig: &Figures<S>,
    dev: &mut PlotDevice,
    a: &[EvalArg],
) -> (r: Result<RVal, R2Err>)
    requires
        fpu.wf(),
        printer.wf(),
        fig.wf(),
        old(dev).countable(),
        a@.len() < SIZE_LIMIT,
        !box_fault(a@, a@.len()) ==> boxes_ready(box_groups(a@, a@.len())),
    ensures
        if box_fault(a@, a@.len()) {
            failed(r, (ErrKind::Type, "cannot coerce to numeric"@)) && *final(dev) == *old(dev)
        } else if box_groups(a@, a@.len()).len() == 0 {
            failed(r, (ErrKind::Runtime, "boxplot needs data"@)) && *final(dev) == *old(dev)
        } else {
            r is Ok && r->Ok_0.deep() == Val::Null && plotted(
                old(dev),
                final(dev),
                boxplot_svg(
                    fpu,
                    fig,
                    target(fpu, old(dev)),
                    text_named(printer, a@, "main"@, "Boxplot"@),
                    box_groups(a@, a@.len()),
                ),
            )
        },
{
    let title: String = arg_text(printer, a, "main", "Boxplot");
    let groups: Vec<(String, Vec<Real>)> = match read_groups(a) {
        Ok(g) => g,
        Err(e) => {
            return Err(e);
        },
    };
    assert(group_list(groups@).len() == groups@.len());
    if groups.len() == 0 {
        return Err(fail(ErrKind::Runtime, "boxplot needs data"));
    }
    let p: Panel = begin_plot(fpu, dev);
    let ghost mid = *dev;
    let r: Area = area_of(fpu, p, Real { bits: TOP_MARGIN_BITS }, Real { bits: BOTTOM_MARGIN_BITS });
    let mut out: Vec<char> = Vec::new();
    put_head(fpu, fig, &mut out, p, title.as_str());
    put_boxes(fpu, fig, &mut out, r, &groups);
    let drawing: String = string_of(&out);
    draw(dev, drawing.as_str());
    proof {
        assert(begun(old(dev), &mid));
        reveal_with_fuel(RVal::deep, 2);
    }
    Ok(RVal::Null)
}

// ── barplot ────────────────────────────────────────────────────────────────

/// The colours of bars, in turn.
pub open spec fn bar_colour(i: int) -> Seq<char> {
    let k = i % 8;
    if k == 0 {
        "#3b82f6"@
    } else if k == 1 {
        "#ef4444"@
    } else if k == 2 {
        "#22c55e"@
    } else if k == 3 {
        "#f59e0b"@
    } else if k == 4 {
        "#8b5cf6"@
    } else if k == 5 {
        "#ec4899"@
    } else if k == 6 {
        "#06b6d4"@
    } else {
        "#f97316"@
    }
}

fn colour_of(i: usize) -> (r: &'static str)
    ensures
        r@ == bar_colour(i as int),
{
    let k: usize = i % 8;
    if k == 0 {
        "#3b82f6"
    } else if k == 1 {
        "#ef4444"
    } else if k == 2 {
        "#22c55e"
    } else if k == 3 {
        "#f59e0b"
    } else if k == 4 {
        "#8b5cf6"
    } else if k == 5 {
        "#ec4899"
    } else if k == 6 {
        "#06b6d4"
    } else {
        "#f97316"
    }
}

/// The labels of bars: given, or numbers.
pub open spec fn bar_labels(v: Option<Val>, n: nat) -> Seq<Seq<char>> {
    match v {
        Some(Val::Character(s, _)) => filled_texts(s, ""@),
        _ => Seq::new(n, |i: int| decimal((i + 1) as nat)),
    }
}

pub open spec fn label_at(labels: Seq<Seq<char>>, i: int) -> Seq<char> {
    if i < labels.len() {
        labels[i]
    } else {
        ""@
    }
}

/// The first `n` bars.
pub open spec fn bars<F: Fn(FloatOp, Real, Real, Real) -> Real, S: Fn(Style, Real) -> String>(
    fpu: &Fpu<F>,
    fig: &Figures<S>,
    out: Seq<char>,
    r: Area,
    heights: Seq<Real>,
    labels: Seq<Seq<char>>,
    n: nat,
) -> Seq<char>
    decreases n,
{
    if n == 0 {
        out
    } else {
        let i = n - 1;
        let top = highest(zero(), heights);
        let gap = fpu.over(r.w, rounded(heights.len()));
        let bw = fpu.times(gap, num(BAR_SHARE_BITS));
        let bh = if zero().below(top) {
            fpu.times(fpu.over(heights[i], top), r.h)
        } else {
            zero()
        };
        let bx = fpu.plus(
            fpu.plus(r.left, fpu.times(gap, rounded(i as nat))),
            fpu.over(fpu.minus(gap, bw), two()),
        );
        let by = fpu.minus(r.bottom, bh);
        let mid = fpu.plus(bx, fpu.over(bw, two()));
        bar_label(
            fig,
            bar_value(
                fig,
                colour_bar(fig, bars(fpu, fig, out, r, heights, labels, i as nat), bx, by, bw, bh, bar_colour(i)),
                mid,
                fpu.minus(by, num(GAP_BITS)),
                heights[i],
            ),
            mid,
            fpu.plus(r.tick_line, num(RIGHT_MARGIN_BITS)),
            label_at(labels, i),
        )
    }
}

/// A bar plot.
pub open spec fn barplot_svg<F: Fn(FloatOp, Real, Real, Real) -> Real, S: Fn(Style, Real) -> String>(
    fpu: &Fpu<F>,
    fig: &Figures<S>,
    p: Panel,
    title: Seq<char>,
    heights: Seq<Real>,
    labels: Seq<Seq<char>>,
) -> Seq<char> {
    let r = area(fpu, p, num(RIGHT_MARGIN_BITS), num(DEEP_MARGIN_BITS));
    bars(
        fpu,
        fig,
        heading(fig, Seq::empty(), centre(fpu, p), title_line(fpu, p), title),
        r,
        heights,
        labels,
        heights.len(),
    )
}

fn labels_of_bars(v: Option<&RVal>, n: usize) -> (r: Vec<String>)
    ensures
        texts(r@) == bar_labels(match v {
            Some(x) => Some(x.deep()),
            None => None,
        }, n as nat),
{
    proof {
        reveal_with_fuel(RVal::deep, 2);
    }
    if let Some(RVal::Character(s, _)) = v {
        return crate::overlays::fill_texts(s, "");
    }
    let mut out: Vec<String> = Vec::new();
    let mut i: usize = 0;
    while i < n
        invariant
            i <= n,
            out@.len() == i,
            forall|k: int| 0 <= k < i ==> (#[trigger] out@[k])@ == decimal((k + 1) as nat),
        decreases n - i,
    {
        let mut t: Vec<char> = Vec::new();
        i += 1;
        crate::text::extend_decimal(&mut t, i as u64);
        assert(t@ =~= decimal(i as nat));
        out.push(string_of(&t));
    }
    assert(texts(out@) =~= Seq::new(n as nat, |i: int| decimal((i + 1) as nat)));
    out
}

fn put_bars<F: Fn(FloatOp, Real, Real, Real) -> Real, S: Fn(Style, Real) -> String>(
    fpu: &Fpu<F>,
    fig: &Figures<S>,
    out: &mut Vec<char>,
    r: Area,
    heights: &Vec<Real>,
    labels: &Vec<String>,
)
    requires
        fpu.wf(),
        fig.wf(),
    ensures
        final(out)@ == bars(fpu, fig, old(out)@, r, heights@, texts(labels@), heights@.len()),
{
    let ghost first = out@;
    let ghost ls = texts(labels@);
    let none = Real { bits: 0 };
    let pair = Real { bits: TWO_BITS };
    let top: Real = highest_of(none, heights);
    let gap: Real = fpu.quot(r.w, Real::from_u64(heights.len() as u64));
    let bw: Real = fpu.prod(gap, Real { bits: BAR_SHARE_BITS });
    let mut i: usize = 0;
    while i < heights.len()
        invariant
            fpu.wf(),
            fig.wf(),
            ls == texts(labels@),
            none == zero(),
            pair == two(),
            top == highest(zero(), heights@),
            gap == fpu.over(r.w, rounded(heights@.len())),
            bw == fpu.times(gap, num(BAR_SHARE_BITS)),
            i <= heights.len(),
            out@ == bars(fpu, fig, first, r, heights@, ls, i as nat),
        decreases heights.len() - i,
    {
        let v: Real = heights[i];
        let bh: Real = if none.lt(&top) { fpu.prod(fpu.quot(v, top), r.h) } else { none };
        let bx: Real = fpu.sum(
            fpu.sum(r.left, fpu.prod(gap, Real::from_u64(i as u64))),
            fpu.quot(fpu.diff(gap, bw), pair),
        );
        let by: Real = fpu.diff(r.bottom, bh);
        let mid: Real = fpu.sum(bx, fpu.quot(bw, pair));
        put_colour_bar(fig, out, bx, by, bw, bh, colour_of(i));
        put_bar_value(fig, out, mid, fpu.diff(by, Real { bits: GAP_BITS }), v);
        let label: &str = if i < labels.len() { labels[i].as_str() } else { "" };
        assert(label@ == label_at(ls, i as int));
        put_bar_label(fig, out, mid, fpu.sum(r.tick_line, Real { bits: RIGHT_MARGIN_BITS }), label);
        i += 1;
    }
}

/// A bar plot of a vector on the device.
pub fn bi_barplot<F: Fn(FloatOp, Real, Real, Real) -> Real, P: Fn(Real) -> String, S: Fn(Style, Real) -> String>(
    fpu: &Fpu<F>,
    printer: &Printer<P>,
    fig: &Figures<S>,
    dev: &mut PlotDevice,
    a: &[EvalArg],
) -> (r: Result<RVal, R2Err>)
    requires
        fpu.wf(),
        printer.wf(),
        fig.wf(),
        old(dev).countable(),
    ensures
        match reals(nth(a@, 0)) {
            None => failed(r, (ErrKind::Type, "cannot coerce to numeric"@)) && *final(dev) == *old(dev),
            Some(s) => r is Ok && r->Ok_0.deep() == Val::Null && plotted(
                old(dev),
                final(dev),
                barplot_svg(
                    fpu,
                    fig,
                    target(fpu, old(dev)),
                    text_named(printer, a@, "main"@, "Barplot"@),
                    present(s),
                    bar_labels(named(a@, "names.arg"@), present(s).len()),
                ),
            ),
        },
{
    let heights: Vec<Real> = match numbers_of(&nth_arg(a, 0)) {
        Ok(v) => v,
        Err(e) => {
            return Err(e);
        },
    };
    let title: String = arg_text(printer, a, "main", "Barplot");
    let labels: Vec<String> = labels_of_bars(arg_named(a, "names.arg"), heights.len());
    let p: Panel = begin_plot(fpu, dev);
    let ghost mid = *dev;
    let r: Area = area_of(fpu, p, Real { bits: RIGHT_MARGIN_BITS }, Real { bits: DEEP_MARGIN_BITS });
    let mut out: Vec<char> = Vec::new();
    put_head(fpu, fig, &mut out, p, title.as_str());
    put_bars(fpu, fig, &mut out, r, &heights, &labels);
    let drawing: String = string_of(&out);
    draw(dev, drawing.as_str());
    proof {
        assert(begun(old(dev), &mid));
        reveal_with_fuel(RVal::deep, 2);
    }
    Ok(RVal::Null)
}

// ── The histogram in characters ──────────────────────────────────────────

/// A bar of the given length.
pub open spec fn hashes(n: nat) -> Seq<char> {
    Seq::new(n, |i: int| '#')
}

/// The first `n` lines of a histogram: the bounds, the count and the bar of
/// each bin.
pub open spec fn hist_text<S: Fn(Style, Real) -> String>(
    out: Seq<char>,
    fig: &Figures<S>,
    bins: Seq<HistLine>,
    n: nat,
) -> Seq<char>
    decreases n,
{
    if n == 0 {
        out
    } else {
        let l = bins[n - 1];
        hist_text(out, fig, bins, (n - 1) as nat) + right(fig.tenths(l.lo), 7) + "-"@ + right(fig.tenths(l.hi), 7) + " | "@
            + right(decimal(l.count as nat), 4) + " "@ + hashes(l.bar as nat) + "\n"@
    }
}

fn extend_tenths<S: Fn(Style, Real) -> String>(out: &mut Vec<char>, fig: &Figures<S>, x: Real)
    requires
        fig.wf(),
    ensures
        final(out)@ == old(out)@ + right(fig.tenths(x), 7),
{
    let mut t: Vec<char> = Vec::new();
    fig.put(&mut t, Style::Places(1), x);
    assert(t@ =~= fig.tenths(x));
    extend_right(out, &t, 7);
}

/// The histogram as it is printed.
pub fn hist_report<S: Fn(Style, Real) -> String>(fig: &Figures<S>, title: &str, bins: &Vec<HistLine>) -> (r: String)
    requires
        fig.wf(),
    ensures
        r@ == hist_text(Seq::<char>::empty() + title@ + "\n"@, fig, bins@, bins@.len()),
{
    let mut out: Vec<char> = Vec::new();
    extend_str(&mut out, title);
    extend_str(&mut out, "\n");
    let ghost start = out@;
    let mut i: usize = 0;
    while i < bins.len()
        invariant
            fig.wf(),
            i <= bins.len(),
            out@ == hist_text(start, fig, bins@, i as nat),
        decreases bins.len() - i,
    {
        extend_tenths(&mut out, fig, bins[i].lo);
        extend_str(&mut out, "-");
        extend_tenths(&mut out, fig, bins[i].hi);
        extend_str(&mut out, " | ");
        let mut t: Vec<char> = Vec::new();
        extend_decimal(&mut t, bins[i].count);
        assert(t@ =~= decimal(bins@[i as int].count as nat));
        extend_right(&mut out, &t, 4);
        extend_str(&mut out, " ");
        let ghost lead = out@;
        let n: usize = bins[i].bar;
        let mut k: usize = 0;
        assert(lead + hashes(0) =~= lead);
        while k < n
            invariant
                k <= n,
                out@ == lead + hashes(k as nat),
            decreases n - k,
        {
            out.push('#');
            k += 1;
            assert(out@ =~= lead + hashes(k as nat));
        }
        extend_str(&mut out, "\n");
        i += 1;
    }
    string_of(&out)
}

} // verus!
