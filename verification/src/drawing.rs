//! The elements of drawings: how each is written.
use crate::device::{Figures, Style};
use crate::double::Real;
use crate::text::extend_str;
use vstd::prelude::*;

verus! {

/// The frame of the drawing area.
pub open spec fn frame<S: Fn(Style, Real) -> String>(
    fig: &Figures<S>,
    out: Seq<char>,
    x: Real,
    y: Real,
    w: Real,
    h: Real,
) -> Seq<char> {
    out + "<rect x=\""@ + fig.plain(x) + "\" y=\""@ + fig.plain(y) + "\" width=\""@ + fig.plain(w) + "\" height=\""@ + fig.plain(h) + "\" fill=\"none\" stroke=\"black\" stroke-width=\"1\"/>"@
}

/// The frame of the drawing area.
pub fn put_frame<S: Fn(Style, Real) -> String>(
    fig: &Figures<S>,
    out: &mut Vec<char>,
    x: Real,
    y: Real,
    w: Real,
    h: Real,
)
    requires
        fig.wf(),
    ensures
        final(out)@ == frame(fig, old(out)@, x, y, w, h),
{
    extend_str(out, "<rect x=\"");
    fig.put(out, Style::Shortest, x);
    extend_str(out, "\" y=\"");
    fig.put(out, Style::Shortest, y);
    extend_str(out, "\" width=\"");
    fig.put(out, Style::Shortest, w);
    extend_str(out, "\" height=\"");
    fig.put(out, Style::Shortest, h);
    extend_str(out, "\" fill=\"none\" stroke=\"black\" stroke-width=\"1\"/>");
}

/// The title of a plot.
pub open spec fn plot_title<S: Fn(Style, Real) -> String>(
    fig: &Figures<S>,
    out: Seq<char>,
    x: Real,
    y: Real,
    size: Real,
    label: Seq<char>,
) -> Seq<char> {
    out + "<text x=\""@ + fig.plain(x) + "\" y=\""@ + fig.plain(y) + "\" text-anchor=\"middle\" font-size=\""@ + fig.tenths(size) + "\" font-weight=\"bold\">"@ + label + "</text>"@
}

/// The title of a plot.
pub fn put_plot_title<S: Fn(Style, Real) -> String>(
    fig: &Figures<S>,
    out: &mut Vec<char>,
    x: Real,
    y: Real,
    size: Real,
    label: &str,
)
    requires
        fig.wf(),
    ensures
        final(out)@ == plot_title(fig, old(out)@, x, y, size, label@),
{
    extend_str(out, "<text x=\"");
    fig.put(out, Style::Shortest, x);
    extend_str(out, "\" y=\"");
    fig.put(out, Style::Shortest, y);
    extend_str(out, "\" text-anchor=\"middle\" font-size=\"");
    fig.put(out, Style::Places(1), size);
    extend_str(out, "\" font-weight=\"bold\">");
    extend_str(out, label);
    extend_str(out, "</text>");
}

/// A label below the drawing area.
pub open spec fn below_label<S: Fn(Style, Real) -> String>(
    fig: &Figures<S>,
    out: Seq<char>,
    x: Real,
    y: Real,
    label: Seq<char>,
) -> Seq<char> {
    out + "<text x=\""@ + fig.plain(x) + "\" y=\""@ + fig.plain(y) + "\" text-anchor=\"middle\" font-size=\"11\">"@ + label + "</text>"@
}

/// A label below the drawing area.
pub fn put_below_label<S: Fn(Style, Real) -> String>(
    fig: &Figures<S>,
    out: &mut Vec<char>,
    x: Real,
    y: Real,
    label: &str,
)
    requires
        fig.wf(),
    ensures
        final(out)@ == below_label(fig, old(out)@, x, y, label@),
{
    extend_str(out, "<text x=\"");
    fig.put(out, Style::Shortest, x);
    extend_str(out, "\" y=\"");
    fig.put(out, Style::Shortest, y);
    extend_str(out, "\" text-anchor=\"middle\" font-size=\"11\">");
    extend_str(out, label);
    extend_str(out, "</text>");
}

/// A label beside the drawing area, turned upwards.
pub open spec fn side_label<S: Fn(Style, Real) -> String>(
    fig: &Figures<S>,
    out: Seq<char>,
    x: Real,
    y: Real,
    label: Seq<char>,
) -> Seq<char> {
    out + "<text x=\""@ + fig.plain(x) + "\" y=\""@ + fig.plain(y) + "\" text-anchor=\"middle\" font-size=\"11\" transform=\"rotate(-90,"@ + fig.plain(x) + ","@ + fig.plain(y) + ")\">"@ + label + "</text>"@
}

/// A label beside the drawing area, turned upwards.
pub fn put_side_label<S: Fn(Style, Real) -> String>(
    fig: &Figures<S>,
    out: &mut Vec<char>,
    x: Real,
    y: Real,
    label: &str,
)
    requires
        fig.wf(),
    ensures
        final(out)@ == side_label(fig, old(out)@, x, y, label@),
{
    extend_str(out, "<text x=\"");
    fig.put(out, Style::Shortest, x);
    extend_str(out, "\" y=\"");
    fig.put(out, Style::Shortest, y);
    extend_str(out, "\" text-anchor=\"middle\" font-size=\"11\" transform=\"rotate(-90,");
    fig.put(out, Style::Shortest, x);
    extend_str(out, ",");
    fig.put(out, Style::Shortest, y);
    extend_str(out, ")\">");
    extend_str(out, label);
    extend_str(out, "</text>");
}

/// A point.
pub open spec fn dot<S: Fn(Style, Real) -> String>(
    fig: &Figures<S>,
    out: Seq<char>,
    x: Real,
    y: Real,
    col: Seq<char>,
) -> Seq<char> {
    out + "<circle cx=\""@ + fig.tenths(x) + "\" cy=\""@ + fig.tenths(y) + "\" r=\"3\" fill=\""@ + col + "\" opacity=\"0.7\"/>"@
}

/// A point.
pub fn put_dot<S: Fn(Style, Real) -> String>(
    fig: &Figures<S>,
    out: &mut Vec<char>,
    x: Real,
    y: Real,
    col: &str,
)
    requires
        fig.wf(),
    ensures
        final(out)@ == dot(fig, old(out)@, x, y, col@),
{
    extend_str(out, "<circle cx=\"");
    fig.put(out, Style::Places(1), x);
    extend_str(out, "\" cy=\"");
    fig.put(out, Style::Places(1), y);
    extend_str(out, "\" r=\"3\" fill=\"");
    extend_str(out, col);
    extend_str(out, "\" opacity=\"0.7\"/>");
}

/// A number on the horizontal axis.
pub open spec fn tick_below<S: Fn(Style, Real) -> String>(
    fig: &Figures<S>,
    out: Seq<char>,
    x: Real,
    y: Real,
    v: Real,
) -> Seq<char> {
    out + "<text x=\""@ + fig.whole(x) + "\" y=\""@ + fig.plain(y) + "\" text-anchor=\"middle\" font-size=\"9\">"@ + fig.tenths(v) + "</text>"@
}

/// A number on the horizontal axis.
pub fn put_tick_below<S: Fn(Style, Real) -> String>(
    fig: &Figures<S>,
    out: &mut Vec<char>,
    x: Real,
    y: Real,
    v: Real,
)
    requires
        fig.wf(),
    ensures
        final(out)@ == tick_below(fig, old(out)@, x, y, v),
{
    extend_str(out, "<text x=\"");
    fig.put(out, Style::Places(0), x);
    extend_str(out, "\" y=\"");
    fig.put(out, Style::Shortest, y);
    extend_str(out, "\" text-anchor=\"middle\" font-size=\"9\">");
    fig.put(out, Style::Places(1), v);
    extend_str(out, "</text>");
}

/// A number on the vertical axis.
pub open spec fn tick_beside<S: Fn(Style, Real) -> String>(
    fig: &Figures<S>,
    out: Seq<char>,
    x: Real,
    y: Real,
    v: Real,
) -> Seq<char> {
    out + "<text x=\""@ + fig.plain(x) + "\" y=\""@ + fig.whole(y) + "\" text-anchor=\"end\" font-size=\"9\">"@ + fig.tenths(v) + "</text>"@
}

/// A number on the vertical axis.
pub fn put_tick_beside<S: Fn(Style, Real) -> String>(
    fig: &Figures<S>,
    out: &mut Vec<char>,
    x: Real,
    y: Real,
    v: Real,
)
    requires
        fig.wf(),
    ensures
        final(out)@ == tick_beside(fig, old(out)@, x, y, v),
{
    extend_str(out, "<text x=\"");
    fig.put(out, Style::Shortest, x);
    extend_str(out, "\" y=\"");
    fig.put(out, Style::Places(0), y);
    extend_str(out, "\" text-anchor=\"end\" font-size=\"9\">");
    fig.put(out, Style::Places(1), v);
    extend_str(out, "</text>");
}

/// The heading of a drawing.
pub open spec fn heading<S: Fn(Style, Real) -> String>(
    fig: &Figures<S>,
    out: Seq<char>,
    x: Real,
    y: Real,
    label: Seq<char>,
) -> Seq<char> {
    out + "<text x=\""@ + fig.plain(x) + "\" y=\""@ + fig.plain(y) + "\" text-anchor=\"middle\" font-size=\"14\" font-weight=\"bold\">"@ + label + "</text>"@
}

/// The heading of a drawing.
pub fn put_heading<S: Fn(Style, Real) -> String>(
    fig: &Figures<S>,
    out: &mut Vec<char>,
    x: Real,
    y: Real,
    label: &str,
)
    requires
        fig.wf(),
    ensures
        final(out)@ == heading(fig, old(out)@, x, y, label@),
{
    extend_str(out, "<text x=\"");
    fig.put(out, Style::Shortest, x);
    extend_str(out, "\" y=\"");
    fig.put(out, Style::Shortest, y);
    extend_str(out, "\" text-anchor=\"middle\" font-size=\"14\" font-weight=\"bold\">");
    extend_str(out, label);
    extend_str(out, "</text>");
}

/// A bar of a histogram.
pub open spec fn column_bar<S: Fn(Style, Real) -> String>(
    fig: &Figures<S>,
    out: Seq<char>,
    x: Real,
    y: Real,
    w: Real,
    h: Real,
) -> Seq<char> {
    out + "<rect x=\""@ + fig.tenths(x) + "\" y=\""@ + fig.tenths(y) + "\" width=\""@ + fig.tenths(w) + "\" height=\""@ + fig.tenths(h) + "\" fill=\"#3b82f6\" stroke=\"white\" stroke-width=\"1\"/>"@
}

/// A bar of a histogram.
pub fn put_column_bar<S: Fn(Style, Real) -> String>(
    fig: &Figures<S>,
    out: &mut Vec<char>,
    x: Real,
    y: Real,
    w: Real,
    h: Real,
)
    requires
        fig.wf(),
    ensures
        final(out)@ == column_bar(fig, old(out)@, x, y, w, h),
{
    extend_str(out, "<rect x=\"");
    fig.put(out, Style::Places(1), x);
    extend_str(out, "\" y=\"");
    fig.put(out, Style::Places(1), y);
    extend_str(out, "\" width=\"");
    fig.put(out, Style::Places(1), w);
    extend_str(out, "\" height=\"");
    fig.put(out, Style::Places(1), h);
    extend_str(out, "\" fill=\"#3b82f6\" stroke=\"white\" stroke-width=\"1\"/>");
}

/// An axis.
pub open spec fn axis_line<S: Fn(Style, Real) -> String>(
    fig: &Figures<S>,
    out: Seq<char>,
    x: Real,
    y: Real,
    u: Real,
    v: Real,
) -> Seq<char> {
    out + "<line x1=\""@ + fig.plain(x) + "\" y1=\""@ + fig.plain(y) + "\" x2=\""@ + fig.plain(u) + "\" y2=\""@ + fig.plain(v) + "\" stroke=\"black\"/>"@
}

/// An axis.
pub fn put_axis_line<S: Fn(Style, Real) -> String>(
    fig: &Figures<S>,
    out: &mut Vec<char>,
    x: Real,
    y: Real,
    u: Real,
    v: Real,
)
    requires
        fig.wf(),
    ensures
        final(out)@ == axis_line(fig, old(out)@, x, y, u, v),
{
    extend_str(out, "<line x1=\"");
    fig.put(out, Style::Shortest, x);
    extend_str(out, "\" y1=\"");
    fig.put(out, Style::Shortest, y);
    extend_str(out, "\" x2=\"");
    fig.put(out, Style::Shortest, u);
    extend_str(out, "\" y2=\"");
    fig.put(out, Style::Shortest, v);
    extend_str(out, "\" stroke=\"black\"/>");
}

/// A line of a box.
pub open spec fn whisker<S: Fn(Style, Real) -> String>(
    fig: &Figures<S>,
    out: Seq<char>,
    x: Real,
    y: Real,
    u: Real,
    v: Real,
) -> Seq<char> {
    out + "<line x1=\""@ + fig.whole(x) + "\" y1=\""@ + fig.whole(y) + "\" x2=\""@ + fig.whole(u) + "\" y2=\""@ + fig.whole(v) + "\" stroke=\"black\"/>"@
}

/// A line of a box.
pub fn put_whisker<S: Fn(Style, Real) -> String>(
    fig: &Figures<S>,
    out: &mut Vec<char>,
    x: Real,
    y: Real,
    u: Real,
    v: Real,
)
    requires
        fig.wf(),
    ensures
        final(out)@ == whisker(fig, old(out)@, x, y, u, v),
{
    extend_str(out, "<line x1=\"");
    fig.put(out, Style::Places(0), x);
    extend_str(out, "\" y1=\"");
    fig.put(out, Style::Places(0), y);
    extend_str(out, "\" x2=\"");
    fig.put(out, Style::Places(0), u);
    extend_str(out, "\" y2=\"");
    fig.put(out, Style::Places(0), v);
    extend_str(out, "\" stroke=\"black\"/>");
}

/// The box between the quartiles.
pub open spec fn middle_box<S: Fn(Style, Real) -> String>(
    fig: &Figures<S>,
    out: Seq<char>,
    x: Real,
    y: Real,
    w: Real,
    h: Real,
) -> Seq<char> {
    out + "<rect x=\""@ + fig.whole(x) + "\" y=\""@ + fig.whole(y) + "\" width=\""@ + fig.whole(w) + "\" height=\""@ + fig.whole(h) + "\" fill=\"#93c5fd\" stroke=\"black\"/>"@
}

/// The box between the quartiles.
pub fn put_middle_box<S: Fn(Style, Real) -> String>(
    fig: &Figures<S>,
    out: &mut Vec<char>,
    x: Real,
    y: Real,
    w: Real,
    h: Real,
)
    requires
        fig.wf(),
    ensures
        final(out)@ == middle_box(fig, old(out)@, x, y, w, h),
{
    extend_str(out, "<rect x=\"");
    fig.put(out, Style::Places(0), x);
    extend_str(out, "\" y=\"");
    fig.put(out, Style::Places(0), y);
    extend_str(out, "\" width=\"");
    fig.put(out, Style::Places(0), w);
    extend_str(out, "\" height=\"");
    fig.put(out, Style::Places(0), h);
    extend_str(out, "\" fill=\"#93c5fd\" stroke=\"black\"/>");
}

/// The line at the median.
pub open spec fn median_line<S: Fn(Style, Real) -> String>(
    fig: &Figures<S>,
    out: Seq<char>,
    x: Real,
    y: Real,
    u: Real,
    v: Real,
) -> Seq<char> {
    out + "<line x1=\""@ + fig.whole(x) + "\" y1=\""@ + fig.whole(y) + "\" x2=\""@ + fig.whole(u) + "\" y2=\""@ + fig.whole(v) + "\" stroke=\"black\" stroke-width=\"2\"/>"@
}

/// The line at the median.
pub fn put_median_line<S: Fn(Style, Real) -> String>(
    fig: &Figures<S>,
    out: &mut Vec<char>,
    x: Real,
    y: Real,
    u: Real,
    v: Real,
)
    requires
        fig.wf(),
    ensures
        final(out)@ == median_line(fig, old(out)@, x, y, u, v),
{
    extend_str(out, "<line x1=\"");
    fig.put(out, Style::Places(0), x);
    extend_str(out, "\" y1=\"");
    fig.put(out, Style::Places(0), y);
    extend_str(out, "\" x2=\"");
    fig.put(out, Style::Places(0), u);
    extend_str(out, "\" y2=\"");
    fig.put(out, Style::Places(0), v);
    extend_str(out, "\" stroke=\"black\" stroke-width=\"2\"/>");
}

/// The name of a group.
pub open spec fn group_label<S: Fn(Style, Real) -> String>(
    fig: &Figures<S>,
    out: Seq<char>,
    x: Real,
    y: Real,
    label: Seq<char>,
) -> Seq<char> {
    out + "<text x=\""@ + fig.whole(x) + "\" y=\""@ + fig.plain(y) + "\" text-anchor=\"middle\" font-size=\"10\">"@ + label + "</text>"@
}

/// The name of a group.
pub fn put_group_label<S: Fn(Style, Real) -> String>(
    fig: &Figures<S>,
    out: &mut Vec<char>,
    x: Real,
    y: Real,
    label: &str,
)
    requires
        fig.wf(),
    ensures
        final(out)@ == group_label(fig, old(out)@, x, y, label@),
{
    extend_str(out, "<text x=\"");
    fig.put(out, Style::Places(0), x);
    extend_str(out, "\" y=\"");
    fig.put(out, Style::Shortest, y);
    extend_str(out, "\" text-anchor=\"middle\" font-size=\"10\">");
    extend_str(out, label);
    extend_str(out, "</text>");
}

/// A bar in a colour.
pub open spec fn colour_bar<S: Fn(Style, Real) -> String>(
    fig: &Figures<S>,
    out: Seq<char>,
    x: Real,
    y: Real,
    w: Real,
    h: Real,
    col: Seq<char>,
) -> Seq<char> {
    out + "<rect x=\""@ + fig.tenths(x) + "\" y=\""@ + fig.tenths(y) + "\" width=\""@ + fig.tenths(w) + "\" height=\""@ + fig.tenths(h) + "\" fill=\""@ + col + "\"/>"@
}

/// A bar in a colour.
pub fn put_colour_bar<S: Fn(Style, Real) -> String>(
    fig: &Figures<S>,
    out: &mut Vec<char>,
    x: Real,
    y: Real,
    w: Real,
    h: Real,
    col: &str,
)
    requires
        fig.wf(),
    ensures
        final(out)@ == colour_bar(fig, old(out)@, x, y, w, h, col@),
{
    extend_str(out, "<rect x=\"");
    fig.put(out, Style::Places(1), x);
    extend_str(out, "\" y=\"");
    fig.put(out, Style::Places(1), y);
    extend_str(out, "\" width=\"");
    fig.put(out, Style::Places(1), w);
    extend_str(out, "\" height=\"");
    fig.put(out, Style::Places(1), h);
    extend_str(out, "\" fill=\"");
    extend_str(out, col);
    extend_str(out, "\"/>");
}

/// The number above a bar.
pub open spec fn bar_value<S: Fn(Style, Real) -> String>(
    fig: &Figures<S>,
    out: Seq<char>,
    x: Real,
    y: Real,
    v: Real,
) -> Seq<char> {
    out + "<text x=\""@ + fig.whole(x) + "\" y=\""@ + fig.whole(y) + "\" text-anchor=\"middle\" font-size=\"10\">"@ + fig.tenths(v) + "</text>"@
}

/// The number above a bar.
pub fn put_bar_value<S: Fn(Style, Real) -> String>(
    fig: &Figures<S>,
    out: &mut Vec<char>,
    x: Real,
    y: Real,
    v: Real,
)
    requires
        fig.wf(),
    ensures
        final(out)@ == bar_value(fig, old(out)@, x, y, v),
{
    extend_str(out, "<text x=\"");
    fig.put(out, Style::Places(0), x);
    extend_str(out, "\" y=\"");
    fig.put(out, Style::Places(0), y);
    extend_str(out, "\" text-anchor=\"middle\" font-size=\"10\">");
    fig.put(out, Style::Places(1), v);
    extend_str(out, "</text>");
}

/// The label below a bar.
pub open spec fn bar_label<S: Fn(Style, Real) -> String>(
    fig: &Figures<S>,
    out: Seq<char>,
    x: Real,
    y: Real,
    label: Seq<char>,
) -> Seq<char> {
    out + "<text x=\""@ + fig.whole(x) + "\" y=\""@ + fig.plain(y) + "\" text-anchor=\"middle\" font-size=\"10\" transform=\"rotate(-30,"@ + fig.whole(x) + ","@ + fig.plain(y) + ")\">"@ + label + "</text>"@
}

/// The label below a bar.
pub fn put_bar_label<S: Fn(Style, Real) -> String>(
    fig: &Figures<S>,
    out: &mut Vec<char>,
    x: Real,
    y: Real,
    label: &str,
)
    requires
        fig.wf(),
    ensures
        final(out)@ == bar_label(fig, old(out)@, x, y, label@),
{
    extend_str(out, "<text x=\"");
    fig.put(out, Style::Places(0), x);
    extend_str(out, "\" y=\"");
    fig.put(out, Style::Shortest, y);
    extend_str(out, "\" text-anchor=\"middle\" font-size=\"10\" transform=\"rotate(-30,");
    fig.put(out, Style::Places(0), x);
    extend_str(out, ",");
    fig.put(out, Style::Shortest, y);
    extend_str(out, ")\">");
    extend_str(out, label);
    extend_str(out, "</text>");
}

} // verus!
