//! Which figures of a drawing stand where in its text.
use crate::device::{Figures, Style};
use crate::double::{FloatOp, Fpu, Real};
use crate::drawing::{
    axis_line, bar_label, bar_value, below_label, colour_bar, column_bar, dot, frame, group_label, heading, median_line,
    middle_box, plot_title, side_label, tick_below, tick_beside, whisker,
};
use crate::overlays::{across, corner, down, segments};
use vstd::prelude::*;

verus! {

/// `p` stands somewhere in `s`.
pub open spec fn part_of(s: Seq<char>, p: Seq<char>) -> bool {
    exists|a: Seq<char>, b: Seq<char>| s == #[trigger] (a + p + b)
}

proof fn lemma_part(
    s: Seq<char>,
    pre: Seq<char>,
    l: Seq<char>,
    key: Seq<char>,
    v: Seq<char>,
    r: Seq<char>,
    end: Seq<char>,
    post: Seq<char>,
)
    requires
        s =~= pre + l + v + r + post,
        key.len() <= l.len(),
        l.skip(l.len() - key.len()) =~= key,
        end.len() <= r.len(),
        r.take(end.len() as int) =~= end,
    ensures
        part_of(s, key + v + end),
{
    let a = pre + l.take(l.len() - key.len());
    let b = r.skip(end.len() as int) + post;
    assert(l =~= l.take(l.len() - key.len()) + key);
    assert(r =~= end + r.skip(end.len() as int));
    assert(s =~= a + (key + v + end) + b);
}

/// The frame: its corner and its extent.
pub proof fn law_frame<S: Fn(Style, Real) -> String>(
    fig: &Figures<S>,
    out: Seq<char>,
    x: Real,
    y: Real,
    w: Real,
    h: Real,
)
    ensures
        part_of(frame(fig, out, x, y, w, h), " x=\""@ + fig.plain(x) + "\""@),
        part_of(frame(fig, out, x, y, w, h), " y=\""@ + fig.plain(y) + "\""@),
        part_of(frame(fig, out, x, y, w, h), " width=\""@ + fig.plain(w) + "\""@),
        part_of(frame(fig, out, x, y, w, h), " height=\""@ + fig.plain(h) + "\""@),
{
    reveal_strlit("<rect x=\"");
    reveal_strlit("\" y=\"");
    reveal_strlit("\" width=\"");
    reveal_strlit("\" height=\"");
    reveal_strlit("\" fill=\"none\" stroke=\"black\" stroke-width=\"1\"/>");
    reveal_strlit(" x=\"");
    reveal_strlit(" y=\"");
    reveal_strlit(" width=\"");
    reveal_strlit(" height=\"");
    reveal_strlit("\"");
    let s = frame(fig, out, x, y, w, h);
    lemma_part(
        s,
        out,
        "<rect x=\""@,
        " x=\""@,
        fig.plain(x),
        "\" y=\""@,
        "\""@,
        fig.plain(y) + "\" width=\""@ + fig.plain(w) + "\" height=\""@ + fig.plain(h) + "\" fill=\"none\" stroke=\"black\" stroke-width=\"1\"/>"@,
    );
    lemma_part(
        s,
        out + "<rect x=\""@ + fig.plain(x),
        "\" y=\""@,
        " y=\""@,
        fig.plain(y),
        "\" width=\""@,
        "\""@,
        fig.plain(w) + "\" height=\""@ + fig.plain(h) + "\" fill=\"none\" stroke=\"black\" stroke-width=\"1\"/>"@,
    );
    lemma_part(
        s,
        out + "<rect x=\""@ + fig.plain(x) + "\" y=\""@ + fig.plain(y),
        "\" width=\""@,
        " width=\""@,
        fig.plain(w),
        "\" height=\""@,
        "\""@,
        fig.plain(h) + "\" fill=\"none\" stroke=\"black\" stroke-width=\"1\"/>"@,
    );
    lemma_part(
        s,
        out + "<rect x=\""@ + fig.plain(x) + "\" y=\""@ + fig.plain(y) + "\" width=\""@ + fig.plain(w),
        "\" height=\""@,
        " height=\""@,
        fig.plain(h),
        "\" fill=\"none\" stroke=\"black\" stroke-width=\"1\"/>"@,
        "\""@,
        Seq::<char>::empty(),
    );
}

/// The title of a plot: where it stands.
pub proof fn law_plot_title<S: Fn(Style, Real) -> String>(
    fig: &Figures<S>,
    out: Seq<char>,
    x: Real,
    y: Real,
    size: Real,
    label: Seq<char>,
)
    ensures
        part_of(plot_title(fig, out, x, y, size, label), " x=\""@ + fig.plain(x) + "\""@),
        part_of(plot_title(fig, out, x, y, size, label), " y=\""@ + fig.plain(y) + "\""@),
        part_of(plot_title(fig, out, x, y, size, label), " font-size=\""@ + fig.tenths(size) + "\""@),
        part_of(plot_title(fig, out, x, y, size, label), ">"@ + label + "</text>"@),
{
    reveal_strlit("<text x=\"");
    reveal_strlit("\" y=\"");
    reveal_strlit("\" text-anchor=\"middle\" font-size=\"");
    reveal_strlit("\" font-weight=\"bold\">");
    reveal_strlit("</text>");
    reveal_strlit(" x=\"");
    reveal_strlit(" y=\"");
    reveal_strlit(" font-size=\"");
    reveal_strlit(">");
    reveal_strlit("\"");
    let s = plot_title(fig, out, x, y, size, label);
    lemma_part(
        s,
        out,
        "<text x=\""@,
        " x=\""@,
        fig.plain(x),
        "\" y=\""@,
        "\""@,
        fig.plain(y) + "\" text-anchor=\"middle\" font-size=\""@ + fig.tenths(size) + "\" font-weight=\"bold\">"@ + label + "</text>"@,
    );
    lemma_part(
        s,
        out + "<text x=\""@ + fig.plain(x),
        "\" y=\""@,
        " y=\""@,
        fig.plain(y),
        "\" text-anchor=\"middle\" font-size=\""@,
        "\""@,
        fig.tenths(size) + "\" font-weight=\"bold\">"@ + label + "</text>"@,
    );
    lemma_part(
        s,
        out + "<text x=\""@ + fig.plain(x) + "\" y=\""@ + fig.plain(y),
        "\" text-anchor=\"middle\" font-size=\""@,
        " font-size=\""@,
        fig.tenths(size),
        "\" font-weight=\"bold\">"@,
        "\""@,
        label + "</text>"@,
    );
    lemma_part(
        s,
        out + "<text x=\""@ + fig.plain(x) + "\" y=\""@ + fig.plain(y) + "\" text-anchor=\"middle\" font-size=\""@ + fig.tenths(size),
        "\" font-weight=\"bold\">"@,
        ">"@,
        label,
        "</text>"@,
        "</text>"@,
        Seq::<char>::empty(),
    );
}

/// A label below: where it stands.
pub proof fn law_below_label<S: Fn(Style, Real) -> String>(
    fig: &Figures<S>,
    out: Seq<char>,
    x: Real,
    y: Real,
    label: Seq<char>,
)
    ensures
        part_of(below_label(fig, out, x, y, label), " x=\""@ + fig.plain(x) + "\""@),
        part_of(below_label(fig, out, x, y, label), " y=\""@ + fig.plain(y) + "\""@),
        part_of(below_label(fig, out, x, y, label), ">"@ + label + "</text>"@),
{
    reveal_strlit("<text x=\"");
    reveal_strlit("\" y=\"");
    reveal_strlit("\" text-anchor=\"middle\" font-size=\"11\">");
    reveal_strlit("</text>");
    reveal_strlit(" x=\"");
    reveal_strlit(" y=\"");
    reveal_strlit(">");
    reveal_strlit("\"");
    let s = below_label(fig, out, x, y, label);
    lemma_part(
        s,
        out,
        "<text x=\""@,
        " x=\""@,
        fig.plain(x),
        "\" y=\""@,
        "\""@,
        fig.plain(y) + "\" text-anchor=\"middle\" font-size=\"11\">"@ + label + "</text>"@,
    );
    lemma_part(
        s,
        out + "<text x=\""@ + fig.plain(x),
        "\" y=\""@,
        " y=\""@,
        fig.plain(y),
        "\" text-anchor=\"middle\" font-size=\"11\">"@,
        "\""@,
        label + "</text>"@,
    );
    lemma_part(
        s,
        out + "<text x=\""@ + fig.plain(x) + "\" y=\""@ + fig.plain(y),
        "\" text-anchor=\"middle\" font-size=\"11\">"@,
        ">"@,
        label,
        "</text>"@,
        "</text>"@,
        Seq::<char>::empty(),
    );
}

/// A label beside: where it stands, and about which point it is turned.
pub proof fn law_side_label<S: Fn(Style, Real) -> String>(
    fig: &Figures<S>,
    out: Seq<char>,
    x: Real,
    y: Real,
    label: Seq<char>,
)
    ensures
        part_of(side_label(fig, out, x, y, label), " x=\""@ + fig.plain(x) + "\""@),
        part_of(side_label(fig, out, x, y, label), " y=\""@ + fig.plain(y) + "\""@),
        part_of(side_label(fig, out, x, y, label), "rotate(-90,"@ + fig.plain(x) + ","@),
        part_of(side_label(fig, out, x, y, label), ","@ + fig.plain(y) + ")"@),
        part_of(side_label(fig, out, x, y, label), ">"@ + label + "</text>"@),
{
    reveal_strlit("<text x=\"");
    reveal_strlit("\" y=\"");
    reveal_strlit("\" text-anchor=\"middle\" font-size=\"11\" transform=\"rotate(-90,");
    reveal_strlit(",");
    reveal_strlit(")\">");
    reveal_strlit("</text>");
    reveal_strlit(" x=\"");
    reveal_strlit(" y=\"");
    reveal_strlit("rotate(-90,");
    reveal_strlit(">");
    reveal_strlit("\"");
    reveal_strlit(")");
    let s = side_label(fig, out, x, y, label);
    lemma_part(
        s,
        out,
        "<text x=\""@,
        " x=\""@,
        fig.plain(x),
        "\" y=\""@,
        "\""@,
        fig.plain(y) + "\" text-anchor=\"middle\" font-size=\"11\" transform=\"rotate(-90,"@ + fig.plain(x) + ","@ + fig.plain(y) + ")\">"@ + label + "</text>"@,
    );
    lemma_part(
        s,
        out + "<text x=\""@ + fig.plain(x),
        "\" y=\""@,
        " y=\""@,
        fig.plain(y),
        "\" text-anchor=\"middle\" font-size=\"11\" transform=\"rotate(-90,"@,
        "\""@,
        fig.plain(x) + ","@ + fig.plain(y) + ")\">"@ + label + "</text>"@,
    );
    lemma_part(
        s,
        out + "<text x=\""@ + fig.plain(x) + "\" y=\""@ + fig.plain(y),
        "\" text-anchor=\"middle\" font-size=\"11\" transform=\"rotate(-90,"@,
        "rotate(-90,"@,
        fig.plain(x),
        ","@,
        ","@,
        fig.plain(y) + ")\">"@ + label + "</text>"@,
    );
    lemma_part(
        s,
        out + "<text x=\""@ + fig.plain(x) + "\" y=\""@ + fig.plain(y) + "\" text-anchor=\"middle\" font-size=\"11\" transform=\"rotate(-90,"@ + fig.plain(x),
        ","@,
        ","@,
        fig.plain(y),
        ")\">"@,
        ")"@,
        label + "</text>"@,
    );
    lemma_part(
        s,
        out + "<text x=\""@ + fig.plain(x) + "\" y=\""@ + fig.plain(y) + "\" text-anchor=\"middle\" font-size=\"11\" transform=\"rotate(-90,"@ + fig.plain(x) + ","@ + fig.plain(y),
        ")\">"@,
        ">"@,
        label,
        "</text>"@,
        "</text>"@,
        Seq::<char>::empty(),
    );
}

/// A point: its centre and its colour.
pub proof fn law_dot<S: Fn(Style, Real) -> String>(
    fig: &Figures<S>,
    out: Seq<char>,
    x: Real,
    y: Real,
    col: Seq<char>,
)
    ensures
        part_of(dot(fig, out, x, y, col), " cx=\""@ + fig.tenths(x) + "\""@),
        part_of(dot(fig, out, x, y, col), " cy=\""@ + fig.tenths(y) + "\""@),
        part_of(dot(fig, out, x, y, col), " fill=\""@ + col + "\""@),
{
    reveal_strlit("<circle cx=\"");
    reveal_strlit("\" cy=\"");
    reveal_strlit("\" r=\"3\" fill=\"");
    reveal_strlit("\" opacity=\"0.7\"/>");
    reveal_strlit(" cx=\"");
    reveal_strlit(" cy=\"");
    reveal_strlit(" fill=\"");
    reveal_strlit("\"");
    let s = dot(fig, out, x, y, col);
    lemma_part(
        s,
        out,
        "<circle cx=\""@,
        " cx=\""@,
        fig.tenths(x),
        "\" cy=\""@,
        "\""@,
        fig.tenths(y) + "\" r=\"3\" fill=\""@ + col + "\" opacity=\"0.7\"/>"@,
    );
    lemma_part(
        s,
        out + "<circle cx=\""@ + fig.tenths(x),
        "\" cy=\""@,
        " cy=\""@,
        fig.tenths(y),
        "\" r=\"3\" fill=\""@,
        "\""@,
        col + "\" opacity=\"0.7\"/>"@,
    );
    lemma_part(
        s,
        out + "<circle cx=\""@ + fig.tenths(x) + "\" cy=\""@ + fig.tenths(y),
        "\" r=\"3\" fill=\""@,
        " fill=\""@,
        col,
        "\" opacity=\"0.7\"/>"@,
        "\""@,
        Seq::<char>::empty(),
    );
}

/// A tick below: where it stands and what it says.
pub proof fn law_tick_below<S: Fn(Style, Real) -> String>(
    fig: &Figures<S>,
    out: Seq<char>,
    x: Real,
    y: Real,
    v: Real,
)
    ensures
        part_of(tick_below(fig, out, x, y, v), " x=\""@ + fig.whole(x) + "\""@),
        part_of(tick_below(fig, out, x, y, v), " y=\""@ + fig.plain(y) + "\""@),
        part_of(tick_below(fig, out, x, y, v), ">"@ + fig.tenths(v) + "</text>"@),
{
    reveal_strlit("<text x=\"");
    reveal_strlit("\" y=\"");
    reveal_strlit("\" text-anchor=\"middle\" font-size=\"9\">");
    reveal_strlit("</text>");
    reveal_strlit(" x=\"");
    reveal_strlit(" y=\"");
    reveal_strlit(">");
    reveal_strlit("\"");
    let s = tick_below(fig, out, x, y, v);
    lemma_part(
        s,
        out,
        "<text x=\""@,
        " x=\""@,
        fig.whole(x),
        "\" y=\""@,
        "\""@,
        fig.plain(y) + "\" text-anchor=\"middle\" font-size=\"9\">"@ + fig.tenths(v) + "</text>"@,
    );
    lemma_part(
        s,
        out + "<text x=\""@ + fig.whole(x),
        "\" y=\""@,
        " y=\""@,
        fig.plain(y),
        "\" text-anchor=\"middle\" font-size=\"9\">"@,
        "\""@,
        fig.tenths(v) + "</text>"@,
    );
    lemma_part(
        s,
        out + "<text x=\""@ + fig.whole(x) + "\" y=\""@ + fig.plain(y),
        "\" text-anchor=\"middle\" font-size=\"9\">"@,
        ">"@,
        fig.tenths(v),
        "</text>"@,
        "</text>"@,
        Seq::<char>::empty(),
    );
}

/// A tick beside: where it stands and what it says.
pub proof fn law_tick_beside<S: Fn(Style, Real) -> String>(
    fig: &Figures<S>,
    out: Seq<char>,
    x: Real,
    y: Real,
    v: Real,
)
    ensures
        part_of(tick_beside(fig, out, x, y, v), " x=\""@ + fig.plain(x) + "\""@),
        part_of(tick_beside(fig, out, x, y, v), " y=\""@ + fig.whole(y) + "\""@),
        part_of(tick_beside(fig, out, x, y, v), ">"@ + fig.tenths(v) + "</text>"@),
{
    reveal_strlit("<text x=\"");
    reveal_strlit("\" y=\"");
    reveal_strlit("\" text-anchor=\"end\" font-size=\"9\">");
    reveal_strlit("</text>");
    reveal_strlit(" x=\"");
    reveal_strlit(" y=\"");
    reveal_strlit(">");
    reveal_strlit("\"");
    let s = tick_beside(fig, out, x, y, v);
    lemma_part(
        s,
        out,
        "<text x=\""@,
        " x=\""@,
        fig.plain(x),
        "\" y=\""@,
        "\""@,
        fig.whole(y) + "\" text-anchor=\"end\" font-size=\"9\">"@ + fig.tenths(v) + "</text>"@,
    );
    lemma_part(
        s,
        out + "<text x=\""@ + fig.plain(x),
        "\" y=\""@,
        " y=\""@,
        fig.whole(y),
        "\" text-anchor=\"end\" font-size=\"9\">"@,
        "\""@,
        fig.tenths(v) + "</text>"@,
    );
    lemma_part(
        s,
        out + "<text x=\""@ + fig.plain(x) + "\" y=\""@ + fig.whole(y),
        "\" text-anchor=\"end\" font-size=\"9\">"@,
        ">"@,
        fig.tenths(v),
        "</text>"@,
        "</text>"@,
        Seq::<char>::empty(),
    );
}

/// A heading: where it stands.
pub proof fn law_heading<S: Fn(Style, Real) -> String>(
    fig: &Figures<S>,
    out: Seq<char>,
    x: Real,
    y: Real,
    label: Seq<char>,
)
    ensures
        part_of(heading(fig, out, x, y, label), " x=\""@ + fig.plain(x) + "\""@),
        part_of(heading(fig, out, x, y, label), " y=\""@ + fig.plain(y) + "\""@),
        part_of(heading(fig, out, x, y, label), ">"@ + label + "</text>"@),
{
    reveal_strlit("<text x=\"");
    reveal_strlit("\" y=\"");
    reveal_strlit("\" text-anchor=\"middle\" font-size=\"14\" font-weight=\"bold\">");
    reveal_strlit("</text>");
    reveal_strlit(" x=\"");
    reveal_strlit(" y=\"");
    reveal_strlit(">");
    reveal_strlit("\"");
    let s = heading(fig, out, x, y, label);
    lemma_part(
        s,
        out,
        "<text x=\""@,
        " x=\""@,
        fig.plain(x),
        "\" y=\""@,
        "\""@,
        fig.plain(y) + "\" text-anchor=\"middle\" font-size=\"14\" font-weight=\"bold\">"@ + label + "</text>"@,
    );
    lemma_part(
        s,
        out + "<text x=\""@ + fig.plain(x),
        "\" y=\""@,
        " y=\""@,
        fig.plain(y),
        "\" text-anchor=\"middle\" font-size=\"14\" font-weight=\"bold\">"@,
        "\""@,
        label + "</text>"@,
    );
    lemma_part(
        s,
        out + "<text x=\""@ + fig.plain(x) + "\" y=\""@ + fig.plain(y),
        "\" text-anchor=\"middle\" font-size=\"14\" font-weight=\"bold\">"@,
        ">"@,
        label,
        "</text>"@,
        "</text>"@,
        Seq::<char>::empty(),
    );
}

/// A bar of a histogram: its corner and its extent.
pub proof fn law_column_bar<S: Fn(Style, Real) -> String>(
    fig: &Figures<S>,
    out: Seq<char>,
    x: Real,
    y: Real,
    w: Real,
    h: Real,
)
    ensures
        part_of(column_bar(fig, out, x, y, w, h), " x=\""@ + fig.tenths(x) + "\""@),
        part_of(column_bar(fig, out, x, y, w, h), " y=\""@ + fig.tenths(y) + "\""@),
        part_of(column_bar(fig, out, x, y, w, h), " width=\""@ + fig.tenths(w) + "\""@),
        part_of(column_bar(fig, out, x, y, w, h), " height=\""@ + fig.tenths(h) + "\""@),
{
    reveal_strlit("<rect x=\"");
    reveal_strlit("\" y=\"");
    reveal_strlit("\" width=\"");
    reveal_strlit("\" height=\"");
    reveal_strlit("\" fill=\"#3b82f6\" stroke=\"white\" stroke-width=\"1\"/>");
    reveal_strlit(" x=\"");
    reveal_strlit(" y=\"");
    reveal_strlit(" width=\"");
    reveal_strlit(" height=\"");
    reveal_strlit("\"");
    let s = column_bar(fig, out, x, y, w, h);
    lemma_part(
        s,
        out,
        "<rect x=\""@,
        " x=\""@,
        fig.tenths(x),
        "\" y=\""@,
        "\""@,
        fig.tenths(y) + "\" width=\""@ + fig.tenths(w) + "\" height=\""@ + fig.tenths(h) + "\" fill=\"#3b82f6\" stroke=\"white\" stroke-width=\"1\"/>"@,
    );
    lemma_part(
        s,
        out + "<rect x=\""@ + fig.tenths(x),
        "\" y=\""@,
        " y=\""@,
        fig.tenths(y),
        "\" width=\""@,
        "\""@,
        fig.tenths(w) + "\" height=\""@ + fig.tenths(h) + "\" fill=\"#3b82f6\" stroke=\"white\" stroke-width=\"1\"/>"@,
    );
    lemma_part(
        s,
        out + "<rect x=\""@ + fig.tenths(x) + "\" y=\""@ + fig.tenths(y),
        "\" width=\""@,
        " width=\""@,
        fig.tenths(w),
        "\" height=\""@,
        "\""@,
        fig.tenths(h) + "\" fill=\"#3b82f6\" stroke=\"white\" stroke-width=\"1\"/>"@,
    );
    lemma_part(
        s,
        out + "<rect x=\""@ + fig.tenths(x) + "\" y=\""@ + fig.tenths(y) + "\" width=\""@ + fig.tenths(w),
        "\" height=\""@,
        " height=\""@,
        fig.tenths(h),
        "\" fill=\"#3b82f6\" stroke=\"white\" stroke-width=\"1\"/>"@,
        "\""@,
        Seq::<char>::empty(),
    );
}

/// An axis: its two ends.
pub proof fn law_axis_line<S: Fn(Style, Real) -> String>(
    fig: &Figures<S>,
    out: Seq<char>,
    x: Real,
    y: Real,
    u: Real,
    v: Real,
)
    ensures
        part_of(axis_line(fig, out, x, y, u, v), " x1=\""@ + fig.plain(x) + "\""@),
        part_of(axis_line(fig, out, x, y, u, v), " y1=\""@ + fig.plain(y) + "\""@),
        part_of(axis_line(fig, out, x, y, u, v), " x2=\""@ + fig.plain(u) + "\""@),
        part_of(axis_line(fig, out, x, y, u, v), " y2=\""@ + fig.plain(v) + "\""@),
{
    reveal_strlit("<line x1=\"");
    reveal_strlit("\" y1=\"");
    reveal_strlit("\" x2=\"");
    reveal_strlit("\" y2=\"");
    reveal_strlit("\" stroke=\"black\"/>");
    reveal_strlit(" x1=\"");
    reveal_strlit(" y1=\"");
    reveal_strlit(" x2=\"");
    reveal_strlit(" y2=\"");
    reveal_strlit("\"");
    let s = axis_line(fig, out, x, y, u, v);
    lemma_part(
        s,
        out,
        "<line x1=\""@,
        " x1=\""@,
        fig.plain(x),
        "\" y1=\""@,
        "\""@,
        fig.plain(y) + "\" x2=\""@ + fig.plain(u) + "\" y2=\""@ + fig.plain(v) + "\" stroke=\"black\"/>"@,
    );
    lemma_part(
        s,
        out + "<line x1=\""@ + fig.plain(x),
        "\" y1=\""@,
        " y1=\""@,
        fig.plain(y),
        "\" x2=\""@,
        "\""@,
        fig.plain(u) + "\" y2=\""@ + fig.plain(v) + "\" stroke=\"black\"/>"@,
    );
    lemma_part(
        s,
        out + "<line x1=\""@ + fig.plain(x) + "\" y1=\""@ + fig.plain(y),
        "\" x2=\""@,
        " x2=\""@,
        fig.plain(u),
        "\" y2=\""@,
        "\""@,
        fig.plain(v) + "\" stroke=\"black\"/>"@,
    );
    lemma_part(
        s,
        out + "<line x1=\""@ + fig.plain(x) + "\" y1=\""@ + fig.plain(y) + "\" x2=\""@ + fig.plain(u),
        "\" y2=\""@,
        " y2=\""@,
        fig.plain(v),
        "\" stroke=\"black\"/>"@,
        "\""@,
        Seq::<char>::empty(),
    );
}

/// A whisker: its two ends.
pub proof fn law_whisker<S: Fn(Style, Real) -> String>(
    fig: &Figures<S>,
    out: Seq<char>,
    x: Real,
    y: Real,
    u: Real,
    v: Real,
)
    ensures
        part_of(whisker(fig, out, x, y, u, v), " x1=\""@ + fig.whole(x) + "\""@),
        part_of(whisker(fig, out, x, y, u, v), " y1=\""@ + fig.whole(y) + "\""@),
        part_of(whisker(fig, out, x, y, u, v), " x2=\""@ + fig.whole(u) + "\""@),
        part_of(whisker(fig, out, x, y, u, v), " y2=\""@ + fig.whole(v) + "\""@),
{
    reveal_strlit("<line x1=\"");
    reveal_strlit("\" y1=\"");
    reveal_strlit("\" x2=\"");
    reveal_strlit("\" y2=\"");
    reveal_strlit("\" stroke=\"black\"/>");
    reveal_strlit(" x1=\"");
    reveal_strlit(" y1=\"");
    reveal_strlit(" x2=\"");
    reveal_strlit(" y2=\"");
    reveal_strlit("\"");
    let s = whisker(fig, out, x, y, u, v);
    lemma_part(
        s,
        out,
        "<line x1=\""@,
        " x1=\""@,
        fig.whole(x),
        "\" y1=\""@,
        "\""@,
        fig.whole(y) + "\" x2=\""@ + fig.whole(u) + "\" y2=\""@ + fig.whole(v) + "\" stroke=\"black\"/>"@,
    );
    lemma_part(
        s,
        out + "<line x1=\""@ + fig.whole(x),
        "\" y1=\""@,
        " y1=\""@,
        fig.whole(y),
        "\" x2=\""@,
        "\""@,
        fig.whole(u) + "\" y2=\""@ + fig.whole(v) + "\" stroke=\"black\"/>"@,
    );
    lemma_part(
        s,
        out + "<line x1=\""@ + fig.whole(x) + "\" y1=\""@ + fig.whole(y),
        "\" x2=\""@,
        " x2=\""@,
        fig.whole(u),
        "\" y2=\""@,
        "\""@,
        fig.whole(v) + "\" stroke=\"black\"/>"@,
    );
    lemma_part(
        s,
        out + "<line x1=\""@ + fig.whole(x) + "\" y1=\""@ + fig.whole(y) + "\" x2=\""@ + fig.whole(u),
        "\" y2=\""@,
        " y2=\""@,
        fig.whole(v),
        "\" stroke=\"black\"/>"@,
        "\""@,
        Seq::<char>::empty(),
    );
}

/// A box: its corner and its extent.
pub proof fn law_middle_box<S: Fn(Style, Real) -> String>(
    fig: &Figures<S>,
    out: Seq<char>,
    x: Real,
    y: Real,
    w: Real,
    h: Real,
)
    ensures
        part_of(middle_box(fig, out, x, y, w, h), " x=\""@ + fig.whole(x) + "\""@),
        part_of(middle_box(fig, out, x, y, w, h), " y=\""@ + fig.whole(y) + "\""@),
        part_of(middle_box(fig, out, x, y, w, h), " width=\""@ + fig.whole(w) + "\""@),
        part_of(middle_box(fig, out, x, y, w, h), " height=\""@ + fig.whole(h) + "\""@),
{
    reveal_strlit("<rect x=\"");
    reveal_strlit("\" y=\"");
    reveal_strlit("\" width=\"");
    reveal_strlit("\" height=\"");
    reveal_strlit("\" fill=\"#93c5fd\" stroke=\"black\"/>");
    reveal_strlit(" x=\"");
    reveal_strlit(" y=\"");
    reveal_strlit(" width=\"");
    reveal_strlit(" height=\"");
    reveal_strlit("\"");
    let s = middle_box(fig, out, x, y, w, h);
    lemma_part(
        s,
        out,
        "<rect x=\""@,
        " x=\""@,
        fig.whole(x),
        "\" y=\""@,
        "\""@,
        fig.whole(y) + "\" width=\""@ + fig.whole(w) + "\" height=\""@ + fig.whole(h) + "\" fill=\"#93c5fd\" stroke=\"black\"/>"@,
    );
    lemma_part(
        s,
        out + "<rect x=\""@ + fig.whole(x),
        "\" y=\""@,
        " y=\""@,
        fig.whole(y),
        "\" width=\""@,
        "\""@,
        fig.whole(w) + "\" height=\""@ + fig.whole(h) + "\" fill=\"#93c5fd\" stroke=\"black\"/>"@,
    );
    lemma_part(
        s,
        out + "<rect x=\""@ + fig.whole(x) + "\" y=\""@ + fig.whole(y),
        "\" width=\""@,
        " width=\""@,
        fig.whole(w),
        "\" height=\""@,
        "\""@,
        fig.whole(h) + "\" fill=\"#93c5fd\" stroke=\"black\"/>"@,
    );
    lemma_part(
        s,
        out + "<rect x=\""@ + fig.whole(x) + "\" y=\""@ + fig.whole(y) + "\" width=\""@ + fig.whole(w),
        "\" height=\""@,
        " height=\""@,
        fig.whole(h),
        "\" fill=\"#93c5fd\" stroke=\"black\"/>"@,
        "\""@,
        Seq::<char>::empty(),
    );
}

/// The line at the median: its two ends.
pub proof fn law_median_line<S: Fn(Style, Real) -> String>(
    fig: &Figures<S>,
    out: Seq<char>,
    x: Real,
    y: Real,
    u: Real,
    v: Real,
)
    ensures
        part_of(median_line(fig, out, x, y, u, v), " x1=\""@ + fig.whole(x) + "\""@),
        part_of(median_line(fig, out, x, y, u, v), " y1=\""@ + fig.whole(y) + "\""@),
        part_of(median_line(fig, out, x, y, u, v), " x2=\""@ + fig.whole(u) + "\""@),
        part_of(median_line(fig, out, x, y, u, v), " y2=\""@ + fig.whole(v) + "\""@),
{
    reveal_strlit("<line x1=\"");
    reveal_strlit("\" y1=\"");
    reveal_strlit("\" x2=\"");
    reveal_strlit("\" y2=\"");
    reveal_strlit("\" stroke=\"black\" stroke-width=\"2\"/>");
    reveal_strlit(" x1=\"");
    reveal_strlit(" y1=\"");
    reveal_strlit(" x2=\"");
    reveal_strlit(" y2=\"");
    reveal_strlit("\"");
    let s = median_line(fig, out, x, y, u, v);
    lemma_part(
        s,
        out,
        "<line x1=\""@,
        " x1=\""@,
        fig.whole(x),
        "\" y1=\""@,
        "\""@,
        fig.whole(y) + "\" x2=\""@ + fig.whole(u) + "\" y2=\""@ + fig.whole(v) + "\" stroke=\"black\" stroke-width=\"2\"/>"@,
    );
    lemma_part(
        s,
        out + "<line x1=\""@ + fig.whole(x),
        "\" y1=\""@,
        " y1=\""@,
        fig.whole(y),
        "\" x2=\""@,
        "\""@,
        fig.whole(u) + "\" y2=\""@ + fig.whole(v) + "\" stroke=\"black\" stroke-width=\"2\"/>"@,
    );
    lemma_part(
        s,
        out + "<line x1=\""@ + fig.whole(x) + "\" y1=\""@ + fig.whole(y),
        "\" x2=\""@,
        " x2=\""@,
        fig.whole(u),
        "\" y2=\""@,
        "\""@,
        fig.whole(v) + "\" stroke=\"black\" stroke-width=\"2\"/>"@,
    );
    lemma_part(
        s,
        out + "<line x1=\""@ + fig.whole(x) + "\" y1=\""@ + fig.whole(y) + "\" x2=\""@ + fig.whole(u),
        "\" y2=\""@,
        " y2=\""@,
        fig.whole(v),
        "\" stroke=\"black\" stroke-width=\"2\"/>"@,
        "\""@,
        Seq::<char>::empty(),
    );
}

/// The label of a group: where it stands.
pub proof fn law_group_label<S: Fn(Style, Real) -> String>(
    fig: &Figures<S>,
    out: Seq<char>,
    x: Real,
    y: Real,
    label: Seq<char>,
)
    ensures
        part_of(group_label(fig, out, x, y, label), " x=\""@ + fig.whole(x) + "\""@),
        part_of(group_label(fig, out, x, y, label), " y=\""@ + fig.plain(y) + "\""@),
        part_of(group_label(fig, out, x, y, label), ">"@ + label + "</text>"@),
{
    reveal_strlit("<text x=\"");
    reveal_strlit("\" y=\"");
    reveal_strlit("\" text-anchor=\"middle\" font-size=\"10\">");
    reveal_strlit("</text>");
    reveal_strlit(" x=\"");
    reveal_strlit(" y=\"");
    reveal_strlit(">");
    reveal_strlit("\"");
    let s = group_label(fig, out, x, y, label);
    lemma_part(
        s,
        out,
        "<text x=\""@,
        " x=\""@,
        fig.whole(x),
        "\" y=\""@,
        "\""@,
        fig.plain(y) + "\" text-anchor=\"middle\" font-size=\"10\">"@ + label + "</text>"@,
    );
    lemma_part(
        s,
        out + "<text x=\""@ + fig.whole(x),
        "\" y=\""@,
        " y=\""@,
        fig.plain(y),
        "\" text-anchor=\"middle\" font-size=\"10\">"@,
        "\""@,
        label + "</text>"@,
    );
    lemma_part(
        s,
        out + "<text x=\""@ + fig.whole(x) + "\" y=\""@ + fig.plain(y),
        "\" text-anchor=\"middle\" font-size=\"10\">"@,
        ">"@,
        label,
        "</text>"@,
        "</text>"@,
        Seq::<char>::empty(),
    );
}

/// A coloured bar: its corner, its extent and its colour.
pub proof fn law_colour_bar<S: Fn(Style, Real) -> String>(
    fig: &Figures<S>,
    out: Seq<char>,
    x: Real,
    y: Real,
    w: Real,
    h: Real,
    col: Seq<char>,
)
    ensures
        part_of(colour_bar(fig, out, x, y, w, h, col), " x=\""@ + fig.tenths(x) + "\""@),
        part_of(colour_bar(fig, out, x, y, w, h, col), " y=\""@ + fig.tenths(y) + "\""@),
        part_of(colour_bar(fig, out, x, y, w, h, col), " width=\""@ + fig.tenths(w) + "\""@),
        part_of(colour_bar(fig, out, x, y, w, h, col), " height=\""@ + fig.tenths(h) + "\""@),
        part_of(colour_bar(fig, out, x, y, w, h, col), " fill=\""@ + col + "\""@),
{
    reveal_strlit("<rect x=\"");
    reveal_strlit("\" y=\"");
    reveal_strlit("\" width=\"");
    reveal_strlit("\" height=\"");
    reveal_strlit("\" fill=\"");
    reveal_strlit("\"/>");
    reveal_strlit(" x=\"");
    reveal_strlit(" y=\"");
    reveal_strlit(" width=\"");
    reveal_strlit(" height=\"");
    reveal_strlit(" fill=\"");
    reveal_strlit("\"");
    let s = colour_bar(fig, out, x, y, w, h, col);
    lemma_part(
        s,
        out,
        "<rect x=\""@,
        " x=\""@,
        fig.tenths(x),
        "\" y=\""@,
        "\""@,
        fig.tenths(y) + "\" width=\""@ + fig.tenths(w) + "\" height=\""@ + fig.tenths(h) + "\" fill=\""@ + col + "\"/>"@,
    );
    lemma_part(
        s,
        out + "<rect x=\""@ + fig.tenths(x),
        "\" y=\""@,
        " y=\""@,
        fig.tenths(y),
        "\" width=\""@,
        "\""@,
        fig.tenths(w) + "\" height=\""@ + fig.tenths(h) + "\" fill=\""@ + col + "\"/>"@,
    );
    lemma_part(
        s,
        out + "<rect x=\""@ + fig.tenths(x) + "\" y=\""@ + fig.tenths(y),
        "\" width=\""@,
        " width=\""@,
        fig.tenths(w),
        "\" height=\""@,
        "\""@,
        fig.tenths(h) + "\" fill=\""@ + col + "\"/>"@,
    );
    lemma_part(
        s,
        out + "<rect x=\""@ + fig.tenths(x) + "\" y=\""@ + fig.tenths(y) + "\" width=\""@ + fig.tenths(w),
        "\" height=\""@,
        " height=\""@,
        fig.tenths(h),
        "\" fill=\""@,
        "\""@,
        col + "\"/>"@,
    );
    lemma_part(
        s,
        out + "<rect x=\""@ + fig.tenths(x) + "\" y=\""@ + fig.tenths(y) + "\" width=\""@ + fig.tenths(w) + "\" height=\""@ + fig.tenths(h),
        "\" fill=\""@,
        " fill=\""@,
        col,
        "\"/>"@,
        "\""@,
        Seq::<char>::empty(),
    );
}

/// The value of a bar: where it stands and what it says.
pub proof fn law_bar_value<S: Fn(Style, Real) -> String>(
    fig: &Figures<S>,
    out: Seq<char>,
    x: Real,
    y: Real,
    v: Real,
)
    ensures
        part_of(bar_value(fig, out, x, y, v), " x=\""@ + fig.whole(x) + "\""@),
        part_of(bar_value(fig, out, x, y, v), " y=\""@ + fig.whole(y) + "\""@),
        part_of(bar_value(fig, out, x, y, v), ">"@ + fig.tenths(v) + "</text>"@),
{
    reveal_strlit("<text x=\"");
    reveal_strlit("\" y=\"");
    reveal_strlit("\" text-anchor=\"middle\" font-size=\"10\">");
    reveal_strlit("</text>");
    reveal_strlit(" x=\"");
    reveal_strlit(" y=\"");
    reveal_strlit(">");
    reveal_strlit("\"");
    let s = bar_value(fig, out, x, y, v);
    lemma_part(
        s,
        out,
        "<text x=\""@,
        " x=\""@,
        fig.whole(x),
        "\" y=\""@,
        "\""@,
        fig.whole(y) + "\" text-anchor=\"middle\" font-size=\"10\">"@ + fig.tenths(v) + "</text>"@,
    );
    lemma_part(
        s,
        out + "<text x=\""@ + fig.whole(x),
        "\" y=\""@,
        " y=\""@,
        fig.whole(y),
        "\" text-anchor=\"middle\" font-size=\"10\">"@,
        "\""@,
        fig.tenths(v) + "</text>"@,
    );
    lemma_part(
        s,
        out + "<text x=\""@ + fig.whole(x) + "\" y=\""@ + fig.whole(y),
        "\" text-anchor=\"middle\" font-size=\"10\">"@,
        ">"@,
        fig.tenths(v),
        "</text>"@,
        "</text>"@,
        Seq::<char>::empty(),
    );
}

/// The label of a bar: where it stands, and about which point it is turned.
pub proof fn law_bar_label<S: Fn(Style, Real) -> String>(
    fig: &Figures<S>,
    out: Seq<char>,
    x: Real,
    y: Real,
    label: Seq<char>,
)
    ensures
        part_of(bar_label(fig, out, x, y, label), " x=\""@ + fig.whole(x) + "\""@),
        part_of(bar_label(fig, out, x, y, label), " y=\""@ + fig.plain(y) + "\""@),
        part_of(bar_label(fig, out, x, y, label), "rotate(-30,"@ + fig.whole(x) + ","@),
        part_of(bar_label(fig, out, x, y, label), ","@ + fig.plain(y) + ")"@),
        part_of(bar_label(fig, out, x, y, label), ">"@ + label + "</text>"@),
{
    reveal_strlit("<text x=\"");
    reveal_strlit("\" y=\"");
    reveal_strlit("\" text-anchor=\"middle\" font-size=\"10\" transform=\"rotate(-30,");
    reveal_strlit(",");
    reveal_strlit(")\">");
    reveal_strlit("</text>");
    reveal_strlit(" x=\"");
    reveal_strlit(" y=\"");
    reveal_strlit("rotate(-30,");
    reveal_strlit(">");
    reveal_strlit("\"");
    reveal_strlit(")");
    let s = bar_label(fig, out, x, y, label);
    lemma_part(
        s,
        out,
        "<text x=\""@,
        " x=\""@,
        fig.whole(x),
        "\" y=\""@,
        "\""@,
        fig.plain(y) + "\" text-anchor=\"middle\" font-size=\"10\" transform=\"rotate(-30,"@ + fig.whole(x) + ","@ + fig.plain(y) + ")\">"@ + label + "</text>"@,
    );
    lemma_part(
        s,
        out + "<text x=\""@ + fig.whole(x),
        "\" y=\""@,
        " y=\""@,
        fig.plain(y),
        "\" text-anchor=\"middle\" font-size=\"10\" transform=\"rotate(-30,"@,
        "\""@,
        fig.whole(x) + ","@ + fig.plain(y) + ")\">"@ + label + "</text>"@,
    );
    lemma_part(
        s,
        out + "<text x=\""@ + fig.whole(x) + "\" y=\""@ + fig.plain(y),
        "\" text-anchor=\"middle\" font-size=\"10\" transform=\"rotate(-30,"@,
        "rotate(-30,"@,
        fig.whole(x),
        ","@,
        ","@,
        fig.plain(y) + ")\">"@ + label + "</text>"@,
    );
    lemma_part(
        s,
        out + "<text x=\""@ + fig.whole(x) + "\" y=\""@ + fig.plain(y) + "\" text-anchor=\"middle\" font-size=\"10\" transform=\"rotate(-30,"@ + fig.whole(x),
        ","@,
        ","@,
        fig.plain(y),
        ")\">"@,
        ")"@,
        label + "</text>"@,
    );
    lemma_part(
        s,
        out + "<text x=\""@ + fig.whole(x) + "\" y=\""@ + fig.plain(y) + "\" text-anchor=\"middle\" font-size=\"10\" transform=\"rotate(-30,"@ + fig.whole(x) + ","@ + fig.plain(y),
        ")\">"@,
        ">"@,
        label,
        "</text>"@,
        "</text>"@,
        Seq::<char>::empty(),
    );
}

/// A path: the last of its segments leads from the last point but one to the
/// last, each where its numbers put it.
pub proof fn law_segments<F: Fn(FloatOp, Real, Real, Real) -> Real, S: Fn(Style, Real) -> String>(
    fpu: &Fpu<F>,
    fig: &Figures<S>,
    x: Seq<Real>,
    y: Seq<Real>,
    col: Seq<char>,
    n: nat,
)
    requires
        0 < n < x.len(),
        n < y.len(),
    ensures
        part_of(segments(fpu, fig, x, y, col, n), " x1=\""@ + fig.tenths(across(fpu, x[n - 1])) + "\""@),
        part_of(segments(fpu, fig, x, y, col, n), " y1=\""@ + fig.tenths(down(fpu, y[n - 1])) + "\""@),
        part_of(segments(fpu, fig, x, y, col, n), " x2=\""@ + fig.tenths(across(fpu, x[n as int])) + "\""@),
        part_of(segments(fpu, fig, x, y, col, n), " y2=\""@ + fig.tenths(down(fpu, y[n as int])) + "\""@),
        part_of(segments(fpu, fig, x, y, col, n), " stroke=\""@ + col + "\""@),
{
    reveal_strlit("<line x1=\"");
    reveal_strlit("\" y1=\"");
    reveal_strlit("\" x2=\"");
    reveal_strlit("\" y2=\"");
    reveal_strlit("\" stroke=\"");
    reveal_strlit("\" stroke-width=\"2\"/>");
    reveal_strlit(" x1=\"");
    reveal_strlit(" y1=\"");
    reveal_strlit(" x2=\"");
    reveal_strlit(" y2=\"");
    reveal_strlit(" stroke=\"");
    reveal_strlit("\"");
    let s = segments(fpu, fig, x, y, col, n);
    let out = segments(fpu, fig, x, y, col, (n - 1) as nat);
    lemma_part(
        s,
        out,
        "<line x1=\""@,
        " x1=\""@,
        fig.tenths(across(fpu, x[n - 1])),
        "\" y1=\""@,
        "\""@,
        fig.tenths(down(fpu, y[n - 1])) + "\" x2=\""@ + fig.tenths(across(fpu, x[n as int])) + "\" y2=\""@ + fig.tenths(down(fpu, y[n as int])) + "\" stroke=\""@ + col + "\" stroke-width=\"2\"/>"@,
    );
    lemma_part(
        s,
        out + "<line x1=\""@ + fig.tenths(across(fpu, x[n - 1])),
        "\" y1=\""@,
        " y1=\""@,
        fig.tenths(down(fpu, y[n - 1])),
        "\" x2=\""@,
        "\""@,
        fig.tenths(across(fpu, x[n as int])) + "\" y2=\""@ + fig.tenths(down(fpu, y[n as int])) + "\" stroke=\""@ + col + "\" stroke-width=\"2\"/>"@,
    );
    lemma_part(
        s,
        out + "<line x1=\""@ + fig.tenths(across(fpu, x[n - 1])) + "\" y1=\""@ + fig.tenths(down(fpu, y[n - 1])),
        "\" x2=\""@,
        " x2=\""@,
        fig.tenths(across(fpu, x[n as int])),
        "\" y2=\""@,
        "\""@,
        fig.tenths(down(fpu, y[n as int])) + "\" stroke=\""@ + col + "\" stroke-width=\"2\"/>"@,
    );
    lemma_part(
        s,
        out + "<line x1=\""@ + fig.tenths(across(fpu, x[n - 1])) + "\" y1=\""@ + fig.tenths(down(fpu, y[n - 1])) + "\" x2=\""@ + fig.tenths(across(fpu, x[n as int])),
        "\" y2=\""@,
        " y2=\""@,
        fig.tenths(down(fpu, y[n as int])),
        "\" stroke=\""@,
        "\""@,
        col + "\" stroke-width=\"2\"/>"@,
    );
    lemma_part(
        s,
        out + "<line x1=\""@ + fig.tenths(across(fpu, x[n - 1])) + "\" y1=\""@ + fig.tenths(down(fpu, y[n - 1])) + "\" x2=\""@ + fig.tenths(across(fpu, x[n as int])) + "\" y2=\""@ + fig.tenths(down(fpu, y[n as int])),
        "\" stroke=\""@,
        " stroke=\""@,
        col,
        "\" stroke-width=\"2\"/>"@,
        "\""@,
        Seq::<char>::empty(),
    );
}

/// The corners of a legend: the left ones lie left of the right ones, the top
/// ones above the bottom ones, and a corner is named by both.
pub proof fn law_corners()
    ensures
        corner("topleft"@).0 == corner("bottomleft"@).0,
        corner("topright"@).0 == corner("bottomright"@).0,
        corner("topleft"@).1 == corner("topright"@).1,
        corner("bottomleft"@).1 == corner("bottomright"@).1,
        corner("topleft"@).0.key() < corner("topright"@).0.key(),
        corner("topleft"@).1.key() < corner("bottomleft"@).1.key(),
{
    reveal_strlit("topleft");
    reveal_strlit("topright");
    reveal_strlit("bottomleft");
    reveal_strlit("bottomright");
    assert("topleft"@.len() == 7 && "topright"@.len() == 8 && "bottomleft"@.len() == 10 && "bottomright"@.len() == 11);
}

} // verus!
