//! Overlays on a plot: lines, points, straight lines and legends. Each takes
//! the document of the plot and gives the document with the new elements in
//! front of its end.
//!
//! Data are placed by a fixed scale: ten units to one, from the lower left
//! corner of the drawing area.
use crate::device::{Figures, Style, no_plot};
use crate::double::{FloatOp, Fpu, ONE_BITS, Real, num, one, rounded, zero};
use crate::ml_cv::{arg_text, rval_to_string, text_named, value_text};
use crate::stats_design::Printer;
use crate::stats_dist::{arg_number, number_named};
use crate::stats_matrix::{SIZE_LIMIT, failed};
use crate::text::{
    find_from, chars_of, decimal, extend_decimal, extend_str, opt_text, owned, replace_all, replaced, same_text, string_of, texts,
};
use crate::value::{
    ErrKind, EvalArg, R2Err, RVal, Val, arg_named, fail, keep_present, named, nth, nth_arg, present, reals, scalar,
};
use vstd::prelude::*;

verus! {

/// 60
pub const LEFT_BITS: u64 = 0x404e_0000_0000_0000;

/// 370
pub const BASE_BITS: u64 = 0x4077_2000_0000_0000;

/// 10
pub const TEN_BITS: u64 = 0x4024_0000_0000_0000;

/// 3
pub const THREE_BITS: u64 = 0x4008_0000_0000_0000;

/// 4
pub const FOUR_BITS: u64 = 0x4010_0000_0000_0000;

/// 50
pub const FIFTY_BITS: u64 = 0x4049_0000_0000_0000;

/// Where a number lies from left to right.
pub open spec fn across<F: Fn(FloatOp, Real, Real, Real) -> Real>(fpu: &Fpu<F>, x: Real) -> Real {
    fpu.plus(num(LEFT_BITS), fpu.times(x, num(TEN_BITS)))
}

/// Where a number lies from top to bottom.
pub open spec fn down<F: Fn(FloatOp, Real, Real, Real) -> Real>(fpu: &Fpu<F>, y: Real) -> Real {
    fpu.minus(num(BASE_BITS), fpu.times(y, num(TEN_BITS)))
}

fn across_of<F: Fn(FloatOp, Real, Real, Real) -> Real>(fpu: &Fpu<F>, x: Real) -> (r: Real)
    requires
        fpu.wf(),
    ensures
        r == across(fpu, x),
{
    fpu.sum(Real { bits: LEFT_BITS }, fpu.prod(x, Real { bits: TEN_BITS }))
}

fn down_of<F: Fn(FloatOp, Real, Real, Real) -> Real>(fpu: &Fpu<F>, y: Real) -> (r: Real)
    requires
        fpu.wf(),
    ensures
        r == down(fpu, y),
{
    fpu.diff(Real { bits: BASE_BITS }, fpu.prod(y, Real { bits: TEN_BITS }))
}

/// The document with elements in front of its end.
pub open spec fn spliced(svg: Seq<char>, elems: Seq<char>) -> Seq<char> {
    replaced(svg, "</svg>"@, elems + "</svg>"@)
}

fn splice(svg: &str, elems: &Vec<char>) -> (r: String)
    ensures
        r@ == spliced(svg@, elems@),
{
    let doc: Vec<char> = chars_of(svg);
    let end: Vec<char> = chars_of("</svg>");
    proof {
        reveal_strlit("</svg>");
    }
    let mut by: Vec<char> = crate::text::copy_chars(elems);
    extend_str(&mut by, "</svg>");
    let out: Vec<char> = replace_all(&doc, &end, &by);
    string_of(&out)
}

/// In a document that ends with its only end tag, the new elements stand right
/// in front of that tag, and all that was drawn before stays.
pub proof fn law_spliced_last(body: Seq<char>, elems: Seq<char>)
    requires
        find_from(body + "</svg>"@, "</svg>"@, 0) == Some(body.len() as int),
    ensures
        spliced(body + "</svg>"@, elems) == body + elems + "</svg>"@,
{
    reveal_strlit("</svg>");
    let end = "</svg>"@;
    let s = body + end;
    reveal_with_fuel(replaced, 2);
    reveal_with_fuel(find_from, 3);
    assert(s.subrange(0, body.len() as int) =~= body);
    assert(s.skip((body.len() + end.len()) as int) =~= Seq::<char>::empty());
    assert(find_from(Seq::<char>::empty(), end, 0) is None);
    assert(spliced(s, elems) =~= body + elems + end);
}

/// The numbers of the first two arguments, or why there are none.
pub open spec fn pair_fault(a: Seq<EvalArg>) -> bool {
    reals(nth(a, 0)) is None || reals(nth(a, 1)) is None
}

/// `r` is the document with the elements, or why there is none.
pub open spec fn overlay(fault: bool, svg: Seq<char>, elems: Seq<char>, r: Result<String, R2Err>) -> bool {
    if fault {
        failed(r, (ErrKind::Type, "cannot coerce to numeric"@))
    } else if svg.len() == 0 {
        no_plot(r)
    } else {
        r is Ok && r->Ok_0@ == spliced(svg, elems)
    }
}

fn is_empty_text(s: &str) -> (r: bool)
    ensures
        r == (s@.len() == 0),
{
    let v: Vec<char> = chars_of(s);
    v.len() == 0
}

fn numbers_at(a: &[EvalArg], i: usize) -> (r: Result<Vec<Real>, R2Err>)
    ensures
        match reals(nth(a@, i as int)) {
            Some(s) => r is Ok && r->Ok_0@ == present(s),
            None => failed(r, (ErrKind::Type, "cannot coerce to numeric"@)),
        },
{
    match nth_arg(a, i).as_reals() {
        Ok(s) => Ok(keep_present(s.as_slice())),
        Err(e) => Err(e),
    }
}

// ── lines ──────────────────────────────────────────────────────────────────

/// The first `n` segments of a path through the points.
pub open spec fn segments<F: Fn(FloatOp, Real, Real, Real) -> Real, S: Fn(Style, Real) -> String>(
    fpu: &Fpu<F>,
    fig: &Figures<S>,
    x: Seq<Real>,
    y: Seq<Real>,
    col: Seq<char>,
    n: nat,
) -> Seq<char>
    decreases n,
{
    if n == 0 {
        Seq::empty()
    } else {
        let i = n - 1;
        segments(fpu, fig, x, y, col, i as nat) + "<line x1=\""@ + fig.tenths(across(fpu, x[i])) + "\" y1=\""@ + fig.tenths(
            down(fpu, y[i]),
        ) + "\" x2=\""@ + fig.tenths(across(fpu, x[i + 1])) + "\" y2=\""@ + fig.tenths(down(fpu, y[i + 1]))
            + "\" stroke=\""@ + col + "\" stroke-width=\"2\"/>"@
    }
}

/// The number of segments between `n` points.
pub open spec fn gaps(n: nat) -> nat {
    if n == 0 {
        0
    } else {
        (n - 1) as nat
    }
}

/// Adds a path through the points of the first two arguments to a plot.
pub fn bi_lines<F: Fn(FloatOp, Real, Real, Real) -> Real, P: Fn(Real) -> String, S: Fn(Style, Real) -> String>(
    fpu: &Fpu<F>,
    printer: &Printer<P>,
    fig: &Figures<S>,
    svg: &str,
    a: &[EvalArg],
) -> (r: Result<String, R2Err>)
    requires
        fpu.wf(),
        printer.wf(),
        fig.wf(),
        !pair_fault(a@) && svg@.len() > 0 ==> ({
            let n = present(reals(nth(a@, 0))->0).len();
            n < 2 || present(reals(nth(a@, 1))->0).len() >= n
        }),
    ensures
        overlay(
            pair_fault(a@),
            svg@,
            segments(
                fpu,
                fig,
                present(reals(nth(a@, 0))->0),
                present(reals(nth(a@, 1))->0),
                text_named(printer, a@, "col"@, "red"@),
                gaps(present(reals(nth(a@, 0))->0).len()),
            ),
            r,
        ),
{
    let x: Vec<Real> = match numbers_at(a, 0) {
        Ok(v) => v,
        Err(e) => {
            return Err(e);
        },
    };
    let y: Vec<Real> = match numbers_at(a, 1) {
        Ok(v) => v,
        Err(e) => {
            return Err(e);
        },
    };
    let col: String = arg_text(printer, a, "col", "red");
    if is_empty_text(svg) {
        return Err(fail(ErrKind::Runtime, "no plot open — call plot() first"));
    }
    let n: usize = if x.len() == 0 { 0 } else { x.len() - 1 };
    let mut out: Vec<char> = Vec::new();
    let mut i: usize = 0;
    while i < n
        invariant
            fpu.wf(),
            fig.wf(),
            i <= n,
            n == gaps(x@.len()),
            x@.len() < 2 || y@.len() >= x@.len(),
            out@ == segments(fpu, fig, x@, y@, col@, i as nat),
        decreases n - i,
    {
        extend_str(&mut out, "<line x1=\"");
        fig.put(&mut out, Style::Places(1), across_of(fpu, x[i]));
        extend_str(&mut out, "\" y1=\"");
        fig.put(&mut out, Style::Places(1), down_of(fpu, y[i]));
        extend_str(&mut out, "\" x2=\"");
        fig.put(&mut out, Style::Places(1), across_of(fpu, x[i + 1]));
        extend_str(&mut out, "\" y2=\"");
        fig.put(&mut out, Style::Places(1), down_of(fpu, y[i + 1]));
        extend_str(&mut out, "\" stroke=\"");
        extend_str(&mut out, col.as_str());
        extend_str(&mut out, "\" stroke-width=\"2\"/>");
        i += 1;
    }
    Ok(splice(svg, &out))
}

// ── points ─────────────────────────────────────────────────────────────────

/// One mark: a square, a triangle or a filled circle.
pub open spec fn mark<F: Fn(FloatOp, Real, Real, Real) -> Real, S: Fn(Style, Real) -> String>(
    fpu: &Fpu<F>,
    fig: &Figures<S>,
    out: Seq<char>,
    px: Real,
    py: Real,
    pch: i64,
    col: Seq<char>,
) -> Seq<char> {
    let three = num(THREE_BITS);
    let four = num(FOUR_BITS);
    if pch == 0 {
        out + "<rect x=\""@ + fig.whole(fpu.minus(px, three)) + "\" y=\""@ + fig.whole(fpu.minus(py, three))
            + "\" width=\"6\" height=\"6\" fill=\"none\" stroke=\""@ + col + "\"/>"@
    } else if pch == 2 {
        out + "<polygon points=\""@ + fig.whole(px) + ","@ + fig.whole(fpu.minus(py, four)) + " "@ + fig.whole(
            fpu.minus(px, four),
        ) + ","@ + fig.whole(fpu.plus(py, three)) + " "@ + fig.whole(fpu.plus(px, four)) + ","@ + fig.whole(
            fpu.plus(py, three),
        ) + "\" fill=\"none\" stroke=\""@ + col + "\"/>"@
    } else {
        out + "<circle cx=\""@ + fig.whole(px) + "\" cy=\""@ + fig.whole(py) + "\" r=\"3\" fill=\""@ + col + "\"/>"@
    }
}

fn put_mark<F: Fn(FloatOp, Real, Real, Real) -> Real, S: Fn(Style, Real) -> String>(
    fpu: &Fpu<F>,
    fig: &Figures<S>,
    out: &mut Vec<char>,
    px: Real,
    py: Real,
    pch: i64,
    col: &str,
)
    requires
        fpu.wf(),
        fig.wf(),
    ensures
        final(out)@ == mark(fpu, fig, old(out)@, px, py, pch, col@),
{
    let whole: Style = Style::Places(0);
    let three = Real { bits: THREE_BITS };
    let four = Real { bits: FOUR_BITS };
    if pch == 0 {
        extend_str(out, "<rect x=\"");
        fig.put(out, whole, fpu.diff(px, three));
        extend_str(out, "\" y=\"");
        fig.put(out, whole, fpu.diff(py, three));
        extend_str(out, "\" width=\"6\" height=\"6\" fill=\"none\" stroke=\"");
        extend_str(out, col);
        extend_str(out, "\"/>");
    } else if pch == 2 {
        extend_str(out, "<polygon points=\"");
        fig.put(out, whole, px);
        extend_str(out, ",");
        fig.put(out, whole, fpu.diff(py, four));
        extend_str(out, " ");
        fig.put(out, whole, fpu.diff(px, four));
        extend_str(out, ",");
        fig.put(out, whole, fpu.sum(py, three));
        extend_str(out, " ");
        fig.put(out, whole, fpu.sum(px, four));
        extend_str(out, ",");
        fig.put(out, whole, fpu.sum(py, three));
        extend_str(out, "\" fill=\"none\" stroke=\"");
        extend_str(out, col);
        extend_str(out, "\"/>");
    } else {
        extend_str(out, "<circle cx=\"");
        fig.put(out, whole, px);
        extend_str(out, "\" cy=\"");
        fig.put(out, whole, py);
        extend_str(out, "\" r=\"3\" fill=\"");
        extend_str(out, col);
        extend_str(out, "\"/>");
    }
}

/// The first `n` marks.
pub open spec fn marks<F: Fn(FloatOp, Real, Real, Real) -> Real, S: Fn(Style, Real) -> String>(
    fpu: &Fpu<F>,
    fig: &Figures<S>,
    x: Seq<Real>,
    y: Seq<Real>,
    pch: i64,
    col: Seq<char>,
    n: nat,
) -> Seq<char>
    decreases n,
{
    if n == 0 {
        Seq::empty()
    } else {
        mark(
            fpu,
            fig,
            marks(fpu, fig, x, y, pch, col, (n - 1) as nat),
            across(fpu, x[n - 1]),
            down(fpu, y[n - 1]),
            pch,
            col,
        )
    }
}

pub open spec fn shorter(a: nat, b: nat) -> nat {
    if a < b {
        a
    } else {
        b
    }
}

/// Adds marks at the points of the first two arguments to a plot.
pub fn bi_points<F: Fn(FloatOp, Real, Real, Real) -> Real, P: Fn(Real) -> String, S: Fn(Style, Real) -> String>(
    fpu: &Fpu<F>,
    printer: &Printer<P>,
    fig: &Figures<S>,
    svg: &str,
    a: &[EvalArg],
) -> (r: Result<String, R2Err>)
    requires
        fpu.wf(),
        printer.wf(),
        fig.wf(),
    ensures
        overlay(
            pair_fault(a@),
            svg@,
            marks(
                fpu,
                fig,
                present(reals(nth(a@, 0))->0),
                present(reals(nth(a@, 1))->0),
                number_named(a@, "pch"@, one()).as_long(),
                text_named(printer, a@, "col"@, "red"@),
                shorter(present(reals(nth(a@, 0))->0).len(), present(reals(nth(a@, 1))->0).len()),
            ),
            r,
        ),
{
    let x: Vec<Real> = match numbers_at(a, 0) {
        Ok(v) => v,
        Err(e) => {
            return Err(e);
        },
    };
    let y: Vec<Real> = match numbers_at(a, 1) {
        Ok(v) => v,
        Err(e) => {
            return Err(e);
        },
    };
    let col: String = arg_text(printer, a, "col", "red");
    let pch: i64 = arg_number(a, "pch", Real { bits: ONE_BITS }).to_i64();
    if is_empty_text(svg) {
        return Err(fail(ErrKind::Runtime, "no plot open — call plot() first"));
    }
    let n: usize = if x.len() < y.len() { x.len() } else { y.len() };
    let mut out: Vec<char> = Vec::new();
    let mut i: usize = 0;
    while i < n
        invariant
            fpu.wf(),
            fig.wf(),
            i <= n,
            n <= x@.len(),
            n <= y@.len(),
            out@ == marks(fpu, fig, x@, y@, pch, col@, i as nat),
        decreases n - i,
    {
        put_mark(fpu, fig, &mut out, across_of(fpu, x[i]), down_of(fpu, y[i]), pch, col.as_str());
        i += 1;
    }
    Ok(splice(svg, &out))
}

// ── abline ─────────────────────────────────────────────────────────────────

/// The dashes of line type two.
pub open spec fn dashes(lty: i64) -> Seq<char> {
    if lty == 2 {
        " stroke-dasharray=\"5,5\""@
    } else {
        ""@
    }
}

/// The first number of a value, zero where it is missing.
pub open spec fn first_or_zero(v: Val) -> Real {
    match scalar(v) {
        Some(x) => x,
        None => zero(),
    }
}

/// The value with a name, else the argument at a place.
pub open spec fn named_or_nth(a: Seq<EvalArg>, name: Seq<char>, i: int) -> Val {
    match named(a, name) {
        Some(v) => v,
        None => nth(a, i),
    }
}

pub open spec fn number_or(v: Val, default: Real) -> Real {
    match scalar(v) {
        Some(x) => x,
        None => default,
    }
}

/// The level or the position of a straight line is no number.
pub open spec fn abline_fault(a: Seq<EvalArg>) -> bool {
    if named(a, "h"@) is Some {
        reals(named(a, "h"@)->0) is None
    } else if named(a, "v"@) is Some {
        reals(named(a, "v"@)->0) is None
    } else {
        false
    }
}

/// A straight line: at a level, at a position, or by intercept and slope.
pub open spec fn straight<F: Fn(FloatOp, Real, Real, Real) -> Real, S: Fn(Style, Real) -> String>(
    fpu: &Fpu<F>,
    fig: &Figures<S>,
    a: Seq<EvalArg>,
    col: Seq<char>,
    dash: Seq<char>,
) -> Seq<char> {
    let e = Seq::<char>::empty();
    if named(a, "h"@) is Some {
        let py = fig.whole(down(fpu, first_or_zero(named(a, "h"@)->0)));
        e + "<line x1=\"60\" y1=\""@ + py + "\" x2=\"580\" y2=\""@ + py + "\" stroke=\""@ + col + "\""@ + dash + "/>"@
    } else if named(a, "v"@) is Some {
        let px = fig.whole(across(fpu, first_or_zero(named(a, "v"@)->0)));
        e + "<line x1=\""@ + px + "\" y1=\"30\" x2=\""@ + px + "\" y2=\"370\" stroke=\""@ + col + "\""@ + dash + "/>"@
    } else {
        let intercept = number_or(named_or_nth(a, "a"@, 0), zero());
        let slope = number_or(named_or_nth(a, "b"@, 1), one());
        let y1 = fpu.plus(intercept, fpu.times(slope, zero()));
        let y2 = fpu.plus(intercept, fpu.times(slope, num(FIFTY_BITS)));
        e + "<line x1=\""@ + fig.whole(across(fpu, zero())) + "\" y1=\""@ + fig.whole(down(fpu, y1)) + "\" x2=\""@
            + fig.whole(across(fpu, num(FIFTY_BITS))) + "\" y2=\""@ + fig.whole(down(fpu, y2)) + "\" stroke=\""@ + col
            + "\""@ + dash + " stroke-width=\"2\"/>"@
    }
}

fn number_at(a: &[EvalArg], name: &str, i: usize, default: Real) -> (r: Real)
    ensures
        r == number_or(named_or_nth(a@, name@, i as int), default),
{
    let v: RVal = match arg_named(a, name) {
        Some(v) => v.dup(),
        None => nth_arg(a, i),
    };
    match v.scalar_f64() {
        Some(x) => x,
        None => default,
    }
}

fn level_of(v: &RVal) -> (r: Result<Real, R2Err>)
    ensures
        match reals(v.deep()) {
            None => failed(r, (ErrKind::Type, "cannot coerce to numeric"@)),
            Some(_) => r is Ok && r->Ok_0 == first_or_zero(v.deep()),
        },
{
    match v.as_reals() {
        Err(e) => Err(e),
        Ok(_) => Ok(
            match v.scalar_f64() {
                Some(x) => x,
                None => Real { bits: 0 },
            },
        ),
    }
}

/// Adds a straight line to a plot.
pub fn bi_abline<F: Fn(FloatOp, Real, Real, Real) -> Real, P: Fn(Real) -> String, S: Fn(Style, Real) -> String>(
    fpu: &Fpu<F>,
    printer: &Printer<P>,
    fig: &Figures<S>,
    svg: &str,
    a: &[EvalArg],
) -> (r: Result<String, R2Err>)
    requires
        fpu.wf(),
        printer.wf(),
        fig.wf(),
    ensures
        if svg@.len() == 0 {
            no_plot(r)
        } else {
            overlay(
                abline_fault(a@),
                svg@,
                straight(
                    fpu,
                    fig,
                    a@,
                    text_named(printer, a@, "col"@, "red"@),
                    dashes(number_named(a@, "lty"@, one()).as_long()),
                ),
                r,
            )
        },
{
    let col: String = arg_text(printer, a, "col", "red");
    let lty: i64 = arg_number(a, "lty", Real { bits: ONE_BITS }).to_i64();
    let dash: &str = if lty == 2 { " stroke-dasharray=\"5,5\"" } else { "" };
    if is_empty_text(svg) {
        return Err(fail(ErrKind::Runtime, "no plot open — call plot() first"));
    }
    let whole: Style = Style::Places(0);
    let mut out: Vec<char> = Vec::new();
    match arg_named(a, "h") {
        Some(v) => {
            let h: Real = match level_of(v) {
                Ok(h) => h,
                Err(e) => {
                    return Err(e);
                },
            };
            let py: Real = down_of(fpu, h);
            extend_str(&mut out, "<line x1=\"60\" y1=\"");
            fig.put(&mut out, whole, py);
            extend_str(&mut out, "\" x2=\"580\" y2=\"");
            fig.put(&mut out, whole, py);
            extend_str(&mut out, "\" stroke=\"");
            extend_str(&mut out, col.as_str());
            extend_str(&mut out, "\"");
            extend_str(&mut out, dash);
            extend_str(&mut out, "/>");
        },
        None => match arg_named(a, "v") {
            Some(v) => {
                let x: Real = match level_of(v) {
                    Ok(x) => x,
                    Err(e) => {
                        return Err(e);
                    },
                };
                let px: Real = across_of(fpu, x);
                extend_str(&mut out, "<line x1=\"");
                fig.put(&mut out, whole, px);
                extend_str(&mut out, "\" y1=\"30\" x2=\"");
                fig.put(&mut out, whole, px);
                extend_str(&mut out, "\" y2=\"370\" stroke=\"");
                extend_str(&mut out, col.as_str());
                extend_str(&mut out, "\"");
                extend_str(&mut out, dash);
                extend_str(&mut out, "/>");
            },
            None => {
                let none = Real { bits: 0 };
                let far = Real { bits: FIFTY_BITS };
                let intercept: Real = number_at(a, "a", 0, none);
                let slope: Real = number_at(a, "b", 1, Real { bits: ONE_BITS });
                let y1: Real = fpu.sum(intercept, fpu.prod(slope, none));
                let y2: Real = fpu.sum(intercept, fpu.prod(slope, far));
                extend_str(&mut out, "<line x1=\"");
                fig.put(&mut out, whole, across_of(fpu, none));
                extend_str(&mut out, "\" y1=\"");
                fig.put(&mut out, whole, down_of(fpu, y1));
                extend_str(&mut out, "\" x2=\"");
                fig.put(&mut out, whole, across_of(fpu, far));
                extend_str(&mut out, "\" y2=\"");
                fig.put(&mut out, whole, down_of(fpu, y2));
                extend_str(&mut out, "\" stroke=\"");
                extend_str(&mut out, col.as_str());
                extend_str(&mut out, "\"");
                extend_str(&mut out, dash);
                extend_str(&mut out, " stroke-width=\"2\"/>");
            },
        },
    }
    Ok(splice(svg, &out))
}

// ── legend ─────────────────────────────────────────────────────────────────

/// 70
pub const NEAR_BITS: u64 = 0x4051_8000_0000_0000;

/// 420
pub const FAR_BITS: u64 = 0x407a_4000_0000_0000;

/// 45
pub const TOP_BITS: u64 = 0x4046_8000_0000_0000;

/// 330
pub const LOW_BITS: u64 = 0x4074_a000_0000_0000;

/// 5
pub const FIVE_BITS: u64 = 0x4014_0000_0000_0000;

/// 15
pub const FIFTEEN_BITS: u64 = 0x402e_0000_0000_0000;

/// 20
pub const TWENTY_BITS: u64 = 0x4034_0000_0000_0000;

/// 9
pub const NINE_BITS: u64 = 0x4022_0000_0000_0000;

/// 18
pub const EIGHTEEN_BITS: u64 = 0x4032_0000_0000_0000;

/// Where a legend stands.
pub open spec fn corner(pos: Seq<char>) -> (Real, Real) {
    if pos == "topleft"@ {
        (num(NEAR_BITS), num(TOP_BITS))
    } else if pos == "topright"@ {
        (num(FAR_BITS), num(TOP_BITS))
    } else if pos == "bottomleft"@ {
        (num(NEAR_BITS), num(LOW_BITS))
    } else if pos == "bottomright"@ {
        (num(FAR_BITS), num(LOW_BITS))
    } else {
        (num(FAR_BITS), num(TOP_BITS))
    }
}

fn corner_of(pos: &str) -> (r: (Real, Real))
    ensures
        r == corner(pos@),
{
    let near = Real { bits: NEAR_BITS };
    let far = Real { bits: FAR_BITS };
    let top = Real { bits: TOP_BITS };
    let low = Real { bits: LOW_BITS };
    if same_text(pos, "topleft") {
        (near, top)
    } else if same_text(pos, "topright") {
        (far, top)
    } else if same_text(pos, "bottomleft") {
        (near, low)
    } else if same_text(pos, "bottomright") {
        (far, low)
    } else {
        (far, top)
    }
}

/// Texts with a stand-in for missing ones.
pub open spec fn filled_texts(s: Seq<Option<Seq<char>>>, missing: Seq<char>) -> Seq<Seq<char>> {
    Seq::new(
        s.len(),
        |i: int|
            match s[i] {
                Some(t) => t,
                None => missing,
            },
    )
}

pub(crate) fn fill_texts(v: &Vec<Option<String>>, missing: &str) -> (r: Vec<String>)
    ensures
        texts(r@) == filled_texts(crate::text::opt_texts(v@), missing@),
{
    let mut out: Vec<String> = Vec::new();
    let mut i: usize = 0;
    while i < v.len()
        invariant
            i <= v.len(),
            out@.len() == i,
            forall|k: int|
                0 <= k < i ==> (#[trigger] out@[k])@ == (match opt_text(v@[k]) {
                    Some(t) => t,
                    None => missing@,
                }),
        decreases v.len() - i,
    {
        out.push(
            match &v[i] {
                Some(t) => owned(t.as_str()),
                None => owned(missing),
            },
        );
        i += 1;
    }
    assert(texts(out@) =~= filled_texts(crate::text::opt_texts(v@), missing@));
    out
}

/// The labels of a legend.
pub open spec fn legend_labels(v: Option<Val>) -> Seq<Seq<char>> {
    match v {
        Some(Val::Character(s, _)) => filled_texts(s, ""@),
        _ => seq!["Series 1"@],
    }
}

/// The colours of a legend.
pub open spec fn legend_colours(v: Option<Val>) -> Seq<Seq<char>> {
    match v {
        Some(Val::Character(s, _)) => filled_texts(s, "black"@),
        _ => seq!["black"@, "red"@, "blue"@, "green"@],
    }
}

pub open spec fn colour_at(colours: Seq<Seq<char>>, i: int) -> Seq<char> {
    if i < colours.len() {
        colours[i]
    } else {
        "black"@
    }
}

/// The frame and the first `n` entries of a legend.
pub open spec fn legend_body<F: Fn(FloatOp, Real, Real, Real) -> Real, S: Fn(Style, Real) -> String>(
    fpu: &Fpu<F>,
    fig: &Figures<S>,
    at: (Real, Real),
    labels: Seq<Seq<char>>,
    colours: Seq<Seq<char>>,
    n: nat,
) -> Seq<char>
    decreases n,
{
    if n == 0 {
        Seq::<char>::empty() + "<rect x=\""@ + fig.whole(fpu.minus(at.0, num(FIVE_BITS))) + "\" y=\""@ + fig.whole(
            fpu.minus(at.1, num(FIFTEEN_BITS)),
        ) + "\" width=\"140\" height=\""@ + decimal((labels.len() * 20 + 10) as nat)
            + "\" fill=\"white\" stroke=\"black\" stroke-width=\"0.5\"/>"@
    } else {
        let i = n - 1;
        let yp = fpu.plus(at.1, fpu.times(rounded(i as nat), num(TWENTY_BITS)));
        legend_body(fpu, fig, at, labels, colours, i as nat) + "<rect x=\""@ + fig.whole(at.0) + "\" y=\""@ + fig.whole(
            fpu.minus(yp, num(NINE_BITS)),
        ) + "\" width=\"12\" height=\"12\" fill=\""@ + colour_at(colours, i) + "\"/>"@ + "<text x=\""@ + fig.whole(
            fpu.plus(at.0, num(EIGHTEEN_BITS)),
        ) + "\" y=\""@ + fig.whole(yp) + "\" font-size=\"11\">"@ + labels[i] + "</text>"@
    }
}

fn labels_given(v: Option<&RVal>) -> (r: Vec<String>)
    ensures
        texts(r@) == legend_labels(match v {
            Some(x) => Some(x.deep()),
            None => None,
        }),
{
    proof {
        reveal_with_fuel(RVal::deep, 2);
    }
    if let Some(RVal::Character(s, _)) = v {
        return fill_texts(s, "");
    }
    let mut out: Vec<String> = Vec::new();
    out.push(owned("Series 1"));
    assert(texts(out@) =~= seq!["Series 1"@]);
    out
}

fn colours_given(v: Option<&RVal>) -> (r: Vec<String>)
    ensures
        texts(r@) == legend_colours(match v {
            Some(x) => Some(x.deep()),
            None => None,
        }),
{
    proof {
        reveal_with_fuel(RVal::deep, 2);
    }
    if let Some(RVal::Character(s, _)) = v {
        return fill_texts(s, "black");
    }
    let mut out: Vec<String> = Vec::new();
    out.push(owned("black"));
    out.push(owned("red"));
    out.push(owned("blue"));
    out.push(owned("green"));
    assert(texts(out@) =~= seq!["black"@, "red"@, "blue"@, "green"@]);
    out
}

/// Adds a legend to a plot.
pub fn bi_legend<F: Fn(FloatOp, Real, Real, Real) -> Real, P: Fn(Real) -> String, S: Fn(Style, Real) -> String>(
    fpu: &Fpu<F>,
    printer: &Printer<P>,
    fig: &Figures<S>,
    svg: &str,
    a: &[EvalArg],
) -> (r: Result<String, R2Err>)
    requires
        fpu.wf(),
        printer.wf(),
        fig.wf(),
        legend_labels(named(a@, "legend"@)).len() < SIZE_LIMIT,
    ensures
        overlay(
            false,
            svg@,
            legend_body(
                fpu,
                fig,
                corner(value_text(printer, nth(a@, 0))),
                legend_labels(named(a@, "legend"@)),
                legend_colours(named(a@, "col"@)),
                legend_labels(named(a@, "legend"@)).len(),
            ),
            r,
        ),
{
    let first: RVal = nth_arg(a, 0);
    let pos: String = rval_to_string(printer, &first);
    let labels: Vec<String> = labels_given(arg_named(a, "legend"));
    let colours: Vec<String> = colours_given(arg_named(a, "col"));
    let at: (Real, Real) = corner_of(pos.as_str());
    if is_empty_text(svg) {
        return Err(fail(ErrKind::Runtime, "no plot open — call plot() first"));
    }
    let whole: Style = Style::Places(0);
    let ghost ls = texts(labels@);
    let ghost cs = texts(colours@);
    assert(ls.len() == labels@.len());
    let mut out: Vec<char> = Vec::new();
    extend_str(&mut out, "<rect x=\"");
    fig.put(&mut out, whole, fpu.diff(at.0, Real { bits: FIVE_BITS }));
    extend_str(&mut out, "\" y=\"");
    fig.put(&mut out, whole, fpu.diff(at.1, Real { bits: FIFTEEN_BITS }));
    extend_str(&mut out, "\" width=\"140\" height=\"");
    extend_decimal(&mut out, labels.len() as u64 * 20 + 10);
    extend_str(&mut out, "\" fill=\"white\" stroke=\"black\" stroke-width=\"0.5\"/>");
    let mut i: usize = 0;
    while i < labels.len()
        invariant
            fpu.wf(),
            fig.wf(),
            whole == Style::Places(0),
            ls == texts(labels@),
            cs == texts(colours@),
            i <= labels.len(),
            out@ == legend_body(fpu, fig, at, ls, cs, i as nat),
        decreases labels.len() - i,
    {
        let c: &str = if i < colours.len() { colours[i].as_str() } else { "black" };
        assert(c@ == colour_at(cs, i as int));
        let yp: Real = fpu.sum(at.1, fpu.prod(Real::from_u64(i as u64), Real { bits: TWENTY_BITS }));
        extend_str(&mut out, "<rect x=\"");
        fig.put(&mut out, whole, at.0);
        extend_str(&mut out, "\" y=\"");
        fig.put(&mut out, whole, fpu.diff(yp, Real { bits: NINE_BITS }));
        extend_str(&mut out, "\" width=\"12\" height=\"12\" fill=\"");
        extend_str(&mut out, c);
        extend_str(&mut out, "\"/>");
        extend_str(&mut out, "<text x=\"");
        fig.put(&mut out, whole, fpu.sum(at.0, Real { bits: EIGHTEEN_BITS }));
        extend_str(&mut out, "\" y=\"");
        fig.put(&mut out, whole, yp);
        extend_str(&mut out, "\" font-size=\"11\">");
        extend_str(&mut out, labels[i].as_str());
        extend_str(&mut out, "</text>");
        i += 1;
    }
    Ok(splice(svg, &out))
}

} // verus!
