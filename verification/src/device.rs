//! The plot device: the canvas, the drawing parameters and the panel that comes
//! next.
use crate::double::{FloatOp, Fpu, ONE_BITS, Real, num, one, rounded, zero};
use crate::text::{chars_of, extend_str, owned, string_of};
use crate::value::{ErrKind, R2Err, fail};
use vstd::prelude::*;

verus! {

/// How a number is written in a drawing: in the shortest form that reads back,
/// or with a fixed number of decimal places.
#[derive(Clone, Copy, PartialEq, Eq, Structural, Debug)]
pub enum Style {
    Shortest,
    Places(u8),
}

/// How numbers are written in a drawing, supplied by the caller.
pub struct Figures<S: Fn(Style, Real) -> String> {
    pub show: S,
}

impl<S: Fn(Style, Real) -> String> Figures<S> {
    /// Every number has a text in each style, and always the same.
    pub open spec fn wf(&self) -> bool {
        &&& forall|f: Style, x: Real| #[trigger] call_requires(self.show, (f, x))
        &&& forall|f: Style, x: Real, a: String, b: String| #[trigger]
            call_ensures(self.show, (f, x), a) && #[trigger] call_ensures(self.show, (f, x), b) ==> a@ == b@
    }

    pub open spec fn text(&self, f: Style, x: Real) -> Seq<char> {
        (choose|s: String| call_ensures(self.show, (f, x), s))@
    }

    /// The shortest text.
    pub open spec fn plain(&self, x: Real) -> Seq<char> {
        self.text(Style::Shortest, x)
    }

    /// The text without decimal places.
    pub open spec fn whole(&self, x: Real) -> Seq<char> {
        self.text(Style::Places(0), x)
    }

    /// The text with one decimal place.
    pub open spec fn tenths(&self, x: Real) -> Seq<char> {
        self.text(Style::Places(1), x)
    }

    /// Appends a number.
    pub fn put(&self, out: &mut Vec<char>, f: Style, x: Real)
        requires
            self.wf(),
        ensures
            final(out)@ == old(out)@ + self.text(f, x),
    {
        let s: String = (self.show)(f, x);
        assert(call_ensures(self.show, (f, x), s));
        extend_str(out, s.as_str());
    }
}

/// 5.1
pub const MAR_BOTTOM_BITS: u64 = 0x4014_6666_6666_6666;

/// 4.1
pub const MAR_SIDE_BITS: u64 = 0x4010_6666_6666_6666;

/// 2.1
pub const MAR_RIGHT_BITS: u64 = 0x4000_cccc_cccc_cccd;

/// 1.2
pub const CEX_MAIN_BITS: u64 = 0x3ff3_3333_3333_3333;

/// 600
pub const WIDTH_BITS: u64 = 0x4082_c000_0000_0000;

/// 400
pub const HEIGHT_BITS: u64 = 0x4079_0000_0000_0000;

/// The drawing parameters.
#[derive(Debug)]
pub struct PlotParams {
    /// A grid of panels filled row by row; it goes before `mfcol`.
    pub mfrow: Option<(u32, u32)>,
    /// A grid of panels filled column by column.
    pub mfcol: Option<(u32, u32)>,
    /// Inner margins in lines: bottom, left, top, right.
    pub mar: [Real; 4],
    /// Outer margins.
    pub oma: [Real; 4],
    pub cex: Real,
    pub cex_axis: Real,
    pub cex_lab: Real,
    pub cex_main: Real,
    pub col: String,
    pub bg: String,
    pub fg: String,
    pub lty: String,
    pub lwd: Real,
    pub pch: i32,
    pub las: i32,
    /// The next plot goes over the current panel instead of the next one.
    pub new: bool,
}

impl PlotParams {
    /// The parameters that hold where none was set.
    pub open spec fn is_default(&self) -> bool {
        &&& self.mfrow is None
        &&& self.mfcol is None
        &&& self.mar@ == seq![num(MAR_BOTTOM_BITS), num(MAR_SIDE_BITS), num(MAR_SIDE_BITS), num(MAR_RIGHT_BITS)]
        &&& self.oma@ == seq![zero(), zero(), zero(), zero()]
        &&& self.cex == one()
        &&& self.cex_axis == one()
        &&& self.cex_lab == one()
        &&& self.cex_main == num(CEX_MAIN_BITS)
        &&& self.col@ == "black"@
        &&& self.bg@ == "white"@
        &&& self.fg@ == "black"@
        &&& self.lty@ == "solid"@
        &&& self.lwd == one()
        &&& self.pch == 1
        &&& self.las == 0
        &&& !self.new
    }
}

impl Default for PlotParams {
    fn default() -> (r: PlotParams)
        ensures
            r.is_default(),
    {
        let unit = Real { bits: ONE_BITS };
        let none = Real { bits: 0 };
        let r = PlotParams {
            mfrow: None,
            mfcol: None,
            mar: [
                Real { bits: MAR_BOTTOM_BITS },
                Real { bits: MAR_SIDE_BITS },
                Real { bits: MAR_SIDE_BITS },
                Real { bits: MAR_RIGHT_BITS },
            ],
            oma: [none, none, none, none],
            cex: unit,
            cex_axis: unit,
            cex_lab: unit,
            cex_main: Real { bits: CEX_MAIN_BITS },
            col: owned("black"),
            bg: owned("white"),
            fg: owned("black"),
            lty: owned("solid"),
            lwd: unit,
            pch: 1,
            las: 0,
            new: false,
        };
        proof {
            assert(r.mar@ =~= seq![num(MAR_BOTTOM_BITS), num(MAR_SIDE_BITS), num(MAR_SIDE_BITS), num(MAR_RIGHT_BITS)]);
            assert(r.oma@ =~= seq![zero(), zero(), zero(), zero()]);
        }
        r
    }
}

/// A rectangle of the canvas: its left upper corner, its width and its height.
#[derive(Clone, Copy, PartialEq, Eq, Structural, Debug)]
pub struct Panel {
    pub x: Real,
    pub y: Real,
    pub w: Real,
    pub h: Real,
}

/// The canvas in memory: what was drawn on it so far, and which panel of the
/// grid comes next.
#[derive(Debug)]
pub struct PlotDevice {
    pub svg_body: String,
    pub has_plot: bool,
    pub width: Real,
    pub height: Real,
    pub params: PlotParams,
    pub panel_cursor: u32,
}

impl PlotDevice {
    pub open spec fn is_default(&self) -> bool {
        &&& self.svg_body@ == Seq::<char>::empty()
        &&& !self.has_plot
        &&& self.width == num(WIDTH_BITS)
        &&& self.height == num(HEIGHT_BITS)
        &&& self.params.is_default()
        &&& self.panel_cursor == 0
    }

    /// The grid of panels: rows, columns, and whether it is filled column by
    /// column.
    pub open spec fn layout(&self) -> Option<(nat, nat, bool)> {
        match self.params.mfrow {
            Some((r, c)) => Some((r as nat, c as nat, false)),
            None => match self.params.mfcol {
                Some((r, c)) => Some((r as nat, c as nat, true)),
                None => None,
            },
        }
    }

    /// The number of panels, at least one.
    pub open spec fn panels(&self) -> nat {
        match self.layout() {
            Some((r, c, _)) => if r * c > 1 {
                r * c
            } else {
                1
            },
            None => 1,
        }
    }

    /// The grid has the side that panels are counted off by.
    pub open spec fn gridded(&self) -> bool {
        match self.layout() {
            Some((r, c, by_column)) => if by_column {
                r > 0
            } else {
                c > 0
            },
            None => true,
        }
    }

    /// Row and column of panel `i`.
    pub open spec fn place(&self, i: nat) -> (nat, nat) {
        match self.layout() {
            Some((r, c, by_column)) => if by_column {
                (i % r, i / r)
            } else {
                (i / c, i % c)
            },
            None => (0, 0),
        }
    }

    /// The rectangle of panel `i`; the whole canvas where there is no grid.
    pub open spec fn panel<F: Fn(FloatOp, Real, Real, Real) -> Real>(&self, fpu: &Fpu<F>, i: nat) -> Panel {
        match self.layout() {
            Some((r, c, _)) => {
                let (row, col) = self.place(i);
                let pw = fpu.over(self.width, rounded(c));
                let ph = fpu.over(self.height, rounded(r));
                Panel { x: fpu.times(rounded(col), pw), y: fpu.times(rounded(row), ph), w: pw, h: ph }
            },
            None => Panel { x: zero(), y: zero(), w: self.width, h: self.height },
        }
    }

    /// The panel that comes next.
    pub open spec fn upcoming(&self) -> nat {
        self.panel_cursor as nat % self.panels()
    }

    /// The panel that was drawn last.
    pub open spec fn current(&self) -> nat {
        ((self.upcoming() + self.panels() - 1) % (self.panels() as int)) as nat
    }

    /// The grid fits the counter of panels.
    pub open spec fn countable(&self) -> bool {
        self.gridded() && self.panels() <= u32::MAX
    }

    /// All but the counter is as in `o`.
    pub open spec fn same_but_cursor(&self, o: &PlotDevice) -> bool {
        &&& self.svg_body == o.svg_body
        &&& self.has_plot == o.has_plot
        &&& self.width == o.width
        &&& self.height == o.height
        &&& self.params == o.params
    }

    fn panel_at<F: Fn(FloatOp, Real, Real, Real) -> Real>(&self, fpu: &Fpu<F>, i: u64) -> (r: Panel)
        requires
            fpu.wf(),
            self.gridded(),
        ensures
            r == self.panel(fpu, i as nat),
    {
        let (rows, cols, by_column): (u32, u32, bool) = match self.params.mfrow {
            Some((r, c)) => (r, c, false),
            None => match self.params.mfcol {
                Some((r, c)) => (r, c, true),
                None => {
                    return Panel { x: Real { bits: 0 }, y: Real { bits: 0 }, w: self.width, h: self.height };
                },
            },
        };
        let (row, col): (u64, u64) = if by_column {
            (i % rows as u64, i / rows as u64)
        } else {
            (i / cols as u64, i % cols as u64)
        };
        let pw: Real = fpu.quot(self.width, Real::from_u64(cols as u64));
        let ph: Real = fpu.quot(self.height, Real::from_u64(rows as u64));
        Panel { x: fpu.prod(Real::from_u64(col), pw), y: fpu.prod(Real::from_u64(row), ph), w: pw, h: ph }
    }

    fn panel_count(&self) -> (r: u64)
        ensures
            r == self.panels(),
            r >= 1,
    {
        let (rows, cols): (u32, u32) = match self.params.mfrow {
            Some(p) => p,
            None => match self.params.mfcol {
                Some(p) => p,
                None => {
                    return 1;
                },
            },
        };
        proof {
            assert(rows * cols <= u32::MAX * u32::MAX) by (nonlinear_arith)
                requires
                    rows <= u32::MAX,
                    cols <= u32::MAX,
            ;
        }
        let n: u64 = rows as u64 * cols as u64;
        assert(self.layout() == Some((rows as nat, cols as nat, self.params.mfrow is None)));
        assert(n == rows as nat * cols as nat);
        if n > 1 {
            n
        } else {
            1
        }
    }

    /// The rectangle of the panel that comes next; the counter moves on and
    /// starts again after the last panel.
    pub fn next_panel_rect<F: Fn(FloatOp, Real, Real, Real) -> Real>(&mut self, fpu: &Fpu<F>) -> (r: Panel)
        requires
            fpu.wf(),
            old(self).countable(),
        ensures
            r == old(self).panel(fpu, old(self).upcoming()),
            final(self).same_but_cursor(old(self)),
            final(self).panel_cursor as nat == if old(self).layout() is None {
                old(self).panel_cursor as nat
            } else {
                (old(self).upcoming() + 1) % old(self).panels()
            },
    {
        let total: u64 = self.panel_count();
        let at: u64 = self.panel_cursor as u64 % total;
        let r: Panel = self.panel_at(fpu, at);
        if self.params.mfrow.is_some() || self.params.mfcol.is_some() {
            let next: u64 = (at + 1) % total;
            self.panel_cursor = next as u32;
        }
        r
    }

    /// The whole document.
    pub open spec fn document<S: Fn(Style, Real) -> String>(&self, figures: &Figures<S>) -> Seq<char> {
        let w = figures.plain(self.width);
        let h = figures.plain(self.height);
        Seq::<char>::empty() + "<svg xmlns=\"http://www.w3.org/2000/svg\" width=\""@ + w + "\" height=\""@ + h
            + "\" viewBox=\"0 0 "@ + w + " "@ + h + "\">"@ + "<rect width=\"100%\" height=\"100%\" fill=\""@
            + self.params.bg@ + "\"/>"@ + self.svg_body@ + "</svg>"@
    }

    /// The whole document.
    pub fn full_svg<S: Fn(Style, Real) -> String>(&self, figures: &Figures<S>) -> (r: String)
        requires
            figures.wf(),
        ensures
            r@ == self.document(figures),
    {
        let mut out: Vec<char> = Vec::new();
        extend_str(&mut out, "<svg xmlns=\"http://www.w3.org/2000/svg\" width=\"");
        figures.put(&mut out, Style::Shortest, self.width);
        extend_str(&mut out, "\" height=\"");
        figures.put(&mut out, Style::Shortest, self.height);
        extend_str(&mut out, "\" viewBox=\"0 0 ");
        figures.put(&mut out, Style::Shortest, self.width);
        extend_str(&mut out, " ");
        figures.put(&mut out, Style::Shortest, self.height);
        extend_str(&mut out, "\">");
        extend_str(&mut out, "<rect width=\"100%\" height=\"100%\" fill=\"");
        extend_str(&mut out, self.params.bg.as_str());
        extend_str(&mut out, "\"/>");
        extend_str(&mut out, self.svg_body.as_str());
        extend_str(&mut out, "</svg>");
        string_of(&out)
    }
}

impl Default for PlotDevice {
    fn default() -> (r: PlotDevice)
        ensures
            r.is_default(),
    {
        let r = PlotDevice {
            svg_body: String::new(),
            has_plot: false,
            width: Real { bits: WIDTH_BITS },
            height: Real { bits: HEIGHT_BITS },
            params: Default::default(),
            panel_cursor: 0,
        };
        assert(r.svg_body@ =~= Seq::<char>::empty());
        r
    }
}

/// Whether a plot was begun on the device.
pub fn current_has_plot(dev: &PlotDevice) -> (r: bool)
    ensures
        r == dev.has_plot,
{
    dev.has_plot
}

/// The next plot goes over the panel drawn last.
pub open spec fn overlaid(dev: &PlotDevice) -> bool {
    dev.params.new && dev.has_plot
}

/// A new plot starts on an empty canvas: always without a grid, and at the
/// first panel of one.
pub open spec fn wipes(dev: &PlotDevice) -> bool {
    !overlaid(dev) && (dev.layout() is None || dev.panel_cursor == 0)
}

/// What a device is after a plot was begun on it.
pub open spec fn begun(old: &PlotDevice, new: &PlotDevice) -> bool {
    &&& new.has_plot
    &&& new.width == old.width
    &&& new.height == old.height
    &&& new.svg_body@ == if wipes(old) {
        Seq::<char>::empty()
    } else {
        old.svg_body@
    }
    &&& new.params == (PlotParams { new: false, ..old.params })
    &&& new.panel_cursor as nat == if overlaid(old) {
        old.panel_cursor as nat
    } else if old.layout() is None {
        old.panel_cursor as nat
    } else {
        (old.upcoming() + 1) % old.panels()
    }
}

/// Begins a plot: the rectangle to draw into.
pub fn begin_plot<F: Fn(FloatOp, Real, Real, Real) -> Real>(fpu: &Fpu<F>, dev: &mut PlotDevice) -> (r: Panel)
    requires
        fpu.wf(),
        old(dev).countable(),
    ensures
        r == if overlaid(old(dev)) {
            old(dev).panel(fpu, old(dev).current())
        } else {
            old(dev).panel(fpu, old(dev).upcoming())
        },
        begun(old(dev), final(dev)),
{
    let total: u64 = dev.panel_count();
    let over: bool = dev.params.new && dev.has_plot;
    dev.has_plot = true;
    dev.params.new = false;
    if over {
        let at: u64 = (dev.panel_cursor as u64 % total + total - 1) % total;
        return dev.panel_at(fpu, at);
    }
    let gridless: bool = dev.params.mfrow.is_none() && dev.params.mfcol.is_none();
    if gridless || dev.panel_cursor == 0 {
        dev.svg_body = String::new();
        assert(dev.svg_body@ =~= Seq::<char>::empty());
    }
    dev.next_panel_rect(fpu)
}

/// What a device is after a drawing was appended to it: as it was where no plot
/// was begun.
pub open spec fn appended(old: &PlotDevice, new: &PlotDevice, fragment: Seq<char>) -> bool {
    if old.has_plot {
        &&& new.svg_body@ == old.svg_body@ + fragment
        &&& new.has_plot
        &&& new.width == old.width
        &&& new.height == old.height
        &&& new.params == old.params
        &&& new.panel_cursor == old.panel_cursor
    } else {
        *new == *old
    }
}

/// Appends a drawing to the device; an error where no plot was begun.
pub fn append_svg(dev: &mut PlotDevice, fragment: &str) -> (r: Result<(), R2Err>)
    ensures
        if old(dev).has_plot {
            r is Ok
        } else {
            no_plot(r)
        },
        appended(old(dev), final(dev), fragment@),
{
    if !dev.has_plot {
        return Err(fail(ErrKind::Runtime, "no plot open — call plot() first"));
    }
    draw(dev, fragment);
    Ok(())
}

/// The error where no plot was begun.
pub open spec fn no_plot<T>(r: Result<T, R2Err>) -> bool {
    r is Err && r->Err_0.kind == ErrKind::Runtime && r->Err_0.msg@ == "no plot open — call plot() first"@
}

/// Appends a drawing to the device.
pub fn draw(dev: &mut PlotDevice, fragment: &str)
    ensures
        final(dev).svg_body@ == old(dev).svg_body@ + fragment@,
        final(dev).has_plot == old(dev).has_plot,
        final(dev).width == old(dev).width,
        final(dev).height == old(dev).height,
        final(dev).params == old(dev).params,
        final(dev).panel_cursor == old(dev).panel_cursor,
{
    let mut body: Vec<char> = chars_of(dev.svg_body.as_str());
    extend_str(&mut body, fragment);
    dev.svg_body = string_of(&body);
}

/// Closes the device and starts with a fresh one.
pub fn dev_off(dev: &mut PlotDevice)
    ensures
        final(dev).is_default(),
{
    *dev = Default::default();
}

/// What is done with a device.
pub enum Act {
    Begin,
    Append(Seq<char>),
    Save,
    Close,
}

/// How one act changes a device.
pub open spec fn acted(old: &PlotDevice, new: &PlotDevice, act: Act) -> bool {
    match act {
        Act::Begin => begun(old, new),
        Act::Append(fragment) => appended(old, new, fragment),
        Act::Save => *new == *old,
        Act::Close => new.is_default(),
    }
}

/// The states of a device from its start on, one more than there were acts.
pub open spec fn history(states: Seq<PlotDevice>, acts: Seq<Act>) -> bool {
    &&& states.len() == acts.len() + 1
    &&& states[0].is_default()
    &&& forall|i: int| #![trigger acts[i]] 0 <= i < acts.len() ==> acted(&states[i], &states[i + 1], acts[i])
}

/// A plot was begun since the device was last closed, or since its start.
pub open spec fn opened(acts: Seq<Act>) -> bool {
    exists|i: int| 0 <= i < acts.len() && (#[trigger] acts[i]) is Begin && forall|j: int|
        i < j < acts.len() ==> (#[trigger] acts[j]) !is Close
}

/// A plot is open on a device just when one was begun since it was last closed;
/// drawing and saving do not change that.
pub proof fn law_open_since_begun(states: Seq<PlotDevice>, acts: Seq<Act>)
    requires
        history(states, acts),
    ensures
        states.last().has_plot == opened(acts),
    decreases acts.len(),
{
    if acts.len() > 0 {
        let n = acts.len() - 1;
        let fewer = acts.drop_last();
        let before = states.drop_last();
        assert forall|i: int| #![trigger fewer[i]] 0 <= i < fewer.len() implies acted(&before[i], &before[i + 1], fewer[i]) by {
            assert(acts[i] == fewer[i]);
        }
        law_open_since_begun(before, fewer);
        let act = acts[n];
        assert(acted(&states[n], &states[n + 1], act));
        assert(before.last() == states[n]);
        if opened(fewer) && act !is Close {
            let i = choose|i: int| 0 <= i < fewer.len() && (#[trigger] fewer[i]) is Begin && forall|j: int|
                i < j < fewer.len() ==> (#[trigger] fewer[j]) !is Close;
            assert(acts[i] is Begin);
            assert forall|j: int| i < j < acts.len() implies (#[trigger] acts[j]) !is Close by {
                if j < n {
                    assert(fewer[j] == acts[j]);
                }
            }
        }
        if opened(acts) {
            let i = choose|i: int| 0 <= i < acts.len() && (#[trigger] acts[i]) is Begin && forall|j: int|
                i < j < acts.len() ==> (#[trigger] acts[j]) !is Close;
            if i < n {
                assert(fewer[i] is Begin);
                assert forall|j: int| i < j < fewer.len() implies (#[trigger] fewer[j]) !is Close by {
                    assert(acts[j] == fewer[j]);
                }
            }
        }
    }
}

/// The counter after `n` plots on a fresh grid.
pub open spec fn counter_after(total: nat, n: nat) -> nat
    decreases n,
{
    if n == 0 {
        0
    } else {
        (counter_after(total, (n - 1) as nat) % total + 1) % total
    }
}

/// Plot number `n` on a fresh grid goes to panel `n` counted around, so the
/// grid is filled in order and then again from the start.
pub proof fn law_panels_in_turn(total: nat, n: nat)
    requires
        total > 0,
    ensures
        counter_after(total, n) % total == n % total,
    decreases n,
{
    if n > 0 {
        law_panels_in_turn(total, (n - 1) as nat);
        let t = total as int;
        vstd::arithmetic::div_mod::lemma_add_mod_noop((n - 1) as int, 1, t);
        vstd::arithmetic::div_mod::lemma_add_mod_noop(counter_after(total, (n - 1) as nat) as int, 1, t);
        vstd::arithmetic::div_mod::lemma_mod_twice(counter_after(total, (n - 1) as nat) as int, t);
        vstd::arithmetic::div_mod::lemma_mod_twice((n - 1) % t + 1, t);
        let c = counter_after(total, (n - 1) as nat) as int;
        vstd::arithmetic::div_mod::lemma_mod_twice(c % t + 1, t);
        vstd::arithmetic::div_mod::lemma_add_mod_noop(c % t, 1, t);
        vstd::arithmetic::div_mod::lemma_add_mod_noop((n - 1) % t, 1, t);
    }
}

} // verus!
