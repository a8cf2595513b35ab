use ardon_r2::device::{
    Figures, PlotDevice, Style, append_svg, begin_plot, current_has_plot, dev_off, draw,
};
use ardon_r2::double::{FloatOp, Fpu, Real};
use ardon_r2::overlays::{bi_abline, bi_legend, bi_lines, bi_points};
use ardon_r2::plots::{bi_barplot, bi_boxplot, bi_hist, bi_plot, saved_line};
use ardon_r2::stats_design::Printer;
use ardon_r2::value::{Attrs, EvalArg, RVal};

fn dbl(x: f64) -> Real {
    Real { bits: x.to_bits() }
}

fn float(x: Real) -> f64 {
    f64::from_bits(x.bits)
}

fn eval(op: FloatOp, a: Real, b: Real, c: Real) -> Real {
    let (x, y, z) = (float(a), float(b), float(c));
    dbl(match op {
        FloatOp::Plus => x + y,
        FloatOp::Minus => x - y,
        FloatOp::Times => x * y,
        FloatOp::Over => x / y,
        FloatOp::Power => x.powf(y),
        FloatOp::Modulo => x.rem_euclid(y),
        FloatOp::MulAdd => x.mul_add(y, z),
        FloatOp::Sqrt => x.sqrt(),
        FloatOp::Exp => x.exp(),
        FloatOp::Ln => x.ln(),
        FloatOp::Log2 => x.log2(),
        FloatOp::Log10 => x.log10(),
        FloatOp::Sin => x.sin(),
        FloatOp::Cos => x.cos(),
        FloatOp::Tan => x.tan(),
        FloatOp::Asin => x.asin(),
        FloatOp::Acos => x.acos(),
        FloatOp::Atan => x.atan(),
        FloatOp::Sinh => x.sinh(),
        FloatOp::Cosh => x.cosh(),
        FloatOp::Tanh => x.tanh(),
        FloatOp::Trunc => x.trunc(),
        FloatOp::Expm1 => x.exp_m1(),
        FloatOp::Log1p => x.ln_1p(),
    })
}

fn show(x: Real) -> String {
    format!("{}", float(x))
}

fn figure(style: Style, x: Real) -> String {
    match style {
        Style::Shortest => format!("{}", float(x)),
        Style::Places(n) => format!("{:.*}", n as usize, float(x)),
    }
}

fn nums(v: &[f64]) -> RVal {
    RVal::Numeric(v.iter().map(|x| Some(dbl(*x))).collect(), Attrs { names: None })
}

fn strs(v: &[&str]) -> RVal {
    RVal::Character(v.iter().map(|x| Some(x.to_string())).collect(), Attrs { names: None })
}

fn evarg(v: RVal) -> EvalArg {
    EvalArg { name: None, value: v }
}

fn named(n: &str, v: RVal) -> EvalArg {
    EvalArg { name: Some(n.to_string()), value: v }
}

fn fpu() -> Fpu<fn(FloatOp, Real, Real, Real) -> Real> {
    Fpu { eval: eval }
}

fn printer() -> Printer<fn(Real) -> String> {
    Printer { show: show }
}

fn figures() -> Figures<fn(Style, Real) -> String> {
    Figures { show: figure }
}

#[test]
fn fresh_device_has_no_plot() {
    let mut dev = PlotDevice::default();
    dev_off(&mut dev);
    assert!(!current_has_plot(&dev));
}

#[test]
fn begin_plot_sets_has_plot_true_and_returns_full_canvas_by_default() {
    let mut dev = PlotDevice::default();
    let p = begin_plot(&fpu(), &mut dev);
    assert!(current_has_plot(&dev));
    assert_eq!((float(p.x), float(p.y)), (0.0, 0.0));
    assert!(float(p.w) > 0.0 && float(p.h) > 0.0);
    assert_eq!((float(p.w), float(p.h)), (600.0, 400.0));
}

#[test]
fn append_errors_when_no_plot_open() {
    let mut dev = PlotDevice::default();
    let r = append_svg(&mut dev, "<circle cx=\"1\" cy=\"2\" r=\"3\"/>");
    assert!(r.is_err());
}

#[test]
fn mfrow_2x2_advances_through_four_panels_then_wraps() {
    let mut dev = PlotDevice::default();
    dev.params.mfrow = Some((2, 2));
    let at: Vec<(f64, f64)> = (0..5)
        .map(|_| {
            let p = begin_plot(&fpu(), &mut dev);
            (float(p.x), float(p.y))
        })
        .collect();
    assert_eq!(at[0], (0.0, 0.0));
    assert_eq!(at[1], (300.0, 0.0));
    assert_eq!(at[2], (0.0, 200.0));
    assert_eq!(at[3], (300.0, 200.0));
    assert_eq!(at[4], (0.0, 0.0));
    dev_off(&mut dev);
}

#[test]
fn mfcol_fills_columns_first() {
    let mut dev = PlotDevice::default();
    dev.params.mfcol = Some((2, 2));
    let at: Vec<(f64, f64)> = (0..3)
        .map(|_| {
            let p = begin_plot(&fpu(), &mut dev);
            (float(p.x), float(p.y))
        })
        .collect();
    assert_eq!(at, vec![(0.0, 0.0), (0.0, 200.0), (300.0, 0.0)]);
}

#[test]
fn a_plot_over_the_current_panel_keeps_it() {
    let mut dev = PlotDevice::default();
    dev.params.mfrow = Some((1, 2));
    begin_plot(&fpu(), &mut dev);
    let a = begin_plot(&fpu(), &mut dev);
    dev.params.new = true;
    let b = begin_plot(&fpu(), &mut dev);
    assert_eq!((float(a.x), float(a.y)), (float(b.x), float(b.y)));
    assert!(!dev.params.new);
}

#[test]
fn fragments_appear_in_the_document() {
    let mut dev = PlotDevice::default();
    begin_plot(&fpu(), &mut dev);
    append_svg(&mut dev, "<a/>").unwrap();
    draw(&mut dev, "<b/>");
    let doc = dev.full_svg(&figures());
    assert!(doc.starts_with("<svg"));
    assert!(doc.contains("<a/><b/>"));
    assert!(doc.trim_end().ends_with("</svg>"));
    assert!(doc.contains("600") && doc.contains("400"));
    dev_off(&mut dev);
    assert!(!dev.full_svg(&figures()).contains("<a/>"));
}

#[test]
fn plot_writes_svg() {
    let mut dev = PlotDevice::default();
    let a = vec![evarg(nums(&[1.0, 2.0, 3.0])), evarg(nums(&[4.0, 5.0, 6.0]))];
    let r = bi_plot(&fpu(), &printer(), &figures(), &mut dev, &a).unwrap();
    match r {
        RVal::Character(v, _) => assert_eq!(v[0].as_deref(), Some("plot.svg")),
        _ => panic!("plot must return path"),
    }
    assert_eq!(dev.svg_body.matches("<circle").count(), 3);
    assert!(dev.svg_body.contains(
        "<rect x=\"60\" y=\"30\" width=\"520\" height=\"330\" fill=\"none\" stroke=\"black\" stroke-width=\"1\"/>"
    ));
    assert!(dev.svg_body.contains("<circle cx=\"60.0\" cy=\"360.0\" r=\"3\""));
    assert!(dev.svg_body.contains("<circle cx=\"580.0\" cy=\"30.0\" r=\"3\""));
}

#[test]
fn hist_returns_null_and_writes() {
    let mut dev = PlotDevice::default();
    let a = vec![evarg(nums(&[1.0, 2.0, 3.0, 4.0, 5.0, 6.0, 7.0, 8.0, 9.0, 10.0]))];
    let (r, lines) = bi_hist(&fpu(), &printer(), &figures(), &mut dev, &a).unwrap();
    assert!(matches!(r, RVal::Null));
    assert_eq!(lines.len(), 10);
    assert_eq!(lines.iter().map(|l| l.count).sum::<u64>(), 10);
    assert_eq!(float(lines[0].lo), 1.0);
    let zero = EvalArg { name: Some("breaks".to_string()), value: nums(&[0.0]) };
    let (_, lines) = bi_hist(&fpu(), &printer(), &figures(), &mut dev, &[evarg(nums(&[])), zero]).unwrap();
    assert!(lines.is_empty());
}

#[test]
fn boxplot_errors_with_no_groups() {
    let mut dev = PlotDevice::default();
    let r = bi_boxplot(&fpu(), &printer(), &figures(), &mut dev, &[]);
    assert!(r.is_err());
}

#[test]
fn boxplot_draws_each_group() {
    let mut dev = PlotDevice::default();
    let a = vec![evarg(nums(&[1.0, 2.0, 3.0, 4.0, 5.0])), evarg(nums(&[2.0, 4.0, 6.0]))];
    assert!(bi_boxplot(&fpu(), &printer(), &figures(), &mut dev, &a).is_ok());
    assert!(dev.svg_body.matches("<rect").count() >= 2);
}

#[test]
fn barplot_returns_null() {
    let mut dev = PlotDevice::default();
    let a = vec![evarg(nums(&[3.0, 1.0, 4.0, 1.0, 5.0]))];
    let r = bi_barplot(&fpu(), &printer(), &figures(), &mut dev, &a).unwrap();
    assert!(matches!(r, RVal::Null));
    assert!(dev.svg_body.matches("<rect").count() >= 5);
}

#[test]
fn lines_errs_when_no_plot_open() {
    let a = vec![evarg(nums(&[1.0])), evarg(nums(&[2.0]))];
    let r = bi_lines(&fpu(), &printer(), &figures(), "", &a);
    assert!(r.is_err());
    let a = vec![evarg(nums(&[1.0, 2.0, 3.0])), evarg(nums(&[2.0]))];
    assert!(bi_lines(&fpu(), &printer(), &figures(), "", &a).is_err());
}

#[test]
fn lines_join_the_points() {
    let a = vec![evarg(nums(&[1.0, 2.0])), evarg(nums(&[3.0, 4.0]))];
    let doc = bi_lines(&fpu(), &printer(), &figures(), "<svg></svg>", &a).unwrap();
    assert_eq!(
        doc,
        "<svg><line x1=\"70.0\" y1=\"340.0\" x2=\"80.0\" y2=\"330.0\" stroke=\"red\" stroke-width=\"2\"/></svg>"
    );
}

#[test]
fn points_take_a_marker() {
    let at = || vec![evarg(nums(&[1.0])), evarg(nums(&[3.0]))];
    let doc = bi_points(&fpu(), &printer(), &figures(), "<svg></svg>", &at()).unwrap();
    assert_eq!(doc, "<svg><circle cx=\"70\" cy=\"340\" r=\"3\" fill=\"red\"/></svg>");
    let mut a = at();
    a.push(named("pch", nums(&[0.0])));
    a.push(named("col", strs(&["blue"])));
    let doc = bi_points(&fpu(), &printer(), &figures(), "<svg></svg>", &a).unwrap();
    assert_eq!(
        doc,
        "<svg><rect x=\"67\" y=\"337\" width=\"6\" height=\"6\" fill=\"none\" stroke=\"blue\"/></svg>"
    );
    let mut a = at();
    a.push(named("pch", nums(&[2.0])));
    let doc = bi_points(&fpu(), &printer(), &figures(), "<svg></svg>", &a).unwrap();
    assert_eq!(doc, "<svg><polygon points=\"70,336 66,343 74,343\" fill=\"none\" stroke=\"red\"/></svg>");
}

#[test]
fn straight_lines_cross_the_canvas() {
    let a = vec![named("h", nums(&[5.0]))];
    let doc = bi_abline(&fpu(), &printer(), &figures(), "<svg></svg>", &a).unwrap();
    assert_eq!(doc, "<svg><line x1=\"60\" y1=\"320\" x2=\"580\" y2=\"320\" stroke=\"red\"/></svg>");
    let a = vec![named("v", nums(&[2.0])), named("lty", nums(&[2.0]))];
    let doc = bi_abline(&fpu(), &printer(), &figures(), "<svg></svg>", &a).unwrap();
    assert_eq!(
        doc,
        "<svg><line x1=\"80\" y1=\"30\" x2=\"80\" y2=\"370\" stroke=\"red\" stroke-dasharray=\"5,5\"/></svg>"
    );
    let a = vec![evarg(nums(&[1.0])), evarg(nums(&[0.5]))];
    let doc = bi_abline(&fpu(), &printer(), &figures(), "<svg></svg>", &a).unwrap();
    assert_eq!(
        doc,
        "<svg><line x1=\"60\" y1=\"360\" x2=\"560\" y2=\"110\" stroke=\"red\" stroke-width=\"2\"/></svg>"
    );
    assert!(bi_abline(&fpu(), &printer(), &figures(), "", &a).is_err());
}

#[test]
fn legends_list_their_labels() {
    let a = vec![evarg(strs(&["topleft"])), named("legend", strs(&["a", "b"]))];
    let doc = bi_legend(&fpu(), &printer(), &figures(), "<svg></svg>", &a).unwrap();
    assert_eq!(
        doc,
        "<svg><rect x=\"65\" y=\"30\" width=\"140\" height=\"50\" fill=\"white\" stroke=\"black\" \
         stroke-width=\"0.5\"/><rect x=\"70\" y=\"36\" width=\"12\" height=\"12\" fill=\"black\"/><text x=\"88\" y=\"45\" \
         font-size=\"11\">a</text><rect x=\"70\" y=\"56\" width=\"12\" height=\"12\" fill=\"red\"/><text x=\"88\" y=\"65\" \
         font-size=\"11\">b</text></svg>"
    );
}

#[test]
fn a_plot_is_open_once_begun_and_until_closed() {
    let mut dev = PlotDevice::default();
    assert!(append_svg(&mut dev, "<a/>").is_err());
    assert!(!current_has_plot(&dev));
    begin_plot(&fpu(), &mut dev);
    assert!(append_svg(&mut dev, "<a/>").is_ok());
    begin_plot(&fpu(), &mut dev);
    draw(&mut dev, "<b/>");
    assert!(current_has_plot(&dev));
    dev_off(&mut dev);
    draw(&mut dev, "<b/>");
    assert!(!current_has_plot(&dev));
    assert!(append_svg(&mut dev, "<a/>").is_err());
    begin_plot(&fpu(), &mut dev);
    assert!(current_has_plot(&dev));
}

#[test]
fn where_a_plot_was_saved() {
    assert_eq!(saved_line(Some("/home/a/plot.svg"), "plot.svg"), "Plot saved to /home/a/plot.svg");
    assert_eq!(saved_line(Some("\\\\?\\C:\\a\\plot.svg"), "plot.svg"), "Plot saved to C:\\a\\plot.svg");
    assert_eq!(saved_line(None, "hist.svg"), "Plot saved to hist.svg");
}
