use ardon_r2::text::char_is_space;
use ardon_r2::line_editor::{KeyStep, LineEditor};
use ardon_r2::repl::{LineAction, Prompt, Statement, Verdict, incomplete, is_silent, script_argument, should_print};

fn words(v: &[&str]) -> Vec<String> {
    v.iter().map(|s| s.to_string()).collect()
}

fn type_in(e: &mut LineEditor, s: &str, history: &Vec<String>) {
    for c in s.chars() {
        e.key(c as i32, history);
    }
}

#[test]
fn open_brackets_wait_for_more() {
    assert!(incomplete("f <- function(x) {\n"));
    assert!(incomplete("c(1, 2"));
    assert!(incomplete("x[1"));
    assert!(!incomplete("x <- \"(((\""));
    assert!(!incomplete("x # ("));
    assert!(!incomplete("f(1)[2]"));
    assert!(!incomplete(")"));
}

#[test]
fn a_statement_over_several_lines() {
    let mut p = Prompt::new();
    assert_eq!(p.lead(), "R2> ");
    assert_eq!(p.entered("f <- function(x) {"), LineAction::Parse);
    assert!(matches!(p.parse_failed(), Verdict::Wait));
    assert_eq!(p.lead(), "R2+ ");
    assert_eq!(p.entered("q()"), LineAction::Parse);
    assert_eq!(p.entered("}"), LineAction::Parse);
    assert_eq!(p.buffer, "f <- function(x) {\nq()\n}\n");
    p.evaluated();
    assert_eq!(p.buffer, "");
    assert_eq!(p.lead(), "R2> ");
    assert_eq!(p.entered("  quit()  "), LineAction::Quit);
}

#[test]
fn errors_are_reported_with_their_code() {
    let mut p = Prompt::new();
    p.entered("1 +* 2");
    match p.parse_failed() {
        Verdict::Report(code) => assert_eq!(code, "1 +* 2\n"),
        Verdict::Wait => panic!("complete"),
    }
    assert_eq!(p.buffer, "");
}

#[test]
fn help_has_a_shorthand() {
    let mut p = Prompt::new();
    p.entered("?mean");
    assert_eq!(p.buffer, "help(\"mean\")\n");
    p.evaluated();
    p.entered("?? sort ");
    assert_eq!(p.buffer, "help(\"sort\")\n");
    p.evaluated();
    p.entered("?");
    assert_eq!(p.buffer, "?\n");
}

#[test]
fn the_history_does_not_repeat_itself() {
    let mut p = Prompt::new();
    for l in ["x", "x ", "", "y", "x"] {
        p.entered(l);
        p.evaluated();
    }
    assert_eq!(p.history, vec!["x", "y", "x"]);
}

#[test]
fn what_is_printed() {
    assert!(is_silent(&Statement::Assign));
    assert!(is_silent(&Statement::For));
    assert!(is_silent(&Statement::Call("print".to_string())));
    assert!(!is_silent(&Statement::Call("mean".to_string())));
    assert!(should_print(&Statement::Other, false));
    assert!(!should_print(&Statement::Other, true));
}

#[test]
fn the_command_line() {
    assert!(script_argument(&words(&["r2", "a.r2"])));
    assert!(!script_argument(&words(&["r2", "--version"])));
    assert!(!script_argument(&words(&["r2"])));
}

#[test]
fn typing_and_erasing() {
    let h = words(&[]);
    let mut e = LineEditor::new(&h);
    assert_eq!(e.key('a' as i32, &h), KeyStep::Echo('a'));
    type_in(&mut e, "bc", &h);
    assert_eq!(e.text(), "abc");
    assert_eq!(e.key(8, &h), KeyStep::Redraw);
    assert_eq!(e.text(), "ab");
    assert!(e.extended(75, &h));
    assert_eq!(e.key('x' as i32, &h), KeyStep::Redraw);
    assert_eq!(e.text(), "axb");
    assert!(e.extended(83, &h));
    assert_eq!(e.text(), "ax");
    assert!(e.extended(71, &h));
    assert_eq!(e.key(127, &h), KeyStep::Quiet);
    assert!(e.extended(79, &h));
    assert_eq!(e.key(13, &h), KeyStep::Done);
    assert_eq!(e.key(3, &h), KeyStep::Interrupted);
    assert_eq!(e.key(0, &h), KeyStep::Extended);
    assert_eq!(e.key(224, &h), KeyStep::Extended);
    assert_eq!(e.key(4, &h), KeyStep::Quiet);
    assert_eq!(LineEditor::new(&h).key(4, &h), KeyStep::End);
}

#[test]
fn going_back_keeps_the_line() {
    let h = words(&["one", "two"]);
    let mut e = LineEditor::new(&h);
    type_in(&mut e, "new", &h);
    assert!(e.extended(72, &h));
    assert_eq!(e.text(), "two");
    assert!(e.extended(72, &h));
    assert_eq!(e.text(), "one");
    assert!(!e.extended(72, &h));
    assert!(e.extended(80, &h));
    assert!(e.extended(80, &h));
    assert_eq!(e.text(), "new");
    assert!(!e.extended(80, &h));
}

#[test]
fn the_line_is_drawn_with_its_lead() {
    let h = words(&[]);
    let mut e = LineEditor::new(&h);
    type_in(&mut e, "abc", &h);
    let drawn = e.redraw_line("R2> ", &h);
    assert!(drawn.contains("R2> abc"));
    assert!(drawn.starts_with('\r'));
}

#[test]
fn white_space_is_that_of_unicode() {
    for u in 0..=0x10ffffu32 {
        if let Some(c) = char::from_u32(u) {
            assert_eq!(char_is_space(c), c.is_whitespace(), "{:x}", u);
        }
    }
}
