use ardon_r2::console::{Console, Line};
use ardon_r2::editor::Editor;
use ardon_r2::paths::{PathStyle, file_name_of};
use ardon_r2::icon::{icon_from, load_icon};
use ardon_r2::plotpane::{Drawing, PlotPane, candidates};
use ardon_r2::session::{
    Effect, MenuItem, Session, StepOutcome, label, menus, package_code, pick_user_home, png_code, svg_code,
};
use ardon_r2::settings::{ScaleText, Settings, settings_path};

fn read_scale(s: &str) -> Option<u32> {
    s.parse::<f32>().ok().map(|x| x.to_bits())
}

fn show_scale(x: u32) -> String {
    format!("{}", f32::from_bits(x))
}

fn scales() -> ScaleText<fn(&str) -> Option<u32>, fn(u32) -> String> {
    ScaleText { read: read_scale, show: show_scale }
}

fn text_of(l: &Line) -> String {
    match l {
        Line::Input(s) => format!("> {}", s),
        Line::Output(s) => s.clone(),
        Line::Error(s) => format!("! {}", s),
    }
}

fn shown(c: &Console) -> Vec<String> {
    c.transcript.iter().map(text_of).collect()
}

fn usual() -> Settings {
    Settings::load_or_default(&scales(), None)
}

fn text(s: &str) -> Option<String> {
    Some(s.to_string())
}

#[test]
fn the_console_keeps_what_was_said() {
    let mut c = Console::new();
    c.push_input("x <- 1\ny <- 2");
    c.push_output("[1] 1  \n");
    c.push_error("no such thing\n");
    let lines = shown(&c);
    assert!(lines[0].contains("x <- 1"));
    assert!(lines.iter().any(|l| l.contains("y <- 2")));
    assert!(lines.iter().any(|l| l == "[1] 1"));
    assert_eq!(lines.last().unwrap(), "! no such thing");
    c.clear();
    assert!(c.transcript.is_empty());
}

#[test]
fn the_editor_runs_the_last_line_that_is_not_blank() {
    let mut e = Editor::new();
    e.load_from("/home/a/s.r2".to_string(), "x <- 1\nplot(x)\n# done\n\n".to_string());
    assert_eq!(e.title(PathStyle::Unix), "s.r2");
    assert_eq!(e.current_line_or_selection_for_run(), "# done");
    e.run_line();
    assert_eq!(e.take_pending_run().as_deref(), Some("# done"));
    assert_eq!(e.take_pending_run(), None);
    e.run_all();
    assert_eq!(e.take_pending_run().as_deref(), Some("x <- 1\nplot(x)\n# done\n\n"));
    e.text = "x <- 1\n  plot(x)  \n \t\n".to_string();
    assert_eq!(e.current_line_or_selection_for_run(), "  plot(x)  ");
    e.edited();
    assert_eq!(e.title(PathStyle::Unix), "s.r2 \u{25cf}");
    e.save_to("/home/a/t.r2".to_string());
    assert_eq!(e.title(PathStyle::Unix), "t.r2");
    assert_eq!(e.line_count(), 3);
    e.text = " \n\n".to_string();
    assert_eq!(e.current_line_or_selection_for_run(), "");
}

#[test]
fn untitled_scripts() {
    let e = Editor::new();
    assert_eq!(e.title(PathStyle::Unix), "untitled.r2");
    assert!(e.text.starts_with("# Welcome to Ardon-R2."));
    assert_eq!(file_name_of(PathStyle::Unix, "/a/b.c").as_deref(), Some("b.c"));
    assert_eq!(file_name_of(PathStyle::Unix, "/"), None);
}

#[test]
fn titles_on_windows() {
    let mut e = Editor::new();
    e.load_from("C:\\dir\\a.r2".to_string(), String::new());
    assert_eq!(e.title(PathStyle::Windows), "a.r2");
    assert_eq!(e.title(PathStyle::Unix), "C:\\dir\\a.r2");
    let name = |p: &str| file_name_of(PathStyle::Windows, p);
    assert_eq!(name("C:/dir/a.r2").as_deref(), Some("a.r2"));
    assert_eq!(name("C:a.r2").as_deref(), Some("a.r2"));
    assert_eq!(name("dir\\.\\").as_deref(), Some("dir"));
    assert_eq!(name("C:\\"), None);
    assert_eq!(name("C:"), None);
    assert_eq!(name("a\\.."), None);
    assert_eq!(name("\\\\server\\share"), None);
    assert_eq!(name("\\\\server\\share\\a.r2").as_deref(), Some("a.r2"));
    assert_eq!(name("\\a.r2").as_deref(), Some("a.r2"));
}

#[test]
fn names_without_dots_at_the_end() {
    let name = |p: &str| file_name_of(PathStyle::Unix, p);
    assert_eq!(name("/a/b/./").as_deref(), Some("b"));
    assert_eq!(name("."), None);
    assert_eq!(name("/a/.."), None);
    assert_eq!(name("C:").as_deref(), Some("C:"));
}

#[test]
fn the_latest_drawing_is_shown() {
    assert_eq!(candidates(), vec!["plot.svg", "hist.svg", "boxplot.svg", "barplot.svg"]);
    let found = vec![
        Drawing { path: "plot.svg".to_string(), changed: 5 },
        Drawing { path: "hist.svg".to_string(), changed: 9 },
    ];
    let mut p = PlotPane::new();
    p.reload_if_changed(&found);
    assert_eq!(p.last_path.as_deref(), Some("hist.svg"));
    assert!(!p.drawn);
    p.redrawn();
    assert!(p.drawn);
    p.reload_if_changed(&found);
    assert!(p.drawn);
    p.force_reload(&found);
    assert!(!p.drawn);
}

#[test]
fn preferences_come_back() {
    let s = Settings { working_directory: text("/data/my files"), font_scale: 1.5f32.to_bits(), dark_mode: false };
    let kept = s.save(&scales());
    let back = Settings::load_or_default(&scales(), Some(&kept));
    assert_eq!(back.working_directory, s.working_directory);
    assert_eq!(back.font_scale, s.font_scale);
    assert_eq!(back.dark_mode, s.dark_mode);
}

#[test]
fn preferences_have_defaults() {
    let s = usual();
    assert_eq!(s.working_directory, None);
    assert_eq!(f32::from_bits(s.font_scale), 1.0);
    assert!(s.dark_mode);
    let s = Settings::load_or_default(&scales(), Some("# note\nfont_scale = huge\nunknown = 3\n"));
    assert_eq!(f32::from_bits(s.font_scale), 1.0);
}

#[test]
fn the_place_of_the_preferences() {
    assert_eq!(settings_path(PathStyle::Unix, None, None, text("/home/a")).as_deref(), Some("/home/a/.config/ardon-r2/settings.json"));
    assert_eq!(settings_path(PathStyle::Unix, None, text("/cfg"), text("/home/a")).as_deref(), Some("/cfg/ardon-r2/settings.json"));
    assert_eq!(settings_path(PathStyle::Windows, text("C:\\D"), None, None).as_deref(), Some("C:\\D\\Ardon-R2\\settings.json"));
    assert_eq!(settings_path(PathStyle::Windows, text("C:\\D\\"), None, None).as_deref(), Some("C:\\D\\Ardon-R2\\settings.json"));
    assert_eq!(settings_path(PathStyle::Windows, None, None, text("/home/a")), None);
}

#[test]
fn pictures_are_decoded() {
    let png: [u8; 72] = [
        137, 80, 78, 71, 13, 10, 26, 10, 0, 0, 0, 13, 73, 72, 68, 82, 0, 0, 0, 2, 0, 0, 0, 1, 8, 6, 0, 0, 0, 244, 34, 127,
        138, 0, 0, 0, 15, 73, 68, 65, 84, 120, 218, 99, 248, 207, 192, 240, 31, 8, 27, 0, 16, 121, 3, 126, 196, 24, 114,
        144, 0, 0, 0, 0, 73, 69, 78, 68, 174, 66, 96, 130,
    ];
    let icon = load_icon(&png);
    assert_eq!((icon.width, icon.height), (2, 1));
    assert_eq!(icon.rgba, vec![255, 0, 0, 255, 0, 255, 0, 128]);
    let none = load_icon(b"no picture");
    assert_eq!((none.width, none.height, none.rgba.len()), (0, 0, 0));
    let given = icon_from(Some((vec![1, 2, 3, 4], 1, 1)));
    assert_eq!(given.rgba, vec![1, 2, 3, 4]);
}

#[test]
fn a_session_starts_in_the_home_directory() {
    let s = Session::new(usual(), text("/home/a/Documents"));
    assert_eq!(s.status(), "cwd: /home/a/Documents");
    let lines = shown(&s.console);
    assert_eq!(lines.len(), 4);
    assert_eq!(lines[3], "Working directory: /home/a/Documents");
    let s = Session::new(usual(), None);
    assert_eq!(s.status(), "cwd: (unset)");
}

#[test]
fn menus_lead_to_effects() {
    let mut s = Session::new(usual(), None);
    let all = menus();
    assert_eq!(all.iter().map(|m| m.0).collect::<Vec<&str>>(), vec!["File", "Edit", "Plot", "Packages", "Settings", "Help"]);
    for (_, items) in &all {
        for i in items {
            assert!(!label(*i).is_empty());
        }
    }
    assert!(matches!(s.chosen(MenuItem::Quit), Effect::Close));
    assert!(matches!(s.chosen(MenuItem::OpenScript), Effect::AskScript));
    assert!(matches!(s.chosen(MenuItem::RefreshPlot), Effect::LookForPlots));
    assert!(matches!(s.chosen(MenuItem::ListInstalled), Effect::Run(c) if c == "installed.packages()"));
    assert!(matches!(s.chosen(MenuItem::ReportBug), Effect::Open(u) if u.ends_with("/issues/new")));
    s.chosen(MenuItem::About);
    assert!(s.show_about && !s.show_settings);
    s.chosen(MenuItem::Preferences);
    assert!(s.show_settings);
    s.chosen(MenuItem::ClearConsole);
    assert!(s.console.transcript.is_empty());
    s.chosen(MenuItem::SaveTranscript);
    assert_eq!(shown(&s.console), vec!["(Save transcript: planned for v0.2.1.)"]);
}

#[test]
fn saving_and_installing_are_code() {
    assert_eq!(png_code("C:\\a\\p.png"), "save.plot(\"C:/a/p.png\", width = 1024, height = 768)");
    assert_eq!(svg_code("p.svg"), "save.plot(\"p.svg\")");
    assert_eq!(package_code("a\\b"), "install.packages(basename(\"a/b\"), path = \"a/b\")");
}

#[test]
fn a_run_is_reported() {
    let mut s = Session::new(usual(), None);
    assert!(s.console.auto_scroll);
    assert_eq!(s.editor.cursor_line, 1);
    s.console.clear();
    s.console.auto_scroll = false;
    s.start_run("1 + 1");
    assert!(s.console.auto_scroll);
    assert!(s.step_done(&StepOutcome::Printed("[1] 2".to_string())));
    s.console.auto_scroll = false;
    assert!(s.step_done(&StepOutcome::Silent));
    assert!(!s.console.auto_scroll);
    assert!(!s.step_done(&StepOutcome::Failed("object not found".to_string())));
    s.finish_run(&vec!["odd".to_string()], &Vec::new());
    let lines = shown(&s.console);
    assert_eq!(&lines[lines.len() - 3..], &["[1] 2", "! Error: object not found", "! Warning: odd"]);
    s.parse_failed("line 1");
    assert_eq!(shown(&s.console).last().unwrap(), "! Parse error: line 1");
}

#[test]
fn scripts_and_directories() {
    let mut s = Session::new(usual(), None);
    assert_eq!(s.script_read("a.r2", Ok("x".to_string())).as_deref(), Some("x"));
    assert_eq!(s.script_read("a.r2", Err("gone".to_string())), None);
    assert_eq!(shown(&s.console).last().unwrap(), "! could not read a.r2: gone");
    s.directory_picked("/tmp");
    assert_eq!(s.status(), "cwd: /tmp");
    s.refresh_plot(&vec![Drawing { path: "plot.svg".to_string(), changed: 1 }]);
    assert_eq!(s.plot.last_path.as_deref(), Some("plot.svg"));
}

#[test]
fn places_of_documents_in_order() {
    assert_eq!(
        pick_user_home(PathStyle::Unix, text("/own"), None, text("/u"), text("/h")),
        vec!["/own", "/u/OneDrive/Documents", "/u/Documents", "/h/Documents", "/h"]
    );
    assert!(pick_user_home(PathStyle::Unix, None, None, None, None).is_empty());
    assert_eq!(
        pick_user_home(PathStyle::Windows, None, text("C:\\Users\\a\\OneDrive"), text("C:\\Users\\a"), None),
        vec!["C:\\Users\\a\\OneDrive\\Documents", "C:\\Users\\a\\OneDrive\\Documents", "C:\\Users\\a\\Documents"]
    );
}
