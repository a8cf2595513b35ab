//! A session of the desktop application: what its menus do and how a run is
//! reported. Evaluating code, asking for files and drawing windows are the
//! caller's part.
use crate::console::{Console, Entry, echoed};
use crate::editor::Editor;
use crate::paths::{PathStyle, join_path, joined_path};
use crate::plotpane::{Drawing, PlotPane, latest};
use crate::settings::Settings;
use crate::text::{chars_of, extend_str, lines, opt_text, owned, replace_all, replaced, string_of, texts, trim_end};
use vstd::prelude::*;

verus! {

/// What a window shows.
#[derive(Debug)]
pub struct Session {
    pub console: Console,
    pub editor: Editor,
    pub plot: PlotPane,
    pub settings: Settings,
    pub show_about: bool,
    pub show_settings: bool,
}

/// The directory, or a stand-in where there is none.
pub open spec fn dir_text(d: Option<Seq<char>>) -> Seq<char> {
    match d {
        Some(s) => s,
        None => "(unset)"@,
    }
}

/// What a new console shows.
pub open spec fn welcome(dir: Option<Seq<char>>) -> Seq<Entry> {
    Seq::<Entry>::empty().push(Entry::Output(trim_end("Ardon-R2 — Statistical Computing, Reimagined\n"@))).push(
        Entry::Output(trim_end("Version 0.2.0 (2026) | Inspired by R. Built on Rust.\n"@)),
    ).push(Entry::Output(trim_end("File ▸ Open script • Type code below • Enter to evaluate.\n"@))).push(
        Entry::Output(trim_end("Working directory: "@ + dir_text(dir) + "\n\n"@)),
    )
}

/// The places where a user's documents may be, in the order in which they are
/// tried: from the override, from the two cloud folders, and from the home
/// directories.
pub open spec fn home_places(
    style: PathStyle,
    own: Option<Seq<char>>,
    cloud: Option<Seq<char>>,
    profile: Option<Seq<char>>,
    home: Option<Seq<char>>,
) -> Seq<Seq<char>> {
    let a = match own {
        Some(p) => seq![p],
        None => Seq::empty(),
    };
    let b = match cloud {
        Some(p) => a.push(joined_path(style, p, "Documents"@)),
        None => a,
    };
    let c = match profile {
        Some(p) => b.push(joined_path(style, joined_path(style, p, "OneDrive"@), "Documents"@)).push(joined_path(style, p, "Documents"@)),
        None => b,
    };
    match home {
        Some(p) => c.push(joined_path(style, p, "Documents"@)).push(p),
        None => c,
    }
}

fn push_text(v: &mut Vec<String>, s: String)
    ensures
        texts(final(v)@) == texts(old(v)@).push(s@),
{
    let ghost before = v@;
    v.push(s);
    assert(texts(v@) =~= texts(before).push(s@));
}

/// The places where a user's documents may be; the first that is a directory is
/// taken.
pub fn pick_user_home(
    style: PathStyle,
    own: Option<String>,
    cloud: Option<String>,
    profile: Option<String>,
    home: Option<String>,
) -> (r: Vec<String>)
    ensures
        texts(r@) == home_places(style, opt_text(own), opt_text(cloud), opt_text(profile), opt_text(home)),
{
    let mut out: Vec<String> = Vec::new();
    assert(texts(out@) =~= Seq::<Seq<char>>::empty());
    if let Some(p) = own {
        push_text(&mut out, p);
        assert(texts(out@) =~= seq![p@]);
    }
    if let Some(p) = cloud {
        push_text(&mut out, join_path(style, p.as_str(), "Documents"));
    }
    if let Some(p) = profile {
        let drive: String = join_path(style, p.as_str(), "OneDrive");
        push_text(&mut out, join_path(style, drive.as_str(), "Documents"));
        push_text(&mut out, join_path(style, p.as_str(), "Documents"));
    }
    if let Some(p) = home {
        push_text(&mut out, join_path(style, p.as_str(), "Documents"));
        push_text(&mut out, p);
    }
    out
}

// ── Menus ──────────────────────────────────────────────────────────────────

/// The entries of the menus.
#[derive(Clone, Copy, PartialEq, Eq, Structural, Debug)]
pub enum MenuItem {
    NewScript,
    OpenScript,
    SaveTranscript,
    Quit,
    ClearConsole,
    RefreshPlot,
    SavePng,
    SaveSvg,
    ListInstalled,
    InstallFromDirectory,
    Preferences,
    ChangeDirectory,
    About,
    Documentation,
    FunctionReference,
    ReportBug,
}

/// What the caller has to do after an entry was chosen.
#[derive(Debug)]
pub enum Effect {
    /// Nothing more.
    Nothing,
    /// Close the window.
    Close,
    /// Ask for a script and read it.
    AskScript,
    /// Ask where to save a picture with dots.
    AskPng,
    /// Ask where to save a picture with lines.
    AskSvg,
    /// Ask for the directory of a package.
    AskPackage,
    /// Ask for a working directory.
    AskDirectory,
    /// Look for drawings and hand them to `refresh_plot`.
    LookForPlots,
    /// Run code.
    Run(String),
    /// Show a page.
    Open(String),
}

/// The text of an entry.
pub open spec fn label_of(item: MenuItem) -> Seq<char> {
    match item {
        MenuItem::NewScript => "New script…"@,
        MenuItem::OpenScript => "Open script…"@,
        MenuItem::SaveTranscript => "Save console transcript…"@,
        MenuItem::Quit => "Quit"@,
        MenuItem::ClearConsole => "Clear console"@,
        MenuItem::RefreshPlot => "Refresh plot pane"@,
        MenuItem::SavePng => "Save current plot as PNG…"@,
        MenuItem::SaveSvg => "Save current plot as SVG…"@,
        MenuItem::ListInstalled => "List installed"@,
        MenuItem::InstallFromDirectory => "Install from local directory…"@,
        MenuItem::Preferences => "Preferences…"@,
        MenuItem::ChangeDirectory => "Change working directory…"@,
        MenuItem::About => "About Ardon-R2"@,
        MenuItem::Documentation => "Documentation (GitHub)"@,
        MenuItem::FunctionReference => "Function reference (FUNCTIONS.md)"@,
        MenuItem::ReportBug => "Report a bug"@,
    }
}

/// The text of an entry.
pub fn label(item: MenuItem) -> (r: &'static str)
    ensures
        r@ == label_of(item),
{
    match item {
        MenuItem::NewScript => "New script…",
        MenuItem::OpenScript => "Open script…",
        MenuItem::SaveTranscript => "Save console transcript…",
        MenuItem::Quit => "Quit",
        MenuItem::ClearConsole => "Clear console",
        MenuItem::RefreshPlot => "Refresh plot pane",
        MenuItem::SavePng => "Save current plot as PNG…",
        MenuItem::SaveSvg => "Save current plot as SVG…",
        MenuItem::ListInstalled => "List installed",
        MenuItem::InstallFromDirectory => "Install from local directory…",
        MenuItem::Preferences => "Preferences…",
        MenuItem::ChangeDirectory => "Change working directory…",
        MenuItem::About => "About Ardon-R2",
        MenuItem::Documentation => "Documentation (GitHub)",
        MenuItem::FunctionReference => "Function reference (FUNCTIONS.md)",
        MenuItem::ReportBug => "Report a bug",
    }
}

/// The entries of each menu: their names and what they hold, in order.
pub fn menus() -> (r: Vec<(&'static str, Vec<MenuItem>)>)
    ensures
        r@.len() == 6,
        r@[0].0@ == "File"@,
        r@[0].1@ == seq![MenuItem::NewScript, MenuItem::OpenScript, MenuItem::SaveTranscript, MenuItem::Quit],
        r@[1].0@ == "Edit"@,
        r@[1].1@ == seq![MenuItem::ClearConsole],
        r@[2].0@ == "Plot"@,
        r@[2].1@ == seq![MenuItem::RefreshPlot, MenuItem::SavePng, MenuItem::SaveSvg],
        r@[3].0@ == "Packages"@,
        r@[3].1@ == seq![MenuItem::ListInstalled, MenuItem::InstallFromDirectory],
        r@[4].0@ == "Settings"@,
        r@[4].1@ == seq![MenuItem::Preferences, MenuItem::ChangeDirectory],
        r@[5].0@ == "Help"@,
        r@[5].1@ == seq![
            MenuItem::About,
            MenuItem::Documentation,
            MenuItem::FunctionReference,
            MenuItem::ReportBug,
        ],
{
    let mut v: Vec<(&'static str, Vec<MenuItem>)> = Vec::new();
    v.push(("File", vec![MenuItem::NewScript, MenuItem::OpenScript, MenuItem::SaveTranscript, MenuItem::Quit]));
    v.push(("Edit", vec![MenuItem::ClearConsole]));
    v.push(("Plot", vec![MenuItem::RefreshPlot, MenuItem::SavePng, MenuItem::SaveSvg]));
    v.push(("Packages", vec![MenuItem::ListInstalled, MenuItem::InstallFromDirectory]));
    v.push(("Settings", vec![MenuItem::Preferences, MenuItem::ChangeDirectory]));
    v.push(
        (
            "Help",
            vec![
                MenuItem::About,
                MenuItem::Documentation,
                MenuItem::FunctionReference,
                MenuItem::ReportBug,
            ],
        ),
    );
    v
}

/// The effect of an entry, by its contents.
#[verifier::ext_equal]
pub enum Wish {
    Nothing,
    Close,
    AskScript,
    AskPng,
    AskSvg,
    AskPackage,
    AskDirectory,
    LookForPlots,
    Run(Seq<char>),
    Open(Seq<char>),
}

impl Effect {
    pub open spec fn wish(&self) -> Wish {
        match self {
            Effect::Nothing => Wish::Nothing,
            Effect::Close => Wish::Close,
            Effect::AskScript => Wish::AskScript,
            Effect::AskPng => Wish::AskPng,
            Effect::AskSvg => Wish::AskSvg,
            Effect::AskPackage => Wish::AskPackage,
            Effect::AskDirectory => Wish::AskDirectory,
            Effect::LookForPlots => Wish::LookForPlots,
            Effect::Run(s) => Wish::Run(s@),
            Effect::Open(s) => Wish::Open(s@),
        }
    }
}

/// What the caller has to do after an entry was chosen.
pub open spec fn wish_of(item: MenuItem) -> Wish {
    match item {
        MenuItem::OpenScript => Wish::AskScript,
        MenuItem::Quit => Wish::Close,
        MenuItem::RefreshPlot => Wish::LookForPlots,
        MenuItem::SavePng => Wish::AskPng,
        MenuItem::SaveSvg => Wish::AskSvg,
        MenuItem::ListInstalled => Wish::Run("installed.packages()"@),
        MenuItem::InstallFromDirectory => Wish::AskPackage,
        MenuItem::ChangeDirectory => Wish::AskDirectory,
        MenuItem::Documentation => Wish::Open("https://github.com/devendratandle/Ardon-R2#readme"@),
        MenuItem::FunctionReference => Wish::Open(
            "https://github.com/devendratandle/Ardon-R2/blob/main/FUNCTIONS.md"@,
        ),
        MenuItem::ReportBug => Wish::Open("https://github.com/devendratandle/Ardon-R2/issues/new"@),
        _ => Wish::Nothing,
    }
}

/// What the console shows after an entry was chosen.
pub open spec fn shown_after(item: MenuItem, shown: Seq<Entry>) -> Seq<Entry> {
    match item {
        MenuItem::NewScript => shown.push(
            Entry::Output(
                trim_end(
                    "(New script: not yet wired — open a .r2 file via File ▸ Open script for now.)\n"@,
                ),
            ),
        ),
        MenuItem::SaveTranscript => shown.push(
            Entry::Output(trim_end("(Save transcript: planned for v0.2.1.)\n"@)),
        ),
        MenuItem::ClearConsole => Seq::empty(),
        _ => shown,
    }
}

/// A path with slashes only.
pub open spec fn slashed(path: Seq<char>) -> Seq<char> {
    replaced(path, "\\"@, "/"@)
}

fn slash(path: &str) -> (r: Vec<char>)
    ensures
        r@ == slashed(path@),
{
    let p: Vec<char> = chars_of(path);
    let back: Vec<char> = chars_of("\\");
    let fore: Vec<char> = chars_of("/");
    proof {
        reveal_strlit("\\");
    }
    replace_all(&p, &back, &fore)
}

/// The code that saves the plot as dots.
pub fn png_code(path: &str) -> (r: String)
    ensures
        r@ == Seq::<char>::empty() + "save.plot(\""@ + slashed(path@) + "\", width = 1024, height = 768)"@,
{
    let mut out: Vec<char> = Vec::new();
    let p: Vec<char> = slash(path);
    extend_str(&mut out, "save.plot(\"");
    crate::text::extend(&mut out, &p);
    extend_str(&mut out, "\", width = 1024, height = 768)");
    string_of(&out)
}

/// The code that saves the plot as lines.
pub fn svg_code(path: &str) -> (r: String)
    ensures
        r@ == Seq::<char>::empty() + "save.plot(\""@ + slashed(path@) + "\")"@,
{
    let mut out: Vec<char> = Vec::new();
    let p: Vec<char> = slash(path);
    extend_str(&mut out, "save.plot(\"");
    crate::text::extend(&mut out, &p);
    extend_str(&mut out, "\")");
    string_of(&out)
}

/// The code that installs a package from a directory.
pub fn package_code(path: &str) -> (r: String)
    ensures
        r@ == Seq::<char>::empty() + "install.packages(basename(\""@ + slashed(path@) + "\"), path = \""@ + slashed(path@)
            + "\")"@,
{
    let mut out: Vec<char> = Vec::new();
    let p: Vec<char> = slash(path);
    extend_str(&mut out, "install.packages(basename(\"");
    crate::text::extend(&mut out, &p);
    extend_str(&mut out, "\"), path = \"");
    crate::text::extend(&mut out, &p);
    extend_str(&mut out, "\")");
    string_of(&out)
}

// ── Runs ───────────────────────────────────────────────────────────────────

/// How one statement ended: with a value to print, with none, or with an error.
#[derive(Debug)]
pub enum StepOutcome {
    Printed(String),
    Silent,
    Failed(String),
}

/// What the console shows after a statement.
pub open spec fn shown_step(shown: Seq<Entry>, o: &StepOutcome) -> Seq<Entry> {
    match o {
        StepOutcome::Printed(s) => shown.push(Entry::Output(trim_end(Seq::<char>::empty() + s@ + "\n"@))),
        StepOutcome::Silent => shown,
        StepOutcome::Failed(e) => shown.push(Entry::Error(trim_end(Seq::<char>::empty() + "Error: "@ + e@ + "\n"@))),
    }
}

/// What the console shows after the first `n` warnings.
pub open spec fn shown_warnings(shown: Seq<Entry>, w: Seq<Seq<char>>, n: nat) -> Seq<Entry>
    decreases n,
{
    if n == 0 {
        shown
    } else {
        shown_warnings(shown, w, (n - 1) as nat).push(
            Entry::Error(trim_end(Seq::<char>::empty() + "Warning: "@ + w[n - 1] + "\n"@)),
        )
    }
}

fn sentence(lead: &str, text: &str) -> (r: String)
    ensures
        r@ == Seq::<char>::empty() + lead@ + text@ + "\n"@,
{
    let mut t: Vec<char> = Vec::new();
    extend_str(&mut t, lead);
    extend_str(&mut t, text);
    extend_str(&mut t, "\n");
    string_of(&t)
}

impl Session {
    /// All but the console is as in `o`.
    pub open spec fn same_but_console(&self, o: &Session) -> bool {
        &&& self.editor == o.editor
        &&& self.plot == o.plot
        &&& self.settings == o.settings
        &&& self.show_about == o.show_about
        &&& self.show_settings == o.show_settings
    }

    /// A new session with the given preferences; the given home is the working
    /// directory where the preferences name none.
    pub fn new(settings: Settings, home: Option<String>) -> (r: Session)
        ensures
            opt_text(r.settings.working_directory) == match opt_text(settings.working_directory) {
                Some(d) => Some(d),
                None => opt_text(home),
            },
            r.settings.font_scale == settings.font_scale,
            r.settings.dark_mode == settings.dark_mode,
            r.console.shown() == welcome(opt_text(r.settings.working_directory)),
            r.console.auto_scroll,
            !r.show_about,
            !r.show_settings,
            r.plot.last_path is None,
            r.plot.last_change is None,
            !r.plot.drawn,
            r.editor.text@ == crate::editor::greeting(),
            r.editor.path is None,
            !r.editor.dirty,
            r.editor.pending_run is None,
            r.editor.cursor_line == 1,
    {
        let mut s: Settings = settings;
        if s.working_directory.is_none() {
            s.working_directory = home;
        }
        let mut console: Console = Console::new();
        console.push_output("Ardon-R2 — Statistical Computing, Reimagined\n");
        console.push_output("Version 0.2.0 (2026) | Inspired by R. Built on Rust.\n");
        console.push_output("File ▸ Open script • Type code below • Enter to evaluate.\n");
        let mut t: Vec<char> = chars_of("Working directory: ");
        match &s.working_directory {
            Some(d) => extend_str(&mut t, d.as_str()),
            None => extend_str(&mut t, "(unset)"),
        }
        extend_str(&mut t, "\n\n");
        let line: String = string_of(&t);
        console.push_output(line.as_str());
        Session {
            console,
            editor: Editor::new(),
            plot: PlotPane::new(),
            settings: s,
            show_about: false,
            show_settings: false,
        }
    }

    /// The line at the bottom of the window.
    pub fn status(&self) -> (r: String)
        ensures
            r@ == "cwd: "@ + dir_text(opt_text(self.settings.working_directory)),
    {
        let mut t: Vec<char> = chars_of("cwd: ");
        match &self.settings.working_directory {
            Some(d) => extend_str(&mut t, d.as_str()),
            None => extend_str(&mut t, "(unset)"),
        }
        string_of(&t)
    }

    /// An entry of a menu was chosen.
    pub fn chosen(&mut self, item: MenuItem) -> (r: Effect)
        ensures
            r.wish() == wish_of(item),
            final(self).console.shown() == shown_after(item, old(self).console.shown()),
            if item == MenuItem::NewScript || item == MenuItem::SaveTranscript || item == MenuItem::ClearConsole {
                final(self).console.auto_scroll
            } else {
                final(self).console == old(self).console
            },
            final(self).editor == old(self).editor,
            final(self).plot == old(self).plot,
            final(self).settings == old(self).settings,
            final(self).show_about == (old(self).show_about || item == MenuItem::About),
            final(self).show_settings == (old(self).show_settings || item == MenuItem::Preferences),
    {
        match item {
            MenuItem::NewScript => {
                self.console.push_output(
                    "(New script: not yet wired — open a .r2 file via File ▸ Open script for now.)\n",
                );
                Effect::Nothing
            },
            MenuItem::OpenScript => Effect::AskScript,
            MenuItem::SaveTranscript => {
                self.console.push_output("(Save transcript: planned for v0.2.1.)\n");
                Effect::Nothing
            },
            MenuItem::Quit => Effect::Close,
            MenuItem::ClearConsole => {
                self.console.clear();
                Effect::Nothing
            },
            MenuItem::RefreshPlot => Effect::LookForPlots,
            MenuItem::SavePng => Effect::AskPng,
            MenuItem::SaveSvg => Effect::AskSvg,
            MenuItem::ListInstalled => Effect::Run(owned("installed.packages()")),
            MenuItem::InstallFromDirectory => Effect::AskPackage,
            MenuItem::Preferences => {
                self.show_settings = true;
                Effect::Nothing
            },
            MenuItem::ChangeDirectory => Effect::AskDirectory,
            MenuItem::About => {
                self.show_about = true;
                Effect::Nothing
            },
            MenuItem::Documentation => Effect::Open(owned("https://github.com/devendratandle/Ardon-R2#readme")),
            MenuItem::FunctionReference => Effect::Open(
                owned("https://github.com/devendratandle/Ardon-R2/blob/main/FUNCTIONS.md"),
            ),
            MenuItem::ReportBug => Effect::Open(owned("https://github.com/devendratandle/Ardon-R2/issues/new")),
        }
    }

    /// A script was read, or could not be: the code to run, or a report.
    pub fn script_read(&mut self, path: &str, read: Result<String, String>) -> (r: Option<String>)
        ensures
            final(self).same_but_console(old(self)),
            match read {
                Ok(src) => r == Some(src) && final(self).console == old(self).console,
                Err(e) => r is None && final(self).console.auto_scroll && final(self).console.shown() == old(
                    self,
                ).console.shown().push(
                    Entry::Error(trim_end(Seq::<char>::empty() + "could not read "@ + path@ + ": "@ + e@)),
                ),
            },
    {
        match read {
            Ok(src) => Some(src),
            Err(e) => {
                let mut t: Vec<char> = Vec::new();
                extend_str(&mut t, "could not read ");
                extend_str(&mut t, path);
                extend_str(&mut t, ": ");
                extend_str(&mut t, e.as_str());
                let msg: String = string_of(&t);
                self.console.push_error(msg.as_str());
                None
            },
        }
    }

    /// A working directory was picked; the preferences are to be kept.
    pub fn directory_picked(&mut self, path: &str)
        ensures
            opt_text(final(self).settings.working_directory) == Some(path@),
            final(self).settings.font_scale == old(self).settings.font_scale,
            final(self).settings.dark_mode == old(self).settings.dark_mode,
            final(self).console.shown() == old(self).console.shown().push(
                Entry::Output(trim_end(Seq::<char>::empty() + "Working directory now: "@ + path@ + "\n"@)),
            ),
            final(self).console.auto_scroll,
            final(self).editor == old(self).editor,
            final(self).plot == old(self).plot,
            final(self).show_about == old(self).show_about,
            final(self).show_settings == old(self).show_settings,
    {
        self.settings.working_directory = Some(owned(path));
        let msg: String = sentence("Working directory now: ", path);
        self.console.push_output(msg.as_str());
    }

    /// The plot pane looks again at the drawings that were found.
    pub fn refresh_plot(&mut self, found: &Vec<Drawing>)
        ensures
            !final(self).plot.drawn,
            match latest(found@, found@.len()) {
                None => final(self).plot.last_path == old(self).plot.last_path && final(self).plot.last_change is None,
                Some(d) => final(self).plot.shows(d),
            },
            final(self).console == old(self).console,
            final(self).editor == old(self).editor,
            final(self).settings == old(self).settings,
            final(self).show_about == old(self).show_about,
            final(self).show_settings == old(self).show_settings,
    {
        self.plot.force_reload(found);
    }

    /// A run starts: its code is echoed.
    pub fn start_run(&mut self, source: &str)
        ensures
            final(self).same_but_console(old(self)),
            final(self).console.shown() == old(self).console.shown() + echoed(lines(source@)),
            final(self).console.auto_scroll,
    {
        self.console.push_input(source);
    }

    /// The code of a run could not be parsed; the run is over.
    pub fn parse_failed(&mut self, e: &str)
        ensures
            final(self).same_but_console(old(self)),
            final(self).console.shown() == old(self).console.shown().push(
                Entry::Error(trim_end(Seq::<char>::empty() + "Parse error: "@ + e@ + "\n"@)),
            ),
            final(self).console.auto_scroll,
    {
        let msg: String = sentence("Parse error: ", e);
        self.console.push_error(msg.as_str());
    }

    /// A statement was evaluated: whether the next one is to be. The first
    /// error ends the evaluation.
    pub fn step_done(&mut self, o: &StepOutcome) -> (go_on: bool)
        ensures
            final(self).same_but_console(old(self)),
            final(self).console.shown() == shown_step(old(self).console.shown(), o),
            if *o is Silent {
                final(self).console == old(self).console
            } else {
                final(self).console.auto_scroll
            },
            go_on == (*o !is Failed),
    {
        match o {
            StepOutcome::Printed(s) => {
                let msg: String = sentence("", s.as_str());
                proof {
                    reveal_strlit("");
                    assert(Seq::<char>::empty() + ""@ =~= Seq::<char>::empty());
                }
                self.console.push_output(msg.as_str());
                true
            },
            StepOutcome::Silent => true,
            StepOutcome::Failed(e) => {
                let msg: String = sentence("Error: ", e.as_str());
                self.console.push_error(msg.as_str());
                false
            },
        }
    }

    /// The statements of a run were evaluated: warnings are reported, and the
    /// plot pane looks at the drawings that were found.
    pub fn finish_run(&mut self, warnings: &Vec<String>, found: &Vec<Drawing>)
        ensures
            final(self).console.shown() == shown_warnings(
                old(self).console.shown(),
                texts(warnings@),
                warnings@.len(),
            ),
            if warnings@.len() == 0 {
                final(self).console == old(self).console
            } else {
                final(self).console.auto_scroll
            },
            match latest(found@, found@.len()) {
                None => final(self).plot == old(self).plot,
                Some(d) => if old(self).plot.shows(d) {
                    final(self).plot == old(self).plot
                } else {
                    final(self).plot.shows(d) && !final(self).plot.drawn
                },
            },
            final(self).editor == old(self).editor,
            final(self).settings == old(self).settings,
            final(self).show_about == old(self).show_about,
            final(self).show_settings == old(self).show_settings,
    {
        let ghost before = self.console.shown();
        let ghost all = texts(warnings@);
        let ghost start = *self;
        let mut i: usize = 0;
        while i < warnings.len()
            invariant
                all == texts(warnings@),
                i <= warnings.len(),
                self.same_but_console(&start),
                self.console.shown() == shown_warnings(before, all, i as nat),
                if i == 0 {
                    self.console == start.console
                } else {
                    self.console.auto_scroll
                },
            decreases warnings.len() - i,
        {
            assert(all[i as int] == warnings@[i as int]@);
            let msg: String = sentence("Warning: ", warnings[i].as_str());
            self.console.push_error(msg.as_str());
            i += 1;
        }
        self.plot.reload_if_changed(found);
    }
}

} // verus!
