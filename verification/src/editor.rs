//! The script editor: the text, the file it belongs to, and what is to be run.
use crate::paths::{PathStyle, file_name, file_name_of};
use crate::text::{char_rows, chars_of, extend_str, lines, lines_of, opt_text, owned, string_of, trim, trimmed};
use vstd::prelude::*;

verus! {

/// The text that a new editor starts with.
pub open spec fn greeting() -> Seq<char> {
    "# Welcome to Ardon-R2.\n# Write code here, then:\n#   Ctrl+Enter  — run current line (or selection)\n#   F5          — run whole script\n#   Ctrl+S      — save\n#\n# Example: try this.\nx <- rnorm(mean = 10, sd = 2, n = 1000)\nhist(x)\n"@
}

/// The last line that is not blank; nothing where there is none.
pub open spec fn last_filled(ls: Seq<Seq<char>>) -> Seq<char>
    decreases ls.len(),
{
    if ls.len() == 0 {
        Seq::empty()
    } else if trim(ls.last()).len() > 0 {
        ls.last()
    } else {
        last_filled(ls.drop_last())
    }
}

/// The editor of one script.
#[derive(Debug)]
pub struct Editor {
    pub text: String,
    pub path: Option<String>,
    pub dirty: bool,
    pub pending_run: Option<String>,
    pub cursor_line: usize,
}

impl Editor {
    pub fn new() -> (r: Editor)
        ensures
            r.text@ == greeting(),
            r.path is None,
            !r.dirty,
            r.pending_run is None,
            r.cursor_line == 1,
    {
        Editor {
            text: owned(
                "# Welcome to Ardon-R2.\n# Write code here, then:\n#   Ctrl+Enter  — run current line (or selection)\n#   F5          — run whole script\n#   Ctrl+S      — save\n#\n# Example: try this.\nx <- rnorm(mean = 10, sd = 2, n = 1000)\nhist(x)\n",
            ),
            path: None,
            dirty: false,
            pending_run: None,
            cursor_line: 1,
        }
    }

    /// Takes over a script that was read from a file.
    pub fn load_from(&mut self, path: String, text: String)
        ensures
            final(self).text == text,
            final(self).path == Some(path),
            !final(self).dirty,
            final(self).pending_run == old(self).pending_run,
            final(self).cursor_line == old(self).cursor_line,
    {
        self.text = text;
        self.path = Some(path);
        self.dirty = false;
    }

    /// The script was written to a file.
    pub fn save_to(&mut self, path: String)
        ensures
            final(self).text == old(self).text,
            final(self).path == Some(path),
            !final(self).dirty,
            final(self).pending_run == old(self).pending_run,
            final(self).cursor_line == old(self).cursor_line,
    {
        self.path = Some(path);
        self.dirty = false;
    }

    /// The script was changed.
    pub fn edited(&mut self)
        ensures
            *final(self) == (Editor { dirty: true, ..*old(self) }),
    {
        self.dirty = true;
    }

    /// Asks for the whole script to be run.
    pub fn run_all(&mut self)
        ensures
            final(self).pending_run is Some,
            (final(self).pending_run->0)@ == old(self).text@,
            final(self).text == old(self).text,
            final(self).path == old(self).path,
            final(self).dirty == old(self).dirty,
            final(self).cursor_line == old(self).cursor_line,
    {
        self.pending_run = Some(owned(self.text.as_str()));
    }

    /// Asks for the last line that is not blank to be run.
    pub fn run_line(&mut self)
        ensures
            final(self).pending_run is Some,
            (final(self).pending_run->0)@ == last_filled(lines(old(self).text@)),
            final(self).text == old(self).text,
            final(self).path == old(self).path,
            final(self).dirty == old(self).dirty,
            final(self).cursor_line == old(self).cursor_line,
    {
        self.pending_run = Some(self.current_line_or_selection_for_run());
    }

    /// Hands out what is to be run, once.
    pub fn take_pending_run(&mut self) -> (r: Option<String>)
        ensures
            r == old(self).pending_run,
            *final(self) == (Editor { pending_run: None, ..*old(self) }),
    {
        self.pending_run.take()
    }

    /// The name of the file, with a mark where the script was changed.
    pub open spec fn heading(&self, style: PathStyle) -> Seq<char> {
        let name = match opt_text(self.path) {
            Some(p) => match file_name(style, p) {
                Some(n) => n,
                None => "untitled.r2"@,
            },
            None => "untitled.r2"@,
        };
        if self.dirty {
            name + " ●"@
        } else {
            name
        }
    }

    /// The name of the file, with a mark where the script was changed.
    pub fn title(&self, style: PathStyle) -> (r: String)
        ensures
            r@ == self.heading(style),
    {
        let named: Option<String> = match &self.path {
            Some(p) => file_name_of(style, p.as_str()),
            None => None,
        };
        let name: String = match named {
            Some(n) => n,
            None => owned("untitled.r2"),
        };
        if self.dirty {
            let mut t: Vec<char> = chars_of(name.as_str());
            extend_str(&mut t, " ●");
            string_of(&t)
        } else {
            name
        }
    }

    /// The number of lines, at least one.
    pub fn line_count(&self) -> (r: usize)
        ensures
            r == if lines(self.text@).len() == 0 {
                1
            } else {
                lines(self.text@).len()
            },
    {
        let v: Vec<char> = chars_of(self.text.as_str());
        let ls: Vec<Vec<char>> = lines_of(&v);
        assert(char_rows(ls@).len() == ls@.len());
        if ls.len() == 0 {
            1
        } else {
            ls.len()
        }
    }

    /// The last line that is not blank, for lack of a cursor.
    pub fn current_line_or_selection_for_run(&self) -> (r: String)
        ensures
            r@ == last_filled(lines(self.text@)),
    {
        let v: Vec<char> = chars_of(self.text.as_str());
        let ls: Vec<Vec<char>> = lines_of(&v);
        let ghost all = char_rows(ls@);
        let mut i: usize = ls.len();
        assert(all.take(i as int) =~= all);
        while i > 0
            invariant
                all == char_rows(ls@),
                all == lines(self.text@),
                i <= ls.len(),
                last_filled(all) == last_filled(all.take(i as int)),
            decreases i,
        {
            assert(all.take(i as int).last() == ls@[i - 1]@);
            assert(all.take(i as int).drop_last() =~= all.take(i - 1));
            let bare: Vec<char> = trimmed(&ls[i - 1]);
            if bare.len() > 0 {
                return string_of(&ls[i - 1]);
            }
            i -= 1;
        }
        let r: String = String::new();
        assert(r@ =~= Seq::<char>::empty());
        r
    }
}

} // verus!
