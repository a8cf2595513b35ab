//! Editing a line key by key, with a history to go back to.
use crate::text::{chars_of, copy_chars, extend, extend_decimal, extend_str, decimal, part, string_of, texts};
use vstd::prelude::*;
use vstd::string::StrSliceExecFns;
use vstd::utf8::encode_utf8;

verus! {

/// A line that is being edited, by its contents: the characters, where the
/// cursor stands, which line of the history is shown (its length stands for
/// none), and the line that was left for the history.
#[verifier::ext_equal]
pub struct Draft {
    pub line: Seq<char>,
    pub cursor: int,
    pub at: int,
    pub saved: Seq<char>,
}

impl Draft {
    pub open spec fn wf(self, history: Seq<Seq<char>>) -> bool {
        0 <= self.cursor <= self.line.len() && 0 <= self.at <= history.len()
    }

    /// A new line.
    pub open spec fn fresh(history: Seq<Seq<char>>) -> Draft {
        Draft { line: Seq::empty(), cursor: 0, at: history.len() as int, saved: Seq::empty() }
    }

    /// A character was typed.
    pub open spec fn typed(self, c: char) -> Draft {
        Draft { line: self.line.insert(self.cursor, c), cursor: self.cursor + 1, ..self }
    }

    /// The character before the cursor was taken away.
    pub open spec fn erased(self) -> Draft {
        if self.cursor > 0 {
            Draft { line: self.line.remove(self.cursor - 1), cursor: self.cursor - 1, ..self }
        } else {
            self
        }
    }

    /// The character at the cursor was taken away.
    pub open spec fn deleted(self) -> Draft {
        if self.cursor < self.line.len() {
            Draft { line: self.line.remove(self.cursor), ..self }
        } else {
            self
        }
    }

    /// One line back in the history. The line that was being entered is kept.
    pub open spec fn back(self, history: Seq<Seq<char>>) -> Draft {
        if history.len() > 0 && self.at > 0 {
            let l = history[self.at - 1];
            Draft {
                line: l,
                cursor: l.len() as int,
                at: self.at - 1,
                saved: if self.at == history.len() {
                    self.line
                } else {
                    self.saved
                },
            }
        } else {
            self
        }
    }

    /// One line forward in the history, after its end the line that was kept.
    pub open spec fn forward(self, history: Seq<Seq<char>>) -> Draft {
        if self.at < history.len() {
            let l = if self.at + 1 == history.len() {
                self.saved
            } else {
                history[self.at + 1]
            };
            Draft { line: l, cursor: l.len() as int, at: self.at + 1, ..self }
        } else {
            self
        }
    }

    /// The draft after an extended key: arrows, home, end or delete.
    pub open spec fn moved(self, key: i32, history: Seq<Seq<char>>) -> Draft {
        if key == 72 {
            self.back(history)
        } else if key == 80 {
            self.forward(history)
        } else if key == 75 {
            if self.cursor > 0 {
                Draft { cursor: self.cursor - 1, ..self }
            } else {
                self
            }
        } else if key == 77 {
            if self.cursor < self.line.len() {
                Draft { cursor: self.cursor + 1, ..self }
            } else {
                self
            }
        } else if key == 71 {
            Draft { cursor: 0, ..self }
        } else if key == 79 {
            Draft { cursor: self.line.len() as int, ..self }
        } else if key == 83 {
            self.deleted()
        } else {
            self
        }
    }

    /// Whether an extended key makes the line be drawn again.
    pub open spec fn redraws(self, key: i32, history: Seq<Seq<char>>) -> bool {
        if key == 72 {
            history.len() > 0 && self.at > 0
        } else if key == 80 {
            self.at < history.len()
        } else if key == 75 {
            self.cursor > 0
        } else if key == 77 || key == 83 {
            self.cursor < self.line.len()
        } else {
            key == 71 || key == 79
        }
    }
}

/// What a key leads to.
#[derive(Clone, Copy, PartialEq, Eq, Structural, Debug)]
pub enum KeyStep {
    /// Nothing to show.
    Quiet,
    /// Print the character.
    Echo(char),
    /// Draw the line again.
    Redraw,
    /// An extended key: its second code follows.
    Extended,
    /// The line is complete.
    Done,
    /// The line was given up.
    Interrupted,
    /// The end of the input.
    End,
}

/// The character of a key code.
pub open spec fn key_char(code: i32) -> char {
    ((code % 256) as u8) as char
}

/// What a key leads to.
pub open spec fn key_step(d: Draft, code: i32) -> KeyStep {
    if code == 13 {
        KeyStep::Done
    } else if code == 3 {
        KeyStep::Interrupted
    } else if code == 4 && d.line.len() == 0 {
        KeyStep::End
    } else if code == 8 || code == 127 {
        if d.cursor > 0 {
            KeyStep::Redraw
        } else {
            KeyStep::Quiet
        }
    } else if code == 0 || code == 224 {
        KeyStep::Extended
    } else if code >= 32 {
        if d.cursor == d.line.len() {
            KeyStep::Echo(key_char(code))
        } else {
            KeyStep::Redraw
        }
    } else {
        KeyStep::Quiet
    }
}

/// The draft after a key.
pub open spec fn key_draft(d: Draft, code: i32) -> Draft {
    if code == 8 || code == 127 {
        d.erased()
    } else if code >= 32 && code != 224 {
        d.typed(key_char(code))
    } else {
        d
    }
}

/// A line that is being edited.
#[derive(Debug)]
pub struct LineEditor {
    pub line: Vec<char>,
    pub cursor: usize,
    pub at: usize,
    pub saved: Vec<char>,
}

impl LineEditor {
    pub open spec fn draft(&self) -> Draft {
        Draft { line: self.line@, cursor: self.cursor as int, at: self.at as int, saved: self.saved@ }
    }

    /// An empty line, with the history at hand.
    pub fn new(history: &Vec<String>) -> (r: LineEditor)
        ensures
            r.draft() == Draft::fresh(texts(history@)),
            r.draft().wf(texts(history@)),
    {
        let r = LineEditor { line: Vec::new(), cursor: 0, at: history.len(), saved: Vec::new() };
        assert(r.draft() =~= Draft::fresh(texts(history@)));
        r
    }

    /// A key was pressed.
    pub fn key(&mut self, code: i32, history: &Vec<String>) -> (r: KeyStep)
        requires
            old(self).draft().wf(texts(history@)),
        ensures
            r == key_step(old(self).draft(), code),
            final(self).draft() == key_draft(old(self).draft(), code),
            final(self).draft().wf(texts(history@)),
    {
        if code == 13 {
            KeyStep::Done
        } else if code == 3 {
            KeyStep::Interrupted
        } else if code == 4 && self.line.len() == 0 {
            KeyStep::End
        } else if code == 8 || code == 127 {
            if self.cursor > 0 {
                let _gone: char = self.line.remove(self.cursor - 1);
                self.cursor = self.cursor - 1;
                KeyStep::Redraw
            } else {
                KeyStep::Quiet
            }
        } else if code == 0 || code == 224 {
            KeyStep::Extended
        } else if code >= 32 {
            let low: i32 = code % 256;
            let c: char = (low as u8) as char;
            self.line.insert(self.cursor, c);
            let n: usize = self.line.len();
            self.cursor = self.cursor + 1;
            if self.cursor == n {
                KeyStep::Echo(c)
            } else {
                KeyStep::Redraw
            }
        } else {
            KeyStep::Quiet
        }
    }

    /// The second code of an extended key: whether the line is drawn again.
    pub fn extended(&mut self, key: i32, history: &Vec<String>) -> (redraw: bool)
        requires
            old(self).draft().wf(texts(history@)),
        ensures
            redraw == old(self).draft().redraws(key, texts(history@)),
            final(self).draft() == old(self).draft().moved(key, texts(history@)),
            final(self).draft().wf(texts(history@)),
    {
        let ghost h = texts(history@);
        assert(h.len() == history@.len());
        if key == 72 {
            if history.len() > 0 && self.at > 0 {
                if self.at == history.len() {
                    self.saved = copy_chars(&self.line);
                }
                self.at = self.at - 1;
                self.line = chars_of(history[self.at].as_str());
                self.cursor = self.line.len();
                return true;
            }
            false
        } else if key == 80 {
            if self.at < history.len() {
                self.at = self.at + 1;
                if self.at == history.len() {
                    self.line = copy_chars(&self.saved);
                } else {
                    self.line = chars_of(history[self.at].as_str());
                }
                self.cursor = self.line.len();
                return true;
            }
            false
        } else if key == 75 {
            if self.cursor > 0 {
                self.cursor = self.cursor - 1;
                return true;
            }
            false
        } else if key == 77 {
            if self.cursor < self.line.len() {
                self.cursor = self.cursor + 1;
                return true;
            }
            false
        } else if key == 71 {
            self.cursor = 0;
            true
        } else if key == 79 {
            self.cursor = self.line.len();
            true
        } else if key == 83 {
            if self.cursor < self.line.len() {
                let _gone: char = self.line.remove(self.cursor);
                return true;
            }
            false
        } else {
            false
        }
    }

    /// The line as it was entered.
    pub fn text(&self) -> (r: String)
        ensures
            r@ == self.draft().line,
    {
        string_of(&self.line)
    }

    /// What draws the line again: from the left edge the prompt and the line,
    /// the rest wiped, and then back by the bytes behind the cursor.
    pub open spec fn drawing(&self, lead: Seq<char>) -> Seq<char> {
        let back = encode_utf8(self.line@.skip(self.cursor as int)).len();
        let drawn = Seq::<char>::empty() + "\r"@ + lead + self.line@ + "\x1b[K"@;
        if back > 0 {
            drawn + "\x1b["@ + decimal(back) + "D"@
        } else {
            drawn
        }
    }

    pub fn redraw_line(&self, lead: &str, history: &Vec<String>) -> (r: String)
        requires
            self.draft().wf(texts(history@)),
        ensures
            r@ == self.drawing(lead@),
    {
        let tail: Vec<char> = part(&self.line, self.cursor, self.line.len());
        assert(tail@ =~= self.line@.skip(self.cursor as int));
        let text: String = string_of(&tail);
        let back: usize = text.as_str().as_bytes().len();
        let mut out: Vec<char> = Vec::new();
        extend_str(&mut out, "\r");
        extend_str(&mut out, lead);
        extend(&mut out, &self.line);
        extend_str(&mut out, "\x1b[K");
        if back > 0 {
            extend_str(&mut out, "\x1b[");
            extend_decimal(&mut out, back as u64);
            extend_str(&mut out, "D");
        }
        string_of(&out)
    }
}

/// Taking away what was just typed gives the line as it was.
pub proof fn law_erase_undoes_typing(d: Draft, c: char, history: Seq<Seq<char>>)
    requires
        d.wf(history),
    ensures
        d.typed(c).erased() == d,
{
    assert(d.typed(c).erased().line =~= d.line);
}

/// Going back in the history and forward again gives the line that was being
/// entered, with the cursor at its end.
pub proof fn law_history_keeps_line(d: Draft, history: Seq<Seq<char>>)
    requires
        d.wf(history),
        history.len() > 0,
        d.at == history.len(),
    ensures
        d.back(history).forward(history) == (Draft { cursor: d.line.len() as int, saved: d.line, ..d }),
{
}

/// Every key keeps the cursor within the line and the place within the history.
pub proof fn law_keys_keep_bounds(d: Draft, code: i32, key: i32, history: Seq<Seq<char>>)
    requires
        d.wf(history),
    ensures
        key_draft(d, code).wf(history),
        d.moved(key, history).wf(history),
{
}

} // verus!
