//! The transcript of a session: what was entered, printed and reported.
use crate::text::{chars_of, char_rows, lines, lines_of, string_of, trim_end, trimmed_end};
use vstd::prelude::*;

verus! {

/// One entry of the transcript.
#[derive(Debug)]
pub enum Line {
    /// Code as it was entered.
    Input(String),
    /// What evaluation printed.
    Output(String),
    /// An error or a warning.
    Error(String),
}

/// An entry by what it says.
#[verifier::ext_equal]
pub enum Entry {
    Input(Seq<char>),
    Output(Seq<char>),
    Error(Seq<char>),
}

impl Line {
    pub open spec fn entry(&self) -> Entry {
        match self {
            Line::Input(s) => Entry::Input(s@),
            Line::Output(s) => Entry::Output(s@),
            Line::Error(s) => Entry::Error(s@),
        }
    }
}

pub open spec fn entries(v: Seq<Line>) -> Seq<Entry> {
    Seq::new(v.len(), |i: int| v[i].entry())
}

/// The entries for entered code: each line that is not blank, without white
/// space at its end.
pub open spec fn echoed(ls: Seq<Seq<char>>) -> Seq<Entry>
    decreases ls.len(),
{
    if ls.len() == 0 {
        Seq::empty()
    } else if trim_end(ls.last()).len() == 0 {
        echoed(ls.drop_last())
    } else {
        echoed(ls.drop_last()).push(Entry::Input(trim_end(ls.last())))
    }
}

/// The transcript, and whether the view follows its end.
#[derive(Debug)]
pub struct Console {
    pub transcript: Vec<Line>,
    pub auto_scroll: bool,
}

impl Console {
    pub open spec fn shown(&self) -> Seq<Entry> {
        entries(self.transcript@)
    }

    pub fn new() -> (r: Console)
        ensures
            r.shown() == Seq::<Entry>::empty(),
            r.auto_scroll,
    {
        let r = Console { transcript: Vec::new(), auto_scroll: true };
        assert(r.shown() =~= Seq::<Entry>::empty());
        r
    }

    /// Echoes entered code, one entry for each line that is not blank.
    pub fn push_input(&mut self, s: &str)
        ensures
            final(self).shown() == old(self).shown() + echoed(lines(s@)),
            final(self).auto_scroll,
    {
        let ghost before = self.shown();
        let v: Vec<char> = chars_of(s);
        let ls: Vec<Vec<char>> = lines_of(&v);
        let ghost all = char_rows(ls@);
        let mut i: usize = 0;
        assert(all.take(0) =~= Seq::<Seq<char>>::empty());
        assert(before + Seq::<Entry>::empty() =~= before);
        while i < ls.len()
            invariant
                all == char_rows(ls@),
                i <= ls.len(),
                self.shown() == before + echoed(all.take(i as int)),
            decreases ls.len() - i,
        {
            assert(all.take(i + 1).drop_last() =~= all.take(i as int));
            assert(all.take(i + 1).last() == ls@[i as int]@);
            let bare: Vec<char> = trimmed_end(&ls[i]);
            if bare.len() > 0 {
                let ghost held = self.transcript@;
                let text: String = string_of(&bare);
                self.transcript.push(Line::Input(text));
                assert(entries(self.transcript@) =~= entries(held).push(Entry::Input(bare@)));
                assert(self.shown() =~= before + echoed(all.take(i + 1)));
            }
            i += 1;
        }
        assert(all.take(ls@.len() as int) =~= all);
        self.auto_scroll = true;
    }

    /// Adds printed text, without white space at its end.
    pub fn push_output(&mut self, s: &str)
        ensures
            final(self).shown() == old(self).shown().push(Entry::Output(trim_end(s@))),
            final(self).auto_scroll,
    {
        let ghost held = self.transcript@;
        let v: Vec<char> = chars_of(s);
        let bare: Vec<char> = trimmed_end(&v);
        let text: String = string_of(&bare);
        self.transcript.push(Line::Output(text));
        self.auto_scroll = true;
        assert(entries(self.transcript@) =~= entries(held).push(Entry::Output(bare@)));
    }

    /// Adds an error or a warning, without white space at its end.
    pub fn push_error(&mut self, s: &str)
        ensures
            final(self).shown() == old(self).shown().push(Entry::Error(trim_end(s@))),
            final(self).auto_scroll,
    {
        let ghost held = self.transcript@;
        let v: Vec<char> = chars_of(s);
        let bare: Vec<char> = trimmed_end(&v);
        let text: String = string_of(&bare);
        self.transcript.push(Line::Error(text));
        self.auto_scroll = true;
        assert(entries(self.transcript@) =~= entries(held).push(Entry::Error(bare@)));
    }

    /// Empties the transcript.
    pub fn clear(&mut self)
        ensures
            final(self).shown() == Seq::<Entry>::empty(),
            final(self).auto_scroll,
    {
        self.transcript = Vec::new();
        self.auto_scroll = true;
        assert(self.shown() =~= Seq::<Entry>::empty());
    }
}

} // verus!
