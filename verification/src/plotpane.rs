//! The plot pane: which drawing it shows, and when it has to be drawn again.
use crate::text::{opt_text, owned, same_text};
use vstd::prelude::*;

verus! {

/// A drawing that was found: its path and when it was last changed.
#[derive(Debug)]
pub struct Drawing {
    pub path: String,
    pub changed: i128,
}

/// The drawing that was changed last among the first `n`; of several changed at
/// once the first.
pub open spec fn latest(v: Seq<Drawing>, n: nat) -> Option<Drawing>
    decreases n,
{
    if n == 0 {
        None
    } else {
        match latest(v, (n - 1) as nat) {
            None => Some(v[n - 1]),
            Some(d) => if v[n - 1].changed > d.changed {
                Some(v[n - 1])
            } else {
                Some(d)
            },
        }
    }
}

/// The names that drawings are saved under, in the order in which they are
/// looked for.
pub fn candidates() -> (r: Vec<&'static str>)
    ensures
        r@.len() == 4,
        r@[0]@ == "plot.svg"@,
        r@[1]@ == "hist.svg"@,
        r@[2]@ == "boxplot.svg"@,
        r@[3]@ == "barplot.svg"@,
{
    let mut v: Vec<&'static str> = Vec::new();
    v.push("plot.svg");
    v.push("hist.svg");
    v.push("boxplot.svg");
    v.push("barplot.svg");
    v
}

/// What the pane shows: the drawing, when it was changed, and whether the
/// picture of it is up to date.
#[derive(Debug)]
pub struct PlotPane {
    pub last_path: Option<String>,
    pub last_change: Option<i128>,
    pub drawn: bool,
}

impl PlotPane {
    pub fn new() -> (r: PlotPane)
        ensures
            r.last_path is None,
            r.last_change is None,
            !r.drawn,
    {
        PlotPane { last_path: None, last_change: None, drawn: false }
    }

    /// The pane shows this drawing in its present state.
    pub open spec fn shows(&self, d: Drawing) -> bool {
        self.last_change == Some(d.changed) && opt_text(self.last_path) == Some(d.path@)
    }

    /// Looks at the drawings that were found: a drawing that the pane does not
    /// show yet is to be drawn.
    pub fn reload_if_changed(&mut self, found: &Vec<Drawing>)
        ensures
            match latest(found@, found@.len()) {
                None => *final(self) == *old(self),
                Some(d) => if old(self).shows(d) {
                    *final(self) == *old(self)
                } else {
                    final(self).shows(d) && !final(self).drawn
                },
            },
    {
        let mut best: Option<usize> = None;
        let mut i: usize = 0;
        while i < found.len()
            invariant
                i <= found.len(),
                match best {
                    None => latest(found@, i as nat) is None,
                    Some(k) => k < i && latest(found@, i as nat) == Some(found@[k as int]),
                },
            decreases found.len() - i,
        {
            match best {
                None => {
                    best = Some(i);
                },
                Some(k) => {
                    if found[i].changed > found[k].changed {
                        best = Some(i);
                    }
                },
            }
            i += 1;
        }
        if let Some(k) = best {
            let same_time: bool = match self.last_change {
                Some(t) => t == found[k].changed,
                None => false,
            };
            let same_path: bool = match &self.last_path {
                Some(p) => same_text(p.as_str(), found[k].path.as_str()),
                None => false,
            };
            if !same_time || !same_path {
                self.last_path = Some(owned(found[k].path.as_str()));
                self.last_change = Some(found[k].changed);
                self.drawn = false;
            }
        }
    }

    /// Looks again, and draws whatever is there.
    pub fn force_reload(&mut self, found: &Vec<Drawing>)
        ensures
            !final(self).drawn,
            match latest(found@, found@.len()) {
                None => final(self).last_path == old(self).last_path && final(self).last_change is None,
                Some(d) => final(self).shows(d),
            },
    {
        self.last_change = None;
        self.drawn = false;
        self.reload_if_changed(found);
    }

    /// The picture was drawn.
    pub fn redrawn(&mut self)
        ensures
            *final(self) == (PlotPane { drawn: true, ..*old(self) }),
    {
        self.drawn = true;
    }
}

/// No drawing that was found was changed after the one that the pane shows.
pub proof fn law_latest(v: Seq<Drawing>, n: nat)
    requires
        0 < n <= v.len(),
    ensures
        latest(v, n) is Some,
        forall|i: int| 0 <= i < n ==> (#[trigger] v[i]).changed <= (latest(v, n)->0).changed,
    decreases n,
{
    if n > 1 {
        law_latest(v, (n - 1) as nat);
    }
}

} // verus!
