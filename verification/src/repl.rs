//! The interactive prompt: lines collected until they make a statement, the
//! history, and the shorthand for help.
use crate::text::{
    chars_of, extend_str, has_prefix, owned, part, same_text, starts_with, string_of, texts, trim, trimmed,
};
use vstd::prelude::*;

verus! {

/// What a scan of code has seen: how many brackets of each kind are open, the
/// quote that is open, and whether a comment ended the scan.
#[verifier::ext_equal]
pub struct Scan {
    pub round: int,
    pub curly: int,
    pub square: int,
    pub quote: Option<char>,
    pub over: bool,
}

pub open spec fn fresh_scan() -> Scan {
    Scan { round: 0, curly: 0, square: 0, quote: None, over: false }
}

/// The scan after one more character.
pub open spec fn scanned(s: Scan, c: char) -> Scan {
    if s.over {
        s
    } else {
        match s.quote {
            Some(q) => if c == q {
                Scan { quote: None, ..s }
            } else {
                s
            },
            None => if c == '"' || c == '\'' {
                Scan { quote: Some(c), ..s }
            } else if c == '(' {
                Scan { round: s.round + 1, ..s }
            } else if c == ')' {
                Scan { round: s.round - 1, ..s }
            } else if c == '{' {
                Scan { curly: s.curly + 1, ..s }
            } else if c == '}' {
                Scan { curly: s.curly - 1, ..s }
            } else if c == '[' {
                Scan { square: s.square + 1, ..s }
            } else if c == ']' {
                Scan { square: s.square - 1, ..s }
            } else if c == '#' {
                Scan { over: true, ..s }
            } else {
                s
            },
        }
    }
}

/// The scan of a text.
pub open spec fn scan_of(s: Seq<char>) -> Scan
    decreases s.len(),
{
    if s.len() == 0 {
        fresh_scan()
    } else {
        scanned(scan_of(s.drop_last()), s.last())
    }
}

/// A bracket is still open.
pub open spec fn is_incomplete(s: Seq<char>) -> bool {
    let t = scan_of(s);
    t.round > 0 || t.curly > 0 || t.square > 0
}

proof fn lemma_scan_over(s: Seq<char>, n: int)
    requires
        0 <= n <= s.len(),
        scan_of(s.take(n)).over,
    ensures
        scan_of(s) == scan_of(s.take(n)),
    decreases s.len() - n,
{
    if n == s.len() {
        assert(s.take(n) =~= s);
    } else {
        assert(s.take(n + 1).drop_last() =~= s.take(n));
        lemma_scan_over(s, n + 1);
    }
}

/// Whether a text stops in the middle of a statement: a bracket outside quotes
/// and before the first comment is still open.
pub fn incomplete(s: &str) -> (r: bool)
    ensures
        r == is_incomplete(s@),
{
    let v: Vec<char> = chars_of(s);
    let mut round: i128 = 0;
    let mut curly: i128 = 0;
    let mut square: i128 = 0;
    let mut quote: Option<char> = None;
    let mut i: usize = 0;
    assert(v@.take(0) =~= Seq::<char>::empty());
    while i < v.len()
        invariant
            i <= v.len(),
            v@ == s@,
            -(i as int) <= round <= i,
            -(i as int) <= curly <= i,
            -(i as int) <= square <= i,
            scan_of(v@.take(i as int)) == (Scan {
                round: round as int,
                curly: curly as int,
                square: square as int,
                quote,
                over: false,
            }),
        decreases v.len() - i,
    {
        assert(v@.take(i + 1).drop_last() =~= v@.take(i as int));
        let c: char = v[i];
        match quote {
            Some(q) => {
                if c == q {
                    quote = None;
                }
            },
            None => {
                if c == '"' || c == '\'' {
                    quote = Some(c);
                } else if c == '(' {
                    round = round + 1;
                } else if c == ')' {
                    round = round - 1;
                } else if c == '{' {
                    curly = curly + 1;
                } else if c == '}' {
                    curly = curly - 1;
                } else if c == '[' {
                    square = square + 1;
                } else if c == ']' {
                    square = square - 1;
                } else if c == '#' {
                    proof {
                        lemma_scan_over(v@, i + 1);
                    }
                    return round > 0 || curly > 0 || square > 0;
                }
            },
        }
        i += 1;
    }
    assert(v@.take(v@.len() as int) =~= v@);
    round > 0 || curly > 0 || square > 0
}

/// The shape of a statement, as far as printing depends on it.
#[derive(Debug)]
pub enum Statement {
    Assign,
    TypeDef,
    MethodDef,
    For,
    While,
    /// A call of the function with this name.
    Call(String),
    Other,
}

/// A function that prints by itself.
pub open spec fn prints_itself(name: Seq<char>) -> bool {
    name == "print"@ || name == "cat"@ || name == "message"@ || name == "warning"@ || name == "writeLines"@ || name
        == "invisible"@
}

/// Whether the value of a statement is not printed.
pub fn is_silent(e: &Statement) -> (r: bool)
    ensures
        r == match e {
            Statement::Call(f) => prints_itself(f@),
            Statement::Other => false,
            _ => true,
        },
{
    match e {
        Statement::Call(f) => {
            let s: &str = f.as_str();
            same_text(s, "print") || same_text(s, "cat") || same_text(s, "message") || same_text(s, "warning")
                || same_text(s, "writeLines") || same_text(s, "invisible")
        },
        Statement::Other => false,
        _ => true,
    }
}

/// Whether the value of a statement is to be printed.
pub fn should_print(e: &Statement, null: bool) -> (r: bool)
    ensures
        r == (!null && match e {
            Statement::Call(f) => !prints_itself(f@),
            Statement::Other => true,
            _ => false,
        }),
{
    !is_silent(e) && !null
}

/// The script that the command line names: its first argument, unless it is an
/// option.
pub fn script_argument(args: &Vec<String>) -> (r: bool)
    ensures
        r == (args@.len() >= 2 && !has_prefix(args@[1]@, "-"@)),
{
    if args.len() < 2 {
        return false;
    }
    let v: Vec<char> = chars_of(args[1].as_str());
    !starts_with(&v, "-")
}

// ── The prompt ─────────────────────────────────────────────────────────────

/// The state of the prompt: the code collected so far, whether it waits for
/// more, and the lines that were entered.
#[derive(Debug)]
pub struct Prompt {
    pub buffer: String,
    pub continuation: bool,
    pub history: Vec<String>,
}

/// What to do with a line.
#[derive(Clone, Copy, PartialEq, Eq, Structural, Debug)]
pub enum LineAction {
    /// Leave.
    Quit,
    /// Parse the buffer.
    Parse,
}

/// What to do where the buffer does not parse.
#[derive(Debug)]
pub enum Verdict {
    /// Wait for more.
    Wait,
    /// Report the error in this code.
    Report(String),
}

/// A request to leave.
pub open spec fn leaves(line: Seq<char>) -> bool {
    trim(line) == "q()"@ || trim(line) == "quit()"@
}

pub open spec fn help_call(topic: Seq<char>) -> Seq<char> {
    Seq::<char>::empty() + "help(\""@ + topic + "\")"@
}

/// A line with the shorthand for help written out.
pub open spec fn expanded(line: Seq<char>) -> Seq<char> {
    let t = trim(line);
    if has_prefix(t, "??"@) {
        help_call(trim(t.skip(2)))
    } else if has_prefix(t, "?"@) && t.len() > 1 {
        help_call(trim(t.skip(1)))
    } else {
        line
    }
}

/// The history after a line: a line that is not blank is kept, unless it was
/// the last one.
pub open spec fn remembered(history: Seq<Seq<char>>, line: Seq<char>) -> Seq<Seq<char>> {
    let t = trim(line);
    if t.len() == 0 || (history.len() > 0 && history.last() == t) {
        history
    } else {
        history.push(t)
    }
}

fn help_text(topic: &Vec<char>) -> (r: String)
    ensures
        r@ == help_call(trim(topic@)),
{
    let bare: Vec<char> = trimmed(topic);
    let mut out: Vec<char> = Vec::new();
    extend_str(&mut out, "help(\"");
    crate::text::extend(&mut out, &bare);
    extend_str(&mut out, "\")");
    string_of(&out)
}

fn expand(line: &str) -> (r: String)
    ensures
        r@ == expanded(line@),
{
    let v: Vec<char> = chars_of(line);
    let t: Vec<char> = trimmed(&v);
    proof {
        reveal_strlit("??");
        reveal_strlit("?");
    }
    if starts_with(&t, "??") {
        let topic: Vec<char> = part(&t, 2, t.len());
        assert(topic@ =~= t@.skip(2));
        help_text(&topic)
    } else if starts_with(&t, "?") && t.len() > 1 {
        let topic: Vec<char> = part(&t, 1, t.len());
        assert(topic@ =~= t@.skip(1));
        help_text(&topic)
    } else {
        owned(line)
    }
}

impl Prompt {
    pub fn new() -> (r: Prompt)
        ensures
            r.buffer@ == Seq::<char>::empty(),
            !r.continuation,
            r.history@.len() == 0,
    {
        let r = Prompt { buffer: String::new(), continuation: false, history: Vec::new() };
        assert(r.buffer@ =~= Seq::<char>::empty());
        r
    }

    /// The text in front of the line.
    pub fn lead(&self) -> (r: &'static str)
        ensures
            r@ == if self.continuation {
                "R2+ "@
            } else {
                "R2> "@
            },
    {
        if self.continuation {
            "R2+ "
        } else {
            "R2> "
        }
    }

    /// A line was entered. At the start of a statement it may ask to leave, or
    /// for help; any other line joins the buffer.
    pub fn entered(&mut self, line: &str) -> (r: LineAction)
        ensures
            if !old(self).continuation && leaves(line@) {
                r == LineAction::Quit && *final(self) == *old(self)
            } else {
                let l = if old(self).continuation {
                    line@
                } else {
                    expanded(line@)
                };
                r == LineAction::Parse && final(self).continuation == old(self).continuation && final(self).buffer@
                    == old(self).buffer@ + l + "\n"@ && texts(final(self).history@) == remembered(
                    texts(old(self).history@),
                    l,
                )
            },
    {
        let v: Vec<char> = chars_of(line);
        let t: Vec<char> = trimmed(&v);
        let bare: String = string_of(&t);
        if !self.continuation && (same_text(bare.as_str(), "q()") || same_text(bare.as_str(), "quit()")) {
            return LineAction::Quit;
        }
        let l: String = if self.continuation { owned(line) } else { expand(line) };
        let lv: Vec<char> = chars_of(l.as_str());
        let lt: Vec<char> = trimmed(&lv);
        if lt.len() > 0 {
            let n: usize = self.history.len();
            let text: String = string_of(&lt);
            let again: bool = n > 0 && same_text(self.history[n - 1].as_str(), text.as_str());
            let ghost before = self.history@;
            assert(texts(before).len() == before.len());
            if !again {
                self.history.push(text);
                assert(texts(self.history@) =~= texts(before).push(text@));
            }
        }
        let mut b: Vec<char> = chars_of(self.buffer.as_str());
        extend_str(&mut b, l.as_str());
        extend_str(&mut b, "\n");
        self.buffer = string_of(&b);
        LineAction::Parse
    }

    /// The buffer was parsed and its statements evaluated.
    pub fn evaluated(&mut self)
        ensures
            final(self).buffer@ == Seq::<char>::empty(),
            !final(self).continuation,
            final(self).history == old(self).history,
    {
        self.buffer = String::new();
        self.continuation = false;
        assert(self.buffer@ =~= Seq::<char>::empty());
    }

    /// The buffer did not parse: a statement that stops in the middle waits for
    /// more, any other error is reported and the buffer dropped.
    pub fn parse_failed(&mut self) -> (r: Verdict)
        ensures
            final(self).history == old(self).history,
            if is_incomplete(old(self).buffer@) {
                r is Wait && final(self).continuation && final(self).buffer == old(self).buffer
            } else {
                r is Report && r->Report_0@ == old(self).buffer@ && !final(self).continuation && final(self).buffer@
                    == Seq::<char>::empty()
            },
    {
        if incomplete(self.buffer.as_str()) {
            self.continuation = true;
            Verdict::Wait
        } else {
            let code: String = owned(self.buffer.as_str());
            self.evaluated();
            Verdict::Report(code)
        }
    }
}

/// Quoted text does not count: brackets inside quotes leave the scan as it is.
pub proof fn law_quotes_hide(s: Seq<char>, c: char)
    requires
        scan_of(s).quote is Some,
        scan_of(s).quote != Some(c),
    ensures
        scan_of(s.push(c)) == scan_of(s),
{
    assert(s.push(c).drop_last() =~= s);
}

/// The history never holds the same line twice in a row, nor a blank one.
pub proof fn law_history_varies(history: Seq<Seq<char>>, line: Seq<char>)
    requires
        forall|i: int| 0 < i < history.len() ==> #[trigger] history[i] != history[i - 1],
        forall|i: int| 0 <= i < history.len() ==> (#[trigger] history[i]).len() > 0,
    ensures
        forall|i: int| 0 < i < remembered(history, line).len() ==> #[trigger] remembered(history, line)[i]
            != remembered(history, line)[i - 1],
        forall|i: int| 0 <= i < remembered(history, line).len() ==> (#[trigger] remembered(history, line)[i]).len() > 0,
{
}

} // verus!
