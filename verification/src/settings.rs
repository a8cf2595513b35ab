//! The preferences of a user, and the text that they are kept in.
use crate::paths::{PathStyle, join_path, joined_path};
use crate::text::{
    char_rows, chars_of, chop_cr, extend_str, find, find_from, is_space, lemma_split_nonempty, lines,
    lines_of, opt_text, part, same_text, split, string_of, trim, trim_end, trim_start, trimmed,
};
use vstd::prelude::*;

verus! {

/// One as a single-precision number.
pub const SCALE_ONE_BITS: u32 = 0x3f80_0000;

/// How a single-precision number, given by its bits, is read from text and
/// written as text; supplied by the caller.
pub struct ScaleText<R: Fn(&str) -> Option<u32>, W: Fn(u32) -> String> {
    pub read: R,
    pub show: W,
}

impl<R: Fn(&str) -> Option<u32>, W: Fn(u32) -> String> ScaleText<R, W> {
    /// Text can be read and numbers written, always with the same result.
    pub open spec fn wf(&self) -> bool {
        &&& forall|s: &str| #[trigger] call_requires(self.read, (s,))
        &&& forall|s: &str, t: &str, a: Option<u32>, b: Option<u32>|
            s@ == t@ && #[trigger] call_ensures(self.read, (s,), a) && #[trigger] call_ensures(self.read, (t,), b) ==> a
                == b
        &&& forall|x: u32| #[trigger] call_requires(self.show, (x,))
        &&& forall|x: u32, a: String, b: String| #[trigger]
            call_ensures(self.show, (x,), a) && #[trigger] call_ensures(self.show, (x,), b) ==> a@ == b@
    }

    pub open spec fn reads(&self, s: Seq<char>, r: Option<u32>) -> bool {
        exists|t: &str| t@ == s && #[trigger] call_ensures(self.read, (t,), r)
    }

    /// The number that a text stands for, if it is one.
    pub open spec fn number(&self, s: Seq<char>) -> Option<u32> {
        choose|r: Option<u32>| self.reads(s, r)
    }

    /// The text of a number.
    pub open spec fn text(&self, x: u32) -> Seq<char> {
        (choose|s: String| call_ensures(self.show, (x,), s))@
    }

    fn parse(&self, s: &str) -> (r: Option<u32>)
        requires
            self.wf(),
        ensures
            r == self.number(s@),
    {
        let r: Option<u32> = (self.read)(s);
        proof {
            assert(self.reads(s@, r));
            let q = self.number(s@);
            assert(self.reads(s@, q));
        }
        r
    }

    fn print(&self, x: u32) -> (r: String)
        requires
            self.wf(),
        ensures
            r@ == self.text(x),
    {
        let r: String = (self.show)(x);
        assert(call_ensures(self.show, (x,), r));
        r
    }
}

/// The preferences: the working directory, the scale of the type as the bits of
/// a single-precision number, and whether the colours are dark.
#[derive(Debug)]
pub struct Settings {
    pub working_directory: Option<String>,
    pub font_scale: u32,
    pub dark_mode: bool,
}

/// The preferences by their contents.
#[verifier::ext_equal]
pub struct Prefs {
    pub dir: Option<Seq<char>>,
    pub scale: u32,
    pub dark: bool,
}

/// The preferences where nothing was kept.
pub open spec fn usual() -> Prefs {
    Prefs { dir: None, scale: SCALE_ONE_BITS, dark: true }
}

/// The preferences after one line.
pub open spec fn after_line<R: Fn(&str) -> Option<u32>, W: Fn(u32) -> String>(
    st: &ScaleText<R, W>,
    p: Prefs,
    raw: Seq<char>,
) -> Prefs {
    let line = trim(raw);
    if line.len() == 0 || line[0] == '#' {
        p
    } else {
        match find_from(line, "="@, 0) {
            None => p,
            Some(k) => {
                let key = trim(line.take(k));
                let value = trim(line.skip(k + 1));
                if key == "working_directory"@ {
                    Prefs { dir: Some(value), ..p }
                } else if key == "font_scale"@ {
                    Prefs {
                        scale: match st.number(value) {
                            Some(x) => x,
                            None => SCALE_ONE_BITS,
                        },
                        ..p
                    }
                } else if key == "dark_mode"@ {
                    Prefs { dark: value == "true"@, ..p }
                } else {
                    p
                }
            },
        }
    }
}

/// The preferences after the lines.
pub open spec fn after_lines<R: Fn(&str) -> Option<u32>, W: Fn(u32) -> String>(
    st: &ScaleText<R, W>,
    ls: Seq<Seq<char>>,
) -> Prefs
    decreases ls.len(),
{
    if ls.len() == 0 {
        usual()
    } else {
        after_line(st, after_lines(st, ls.drop_last()), ls.last())
    }
}

/// A line with its end.
pub open spec fn with_end(s: Seq<char>) -> Seq<char> {
    s + "\n"@
}

pub open spec fn dir_line(d: Seq<char>) -> Seq<char> {
    "working_directory = "@ + d
}

pub open spec fn scale_line(t: Seq<char>) -> Seq<char> {
    "font_scale = "@ + t
}

pub open spec fn dark_line(b: bool) -> Seq<char> {
    if b {
        "dark_mode = true"@
    } else {
        "dark_mode = false"@
    }
}

/// The lines that preferences are kept in.
pub open spec fn kept_lines<R: Fn(&str) -> Option<u32>, W: Fn(u32) -> String>(st: &ScaleText<R, W>, p: Prefs) -> Seq<Seq<char>> {
    let head = seq!["# Ardon-R2 GUI preferences"@];
    let dir = match p.dir {
        Some(d) => head.push(dir_line(d)),
        None => head,
    };
    dir.push(scale_line(st.text(p.scale))).push(dark_line(p.dark))
}

/// Lines, each with its end.
pub open spec fn ended(ls: Seq<Seq<char>>) -> Seq<char>
    decreases ls.len(),
{
    if ls.len() == 0 {
        Seq::empty()
    } else {
        ended(ls.drop_last()) + with_end(ls.last())
    }
}

/// A text that survives being kept: one line, without white space at its ends.
pub open spec fn plain(s: Seq<char>) -> bool {
    trim(s) == s && !s.contains('\n')
}

/// Preferences that survive being kept: the directory is plain, and the scale
/// has a plain text that reads back.
pub open spec fn keepable<R: Fn(&str) -> Option<u32>, W: Fn(u32) -> String>(st: &ScaleText<R, W>, p: Prefs) -> bool {
    &&& p.dir is Some ==> plain(p.dir->0)
    &&& plain(st.text(p.scale))
    &&& st.text(p.scale).len() > 0
    &&& st.number(st.text(p.scale)) == Some(p.scale)
}

// ── Lines ──────────────────────────────────────────────────────────────────

proof fn lemma_split_append(s: Seq<char>, t: Seq<char>, c: char)
    requires
        !t.contains(c),
    ensures
        split(s + t, c) == split(s, c).drop_last().push(split(s, c).last() + t),
    decreases t.len(),
{
    lemma_split_nonempty(s, c);
    if t.len() == 0 {
        assert(s + t =~= s);
        assert(split(s, c).last() + t =~= split(s, c).last());
        assert(split(s, c).drop_last().push(split(s, c).last()) =~= split(s, c));
    } else {
        let u = t.drop_last();
        assert(t.contains(t.last()));
        assert(!u.contains(c)) by {
            if u.contains(c) {
                let i = choose|i: int| 0 <= i < u.len() && u[i] == c;
                assert(t[i] == c);
            }
        }
        lemma_split_append(s, u, c);
        assert((s + t).drop_last() =~= s + u);
        assert((s + t).last() == t.last());
        let p = split(s + u, c);
        assert(p.drop_last() =~= split(s, c).drop_last());
        assert((split(s, c).last() + u).push(t.last()) =~= split(s, c).last() + t);
    }
}

proof fn lemma_split_ended(ls: Seq<Seq<char>>)
    requires
        forall|i: int| 0 <= i < ls.len() ==> !(#[trigger] ls[i]).contains('\n'),
    ensures
        split(ended(ls), '\n') == ls.push(Seq::empty()),
    decreases ls.len(),
{
    reveal_strlit("\n");
    if ls.len() == 0 {
        assert(split(Seq::<char>::empty(), '\n') =~= ls.push(Seq::empty()));
    } else {
        let d = ls.drop_last();
        lemma_split_ended(d);
        let s = ended(d) + ls.last();
        lemma_split_append(ended(d), ls.last(), '\n');
        assert(Seq::<char>::empty() + ls.last() =~= ls.last());
        assert(split(s, '\n') =~= d.push(ls.last()));
        assert(d.push(ls.last()) =~= ls);
        assert(ended(ls) =~= s.push('\n'));
        assert(s.push('\n').drop_last() =~= s);
        assert(split(ended(ls), '\n') =~= ls.push(Seq::empty()));
    }
}

proof fn lemma_lines_ended(ls: Seq<Seq<char>>)
    requires
        forall|i: int| 0 <= i < ls.len() ==> !(#[trigger] ls[i]).contains('\n'),
        forall|i: int| 0 <= i < ls.len() ==> chop_cr(#[trigger] ls[i]) == ls[i],
    ensures
        lines(ended(ls)) == ls,
{
    lemma_split_ended(ls);
    let p = split(ended(ls), '\n');
    assert(p.last() =~= Seq::<char>::empty());
    assert(lines(ended(ls)) =~= ls);
}

// ── White space ────────────────────────────────────────────────────────────

proof fn lemma_trim_solid(s: Seq<char>)
    requires
        s.len() > 0,
        !is_space(s[0]),
        !is_space(s.last()),
    ensures
        trim(s) == s,
{
}

proof fn lemma_plain_ends(s: Seq<char>)
    requires
        trim(s) == s,
        s.len() > 0,
    ensures
        !is_space(s[0]),
        !is_space(s.last()),
{
    lemma_trim_start_len(s);
    lemma_trim_end_len(trim_start(s));
    if is_space(s[0]) {
        lemma_trim_start_len(s.drop_first());
    }
    assert(trim_start(s) == s);
    if is_space(s.last()) {
        lemma_trim_end_len(s.drop_last());
    }
}

proof fn lemma_trim_start_len(s: Seq<char>)
    ensures
        trim_start(s).len() <= s.len(),
    decreases s.len(),
{
    if s.len() > 0 && is_space(s[0]) {
        lemma_trim_start_len(s.drop_first());
    }
}

proof fn lemma_trim_end_len(s: Seq<char>)
    ensures
        trim_end(s).len() <= s.len(),
    decreases s.len(),
{
    if s.len() > 0 && is_space(s.last()) {
        lemma_trim_end_len(s.drop_last());
    }
}

/// The first equals sign of `key = value`, where the key holds none.
proof fn lemma_first_equals(line: Seq<char>, k: int, from: int)
    requires
        0 <= from <= k < line.len(),
        line[k] == '=',
        forall|i: int| 0 <= i < k ==> #[trigger] line[i] != '=',
    ensures
        find_from(line, "="@, from) == Some(k),
    decreases k - from,
{
    reveal_strlit("=");
    let e = "="@;
    assert(e =~= seq!['=']);
    if from == k {
        assert(line.subrange(k, k + 1) =~= e);
    } else {
        assert(line.subrange(from, from + 1)[0] == line[from]);
        if from + 1 <= line.len() && line.subrange(from, from + 1) == e {
            assert(e[0] == '=');
        }
        lemma_first_equals(line, k, from + 1);
    }
}

/// A trimmed line `key = value`: its key and its value.
proof fn lemma_key_value(key: Seq<char>, value: Seq<char>)
    requires
        key.len() > 0,
        !key.contains('='),
        trim(key) == key,
        trim(value) == value,
    ensures
        ({
            let line = trim(key + " = "@ + value);
            let k: int = key.len() as int + 1;
            &&& line.len() > 0
            &&& line[0] == key[0]
            &&& find_from(line, "="@, 0) == Some(k)
            &&& trim(line.take(k)) == key
            &&& trim(line.skip(k + 1)) == value
        }),
{
    reveal_strlit(" = ");
    let raw = key + " = "@ + value;
    let k: int = key.len() as int + 1;
    assert(" = "@ =~= seq![' ', '=', ' ']);
    lemma_plain_ends(key);
    assert(raw[0] == key[0]);
    assert(trim_start(raw) == raw);
    let line = trim(raw);
    let front = key.push(' ').push('=');
    if value.len() > 0 {
        lemma_plain_ends(value);
        assert(raw.last() == value.last());
        assert(line == raw);
        assert(line.skip(k + 1) =~= seq![' '] + value);
        let t = seq![' '] + value;
        assert(t.drop_first() =~= value);
        assert(trim_start(t) == trim_start(value));
        assert(trim_start(value) == value);
        assert(trim(t) == value);
    } else {
        assert(raw.drop_last() =~= front);
        assert(raw.last() == ' ');
        assert(trim_end(raw) == trim_end(front));
        assert(trim_end(front) == front);
        assert(line == front);
        assert(line.skip(k + 1) =~= Seq::<char>::empty());
        assert(value =~= Seq::<char>::empty());
    }
    assert(line.take(k) =~= key.push(' '));
    let u = key.push(' ');
    assert(trim_start(u) == u);
    assert(u.drop_last() =~= key);
    assert(trim_end(u) == trim_end(key));
    assert(trim(u) == key);
    assert(line[k] == '=');
    assert forall|i: int| 0 <= i < k implies #[trigger] line[i] != '=' by {
        assert(line[i] == u[i]);
        if i < key.len() {
            assert(key.contains(key[i]));
        }
    }
    lemma_first_equals(line, k, 0);
}

proof fn lemma_dir_read<R: Fn(&str) -> Option<u32>, W: Fn(u32) -> String>(st: &ScaleText<R, W>, p: Prefs, d: Seq<char>)
    requires
        plain(d),
    ensures
        after_line(st, p, dir_line(d)) == (Prefs { dir: Some(d), ..p }),
{
    let key = "working_directory"@;
    reveal_strlit("working_directory");
    reveal_strlit("working_directory = ");
    reveal_strlit(" = ");
    assert("working_directory = "@ =~= key + " = "@);
    assert(dir_line(d) =~= key + " = "@ + d);
    lemma_trim_solid(key);
    lemma_key_value(key, d);
}

proof fn lemma_scale_read<R: Fn(&str) -> Option<u32>, W: Fn(u32) -> String>(st: &ScaleText<R, W>, p: Prefs, x: u32)
    requires
        plain(st.text(x)),
        st.number(st.text(x)) == Some(x),
    ensures
        after_line(st, p, scale_line(st.text(x))) == (Prefs { scale: x, ..p }),
{
    let key = "font_scale"@;
    let v = st.text(x);
    reveal_strlit("font_scale");
    reveal_strlit("working_directory");
    reveal_strlit("font_scale = ");
    reveal_strlit(" = ");
    assert("font_scale = "@ =~= key + " = "@);
    assert(scale_line(v) =~= key + " = "@ + v);
    lemma_trim_solid(key);
    lemma_key_value(key, v);
    assert(key.len() != "working_directory"@.len());
}

proof fn lemma_dark_read<R: Fn(&str) -> Option<u32>, W: Fn(u32) -> String>(st: &ScaleText<R, W>, p: Prefs, b: bool)
    ensures
        after_line(st, p, dark_line(b)) == (Prefs { dark: b, ..p }),
{
    let key = "dark_mode"@;
    let v = if b {
        "true"@
    } else {
        "false"@
    };
    reveal_strlit("dark_mode");
    reveal_strlit("font_scale");
    reveal_strlit("working_directory");
    reveal_strlit("dark_mode = true");
    reveal_strlit("dark_mode = false");
    reveal_strlit("true");
    reveal_strlit("false");
    reveal_strlit(" = ");
    assert(dark_line(b) =~= key + " = "@ + v);
    lemma_trim_solid(key);
    lemma_trim_solid(v);
    lemma_key_value(key, v);
    assert(key.len() != "working_directory"@.len());
    assert(key.len() != "font_scale"@.len());
    assert("true"@.len() != "false"@.len());
}

proof fn lemma_read_back<R: Fn(&str) -> Option<u32>, W: Fn(u32) -> String>(st: &ScaleText<R, W>, p: Prefs)
    requires
        keepable(st, p),
    ensures
        after_lines(st, lines(ended(kept_lines(st, p)))) == p,
{
    let ls = kept_lines(st, p);
    let head = seq!["# Ardon-R2 GUI preferences"@];
    reveal_strlit("# Ardon-R2 GUI preferences");
    reveal_strlit("working_directory = ");
    reveal_strlit("font_scale = ");
    reveal_strlit("dark_mode = true");
    reveal_strlit("dark_mode = false");
    let sl = scale_line(st.text(p.scale));
    let dl = dark_line(p.dark);
    lemma_plain_ends(st.text(p.scale));
    lemma_whole_line("font_scale = "@, st.text(p.scale));
    let mid = match p.dir {
        Some(d) => head.push(dir_line(d)),
        None => head,
    };
    if let Some(d) = p.dir {
        if d.len() > 0 {
            lemma_plain_ends(d);
        }
        lemma_whole_line("working_directory = "@, d);
    }
    assert forall|i: int| 0 <= i < ls.len() implies !(#[trigger] ls[i]).contains('\n') && chop_cr(ls[i]) == ls[i] by {
        if i == 0 {
            assert(ls[0] == "# Ardon-R2 GUI preferences"@);
        } else if i == ls.len() - 1 {
            assert(ls[i] == dl);
        } else if i == ls.len() - 2 {
            assert(ls[i] == sl);
        } else {
            assert(ls[i] == dir_line(p.dir->0));
        }
    }
    lemma_lines_ended(ls);
    // The lines one after the other.
    let l1 = head;
    assert(l1.drop_last() =~= Seq::<Seq<char>>::empty());
    let h = "# Ardon-R2 GUI preferences"@;
    lemma_trim_solid(h);
    assert(after_lines(st, l1.drop_last()) == usual());
    assert(after_lines(st, l1) == usual());
    if let Some(d) = p.dir {
        assert(mid.drop_last() =~= head);
        lemma_dir_read(st, usual(), d);
    }
    let a = after_lines(st, mid);
    assert(a == (Prefs { dir: p.dir, ..usual() }));
    assert(mid.push(sl).drop_last() =~= mid);
    lemma_scale_read(st, a, p.scale);
    let b = after_lines(st, mid.push(sl));
    assert(ls.drop_last() =~= mid.push(sl));
    lemma_dark_read(st, b, p.dark);
    assert(after_lines(st, ls) =~= p);
}

/// A lead without line ends and a plain text make one line.
proof fn lemma_whole_line(lead: Seq<char>, t: Seq<char>)
    requires
        lead.len() > 0,
        !lead.contains('\n'),
        lead.last() != '\r',
        !t.contains('\n'),
        t.len() > 0 ==> t.last() != '\r',
    ensures
        !(lead + t).contains('\n'),
        chop_cr(lead + t) == lead + t,
{
    let s = lead + t;
    assert forall|i: int| 0 <= i < s.len() implies s[i] != '\n' by {
        if i < lead.len() {
            assert(lead.contains(lead[i]));
        } else {
            assert(t.contains(t[i - lead.len()]));
        }
    }
    if t.len() == 0 {
        assert(s =~= lead);
    }
}

// ── Reading and writing ────────────────────────────────────────────────────

impl Settings {
    pub open spec fn prefs(&self) -> Prefs {
        Prefs { dir: opt_text(self.working_directory), scale: self.font_scale, dark: self.dark_mode }
    }

    /// The preferences in a text; the usual ones where there is no text.
    pub fn load_or_default<R: Fn(&str) -> Option<u32>, W: Fn(u32) -> String>(st: &ScaleText<R, W>, text: Option<&str>) -> (r: Settings)
        requires
            st.wf(),
        ensures
            r.prefs() == match text {
                Some(t) => after_lines(st, lines(t@)),
                None => usual(),
            },
    {
        let mut s = Settings { working_directory: None, font_scale: SCALE_ONE_BITS, dark_mode: true };
        match text {
            None => s,
            Some(t) => {
                let v: Vec<char> = chars_of(t);
                let ls: Vec<Vec<char>> = lines_of(&v);
                let ghost all = char_rows(ls@);
                let mut i: usize = 0;
                assert(all.take(0) =~= Seq::<Seq<char>>::empty());
                while i < ls.len()
                    invariant
                        st.wf(),
                        all == char_rows(ls@),
                        i <= ls.len(),
                        s.prefs() == after_lines(st, all.take(i as int)),
                    decreases ls.len() - i,
                {
                    assert(all.take(i + 1).drop_last() =~= all.take(i as int));
                    assert(all.take(i + 1).last() == ls@[i as int]@);
                    s.read_line(st, &ls[i]);
                    i += 1;
                }
                assert(all.take(ls@.len() as int) =~= all);
                s
            },
        }
    }

    fn read_line<R: Fn(&str) -> Option<u32>, W: Fn(u32) -> String>(&mut self, st: &ScaleText<R, W>, raw: &Vec<char>)
        requires
            st.wf(),
        ensures
            final(self).prefs() == after_line(st, old(self).prefs(), raw@),
    {
        let line: Vec<char> = trimmed(raw);
        if line.len() == 0 || line[0] == '#' {
            return;
        }
        let sign: Vec<char> = chars_of("=");
        let ghost before = self.prefs();
        if let Some(k) = find(&line, &sign, 0) {
            proof {
                reveal_strlit("=");
            }
            let left: Vec<char> = part(&line, 0, k);
            let right: Vec<char> = part(&line, k + 1, line.len());
            assert(left@ =~= line@.take(k as int));
            assert(right@ =~= line@.skip(k + 1));
            let kv: Vec<char> = trimmed(&left);
            let vv: Vec<char> = trimmed(&right);
            let key: String = string_of(&kv);
            let value: String = string_of(&vv);
            if same_text(key.as_str(), "working_directory") {
                self.working_directory = Some(value);
            } else if same_text(key.as_str(), "font_scale") {
                self.font_scale = match st.parse(value.as_str()) {
                    Some(x) => x,
                    None => SCALE_ONE_BITS,
                };
            } else if same_text(key.as_str(), "dark_mode") {
                self.dark_mode = same_text(value.as_str(), "true");
            }
        }
    }

    /// The text to keep. Preferences that survive being kept read back as they
    /// are.
    pub fn save<R: Fn(&str) -> Option<u32>, W: Fn(u32) -> String>(&self, st: &ScaleText<R, W>) -> (r: String)
        requires
            st.wf(),
        ensures
            r@ == ended(kept_lines(st, self.prefs())),
            keepable(st, self.prefs()) ==> after_lines(st, lines(r@)) == self.prefs(),
    {
        let mut out: Vec<char> = Vec::new();
        let ghost head = seq!["# Ardon-R2 GUI preferences"@];
        let ghost mut ls = head;
        proof {
            reveal_strlit("\n");
        }
        extend_str(&mut out, "# Ardon-R2 GUI preferences");
        extend_str(&mut out, "\n");
        proof {
            assert(head.drop_last() =~= Seq::<Seq<char>>::empty());
            assert(ended(head.drop_last()) =~= Seq::<char>::empty());
            assert(out@ =~= ended(head));
        }
        if let Some(d) = &self.working_directory {
            let ghost before = out@;
            extend_str(&mut out, "working_directory = ");
            extend_str(&mut out, d.as_str());
            extend_str(&mut out, "\n");
            proof {
                ls = head.push(dir_line(d@));
                assert(ls.drop_last() =~= head);
                assert(out@ =~= ended(ls));
            }
        }
        let scale: String = st.print(self.font_scale);
        extend_str(&mut out, "font_scale = ");
        extend_str(&mut out, scale.as_str());
        extend_str(&mut out, "\n");
        proof {
            let l2 = ls.push(scale_line(scale@));
            assert(l2.drop_last() =~= ls);
            assert(out@ =~= ended(l2));
        }
        extend_str(
            &mut out,
            if self.dark_mode {
                "dark_mode = true"
            } else {
                "dark_mode = false"
            },
        );
        extend_str(&mut out, "\n");
        proof {
            let l2 = ls.push(scale_line(scale@));
            let l3 = l2.push(dark_line(self.dark_mode));
            assert(l3.drop_last() =~= l2);
            assert(out@ =~= ended(l3));
            assert(l3 =~= kept_lines(st, self.prefs()));
            if keepable(st, self.prefs()) {
                lemma_read_back(st, self.prefs());
            }
        }
        string_of(&out)
    }
}

/// Where the preferences are kept, given the variables of the environment: the
/// application data on Windows; elsewhere the configuration directory, which is
/// below the home directory where it is not set.
pub open spec fn settings_place(
    style: PathStyle,
    appdata: Option<Seq<char>>,
    config: Option<Seq<char>>,
    home: Option<Seq<char>>,
) -> Option<Seq<char>> {
    match style {
        PathStyle::Windows => match appdata {
            Some(d) => Some(joined_path(style, joined_path(style, d, "Ardon-R2"@), "settings.json"@)),
            None => None,
        },
        PathStyle::Unix => match config {
            Some(d) => Some(joined_path(style, joined_path(style, d, "ardon-r2"@), "settings.json"@)),
            None => match home {
                Some(h) => Some(
                    joined_path(
                        style,
                        joined_path(style, joined_path(style, h, ".config"@), "ardon-r2"@),
                        "settings.json"@,
                    ),
                ),
                None => None,
            },
        },
    }
}

/// Where the preferences are kept.
pub fn settings_path(style: PathStyle, appdata: Option<String>, config: Option<String>, home: Option<String>) -> (r: Option<
    String,
>)
    ensures
        opt_text(r) == settings_place(style, opt_text(appdata), opt_text(config), opt_text(home)),
{
    let dir: String = match style {
        PathStyle::Windows => match appdata {
            Some(d) => join_path(style, d.as_str(), "Ardon-R2"),
            None => {
                return None;
            },
        },
        PathStyle::Unix => {
            let base: String = match config {
                Some(d) => d,
                None => match home {
                    Some(h) => join_path(style, h.as_str(), ".config"),
                    None => {
                        return None;
                    },
                },
            };
            join_path(style, base.as_str(), "ardon-r2")
        },
    };
    Some(join_path(style, dir.as_str(), "settings.json"))
}

} // verus!
