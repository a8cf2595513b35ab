//! Paths as text, as Unix and as Windows write them.
use crate::text::{chars_of, extend_str, opt_text, part, string_of};
use vstd::prelude::*;

verus! {

/// How a system writes its paths.
#[derive(Clone, Copy, PartialEq, Eq, Structural, Debug)]
pub enum PathStyle {
    /// Components are parted by `/`.
    Unix,
    /// Components are parted by `\` or `/`, and a path may begin with a drive
    /// or a network share.
    Windows,
}

/// The character parts components.
pub open spec fn parts(style: PathStyle, c: char) -> bool {
    c == '/' || (style is Windows && c == '\\')
}

fn parts_at(style: PathStyle, c: char) -> (r: bool)
    ensures
        r == parts(style, c),
{
    match style {
        PathStyle::Unix => c == '/',
        PathStyle::Windows => c == '/' || c == '\\',
    }
}

pub open spec fn letter(c: char) -> bool {
    'a' <= c <= 'z' || 'A' <= c <= 'Z'
}

/// The path begins with the letter of a drive.
pub open spec fn on_drive(style: PathStyle, p: Seq<char>) -> bool {
    style is Windows && p.len() >= 2 && letter(p[0]) && p[1] == ':'
}

fn begins_on_drive(style: PathStyle, p: &Vec<char>) -> (r: bool)
    ensures
        r == on_drive(style, p@),
{
    match style {
        PathStyle::Unix => false,
        PathStyle::Windows => p.len() >= 2 && (('a' <= p[0] && p[0] <= 'z') || ('A' <= p[0] && p[0] <= 'Z')) && p[1] == ':',
    }
}

// ── Joining ────────────────────────────────────────────────────────────────

/// What parts two components where the path does not end with it already.
pub open spec fn main_separator(style: PathStyle) -> Seq<char> {
    match style {
        PathStyle::Unix => "/"@,
        PathStyle::Windows => "\\"@,
    }
}

/// A path with one more component. Nothing is put between them where the path
/// is empty, ends with a separator or is the letter of a drive alone.
pub open spec fn joined_path(style: PathStyle, base: Seq<char>, name: Seq<char>) -> Seq<char> {
    if base.len() == 0 || parts(style, base.last()) || (on_drive(style, base) && base.len() == 2) {
        base + name
    } else {
        base + main_separator(style) + name
    }
}

/// A path with one more component.
pub fn join_path(style: PathStyle, base: &str, name: &str) -> (r: String)
    ensures
        r@ == joined_path(style, base@, name@),
{
    let mut t: Vec<char> = chars_of(base);
    let n: usize = t.len();
    let drive: bool = n == 2 && begins_on_drive(style, &t);
    if n > 0 && !drive && !parts_at(style, t[n - 1]) {
        match style {
            PathStyle::Unix => extend_str(&mut t, "/"),
            PathStyle::Windows => extend_str(&mut t, "\\"),
        }
    }
    extend_str(&mut t, name);
    let r: String = string_of(&t);
    assert(r@ =~= joined_path(style, base@, name@));
    r
}

// ── The last component ─────────────────────────────────────────────────────

/// The place of the first separator from `i` on; the end where there is none.
pub open spec fn stretch(style: PathStyle, p: Seq<char>, i: int) -> int
    decreases p.len() - i,
{
    if i >= p.len() || parts(style, p[i]) {
        i
    } else {
        stretch(style, p, i + 1)
    }
}

fn stretch_end(style: PathStyle, p: &Vec<char>, from: usize) -> (r: usize)
    requires
        from <= p@.len(),
    ensures
        r == stretch(style, p@, from as int),
        from <= r <= p@.len(),
{
    let mut i: usize = from;
    while i < p.len() && !parts_at(style, p[i])
        invariant
            from <= i <= p@.len(),
            stretch(style, p@, i as int) == stretch(style, p@, from as int),
        decreases p@.len() - i,
    {
        i += 1;
    }
    i
}

/// The length of what names the drive, or the server and the share, in front
/// of a path.
pub open spec fn prefix_len(style: PathStyle, p: Seq<char>) -> int {
    if style is Windows && p.len() >= 2 && parts(style, p[0]) && parts(style, p[1]) {
        let server = stretch(style, p, 2);
        let share = stretch(style, p, server + 1);
        if server > 2 && share > server + 1 {
            share
        } else {
            0
        }
    } else if on_drive(style, p) {
        2
    } else {
        0
    }
}

fn prefix_end(style: PathStyle, p: &Vec<char>) -> (r: usize)
    ensures
        r == prefix_len(style, p@),
        r <= p@.len(),
{
    let windows: bool = matches!(style, PathStyle::Windows);
    if windows && p.len() >= 2 && parts_at(style, p[0]) && parts_at(style, p[1]) {
        let server: usize = stretch_end(style, p, 2);
        if server == 2 || server == p.len() {
            return 0;
        }
        let share: usize = stretch_end(style, p, server + 1);
        if share > server + 1 {
            share
        } else {
            0
        }
    } else if begins_on_drive(style, p) {
        2
    } else {
        0
    }
}

/// A path without separators and single dots at its end.
pub open spec fn bare_path(style: PathStyle, p: Seq<char>) -> Seq<char>
    decreases p.len(),
{
    if p.len() > 0 && parts(style, p.last()) {
        bare_path(style, p.drop_last())
    } else if p.len() > 1 && p.last() == '.' && parts(style, p[p.len() - 2]) {
        bare_path(style, p.drop_last())
    } else {
        p
    }
}

/// What follows the last separator.
pub open spec fn last_part(style: PathStyle, p: Seq<char>) -> Seq<char>
    decreases p.len(),
{
    if p.len() == 0 || parts(style, p.last()) {
        Seq::empty()
    } else {
        last_part(style, p.drop_last()).push(p.last())
    }
}

/// The last component of a path, if it is a name.
pub open spec fn file_name(style: PathStyle, p: Seq<char>) -> Option<Seq<char>> {
    let n = last_part(style, bare_path(style, p.skip(prefix_len(style, p))));
    if n.len() == 0 || n == "."@ || n == ".."@ {
        None
    } else {
        Some(n)
    }
}

/// The last component of a path, if it is a name.
pub fn file_name_of(style: PathStyle, p: &str) -> (r: Option<String>)
    ensures
        opt_text(r) == file_name(style, p@),
{
    let all: Vec<char> = chars_of(p);
    let from: usize = prefix_end(style, &all);
    let v: Vec<char> = part(&all, from, all.len());
    assert(v@ =~= p@.skip(prefix_len(style, p@)));
    let mut n: usize = v.len();
    assert(v@.take(n as int) =~= v@);
    while n > 0 && (parts_at(style, v[n - 1]) || (n > 1 && v[n - 1] == '.' && parts_at(style, v[n - 2])))
        invariant
            n <= v.len(),
            bare_path(style, v@) == bare_path(style, v@.take(n as int)),
        decreases n,
    {
        assert(v@.take(n as int).drop_last() =~= v@.take(n - 1));
        n -= 1;
    }
    let mut s: usize = n;
    let ghost b = v@.take(n as int);
    assert(b.skip(n as int) =~= Seq::<char>::empty());
    assert(b.take(n as int) =~= b);
    assert(last_part(style, b.take(n as int)) + b.skip(n as int) =~= last_part(style, b));
    while s > 0 && !parts_at(style, v[s - 1])
        invariant
            s <= n <= v.len(),
            b == v@.take(n as int),
            last_part(style, b) == last_part(style, b.take(s as int)) + b.skip(s as int),
        decreases s,
    {
        proof {
            let t = b.take(s as int);
            assert(t.drop_last() =~= b.take(s - 1));
            assert(last_part(style, t) + b.skip(s as int) =~= last_part(style, b.take(s - 1)) + b.skip(s - 1));
        }
        s -= 1;
    }
    let name: Vec<char> = part(&v, s, n);
    proof {
        assert(last_part(style, b.take(s as int)) =~= Seq::<char>::empty());
        assert(name@ =~= b.skip(s as int));
        assert(last_part(style, b) =~= name@);
        reveal_strlit(".");
        reveal_strlit("..");
        assert("."@ =~= seq!['.']);
        assert(".."@ =~= seq!['.', '.']);
    }
    let dot: bool = name.len() == 1 && name[0] == '.';
    let dots: bool = name.len() == 2 && name[0] == '.' && name[1] == '.';
    proof {
        if dot {
            assert(name@ =~= "."@);
        }
        if dots {
            assert(name@ =~= ".."@);
        }
    }
    if name.len() == 0 || dot || dots {
        None
    } else {
        Some(string_of(&name))
    }
}

} // verus!
