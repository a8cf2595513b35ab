//! Add-on packages: their names, where they are installed, and their
//! manifests.
use crate::paths::{PathStyle, join_path, joined_path};
use crate::text::{
    char_rows, chars_of, chop_cr, dictionary_sorted, extend_str, has_prefix, is_space, lemma_lines_two,
    lemma_split_whole, lemma_trim_tail, lines, lines_of, owned, part, sort_texts, split, split_chars, starts_with,
    string_of, texts, trim, trim_end, trim_start, trimmed, trimmed_start,
};
use crate::value::dup_strings;
use vstd::prelude::*;
use vstd::string::StrSliceExecFns;
use vstd::utf8::{encode_utf8, is_ascii_chars, is_ascii_chars_encode_utf8};

verus! {

/// What is known of a package.
#[derive(Debug)]
pub struct PackageInfo {
    pub name: String,
    pub version: String,
    pub exports: Vec<String>,
    pub depends: Vec<String>,
    pub tier: String,
}

/// Why a package operation failed. An error of the file system comes as its
/// text.
#[derive(Debug)]
pub enum PkgError {
    NotFound(String),
    Io(String),
    BadManifest(String),
    BadArg(String),
}

impl PkgError {
    pub open spec fn text(&self) -> Seq<char> {
        match self {
            PkgError::NotFound(s) => "package not found: "@ + s@,
            PkgError::Io(s) => "io error: "@ + s@,
            PkgError::BadManifest(s) => "bad manifest: "@ + s@,
            PkgError::BadArg(s) => s@,
        }
    }

    /// The error in words.
    pub fn message(&self) -> (r: String)
        ensures
            r@ == self.text(),
    {
        let mut t: Vec<char> = Vec::new();
        match self {
            PkgError::NotFound(s) => {
                extend_str(&mut t, "package not found: ");
                extend_str(&mut t, s.as_str());
            },
            PkgError::Io(s) => {
                extend_str(&mut t, "io error: ");
                extend_str(&mut t, s.as_str());
            },
            PkgError::BadManifest(s) => {
                extend_str(&mut t, "bad manifest: ");
                extend_str(&mut t, s.as_str());
            },
            PkgError::BadArg(s) => {
                extend_str(&mut t, s.as_str());
            },
        }
        let r: String = string_of(&t);
        assert(r@ =~= self.text());
        r
    }
}

/// An argument that was refused, with the given message.
pub open spec fn refused<T>(r: Result<T, PkgError>, msg: Seq<char>) -> bool {
    r matches Err(PkgError::BadArg(s)) && s@ == msg
}

// ── Names ──────────────────────────────────────────────────────────────────

/// A letter, a digit, an underscore, a hyphen or a dot.
pub open spec fn name_char(c: char) -> bool {
    let n = c as u32;
    48 <= n <= 57 || 65 <= n <= 90 || 97 <= n <= 122 || c == '_' || c == '-' || c == '.'
}

fn is_name_char(c: char) -> (r: bool)
    ensures
        r == name_char(c),
{
    let n: u32 = c as u32;
    (48 <= n && n <= 57) || (65 <= n && n <= 90) || (97 <= n && n <= 122) || c == '_' || c == '-' || c == '.'
}

/// The first character from `i` on that no name may hold.
pub open spec fn bad_char(s: Seq<char>, i: int) -> Option<char>
    decreases s.len() - i,
{
    if i < 0 || i >= s.len() {
        None
    } else if !name_char(s[i]) {
        Some(s[i])
    } else {
        bad_char(s, i + 1)
    }
}

/// What is wrong with a package name.
pub open spec fn name_fault(name: Seq<char>) -> Option<Seq<char>> {
    if name.len() == 0 {
        Some("package name is empty"@)
    } else if encode_utf8(name).len() > 100 {
        Some("package name too long (max 100 chars)"@)
    } else {
        match bad_char(name, 0) {
            Some(c) => Some(
                "package name '"@ + name + "' contains invalid character '"@ + seq![c]
                    + "'. Use letters, digits, '_', '-', '.' only."@,
            ),
            None => if name[0] == '.' {
                Some("package name '"@ + name + "' is reserved"@)
            } else {
                None
            },
        }
    }
}

/// Checks a package name. A name that passes holds no separator and does not
/// start with a dot, so it names an entry of the package directory.
pub fn validate_name(name: &str) -> (r: Result<(), PkgError>)
    ensures
        match name_fault(name@) {
            Some(msg) => refused(r, msg),
            None => r is Ok,
        },
{
    let v: Vec<char> = chars_of(name);
    if v.len() == 0 {
        return Err(PkgError::BadArg(owned("package name is empty")));
    }
    if name.as_bytes().len() > 100 {
        return Err(PkgError::BadArg(owned("package name too long (max 100 chars)")));
    }
    let mut i: usize = 0;
    while i < v.len()
        invariant
            v@ == name@,
            v@.len() > 0,
            encode_utf8(name@).len() <= 100,
            i <= v.len(),
            bad_char(v@, 0) == bad_char(v@, i as int),
        decreases v.len() - i,
    {
        if !is_name_char(v[i]) {
            let mut t: Vec<char> = Vec::new();
            extend_str(&mut t, "package name '");
            extend_str(&mut t, name);
            extend_str(&mut t, "' contains invalid character '");
            t.push(v[i]);
            extend_str(&mut t, "'. Use letters, digits, '_', '-', '.' only.");
            let msg: String = string_of(&t);
            assert(msg@ =~= name_fault(name@)->0);
            return Err(PkgError::BadArg(msg));
        }
        i += 1;
    }
    if v[0] == '.' {
        let mut t: Vec<char> = Vec::new();
        extend_str(&mut t, "package name '");
        extend_str(&mut t, name);
        extend_str(&mut t, "' is reserved");
        let msg: String = string_of(&t);
        assert(msg@ =~= name_fault(name@)->0);
        return Err(PkgError::BadArg(msg));
    }
    Ok(())
}

proof fn lemma_good_chars(s: Seq<char>, i: int)
    requires
        bad_char(s, i) is None,
        0 <= i,
    ensures
        forall|k: int| i <= k < s.len() ==> name_char(#[trigger] s[k]),
    decreases s.len() - i,
{
    if i < s.len() {
        lemma_good_chars(s, i + 1);
    }
}

/// A name that passes the check cannot leave the package directory: it is not
/// empty, is neither `.` nor `..`, and holds no separator of paths and no mark of
/// a drive.
pub proof fn law_names_stay_inside(name: Seq<char>)
    requires
        name_fault(name) is None,
    ensures
        name.len() > 0,
        name[0] != '.',
        !name.contains('/'),
        !name.contains('\\'),
        !name.contains(':'),
{
    lemma_good_chars(name, 0);
    assert forall|k: int| 0 <= k < name.len() implies name[k] != '/' && name[k] != '\\' && name[k] != ':' by {
        assert(name_char(name[k]));
    }
}

// ── Places ─────────────────────────────────────────────────────────────────

/// Where packages are installed: the override where it is set, else below the
/// home directory, for which two variables are asked in turn.
pub open spec fn root_of(
    style: PathStyle,
    custom: Option<Seq<char>>,
    home: Option<Seq<char>>,
    profile: Option<Seq<char>>,
) -> Option<Seq<char>> {
    match custom {
        Some(p) => Some(p),
        None => match home {
            Some(h) => Some(joined_path(style, joined_path(style, h, ".r2"@), "packages"@)),
            None => match profile {
                Some(h) => Some(joined_path(style, joined_path(style, h, ".r2"@), "packages"@)),
                None => None,
            },
        },
    }
}

/// The directory of all packages, given what the environment holds: the
/// override and the two variables that name the home directory.
pub fn pkg_root(style: PathStyle, custom: Option<String>, home: Option<String>, profile: Option<String>) -> (r: Result<
    String,
    PkgError,
>)
    ensures
        match root_of(
            style,
            crate::text::opt_text(custom),
            crate::text::opt_text(home),
            crate::text::opt_text(profile),
        ) {
            Some(p) => r is Ok && r->Ok_0@ == p,
            None => refused(
                r,
                "could not locate the user home directory (HOME/USERPROFILE unset). Set R2_PKG_DIR to override."@,
            ),
        },
{
    if let Some(p) = custom {
        return Ok(p);
    }
    let base: String = match home {
        Some(h) => h,
        None => match profile {
            Some(h) => h,
            None => {
                return Err(
                    PkgError::BadArg(
                        owned(
                            "could not locate the user home directory (HOME/USERPROFILE unset). Set R2_PKG_DIR to override.",
                        ),
                    ),
                );
            },
        },
    };
    let dir: String = join_path(style, base.as_str(), ".r2");
    Ok(join_path(style, dir.as_str(), "packages"))
}

/// The directory of one package below the directory of all packages.
pub fn pkg_dir(style: PathStyle, root: &str, name: &str) -> (r: Result<String, PkgError>)
    ensures
        match name_fault(name@) {
            Some(msg) => refused(r, msg),
            None => r is Ok && r->Ok_0@ == joined_path(style, root@, name@),
        },
{
    match validate_name(name) {
        Ok(()) => Ok(join_path(style, root, name)),
        Err(e) => Err(e),
    }
}

/// An entry of a directory: its name, and whether it is of the kind that is
/// looked for.
pub type Entries = Seq<(Seq<char>, bool)>;

pub open spec fn entry_list(v: Seq<(String, bool)>) -> Entries {
    Seq::new(v.len(), |i: int| (v[i].0@, v[i].1))
}

/// The directories whose names do not start with a dot.
pub open spec fn package_names(e: Entries) -> Seq<Seq<char>>
    decreases e.len(),
{
    if e.len() == 0 {
        Seq::empty()
    } else {
        let s = package_names(e.drop_last());
        if e.last().1 && !has_prefix(e.last().0, "."@) {
            s.push(e.last().0)
        } else {
            s
        }
    }
}

/// The installed packages, sorted, from the entries of the package directory:
/// each with whether it is a directory.
pub fn list_installed(entries: &Vec<(String, bool)>) -> (r: Vec<String>)
    ensures
        dictionary_sorted(package_names(entry_list(entries@)), texts(r@)),
{
    let ghost all = entry_list(entries@);
    let mut names: Vec<String> = Vec::new();
    let mut i: usize = 0;
    assert(all.take(0) =~= Seq::empty());
    assert(texts(names@) =~= Seq::<Seq<char>>::empty());
    while i < entries.len()
        invariant
            all == entry_list(entries@),
            i <= entries.len(),
            texts(names@) == package_names(all.take(i as int)),
        decreases entries.len() - i,
    {
        assert(all.take(i + 1).drop_last() =~= all.take(i as int));
        assert(all.take(i + 1).last() == all[i as int]);
        let chars: Vec<char> = chars_of(entries[i].0.as_str());
        if entries[i].1 && !starts_with(&chars, ".") {
            let ghost before = names@;
            names.push(owned(entries[i].0.as_str()));
            assert(texts(names@) =~= texts(before).push(all[i as int].0));
        }
        i += 1;
    }
    assert(all.take(entries@.len() as int) =~= all);
    sort_texts(&names)
}

/// A name whose part after the last dot is `r2`, with something before it.
pub open spec fn is_source_name(s: Seq<char>) -> bool {
    s.len() > 3 && s.skip(s.len() - 3) == ".r2"@
}

/// The files that are sources.
pub open spec fn source_names(e: Entries) -> Seq<Seq<char>>
    decreases e.len(),
{
    if e.len() == 0 {
        Seq::empty()
    } else {
        let s = source_names(e.drop_last());
        if e.last().1 && is_source_name(e.last().0) {
            s.push(e.last().0)
        } else {
            s
        }
    }
}

fn source_name(s: &str) -> (r: bool)
    ensures
        r == is_source_name(s@),
{
    let v: Vec<char> = chars_of(s);
    let n: usize = v.len();
    proof {
        reveal_strlit(".r2");
        if n > 3 {
            assert(s@.skip(n - 3) =~= seq![s@[n - 3], s@[n - 2], s@[n - 1]]);
            assert(".r2"@ =~= seq!['.', 'r', '2']);
            if s@.skip(n - 3) == ".r2"@ {
                assert(s@.skip(n - 3)[0] == '.');
                assert(s@.skip(n - 3)[1] == 'r');
                assert(s@.skip(n - 3)[2] == '2');
            }
        }
    }
    n > 3 && v[n - 3] == '.' && v[n - 2] == 'r' && v[n - 1] == '2'
}

/// The source files of a package, sorted, from the entries of its source
/// directory: each with whether it is a file.
pub fn package_source_files(entries: &Vec<(String, bool)>) -> (r: Vec<String>)
    ensures
        dictionary_sorted(source_names(entry_list(entries@)), texts(r@)),
{
    let ghost all = entry_list(entries@);
    let mut names: Vec<String> = Vec::new();
    let mut i: usize = 0;
    assert(all.take(0) =~= Seq::empty());
    assert(texts(names@) =~= Seq::<Seq<char>>::empty());
    while i < entries.len()
        invariant
            all == entry_list(entries@),
            i <= entries.len(),
            texts(names@) == source_names(all.take(i as int)),
        decreases entries.len() - i,
    {
        assert(all.take(i + 1).drop_last() =~= all.take(i as int));
        assert(all.take(i + 1).last() == all[i as int]);
        if entries[i].1 && source_name(entries[i].0.as_str()) {
            let ghost before = names@;
            names.push(owned(entries[i].0.as_str()));
            assert(texts(names@) =~= texts(before).push(all[i as int].0));
        }
        i += 1;
    }
    assert(all.take(entries@.len() as int) =~= all);
    sort_texts(&names)
}

/// The error for a directory without a manifest.
pub fn missing_manifest(dir: &str) -> (r: PkgError)
    ensures
        r matches PkgError::BadManifest(s) && s@ == "no package.r2 found in "@ + dir@
            + " — every R2 package must have a root manifest"@,
{
    let mut t: Vec<char> = Vec::new();
    extend_str(&mut t, "no package.r2 found in ");
    extend_str(&mut t, dir);
    extend_str(&mut t, " — every R2 package must have a root manifest");
    let msg: String = string_of(&t);
    assert(msg@ =~= "no package.r2 found in "@ + dir@ + " — every R2 package must have a root manifest"@);
    PkgError::BadManifest(msg)
}

/// The error for a source directory that is not there.
pub fn missing_source(dir: &str) -> (r: PkgError)
    ensures
        r matches PkgError::NotFound(s) && s@ == "source directory "@ + dir@
            + " does not exist or is not a directory"@,
{
    let mut t: Vec<char> = Vec::new();
    extend_str(&mut t, "source directory ");
    extend_str(&mut t, dir);
    extend_str(&mut t, " does not exist or is not a directory");
    let msg: String = string_of(&t);
    assert(msg@ =~= "source directory "@ + dir@ + " does not exist or is not a directory"@);
    PkgError::NotFound(msg)
}

/// The error for a package that is not installed.
pub fn not_installed(name: &str) -> (r: PkgError)
    ensures
        r matches PkgError::NotFound(s) && s@ == "'"@ + name@ + "' is not installed"@,
{
    let mut t: Vec<char> = Vec::new();
    extend_str(&mut t, "'");
    extend_str(&mut t, name);
    extend_str(&mut t, "' is not installed");
    let msg: String = string_of(&t);
    assert(msg@ =~= "'"@ + name@ + "' is not installed"@);
    PkgError::NotFound(msg)
}

// ── Manifests ──────────────────────────────────────────────────────────────

/// What follows the assignment of a key: `key <- rest` or `key = rest`.
pub open spec fn assigned(line: Seq<char>, key: Seq<char>) -> Option<Seq<char>> {
    if !has_prefix(line, key) {
        None
    } else {
        let rest = trim_start(line.skip(key.len() as int));
        if has_prefix(rest, "<-"@) {
            Some(trim_start(rest.skip(2)))
        } else if has_prefix(rest, "="@) {
            Some(trim_start(rest.skip(1)))
        } else {
            None
        }
    }
}

/// The right-hand side where the line assigns to the key.
pub fn strip_assign(line: &Vec<char>, key: &str) -> (r: Option<Vec<char>>)
    ensures
        match assigned(line@, key@) {
            Some(s) => r is Some && (r->0)@ == s,
            None => r is None,
        },
{
    if !starts_with(line, key) {
        return None;
    }
    let k: Vec<char> = chars_of(key);
    let n: usize = k.len();
    let tail: Vec<char> = part(line, n, line.len());
    assert(tail@ =~= line@.skip(n as int));
    let rest: Vec<char> = trimmed_start(&tail);
    proof {
        reveal_strlit("<-");
        reveal_strlit("=");
    }
    if starts_with(&rest, "<-") {
        let t: Vec<char> = part(&rest, 2, rest.len());
        assert(t@ =~= rest@.skip(2));
        return Some(trimmed_start(&t));
    }
    if starts_with(&rest, "=") {
        let t: Vec<char> = part(&rest, 1, rest.len());
        assert(t@ =~= rest@.skip(1));
        return Some(trimmed_start(&t));
    }
    None
}

/// The character that an escape stands for.
pub open spec fn unescaped(b: u8) -> char {
    if b == 110 {
        '\n'
    } else if b == 116 {
        '\t'
    } else if b == 114 {
        '\r'
    } else {
        b as char
    }
}

fn unescape(b: u8) -> (r: char)
    ensures
        r == unescaped(b),
{
    if b == 110 {
        '\n'
    } else if b == 116 {
        '\t'
    } else if b == 114 {
        '\r'
    } else {
        b as char
    }
}

/// What stands in the bytes from `i` on up to the closing quote, byte by byte,
/// with escapes undone; none where the quote is not closed.
pub open spec fn quoted(b: Seq<u8>, quote: u8, i: int) -> Option<Seq<char>>
    decreases b.len() - i,
{
    if i < 0 || i >= b.len() {
        None
    } else if b[i] == quote {
        Some(Seq::empty())
    } else if b[i] == 92 && i + 1 < b.len() {
        match quoted(b, quote, i + 2) {
            Some(s) => Some(seq![unescaped(b[i + 1])] + s),
            None => None,
        }
    } else {
        match quoted(b, quote, i + 1) {
            Some(s) => Some(seq![b[i] as char] + s),
            None => None,
        }
    }
}

/// The contents of a string literal in single or double quotes.
pub open spec fn literal(s: Seq<char>) -> Option<Seq<char>> {
    let b = encode_utf8(trim(s));
    if b.len() < 2 || (b[0] != 34 && b[0] != 39) {
        None
    } else {
        quoted(b, b[0], 1)
    }
}

/// The contents of a string literal in single or double quotes.
pub fn parse_string_literal(s: &Vec<char>) -> (r: Option<String>)
    ensures
        match literal(s@) {
            Some(t) => r is Some && (r->0)@ == t,
            None => r is None,
        },
{
    let t: Vec<char> = trimmed(s);
    let text: String = string_of(&t);
    let b: &[u8] = text.as_str().as_bytes();
    if b.len() < 2 {
        return None;
    }
    let quote: u8 = b[0];
    if quote != 34 && quote != 39 {
        return None;
    }
    let mut out: Vec<char> = Vec::new();
    let mut i: usize = 1;
    while i < b.len()
        invariant
            b@ == encode_utf8(trim(s@)),
            b@.len() >= 2,
            quote == b@[0],
            quote == 34 || quote == 39,
            1 <= i <= b@.len(),
            match quoted(b@, quote, i as int) {
                Some(s2) => literal(s@) == Some(out@ + s2),
                None => literal(s@) is None,
            },
        decreases b@.len() - i,
    {
        let c: u8 = b[i];
        if c == quote {
            assert(out@ + Seq::<char>::empty() =~= out@);
            return Some(string_of(&out));
        }
        let ghost before = out@;
        if c == 92 && i + 1 < b.len() {
            out.push(unescape(b[i + 1]));
            proof {
                if let Some(s2) = quoted(b@, quote, i + 2) {
                    assert(before + (seq![unescaped(b@[i + 1])] + s2) =~= out@ + s2);
                }
            }
            i += 2;
        } else {
            out.push(c as char);
            proof {
                if let Some(s2) = quoted(b@, quote, i + 1) {
                    assert(before + (seq![c as char] + s2) =~= out@ + s2);
                }
            }
            i += 1;
        }
    }
    None
}

/// The metadata of a package.
#[derive(Debug)]
pub struct Manifest {
    pub name: String,
    pub version: String,
    pub description: String,
    pub author: String,
    pub license: String,
    pub exports: Vec<String>,
}

/// The contents of a manifest.
#[verifier::ext_equal]
pub struct Metadata {
    pub name: Seq<char>,
    pub version: Seq<char>,
    pub description: Seq<char>,
    pub author: Seq<char>,
    pub license: Seq<char>,
    pub exports: Seq<Seq<char>>,
}

impl Manifest {
    pub open spec fn deep(&self) -> Metadata {
        Metadata {
            name: self.name@,
            version: self.version@,
            description: self.description@,
            author: self.author@,
            license: self.license@,
            exports: texts(self.exports@),
        }
    }
}

pub open spec fn no_metadata() -> Metadata {
    Metadata {
        name: Seq::empty(),
        version: Seq::empty(),
        description: Seq::empty(),
        author: Seq::empty(),
        license: Seq::empty(),
        exports: Seq::empty(),
    }
}

impl Default for Manifest {
    fn default() -> (r: Manifest)
        ensures
            r.deep() == no_metadata(),
    {
        let r = Manifest {
            name: String::new(),
            version: String::new(),
            description: String::new(),
            author: String::new(),
            license: String::new(),
            exports: Vec::new(),
        };
        proof {
            assert(r.name@ =~= Seq::<char>::empty());
            assert(r.deep() =~= no_metadata());
        }
        r
    }
}

impl Clone for Manifest {
    fn clone(&self) -> (r: Manifest)
        ensures
            r.deep() == self.deep(),
    {
        Manifest {
            name: owned(self.name.as_str()),
            version: owned(self.version.as_str()),
            description: owned(self.description.as_str()),
            author: owned(self.author.as_str()),
            license: owned(self.license.as_str()),
            exports: dup_strings(&self.exports),
        }
    }
}

/// The literals among pieces of text.
pub open spec fn literals(p: Seq<Seq<char>>) -> Seq<Seq<char>>
    decreases p.len(),
{
    if p.len() == 0 {
        Seq::empty()
    } else {
        match literal(trim(p.last())) {
            Some(s) => literals(p.drop_last()).push(s),
            None => literals(p.drop_last()),
        }
    }
}

/// What stands between `c(` and the closing bracket at the end.
pub open spec fn combined(s: Seq<char>) -> Option<Seq<char>> {
    if s.len() >= 3 && has_prefix(s, "c("@) && s.last() == ')' {
        Some(s.subrange(2, s.len() - 1))
    } else {
        None
    }
}

/// The names that a right-hand side exports; none where it is no list of
/// names.
pub open spec fn exported(rest: Seq<char>) -> Option<Seq<Seq<char>>> {
    let r = trim(rest);
    match combined(r) {
        Some(inner) => Some(literals(split(inner, ','))),
        None => match literal(r) {
            Some(s) => Some(seq![s]),
            None => None,
        },
    }
}

/// The five keys with one text each.
pub open spec fn scalar_keys() -> Seq<Seq<char>> {
    seq![
        "package_name"@,
        "package_version"@,
        "package_description"@,
        "package_author"@,
        "package_license"@,
    ]
}

/// The first of the keys from `k` on that the line assigns to.
pub open spec fn key_of(line: Seq<char>, k: int) -> Option<int>
    decreases 5 - k,
{
    if k < 0 || k >= 5 {
        None
    } else if assigned(line, scalar_keys()[k]) is Some {
        Some(k)
    } else {
        key_of(line, k + 1)
    }
}

/// The metadata with the text of one key set.
pub open spec fn with_scalar(m: Metadata, k: int, s: Seq<char>) -> Metadata {
    if k == 0 {
        Metadata { name: s, ..m }
    } else if k == 1 {
        Metadata { version: s, ..m }
    } else if k == 2 {
        Metadata { description: s, ..m }
    } else if k == 3 {
        Metadata { author: s, ..m }
    } else {
        Metadata { license: s, ..m }
    }
}

/// The metadata after one line.
pub open spec fn after_line(m: Metadata, raw: Seq<char>) -> Metadata {
    let line = trim(raw);
    if line.len() == 0 || line[0] == '#' {
        m
    } else {
        match key_of(line, 0) {
            Some(k) => match literal(trim(assigned(line, scalar_keys()[k])->0)) {
                Some(s) => with_scalar(m, k, s),
                None => m,
            },
            None => match assigned(line, "package_exports"@) {
                Some(rest) => match exported(rest) {
                    Some(names) => Metadata { exports: names, ..m },
                    None => m,
                },
                None => m,
            },
        }
    }
}

/// The metadata after the lines.
pub open spec fn after_lines(ls: Seq<Seq<char>>) -> Metadata
    decreases ls.len(),
{
    if ls.len() == 0 {
        no_metadata()
    } else {
        after_line(after_lines(ls.drop_last()), ls.last())
    }
}

fn set_scalar(m: &mut Manifest, k: usize, s: String)
    requires
        k < 5,
    ensures
        final(m).deep() == with_scalar(old(m).deep(), k as int, s@),
{
    let ghost want = with_scalar(m.deep(), k as int, s@);
    if k == 0 {
        m.name = s;
    } else if k == 1 {
        m.version = s;
    } else if k == 2 {
        m.description = s;
    } else if k == 3 {
        m.author = s;
    } else {
        m.license = s;
    }
    assert(m.deep() =~= want);
}

fn key_text(k: usize) -> (r: &'static str)
    requires
        k < 5,
    ensures
        r@ == scalar_keys()[k as int],
{
    if k == 0 {
        "package_name"
    } else if k == 1 {
        "package_version"
    } else if k == 2 {
        "package_description"
    } else if k == 3 {
        "package_author"
    } else {
        "package_license"
    }
}

fn exported_names(rest: &Vec<char>) -> (r: Option<Vec<String>>)
    ensures
        match exported(rest@) {
            Some(s) => r is Some && texts((r->0)@) == s,
            None => r is None,
        },
{
    let t: Vec<char> = trimmed(rest);
    let n: usize = t.len();
    proof {
        reveal_strlit("c(");
    }
    if n >= 3 && starts_with(&t, "c(") && t[n - 1] == ')' {
        let inner: Vec<char> = part(&t, 2, n - 1);
        let pieces: Vec<Vec<char>> = split_chars(&inner, ',');
        let ghost all = char_rows(pieces@);
        let mut names: Vec<String> = Vec::new();
        let mut i: usize = 0;
        assert(all.take(0) =~= Seq::<Seq<char>>::empty());
        assert(texts(names@) =~= Seq::<Seq<char>>::empty());
        while i < pieces.len()
            invariant
                all == char_rows(pieces@),
                i <= pieces.len(),
                texts(names@) == literals(all.take(i as int)),
            decreases pieces.len() - i,
        {
            assert(all.take(i + 1).drop_last() =~= all.take(i as int));
            assert(all.take(i + 1).last() == pieces@[i as int]@);
            let piece: Vec<char> = trimmed(&pieces[i]);
            if let Some(s) = parse_string_literal(&piece) {
                let ghost before = names@;
                names.push(s);
                assert(texts(names@) =~= texts(before).push(s@));
            }
            i += 1;
        }
        assert(all.take(pieces@.len() as int) =~= all);
        Some(names)
    } else {
        match parse_string_literal(&t) {
            Some(s) => {
                let mut names: Vec<String> = Vec::new();
                names.push(s);
                assert(texts(names@) =~= seq![s@]);
                Some(names)
            },
            None => None,
        }
    }
}

fn read_line(m: &mut Manifest, raw: &Vec<char>)
    ensures
        final(m).deep() == after_line(old(m).deep(), raw@),
{
    let line: Vec<char> = trimmed(raw);
    if line.len() == 0 || line[0] == '#' {
        return;
    }
    let ghost m0 = m.deep();
    let mut k: usize = 0;
    while k < 5
        invariant
            k <= 5,
            line@ == trim(raw@),
            line@.len() > 0,
            line@[0] != '#',
            m.deep() == m0,
            m0 == old(m).deep(),
            key_of(line@, 0) == key_of(line@, k as int),
        decreases 5 - k,
    {
        if let Some(rest) = strip_assign(&line, key_text(k)) {
            let value: Vec<char> = trimmed(&rest);
            if let Some(s) = parse_string_literal(&value) {
                set_scalar(m, k, s);
            }
            return;
        }
        k += 1;
    }
    if let Some(rest) = strip_assign(&line, "package_exports") {
        if let Some(names) = exported_names(&rest) {
            m.exports = names;
            assert(m.deep() =~= (Metadata { exports: texts(names@), ..m0 }));
        }
    }
}

/// Reads a manifest: assignments of texts to the five scalar keys and of names
/// to the exports, one to a line; the last one to a key holds. A manifest names
/// its package.
pub fn parse_manifest(source: &str) -> (r: Result<Manifest, PkgError>)
    ensures
        if after_lines(lines(source@)).name.len() == 0 {
            r matches Err(PkgError::BadManifest(s)) && s@ == "manifest is missing 'package_name <- \"...\"'"@
        } else {
            r is Ok && r->Ok_0.deep() == after_lines(lines(source@))
        },
{
    let v: Vec<char> = chars_of(source);
    let ls: Vec<Vec<char>> = lines_of(&v);
    let ghost all = char_rows(ls@);
    let mut m: Manifest = Default::default();
    let mut i: usize = 0;
    assert(all.take(0) =~= Seq::<Seq<char>>::empty());
    while i < ls.len()
        invariant
            all == char_rows(ls@),
            i <= ls.len(),
            m.deep() == after_lines(all.take(i as int)),
        decreases ls.len() - i,
    {
        assert(all.take(i + 1).drop_last() =~= all.take(i as int));
        assert(all.take(i + 1).last() == ls@[i as int]@);
        read_line(&mut m, &ls[i]);
        i += 1;
    }
    assert(all.take(ls@.len() as int) =~= all);
    let name: Vec<char> = chars_of(m.name.as_str());
    if name.len() == 0 {
        return Err(PkgError::BadManifest(owned("manifest is missing 'package_name <- \"...\"'")));
    }
    Ok(m)
}

/// A blank line or a comment.
pub open spec fn says_nothing(line: Seq<char>) -> bool {
    trim(line).len() == 0 || trim(line)[0] == '#'
}

/// Blank lines and comments say nothing: wherever one stands among the lines of
/// a manifest, it reads the same without it.
pub proof fn law_comments_ignored(before: Seq<Seq<char>>, line: Seq<char>, after: Seq<Seq<char>>)
    requires
        says_nothing(line),
    ensures
        after_lines(before.push(line) + after) == after_lines(before + after),
    decreases after.len(),
{
    if after.len() == 0 {
        assert(before.push(line) + after =~= before.push(line));
        assert(before.push(line).drop_last() =~= before);
        assert(before + after =~= before);
    } else {
        law_comments_ignored(before, line, after.drop_last());
        assert((before.push(line) + after).drop_last() =~= before.push(line) + after.drop_last());
        assert((before + after).drop_last() =~= before + after.drop_last());
    }
}

/// A line of a manifest's text that is blank or a comment can be taken out:
/// what is read of the text, and so the answer of `parse_manifest`, is the same.
pub proof fn law_comment_lines_ignored(a: Seq<char>, c: Seq<char>, b: Seq<char>)
    requires
        !c.contains('\n'),
        says_nothing(c),
    ensures
        after_lines(lines(a.push('\n') + c.push('\n') + b)) == after_lines(lines(a.push('\n') + b)),
        after_lines(lines(c.push('\n') + b)) == after_lines(lines(b)),
{
    let line = chop_cr(c);
    if line != c {
        lemma_trim_tail(c);
    }
    let head = Seq::new(split(a, '\n').len(), |i: int| chop_cr(split(a, '\n')[i]));
    lemma_lines_two(a, c.push('\n') + b);
    lemma_lines_two(a, b);
    lemma_lines_two(c, b);
    lemma_split_whole(c, '\n');
    assert(a.push('\n') + c.push('\n') + b =~= a.push('\n') + (c.push('\n') + b));
    assert(lines(c.push('\n') + b) =~= seq![line] + lines(b));
    assert(head + (seq![line] + lines(b)) =~= head.push(line) + lines(b));
    law_comments_ignored(head, line, lines(b));
    let none = Seq::<Seq<char>>::empty();
    assert(none.push(line) + lines(b) =~= seq![line] + lines(b));
    assert(none + lines(b) =~= lines(b));
    law_comments_ignored(none, line, lines(b));
}

/// A plain text: ASCII characters, neither the quote nor a backslash.
pub open spec fn plain(body: Seq<char>, q: char) -> bool {
    forall|i: int| 0 <= i < body.len() ==> '\0' <= #[trigger] body[i] <= '\u{7f}' && body[i] != q && body[i] != '\\'
}

/// A plain text in quotes reads back, whatever follows the closing quote.
pub proof fn law_quoted_text_reads_back(q: char, body: Seq<char>, t: Seq<char>)
    requires
        q == '"' || q == '\'',
        plain(body, q),
    ensures
        literal(seq![q] + body + seq![q] + t) == Some(body),
{
    let head = seq![q] + body + seq![q];
    let s = head + t;
    assert(s[0] == q);
    assert(trim_start(s) == s);
    lemma_trim_end_keeps(head, t);
    let rest = trim_end(s).skip(head.len() as int);
    assert(trim_end(s) =~= head + rest);
    lemma_encode_two(head, rest);
    assert forall|i: int| 0 <= i < head.len() implies '\0' <= #[trigger] head[i] <= '\u{7f}' by {
        if 0 < i < head.len() - 1 {
            assert(head[i] == body[i - 1]);
        }
    }
    lemma_encode_ascii(head);
    let b = encode_utf8(head + rest);
    assert forall|i: int| 0 <= i < head.len() implies b[i] == #[trigger] head[i] as u8 by {
        assert(encode_utf8(head)[i] == head[i] as u8);
    }
    assert(head[0] == q && head[head.len() - 1] == q);
    assert forall|i: int| 0 <= i < body.len() implies b[i + 1] == (#[trigger] body[i]) as u8 by {
        assert(head[i + 1] == body[i]);
    }
    assert(b[body.len() as int + 1] == q as u8);
    lemma_quoted_plain(b, q, body, 0);
    assert(body.skip(0) =~= body);
}

/// A plain text after a quote that is never closed has no value.
pub proof fn law_open_quote_has_no_value(q: char, body: Seq<char>)
    requires
        q == '"' || q == '\'',
        plain(body, q),
    ensures
        literal(seq![q] + body) is None,
{
    let s = seq![q] + body;
    assert(s[0] == q);
    assert(trim_start(s) == s);
    lemma_trim_end_keeps(seq![q], body);
    let t = trim_end(s);
    lemma_trim_end_front(s);
    assert forall|i: int| 0 <= i < t.len() implies '\0' <= #[trigger] t[i] <= '\u{7f}' by {
        if i > 0 {
            assert(t[i] == body[i - 1]);
        }
    }
    lemma_encode_ascii(t);
    let b = encode_utf8(t);
    assert forall|i: int| 1 <= i < b.len() implies #[trigger] b[i] != q as u8 && b[i] != 92 by {
        assert(b[i] == t[i] as u8);
        assert(t[i] == body[i - 1]);
    }
    if b.len() >= 2 {
        assert(b[0] == t[0] as u8);
        lemma_quoted_open(b, q as u8, 1);
    }
}

proof fn lemma_trim_end_front(s: Seq<char>)
    ensures
        trim_end(s).len() <= s.len(),
        forall|i: int| 0 <= i < trim_end(s).len() ==> #[trigger] trim_end(s)[i] == s[i],
    decreases s.len(),
{
    if s.len() > 0 && is_space(s.last()) {
        lemma_trim_end_front(s.drop_last());
    }
}

/// Trimming the end stops at a solid character.
proof fn lemma_trim_end_keeps(a: Seq<char>, t: Seq<char>)
    requires
        a.len() > 0,
        !is_space(a.last()),
    ensures
        trim_end(a + t).len() >= a.len(),
        trim_end(a + t).take(a.len() as int) == a,
    decreases t.len(),
{
    let s = a + t;
    if t.len() == 0 {
        assert(s =~= a);
        assert(a.take(a.len() as int) =~= a);
    } else if is_space(s.last()) {
        assert(s.drop_last() =~= a + t.drop_last());
        lemma_trim_end_keeps(a, t.drop_last());
    } else {
        assert(s.take(a.len() as int) =~= a);
    }
}

proof fn lemma_encode_two(a: Seq<char>, b: Seq<char>)
    ensures
        encode_utf8(a + b) == encode_utf8(a) + encode_utf8(b),
    decreases a.len(),
{
    if a.len() == 0 {
        assert(a + b =~= b);
        assert(encode_utf8(a) + encode_utf8(b) =~= encode_utf8(b));
    } else {
        lemma_encode_two(a.drop_first(), b);
        assert((a + b).drop_first() =~= a.drop_first() + b);
        assert(encode_utf8(a + b) =~= encode_utf8(a) + encode_utf8(b));
    }
}

proof fn lemma_encode_ascii(s: Seq<char>)
    requires
        forall|i: int| 0 <= i < s.len() ==> '\0' <= #[trigger] s[i] <= '\u{7f}',
    ensures
        encode_utf8(s).len() == s.len(),
        forall|i: int| 0 <= i < s.len() ==> #[trigger] encode_utf8(s)[i] == s[i] as u8,
{
    assert(is_ascii_chars(s));
    is_ascii_chars_encode_utf8(s);
}

/// What stands in the bytes of a plain text from its character `k` on.
proof fn lemma_quoted_plain(b: Seq<u8>, q: char, body: Seq<char>, k: int)
    requires
        q == '"' || q == '\'',
        plain(body, q),
        0 <= k <= body.len(),
        b.len() >= body.len() + 2,
        forall|i: int| 0 <= i < body.len() ==> b[i + 1] == (#[trigger] body[i]) as u8,
        b[body.len() as int + 1] == q as u8,
    ensures
        quoted(b, q as u8, k + 1) == Some(body.skip(k)),
    decreases body.len() - k,
{
    if k == body.len() {
        assert(body.skip(k) =~= Seq::<char>::empty());
    } else {
        lemma_quoted_plain(b, q, body, k + 1);
        let c = body[k];
        assert(b[k + 1] == c as u8);
        assert(c as u8 != q as u8 && c as u8 != 92 && (c as u8) as char == c);
        assert(body.skip(k) =~= seq![c] + body.skip(k + 1));
    }
}

/// Bytes without the quote are not closed.
proof fn lemma_quoted_open(b: Seq<u8>, q: u8, i: int)
    requires
        1 <= i,
        forall|k: int| 1 <= k < b.len() ==> #[trigger] b[k] != q && b[k] != 92,
    ensures
        quoted(b, q, i) is None,
    decreases b.len() - i,
{
    if i < b.len() {
        lemma_quoted_open(b, q, i + 1);
    }
}

} // verus!
