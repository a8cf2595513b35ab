//! Text as sequences of characters.
//!
//! Contracts speak of a string by its view, a `Seq<char>`. The
//! executable functions work on vectors of characters and go back to a `String`
//! at the end.
use vstd::prelude::*;

verus! {

/// Whether a character has the Unicode property `White_Space`.
pub open spec fn is_space(c: char) -> bool {
    let u = c as u32;
    ||| 9 <= u <= 13
    ||| u == 32
    ||| u == 0x85
    ||| u == 0xa0
    ||| u == 0x1680
    ||| 0x2000 <= u <= 0x200a
    ||| u == 0x2028
    ||| u == 0x2029
    ||| u == 0x202f
    ||| u == 0x205f
    ||| u == 0x3000
}

/// Whether a character is white space.
pub fn char_is_space(c: char) -> (r: bool)
    ensures
        r == is_space(c),
{
    let u: u32 = c as u32;
    (9 <= u && u <= 13) || u == 32 || u == 0x85 || u == 0xa0 || u == 0x1680 || (0x2000 <= u && u <= 0x200a) || u
        == 0x2028 || u == 0x2029 || u == 0x202f || u == 0x205f || u == 0x3000
}

/// How `{:?}` writes a text: in double quotes, with what cannot be read as it
/// stands escaped.
pub uninterp spec fn debug_text(s: Seq<char>) -> Seq<char>;

/// Letters, digits and underscores only.
pub open spec fn plain_word(s: Seq<char>) -> bool {
    forall|i: int|
        0 <= i < s.len() ==> {
            let c = #[trigger] s[i];
            ('a' <= c <= 'z') || ('A' <= c <= 'Z') || ('0' <= c <= '9') || c == '_'
        }
}

/// `format!("{:?}", s)`: what is written is a function of the text, and a plain
/// word is written as it is, in quotes. Which other characters are escaped, and
/// how, is not said.
#[verifier::external_body]
pub(crate) fn debug_of(s: &str) -> (r: String)
    ensures
        r@ == debug_text(s@),
        plain_word(s@) ==> r@ == seq!['"'] + s@ + seq!['"'],
{
    format!("{:?}", s)
}

/// `String::push` appends one character.
pub assume_specification[ String::push ](s: &mut String, c: char)
    ensures
        final(s)@ == old(s)@.push(c),
;

// ── Views ────────────────────────────────────────────────────────────

pub open spec fn opt_text(o: Option<String>) -> Option<Seq<char>> {
    match o {
        Some(s) => Some(s@),
        None => None,
    }
}

pub open spec fn texts(v: Seq<String>) -> Seq<Seq<char>> {
    Seq::new(v.len(), |i: int| v[i]@)
}

pub open spec fn opt_texts(v: Seq<Option<String>>) -> Seq<Option<Seq<char>>> {
    Seq::new(v.len(), |i: int| opt_text(v[i]))
}

pub open spec fn char_rows(v: Seq<Vec<char>>) -> Seq<Seq<char>> {
    Seq::new(v.len(), |i: int| v[i]@)
}

// ── Conversions ──────────────────────────────────────────────────────

/// The characters of a string.
pub fn chars_of(s: &str) -> (r: Vec<char>)
    ensures
        r@ == s@,
{
    let mut v: Vec<char> = Vec::new();
    for c in it: s.chars()
        invariant
            it.seq() == s@,
            v@ == s@.subrange(0, it.index() as int),
    {
        v.push(c);
    }
    v
}

/// The string of some characters.
pub fn string_of(v: &Vec<char>) -> (r: String)
    ensures
        r@ == v@,
{
    let mut s = String::new();
    for i in 0..v.len()
        invariant
            s@ == v@.subrange(0, i as int),
    {
        s.push(v[i]);
    }
    s
}

/// A part of a vector of characters.
pub fn part(v: &Vec<char>, from: usize, to: usize) -> (r: Vec<char>)
    requires
        from <= to <= v@.len(),
    ensures
        r@ == v@.subrange(from as int, to as int),
{
    let mut out: Vec<char> = Vec::new();
    let mut i: usize = from;
    while i < to
        invariant
            from <= i <= to <= v@.len(),
            out@ == v@.subrange(from as int, i as int),
        decreases to - i,
    {
        out.push(v[i]);
        i += 1;
    }
    out
}

/// Appends the characters of `tail`.
pub fn extend(out: &mut Vec<char>, tail: &Vec<char>)
    ensures
        final(out)@ == old(out)@ + tail@,
{
    let ghost start = out@;
    for i in 0..tail.len()
        invariant
            out@ == start + tail@.subrange(0, i as int),
    {
        out.push(tail[i]);
    }
    assert(tail@.subrange(0, tail@.len() as int) =~= tail@);
}

/// Appends the characters of a string slice.
pub fn extend_str(out: &mut Vec<char>, tail: &str)
    ensures
        final(out)@ == old(out)@ + tail@,
{
    let t = chars_of(tail);
    extend(out, &t);
}

/// A copy of a vector of characters.
pub fn copy_chars(v: &Vec<char>) -> (r: Vec<char>)
    ensures
        r@ == v@,
{
    let r = part(v, 0, v.len());
    assert(v@.subrange(0, v@.len() as int) =~= v@);
    r
}

// ── Comparison ───────────────────────────────────────────────────────

/// Whether two vectors hold the same characters.
pub fn same_chars(a: &Vec<char>, b: &Vec<char>) -> (r: bool)
    ensures
        r == (a@ == b@),
{
    if a.len() != b.len() {
        return false;
    }
    let mut i: usize = 0;
    while i < a.len()
        invariant
            i <= a@.len() == b@.len(),
            forall|j: int| 0 <= j < i ==> a@[j] == b@[j],
        decreases a@.len() - i,
    {
        if a[i] != b[i] {
            return false;
        }
        i += 1;
    }
    assert(a@ =~= b@);
    true
}

/// Whether two strings are the same.
pub fn same_text(a: &str, b: &str) -> (r: bool)
    ensures
        r == (a@ == b@),
{
    let x = chars_of(a);
    let y = chars_of(b);
    same_chars(&x, &y)
}

/// Whether an optional string is present and equal to `b`.
pub fn is_text(a: &Option<String>, b: &str) -> (r: bool)
    ensures
        r == (opt_text(*a) == Some(b@)),
{
    match a {
        Some(s) => same_text(s.as_str(), b),
        None => false,
    }
}

/// Strict dictionary order by character code.
pub open spec fn text_before(a: Seq<char>, b: Seq<char>) -> bool
    decreases a.len(),
{
    if b.len() == 0 {
        false
    } else if a.len() == 0 {
        true
    } else if a[0] == b[0] {
        text_before(a.drop_first(), b.drop_first())
    } else {
        (a[0] as u32) < (b[0] as u32)
    }
}

/// Strict dictionary order by character code.
pub fn chars_before(a: &Vec<char>, b: &Vec<char>) -> (r: bool)
    ensures
        r == text_before(a@, b@),
{
    let mut i: usize = 0;
    assert(a@.skip(0) =~= a@);
    assert(b@.skip(0) =~= b@);
    while i < a.len() && i < b.len() && a[i] == b[i]
        invariant
            i <= a@.len(),
            i <= b@.len(),
            text_before(a@, b@) == text_before(a@.skip(i as int), b@.skip(i as int)),
        decreases a@.len() - i,
    {
        assert(a@.skip(i as int).drop_first() =~= a@.skip(i + 1));
        assert(b@.skip(i as int).drop_first() =~= b@.skip(i + 1));
        i += 1;
    }
    if i == b.len() {
        false
    } else if i == a.len() {
        true
    } else {
        (a[i] as u32) < (b[i] as u32)
    }
}

/// Dictionary order: any two texts stand one way or the other, and the order is
/// transitive.
pub proof fn lemma_dictionary(a: Seq<char>, b: Seq<char>, c: Seq<char>)
    ensures
        !text_before(a, a),
        !(text_before(a, b) && text_before(b, a)),
        !text_before(b, a) && !text_before(c, b) ==> !text_before(c, a),
        !text_before(a, b) && !text_before(b, a) ==> a == b,
{
    lemma_dictionary_pair(a, a);
    lemma_dictionary_pair(a, b);
    lemma_dictionary_three(a, b, c);
}

/// Different characters have different codes.
proof fn lemma_codes(a: char, b: char)
    ensures
        a as u32 == b as u32 ==> a == b,
{
}

proof fn lemma_dictionary_pair(a: Seq<char>, b: Seq<char>)
    ensures
        !(text_before(a, b) && text_before(b, a)),
        !text_before(a, b) && !text_before(b, a) ==> a == b,
    decreases a.len(),
{
    if a.len() > 0 && b.len() > 0 {
        if a[0] == b[0] {
            lemma_dictionary_pair(a.drop_first(), b.drop_first());
            assert(a =~= seq![a[0]] + a.drop_first());
            assert(b =~= seq![b[0]] + b.drop_first());
        } else {
            lemma_codes(a[0], b[0]);
        }
    } else if a.len() == 0 && b.len() == 0 {
        assert(a =~= b);
    }
}

proof fn lemma_dictionary_three(a: Seq<char>, b: Seq<char>, c: Seq<char>)
    ensures
        !text_before(b, a) && !text_before(c, b) ==> !text_before(c, a),
    decreases a.len(),
{
    if a.len() > 0 && b.len() > 0 && c.len() > 0 {
        if a[0] == b[0] && b[0] == c[0] {
            lemma_dictionary_three(a.drop_first(), b.drop_first(), c.drop_first());
        } else {
            lemma_codes(a[0], b[0]);
            lemma_codes(b[0], c[0]);
            lemma_codes(a[0], c[0]);
        }
    }
}

/// The order of texts by their place in a list.
pub open spec fn dictionary_order(s: Seq<Seq<char>>) -> spec_fn(usize, usize) -> bool {
    |i: usize, j: usize| !text_before(s[j as int], s[i as int])
}

/// `r` holds the texts of `s` in dictionary order.
pub open spec fn dictionary_sorted(s: Seq<Seq<char>>, r: Seq<Seq<char>>) -> bool {
    exists|p: Seq<usize>| #[trigger]
        crate::sort::permutes(p, s.len() as int) && crate::sort::ascends(dictionary_order(s), p) && r == Seq::new(
            p.len(),
            |i: int| s[p[i] as int],
        )
}

/// Sorts texts into dictionary order.
pub fn sort_texts(v: &Vec<String>) -> (r: Vec<String>)
    ensures
        dictionary_sorted(texts(v@), texts(r@)),
{
    let mut rows: Vec<Vec<char>> = Vec::new();
    let mut i: usize = 0;
    while i < v.len()
        invariant
            i <= v.len(),
            rows@.len() == i,
            forall|k: int| 0 <= k < i ==> (#[trigger] rows@[k])@ == v@[k]@,
        decreases v.len() - i,
    {
        rows.push(chars_of(v[i].as_str()));
        i += 1;
    }
    let ghost all = texts(v@);
    let ghost rel = dictionary_order(all);
    let f = |a: usize, b: usize| -> (r: bool)
        requires
            a < rows@.len(),
            b < rows@.len(),
        ensures
            r == !text_before(rows@[b as int]@, rows@[a as int]@),
        { !chars_before(&rows[b], &rows[a]) };
    proof {
        let n = all.len() as int;
        assert forall|a: usize, b: usize| a < n && b < n implies #[trigger] rel(a, b) || rel(b, a) by {
            lemma_dictionary(all[a as int], all[b as int], all[b as int]);
        }
        assert forall|a: usize, b: usize, c: usize|
            a < n && b < n && c < n && #[trigger] rel(a, b) && #[trigger] rel(b, c) implies rel(a, c) by {
            lemma_dictionary(all[a as int], all[b as int], all[c as int]);
        }
    }
    let p: Vec<usize> = crate::sort::sort_indices(v.len(), &f, Ghost(rel));
    let mut out: Vec<String> = Vec::new();
    let mut k: usize = 0;
    while k < p.len()
        invariant
            crate::sort::permutes(p@, v@.len() as int),
            k <= p.len(),
            out@.len() == k,
            forall|j: int| 0 <= j < k ==> (#[trigger] out@[j])@ == v@[p@[j] as int]@,
        decreases p.len() - k,
    {
        assert(p@.contains(p@[k as int]));
        out.push(owned(v[p[k]].as_str()));
        k += 1;
    }
    proof {
        assert forall|j: int| 0 <= j < p@.len() implies p@[j] < v@.len() by {
            assert(p@.contains(p@[j]));
        }
        assert(texts(out@) =~= Seq::new(p@.len(), |i: int| all[p@[i] as int]));
    }
    out
}

// ── Prefixes and search ──────────────────────────────────────────────

/// Whether `p` stands in `s` at position `at`.
pub open spec fn occurs_at(s: Seq<char>, p: Seq<char>, at: int) -> bool {
    0 <= at && at + p.len() <= s.len() && s.subrange(at, at + p.len()) == p
}

pub open spec fn has_prefix(s: Seq<char>, p: Seq<char>) -> bool {
    occurs_at(s, p, 0)
}

/// Whether `p` stands in `s` at position `at`.
pub fn match_at(s: &Vec<char>, p: &Vec<char>, at: usize) -> (r: bool)
    ensures
        r == occurs_at(s@, p@, at as int),
{
    if at > s.len() || p.len() > s.len() - at {
        return false;
    }
    let n: usize = s.len();
    let mut i: usize = 0;
    while i < p.len()
        invariant
            i <= p@.len(),
            n == s@.len(),
            at + p@.len() <= s@.len(),
            forall|j: int| 0 <= j < i ==> s@[at + j] == p@[j],
        decreases p@.len() - i,
    {
        if s[at + i] != p[i] {
            assert(s@.subrange(at as int, at + p@.len())[i as int] != p@[i as int]);
            return false;
        }
        i += 1;
    }
    assert(s@.subrange(at as int, at + p@.len()) =~= p@);
    true
}

/// Whether `s` begins with the characters of `p`.
pub fn starts_with(s: &Vec<char>, p: &str) -> (r: bool)
    ensures
        r == has_prefix(s@, p@),
{
    let q = chars_of(p);
    match_at(s, &q, 0)
}

/// Position of the first occurrence of `p` at or after `from`.
pub open spec fn find_from(s: Seq<char>, p: Seq<char>, from: int) -> Option<int>
    decreases s.len() - from + 1,
{
    if from < 0 || from > s.len() {
        None
    } else if occurs_at(s, p, from) {
        Some(from)
    } else {
        find_from(s, p, from + 1)
    }
}

pub open spec fn found(o: Option<usize>) -> Option<int> {
    match o {
        Some(i) => Some(i as int),
        None => None,
    }
}

/// Position of the first occurrence of `p` at or after `from`.
pub fn find(s: &Vec<char>, p: &Vec<char>, from: usize) -> (r: Option<usize>)
    requires
        from <= s@.len(),
    ensures
        found(r) == find_from(s@, p@, from as int),
        r matches Some(i) ==> from <= i && i + p@.len() <= s@.len(),
{
    let mut i: usize = from;
    loop
        invariant
            from <= i <= s@.len(),
            find_from(s@, p@, from as int) == find_from(s@, p@, i as int),
        decreases s@.len() - i,
    {
        if match_at(s, p, i) {
            return Some(i);
        }
        if i == s.len() {
            assert(find_from(s@, p@, i + 1) is None);
            return None;
        }
        i += 1;
    }
}

/// Every non-overlapping occurrence of `p`, from the left, replaced by `by`.
pub open spec fn replaced(s: Seq<char>, p: Seq<char>, by: Seq<char>) -> Seq<char>
    decreases s.len(),
{
    match find_from(s, p, 0) {
        Some(i) => if p.len() > 0 && 0 <= i && i + p.len() <= s.len() {
            s.subrange(0, i) + by + replaced(s.skip(i + p.len()), p, by)
        } else {
            s
        },
        None => s,
    }
}

proof fn lemma_find_skip(s: Seq<char>, p: Seq<char>, base: int, from: int)
    requires
        0 <= base <= from <= s.len() + 1,
        base <= s.len(),
    ensures
        find_from(s.skip(base), p, from - base) == match find_from(s, p, from) {
            Some(i) => Some(i - base),
            None => None,
        },
    decreases s.len() - from + 1,
{
    if from <= s.len() {
        assert(s.skip(base).len() == s.len() - base);
        if from + p.len() <= s.len() {
            assert(s.skip(base).subrange(from - base, from - base + p.len()) =~= s.subrange(
                from,
                from + p.len(),
            ));
        }
        lemma_find_skip(s, p, base, from + 1);
    }
}

/// Every non-overlapping occurrence of `p`, from the left, replaced by `by`.
pub fn replace_all(s: &Vec<char>, p: &Vec<char>, by: &Vec<char>) -> (r: Vec<char>)
    requires
        p@.len() > 0,
    ensures
        r@ == replaced(s@, p@, by@),
{
    let mut out: Vec<char> = Vec::new();
    let mut at: usize = 0;
    let n: usize = s.len();
    assert(s@.skip(0) =~= s@);
    loop
        invariant
            p@.len() > 0,
            n == s@.len(),
            at <= s@.len(),
            replaced(s@, p@, by@) == out@ + replaced(s@.skip(at as int), p@, by@),
        decreases s@.len() - at,
    {
        proof {
            lemma_find_skip(s@, p@, at as int, at as int);
        }
        match find(s, p, at) {
            Some(i) => {
                let head = part(s, at, i);
                let ghost rest = s@.skip(at as int);
                assert(rest.subrange(0, i - at) =~= head@);
                assert(rest.skip(i - at + p@.len()) =~= s@.skip(i + p@.len()));
                let ghost before = out@;
                extend(&mut out, &head);
                extend(&mut out, by);
                at = i + p.len();
                assert(before + (head@ + by@ + replaced(s@.skip(at as int), p@, by@)) =~= out@
                    + replaced(s@.skip(at as int), p@, by@));
            },
            None => {
                let tail = part(s, at, s.len());
                assert(tail@ =~= s@.skip(at as int));
                extend(&mut out, &tail);
                return out;
            },
        }
    }
}

// ── Trimming ─────────────────────────────────────────────────────────

pub open spec fn trim_start(s: Seq<char>) -> Seq<char>
    decreases s.len(),
{
    if s.len() > 0 && is_space(s[0]) {
        trim_start(s.drop_first())
    } else {
        s
    }
}

pub open spec fn trim_end(s: Seq<char>) -> Seq<char>
    decreases s.len(),
{
    if s.len() > 0 && is_space(s.last()) {
        trim_end(s.drop_last())
    } else {
        s
    }
}

/// White space removed at both ends.
pub open spec fn trim(s: Seq<char>) -> Seq<char> {
    trim_end(trim_start(s))
}

/// White space at the end does not count for trimming.
pub proof fn lemma_trim_tail(s: Seq<char>)
    requires
        s.len() > 0,
        is_space(s.last()),
    ensures
        trim(s.drop_last()) == trim(s),
    decreases s.len(),
{
    lemma_trim_start_tail(s);
    let t = trim_start(s);
    if t.len() > 0 {
        assert(trim_end(t) == trim_end(t.drop_last()));
    }
}

proof fn lemma_trim_start_tail(s: Seq<char>)
    requires
        s.len() > 0,
        is_space(s.last()),
    ensures
        if trim_start(s).len() == 0 {
            trim_start(s.drop_last()) == trim_start(s)
        } else {
            trim_start(s.drop_last()) == trim_start(s).drop_last() && trim_start(s).last() == s.last()
        },
    decreases s.len(),
{
    if is_space(s[0]) {
        if s.len() > 1 {
            lemma_trim_start_tail(s.drop_first());
            assert(s.drop_last().drop_first() =~= s.drop_first().drop_last());
        } else {
            assert(s.drop_first() =~= Seq::<char>::empty());
            assert(s.drop_last() =~= Seq::<char>::empty());
        }
    }
}

/// White space removed at the end.
pub fn trimmed_end(v: &Vec<char>) -> (r: Vec<char>)
    ensures
        r@ == trim_end(v@),
{
    let mut n: usize = v.len();
    assert(v@.subrange(0, v@.len() as int) =~= v@);
    while n > 0 && char_is_space(v[n - 1])
        invariant
            n <= v@.len(),
            trim_end(v@) == trim_end(v@.subrange(0, n as int)),
        decreases n,
    {
        assert(v@.subrange(0, n as int).drop_last() =~= v@.subrange(0, n - 1));
        n -= 1;
    }
    part(v, 0, n)
}

/// White space removed at the start.
pub fn trimmed_start(v: &Vec<char>) -> (r: Vec<char>)
    ensures
        r@ == trim_start(v@),
{
    let mut i: usize = 0;
    assert(v@.skip(0) =~= v@);
    while i < v.len() && char_is_space(v[i])
        invariant
            i <= v@.len(),
            trim_start(v@) == trim_start(v@.skip(i as int)),
        decreases v@.len() - i,
    {
        assert(v@.skip(i as int).drop_first() =~= v@.skip(i + 1));
        i += 1;
    }
    let r = part(v, i, v.len());
    assert(r@ =~= v@.skip(i as int));
    r
}

/// White space removed at both ends.
pub fn trimmed(v: &Vec<char>) -> (r: Vec<char>)
    ensures
        r@ == trim(v@),
{
    let a = trimmed_start(v);
    trimmed_end(&a)
}

/// All of `c` removed at the start.
pub open spec fn strip_start(s: Seq<char>, c: char) -> Seq<char>
    decreases s.len(),
{
    if s.len() > 0 && s[0] == c {
        strip_start(s.drop_first(), c)
    } else {
        s
    }
}

/// All of `c` removed at the end.
pub open spec fn strip_end(s: Seq<char>, c: char) -> Seq<char>
    decreases s.len(),
{
    if s.len() > 0 && s.last() == c {
        strip_end(s.drop_last(), c)
    } else {
        s
    }
}

/// All of `c` removed at both ends.
#[verifier::spinoff_prover]
#[verifier::rlimit(30)]
pub fn stripped(v: &Vec<char>, c: char) -> (r: Vec<char>)
    ensures
        r@ == strip_end(strip_start(v@, c), c),
{
    let mut i: usize = 0;
    assert(v@.skip(0) =~= v@);
    while i < v.len() && v[i] == c
        invariant
            i <= v@.len(),
            strip_start(v@, c) == strip_start(v@.skip(i as int), c),
        decreases v@.len() - i,
    {
        assert(v@.skip(i as int).drop_first() =~= v@.skip(i + 1));
        i += 1;
    }
    let mut n: usize = v.len();
    assert(v@.subrange(i as int, v@.len() as int) =~= v@.skip(i as int));
    while n > i && v[n - 1] == c
        invariant
            i <= n <= v@.len(),
            strip_end(v@.skip(i as int), c) == strip_end(v@.subrange(i as int, n as int), c),
        decreases n,
    {
        assert(v@.subrange(i as int, n as int).drop_last() =~= v@.subrange(i as int, n - 1));
        n -= 1;
    }
    part(v, i, n)
}

// ── Splitting and joining ────────────────────────────────────────────

/// The pieces of `s` between the occurrences of `c`.
pub open spec fn split(s: Seq<char>, c: char) -> Seq<Seq<char>>
    decreases s.len(),
{
    if s.len() == 0 {
        seq![Seq::empty()]
    } else {
        let rest = split(s.drop_last(), c);
        if s.last() == c {
            rest.push(Seq::empty())
        } else {
            rest.drop_last().push(rest.last().push(s.last()))
        }
    }
}

pub proof fn lemma_split_nonempty(s: Seq<char>, c: char)
    ensures
        split(s, c).len() > 0,
    decreases s.len(),
{
    if s.len() > 0 {
        lemma_split_nonempty(s.drop_last(), c);
    }
}

/// A text without the separator is one piece.
pub proof fn lemma_split_whole(s: Seq<char>, c: char)
    requires
        !s.contains(c),
    ensures
        split(s, c) == seq![s],
    decreases s.len(),
{
    if s.len() > 0 {
        assert(s[s.len() - 1] != c);
        assert forall|i: int| 0 <= i < s.len() - 1 implies s.drop_last()[i] != c by {
            assert(s.contains(s[i]));
        }
        lemma_split_whole(s.drop_last(), c);
        assert(s.drop_last().push(s.last()) =~= s);
    } else {
        assert(s =~= Seq::<char>::empty());
    }
}

/// The pieces of two texts with a separator between them.
pub proof fn lemma_split_two(a: Seq<char>, b: Seq<char>, c: char)
    ensures
        split(a.push(c) + b, c) == split(a, c) + split(b, c),
    decreases b.len(),
{
    let s = a.push(c) + b;
    lemma_split_nonempty(b, c);
    if b.len() == 0 {
        assert(s.drop_last() =~= a);
        assert(split(s, c) =~= split(a, c) + split(b, c));
    } else {
        lemma_split_two(a, b.drop_last(), c);
        lemma_split_nonempty(b.drop_last(), c);
        assert(s.drop_last() =~= a.push(c) + b.drop_last());
        assert(split(s, c) =~= split(a, c) + split(b, c));
    }
}

/// The pieces of `v` between the occurrences of `c`.
pub fn split_chars(v: &Vec<char>, c: char) -> (r: Vec<Vec<char>>)
    ensures
        char_rows(r@) == split(v@, c),
        r@.len() > 0,
{
    let mut out: Vec<Vec<char>> = Vec::new();
    let mut cur: Vec<char> = Vec::new();
    let mut i: usize = 0;
    assert(v@.subrange(0, 0) =~= Seq::<char>::empty());
    assert(char_rows(out@).push(cur@) =~= split(v@.subrange(0, 0), c));
    while i < v.len()
        invariant
            i <= v@.len(),
            char_rows(out@).push(cur@) == split(v@.subrange(0, i as int), c),
        decreases v@.len() - i,
    {
        let ghost s0 = v@.subrange(0, i as int);
        let ghost s1 = v@.subrange(0, i + 1);
        let ghost o0 = out@;
        let ghost c0 = cur@;
        assert(s1.drop_last() =~= s0);
        proof {
            lemma_split_nonempty(s0, c);
        }
        if v[i] == c {
            out.push(cur);
            cur = Vec::new();
            assert(char_rows(out@) =~= char_rows(o0).push(c0));
            assert(cur@ =~= Seq::<char>::empty());
        } else {
            cur.push(v[i]);
            assert(split(s0, c).drop_last() =~= char_rows(o0));
            assert(split(s0, c).last() == c0);
        }
        assert(char_rows(out@).push(cur@) =~= split(s1, c));
        i += 1;
    }
    assert(v@.subrange(0, i as int) =~= v@);
    let ghost o0 = out@;
    let ghost c0 = cur@;
    out.push(cur);
    assert(char_rows(out@) =~= char_rows(o0).push(c0));
    out
}

/// One carriage return removed at the end.
pub open spec fn chop_cr(s: Seq<char>) -> Seq<char> {
    if s.len() > 0 && s.last() == '\r' {
        s.drop_last()
    } else {
        s
    }
}

/// The lines of a text: ended by a line feed or by carriage return and line
/// feed; what follows the last ending is a line where it is not empty.
pub open spec fn lines(s: Seq<char>) -> Seq<Seq<char>> {
    let p = split(s, '\n');
    let ended = Seq::new((p.len() - 1) as nat, |i: int| chop_cr(p[i]));
    if p.last().len() == 0 {
        ended
    } else {
        ended.push(p.last())
    }
}

/// A text that ends its last line, and what follows it.
pub proof fn lemma_lines_two(a: Seq<char>, b: Seq<char>)
    ensures
        lines(a.push('\n') + b) == Seq::new(split(a, '\n').len(), |i: int| chop_cr(split(a, '\n')[i])) + lines(b),
{
    lemma_split_two(a, b, '\n');
    lemma_split_nonempty(b, '\n');
    assert(lines(a.push('\n') + b) =~= Seq::new(split(a, '\n').len(), |i: int| chop_cr(split(a, '\n')[i])) + lines(b));
}

/// The lines of a text.
pub fn lines_of(v: &Vec<char>) -> (r: Vec<Vec<char>>)
    ensures
        char_rows(r@) == lines(v@),
{
    let p = split_chars(v, '\n');
    let ghost ps = split(v@, '\n');
    let mut out: Vec<Vec<char>> = Vec::new();
    let n: usize = p.len() - 1;
    let mut i: usize = 0;
    while i < n
        invariant
            n == p@.len() - 1,
            i <= n,
            char_rows(p@) == ps,
            char_rows(out@) =~= Seq::new(i as nat, |j: int| chop_cr(ps[j])),
        decreases n - i,
    {
        assert(ps[i as int] == p@[i as int]@);
        let m: usize = p[i].len();
        let piece = if m > 0 && p[i][m - 1] == '\r' {
            let q = part(&p[i], 0, m - 1);
            assert(q@ =~= p@[i as int]@.drop_last());
            q
        } else {
            copy_chars(&p[i])
        };
        let ghost o0 = out@;
        out.push(piece);
        assert(char_rows(out@) =~= char_rows(o0).push(chop_cr(ps[i as int])));
        i += 1;
    }
    assert(ps.last() == p@[n as int]@);
    if p[n].len() > 0 {
        let last = copy_chars(&p[n]);
        let ghost o0 = out@;
        out.push(last);
        assert(char_rows(out@) =~= char_rows(o0).push(ps.last()));
    }
    out
}

/// The texts one after the other with `sep` between them.
pub open spec fn joined(v: Seq<Seq<char>>, sep: Seq<char>) -> Seq<char>
    decreases v.len(),
{
    if v.len() == 0 {
        Seq::empty()
    } else if v.len() == 1 {
        v[0]
    } else {
        joined(v.drop_last(), sep) + sep + v.last()
    }
}

/// The texts one after the other with `sep` between them.
pub fn join(v: &Vec<String>, sep: &str) -> (r: String)
    ensures
        r@ == joined(texts(v@), sep@),
{
    let ghost all = texts(v@);
    let mut out: Vec<char> = Vec::new();
    let mut i: usize = 0;
    assert(all.take(0) =~= Seq::<Seq<char>>::empty());
    while i < v.len()
        invariant
            all == texts(v@),
            i <= v.len(),
            out@ == joined(all.take(i as int), sep@),
        decreases v.len() - i,
    {
        assert(all.take(i + 1).drop_last() =~= all.take(i as int));
        assert(all.take(i + 1).last() == v@[i as int]@);
        if i > 0 {
            extend_str(&mut out, sep);
        }
        extend_str(&mut out, v[i].as_str());
        assert(out@ =~= joined(all.take(i + 1), sep@));
        i += 1;
    }
    assert(all.take(v@.len() as int) =~= all);
    string_of(&out)
}

// ── Numbers ──────────────────────────────────────────────────────────

pub open spec fn digit(d: nat) -> char {
    (48 + d) as char
}

/// Decimal digits of a number.
pub open spec fn decimal(n: nat) -> Seq<char>
    decreases n,
{
    if n < 10 {
        seq![digit(n)]
    } else {
        decimal(n / 10).push(digit(n % 10))
    }
}

fn digit_char(d: u64) -> (r: char)
    requires
        d < 10,
    ensures
        r == digit(d as nat),
{
    if d == 0 {
        '0'
    } else if d == 1 {
        '1'
    } else if d == 2 {
        '2'
    } else if d == 3 {
        '3'
    } else if d == 4 {
        '4'
    } else if d == 5 {
        '5'
    } else if d == 6 {
        '6'
    } else if d == 7 {
        '7'
    } else if d == 8 {
        '8'
    } else {
        '9'
    }
}

/// Appends the decimal digits of `n`.
pub fn extend_decimal(out: &mut Vec<char>, n: u64)
    ensures
        final(out)@ == old(out)@ + decimal(n as nat),
    decreases n,
{
    let ghost start = out@;
    if n >= 10 {
        extend_decimal(out, n / 10);
        out.push(digit_char(n % 10));
        assert(out@ =~= start + decimal(n as nat));
    } else {
        out.push(digit_char(n));
        assert(out@ =~= start + decimal(n as nat));
    }
}

/// The string `prefix` followed by the decimal digits of `n`.
pub fn numbered(prefix: &str, n: u64) -> (r: String)
    ensures
        r@ == prefix@ + decimal(n as nat),
{
    let mut v = chars_of(prefix);
    extend_decimal(&mut v, n);
    string_of(&v)
}

/// A string from a literal.
pub fn owned(s: &str) -> (r: String)
    ensures
        r@ == s@,
{
    let v = chars_of(s);
    string_of(&v)
}

} // verus!
