//! What the operations on texts do, said of the characters.
use crate::paths::{PathStyle, bare_path, file_name, joined_path, last_part, parts};
use crate::text::{
    find_from, is_space, joined, lemma_split_nonempty, occurs_at, split, text_before, trim, trim_end, trim_start,
};
use vstd::prelude::*;

verus! {

proof fn lemma_trim_start(s: Seq<char>) -> (i: int)
    ensures
        0 <= i <= s.len(),
        trim_start(s) == s.skip(i),
        forall|k: int| 0 <= k < i ==> is_space(#[trigger] s[k]),
        i < s.len() ==> !is_space(s[i]),
    decreases s.len(),
{
    if s.len() > 0 && is_space(s[0]) {
        let t = s.drop_first();
        let j = lemma_trim_start(t);
        assert(t.skip(j) =~= s.skip(j + 1));
        assert forall|k: int| 0 <= k < j + 1 implies is_space(#[trigger] s[k]) by {
            if k > 0 {
                assert(t[k - 1] == s[k]);
            }
        }
        if j < t.len() {
            assert(t[j] == s[j + 1]);
        }
        j + 1
    } else {
        assert(s.skip(0) =~= s);
        0
    }
}

proof fn lemma_trim_end(s: Seq<char>) -> (j: int)
    ensures
        0 <= j <= s.len(),
        trim_end(s) == s.take(j),
        forall|k: int| j <= k < s.len() ==> is_space(#[trigger] s[k]),
        j > 0 ==> !is_space(s[j - 1]),
    decreases s.len(),
{
    if s.len() > 0 && is_space(s.last()) {
        let t = s.drop_last();
        let j = lemma_trim_end(t);
        assert(t.take(j) =~= s.take(j));
        assert forall|k: int| j <= k < s.len() implies is_space(#[trigger] s[k]) by {
            if k < t.len() {
                assert(t[k] == s[k]);
            }
        }
        if j > 0 {
            assert(t[j - 1] == s[j - 1]);
        }
        j
    } else {
        assert(s.take(s.len() as int) =~= s);
        s.len() as int
    }
}

/// Trimming: what is left starts and ends with a character that is no white
/// space, and what was taken away on both sides is white space.
pub proof fn law_trim(s: Seq<char>)
    ensures
        trim(s).len() > 0 ==> !is_space(trim(s)[0]) && !is_space(trim(s).last()),
        exists|a: int, b: int|
            #![trigger s.subrange(a, b)]
            0 <= a <= b <= s.len() && trim(s) == s.subrange(a, b) && (forall|k: int|
                (0 <= k < a || b <= k < s.len()) ==> is_space(#[trigger] s[k])),
{
    let a = lemma_trim_start(s);
    let t = trim_start(s);
    let j = lemma_trim_end(t);
    assert(trim(s) =~= s.subrange(a, a + j));
    assert forall|k: int| (0 <= k < a || a + j <= k < s.len()) implies is_space(#[trigger] s[k]) by {
        if k >= a + j {
            assert(t[k - a] == s[k]);
        }
    }
    if j > 0 {
        assert(trim(s)[0] == s[a]);
        assert(trim(s).last() == t[j - 1]);
    }
}

/// The place where a pattern is found is the first one, and none is missed.
pub proof fn law_find(s: Seq<char>, p: Seq<char>, from: int)
    requires
        0 <= from <= s.len(),
    ensures
        match find_from(s, p, from) {
            Some(i) => from <= i <= s.len() && occurs_at(s, p, i) && forall|k: int|
                from <= k < i ==> !#[trigger] occurs_at(s, p, k),
            None => forall|k: int| from <= k <= s.len() ==> !#[trigger] occurs_at(s, p, k),
        },
    decreases s.len() - from,
{
    if !occurs_at(s, p, from) {
        if from < s.len() {
            law_find(s, p, from + 1);
        } else {
            assert(find_from(s, p, from + 1) is None);
        }
    }
}

/// Dictionary order: behind what two texts have in common the smaller character
/// comes first, and a text comes before its continuations.
pub proof fn law_dictionary(c: Seq<char>, x: char, y: char, a: Seq<char>, b: Seq<char>)
    requires
        (x as u32) < (y as u32),
    ensures
        text_before(c.push(x) + a, c.push(y) + b),
        !text_before(c.push(y) + b, c.push(x) + a),
        text_before(c, c.push(x) + a),
        !text_before(c.push(x) + a, c),
    decreases c.len(),
{
    let s = c.push(x) + a;
    let t = c.push(y) + b;
    if c.len() > 0 {
        let d = c.drop_first();
        law_dictionary(d, x, y, a, b);
        assert(s.drop_first() =~= d.push(x) + a);
        assert(t.drop_first() =~= d.push(y) + b);
    }
}

/// Pieces: none holds the separator, and with it between them they make the
/// text again.
pub proof fn law_split(s: Seq<char>, c: char)
    ensures
        forall|i: int| 0 <= i < split(s, c).len() ==> !(#[trigger] split(s, c)[i]).contains(c),
        joined(split(s, c), seq![c]) == s,
    decreases s.len(),
{
    let p = split(s, c);
    lemma_split_nonempty(s, c);
    if s.len() == 0 {
        assert(p =~= seq![Seq::<char>::empty()]);
        assert(joined(p, seq![c]) =~= s);
    } else {
        let t = s.drop_last();
        let r = split(t, c);
        law_split(t, c);
        lemma_split_nonempty(t, c);
        if s.last() == c {
            assert(p.drop_last() =~= r);
            assert(joined(p, seq![c]) =~= s);
        } else {
            let last = r.last().push(s.last());
            assert forall|i: int| 0 <= i < p.len() implies !(#[trigger] p[i]).contains(c) by {
                if i < r.len() - 1 {
                    assert(p[i] == r[i]);
                } else {
                    assert(p[i] == last);
                    assert(!r[r.len() - 1].contains(c));
                    assert forall|k: int| 0 <= k < last.len() implies last[k] != c by {
                        if k < last.len() - 1 {
                            assert(r.last().contains(r.last()[k]));
                        }
                    }
                }
            }
            assert(p.drop_last() =~= r.drop_last());
            if r.len() == 1 {
                assert(joined(r, seq![c]) == r[0]);
                assert(joined(p, seq![c]) =~= s);
            } else {
                assert(joined(r, seq![c]) == joined(r.drop_last(), seq![c]) + seq![c] + r.last());
                assert(joined(p, seq![c]) == joined(p.drop_last(), seq![c]) + seq![c] + last);
                assert(joined(p, seq![c]) =~= joined(r, seq![c]).push(s.last()));
                assert(t.push(s.last()) =~= s);
            }
        }
    }
}

proof fn lemma_last_part(q: Seq<char>, n: Seq<char>)
    requires
        q.len() == 0 || parts(PathStyle::Unix, q.last()),
        !n.contains('/'),
    ensures
        last_part(PathStyle::Unix, q + n) == n,
    decreases n.len(),
{
    if n.len() == 0 {
        assert(q + n =~= q);
        assert(last_part(PathStyle::Unix, q + n) =~= n);
    } else {
        let t = n.drop_last();
        assert forall|k: int| 0 <= k < t.len() implies t[k] != '/' by {
            assert(n.contains(n[k]));
        }
        lemma_last_part(q, t);
        assert((q + n).drop_last() =~= q + t);
        assert(n.contains(n[n.len() - 1]));
        assert(t.push(n.last()) =~= n);
    }
}

/// A file in a directory: the path starts with the directory, ends with the
/// name, and has it as its file name.
pub proof fn law_path_names(base: Seq<char>, name: Seq<char>)
    requires
        name.len() > 0,
        !name.contains('/'),
        name != "."@,
        name != ".."@,
    ensures
        ({
            let p = joined_path(PathStyle::Unix, base, name);
            &&& file_name(PathStyle::Unix, p) == Some(name)
            &&& p.take(base.len() as int) == base
            &&& p.skip(p.len() - name.len()) == name
        }),
{
    reveal_strlit("/");
    reveal_strlit(".");
    let p = joined_path(PathStyle::Unix, base, name);
    let q = p.take(p.len() - name.len());
    assert(p =~= q + name);
    assert(p.take(base.len() as int) =~= base);
    assert(p.skip(p.len() - name.len()) =~= name);
    assert(p.skip(0) =~= p);
    assert(name.contains(name[name.len() - 1]));
    if name.len() == 1 {
        if name[0] == '.' {
            assert(name =~= "."@);
        }
    } else {
        assert(name.contains(name[name.len() - 2]));
        assert(p[p.len() - 2] == name[name.len() - 2]);
    }
    assert(p.last() == name.last());
    assert(bare_path(PathStyle::Unix, p) == p);
    lemma_last_part(q, name);
}

} // verus!
