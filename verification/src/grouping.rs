//! Rows grouped by a label.
use crate::text::{same_text, texts};
use vstd::prelude::*;

verus! {

/// Each entry once, in the order of first occurrence.
pub open spec fn first_seen<T>(s: Seq<T>) -> Seq<T>
    decreases s.len(),
{
    if s.len() == 0 {
        Seq::empty()
    } else {
        let d = first_seen(s.drop_last());
        if d.contains(s.last()) {
            d
        } else {
            d.push(s.last())
        }
    }
}

/// The positions of an entry, ascending.
pub open spec fn positions<T>(s: Seq<T>, x: T) -> Seq<usize>
    decreases s.len(),
{
    if s.len() == 0 {
        Seq::empty()
    } else if s.last() == x {
        positions(s.drop_last(), x).push((s.len() - 1) as usize)
    } else {
        positions(s.drop_last(), x)
    }
}

/// The entries of `first_seen` are distinct, and those of the sequence.
pub proof fn lemma_first_seen<T>(s: Seq<T>)
    ensures
        first_seen(s).no_duplicates(),
        first_seen(s).len() <= s.len(),
        forall|x: T| #[trigger] first_seen(s).contains(x) <==> s.contains(x),
    decreases s.len(),
{
    if s.len() > 0 {
        lemma_first_seen(s.drop_last());
        let d = first_seen(s.drop_last());
        let e = first_seen(s);
        assert forall|x: T| #[trigger] e.contains(x) <==> s.contains(x) by {
            if s.contains(x) {
                let w = choose|w: int| 0 <= w < s.len() && s[w] == x;
                if w < s.len() - 1 {
                    assert(s.drop_last()[w] == x);
                    assert(d.contains(x));
                    let v = choose|v: int| 0 <= v < d.len() && d[v] == x;
                    assert(e[v] == x);
                } else if !d.contains(x) {
                    assert(e[d.len() as int] == x);
                }
            }
            if e.contains(x) {
                let v = choose|v: int| 0 <= v < e.len() && e[v] == x;
                if v < d.len() {
                    assert(d[v] == x);
                    assert(d.contains(x));
                    let w = choose|w: int| 0 <= w < s.drop_last().len() && s.drop_last()[w] == x;
                    assert(s[w] == x);
                } else {
                    assert(s[s.len() - 1] == x);
                }
            }
        }
    }
}

/// The positions of an entry ascend, hold the entry, and are all of them.
pub proof fn lemma_positions<T>(s: Seq<T>, x: T)
    requires
        s.len() <= usize::MAX,
    ensures
        positions(s, x).len() <= s.len(),
        forall|i: int|
            0 <= i < positions(s, x).len() ==> (#[trigger] positions(s, x)[i]) < s.len() && s[positions(s, x)[i] as int]
                == x,
        forall|i: int, j: int|
            0 <= i < j < positions(s, x).len() ==> (#[trigger] positions(s, x)[i]) < (#[trigger] positions(s, x)[j]),
        forall|k: usize| k < s.len() && s[k as int] == x ==> #[trigger] positions(s, x).contains(k),
        positions(s, x).len() > 0 <==> s.contains(x),
    decreases s.len(),
{
    if s.len() > 0 {
        let t = s.drop_last();
        lemma_positions(t, x);
        let p = positions(s, x);
        let q = positions(t, x);
        assert forall|k: usize| k < s.len() && s[k as int] == x implies #[trigger] p.contains(k) by {
            if k < s.len() - 1 {
                assert(t[k as int] == x);
                assert(q.contains(k));
                let w = choose|w: int| 0 <= w < q.len() && q[w] == k;
                assert(p[w] == k);
            } else {
                assert(p[q.len() as int] == k);
            }
        }
        assert forall|i: int| 0 <= i < p.len() implies (#[trigger] p[i]) < s.len() && s[p[i] as int] == x by {
            if i < q.len() {
                assert(q[i] < t.len() && t[q[i] as int] == x);
            }
        }
        if s.contains(x) {
            let w = choose|w: int| 0 <= w < s.len() && s[w] == x;
            assert(p.contains(w as usize));
        }
        if p.len() > 0 {
            assert(s[p[0] as int] == x);
        }
    }
}

/// The rows of the groups of a label column.
#[derive(Debug)]
pub struct Groups {
    pub labels: Vec<String>,
    pub rows: Vec<Vec<usize>>,
}

impl Groups {
    /// The groups are those of the labels: each distinct label in the order of
    /// first occurrence, with its rows.
    pub open spec fn of(&self, labels: Seq<Seq<char>>) -> bool {
        &&& texts(self.labels@) == first_seen(labels)
        &&& self.rows@.len() == self.labels@.len()
        &&& forall|g: int|
            0 <= g < self.rows@.len() ==> (#[trigger] self.rows@[g])@ == positions(labels, self.labels@[g]@)
    }
}

/// The group of a label, if there is one yet.
fn find_group(labels: &Vec<String>, x: &str) -> (r: Option<usize>)
    ensures
        match r {
            Some(g) => g < labels@.len() && labels@[g as int]@ == x@,
            None => !texts(labels@).contains(x@),
        },
{
    let mut g: usize = 0;
    while g < labels.len()
        invariant
            g <= labels.len(),
            forall|k: int| 0 <= k < g ==> (#[trigger] labels@[k])@ != x@,
        decreases labels.len() - g,
    {
        if same_text(labels[g].as_str(), x) {
            return Some(g);
        }
        g += 1;
    }
    proof {
        if texts(labels@).contains(x@) {
            let w = choose|w: int| 0 <= w < texts(labels@).len() && texts(labels@)[w] == x@;
            assert(labels@[w]@ == x@);
        }
    }
    None
}

/// Groups rows by their labels, in the order in which labels first occur.
pub fn group_rows(labels: &Vec<String>) -> (r: Groups)
    ensures
        r.of(texts(labels@)),
{
    let ghost all = texts(labels@);
    let mut groups: Vec<String> = Vec::new();
    let mut rows: Vec<Vec<usize>> = Vec::new();
    let mut i: usize = 0;
    assert(all.take(0) =~= Seq::<Seq<char>>::empty());
    assert(texts(groups@) =~= Seq::<Seq<char>>::empty());
    while i < labels.len()
        invariant
            all == texts(labels@),
            i <= labels.len(),
            texts(groups@) == first_seen(all.take(i as int)),
            rows@.len() == groups@.len(),
            forall|g: int|
                0 <= g < rows@.len() ==> (#[trigger] rows@[g])@ == positions(all.take(i as int), groups@[g]@),
        decreases labels.len() - i,
    {
        let ghost done = all.take(i as int);
        let ghost next = all.take(i + 1);
        let ghost groups0 = groups@;
        let ghost rows0 = rows@;
        proof {
            assert(next.drop_last() =~= done);
            assert(next.last() == labels@[i as int]@);
            lemma_first_seen(done);
        }
        match find_group(&groups, labels[i].as_str()) {
            Some(g) => {
                proof {
                    assert(texts(groups@)[g as int] == labels@[i as int]@);
                    assert(first_seen(done).contains(next.last()));
                }
                let mut old_rows: Vec<usize> = crate::value::dup_copies(&rows[g]);
                old_rows.push(i);
                rows.set(g, old_rows);
                proof {
                    assert forall|h: int| 0 <= h < rows@.len() implies (#[trigger] rows@[h])@ == positions(
                        next,
                        groups@[h]@,
                    ) by {
                        if h != g {
                            assert(texts(groups@)[h] != texts(groups@)[g as int]);
                            assert(groups@[h]@ != next.last());
                            assert(rows@[h] == rows0[h]);
                        } else {
                            assert(rows0[h]@ == positions(done, groups@[h]@));
                            assert(rows@[h]@ =~= rows0[h]@.push(i));
                        }
                    }
                }
            },
            None => {
                let label: String = crate::text::owned(labels[i].as_str());
                groups.push(label);
                let mut fresh: Vec<usize> = Vec::new();
                fresh.push(i);
                rows.push(fresh);
                proof {
                    assert(!first_seen(done).contains(next.last()));
                    assert(texts(groups@) =~= texts(groups0).push(next.last()));
                    lemma_positions(done, next.last());
                    assert(!done.contains(next.last()));
                    assert forall|h: int| 0 <= h < rows@.len() implies (#[trigger] rows@[h])@ == positions(
                        next,
                        groups@[h]@,
                    ) by {
                        if h < groups0.len() {
                            assert(rows@[h] == rows0[h]);
                            assert(texts(groups0)[h] == groups@[h]@);
                            assert(first_seen(done).contains(groups@[h]@));
                        } else {
                            assert(positions(done, next.last()) =~= Seq::<usize>::empty());
                            assert(rows@[h]@ =~= seq![i]);
                        }
                    }
                }
            },
        }
        i += 1;
    }
    assert(all.take(labels@.len() as int) =~= all);
    Groups { labels: groups, rows }
}

/// The groups share out the rows: each row is in the group of its label, and in
/// no other.
pub proof fn law_groups_partition(labels: Seq<Seq<char>>, r: Groups, row: usize)
    requires
        r.of(labels),
        row < labels.len() <= usize::MAX,
    ensures
        exists|g: int| 0 <= g < r.rows@.len() && #[trigger] r.rows@[g]@.contains(row),
        forall|g: int, h: int|
            0 <= g < r.rows@.len() && 0 <= h < r.rows@.len() && #[trigger] r.rows@[g]@.contains(row)
                && #[trigger] r.rows@[h]@.contains(row) ==> g == h,
{
    lemma_first_seen(labels);
    let x = labels[row as int];
    assert(labels.contains(x));
    assert(first_seen(labels).contains(x));
    let g = choose|g: int| 0 <= g < first_seen(labels).len() && first_seen(labels)[g] == x;
    assert(texts(r.labels@)[g] == x);
    lemma_positions(labels, x);
    assert(positions(labels, x).contains(row));
    assert(r.rows@[g]@.contains(row));
    assert forall|g: int, h: int|
        0 <= g < r.rows@.len() && 0 <= h < r.rows@.len() && #[trigger] r.rows@[g]@.contains(row)
            && #[trigger] r.rows@[h]@.contains(row) implies g == h by {
        lemma_positions(labels, r.labels@[g]@);
        lemma_positions(labels, r.labels@[h]@);
        let u = choose|u: int| 0 <= u < r.rows@[g]@.len() && r.rows@[g]@[u] == row;
        let v = choose|v: int| 0 <= v < r.rows@[h]@.len() && r.rows@[h]@[v] == row;
        assert(labels[row as int] == r.labels@[g]@);
        assert(labels[row as int] == r.labels@[h]@);
        assert(texts(r.labels@)[g] == texts(r.labels@)[h]);
    }
}

} // verus!
