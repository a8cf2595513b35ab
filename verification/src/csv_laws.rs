//! A table that was written as text reads back.
use crate::csv::{
    NumberReader, all_numbers, blank, column_name, data_lines, field, fields, frame_of, header_names, raw_column,
    records, typed_column, width,
};
use crate::double::Real;
use crate::text::{
    chop_cr, is_space, lemma_lines_two, lemma_split_two, lemma_split_whole, lines, split, strip_end, strip_start, trim,
    trim_end, trim_start,
};
use vstd::prelude::*;

verus! {

/// A field that stands for itself: one line, no comma, and neither white space
/// nor a quotation mark at its ends.
pub open spec fn clean(f: Seq<char>) -> bool {
    &&& f.len() > 0
    &&& !f.contains(',')
    &&& !f.contains('\n')
    &&& !is_space(f[0])
    &&& !is_space(f.last())
    &&& f[0] != '"'
    &&& f.last() != '"'
}

/// Fields with commas between them.
pub open spec fn line_of(row: Seq<Seq<char>>) -> Seq<char>
    decreases row.len(),
{
    if row.len() == 0 {
        Seq::empty()
    } else if row.len() == 1 {
        row[0]
    } else {
        line_of(row.drop_last()).push(',') + row.last()
    }
}

/// Lines, each with its end.
pub open spec fn text_of(ls: Seq<Seq<char>>) -> Seq<char>
    decreases ls.len(),
{
    if ls.len() == 0 {
        Seq::empty()
    } else {
        ls[0].push('\n') + text_of(ls.drop_first())
    }
}

pub open spec fn row_clean(row: Seq<Seq<char>>) -> bool {
    row.len() > 0 && forall|i: int| 0 <= i < row.len() ==> clean(#[trigger] row[i])
}

proof fn lemma_line(row: Seq<Seq<char>>)
    requires
        row_clean(row),
    ensures
        split(line_of(row), ',') == row,
        line_of(row).len() > 0,
        !line_of(row).contains('\n'),
        !is_space(line_of(row)[0]),
        !is_space(line_of(row).last()),
    decreases row.len(),
{
    let last = row[row.len() - 1];
    assert(clean(last));
    if row.len() == 1 {
        lemma_split_whole(row[0], ',');
        assert(row =~= seq![row[0]]);
    } else {
        let t = row.drop_last();
        assert forall|i: int| 0 <= i < t.len() implies clean(#[trigger] t[i]) by {
            assert(t[i] == row[i]);
        }
        lemma_line(t);
        lemma_split_two(line_of(t), last, ',');
        lemma_split_whole(last, ',');
        assert(t + seq![last] =~= row);
        let s = line_of(row);
        assert forall|i: int| 0 <= i < s.len() implies s[i] != '\n' by {
            let a = line_of(t);
            if i < a.len() {
                assert(a.contains(a[i]));
            } else if i > a.len() {
                assert(last.contains(last[i - a.len() - 1]));
            }
        }
        assert(s.last() == last.last());
        assert(s[0] == line_of(t)[0]);
    }
}

proof fn lemma_field(f: Seq<char>)
    requires
        clean(f),
    ensures
        field(f) == f,
{
    assert(trim_start(f) == f);
    assert(trim_end(f) == f);
    assert(strip_start(f, '"') == f);
    assert(strip_end(f, '"') == f);
}

/// A line that was written of fields has these fields.
pub proof fn law_fields(row: Seq<Seq<char>>)
    requires
        row_clean(row),
    ensures
        fields(line_of(row)) == row,
{
    lemma_line(row);
    assert forall|i: int| 0 <= i < row.len() implies field(row[i]) == #[trigger] row[i] by {
        assert(clean(row[i]));
        lemma_field(row[i]);
    }
    assert(fields(line_of(row)) =~= row);
}

pub open spec fn lines_clean(ls: Seq<Seq<char>>) -> bool {
    forall|i: int| 0 <= i < ls.len() ==> !(#[trigger] ls[i]).contains('\n') && ls[i].len() > 0 && ls[i].last() != '\r'
}

/// A text that was written of lines has these lines.
pub proof fn law_lines(ls: Seq<Seq<char>>)
    requires
        lines_clean(ls),
    ensures
        lines(text_of(ls)) == ls,
    decreases ls.len(),
{
    if ls.len() == 0 {
        assert(split(text_of(ls), '\n') =~= seq![Seq::<char>::empty()]);
        assert(lines(text_of(ls)) =~= ls);
    } else {
        let a = ls[0];
        let t = ls.drop_first();
        assert(!a.contains('\n'));
        assert forall|i: int| 0 <= i < t.len() implies !(#[trigger] t[i]).contains('\n') && t[i].len() > 0 && t[i].last()
            != '\r' by {
            assert(t[i] == ls[i + 1]);
        }
        law_lines(t);
        lemma_split_whole(a, '\n');
        lemma_lines_two(a, text_of(t));
        assert(chop_cr(a) == a);
        assert(lines(text_of(ls)) =~= ls);
    }
}

/// All rows as lines.
pub open spec fn lines_for(rows: Seq<Seq<Seq<char>>>) -> Seq<Seq<char>> {
    Seq::new(rows.len(), |i: int| line_of(rows[i]))
}

pub open spec fn table_clean(rows: Seq<Seq<Seq<char>>>, n: nat) -> bool {
    forall|i: int| 0 <= i < rows.len() ==> row_clean(#[trigger] rows[i]) && rows[i].len() == n
}

proof fn lemma_records(rows: Seq<Seq<Seq<char>>>, n: nat)
    requires
        table_clean(rows, n),
    ensures
        records(lines_for(rows)) == rows,
    decreases rows.len(),
{
    if rows.len() > 0 {
        let t = rows.drop_last();
        assert forall|i: int| 0 <= i < t.len() implies row_clean(#[trigger] t[i]) && t[i].len() == n by {
            assert(t[i] == rows[i]);
        }
        lemma_records(t, n);
        assert(lines_for(rows).drop_last() =~= lines_for(t));
        let last = rows[rows.len() - 1];
        assert(row_clean(last));
        lemma_line(last);
        law_fields(last);
        assert(lines_for(rows).last() == line_of(last));
        assert(trim(line_of(last)) == line_of(last));
        assert(t.push(last) =~= rows);
    } else {
        assert(records(lines_for(rows)) =~= rows);
    }
}

proof fn lemma_table(rows: Seq<Seq<Seq<char>>>, n: nat, j: int)
    requires
        table_clean(rows, n),
        0 <= j < n,
    ensures
        width(rows, n) == n,
        raw_column(rows, j) == Seq::new(rows.len(), |i: int| rows[i][j]),
    decreases rows.len(),
{
    if rows.len() > 0 {
        let t = rows.drop_last();
        assert forall|i: int| 0 <= i < t.len() implies row_clean(#[trigger] t[i]) && t[i].len() == n by {
            assert(t[i] == rows[i]);
        }
        lemma_table(t, n, j);
        assert(rows[rows.len() - 1].len() == n);
    }
    assert(raw_column(rows, j) =~= Seq::new(rows.len(), |i: int| rows[i][j]));
}

/// A table that was written as text, names first, reads back: every column has
/// its name, and its fields in the order of the rows.
pub proof fn law_reads_back<N: Fn(&str) -> Option<Real>>(
    reader: &NumberReader<N>,
    names: Seq<Seq<char>>,
    rows: Seq<Seq<Seq<char>>>,
)
    requires
        row_clean(names),
        table_clean(rows, names.len()),
    ensures
        ({
            let f = frame_of(reader, text_of(seq![line_of(names)] + lines_for(rows)), true);
            &&& f.columns.len() == names.len()
            &&& forall|j: int|
                0 <= j < names.len() ==> (#[trigger] f.columns[j]).0 == names[j] && f.columns[j].1 == typed_column(
                    reader,
                    Seq::new(rows.len(), |i: int| rows[i][j]),
                )
        }),
{
    let ls = seq![line_of(names)] + lines_for(rows);
    lemma_line(names);
    assert forall|i: int| 0 <= i < ls.len() implies !(#[trigger] ls[i]).contains('\n') && ls[i].len() > 0 && ls[i].last()
        != '\r' by {
        if i > 0 {
            assert(row_clean(rows[i - 1]));
            lemma_line(rows[i - 1]);
            assert(ls[i] == line_of(rows[i - 1]));
        }
    }
    law_lines(ls);
    law_fields(names);
    assert(ls[0] == line_of(names));
    assert(data_lines(ls, true) =~= lines_for(rows));
    lemma_records(rows, names.len());
    lemma_table(rows, names.len(), 0);
    let f = frame_of(reader, text_of(ls), true);
    assert(header_names(ls, true) == names);
    assert forall|j: int| 0 <= j < names.len() implies (#[trigger] f.columns[j]).0 == names[j] && f.columns[j].1
        == typed_column(reader, Seq::new(rows.len(), |i: int| rows[i][j])) by {
        lemma_table(rows, names.len(), j);
        assert(column_name(names, j) == names[j]);
    }
}

/// A column of numbers reads as these numbers, a blank field as a missing one;
/// one field that is neither makes it a column of texts.
pub proof fn law_column_kinds<N: Fn(&str) -> Option<Real>>(reader: &NumberReader<N>, s: Seq<Seq<char>>, i: int)
    requires
        0 <= i < s.len(),
    ensures
        !blank(s[i]) && reader.number(s[i]) is None ==> typed_column(reader, s) is Character,
        (forall|k: int| 0 <= k < s.len() ==> !blank(#[trigger] s[k]) && reader.number(s[k]) is Some) ==> typed_column(
            reader,
            s,
        ) is Numeric,
        typed_column(reader, s) is Numeric ==> typed_column(reader, s)->Numeric_0.len() == s.len() && typed_column(
            reader,
            s,
        )->Numeric_0[i] == (if blank(s[i]) {
            None
        } else {
            reader.number(s[i])
        }),
        typed_column(reader, s) is Character && s[i] != "NA"@ ==> typed_column(reader, s)->Character_0[i] == Some(s[i]),
        typed_column(reader, s) is Character && s[i] == "NA"@ ==> typed_column(reader, s)->Character_0[i] is None,
{
    if forall|k: int| 0 <= k < s.len() ==> !blank(#[trigger] s[k]) && reader.number(s[k]) is Some {
        assert(!blank(s[i]));
        assert(reader.number(s[i]) is Some);
        assert(all_numbers(reader, s));
    }
}

} // verus!
