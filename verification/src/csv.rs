//! Comma-separated text as a data frame.
use crate::double::Real;
use crate::text::{
    char_rows, chars_of, decimal, lines, lines_of, numbered, opt_text, owned, split, split_chars, string_of,
    strip_end, strip_start, stripped, texts, trim, trimmed,
};
use crate::value::{DataFrame, Frame, RVal, Val, no_attrs};
use vstd::prelude::*;

verus! {

/// How text is read as a number, supplied by the caller.
pub struct NumberReader<N: Fn(&str) -> Option<Real>> {
    pub read: N,
}

impl<N: Fn(&str) -> Option<Real>> NumberReader<N> {
    /// Every text can be read, and always with the same answer.
    pub open spec fn wf(&self) -> bool {
        &&& forall|s: &str| #[trigger] call_requires(self.read, (s,))
        &&& forall|s: &str, t: &str, a: Option<Real>, b: Option<Real>|
            s@ == t@ && #[trigger] call_ensures(self.read, (s,), a) && #[trigger] call_ensures(self.read, (t,), b) ==> a
                == b
    }

    /// `r` is the number that a text stands for.
    pub open spec fn gives(&self, s: Seq<char>, r: Option<Real>) -> bool {
        exists|t: &str| t@ == s && #[trigger] call_ensures(self.read, (t,), r)
    }

    /// The number that a text stands for, if it is one.
    pub open spec fn number(&self, s: Seq<char>) -> Option<Real> {
        choose|r: Option<Real>| self.gives(s, r)
    }

    /// The number that a text stands for, if it is one.
    pub fn parse(&self, s: &str) -> (r: Option<Real>)
        requires
            self.wf(),
        ensures
            r == self.number(s@),
    {
        let r: Option<Real> = (self.read)(s);
        proof {
            assert(self.gives(s@, r));
            let q = self.number(s@);
            assert(self.gives(s@, q));
        }
        r
    }
}

/// A field without white space and quotation marks at its ends.
pub open spec fn field(s: Seq<char>) -> Seq<char> {
    strip_end(strip_start(trim(s), '"'), '"')
}

fn field_of(v: &Vec<char>) -> (r: Vec<char>)
    ensures
        r@ == field(v@),
{
    let t: Vec<char> = trimmed(v);
    stripped(&t, '"')
}

/// The fields of a line.
pub open spec fn fields(line: Seq<char>) -> Seq<Seq<char>> {
    let p = split(line, ',');
    Seq::new(p.len(), |i: int| field(p[i]))
}

fn fields_of(line: &Vec<char>) -> (r: Vec<String>)
    ensures
        texts(r@) == fields(line@),
        r@.len() > 0,
{
    let p: Vec<Vec<char>> = split_chars(line, ',');
    let ghost ps = split(line@, ',');
    let mut out: Vec<String> = Vec::new();
    let mut i: usize = 0;
    while i < p.len()
        invariant
            char_rows(p@) == ps,
            i <= p.len(),
            out@.len() == i,
            forall|k: int| 0 <= k < i ==> (#[trigger] out@[k])@ == field(ps[k]),
        decreases p.len() - i,
    {
        assert(ps[i as int] == p@[i as int]@);
        let f: Vec<char> = field_of(&p[i]);
        out.push(string_of(&f));
        i += 1;
    }
    assert(texts(out@) =~= fields(line@));
    out
}

/// The fields of the lines that are not blank.
pub open spec fn records(ls: Seq<Seq<char>>) -> Seq<Seq<Seq<char>>>
    decreases ls.len(),
{
    if ls.len() == 0 {
        Seq::empty()
    } else if trim(ls.last()).len() == 0 {
        records(ls.drop_last())
    } else {
        records(ls.drop_last()).push(fields(ls.last()))
    }
}

/// The largest number of fields in a record, at least `least`.
pub open spec fn width(rs: Seq<Seq<Seq<char>>>, least: nat) -> nat
    decreases rs.len(),
{
    if rs.len() == 0 {
        least
    } else {
        let w = width(rs.drop_last(), least);
        if w < rs.last().len() {
            rs.last().len()
        } else {
            w
        }
    }
}

/// Field `j` of the records that have one.
pub open spec fn raw_column(rs: Seq<Seq<Seq<char>>>, j: int) -> Seq<Seq<char>>
    decreases rs.len(),
{
    if rs.len() == 0 {
        Seq::empty()
    } else if j < rs.last().len() {
        raw_column(rs.drop_last(), j).push(rs.last()[j])
    } else {
        raw_column(rs.drop_last(), j)
    }
}

/// A field without a value.
pub open spec fn blank(s: Seq<char>) -> bool {
    s.len() == 0 || s == "NA"@
}

/// Every field with a value is a number, and there is one.
pub open spec fn all_numbers<N: Fn(&str) -> Option<Real>>(reader: &NumberReader<N>, s: Seq<Seq<char>>) -> bool {
    &&& forall|i: int| 0 <= i < s.len() ==> blank(#[trigger] s[i]) || reader.number(s[i]) is Some
    &&& exists|i: int| 0 <= i < s.len() && reader.number(#[trigger] s[i]) is Some
}

/// A column: numbers where all its fields are, else texts.
pub open spec fn typed_column<N: Fn(&str) -> Option<Real>>(reader: &NumberReader<N>, s: Seq<Seq<char>>) -> Val {
    if all_numbers(reader, s) {
        Val::Numeric(
            Seq::new(
                s.len(),
                |i: int|
                    if blank(s[i]) {
                        None
                    } else {
                        reader.number(s[i])
                    },
            ),
            None,
        )
    } else {
        Val::Character(
            Seq::new(
                s.len(),
                |i: int|
                    if s[i] == "NA"@ {
                        None
                    } else {
                        Some(s[i])
                    },
            ),
            None,
        )
    }
}

/// The name of column `j`.
pub open spec fn column_name(names: Seq<Seq<char>>, j: int) -> Seq<char> {
    if j < names.len() {
        names[j]
    } else {
        "V"@ + decimal((j + 1) as nat)
    }
}

/// The names in the first line, where it holds names.
pub open spec fn header_names(ls: Seq<Seq<char>>, header: bool) -> Seq<Seq<char>> {
    if header && ls.len() > 0 {
        fields(ls[0])
    } else {
        Seq::empty()
    }
}

/// The lines that hold data.
pub open spec fn data_lines(ls: Seq<Seq<char>>, header: bool) -> Seq<Seq<char>> {
    if header && ls.len() > 0 {
        ls.drop_first()
    } else {
        ls
    }
}

/// The data frame that a text holds.
pub open spec fn frame_of<N: Fn(&str) -> Option<Real>>(reader: &NumberReader<N>, content: Seq<char>, header: bool) -> Frame {
    let ls = lines(content);
    let names = header_names(ls, header);
    let rs = records(data_lines(ls, header));
    let least = if names.len() > 1 {
        names.len()
    } else {
        1
    };
    Frame {
        columns: Seq::new(
            width(rs, least),
            |j: int| (column_name(names, j), typed_column(reader, raw_column(rs, j))),
        ),
        row_names: None,
    }
}

pub open spec fn rows_of(v: Seq<Vec<String>>) -> Seq<Seq<Seq<char>>> {
    Seq::new(v.len(), |i: int| texts(v[i]@))
}

fn read_records(ls: &Vec<Vec<char>>, from: usize) -> (r: Vec<Vec<String>>)
    requires
        from <= ls@.len(),
    ensures
        rows_of(r@) == records(char_rows(ls@).skip(from as int)),
{
    let ghost all = char_rows(ls@).skip(from as int);
    let mut out: Vec<Vec<String>> = Vec::new();
    let mut i: usize = from;
    assert(all.take(0) =~= Seq::<Seq<char>>::empty());
    assert(rows_of(out@) =~= records(all.take(0)));
    while i < ls.len()
        invariant
            all == char_rows(ls@).skip(from as int),
            from <= i <= ls.len(),
            rows_of(out@) == records(all.take(i - from)),
        decreases ls.len() - i,
    {
        proof {
            assert(all.take(i + 1 - from).drop_last() =~= all.take(i - from));
            assert(all.take(i + 1 - from).last() == ls@[i as int]@);
        }
        let bare: Vec<char> = trimmed(&ls[i]);
        if bare.len() > 0 {
            let f: Vec<String> = fields_of(&ls[i]);
            let ghost before = out@;
            out.push(f);
            assert(rows_of(out@) =~= rows_of(before).push(texts(f@)));
        }
        i += 1;
    }
    assert(all.take(ls@.len() - from) =~= all);
    out
}

fn width_of(rs: &Vec<Vec<String>>, least: usize) -> (r: usize)
    ensures
        r == width(rows_of(rs@), least as nat),
        r >= least,
{
    let ghost all = rows_of(rs@);
    let mut w: usize = least;
    let mut i: usize = 0;
    assert(all.take(0) =~= Seq::empty());
    while i < rs.len()
        invariant
            all == rows_of(rs@),
            i <= rs.len(),
            w >= least,
            w == width(all.take(i as int), least as nat),
        decreases rs.len() - i,
    {
        assert(all.take(i + 1).drop_last() =~= all.take(i as int));
        assert(all.take(i + 1).last() == texts(rs@[i as int]@));
        if w < rs[i].len() {
            w = rs[i].len();
        }
        i += 1;
    }
    assert(all.take(rs@.len() as int) =~= all);
    w
}

fn raw_column_of(rs: &Vec<Vec<String>>, j: usize) -> (r: Vec<String>)
    ensures
        texts(r@) == raw_column(rows_of(rs@), j as int),
{
    let ghost all = rows_of(rs@);
    let mut out: Vec<String> = Vec::new();
    let mut i: usize = 0;
    assert(all.take(0) =~= Seq::empty());
    assert(texts(out@) =~= Seq::<Seq<char>>::empty());
    while i < rs.len()
        invariant
            all == rows_of(rs@),
            i <= rs.len(),
            texts(out@) == raw_column(all.take(i as int), j as int),
        decreases rs.len() - i,
    {
        assert(all.take(i + 1).drop_last() =~= all.take(i as int));
        assert(all.take(i + 1).last() == texts(rs@[i as int]@));
        if j < rs[i].len() {
            let ghost before = out@;
            out.push(owned(rs[i][j].as_str()));
            assert(texts(out@) =~= texts(before).push(rs@[i as int]@[j as int]@));
        }
        i += 1;
    }
    assert(all.take(rs@.len() as int) =~= all);
    out
}

fn is_blank(s: &str) -> (r: bool)
    ensures
        r == blank(s@),
{
    let v: Vec<char> = chars_of(s);
    v.len() == 0 || crate::text::same_text(s, "NA")
}

fn numbers_only<N: Fn(&str) -> Option<Real>>(reader: &NumberReader<N>, s: &Vec<String>) -> (r: bool)
    requires
        reader.wf(),
    ensures
        r == all_numbers(reader, texts(s@)),
{
    let ghost all = texts(s@);
    let mut any: bool = false;
    let mut i: usize = 0;
    while i < s.len()
        invariant
            reader.wf(),
            all == texts(s@),
            i <= s.len(),
            forall|k: int| 0 <= k < i ==> blank(#[trigger] all[k]) || reader.number(all[k]) is Some,
            any == exists|k: int| 0 <= k < i && reader.number(#[trigger] all[k]) is Some,
        decreases s.len() - i,
    {
        assert(all[i as int] == s@[i as int]@);
        let x: Option<Real> = reader.parse(s[i].as_str());
        let good: bool = x.is_some();
        if !good && !is_blank(s[i].as_str()) {
            return false;
        }
        if good {
            any = true;
        }
        i += 1;
    }
    any
}

fn type_column<N: Fn(&str) -> Option<Real>>(reader: &NumberReader<N>, s: &Vec<String>) -> (r: RVal)
    requires
        reader.wf(),
    ensures
        r.deep() == typed_column(reader, texts(s@)),
{
    let ghost all = texts(s@);
    if numbers_only(reader, s) {
        let mut out: Vec<Option<Real>> = Vec::new();
        let mut i: usize = 0;
        while i < s.len()
            invariant
                reader.wf(),
                all == texts(s@),
                i <= s.len(),
                out@.len() == i,
                forall|k: int|
                    0 <= k < i ==> #[trigger] out@[k] == (if blank(all[k]) {
                        None
                    } else {
                        reader.number(all[k])
                    }),
            decreases s.len() - i,
        {
            assert(all[i as int] == s@[i as int]@);
            out.push(
                if is_blank(s[i].as_str()) {
                    None
                } else {
                    reader.parse(s[i].as_str())
                },
            );
            i += 1;
        }
        let r = RVal::Numeric(out, no_attrs());
        assert(r.deep()->Numeric_0 =~= typed_column(reader, all)->Numeric_0);
        r
    } else {
        let mut out: Vec<Option<String>> = Vec::new();
        let mut i: usize = 0;
        while i < s.len()
            invariant
                all == texts(s@),
                i <= s.len(),
                out@.len() == i,
                forall|k: int|
                    0 <= k < i ==> opt_text(#[trigger] out@[k]) == (if all[k] == "NA"@ {
                        None
                    } else {
                        Some(all[k])
                    }),
            decreases s.len() - i,
        {
            assert(all[i as int] == s@[i as int]@);
            out.push(
                if crate::text::same_text(s[i].as_str(), "NA") {
                    None
                } else {
                    Some(owned(s[i].as_str()))
                },
            );
            i += 1;
        }
        let r = RVal::Character(out, no_attrs());
        assert(r.deep()->Character_0 =~= typed_column(reader, all)->Character_0);
        r
    }
}

/// Reads comma-separated text: the first line gives the names where `header` is
/// set; blank lines are skipped; a column whose fields are all numbers or
/// missing becomes numeric. It never fails.
pub fn read_csv_to_dataframe<N: Fn(&str) -> Option<Real>>(reader: &NumberReader<N>, content: &str, header: bool) -> (r: Result<
    DataFrame,
    String,
>)
    requires
        reader.wf(),
    ensures
        r is Ok,
        r->Ok_0.deep() == frame_of(reader, content@, header),
{
    let v: Vec<char> = chars_of(content);
    let ls: Vec<Vec<char>> = lines_of(&v);
    let ghost all = char_rows(ls@);
    let named: bool = header && ls.len() > 0;
    let names: Vec<String> = if named { fields_of(&ls[0]) } else { Vec::new() };
    let from: usize = if named { 1 } else { 0 };
    proof {
        assert(all.skip(0) =~= all);
        assert(all.len() > 0 ==> all.skip(1) =~= all.drop_first());
        assert(texts(names@) =~= header_names(all, header));
    }
    let rs: Vec<Vec<String>> = read_records(&ls, from);
    let least: usize = if names.len() > 1 { names.len() } else { 1 };
    let w: usize = width_of(&rs, least);
    let ghost want = frame_of(reader, content@, header);
    let mut columns: Vec<(String, RVal)> = Vec::new();
    let mut j: usize = 0;
    while j < w
        invariant
            reader.wf(),
            j <= w,
            w == want.columns.len(),
            texts(names@) == header_names(all, header),
            all == lines(content@),
            rows_of(rs@) == records(data_lines(all, header)),
            want == frame_of(reader, content@, header),
            columns@.len() == j,
            forall|k: int|
                0 <= k < j ==> ((#[trigger] columns@[k]).0@, columns@[k].1.deep()) == want.columns[k],
        decreases w - j,
    {
        assert(texts(names@).len() == names@.len());
        let name: String = if j < names.len() {
            assert(texts(names@)[j as int] == names@[j as int]@);
            owned(names[j].as_str())
        } else {
            numbered("V", j as u64 + 1)
        };
        let raw: Vec<String> = raw_column_of(&rs, j);
        let col: RVal = type_column(reader, &raw);
        columns.push((name, col));
        j += 1;
    }
    let r = DataFrame { columns, row_names: None };
    proof {
        reveal_with_fuel(RVal::deep, 2);
        reveal_with_fuel(DataFrame::deep, 2);
        assert(r.deep().columns =~= want.columns);
    }
    Ok(r)
}

} // verus!
