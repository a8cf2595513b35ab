//! Reading a dataset gives back what was written, and nothing of a cut one.
use crate::bytes::{bitmap, le, lemma_bitmap, lemma_le_len, lemma_le_value, lemma_radix, radix};
use crate::double::Real;
use crate::r2d::{
    all_present, bits_at, blob, column_at, column_bytes, columns_at, columns_bytes, decode, decode_body, encode,
    filled, header_bytes, int_word, ints_bytes, is_vector, magic, map_bytes, masked_bools, masked_ints, masked_reals,
    name_bytes, named_column_at, real_word, reals_bytes, row_names_bytes, short, strings, strings_at, strings_bytes,
    table, truths, validity, word, words, writable, Fault,
};
use crate::value::{frame_rows, length, Frame, Val};
use vstd::prelude::*;
use vstd::utf8::{encode_utf8, encode_utf8_decode_utf8, encode_utf8_valid_utf8};

verus! {

/// The strings whose sizes and offsets fit the table, none of them as long as
/// the mark of a missing string.
pub open spec fn storable(s: Seq<Option<Seq<char>>>) -> bool {
    &&& blob(s).len() <= 0xffff_ffff
    &&& forall|i: int|
        0 <= i < s.len() ==> ((#[trigger] s[i]) matches Some(t) ==> encode_utf8(t).len()
            < 0xffff_ffff)
}

/// The frames whose columns the format can represent: writable, with sizes that
/// fit their fields and one row name for each row.
pub open spec fn fitting(f: Frame) -> bool {
    &&& writable(f)
    &&& f.columns.len() <= 0xffff_ffff
    &&& forall|i: int|
        0 <= i < f.columns.len() ==> {
            let c = #[trigger] f.columns[i];
            &&& encode_utf8(c.0).len() <= 0xffff
            &&& c.1 matches Val::Character(s, _) ==> storable(s)
        }
    &&& f.row_names matches Some(n) ==> n.len() == frame_rows(f) && storable(all_present(n))
}

/// The frames that the format can represent whole: fitting, and without names on
/// the entries of a column, which the format does not hold.
pub open spec fn representable(f: Frame) -> bool {
    fitting(f) && forall|i: int| 0 <= i < f.columns.len() ==> unnamed((#[trigger] f.columns[i]).1)
}

pub open spec fn unnamed(v: Val) -> bool {
    match v {
        Val::Numeric(_, n) => n is None,
        Val::Integer(_, n) => n is None,
        Val::Logical(_, n) => n is None,
        Val::Character(_, n) => n is None,
        _ => true,
    }
}

/// A column without the names of its entries.
pub open spec fn nameless(v: Val) -> Val {
    match v {
        Val::Numeric(s, _) => Val::Numeric(s, None),
        Val::Integer(s, _) => Val::Integer(s, None),
        Val::Logical(s, _) => Val::Logical(s, None),
        Val::Character(s, _) => Val::Character(s, None),
        _ => v,
    }
}

/// A frame without the names of the entries of its columns.
pub open spec fn bare(f: Frame) -> Frame {
    Frame { columns: bare_columns(f.columns), row_names: f.row_names }
}

pub open spec fn bare_columns(cs: Seq<(Seq<char>, Val)>) -> Seq<(Seq<char>, Val)> {
    Seq::new(cs.len(), |i: int| (cs[i].0, nameless(cs[i].1)))
}

proof fn lemma_bare_columns(cs: Seq<(Seq<char>, Val)>)
    ensures
        columns_bytes(bare_columns(cs)) == columns_bytes(cs),
    decreases cs.len(),
{
    if cs.len() > 0 {
        lemma_bare_columns(cs.drop_last());
        assert(bare_columns(cs).drop_last() =~= bare_columns(cs.drop_last()));
    }
}

/// The format does not hold the names of entries.
proof fn lemma_bare(f: Frame)
    requires
        fitting(f),
    ensures
        representable(bare(f)),
        frame_rows(bare(f)) == frame_rows(f),
        encode(bare(f)) == encode(f),
{
    lemma_bare_columns(f.columns);
    let g = bare(f);
    assert(frame_rows(g) == frame_rows(f)) by {
        if f.columns.len() > 0 {
            assert(g.columns[0] == (f.columns[0].0, nameless(f.columns[0].1)));
            assert(is_vector(f.columns[0].1));
        }
    }
    assert forall|i: int| 0 <= i < g.columns.len() implies {
        let c = #[trigger] g.columns[i];
        &&& is_vector(c.1) && length(c.1) == frame_rows(g)
        &&& encode_utf8(c.0).len() <= 0xffff
        &&& c.1 matches Val::Character(s, _) ==> storable(s)
        &&& unnamed(c.1)
    } by {
        let d = f.columns[i];
        assert(is_vector(d.1) && length(d.1) == frame_rows(f));
    }
}

/// Whether `e` stands in `b` at `at`.
#[verifier::opaque]
spec fn has(b: Seq<u8>, at: int, e: Seq<u8>) -> bool {
    0 <= at && at + e.len() <= b.len() && b.subrange(at, at + e.len()) == e
}

proof fn lemma_within(b: Seq<u8>, at: int, e: Seq<u8>)
    requires
        has(b, at, e),
    ensures
        0 <= at,
        at + e.len() <= b.len(),
{
    reveal(has);
}

proof fn lemma_split(b: Seq<u8>, at: int, x: Seq<u8>, y: Seq<u8>)
    requires
        has(b, at, x + y),
    ensures
        has(b, at, x),
        has(b, at + x.len(), y),
{
    reveal(has);
    let w = b.subrange(at, at + (x + y).len());
    assert(b.subrange(at, at + x.len()) =~= w.subrange(0, x.len() as int));
    assert(w.subrange(0, x.len() as int) =~= x);
    assert(b.subrange(at + x.len(), at + x.len() + y.len()) =~= w.subrange(
        x.len() as int,
        (x + y).len() as int,
    ));
    assert(w.subrange(x.len() as int, (x + y).len() as int) =~= y);
}

proof fn lemma_word(b: Seq<u8>, at: int, n: nat, k: nat)
    requires
        has(b, at, le(n, k)),
        n < radix(k),
    ensures
        word(b, at, k as int) == n,
        short(b, at, k as int) is None,
        le(n, k).len() == k,
{
    reveal(has);
    lemma_le_len(n, k);
    lemma_le_value(n, k);
}

proof fn lemma_reals(b: Seq<u8>, at: int, s: Seq<Option<Real>>)
    requires
        has(b, at, reals_bytes(s)),
    ensures
        reals_bytes(s).len() == 8 * s.len(),
        words(b, at, s.len(), 8) == Ok::<Seq<u64>, Fault>(
            Seq::new(s.len(), |i: int| real_word(s[i]) as u64),
        ),
    decreases s.len(),
{
    lemma_radix();
    if s.len() > 0 {
        let t = s.drop_last();
        lemma_split(b, at, reals_bytes(t), le(real_word(s.last()), 8));
        lemma_reals(b, at, t);
        lemma_word(b, at + 8 * t.len(), real_word(s.last()), 8);
        assert(Seq::new(t.len(), |i: int| real_word(t[i]) as u64).push(
            real_word(s.last()) as u64,
        ) =~= Seq::new(s.len(), |i: int| real_word(s[i]) as u64));
    } else {
        assert(Seq::<u64>::empty() =~= Seq::new(s.len(), |i: int| real_word(s[i]) as u64));
    }
}

proof fn lemma_ints(b: Seq<u8>, at: int, s: Seq<Option<i32>>)
    requires
        has(b, at, ints_bytes(s)),
    ensures
        ints_bytes(s).len() == 4 * s.len(),
        words(b, at, s.len(), 4) == Ok::<Seq<u64>, Fault>(
            Seq::new(s.len(), |i: int| int_word(s[i]) as u64),
        ),
    decreases s.len(),
{
    lemma_radix();
    if s.len() > 0 {
        let t = s.drop_last();
        lemma_split(b, at, ints_bytes(t), le(int_word(s.last()), 4));
        lemma_ints(b, at, t);
        lemma_word(b, at + 4 * t.len(), int_word(s.last()), 4);
        assert(Seq::new(t.len(), |i: int| int_word(t[i]) as u64).push(int_word(s.last()) as u64)
            =~= Seq::new(s.len(), |i: int| int_word(s[i]) as u64));
    } else {
        assert(Seq::<u64>::empty() =~= Seq::new(s.len(), |i: int| int_word(s[i]) as u64));
    }
}

proof fn lemma_bits_at(b: Seq<u8>, at: int, bits: Seq<bool>)
    requires
        has(b, at, bitmap(bits)),
    ensures
        bits_at(b, at, bits.len()) == Ok::<Seq<bool>, Fault>(bits),
        bitmap(bits).len() == map_bytes(bits.len()),
{
    reveal(has);
    lemma_bitmap(bits);
}

/// The numbers in the table of some strings.
spec fn table_words(s: Seq<Option<Seq<char>>>) -> Seq<u64>
    decreases s.len(),
{
    if s.len() == 0 {
        Seq::empty()
    } else {
        let t = s.drop_last();
        match s.last() {
            Some(x) => table_words(t).push(blob(t).len() as u64).push(
                encode_utf8(x).len() as u64,
            ),
            None => table_words(t).push(0).push(0xffff_ffff),
        }
    }
}

proof fn lemma_table(b: Seq<u8>, at: int, s: Seq<Option<Seq<char>>>)
    requires
        has(b, at, table(s)),
        storable(s),
    ensures
        table(s).len() == 8 * s.len(),
        words(b, at, 2 * s.len(), 4) == Ok::<Seq<u64>, Fault>(table_words(s)),
        table_words(s).len() == 2 * s.len(),
    decreases s.len(),
{
    lemma_radix();
    if s.len() > 0 {
        let t = s.drop_last();
        let n = t.len();
        let off = match s.last() {
            Some(x) => blob(t).len(),
            None => 0,
        };
        let len = match s.last() {
            Some(x) => encode_utf8(x).len(),
            None => 0xffff_ffff,
        };
        assert(s[s.len() - 1] == s.last());
        lemma_split(b, at, table(t), le(off, 4) + le(len, 4));
        assert(storable(t)) by {
            assert forall|i: int| 0 <= i < t.len() implies ((#[trigger] t[i]) matches Some(x)
                ==> encode_utf8(x).len() < 0xffff_ffff) by {
                assert(t[i] == s[i]);
            }
        }
        lemma_table(b, at, t);
        lemma_split(b, at + 8 * n, le(off, 4), le(len, 4));
        lemma_word(b, at + 8 * n, off, 4);
        lemma_word(b, at + 8 * n + 4, len, 4);
        let w1 = words(b, at, (2 * n + 1) as nat, 4);
        assert(w1 == Ok::<Seq<u64>, Fault>(table_words(t).push(off as u64)));
        assert(2 * s.len() == 2 * n + 2);
        assert(words(b, at, (2 * n + 2) as nat, 4) == Ok::<Seq<u64>, Fault>(
            table_words(t).push(off as u64).push(len as u64),
        ));
    }
}

proof fn lemma_blob_prefix(s: Seq<Option<Seq<char>>>, k: nat)
    requires
        k <= s.len(),
    ensures
        blob(s.take(k as int)).len() <= blob(s).len(),
        blob(s).subrange(0, blob(s.take(k as int)).len() as int) == blob(s.take(k as int)),
    decreases s.len(),
{
    if k == s.len() {
        assert(s.take(k as int) =~= s);
        assert(blob(s).subrange(0, blob(s).len() as int) =~= blob(s));
    } else {
        let t = s.drop_last();
        lemma_blob_prefix(t, k);
        assert(t.take(k as int) =~= s.take(k as int));
        let n = blob(s.take(k as int)).len() as int;
        assert(blob(s).subrange(0, n) =~= blob(t).subrange(0, n));
    }
}

proof fn lemma_table_words_prefix(s: Seq<Option<Seq<char>>>, k: nat)
    requires
        k < s.len(),
    ensures
        table_words(s).len() == 2 * s.len(),
        s[k as int] matches Some(x) ==> table_words(s)[2 * k as int] == blob(
            s.take(k as int),
        ).len() as u64 && table_words(s)[2 * k as int + 1] == encode_utf8(x).len() as u64,
        s[k as int] is None ==> table_words(s)[2 * k as int + 1] == 0xffff_ffff,
    decreases s.len(),
{
    lemma_table_words_len(s);
    let t = s.drop_last();
    lemma_table_words_len(t);
    if k + 1 == s.len() {
        assert(s.take(k as int) =~= t);
    } else {
        lemma_table_words_prefix(t, k);
        assert(t.take(k as int) =~= s.take(k as int));
        assert(t[k as int] == s[k as int]);
    }
}

proof fn lemma_table_words_len(s: Seq<Option<Seq<char>>>)
    ensures
        table_words(s).len() == 2 * s.len(),
    decreases s.len(),
{
    if s.len() > 0 {
        lemma_table_words_len(s.drop_last());
    }
}

proof fn lemma_strings(b: Seq<u8>, at: int, s: Seq<Option<Seq<char>>>, k: nat)
    requires
        has(b, at, blob(s)),
        storable(s),
        k <= s.len(),
        b.len() <= usize::MAX,
    ensures
        strings(b, at, blob(s).len() as int, table_words(s), k) == Ok::<
            Seq<Option<Seq<char>>>,
            Fault,
        >(s.take(k as int)),
    decreases k,
{
    reveal(has);
    if k == 0 {
        assert(s.take(0) =~= Seq::<Option<Seq<char>>>::empty());
    } else {
        let j = (k - 1) as nat;
        lemma_strings(b, at, s, j);
        lemma_table_words_prefix(s, j);
        assert(s.take(k as int) =~= s.take(j as int).push(s[j as int]));
        if let Some(x) = s[j as int] {
            lemma_blob_prefix(s, j);
            lemma_blob_prefix(s, k);
            assert(s.take(k as int).drop_last() =~= s.take(j as int));
            let off = blob(s.take(j as int)).len() as int;
            let len = encode_utf8(x).len() as int;
            let whole = b.subrange(at, at + blob(s).len());
            assert(blob(s.take(k as int)) == blob(s.take(j as int)) + encode_utf8(x));
            assert(b.subrange(at + off, at + off + len) =~= whole.subrange(off, off + len));
            assert(whole.subrange(off, off + len) =~= whole.subrange(0, off + len).subrange(
                off,
                off + len,
            ));
            assert(blob(s.take(k as int)).subrange(off, off + len) =~= encode_utf8(x));
            encode_utf8_valid_utf8(x);
            encode_utf8_decode_utf8(x);
            assert(2 * k - 2 == 2 * j);
        }
    }
}

proof fn lemma_strings_at(b: Seq<u8>, at: int, s: Seq<Option<Seq<char>>>)
    requires
        has(b, at, strings_bytes(s)),
        storable(s),
        b.len() <= usize::MAX,
    ensures
        strings_at(b, at, s.len()) == Ok::<(Seq<Option<Seq<char>>>, int), Fault>(
            (s, at + strings_bytes(s).len()),
        ),
{
    reveal(strings_at);
    lemma_radix();
    let total = blob(s).len();
    assert(strings_bytes(s) =~= le(total, 4) + (table(s) + blob(s)));
    lemma_split(b, at, le(total, 4), table(s) + blob(s));
    lemma_word(b, at, total, 4);
    lemma_split(b, at + 4, table(s), blob(s));
    lemma_table(b, at + 4, s);
    lemma_within(b, at + 4 + 8 * s.len(), blob(s));
    lemma_strings(b, at + 4 + 8 * s.len(), s, s.len());
    assert(s.take(s.len() as int) =~= s);
}

proof fn lemma_numeric_column(b: Seq<u8>, at: int, s: Seq<Option<Real>>)
    requires
        has(b, at, reals_bytes(s) + bitmap(validity(s))),
    ensures
        column_at(b, at, 0u8, s.len()) == Ok::<(Val, int), Fault>(
            (Val::Numeric(s, None), at + (reals_bytes(s) + bitmap(validity(s))).len()),
        ),
{
    reveal(column_at);
    lemma_split(b, at, reals_bytes(s), bitmap(validity(s)));
    lemma_reals(b, at, s);
    lemma_bits_at(b, at + 8 * s.len(), validity(s));
    assert(masked_reals(Seq::new(s.len(), |i: int| real_word(s[i]) as u64), validity(s)) =~= s);
}

proof fn lemma_integer_column(b: Seq<u8>, at: int, s: Seq<Option<i32>>)
    requires
        has(b, at, ints_bytes(s) + bitmap(validity(s))),
    ensures
        column_at(b, at, 1u8, s.len()) == Ok::<(Val, int), Fault>(
            (Val::Integer(s, None), at + (ints_bytes(s) + bitmap(validity(s))).len()),
        ),
{
    reveal(column_at);
    lemma_split(b, at, ints_bytes(s), bitmap(validity(s)));
    lemma_ints(b, at, s);
    lemma_bits_at(b, at + 4 * s.len(), validity(s));
    let ws = Seq::new(s.len(), |i: int| int_word(s[i]) as u64);
    assert(masked_ints(ws, validity(s)) =~= s);
}

proof fn lemma_logical_column(b: Seq<u8>, at: int, s: Seq<Option<bool>>)
    requires
        has(b, at, bitmap(truths(s)) + bitmap(validity(s))),
    ensures
        column_at(b, at, 2u8, s.len()) == Ok::<(Val, int), Fault>(
            (Val::Logical(s, None), at + (bitmap(truths(s)) + bitmap(validity(s))).len()),
        ),
{
    reveal(column_at);
    lemma_split(b, at, bitmap(truths(s)), bitmap(validity(s)));
    lemma_bits_at(b, at, truths(s));
    lemma_bits_at(b, at + map_bytes(s.len()), validity(s));
    assert forall|i: int| 0 <= i < s.len() implies #[trigger] masked_bools(
        truths(s),
        validity(s),
    )[i] == s[i] by {
        if let Some(x) = s[i] {
            assert(truths(s)[i] == x);
        }
    }
    assert(masked_bools(truths(s), validity(s)) =~= s);
}

#[verifier::spinoff_prover]
proof fn lemma_column(b: Seq<u8>, at: int, v: Val)
    requires
        has(b, at + 1, column_bytes(v).drop_first()),
        column_bytes(v).len() > 0,
        v is Numeric || v is Integer || v is Logical || v is Character,
        unnamed(v),
        v matches Val::Character(s, _) ==> storable(s),
        0 <= at,
        b.len() <= usize::MAX,
    ensures
        column_at(b, at + 1, column_bytes(v)[0], length(v)) == Ok::<(Val, int), Fault>(
            (v, at + column_bytes(v).len()),
        ),
{
    match v {
        Val::Numeric(s, _) => {
            let rest = reals_bytes(s) + bitmap(validity(s));
            assert(column_bytes(v) =~= seq![0u8] + rest);
            assert(column_bytes(v).drop_first() =~= rest);
            lemma_numeric_column(b, at + 1, s);
            assert(v == Val::Numeric(s, None));
            assert(column_bytes(v)[0] == 0u8);
            assert(column_bytes(v).len() == 1 + rest.len());
        },
        Val::Integer(s, _) => {
            let rest = ints_bytes(s) + bitmap(validity(s));
            assert(column_bytes(v) =~= seq![1u8] + rest);
            assert(column_bytes(v).drop_first() =~= rest);
            lemma_integer_column(b, at + 1, s);
            assert(v == Val::Integer(s, None));
            assert(column_bytes(v)[0] == 1u8);
            assert(column_bytes(v).len() == 1 + rest.len());
        },
        Val::Logical(s, _) => {
            let rest = bitmap(truths(s)) + bitmap(validity(s));
            assert(column_bytes(v) =~= seq![2u8] + rest);
            assert(column_bytes(v).drop_first() =~= rest);
            lemma_logical_column(b, at + 1, s);
            assert(v == Val::Logical(s, None));
            assert(column_bytes(v)[0] == 2u8);
            assert(column_bytes(v).len() == 1 + rest.len());
        },
        Val::Character(s, _) => {
            assert(column_bytes(v).drop_first() =~= strings_bytes(s));
            lemma_strings_at(b, at + 1, s);
            reveal(column_at);
            assert(v == Val::Character(s, None));
            assert(column_bytes(v)[0] == 3u8);
            assert(column_bytes(v).len() == 1 + strings_bytes(s).len());
        },
        _ => {},
    }
}

proof fn lemma_named_column(b: Seq<u8>, at: int, name: Seq<char>, v: Val)
    requires
        has(b, at, name_bytes(name) + column_bytes(v)),
        encode_utf8(name).len() <= 0xffff,
        v is Numeric || v is Integer || v is Logical || v is Character,
        unnamed(v),
        v matches Val::Character(s, _) ==> storable(s),
        b.len() <= usize::MAX,
    ensures
        named_column_at(b, at, length(v)) == Ok::<((Seq<char>, Val), int), Fault>(
            ((name, v), at + name_bytes(name).len() + column_bytes(v).len()),
        ),
{
    reveal(has);
    lemma_radix();
    let e = encode_utf8(name);
    lemma_split(b, at, name_bytes(name), column_bytes(v));
    lemma_split(b, at, le(e.len(), 2), e);
    lemma_word(b, at, e.len(), 2);
    encode_utf8_valid_utf8(name);
    encode_utf8_decode_utf8(name);
    let p = at + 2 + e.len();
    let c = column_bytes(v);
    assert(c.len() > 0);
    assert(b[p] == b.subrange(p, p + c.len())[0]);
    assert(c =~= seq![c[0]] + c.drop_first());
    lemma_split(b, p, seq![c[0]], c.drop_first());
    lemma_column(b, p, v);
}

proof fn lemma_columns(b: Seq<u8>, cs: Seq<(Seq<char>, Val)>, n: nat)
    requires
        has(b, 15, columns_bytes(cs)),
        forall|i: int|
            0 <= i < cs.len() ==> {
                let c = #[trigger] cs[i];
                &&& c.1 is Numeric || c.1 is Integer || c.1 is Logical || c.1 is Character
                &&& length(c.1) == n
                &&& encode_utf8(c.0).len() <= 0xffff
                &&& c.1 matches Val::Character(s, _) ==> storable(s)
                &&& unnamed(c.1)
            },
        b.len() <= usize::MAX,
    ensures
        columns_at(b, 15, cs.len(), n) == Ok::<(Seq<(Seq<char>, Val)>, int), Fault>(
            (cs, 15int + columns_bytes(cs).len()),
        ),
    decreases cs.len(),
{
    if cs.len() > 0 {
        let t = cs.drop_last();
        let c = cs.last();
        assert(cs[cs.len() - 1] == c);
        lemma_split(b, 15, columns_bytes(t), name_bytes(c.0) + column_bytes(c.1));
        assert forall|i: int| 0 <= i < t.len() implies {
            let d = #[trigger] t[i];
            &&& d.1 is Numeric || d.1 is Integer || d.1 is Logical || d.1 is Character
            &&& length(d.1) == n
            &&& encode_utf8(d.0).len() <= 0xffff
            &&& d.1 matches Val::Character(s, _) ==> storable(s)
            &&& unnamed(d.1)
        } by {
            assert(t[i] == cs[i]);
        }
        lemma_columns(b, t, n);
        lemma_named_column(b, 15int + columns_bytes(t).len(), c.0, c.1);
        assert(t.push(c) =~= cs);
    } else {
        assert(cs =~= Seq::empty());
    }
}

proof fn lemma_header(b: Seq<u8>, f: Frame, tail: Seq<u8>)
    requires
        b == header_bytes(f) + tail,
        f.columns.len() <= 0xffff_ffff,
        frame_rows(f) <= 0xffff_ffff,
    ensures
        has(b, 15, tail),
        b.subrange(0, 4) == magic(),
        word(b, 4, 2) == 1,
        word(b, 6, 4) == f.columns.len(),
        word(b, 10, 4) == frame_rows(f),
        b[14] == if f.row_names is Some {
            1u8
        } else {
            0u8
        },
{
    reveal(has);
    let n = frame_rows(f);
    lemma_radix();
    let flag: u8 = if f.row_names is Some {
        1
    } else {
        0
    };
    let h4 = le(n, 4) + seq![flag];
    let h3 = le(f.columns.len(), 4) + h4;
    let h2 = le(1, 2) + h3;
    assert(b =~= magic() + (h2 + tail));
    assert(has(b, 0, magic() + (h2 + tail))) by {
        assert(b.subrange(0, b.len() as int) =~= b);
    }
    lemma_split(b, 0, magic(), h2 + tail);
    assert(h2 + tail =~= le(1, 2) + (h3 + tail));
    lemma_split(b, 4, le(1, 2), h3 + tail);
    lemma_word(b, 4, 1, 2);
    assert(h3 + tail =~= le(f.columns.len(), 4) + (h4 + tail));
    lemma_split(b, 6, le(f.columns.len(), 4), h4 + tail);
    lemma_word(b, 6, f.columns.len(), 4);
    assert(h4 + tail =~= le(n, 4) + (seq![flag] + tail));
    lemma_split(b, 10, le(n, 4), seq![flag] + tail);
    lemma_word(b, 10, n, 4);
    lemma_split(b, 14, seq![flag], tail);
    assert(b[14] == b.subrange(14, 15)[0]);
}

/// Reading the bytes of a data frame gives back the data frame: column names,
/// values, missing entries and row names.
pub proof fn law_read_write(f: Frame)
    requires
        representable(f),
        encode(f).len() <= usize::MAX,
    ensures
        decode(encode(f)) == Ok::<Frame, Fault>(f),
{
    let b = encode(f);
    let n = frame_rows(f);
    let tail = columns_bytes(f.columns) + row_names_bytes(f.row_names);
    assert(b =~= header_bytes(f) + tail);
    lemma_header(b, f, tail);
    lemma_within(b, 15, tail);
    lemma_split(b, 15, columns_bytes(f.columns), row_names_bytes(f.row_names));
    assert(decode(b) == decode_body(b, f.columns.len(), n));
    assert forall|i: int| 0 <= i < f.columns.len() implies {
        let c = #[trigger] f.columns[i];
        &&& c.1 is Numeric || c.1 is Integer || c.1 is Logical || c.1 is Character
        &&& length(c.1) == n
        &&& encode_utf8(c.0).len() <= 0xffff
        &&& c.1 matches Val::Character(s, _) ==> storable(s)
        &&& unnamed(c.1)
    } by {}
    lemma_columns(b, f.columns, n);
    if let Some(names) = f.row_names {
        lemma_strings_at(b, 15int + columns_bytes(f.columns).len(), all_present(names));
        assert(filled(all_present(names)) =~= names);
    }
}

/// Reading the bytes of any data frame that fits the format gives back its
/// column names, the types and entries of its columns and its row names; names
/// of single entries are not kept.
pub proof fn law_read_write_entries(f: Frame)
    requires
        fitting(f),
        encode(f).len() <= usize::MAX,
    ensures
        decode(encode(f)) == Ok::<Frame, Fault>(bare(f)),
{
    lemma_bare(f);
    law_read_write(bare(f));
}

// ── Cut files ────────────────────────────────────────────────────────

/// `p` is a beginning of `b`.
spec fn begins(b: Seq<u8>, p: Seq<u8>) -> bool {
    p.len() <= b.len() && forall|i: int| 0 <= i < p.len() ==> #[trigger] p[i] == b[i]
}

proof fn lemma_same_part(b: Seq<u8>, p: Seq<u8>, at: int, n: int)
    requires
        begins(b, p),
        0 <= at,
        0 <= n,
        at + n <= p.len(),
    ensures
        p.subrange(at, at + n) == b.subrange(at, at + n),
        word(p, at, n) == word(b, at, n),
{
    assert(p.subrange(at, at + n) =~= b.subrange(at, at + n));
}

/// Numbers that a beginning holds are those of the whole.
proof fn lemma_words_begin(b: Seq<u8>, p: Seq<u8>, at: int, k: nat, w: int)
    requires
        begins(b, p),
        0 <= at <= p.len(),
        w > 0,
        words(p, at, k, w) is Ok,
    ensures
        at + k * w <= p.len(),
        words(b, at, k, w) == words(p, at, k, w),
    decreases k,
{
    if k > 0 {
        lemma_words_begin(b, p, at, (k - 1) as nat, w);
        assert(0 <= (k - 1) * w && (k - 1) * w + w == k * w) by (nonlinear_arith)
            requires
                k > 0,
                w > 0,
        ;
        assert(short(p, at + (k - 1) * w, w) is None);
        lemma_same_part(b, p, at + (k - 1) * w, w);
    } else {
        assert(k * w == 0) by (nonlinear_arith)
            requires
                k == 0,
        ;
    }
}

proof fn lemma_bits_begin(b: Seq<u8>, p: Seq<u8>, at: int, n: nat)
    requires
        begins(b, p),
        0 <= at,
        bits_at(p, at, n) is Ok,
    ensures
        at + map_bytes(n) <= p.len(),
        bits_at(b, at, n) == bits_at(p, at, n),
{
    lemma_same_part(b, p, at, map_bytes(n) as int);
}

proof fn lemma_strings_begin(b: Seq<u8>, p: Seq<u8>, at: int, total: int, ws: Seq<u64>, k: nat)
    requires
        begins(b, p),
        0 <= at,
        at + total <= p.len(),
    ensures
        strings(b, at, total, ws, k) == strings(p, at, total, ws, k),
    decreases k,
{
    if k > 0 {
        lemma_strings_begin(b, p, at, total, ws, (k - 1) as nat);
        let off = ws[2 * k - 2];
        let len = ws[2 * k - 1];
        if off + len <= total {
            lemma_same_part(b, p, at + off, len as int);
        }
    }
}

proof fn lemma_strings_at_begin(b: Seq<u8>, p: Seq<u8>, at: int, n: nat)
    requires
        begins(b, p),
        0 <= at,
        strings_at(p, at, n) is Ok,
    ensures
        at <= strings_at(p, at, n)->Ok_0.1 <= p.len(),
        strings_at(b, at, n) == strings_at(p, at, n),
{
    reveal(strings_at);
    lemma_same_part(b, p, at, 4);
    let total = word(p, at, 4) as int;
    lemma_words_begin(b, p, at + 4, 2 * n, 4);
    lemma_strings_begin(b, p, at + 4 + 8 * n, total, words(p, at + 4, 2 * n, 4)->Ok_0, n);
}

proof fn lemma_column_begin(b: Seq<u8>, p: Seq<u8>, at: int, dtype: u8, n: nat)
    requires
        begins(b, p),
        0 <= at <= p.len(),
        column_at(p, at, dtype, n) is Ok,
    ensures
        at <= column_at(p, at, dtype, n)->Ok_0.1 <= p.len(),
        column_at(b, at, dtype, n) == column_at(p, at, dtype, n),
{
    reveal(column_at);
    if dtype == 0 {
        lemma_words_begin(b, p, at, n, 8);
        lemma_bits_begin(b, p, at + 8 * n, n);
    } else if dtype == 1 {
        lemma_words_begin(b, p, at, n, 4);
        lemma_bits_begin(b, p, at + 4 * n, n);
    } else if dtype == 2 {
        lemma_bits_begin(b, p, at, n);
        lemma_bits_begin(b, p, at + map_bytes(n), n);
    } else if dtype == 3 {
        lemma_strings_at_begin(b, p, at, n);
    }
}

proof fn lemma_named_column_begin(b: Seq<u8>, p: Seq<u8>, at: int, n: nat)
    requires
        begins(b, p),
        0 <= at,
        named_column_at(p, at, n) is Ok,
    ensures
        at <= named_column_at(p, at, n)->Ok_0.1 <= p.len(),
        named_column_at(b, at, n) == named_column_at(p, at, n),
{
    lemma_same_part(b, p, at, 2);
    let len = word(p, at, 2) as int;
    lemma_same_part(b, p, at + 2, len);
    let q = at + 2 + len;
    assert(p[q] == b[q]);
    lemma_column_begin(b, p, q + 1, p[q], n);
}

proof fn lemma_columns_begin(b: Seq<u8>, p: Seq<u8>, at: int, k: nat, n: nat)
    requires
        begins(b, p),
        0 <= at <= p.len(),
        columns_at(p, at, k, n) is Ok,
    ensures
        at <= columns_at(p, at, k, n)->Ok_0.1 <= p.len(),
        columns_at(b, at, k, n) == columns_at(p, at, k, n),
    decreases k,
{
    if k > 0 {
        lemma_columns_begin(b, p, at, (k - 1) as nat, n);
        lemma_named_column_begin(b, p, columns_at(p, at, (k - 1) as nat, n)->Ok_0.1, n);
    }
}

/// The end of what is read of the bytes of a data frame is their end.
proof fn lemma_read_whole(f: Frame)
    requires
        representable(f),
        encode(f).len() <= usize::MAX,
    ensures
        ({
            let b = encode(f);
            let n = frame_rows(f);
            let cs = columns_at(b, 15, f.columns.len(), n);
            &&& b.len() >= 15
            &&& word(b, 6, 4) == f.columns.len()
            &&& word(b, 10, 4) == n
            &&& cs is Ok
            &&& if b[14] != 0 {
                strings_at(b, cs->Ok_0.1, n) is Ok && strings_at(b, cs->Ok_0.1, n)->Ok_0.1 == b.len()
            } else {
                cs->Ok_0.1 == b.len()
            }
        }),
{
    let b = encode(f);
    let n = frame_rows(f);
    let tail = columns_bytes(f.columns) + row_names_bytes(f.row_names);
    assert(b =~= header_bytes(f) + tail);
    lemma_header(b, f, tail);
    lemma_within(b, 15, tail);
    assert(header_bytes(f).len() == 15) by {
        lemma_le_len(1, 2);
        lemma_le_len(f.columns.len(), 4);
        lemma_le_len(n, 4);
    }
    lemma_split(b, 15, columns_bytes(f.columns), row_names_bytes(f.row_names));
    assert forall|i: int| 0 <= i < f.columns.len() implies {
        let c = #[trigger] f.columns[i];
        &&& c.1 is Numeric || c.1 is Integer || c.1 is Logical || c.1 is Character
        &&& length(c.1) == n
        &&& encode_utf8(c.0).len() <= 0xffff
        &&& c.1 matches Val::Character(s, _) ==> storable(s)
        &&& unnamed(c.1)
    } by {}
    lemma_columns(b, f.columns, n);
    if let Some(names) = f.row_names {
        lemma_strings_at(b, 15int + columns_bytes(f.columns).len(), all_present(names));
    }
}

/// No file that was cut short is accepted: reading any proper beginning of the
/// bytes of a data frame fails.
pub proof fn law_cut_files_refused(f: Frame, k: int)
    requires
        fitting(f),
        encode(f).len() <= usize::MAX,
        0 <= k < encode(f).len(),
    ensures
        decode(encode(f).take(k)) is Err,
{
    let b = encode(f);
    let p = b.take(k);
    assert(begins(b, p));
    lemma_bare(f);
    lemma_read_whole(bare(f));
    assert(bare(f).columns.len() == f.columns.len());
    if decode(p) is Ok {
        assert(p.len() >= 15);
        lemma_same_part(b, p, 6, 4);
        lemma_same_part(b, p, 10, 4);
        assert(p[14] == b[14]);
        let n = frame_rows(f);
        assert(columns_at(p, 15, f.columns.len(), n) is Ok);
        lemma_columns_begin(b, p, 15, f.columns.len(), n);
        if b[14] != 0 {
            lemma_strings_at_begin(b, p, columns_at(p, 15, f.columns.len(), n)->Ok_0.1, n);
        }
    }
}

} // verus!
