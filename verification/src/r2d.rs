//! The `.r2d` binary dataset format, version 1.
//!
//! Little-endian throughout:
//!
//! ```text
//! 0..4    magic "R2D1"
//! 4..6    u16  version (1)
//! 6..10   u32  number of columns
//! 10..14  u32  number of rows
//! 14..15  u8   whether row names follow the columns
//! columns: u16 name length, name in UTF-8, u8 type, payload
//! ```
//!
//! A numeric payload is the doubles and then a validity bitmap; an integer
//! payload the same with 32-bit integers; a logical payload is two bitmaps, of
//! values and of validity. A character payload is the size of the text, one
//! pair of offset and length for each row (a length of all ones marks a missing
//! string), and the text.
use crate::bytes::{
    bitmap, copy_bytes, get_bits, get_le, le, le_value, lemma_le_bound, lemma_radix, push_bitmap, push_bytes,
    push_le, unpacked,
};
use crate::double::{Real, NAN_BITS};
use crate::text::{decimal, extend_decimal, extend_str, opt_text, opt_texts, owned, string_of, texts};
use crate::value::{frame_rows, length, no_attrs, DataFrame, ErrKind, Frame, R2Err, RVal, Val};
use vstd::prelude::*;
use vstd::utf8::{decode_utf8, encode_utf8, valid_utf8};

verus! {

// ── Format ───────────────────────────────────────────────────────────

pub open spec fn magic() -> Seq<u8> {
    seq![82u8, 50u8, 68u8, 49u8]
}

/// The bits written for a number; a missing one is written as a NaN.
pub open spec fn real_word(x: Option<Real>) -> nat {
    match x {
        Some(r) => r.bits as nat,
        None => NAN_BITS as nat,
    }
}

/// The 32 bits written for an integer; a missing one is written as 0.
pub open spec fn int_word(x: Option<i32>) -> nat {
    match x {
        Some(n) => if n < 0 {
            (n + 0x1_0000_0000) as nat
        } else {
            n as nat
        },
        None => 0,
    }
}

pub open spec fn reals_bytes(s: Seq<Option<Real>>) -> Seq<u8>
    decreases s.len(),
{
    if s.len() == 0 {
        Seq::empty()
    } else {
        reals_bytes(s.drop_last()) + le(real_word(s.last()), 8)
    }
}

pub open spec fn ints_bytes(s: Seq<Option<i32>>) -> Seq<u8>
    decreases s.len(),
{
    if s.len() == 0 {
        Seq::empty()
    } else {
        ints_bytes(s.drop_last()) + le(int_word(s.last()), 4)
    }
}

/// Which entries are present.
pub open spec fn validity<T>(s: Seq<Option<T>>) -> Seq<bool> {
    Seq::new(s.len(), |i: int| s[i] is Some)
}

/// Which entries are true.
pub open spec fn truths(s: Seq<Option<bool>>) -> Seq<bool> {
    Seq::new(s.len(), |i: int| s[i] == Some(true))
}

/// The text of all strings that are present.
pub open spec fn blob(s: Seq<Option<Seq<char>>>) -> Seq<u8>
    decreases s.len(),
{
    if s.len() == 0 {
        Seq::empty()
    } else {
        match s.last() {
            Some(t) => blob(s.drop_last()) + encode_utf8(t),
            None => blob(s.drop_last()),
        }
    }
}

/// The offset and length of each string.
pub open spec fn table(s: Seq<Option<Seq<char>>>) -> Seq<u8>
    decreases s.len(),
{
    if s.len() == 0 {
        Seq::empty()
    } else {
        table(s.drop_last()) + match s.last() {
            Some(t) => le(blob(s.drop_last()).len(), 4) + le(encode_utf8(t).len(), 4),
            None => le(0, 4) + le(0xffff_ffff, 4),
        }
    }
}

pub open spec fn strings_bytes(s: Seq<Option<Seq<char>>>) -> Seq<u8> {
    le(blob(s).len(), 4) + table(s) + blob(s)
}

/// Type code and payload of a column.
pub open spec fn column_bytes(v: Val) -> Seq<u8> {
    match v {
        Val::Numeric(s, _) => seq![0u8] + reals_bytes(s) + bitmap(validity(s)),
        Val::Integer(s, _) => seq![1u8] + ints_bytes(s) + bitmap(validity(s)),
        Val::Logical(s, _) => seq![2u8] + bitmap(truths(s)) + bitmap(validity(s)),
        Val::Character(s, _) => seq![3u8] + strings_bytes(s),
        _ => Seq::empty(),
    }
}

pub open spec fn name_bytes(name: Seq<char>) -> Seq<u8> {
    le(encode_utf8(name).len(), 2) + encode_utf8(name)
}

pub open spec fn columns_bytes(cs: Seq<(Seq<char>, Val)>) -> Seq<u8>
    decreases cs.len(),
{
    if cs.len() == 0 {
        Seq::empty()
    } else {
        columns_bytes(cs.drop_last()) + (name_bytes(cs.last().0) + column_bytes(cs.last().1))
    }
}

pub open spec fn all_present(s: Seq<Seq<char>>) -> Seq<Option<Seq<char>>> {
    Seq::new(s.len(), |i: int| Some(s[i]))
}

pub open spec fn row_names_bytes(names: Option<Seq<Seq<char>>>) -> Seq<u8> {
    match names {
        Some(s) => strings_bytes(all_present(s)),
        None => Seq::empty(),
    }
}

pub open spec fn header_bytes(f: Frame) -> Seq<u8> {
    magic() + le(1, 2) + le(f.columns.len(), 4) + le(frame_rows(f), 4) + seq![
        if f.row_names is Some {
            1u8
        } else {
            0u8
        },
    ]
}

/// The bytes of a data frame.
pub open spec fn encode(f: Frame) -> Seq<u8> {
    header_bytes(f) + columns_bytes(f.columns) + row_names_bytes(f.row_names)
}

pub open spec fn is_vector(v: Val) -> bool {
    v is Numeric || v is Integer || v is Logical || v is Character
}

/// The frames that can be written: vectors of one length, which fits in 32 bits.
pub open spec fn writable(f: Frame) -> bool {
    &&& frame_rows(f) <= 0xffff_ffff
    &&& forall|i: int|
        0 <= i < f.columns.len() ==> is_vector((#[trigger] f.columns[i]).1) && length(
            f.columns[i].1,
        ) == frame_rows(f)
}

// ── Writer ───────────────────────────────────────────────────────────

fn write_reals(out: &mut Vec<u8>, v: &Vec<Option<Real>>)
    ensures
        final(out)@ == old(out)@ + reals_bytes(v@),
{
    let ghost start = out@;
    assert(v@.subrange(0, 0) =~= Seq::<Option<Real>>::empty());
    for i in 0..v.len()
        invariant
            out@ =~= start + reals_bytes(v@.subrange(0, i as int)),
    {
        assert(v@.subrange(0, i + 1).drop_last() =~= v@.subrange(0, i as int));
        let w: u64 = match v[i] {
            Some(r) => r.bits,
            None => NAN_BITS,
        };
        push_le(out, w, 8);
    }
    assert(v@.subrange(0, v@.len() as int) =~= v@);
}

fn write_ints(out: &mut Vec<u8>, v: &Vec<Option<i32>>)
    ensures
        final(out)@ == old(out)@ + ints_bytes(v@),
{
    let ghost start = out@;
    assert(v@.subrange(0, 0) =~= Seq::<Option<i32>>::empty());
    for i in 0..v.len()
        invariant
            out@ =~= start + ints_bytes(v@.subrange(0, i as int)),
    {
        assert(v@.subrange(0, i + 1).drop_last() =~= v@.subrange(0, i as int));
        let w: u64 = match v[i] {
            Some(n) => if n < 0 {
                (n as i64 + 0x1_0000_0000) as u64
            } else {
                n as u64
            },
            None => 0,
        };
        push_le(out, w, 4);
    }
    assert(v@.subrange(0, v@.len() as int) =~= v@);
}

fn write_validity<T: Copy>(out: &mut Vec<u8>, v: &Vec<Option<T>>)
    requires
        v@.len() <= 0xffff_ffff,
    ensures
        final(out)@ == old(out)@ + bitmap(validity(v@)),
{
    let mut bits: Vec<bool> = Vec::new();
    for i in 0..v.len()
        invariant
            bits@ =~= validity(v@).subrange(0, i as int),
    {
        bits.push(v[i].is_some());
    }
    assert(bits@ =~= validity(v@));
    push_bitmap(out, &bits);
}

fn write_truths(out: &mut Vec<u8>, v: &Vec<Option<bool>>)
    requires
        v@.len() <= 0xffff_ffff,
    ensures
        final(out)@ == old(out)@ + bitmap(truths(v@)),
{
    let mut bits: Vec<bool> = Vec::new();
    for i in 0..v.len()
        invariant
            bits@ =~= truths(v@).subrange(0, i as int),
    {
        let b: bool = match v[i] {
            Some(x) => x,
            None => false,
        };
        bits.push(b);
    }
    assert(bits@ =~= truths(v@));
    push_bitmap(out, &bits);
}

fn write_character_payload(out: &mut Vec<u8>, v: &Vec<Option<String>>)
    ensures
        final(out)@ == old(out)@ + strings_bytes(opt_texts(v@)),
{
    let ghost start = out@;
    let ghost s = opt_texts(v@);
    let mut rows: Vec<u8> = Vec::new();
    let mut text: Vec<u8> = Vec::new();
    assert(s.subrange(0, 0) =~= Seq::<Option<Seq<char>>>::empty());
    for i in 0..v.len()
        invariant
            s == opt_texts(v@),
            rows@ =~= table(s.subrange(0, i as int)),
            text@ =~= blob(s.subrange(0, i as int)),
    {
        assert(s.subrange(0, i + 1).drop_last() =~= s.subrange(0, i as int));
        assert(s.subrange(0, i + 1).last() == opt_text(v@[i as int]));
        match &v[i] {
            Some(t) => {
                let b = t.as_str().as_bytes();
                push_le(&mut rows, text.len() as u64, 4);
                push_le(&mut rows, b.len() as u64, 4);
                push_bytes(&mut text, b);
            },
            None => {
                push_le(&mut rows, 0, 4);
                push_le(&mut rows, 0xffff_ffff, 4);
            },
        }
    }
    assert(s.subrange(0, v@.len() as int) =~= s);
    push_le(out, text.len() as u64, 4);
    push_bytes(out, rows.as_slice());
    push_bytes(out, text.as_slice());
    assert(out@ =~= start + strings_bytes(s));
}

fn write_name(out: &mut Vec<u8>, name: &str)
    ensures
        final(out)@ == old(out)@ + name_bytes(name@),
{
    let ghost start = out@;
    let b = name.as_bytes();
    push_le(out, b.len() as u64, 2);
    push_bytes(out, b);
    assert(out@ =~= start + name_bytes(name@));
}

fn write_column(out: &mut Vec<u8>, col: &RVal)
    requires
        is_vector(col.deep()),
        length(col.deep()) <= 0xffff_ffff,
    ensures
        final(out)@ == old(out)@ + column_bytes(col.deep()),
{
    proof {
        reveal_with_fuel(RVal::deep, 2);
    }
    let ghost start = out@;
    match col {
        RVal::Numeric(v, _) => {
            out.push(0);
            write_reals(out, v);
            write_validity(out, v);
        },
        RVal::Integer(v, _) => {
            out.push(1);
            write_ints(out, v);
            write_validity(out, v);
        },
        RVal::Logical(v, _) => {
            out.push(2);
            write_truths(out, v);
            write_validity(out, v);
        },
        RVal::Character(v, _) => {
            out.push(3);
            write_character_payload(out, v);
        },
        _ => {},
    }
    assert(out@ =~= start + column_bytes(col.deep()));
}

/// The bytes of a data frame in the `.r2d` format.
pub fn write_r2d(df: &DataFrame) -> (r: Vec<u8>)
    requires
        writable(df.deep()),
    ensures
        r@ == encode(df.deep()),
{
    let ghost f = df.deep();
    let mut out: Vec<u8> = Vec::new();
    let n_rows: usize = df.nrow();
    out.push(82);
    out.push(50);
    out.push(68);
    out.push(49);
    push_le(&mut out, 1, 2);
    push_le(&mut out, df.columns.len() as u64, 4);
    push_le(&mut out, n_rows as u64, 4);
    out.push(
        if df.row_names.is_some() {
            1
        } else {
            0
        },
    );
    assert(out@ =~= header_bytes(f));
    assert(f.columns.subrange(0, 0) =~= Seq::<(Seq<char>, Val)>::empty());
    for i in 0..df.columns.len()
        invariant
            f == df.deep(),
            writable(f),
            out@ =~= header_bytes(f) + columns_bytes(f.columns.subrange(0, i as int)),
    {
        assert(f.columns.subrange(0, i + 1).drop_last() =~= f.columns.subrange(0, i as int));
        assert(f.columns[i as int] == (df.columns@[i as int].0@, df.columns@[i as int].1.deep()));
        write_name(&mut out, df.columns[i].0.as_str());
        write_column(&mut out, &df.columns[i].1);
    }
    assert(f.columns.subrange(0, df.columns@.len() as int) =~= f.columns);
    if let Some(names) = &df.row_names {
        let mut opts: Vec<Option<String>> = Vec::new();
        for i in 0..names.len()
            invariant
                opt_texts(opts@) =~= all_present(texts(names@)).subrange(0, i as int),
        {
            let s = owned(names[i].as_str());
            let ghost o = opts@;
            opts.push(Some(s));
            assert(opt_texts(opts@) =~= opt_texts(o).push(Some(names@[i as int]@)));
        }
        assert(opt_texts(opts@) =~= all_present(texts(names@)));
        write_character_payload(&mut out, &opts);
    }
    assert(out@ =~= encode(f));
    out
}

// ── Reader ───────────────────────────────────────────────────────────

/// What can be wrong with the bytes of a dataset.
#[derive(Clone, Copy, PartialEq, Eq, Structural, Debug)]
pub enum Fault {
    Eof { at: usize, need: usize, have: usize },
    Magic(u8, u8, u8, u8),
    Version(u16),
    NameUtf8 { at: usize, len: usize },
    Dtype(u8),
    Bounds { off: u32, span: u32, blob: usize },
    BlobUtf8 { at: usize, len: usize },
}

/// The fault of reading `n` bytes at `at`, where there are fewer.
pub open spec fn short(b: Seq<u8>, at: int, n: int) -> Option<Fault> {
    if at + n > b.len() {
        Some(
            Fault::Eof { at: at as usize, need: n as usize, have: (b.len() - at) as usize },
        )
    } else {
        None
    }
}

/// The number in the `k` bytes at `at`.
pub open spec fn word(b: Seq<u8>, at: int, k: int) -> nat {
    le_value(b.subrange(at, at + k))
}

/// `k` numbers of `w` bytes each.
pub open spec fn words(b: Seq<u8>, at: int, k: nat, w: int) -> Result<Seq<u64>, Fault>
    decreases k,
{
    if k == 0 {
        Ok(Seq::empty())
    } else {
        match words(b, at, (k - 1) as nat, w) {
            Err(e) => Err(e),
            Ok(s) => match short(b, at + (k - 1) * w, w) {
                Some(e) => Err(e),
                None => Ok(s.push(word(b, at + (k - 1) * w, w) as u64)),
            },
        }
    }
}

pub open spec fn map_bytes(n: nat) -> nat {
    (n + 7) / 8
}

/// `n` bits packed in bytes.
pub open spec fn bits_at(b: Seq<u8>, at: int, n: nat) -> Result<Seq<bool>, Fault> {
    match short(b, at, map_bytes(n) as int) {
        Some(e) => Err(e),
        None => Ok(unpacked(b.subrange(at, at + map_bytes(n)), n)),
    }
}

pub open spec fn signed(w: u64) -> i32 {
    if w >= 0x8000_0000 {
        (w - 0x1_0000_0000) as i32
    } else {
        w as i32
    }
}

/// The strings that the table entries name, of the text of `total` bytes at `at`.
pub open spec fn strings(b: Seq<u8>, at: int, total: int, ws: Seq<u64>, k: nat) -> Result<
    Seq<Option<Seq<char>>>,
    Fault,
>
    decreases k,
{
    if k == 0 {
        Ok(Seq::empty())
    } else {
        match strings(b, at, total, ws, (k - 1) as nat) {
            Err(e) => Err(e),
            Ok(s) => {
                let off = ws[2 * k - 2];
                let len = ws[2 * k - 1];
                if len == 0xffff_ffff {
                    Ok(s.push(None))
                } else if off + len > total {
                    Err(Fault::Bounds { off: off as u32, span: len as u32, blob: total as usize })
                } else if !valid_utf8(b.subrange(at + off, at + off + len)) {
                    Err(Fault::BlobUtf8 { at: (at + off) as usize, len: len as usize })
                } else {
                    Ok(s.push(Some(decode_utf8(b.subrange(at + off, at + off + len)))))
                }
            },
        }
    }
}

/// A character payload of `n` strings, and where it ends.
#[verifier::opaque]
pub open spec fn strings_at(b: Seq<u8>, at: int, n: nat) -> Result<
    (Seq<Option<Seq<char>>>, int),
    Fault,
> {
    match short(b, at, 4) {
        Some(e) => Err(e),
        None => {
            let total = word(b, at, 4) as int;
            match words(b, at + 4, 2 * n, 4) {
                Err(e) => Err(e),
                Ok(ws) => match short(b, at + 4 + 8 * n, total) {
                    Some(e) => Err(e),
                    None => match strings(b, at + 4 + 8 * n, total, ws, n) {
                        Err(e) => Err(e),
                        Ok(s) => Ok((s, at + 4 + 8 * n + total)),
                    },
                },
            }
        },
    }
}

/// The numbers of a column, from their bits and their validity.
pub open spec fn masked_reals(ws: Seq<u64>, ok: Seq<bool>) -> Seq<Option<Real>> {
    Seq::new(
        ok.len(),
        |i: int|
            if ok[i] {
                Some(Real { bits: ws[i] })
            } else {
                None
            },
    )
}

/// The integers of a column, from their bits and their validity.
pub open spec fn masked_ints(ws: Seq<u64>, ok: Seq<bool>) -> Seq<Option<i32>> {
    Seq::new(
        ok.len(),
        |i: int|
            if ok[i] {
                Some(signed(ws[i]))
            } else {
                None
            },
    )
}

/// The truth values of a column, from their bits and their validity.
pub open spec fn masked_bools(vals: Seq<bool>, ok: Seq<bool>) -> Seq<Option<bool>> {
    Seq::new(
        ok.len(),
        |i: int|
            if ok[i] {
                Some(vals[i])
            } else {
                None
            },
    )
}

/// A column of type `dtype` with `n` rows, and where it ends.
#[verifier::opaque]
pub open spec fn column_at(b: Seq<u8>, at: int, dtype: u8, n: nat) -> Result<(Val, int), Fault> {
    let m = map_bytes(n) as int;
    if dtype == 0 {
        match words(b, at, n, 8) {
            Err(e) => Err(e),
            Ok(ws) => match bits_at(b, at + 8 * n, n) {
                Err(e) => Err(e),
                Ok(ok) => Ok((Val::Numeric(masked_reals(ws, ok), None), at + 8 * n + m)),
            },
        }
    } else if dtype == 1 {
        match words(b, at, n, 4) {
            Err(e) => Err(e),
            Ok(ws) => match bits_at(b, at + 4 * n, n) {
                Err(e) => Err(e),
                Ok(ok) => Ok((Val::Integer(masked_ints(ws, ok), None), at + 4 * n + m)),
            },
        }
    } else if dtype == 2 {
        match bits_at(b, at, n) {
            Err(e) => Err(e),
            Ok(vals) => match bits_at(b, at + m, n) {
                Err(e) => Err(e),
                Ok(ok) => Ok((Val::Logical(masked_bools(vals, ok), None), at + m + m)),
            },
        }
    } else if dtype == 3 {
        match strings_at(b, at, n) {
            Err(e) => Err(e),
            Ok((s, p)) => Ok((Val::Character(s, None), p)),
        }
    } else {
        Err(Fault::Dtype(dtype))
    }
}

/// A named column with `n` rows, and where it ends.
pub open spec fn named_column_at(b: Seq<u8>, at: int, n: nat) -> Result<
    ((Seq<char>, Val), int),
    Fault,
> {
    match short(b, at, 2) {
        Some(e) => Err(e),
        None => {
            let len = word(b, at, 2) as int;
            match short(b, at + 2, len) {
                Some(e) => Err(e),
                None => {
                    let name = b.subrange(at + 2, at + 2 + len);
                    if !valid_utf8(name) {
                        Err(Fault::NameUtf8 { at: (at + 2) as usize, len: len as usize })
                    } else {
                        match short(b, at + 2 + len, 1) {
                            Some(e) => Err(e),
                            None => match column_at(b, at + 3 + len, b[at + 2 + len], n) {
                                Err(e) => Err(e),
                                Ok((v, p)) => Ok(((decode_utf8(name), v), p)),
                            },
                        }
                    }
                },
            }
        },
    }
}

/// The first `k` columns from `at`, and where they end.
pub open spec fn columns_at(b: Seq<u8>, at: int, k: nat, n: nat) -> Result<
    (Seq<(Seq<char>, Val)>, int),
    Fault,
>
    decreases k,
{
    if k == 0 {
        Ok((Seq::empty(), at))
    } else {
        match columns_at(b, at, (k - 1) as nat, n) {
            Err(e) => Err(e),
            Ok((cs, p)) => match named_column_at(b, p, n) {
                Err(e) => Err(e),
                Ok((c, q)) => Ok((cs.push(c), q)),
            },
        }
    }
}

/// Row names: a missing one reads as the empty string.
pub open spec fn filled(s: Seq<Option<Seq<char>>>) -> Seq<Seq<char>> {
    Seq::new(
        s.len(),
        |i: int|
            match s[i] {
                Some(t) => t,
                None => Seq::empty(),
            },
    )
}

/// The data frame that some bytes hold.
pub open spec fn decode(b: Seq<u8>) -> Result<Frame, Fault> {
    if short(b, 0, 4) is Some {
        Err(short(b, 0, 4)->0)
    } else if b.subrange(0, 4) != magic() {
        Err(Fault::Magic(b[0], b[1], b[2], b[3]))
    } else if short(b, 4, 2) is Some {
        Err(short(b, 4, 2)->0)
    } else if word(b, 4, 2) != 1 {
        Err(Fault::Version(word(b, 4, 2) as u16))
    } else if short(b, 6, 4) is Some {
        Err(short(b, 6, 4)->0)
    } else if short(b, 10, 4) is Some {
        Err(short(b, 10, 4)->0)
    } else if short(b, 14, 1) is Some {
        Err(short(b, 14, 1)->0)
    } else {
        decode_body(b, word(b, 6, 4), word(b, 10, 4))
    }
}

/// What follows the header: `k` columns of `n` rows and, where byte 14 says so,
/// row names.
pub open spec fn decode_body(b: Seq<u8>, k: nat, n: nat) -> Result<Frame, Fault> {
    match columns_at(b, 15, k, n) {
        Err(e) => Err(e),
        Ok((cs, p)) => if b[14] != 0 {
            match strings_at(b, p, n) {
                Err(e) => Err(e),
                Ok((s, _)) => Ok(Frame { columns: cs, row_names: Some(filled(s)) }),
            }
        } else {
            Ok(Frame { columns: cs, row_names: None })
        },
    }
}

proof fn lemma_words_stop(b: Seq<u8>, at: int, j: nat, k: nat, w: int)
    requires
        j <= k,
        words(b, at, j, w) is Err,
    ensures
        words(b, at, k, w) == words(b, at, j, w),
    decreases k,
{
    if j < k {
        lemma_words_stop(b, at, j, (k - 1) as nat, w);
    }
}

proof fn lemma_strings_stop(b: Seq<u8>, at: int, total: int, ws: Seq<u64>, j: nat, k: nat)
    requires
        j <= k,
        strings(b, at, total, ws, j) is Err,
    ensures
        strings(b, at, total, ws, k) == strings(b, at, total, ws, j),
    decreases k,
{
    if j < k {
        lemma_strings_stop(b, at, total, ws, j, (k - 1) as nat);
    }
}

proof fn lemma_columns_stop(b: Seq<u8>, at: int, j: nat, k: nat, n: nat)
    requires
        j <= k,
        columns_at(b, at, j, n) is Err,
    ensures
        columns_at(b, at, k, n) == columns_at(b, at, j, n),
    decreases k,
{
    if j < k {
        lemma_columns_stop(b, at, j, (k - 1) as nat, n);
    }
}

fn need(b: &[u8], at: usize, n: usize) -> (r: Result<(), Fault>)
    requires
        at <= b@.len(),
    ensures
        match short(b@, at as int, n as int) {
            Some(e) => r == Err::<(), Fault>(e),
            None => r is Ok,
        },
{
    let have: usize = b.len() - at;
    if n > have {
        Err(Fault::Eof { at, need: n, have })
    } else {
        Ok(())
    }
}

fn read_words(b: &[u8], at: usize, k: u64, w: usize) -> (r: Result<Vec<u64>, Fault>)
    requires
        at <= b@.len(),
        0 < w <= 8,
        k <= 0x2_0000_0000,
    ensures
        match words(b@, at as int, k as nat, w as int) {
            Err(e) => r is Err && r->Err_0 == e,
            Ok(s) => r is Ok && r->Ok_0@ == s && at + k * w <= b@.len() && s.len() == k,
        },
{
    let size: usize = b.len();
    let mut out: Vec<u64> = Vec::new();
    let mut pos: usize = at;
    let mut i: u64 = 0;
    while i < k
        invariant
            i <= k <= 0x2_0000_0000,
            0 < w <= 8,
            size == b@.len(),
            pos == at + i * w,
            pos <= b@.len(),
            out@.len() == i,
            words(b@, at as int, i as nat, w as int) == Ok::<Seq<u64>, Fault>(out@),
        decreases k - i,
    {
        proof {
            lemma_le_bound(b@.subrange(pos as int, pos + w));
            assert((i + 1) * w == i * w + w) by (nonlinear_arith);
        }
        match need(b, pos, w) {
            Err(e) => {
                proof {
                    lemma_words_stop(b@, at as int, (i + 1) as nat, k as nat, w as int);
                }
                return Err(e);
            },
            Ok(_) => {},
        }
        let v: u64 = get_le(b, pos, w);
        out.push(v);
        pos += w;
        i += 1;
    }
    Ok(out)
}

fn read_bitmap(b: &[u8], at: usize, n: usize) -> (r: Result<Vec<bool>, Fault>)
    requires
        at <= b@.len(),
        n <= 0xffff_ffff,
    ensures
        match bits_at(b@, at as int, n as nat) {
            Err(e) => r is Err && r->Err_0 == e,
            Ok(s) => r is Ok && r->Ok_0@ == s && s.len() == n && at + map_bytes(n as nat)
                <= b@.len(),
        },
{
    let m: u64 = (n as u64 + 7) / 8;
    match need(b, at, m as usize) {
        Err(e) => return Err(e),
        Ok(_) => {},
    }
    Ok(get_bits(b, at, n))
}

/// The message that `std::str::from_utf8` gives for bytes that are not UTF-8.
pub uninterp spec fn utf8_error_text(b: Seq<u8>) -> Seq<char>;

/// `std::str::from_utf8`: the text of bytes that are valid UTF-8, and for others
/// an error whose message is a function of the bytes.
#[verifier::external_body]
fn utf8_text(b: &Vec<u8>) -> (r: Result<String, String>)
    ensures
        match r {
            Ok(s) => valid_utf8(b@) && s@ == decode_utf8(b@),
            Err(m) => !valid_utf8(b@) && m@ == utf8_error_text(b@),
        },
{
    match std::str::from_utf8(b) {
        Ok(s) => Ok(s.to_string()),
        Err(e) => Err(e.to_string()),
    }
}

fn read_character_payload(b: &[u8], at: usize, n: usize) -> (r: Result<
    (Vec<Option<String>>, usize),
    Fault,
>)
    requires
        at <= b@.len(),
        n <= 0xffff_ffff,
    ensures
        match strings_at(b@, at as int, n as nat) {
            Err(e) => r is Err && r->Err_0 == e,
            Ok((s, p)) => r is Ok && opt_texts(r->Ok_0.0@) == s && r->Ok_0.1 == p && p
                <= b@.len() && s.len() == n,
        },
{
    proof {
        reveal(strings_at);
    }
    let size: usize = b.len();
    match need(b, at, 4) {
        Err(e) => return Err(e),
        Ok(_) => {},
    }
    proof {
        lemma_le_bound(b@.subrange(at as int, at + 4));
        lemma_radix();
    }
    let total: u64 = get_le(b, at, 4);
    let ws = match read_words(b, at + 4, 2 * n as u64, 4) {
        Err(e) => return Err(e),
        Ok(ws) => ws,
    };
    proof {
        lemma_word_bounds(b@, at + 4, (2 * n) as nat, 4);
    }
    let base: usize = at + 4 + 8 * n;
    match need(b, base, total as usize) {
        Err(e) => return Err(e),
        Ok(_) => {},
    }
    let mut out: Vec<Option<String>> = Vec::new();
    let mut k: usize = 0;
    assert(opt_texts(out@) =~= Seq::<Option<Seq<char>>>::empty());
    while k < n
        invariant
            k <= n <= 0xffff_ffff,
            size == b@.len(),
            ws@.len() == 2 * n,
            total <= 0xffff_ffff,
            base + total <= b@.len(),
            strings_at(b@, at as int, n as nat) == match strings(
                b@,
                base as int,
                total as int,
                ws@,
                n as nat,
            ) {
                Err(e) => Err(e),
                Ok(s) => Ok((s, base + total)),
            },
            forall|i: int| 0 <= i < ws@.len() ==> #[trigger] ws@[i] <= 0xffff_ffff,
            strings(b@, base as int, total as int, ws@, k as nat) == Ok::<
                Seq<Option<Seq<char>>>,
                Fault,
            >(opt_texts(out@)),
            out@.len() == k,
        decreases n - k,
    {
        let off: u64 = ws[2 * k];
        let len: u64 = ws[2 * k + 1];
        let ghost o = out@;
        if len == 0xffff_ffff {
            out.push(None);
            assert(opt_texts(out@) =~= opt_texts(o).push(None));
        } else if off + len > total {
            proof {
                lemma_strings_stop(
                    b@,
                    base as int,
                    total as int,
                    ws@,
                    (k + 1) as nat,
                    n as nat,
                );
            }
            return Err(Fault::Bounds { off: off as u32, span: len as u32, blob: total as usize });
        } else {
            let from: usize = base + off as usize;
            let piece = copy_bytes(b, from, from + len as usize);
            match utf8_text(&piece) {
                Ok(s) => {
                    out.push(Some(s));
                    assert(opt_texts(out@) =~= opt_texts(o).push(Some(s@)));
                },
                Err(_) => {
                    proof {
                        lemma_strings_stop(
                            b@,
                            base as int,
                            total as int,
                            ws@,
                            (k + 1) as nat,
                            n as nat,
                        );
                    }
                    return Err(Fault::BlobUtf8 { at: from, len: len as usize });
                },
            }
        }
        k += 1;
    }
    Ok((out, base + total as usize))
}

proof fn lemma_word_bounds(b: Seq<u8>, at: int, k: nat, w: int)
    requires
        0 <= at,
        w == 4,
    ensures
        words(b, at, k, w) matches Ok(s) ==> s.len() == k && forall|i: int|
            0 <= i < s.len() ==> #[trigger] s[i] <= 0xffff_ffff,
    decreases k,
{
    lemma_radix();
    if k > 0 {
        lemma_word_bounds(b, at, (k - 1) as nat, w);
        assert(0 <= (k - 1) * w);
        lemma_le_bound(b.subrange(at + (k - 1) * w, at + (k - 1) * w + w));
    }
}

fn read_column(b: &[u8], at: usize, dtype: u8, n: usize) -> (r: Result<(RVal, usize), Fault>)
    requires
        at <= b@.len(),
        n <= 0xffff_ffff,
    ensures
        match column_at(b@, at as int, dtype, n as nat) {
            Err(e) => r is Err && r->Err_0 == e,
            Ok((v, p)) => r is Ok && r->Ok_0.0.deep() == v && r->Ok_0.1 == p && p <= b@.len(),
        },
{
    proof {
        reveal(column_at);
    }
    proof {
        reveal_with_fuel(RVal::deep, 2);
    }
    let size: usize = b.len();
    let m: usize = ((n as u64 + 7) / 8) as usize;
    if dtype == 0 {
        let ws = match read_words(b, at, n as u64, 8) {
            Err(e) => return Err(e),
            Ok(ws) => ws,
        };
        let ok = match read_bitmap(b, at + 8 * n, n) {
            Err(e) => return Err(e),
            Ok(s) => s,
        };
        let mut out: Vec<Option<Real>> = Vec::new();
        for i in 0..n
            invariant
                n == ws@.len() == ok@.len(),
                out@.len() == i,
                forall|j: int|
                    0 <= j < i ==> out@[j] == if ok@[j] {
                        Some(Real { bits: ws@[j] })
                    } else {
                        None
                    },
        {
            out.push(
                if ok[i] {
                    Some(Real { bits: ws[i] })
                } else {
                    None
                },
            );
        }
        assert(out@ =~= masked_reals(ws@, ok@));
        Ok((RVal::Numeric(out, no_attrs()), at + 8 * n + m))
    } else if dtype == 1 {
        let ws = match read_words(b, at, n as u64, 4) {
            Err(e) => return Err(e),
            Ok(ws) => ws,
        };
        proof {
            lemma_word_bounds(b@, at as int, n as nat, 4);
        }
        let ok = match read_bitmap(b, at + 4 * n, n) {
            Err(e) => return Err(e),
            Ok(s) => s,
        };
        let mut out: Vec<Option<i32>> = Vec::new();
        for i in 0..n
            invariant
                n == ws@.len() == ok@.len(),
                out@.len() == i,
                forall|j: int| 0 <= j < ws@.len() ==> #[trigger] ws@[j] <= 0xffff_ffff,
                forall|j: int|
                    0 <= j < i ==> out@[j] == if ok@[j] {
                        Some(signed(ws@[j]))
                    } else {
                        None
                    },
        {
            let w: u64 = ws[i];
            let v: i32 = if w >= 0x8000_0000 {
                (w as i64 - 0x1_0000_0000) as i32
            } else {
                w as i32
            };
            out.push(
                if ok[i] {
                    Some(v)
                } else {
                    None
                },
            );
        }
        assert(out@ =~= masked_ints(ws@, ok@));
        Ok((RVal::Integer(out, no_attrs()), at + 4 * n + m))
    } else if dtype == 2 {
        let vals = match read_bitmap(b, at, n) {
            Err(e) => return Err(e),
            Ok(s) => s,
        };
        let ok = match read_bitmap(b, at + m, n) {
            Err(e) => return Err(e),
            Ok(s) => s,
        };
        let mut out: Vec<Option<bool>> = Vec::new();
        for i in 0..n
            invariant
                n == vals@.len() == ok@.len(),
                out@.len() == i,
                forall|j: int|
                    0 <= j < i ==> out@[j] == if ok@[j] {
                        Some(vals@[j])
                    } else {
                        None
                    },
        {
            out.push(
                if ok[i] {
                    Some(vals[i])
                } else {
                    None
                },
            );
        }
        assert(out@ =~= masked_bools(vals@, ok@));
        Ok((RVal::Logical(out, no_attrs()), at + m + m))
    } else if dtype == 3 {
        match read_character_payload(b, at, n) {
            Err(e) => Err(e),
            Ok((s, p)) => Ok((RVal::Character(s, no_attrs()), p)),
        }
    } else {
        Err(Fault::Dtype(dtype))
    }
}

fn read_named_column(b: &[u8], at: usize, n: usize) -> (r: Result<((String, RVal), usize), Fault>)
    requires
        at <= b@.len(),
        n <= 0xffff_ffff,
    ensures
        match named_column_at(b@, at as int, n as nat) {
            Err(e) => r is Err && r->Err_0 == e,
            Ok((c, p)) => r is Ok && r->Ok_0.0.0@ == c.0 && r->Ok_0.0.1.deep() == c.1 && r->Ok_0.1
                == p && p <= b@.len(),
        },
{
    let size: usize = b.len();
    match need(b, at, 2) {
        Err(e) => return Err(e),
        Ok(_) => {},
    }
    proof {
        lemma_le_bound(b@.subrange(at as int, at + 2));
        lemma_radix();
    }
    let len: usize = get_le(b, at, 2) as usize;
    match need(b, at + 2, len) {
        Err(e) => return Err(e),
        Ok(_) => {},
    }
    let piece = copy_bytes(b, at + 2, at + 2 + len);
    let name = match utf8_text(&piece) {
        Ok(s) => s,
        Err(_) => return Err(Fault::NameUtf8 { at: at + 2, len }),
    };
    match need(b, at + 2 + len, 1) {
        Err(e) => return Err(e),
        Ok(_) => {},
    }
    let dtype: u8 = b[at + 2 + len];
    match read_column(b, at + 3 + len, dtype, n) {
        Err(e) => Err(e),
        Ok((v, p)) => Ok(((name, v), p)),
    }
}

/// The numbers of columns and of rows, from the header.
fn read_header(b: &[u8]) -> (r: Result<(u64, usize), Fault>)
    ensures
        match r {
            Err(e) => decode(b@) == Err::<Frame, Fault>(e),
            Ok((k, n)) => 15 <= b@.len() && n <= 0xffff_ffff && decode(b@) == decode_body(
                b@,
                k as nat,
                n as nat,
            ),
        },
{
    match need(b, 0, 4) {
        Err(e) => return Err(e),
        Ok(_) => {},
    }
    if b[0] != 82 || b[1] != 50 || b[2] != 68 || b[3] != 49 {
        assert(b@.subrange(0, 4)[0] == b@[0] && b@.subrange(0, 4)[1] == b@[1] && b@.subrange(
            0,
            4,
        )[2] == b@[2] && b@.subrange(0, 4)[3] == b@[3]);
        return Err(Fault::Magic(b[0], b[1], b[2], b[3]));
    }
    assert(b@.subrange(0, 4) =~= magic());
    match need(b, 4, 2) {
        Err(e) => return Err(e),
        Ok(_) => {},
    }
    proof {
        lemma_radix();
        lemma_le_bound(b@.subrange(4, 6));
    }
    let version: u64 = get_le(b, 4, 2);
    if version != 1 {
        return Err(Fault::Version(version as u16));
    }
    match need(b, 6, 4) {
        Err(e) => return Err(e),
        Ok(_) => {},
    }
    match need(b, 10, 4) {
        Err(e) => return Err(e),
        Ok(_) => {},
    }
    match need(b, 14, 1) {
        Err(e) => return Err(e),
        Ok(_) => {},
    }
    proof {
        lemma_le_bound(b@.subrange(6, 10));
        lemma_le_bound(b@.subrange(10, 14));
    }
    let n_cols: u64 = get_le(b, 6, 4);
    let n_rows: usize = get_le(b, 10, 4) as usize;
    Ok((n_cols, n_rows))
}

fn read_frame(b: &[u8]) -> (r: Result<DataFrame, Fault>)
    ensures
        match decode(b@) {
            Err(e) => r is Err && r->Err_0 == e,
            Ok(f) => r is Ok && r->Ok_0.deep() == f,
        },
{
    let (n_cols, n_rows) = match read_header(b) {
        Err(e) => return Err(e),
        Ok(h) => h,
    };
    let mut columns: Vec<(String, RVal)> = Vec::new();
    let mut pos: usize = 15;
    let mut k: u64 = 0;
    let ghost mut cs: Seq<(Seq<char>, Val)> = Seq::empty();
    while k < n_cols
        invariant
            k <= n_cols,
            n_rows <= 0xffff_ffff,
            15 <= b@.len(),
            decode(b@) == decode_body(b@, n_cols as nat, n_rows as nat),
            pos <= b@.len(),
            columns_at(b@, 15, k as nat, n_rows as nat) == Ok::<
                (Seq<(Seq<char>, Val)>, int),
                Fault,
            >((cs, pos as int)),
            columns@.len() == k == cs.len(),
            forall|i: int|
                0 <= i < k ==> (#[trigger] columns@[i]).0@ == cs[i].0 && columns@[i].1.deep()
                    == cs[i].1,
        decreases n_cols - k,
    {
        match read_named_column(b, pos, n_rows) {
            Err(e) => {
                proof {
                    lemma_columns_stop(b@, 15, (k + 1) as nat, n_cols as nat, n_rows as nat);
                }
                return Err(e);
            },
            Ok((c, p)) => {
                proof {
                    cs = cs.push((c.0@, c.1.deep()));
                }
                columns.push(c);
                pos = p;
            },
        }
        k += 1;
    }
    if b[14] != 0 {
        match read_character_payload(b, pos, n_rows) {
            Err(e) => Err(e),
            Ok((s, _)) => {
                let mut names: Vec<String> = Vec::new();
                let ghost want = filled(opt_texts(s@));
                for i in 0..s.len()
                    invariant
                        want == filled(opt_texts(s@)),
                        texts(names@) =~= want.subrange(0, i as int),
                {
                    let t = match &s[i] {
                        Some(t) => owned(t.as_str()),
                        None => String::new(),
                    };
                    let ghost o = names@;
                    assert(t@ == want[i as int]);
                    names.push(t);
                    assert(texts(names@) =~= texts(o).push(want[i as int]));
                }
                assert(texts(names@) =~= want);
                let r = DataFrame { columns, row_names: Some(names) };
                assert(r.deep().columns =~= cs);
                Ok(r)
            },
        }
    } else {
        let r = DataFrame { columns, row_names: None };
        assert(r.deep().columns =~= cs);
        Ok(r)
    }
}

/// A fault of encoding points at bytes that are not UTF-8.
pub open spec fn placed(b: Seq<u8>, e: Fault) -> bool {
    &&& e matches Fault::NameUtf8 { at, len } ==> at + len <= b.len() && !valid_utf8(
        b.subrange(at as int, at + len),
    )
    &&& e matches Fault::BlobUtf8 { at, len } ==> at + len <= b.len() && !valid_utf8(
        b.subrange(at as int, at + len),
    )
}

proof fn lemma_words_placed(b: Seq<u8>, at: int, k: nat, w: int)
    ensures
        words(b, at, k, w) matches Err(e) ==> placed(b, e),
        words(b, at, k, w) matches Ok(s) ==> s.len() == k,
        words(b, at, k, w) is Ok && k > 0 ==> at + k * w <= b.len(),
    decreases k,
{
    if k > 0 {
        lemma_words_placed(b, at, (k - 1) as nat, w);
        assert((k - 1) * w + w == k * w) by (nonlinear_arith);
    }
}

proof fn lemma_strings_placed(b: Seq<u8>, at: int, total: int, ws: Seq<u64>, k: nat)
    requires
        0 <= at,
        at + total <= b.len() <= usize::MAX,
    ensures
        strings(b, at, total, ws, k) matches Err(e) ==> placed(b, e),
    decreases k,
{
    if k > 0 {
        lemma_strings_placed(b, at, total, ws, (k - 1) as nat);
    }
}

proof fn lemma_strings_at_placed(b: Seq<u8>, at: int, n: nat)
    requires
        0 <= at,
        b.len() <= usize::MAX,
    ensures
        strings_at(b, at, n) matches Err(e) ==> placed(b, e),
        strings_at(b, at, n) matches Ok((_, p)) ==> 0 <= p,
{
    reveal(strings_at);
    if short(b, at, 4) is None {
        let total = word(b, at, 4) as int;
        lemma_words_placed(b, at + 4, 2 * n, 4);
        if words(b, at + 4, 2 * n, 4) is Ok && short(b, at + 4 + 8 * n, total) is None {
            lemma_strings_placed(
                b,
                at + 4 + 8 * n,
                total,
                words(b, at + 4, 2 * n, 4)->Ok_0,
                n,
            );
        }
    }
}

proof fn lemma_columns_placed(b: Seq<u8>, k: nat, n: nat)
    requires
        b.len() <= usize::MAX,
    ensures
        columns_at(b, 15, k, n) matches Err(e) ==> placed(b, e),
        columns_at(b, 15, k, n) matches Ok((_, p)) ==> 0 <= p,
    decreases k,
{
    if k > 0 {
        lemma_columns_placed(b, (k - 1) as nat, n);
        if let Ok((_, at)) = columns_at(b, 15, (k - 1) as nat, n) {
            lemma_named_column_placed(b, at, n);
        }
    }
}

proof fn lemma_column_placed(b: Seq<u8>, at: int, dtype: u8, n: nat)
    requires
        0 <= at,
        b.len() <= usize::MAX,
    ensures
        column_at(b, at, dtype, n) matches Err(e) ==> placed(b, e),
        column_at(b, at, dtype, n) matches Ok((_, p)) ==> 0 <= p,
{
    reveal(column_at);
    lemma_words_placed(b, at, n, 8);
    lemma_words_placed(b, at, n, 4);
    lemma_strings_at_placed(b, at, n);
}

proof fn lemma_named_column_placed(b: Seq<u8>, at: int, n: nat)
    requires
        0 <= at,
        b.len() <= usize::MAX,
    ensures
        named_column_at(b, at, n) matches Err(e) ==> placed(b, e),
        named_column_at(b, at, n) matches Ok((_, p)) ==> 0 <= p,
{
    if short(b, at, 2) is None {
        let len = word(b, at, 2) as int;
        if short(b, at + 2, len) is None && short(b, at + 2 + len, 1) is None {
            lemma_column_placed(b, at + 3 + len, b[at + 2 + len], n);
        }
    }
}

proof fn lemma_decode_placed(b: Seq<u8>)
    requires
        b.len() <= usize::MAX,
    ensures
        decode(b) matches Err(e) ==> placed(b, e),
{
    lemma_columns_placed(b, word(b, 6, 4), word(b, 10, 4));
    if let Ok((_, p)) = columns_at(b, 15, word(b, 6, 4), word(b, 10, 4)) {
        lemma_strings_at_placed(b, p, word(b, 10, 4));
    }
}

/// The data frame that some bytes in the `.r2d` format hold.
pub fn read_r2d(bytes: &[u8]) -> (r: Result<RVal, R2Err>)
    ensures
        match decode(bytes@) {
            Ok(f) => r is Ok && r->Ok_0.deep() == Val::DataFrame(f),
            Err(e) => r is Err && r->Err_0.kind == ErrKind::Runtime && r->Err_0.msg@ == fault_text(
                bytes@,
                e,
            ),
        },
{
    let size: usize = bytes.len();
    proof {
        reveal_with_fuel(RVal::deep, 2);
        lemma_decode_placed(bytes@);
    }
    match read_frame(bytes) {
        Ok(f) => Ok(RVal::DataFrame(f)),
        Err(e) => Err(fault_error(bytes, e)),
    }
}

/// The message for a fault in the bytes `b`.
pub open spec fn fault_text(b: Seq<u8>, e: Fault) -> Seq<char> {
    match e {
        Fault::Eof { at, need, have } => "r2d: unexpected EOF at "@ + decimal(at as nat)
            + " (need "@ + decimal(need as nat) + " more, have "@ + decimal(have as nat) + ")"@,
        Fault::Magic(m0, m1, m2, m3) => "r2d: bad magic ["@ + decimal(m0 as nat) + ", "@ + decimal(
            m1 as nat,
        ) + ", "@ + decimal(m2 as nat) + ", "@ + decimal(m3 as nat) + "], expected R2D1"@,
        Fault::Version(v) => "r2d: unsupported version "@ + decimal(v as nat),
        Fault::NameUtf8 { at, len } => "r2d: bad UTF-8 in column name: "@ + utf8_error_text(
            b.subrange(at as int, at + len),
        ),
        Fault::Dtype(d) => "r2d: unknown dtype "@ + decimal(d as nat),
        Fault::Bounds { off, span, blob } => "r2d: string out of bounds (off="@ + decimal(off as nat)
            + " len="@ + decimal(span as nat) + " blob="@ + decimal(blob as nat) + ")"@,
        Fault::BlobUtf8 { at, len } => "r2d: bad UTF-8 in string blob: "@ + utf8_error_text(
            b.subrange(at as int, at + len),
        ),
    }
}

fn fault_error(b: &[u8], e: Fault) -> (r: R2Err)
    requires
        placed(b@, e),
    ensures
        r.kind == ErrKind::Runtime,
        r.msg@ == fault_text(b@, e),
{
    let size: usize = b.len();
    let mut m: Vec<char> = Vec::new();
    match e {
        Fault::Eof { at, need, have } => {
            extend_str(&mut m, "r2d: unexpected EOF at ");
            extend_decimal(&mut m, at as u64);
            extend_str(&mut m, " (need ");
            extend_decimal(&mut m, need as u64);
            extend_str(&mut m, " more, have ");
            extend_decimal(&mut m, have as u64);
            extend_str(&mut m, ")");
        },
        Fault::Magic(m0, m1, m2, m3) => {
            extend_str(&mut m, "r2d: bad magic [");
            extend_decimal(&mut m, m0 as u64);
            extend_str(&mut m, ", ");
            extend_decimal(&mut m, m1 as u64);
            extend_str(&mut m, ", ");
            extend_decimal(&mut m, m2 as u64);
            extend_str(&mut m, ", ");
            extend_decimal(&mut m, m3 as u64);
            extend_str(&mut m, "], expected R2D1");
        },
        Fault::Version(v) => {
            extend_str(&mut m, "r2d: unsupported version ");
            extend_decimal(&mut m, v as u64);
        },
        Fault::NameUtf8 { at, len } => {
            extend_str(&mut m, "r2d: bad UTF-8 in column name: ");
            let piece = copy_bytes(b, at, at + len);
            if let Err(t) = utf8_text(&piece) {
                extend_str(&mut m, t.as_str());
            }
        },
        Fault::Dtype(d) => {
            extend_str(&mut m, "r2d: unknown dtype ");
            extend_decimal(&mut m, d as u64);
        },
        Fault::Bounds { off, span, blob } => {
            extend_str(&mut m, "r2d: string out of bounds (off=");
            extend_decimal(&mut m, off as u64);
            extend_str(&mut m, " len=");
            extend_decimal(&mut m, span as u64);
            extend_str(&mut m, " blob=");
            extend_decimal(&mut m, blob as u64);
            extend_str(&mut m, ")");
        },
        Fault::BlobUtf8 { at, len } => {
            extend_str(&mut m, "r2d: bad UTF-8 in string blob: ");
            let piece = copy_bytes(b, at, at + len);
            if let Err(t) = utf8_text(&piece) {
                extend_str(&mut m, t.as_str());
            }
        },
    }
    assert(m@ =~= fault_text(b@, e));
    R2Err { msg: string_of(&m), kind: ErrKind::Runtime }
}

} // verus!
