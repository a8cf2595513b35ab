//! Rows and columns of data frames: filtering, selecting, adding and sorting.
use crate::double::Real;
use crate::ordering::{fill_nan, first_true, is_first_true, or_nan, order_numbers, orders};
use crate::double::{NAN_BITS, num};
use crate::ml_data::frame_columns;
use crate::stats_matrix::failed;
use crate::text::{opt_text, opt_texts, owned, same_text, texts};
use crate::value::{
    DataFrame, ErrKind, EvalArg, Frame, R2Err, RVal, Val, arg_named, dup_opt_string, fail, frame_rows, logicals, named,
    no_attrs, nth, nth_arg, reals,
};
use vstd::prelude::*;

verus! {

/// The entries at the given places, missing beyond the end.
pub open spec fn picked<T>(s: Seq<Option<T>>, rows: Seq<usize>) -> Seq<Option<T>> {
    Seq::new(
        rows.len(),
        |i: int|
            if rows[i] < s.len() {
                s[rows[i] as int]
            } else {
                None
            },
    )
}

/// A column at the given rows; a column of another kind stays as it is.
pub open spec fn picked_column(v: Val, rows: Seq<usize>) -> Val {
    match v {
        Val::Numeric(s, _) => Val::Numeric(picked(s, rows), None),
        Val::Integer(s, _) => Val::Integer(picked(s, rows), None),
        Val::Character(s, _) => Val::Character(picked(s, rows), None),
        Val::Logical(s, _) => Val::Logical(picked(s, rows), None),
        _ => v,
    }
}

/// A data frame at the given rows.
pub open spec fn picked_frame(f: Frame, rows: Seq<usize>) -> Frame {
    Frame {
        columns: Seq::new(f.columns.len(), |i: int| (f.columns[i].0, picked_column(f.columns[i].1, rows))),
        row_names: None,
    }
}

fn pick_copies<T: Copy>(v: &Vec<Option<T>>, rows: &Vec<usize>) -> (r: Vec<Option<T>>)
    ensures
        r@ == picked(v@, rows@),
{
    let mut out: Vec<Option<T>> = Vec::new();
    let mut i: usize = 0;
    while i < rows.len()
        invariant
            i <= rows.len(),
            out@ == picked(v@, rows@).take(i as int),
        decreases rows.len() - i,
    {
        let k: usize = rows[i];
        out.push(if k < v.len() { v[k] } else { None });
        i += 1;
        assert(out@ =~= picked(v@, rows@).take(i as int));
    }
    assert(out@ =~= picked(v@, rows@));
    out
}

fn pick_texts(v: &Vec<Option<String>>, rows: &Vec<usize>) -> (r: Vec<Option<String>>)
    ensures
        opt_texts(r@) == picked(opt_texts(v@), rows@),
{
    let ghost all = opt_texts(v@);
    let mut out: Vec<Option<String>> = Vec::new();
    let mut i: usize = 0;
    while i < rows.len()
        invariant
            all == opt_texts(v@),
            i <= rows.len(),
            out@.len() == i,
            forall|k: int| 0 <= k < i ==> opt_text(#[trigger] out@[k]) == picked(all, rows@)[k],
        decreases rows.len() - i,
    {
        let k: usize = rows[i];
        out.push(if k < v.len() { dup_opt_string(&v[k]) } else { None });
        i += 1;
    }
    assert(opt_texts(out@) =~= picked(all, rows@));
    out
}

fn pick_column(col: &RVal, rows: &Vec<usize>) -> (r: RVal)
    ensures
        r.deep() == picked_column(col.deep(), rows@),
{
    proof {
        reveal_with_fuel(RVal::deep, 2);
    }
    match col {
        RVal::Numeric(v, _) => RVal::Numeric(pick_copies(v, rows), no_attrs()),
        RVal::Integer(v, _) => RVal::Integer(pick_copies(v, rows), no_attrs()),
        RVal::Character(v, _) => RVal::Character(pick_texts(v, rows), no_attrs()),
        RVal::Logical(v, _) => RVal::Logical(pick_copies(v, rows), no_attrs()),
        _ => col.dup(),
    }
}

fn pick_rows(df: &DataFrame, rows: &Vec<usize>) -> (r: RVal)
    ensures
        r.deep() == Val::DataFrame(picked_frame(df.deep(), rows@)),
{
    let ghost f = df.deep();
    proof {
        reveal_with_fuel(DataFrame::deep, 2);
        assert(f.columns =~= frame_columns(df.columns@));
    }
    let mut columns: Vec<(String, RVal)> = Vec::new();
    let mut i: usize = 0;
    while i < df.columns.len()
        invariant
            f.columns == frame_columns(df.columns@),
            i <= df.columns.len(),
            columns@.len() == i,
            forall|k: int|
                0 <= k < i ==> ((#[trigger] columns@[k]).0@, columns@[k].1.deep()) == picked_frame(f, rows@).columns[k],
        decreases df.columns.len() - i,
    {
        let name: String = owned(df.columns[i].0.as_str());
        let col: RVal = pick_column(&df.columns[i].1, rows);
        columns.push((name, col));
        i += 1;
    }
    let d = DataFrame { columns, row_names: None };
    let r = RVal::DataFrame(d);
    proof {
        reveal_with_fuel(RVal::deep, 2);
        reveal_with_fuel(DataFrame::deep, 2);
        assert(d.deep().columns =~= picked_frame(f, rows@).columns);
    }
    r
}

// ── filter ─────────────────────────────────────────────────────────────────

/// The places where a mask is true.
pub open spec fn true_places(m: Seq<Option<bool>>) -> Seq<usize>
    decreases m.len(),
{
    if m.len() == 0 {
        Seq::empty()
    } else if m.last() == Some(true) {
        true_places(m.drop_last()).push((m.len() - 1) as usize)
    } else {
        true_places(m.drop_last())
    }
}

fn places_of(m: &Vec<Option<bool>>) -> (r: Vec<usize>)
    ensures
        r@ == true_places(m@),
{
    let mut out: Vec<usize> = Vec::new();
    let mut i: usize = 0;
    assert(m@.take(0) =~= Seq::<Option<bool>>::empty());
    while i < m.len()
        invariant
            i <= m.len(),
            out@ == true_places(m@.take(i as int)),
        decreases m.len() - i,
    {
        assert(m@.take(i + 1).drop_last() =~= m@.take(i as int));
        let yes: bool = match m[i] {
            Some(b) => b,
            None => false,
        };
        if yes {
            out.push(i);
        }
        i += 1;
    }
    assert(m@.take(m@.len() as int) =~= m@);
    out
}

/// The rows of a data frame where the mask is true.
pub fn bi_filter(a: &[EvalArg]) -> (r: Result<RVal, R2Err>)
    ensures
        match nth(a@, 0) {
            Val::DataFrame(f) => match logicals(nth(a@, 1)) {
                None => failed(r, (ErrKind::Type, "cannot coerce to logical"@)),
                Some(m) => r is Ok && r->Ok_0.deep() == Val::DataFrame(picked_frame(f, true_places(m))),
            },
            _ => failed(r, (ErrKind::Runtime, "filter() needs data.frame"@)),
        },
{
    let first: RVal = nth_arg(a, 0);
    proof {
        reveal_with_fuel(RVal::deep, 2);
    }
    match &first {
        RVal::DataFrame(df) => match nth_arg(a, 1).as_logicals() {
            Err(e) => Err(e),
            Ok(m) => {
                let rows: Vec<usize> = places_of(&m);
                Ok(pick_rows(df, &rows))
            },
        },
        _ => Err(fail(ErrKind::Runtime, "filter() needs data.frame")),
    }
}

// ── select ─────────────────────────────────────────────────────────────────

/// The texts that are there.
pub open spec fn present_texts(s: Seq<Option<Seq<char>>>) -> Seq<Seq<char>>
    decreases s.len(),
{
    if s.len() == 0 {
        Seq::empty()
    } else {
        match s.last() {
            Some(t) => present_texts(s.drop_last()).push(t),
            None => present_texts(s.drop_last()),
        }
    }
}

/// The names in the arguments from `i` on: nine arguments at most, and none
/// after the first that is no text.
pub open spec fn names_from(a: Seq<EvalArg>, i: int) -> Seq<Seq<char>>
    decreases 10 - i,
{
    if i < 1 || i >= 10 {
        Seq::empty()
    } else {
        match nth(a, i) {
            Val::Character(s, _) => present_texts(s) + names_from(a, i + 1),
            _ => Seq::empty(),
        }
    }
}

/// The first column with a name.
pub open spec fn column_named(c: Seq<(Seq<char>, Val)>, name: Seq<char>) -> Option<(Seq<char>, Val)>
    decreases c.len(),
{
    if c.len() == 0 {
        None
    } else if c[0].0 == name {
        Some(c[0])
    } else {
        column_named(c.drop_first(), name)
    }
}

/// The columns with the names, in the order of the names.
pub open spec fn selected(c: Seq<(Seq<char>, Val)>, names: Seq<Seq<char>>) -> Seq<(Seq<char>, Val)>
    decreases names.len(),
{
    if names.len() == 0 {
        Seq::empty()
    } else {
        match column_named(c, names.last()) {
            Some(x) => selected(c, names.drop_last()).push(x),
            None => selected(c, names.drop_last()),
        }
    }
}

fn names_of(a: &[EvalArg]) -> (r: Vec<String>)
    ensures
        texts(r@) == names_from(a@, 1),
{
    let mut out: Vec<String> = Vec::new();
    let mut i: usize = 1;
    assert(texts(out@) + names_from(a@, 1) =~= names_from(a@, 1));
    let mut more: bool = true;
    while i < 10 && more
        invariant
            1 <= i <= 10,
            more ==> names_from(a@, 1) == texts(out@) + names_from(a@, i as int),
            !more ==> names_from(a@, 1) == texts(out@),
        decreases 10 - i + if more {
            1int
        } else {
            0
        },
    {
        let v: RVal = nth_arg(a, i);
        proof {
            reveal_with_fuel(RVal::deep, 2);
        }
        let ghost before = texts(out@);
        match &v {
            RVal::Character(s, _) => {
                let ghost all = opt_texts(s@);
                let mut j: usize = 0;
                assert(all.take(0) =~= Seq::<Option<Seq<char>>>::empty());
                assert(texts(out@) =~= before + Seq::<Seq<char>>::empty());
                while j < s.len()
                    invariant
                        all == opt_texts(s@),
                        j <= s.len(),
                        texts(out@) == before + present_texts(all.take(j as int)),
                    decreases s.len() - j,
                {
                    assert(all.take(j + 1).drop_last() =~= all.take(j as int));
                    assert(all.take(j + 1).last() == opt_text(s@[j as int]));
                    if let Some(t) = &s[j] {
                        let ghost held = out@;
                        out.push(owned(t.as_str()));
                        assert(texts(out@) =~= texts(held).push(t@));
                        assert(texts(out@) =~= before + present_texts(all.take(j + 1)));
                    }
                    j += 1;
                }
                assert(all.take(s@.len() as int) =~= all);
                assert((before + present_texts(all)) + names_from(a@, i + 1) =~= before + (present_texts(all)
                    + names_from(a@, i + 1)));
                i += 1;
            },
            _ => {
                assert(before + Seq::<Seq<char>>::empty() =~= before);
                more = false;
            },
        }
    }
    assert(texts(out@) + Seq::<Seq<char>>::empty() =~= texts(out@));
    out
}

fn find_column(cols: &Vec<(String, RVal)>, name: &str) -> (r: Option<usize>)
    ensures
        match r {
            Some(k) => k < cols@.len() && column_named(frame_columns(cols@), name@) == Some(
                (cols@[k as int].0@, cols@[k as int].1.deep()),
            ) && cols@[k as int].0@ == name@ && forall|j: int| 0 <= j < k ==> (#[trigger] cols@[j]).0@ != name@,
            None => column_named(frame_columns(cols@), name@) is None && forall|j: int|
                0 <= j < cols@.len() ==> (#[trigger] cols@[j]).0@ != name@,
        },
{
    let ghost all = frame_columns(cols@);
    let mut k: usize = 0;
    assert(all.skip(0) =~= all);
    while k < cols.len()
        invariant
            all == frame_columns(cols@),
            k <= cols.len(),
            column_named(all, name@) == column_named(all.skip(k as int), name@),
            forall|j: int| 0 <= j < k ==> (#[trigger] cols@[j]).0@ != name@,
        decreases cols.len() - k,
    {
        assert(all.skip(k as int)[0] == (cols@[k as int].0@, cols@[k as int].1.deep()));
        assert(all.skip(k as int).drop_first() =~= all.skip(k + 1));
        if same_text(cols[k].0.as_str(), name) {
            return Some(k);
        }
        k += 1;
    }
    assert(all.skip(k as int) =~= Seq::empty());
    None
}

/// The columns of a data frame that the arguments name.
pub fn bi_select(a: &[EvalArg]) -> (r: Result<RVal, R2Err>)
    ensures
        match nth(a@, 0) {
            Val::DataFrame(f) => {
                let names = names_from(a@, 1);
                let cols = selected(f.columns, names);
                if names.len() == 0 {
                    r is Ok && r->Ok_0.deep() == Val::DataFrame(f)
                } else if cols.len() == 0 {
                    failed(r, (ErrKind::Runtime, "select: no matching columns found"@))
                } else {
                    r is Ok && r->Ok_0.deep() == Val::DataFrame(Frame { columns: cols, row_names: None })
                }
            },
            _ => failed(r, (ErrKind::Runtime, "select() needs data.frame"@)),
        },
{
    let first: RVal = nth_arg(a, 0);
    proof {
        reveal_with_fuel(RVal::deep, 2);
    }
    let df: &DataFrame = match &first {
        RVal::DataFrame(df) => df,
        _ => {
            return Err(fail(ErrKind::Runtime, "select() needs data.frame"));
        },
    };
    let ghost f = df.deep();
    proof {
        reveal_with_fuel(DataFrame::deep, 2);
        assert(f.columns =~= frame_columns(df.columns@));
    }
    let names: Vec<String> = names_of(a);
    let ghost ns = texts(names@);
    assert(ns.len() == names@.len());
    if names.len() == 0 {
        let d: DataFrame = df.dup();
        return Ok(RVal::DataFrame(d));
    }
    let mut columns: Vec<(String, RVal)> = Vec::new();
    let mut i: usize = 0;
    assert(ns.take(0) =~= Seq::<Seq<char>>::empty());
    assert(frame_columns(columns@) =~= Seq::<(Seq<char>, Val)>::empty());
    while i < names.len()
        invariant
            f.columns == frame_columns(df.columns@),
            ns == texts(names@),
            i <= names.len(),
            frame_columns(columns@) == selected(f.columns, ns.take(i as int)),
        decreases names.len() - i,
    {
        assert(ns.take(i + 1).drop_last() =~= ns.take(i as int));
        assert(ns.take(i + 1).last() == names@[i as int]@);
        if let Some(k) = find_column(&df.columns, names[i].as_str()) {
            let ghost before = columns@;
            let name: String = owned(df.columns[k].0.as_str());
            let col: RVal = df.columns[k].1.dup();
            columns.push((name, col));
            assert(frame_columns(columns@) =~= frame_columns(before).push((name@, col.deep())));
        }
        i += 1;
    }
    assert(ns.take(names@.len() as int) =~= ns);
    assert(frame_columns(columns@).len() == columns@.len());
    if columns.len() == 0 {
        return Err(fail(ErrKind::Runtime, "select: no matching columns found"));
    }
    let d = DataFrame { columns, row_names: None };
    proof {
        assert(d.deep().columns =~= frame_columns(columns@));
    }
    Ok(RVal::DataFrame(d))
}

// ── mutate ─────────────────────────────────────────────────────────────────

/// The columns with one of them replaced, or one more.
pub open spec fn with_column(c: Seq<(Seq<char>, Val)>, name: Seq<char>, v: Val, k: int) -> Seq<(Seq<char>, Val)>
    decreases c.len() - k,
{
    if k < 0 || k >= c.len() {
        c.push((name, v))
    } else if c[k].0 == name {
        c.update(k, (name, v))
    } else {
        with_column(c, name, v, k + 1)
    }
}

/// The columns after the named arguments before place `n`, the first argument
/// left out.
pub open spec fn mutated(c: Seq<(Seq<char>, Val)>, a: Seq<EvalArg>, n: nat) -> Seq<(Seq<char>, Val)>
    decreases n,
{
    if n <= 1 {
        c
    } else {
        let before = mutated(c, a, (n - 1) as nat);
        match opt_text(a[n - 1].name) {
            Some(name) => with_column(before, name, a[n - 1].value.deep(), 0),
            None => before,
        }
    }
}

proof fn lemma_with_column(c: Seq<(Seq<char>, Val)>, name: Seq<char>, v: Val, k: int, at: int)
    requires
        0 <= k <= at <= c.len(),
        forall|j: int| k <= j < at ==> (#[trigger] c[j]).0 != name,
        at < c.len() ==> c[at].0 == name,
    ensures
        with_column(c, name, v, k) == if at < c.len() {
            c.update(at, (name, v))
        } else {
            c.push((name, v))
        },
    decreases at - k,
{
    if k < at {
        assert(c[k].0 != name);
        lemma_with_column(c, name, v, k + 1, at);
    }
}

/// A data frame with the named arguments as columns: those of known names are
/// replaced, the others added at the end.
pub fn bi_mutate(a: &[EvalArg]) -> (r: Result<RVal, R2Err>)
    ensures
        match nth(a@, 0) {
            Val::DataFrame(f) => r is Ok && r->Ok_0.deep() == Val::DataFrame(
                Frame { columns: mutated(f.columns, a@, a@.len()), ..f },
            ),
            _ => failed(r, (ErrKind::Runtime, "mutate() needs data.frame"@)),
        },
{
    let first: RVal = nth_arg(a, 0);
    proof {
        reveal_with_fuel(RVal::deep, 2);
    }
    match first {
        RVal::DataFrame(df) => {
            let mut df: DataFrame = df;
            let ghost f = df.deep();
            proof {
                reveal_with_fuel(DataFrame::deep, 2);
                assert(f.columns =~= frame_columns(df.columns@));
            }
            let ghost names = df.row_names;
            let mut i: usize = 1;
            while i < a.len()
                invariant
                    1 <= i,
                    df.row_names == names,
                    i <= a.len() || a@.len() == 0,
                    frame_columns(df.columns@) == mutated(f.columns, a@, i as nat),
                decreases a.len() - i,
            {
                if let Some(name) = &a[i].name {
                    let val: RVal = a[i].value.dup();
                    let ghost before = df.columns@;
                    let ghost c = frame_columns(before);
                    match find_column(&df.columns, name.as_str()) {
                        Some(k) => {
                            let own: String = owned(name.as_str());
                            df.columns.set(k, (own, val));
                            proof {
                                lemma_with_column(c, name@, val.deep(), 0, k as int);
                                assert(frame_columns(df.columns@) =~= c.update(k as int, (name@, val.deep())));
                            }
                        },
                        None => {
                            df.columns.push((owned(name.as_str()), val));
                            proof {
                                lemma_with_column(c, name@, val.deep(), 0, c.len() as int);
                                assert(frame_columns(df.columns@) =~= c.push((name@, val.deep())));
                            }
                        },
                    }
                }
                i += 1;
            }
            proof {
                reveal_with_fuel(DataFrame::deep, 2);
                assert(df.deep().columns =~= frame_columns(df.columns@));
            }
            Ok(RVal::DataFrame(df))
        },
        _ => Err(fail(ErrKind::Runtime, "mutate() needs data.frame")),
    }
}

/// A change of columns leaves the columns whose names no argument bears as
/// they were, at their places.
pub proof fn law_mutate_leaves_others(c: Seq<(Seq<char>, Val)>, a: Seq<EvalArg>, n: nat, k: int)
    requires
        n <= a.len(),
        0 <= k < c.len(),
        forall|i: int| 1 <= i < n ==> opt_text((#[trigger] a[i]).name) != Some(c[k].0),
    ensures
        mutated(c, a, n).len() >= c.len(),
        mutated(c, a, n)[k] == c[k],
    decreases n,
{
    if n > 1 {
        law_mutate_leaves_others(c, a, (n - 1) as nat, k);
        let before = mutated(c, a, (n - 1) as nat);
        if let Some(name) = opt_text(a[n - 1].name) {
            lemma_other_columns(before, name, a[n - 1].value.deep(), 0, k);
        }
    }
}

proof fn lemma_other_columns(c: Seq<(Seq<char>, Val)>, name: Seq<char>, v: Val, at: int, k: int)
    requires
        0 <= at,
        0 <= k < c.len(),
        c[k].0 != name,
    ensures
        with_column(c, name, v, at).len() >= c.len(),
        with_column(c, name, v, at)[k] == c[k],
    decreases c.len() - at,
{
    if at < c.len() && c[at].0 != name {
        lemma_other_columns(c, name, v, at + 1, k);
    }
}

// ── arrange ────────────────────────────────────────────────────────────────

/// The numbers to sort `n` rows by; a NaN where one is missing.
pub open spec fn sort_keys(s: Seq<Option<Real>>, n: nat) -> Seq<Real> {
    Seq::new(
        n,
        |i: int|
            if i < s.len() {
                or_nan(s[i])
            } else {
                num(NAN_BITS)
            },
    )
}

/// A data frame with its rows sorted by given numbers. Where a number is
/// missing or a NaN the rows come in some order.
pub fn bi_arrange(a: &[EvalArg]) -> (r: Result<RVal, R2Err>)
    requires
        nth(a@, 0) is DataFrame && reals(nth(a@, 1)) is Some && named(a@, "decreasing"@) is Some && logicals(
            named(a@, "decreasing"@)->0,
        ) is Some ==> logicals(named(a@, "decreasing"@)->0)->0.len() > 0,
    ensures
        match nth(a@, 0) {
            Val::DataFrame(f) => match reals(nth(a@, 1)) {
                None => failed(r, (ErrKind::Type, "cannot coerce to numeric"@)),
                Some(s) => exists|p: Seq<usize>| #[trigger]
                    orders(sort_keys(s, frame_rows(f)), first_true(named(a@, "decreasing"@)), p) && r is Ok
                        && r->Ok_0.deep() == Val::DataFrame(picked_frame(f, p)),
            },
            _ => failed(r, (ErrKind::Runtime, "arrange() needs data.frame"@)),
        },
{
    let first: RVal = nth_arg(a, 0);
    proof {
        reveal_with_fuel(RVal::deep, 2);
    }
    match &first {
        RVal::DataFrame(df) => {
            let s: Vec<Option<Real>> = match nth_arg(a, 1).as_reals() {
                Ok(s) => s,
                Err(e) => {
                    return Err(e);
                },
            };
            let decreasing: bool = is_first_true(arg_named(a, "decreasing"));
            let n: usize = df.nrow();
            let keys: Vec<Real> = fill_nan(&s, n);
            assert(keys@ =~= sort_keys(s@, n as nat));
            let p: Vec<usize> = order_numbers(&keys, decreasing);
            assert(orders(sort_keys(s@, frame_rows(df.deep())), first_true(named(a@, "decreasing"@)), p@));
            Ok(pick_rows(df, &p))
        },
        _ => Err(fail(ErrKind::Runtime, "arrange() needs data.frame")),
    }
}

/// A filter keeps rows in their order: the places it keeps ascend.
pub proof fn law_filter_keeps_order(m: Seq<Option<bool>>)
    requires
        m.len() <= usize::MAX,
    ensures
        forall|i: int, j: int| 0 <= i < j < true_places(m).len() ==> #[trigger] true_places(m)[i] < #[trigger] true_places(m)[j],
        forall|i: int| 0 <= i < true_places(m).len() ==> #[trigger] true_places(m)[i] < m.len() && m[true_places(m)[i] as int]
            == Some(true),
    decreases m.len(),
{
    if m.len() > 0 {
        law_filter_keeps_order(m.drop_last());
        let d = true_places(m.drop_last());
        assert forall|i: int| 0 <= i < true_places(m).len() implies #[trigger] true_places(m)[i] < m.len()
            && m[true_places(m)[i] as int] == Some(true) by {
            if i < d.len() {
                assert(m.drop_last()[d[i] as int] == Some(true));
            }
        }
    }
}

} // verus!
