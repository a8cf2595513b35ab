//! The design of a multivariate analysis of variance: a response matrix and a
//! grouping of its rows, read from a formula.
use crate::double::Real;
use crate::grouping::{Groups, first_seen, group_rows, lemma_first_seen};
use crate::stats_hotelling::{sized_error, sized_message};
use crate::stats_matrix::{Rows, as_matrix, column_count, countable, failed, holds, matrix_fault, row_count, sound, sound_args};
use crate::text::{
    chars_of, decimal, extend_decimal, extend_str, has_prefix, is_text, opt_text, owned, starts_with, string_of,
    texts,
};
use crate::value::{ErrKind, EvalArg, R2Err, RVal, Val, fail, nth, nth_arg, reals};
use vstd::prelude::*;

verus! {

/// How numbers are written as text, supplied by the caller.
pub struct Printer<S: Fn(Real) -> String> {
    pub show: S,
}

impl<S: Fn(Real) -> String> Printer<S> {
    /// Every number has a text, and always the same.
    pub open spec fn wf(&self) -> bool {
        &&& forall|x: Real| #[trigger] call_requires(self.show, (x,))
        &&& forall|x: Real, a: String, b: String| #[trigger]
            call_ensures(self.show, (x,), a) && #[trigger] call_ensures(self.show, (x,), b) ==> a@ == b@
    }

    /// The text of a number.
    pub open spec fn text(&self, x: Real) -> Seq<char> {
        (choose|s: String| call_ensures(self.show, (x,), s))@
    }

    /// The text of a number.
    pub fn print(&self, x: Real) -> (r: String)
        requires
            self.wf(),
        ensures
            r@ == self.text(x),
    {
        let r = (self.show)(x);
        assert(call_ensures(self.show, (x,), r));
        r
    }
}

pub type Items = Seq<(Option<Seq<char>>, Val)>;

/// The first item with the given name, `NULL` where there is none.
pub open spec fn item_named(items: Items, name: Seq<char>) -> Val
    decreases items.len(),
{
    if items.len() == 0 {
        Val::Null
    } else if items[0].0 == Some(name) {
        items[0].1
    } else {
        item_named(items.drop_first(), name)
    }
}

/// A name that does not start with a tilde.
pub open spec fn plain_name(name: Option<Seq<char>>) -> bool {
    name is Some && !has_prefix(name->0, "~"@)
}

/// The first item with a name of its own, `NULL` where there is none.
pub open spec fn first_plain(items: Items) -> Val
    decreases items.len(),
{
    if items.len() == 0 {
        Val::Null
    } else if plain_name(items[0].0) {
        items[0].1
    } else {
        first_plain(items.drop_first())
    }
}

/// The contents of a list that wraps one value.
pub open spec fn unwrapped(v: Val) -> Val {
    match v {
        Val::List(items) => if items.len() > 0 {
            items[0].1
        } else {
            v
        },
        _ => v,
    }
}

/// What the right-hand side of a formula groups by.
pub open spec fn group_value(rhs: Val) -> Val {
    match rhs {
        Val::List(items) => unwrapped_plain(items),
        _ => rhs,
    }
}

pub open spec fn unwrapped_plain(items: Items) -> Val {
    unwrapped(first_plain(items))
}

pub open spec fn text_or_na(x: Option<Seq<char>>) -> Seq<char> {
    match x {
        Some(s) => s,
        None => "NA"@,
    }
}

/// The level that a code stands for.
pub open spec fn level_text(code: Option<u32>, levels: Seq<Seq<char>>) -> Seq<char> {
    match code {
        Some(c) => if c < levels.len() {
            levels[c as int]
        } else {
            "NA"@
        },
        None => "NA"@,
    }
}

/// The labels of a grouping value; none where it has no labels.
pub open spec fn labels_of<S: Fn(Real) -> String>(printer: &Printer<S>, v: Val) -> Option<Seq<Seq<char>>> {
    match v {
        Val::Character(s, _) => Some(Seq::new(s.len(), |i: int| text_or_na(s[i]))),
        Val::Factor(codes, levels) => Some(Seq::new(codes.len(), |i: int| level_text(codes[i], levels))),
        _ => match reals(v) {
            Some(s) => Some(
                Seq::new(
                    s.len(),
                    |i: int|
                        match s[i] {
                            Some(x) => printer.text(x),
                            None => "NA"@,
                        },
                ),
            ),
            None => None,
        },
    }
}

/// Why a call is no analysis of variance.
pub open spec fn design_fault<S: Fn(Real) -> String>(printer: &Printer<S>, a: Seq<EvalArg>) -> Option<
    (ErrKind, Seq<char>),
> {
    match nth(a, 0) {
        Val::List(items) => {
            let y = unwrapped(item_named(items, "~lhs"@));
            let labels = labels_of(printer, group_value(item_named(items, "~rhs"@)));
            match matrix_fault(y) {
                Some(e) => Some(e),
                None => if column_count(y) < 2 {
                    Some((ErrKind::Runtime, univariate_message(column_count(y))))
                } else if labels is None {
                    Some((ErrKind::Type, "cannot coerce to numeric"@))
                } else {
                    group_fault(row_count(y), column_count(y), labels->0)
                },
            }
        },
        _ => Some(
            (ErrKind::Runtime, "manova: first argument must be a formula 'cbind(y1, y2, ...) ~ group'"@),
        ),
    }
}

pub open spec fn univariate_message(p: nat) -> Seq<char> {
    "manova: LHS must be a multivariate response (\u{2265} 2 columns); got p = "@ + decimal(p)
        + ". Use cbind(y1, y2, ...) on the LHS."@
}

/// Why `n` rows of `p` numbers cannot be compared by these labels.
pub open spec fn group_fault(n: nat, p: nat, labels: Seq<Seq<char>>) -> Option<(ErrKind, Seq<char>)> {
    let k = first_seen(labels).len();
    if labels.len() != n {
        Some(
            (
                ErrKind::Runtime,
                sized_message(
                    "manova: response has "@,
                    n,
                    " rows but grouping factor has "@,
                    labels.len(),
                    ""@,
                ),
            ),
        )
    } else if k < 2 {
        Some((ErrKind::Runtime, "manova: need \u{2265} 2 groups (got "@ + decimal(k) + ")"@))
    } else if n - k < p {
        Some(
            (
                ErrKind::Runtime,
                sized_message(
                    "manova: insufficient residual degrees of freedom (n - k = "@,
                    (n - k) as nat,
                    " < p = "@,
                    p,
                    "). E will be singular."@,
                ),
            ),
        )
    } else {
        None
    }
}

/// A response matrix and its groups.
#[derive(Debug)]
pub struct Design {
    pub rows: Rows,
    pub groups: Groups,
}

/// The response of a formula.
pub open spec fn response(a: Seq<EvalArg>) -> Val {
    unwrapped(item_named(nth(a, 0)->List_0, "~lhs"@))
}

/// The labels of a formula.
pub open spec fn labels_in<S: Fn(Real) -> String>(printer: &Printer<S>, a: Seq<EvalArg>) -> Seq<Seq<char>> {
    labels_of(printer, group_value(item_named(nth(a, 0)->List_0, "~rhs"@)))->0
}

/// Items of a list by their names and contents.
pub open spec fn item_list(v: Seq<(Option<String>, RVal)>) -> Items {
    Seq::new(v.len(), |i: int| (opt_text(v[i].0), v[i].1.deep()))
}

proof fn lemma_item_list(v: Vec<(Option<String>, RVal)>)
    ensures
        RVal::List(v).deep() == Val::List(item_list(v@)),
{
    reveal_with_fuel(RVal::deep, 2);
    assert(RVal::List(v).deep()->List_0 =~= item_list(v@));
}

pub(crate) fn find_item(items: &Vec<(Option<String>, RVal)>, name: &str) -> (r: RVal)
    ensures
        r.deep() == item_named(item_list(items@), name@),
{
    let ghost all = item_list(items@);
    let mut i: usize = 0;
    assert(all.skip(0) =~= all);
    while i < items.len()
        invariant
            all == item_list(items@),
            i <= items.len(),
            item_named(all, name@) == item_named(all.skip(i as int), name@),
        decreases items.len() - i,
    {
        assert(all.skip(i as int)[0] == all[i as int]);
        if is_text(&items[i].0, name) {
            return items[i].1.dup();
        }
        assert(all.skip(i as int).drop_first() =~= all.skip(i + 1));
        i += 1;
    }
    RVal::Null
}

fn is_plain(name: &Option<String>) -> (r: bool)
    ensures
        r == plain_name(opt_text(*name)),
{
    match name {
        Some(s) => {
            let c: Vec<char> = chars_of(s.as_str());
            !starts_with(&c, "~")
        },
        None => false,
    }
}

fn find_plain(items: &Vec<(Option<String>, RVal)>) -> (r: RVal)
    ensures
        r.deep() == first_plain(item_list(items@)),
{
    let ghost all = item_list(items@);
    let mut i: usize = 0;
    assert(all.skip(0) =~= all);
    while i < items.len()
        invariant
            all == item_list(items@),
            i <= items.len(),
            first_plain(all) == first_plain(all.skip(i as int)),
        decreases items.len() - i,
    {
        assert(all.skip(i as int)[0] == all[i as int]);
        if is_plain(&items[i].0) {
            return items[i].1.dup();
        }
        assert(all.skip(i as int).drop_first() =~= all.skip(i + 1));
        i += 1;
    }
    RVal::Null
}

/// The contents of a list that wraps one value.
pub fn unwrap_list(v: RVal) -> (r: RVal)
    ensures
        r.deep() == unwrapped(v.deep()),
{
    match &v {
        RVal::List(items) => {
            proof {
                lemma_item_list(*items);
            }
            if items.len() > 0 {
                return items[0].1.dup();
            }
        },
        _ => {
            proof {
                reveal_with_fuel(RVal::deep, 2);
            }
        },
    }
    v
}

fn group_part(rhs: RVal) -> (r: RVal)
    ensures
        r.deep() == group_value(rhs.deep()),
{
    match &rhs {
        RVal::List(items) => {
            proof {
                lemma_item_list(*items);
            }
            return unwrap_list(find_plain(items));
        },
        _ => {
            proof {
                reveal_with_fuel(RVal::deep, 2);
            }
        },
    }
    rhs
}

fn read_labels<S: Fn(Real) -> String>(printer: &Printer<S>, v: &RVal) -> (r: Result<Vec<String>, R2Err>)
    requires
        printer.wf(),
    ensures
        match labels_of(printer, v.deep()) {
            Some(s) => r is Ok && texts(r->Ok_0@) == s,
            None => failed(r, (ErrKind::Type, "cannot coerce to numeric"@)),
        },
{
    proof {
        reveal_with_fuel(RVal::deep, 2);
    }
    let ghost want = labels_of(printer, v.deep());
    let mut out: Vec<String> = Vec::new();
    match v {
        RVal::Character(s, _) => {
            let mut i: usize = 0;
            while i < s.len()
                invariant
                    i <= s.len(),
                    out@.len() == i,
                    forall|k: int| 0 <= k < i ==> (#[trigger] out@[k])@ == text_or_na(opt_text(s@[k])),
                decreases s.len() - i,
            {
                out.push(
                    match &s[i] {
                        Some(t) => owned(t.as_str()),
                        None => owned("NA"),
                    },
                );
                i += 1;
            }
        },
        RVal::Factor(f) => {
            let mut i: usize = 0;
            while i < f.codes.len()
                invariant
                    i <= f.codes.len(),
                    out@.len() == i,
                    forall|k: int|
                        0 <= k < i ==> (#[trigger] out@[k])@ == level_text(f.codes@[k], texts(f.levels@)),
                decreases f.codes.len() - i,
            {
                out.push(
                    match f.codes[i] {
                        Some(c) => {
                            if (c as usize) < f.levels.len() {
                                owned(f.levels[c as usize].as_str())
                            } else {
                                owned("NA")
                            }
                        },
                        None => owned("NA"),
                    },
                );
                i += 1;
            }
        },
        _ => {
            match v.as_reals() {
                Err(e) => {
                    return Err(e);
                },
                Ok(s) => {
                    let mut i: usize = 0;
                    while i < s.len()
                        invariant
                            printer.wf(),
                            i <= s.len(),
                            out@.len() == i,
                            forall|k: int|
                                0 <= k < i ==> (#[trigger] out@[k])@ == (match s@[k] {
                                    Some(x) => printer.text(x),
                                    None => "NA"@,
                                }),
                        decreases s.len() - i,
                    {
                        out.push(
                            match s[i] {
                                Some(x) => printer.print(x),
                                None => owned("NA"),
                            },
                        );
                        i += 1;
                    }
                },
            }
        },
    }
    assert(texts(out@) =~= want->0);
    Ok(out)
}

proof fn lemma_item_sound(items: Items, name: Seq<char>)
    requires
        forall|i: int| 0 <= i < items.len() ==> sound((#[trigger] items[i]).1),
    ensures
        sound(item_named(items, name)),
    decreases items.len(),
{
    if items.len() > 0 && items[0].0 != Some(name) {
        let rest = items.drop_first();
        assert forall|i: int| 0 <= i < rest.len() implies sound((#[trigger] rest[i]).1) by {
            assert(rest[i] == items[i + 1]);
        }
        lemma_item_sound(rest, name);
    }
}

/// Reads the response and the groups of an analysis of variance.
pub fn manova_design<S: Fn(Real) -> String>(printer: &Printer<S>, a: &[EvalArg]) -> (r: Result<Design, R2Err>)
    requires
        printer.wf(),
        sound_args(a@),
        nth(a@, 0) is List ==> countable(response(a@)),
    ensures
        match design_fault(printer, a@) {
            Some(e) => failed(r, e),
            None => {
                &&& r is Ok
                &&& holds(r->Ok_0.rows, response(a@))
                &&& r->Ok_0.groups.of(labels_in(printer, a@))
                &&& labels_in(printer, a@).len() == r->Ok_0.rows.n
                &&& 2 <= r->Ok_0.groups.rows@.len()
                &&& r->Ok_0.groups.rows@.len() + r->Ok_0.rows.p <= r->Ok_0.rows.n
                &&& r->Ok_0.rows.p >= 2
            },
        },
{
    let first: RVal = nth_arg(a, 0);
    proof {
        if a@.len() > 0 {
            assert(sound(a@[0].value.deep()));
        }
    }
    match &first {
        RVal::List(items) => {
            proof {
                lemma_item_list(*items);
                lemma_item_sound(item_list(items@), "~lhs"@);
            }
            let lhs: RVal = find_item(items, "~lhs");
            let y: RVal = unwrap_list(lhs);
            proof {
                let v = item_named(item_list(items@), "~lhs"@);
                if v is List && v->List_0.len() > 0 {
                    assert(sound(v->List_0[0].1));
                }
            }
            let rows: Rows = match as_matrix(&y) {
                Ok(m) => m,
                Err(e) => {
                    return Err(e);
                },
            };
            if rows.p < 2 {
                let mut t: Vec<char> = Vec::new();
                extend_str(&mut t, "manova: LHS must be a multivariate response (\u{2265} 2 columns); got p = ");
                extend_decimal(&mut t, rows.p as u64);
                extend_str(&mut t, ". Use cbind(y1, y2, ...) on the LHS.");
                let msg: String = string_of(&t);
                assert(msg@ =~= univariate_message(rows.p as nat));
                return Err(R2Err { msg, kind: ErrKind::Runtime });
            }
            let rhs: RVal = find_item(items, "~rhs");
            let by: RVal = group_part(rhs);
            let labels: Vec<String> = match read_labels(printer, &by) {
                Ok(l) => l,
                Err(e) => {
                    return Err(e);
                },
            };
            if labels.len() != rows.n {
                return Err(
                    sized_error(
                        "manova: response has ",
                        rows.n as u64,
                        " rows but grouping factor has ",
                        labels.len() as u64,
                        "",
                    ),
                );
            }
            let groups: Groups = group_rows(&labels);
            proof {
                lemma_first_seen(texts(labels@));
                assert(texts(groups.labels@).len() == groups.labels@.len());
            }
            let k: usize = groups.rows.len();
            if k < 2 {
                let mut t: Vec<char> = Vec::new();
                extend_str(&mut t, "manova: need \u{2265} 2 groups (got ");
                extend_decimal(&mut t, k as u64);
                extend_str(&mut t, ")");
                let msg: String = string_of(&t);
                assert(msg@ =~= "manova: need \u{2265} 2 groups (got "@ + decimal(k as nat) + ")"@);
                return Err(R2Err { msg, kind: ErrKind::Runtime });
            }
            if rows.n - k < rows.p {
                return Err(
                    sized_error(
                        "manova: insufficient residual degrees of freedom (n - k = ",
                        (rows.n - k) as u64,
                        " < p = ",
                        rows.p as u64,
                        "). E will be singular.",
                    ),
                );
            }
            Ok(Design { rows, groups })
        },
        _ => {
            proof {
                reveal_with_fuel(RVal::deep, 2);
            }
            Err(
                fail(
                    ErrKind::Runtime,
                    "manova: first argument must be a formula 'cbind(y1, y2, ...) ~ group'",
                ),
            )
        },
    }
}

} // verus!
