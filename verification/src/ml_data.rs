//! The data of a model: a response, a matrix of predictors and their names,
//! from a formula with a data frame or from a matrix with a vector.
use crate::double::{NAN_BITS, Real, nat_real, num};
use crate::grouping::first_seen;
use crate::stats_design::{Items, item_list, item_named, plain_name, text_or_na, unwrapped};
use crate::stats_matrix::{SIZE_LIMIT, failed};
use crate::text::{
    chars_of, decimal, has_prefix, is_text, numbered, opt_text, owned, same_text, starts_with, texts,
};
use crate::value::{
    ErrKind, EvalArg, Frame, Grid, Matrix, R2Err, RVal, Val, arg_named, dup_opt_string, dup_strings, fail,
    frame_rows, keep_present, named, nth, nth_arg, present, reals,
};
use vstd::prelude::*;

verus! {

/// Response, predictors and their names.
#[derive(Debug)]
pub struct ModelData {
    pub y: Vec<Real>,
    pub x: Matrix,
    pub names: Vec<String>,
}

/// The item marks its list as a formula.
pub open spec fn marks_formula(item: (Option<Seq<char>>, Val)) -> bool {
    &&& item.0 == Some("~class"@)
    &&& item.1 is Character
    &&& item.1->Character_0.len() > 0
    &&& item.1->Character_0[0] == Some("formula"@)
}

pub open spec fn is_formula(v: Val) -> bool {
    v is List && exists|i: int| 0 <= i < v->List_0.len() && marks_formula(#[trigger] v->List_0[i])
}

/// The place of a label among the distinct labels.
pub open spec fn place_of(d: Seq<Seq<char>>, x: Seq<char>) -> nat
    decreases d.len(),
{
    if d.len() == 0 {
        0
    } else if d[0] == x {
        0
    } else {
        1 + place_of(d.drop_first(), x)
    }
}

/// Labels numbered from one in the order of first occurrence.
pub open spec fn label_codes(labels: Seq<Seq<char>>) -> Seq<Real> {
    Seq::new(labels.len(), |i: int| nat_real(place_of(first_seen(labels), labels[i]) + 1))
}

/// The response as numbers.
pub open spec fn response_numbers(v: Val) -> Option<Seq<Real>> {
    match v {
        Val::Character(s, _) => Some(label_codes(Seq::new(s.len(), |i: int| text_or_na(s[i])))),
        Val::Factor(codes, _) => Some(
            Seq::new(
                codes.len(),
                |i: int|
                    match codes[i] {
                        Some(c) => nat_real((c + 1) as nat),
                        None => num(NAN_BITS),
                    },
            ),
        ),
        _ => match reals(v) {
            Some(s) => Some(present(s)),
            None => None,
        },
    }
}

/// A predictor: its name and its numbers.
pub type Predictor = (Seq<char>, Seq<Real>);

/// The numbers of a column that has one for each row.
pub open spec fn full_column(v: Val, nrow: nat) -> Option<Seq<Real>> {
    match reals(v) {
        Some(s) => if present(s).len() == nrow {
            Some(present(s))
        } else {
            None
        },
        None => None,
    }
}

/// The name of the response, where the formula gives it.
pub open spec fn response_name(lhs: Val) -> Option<Seq<char>> {
    match lhs {
        Val::List(items) => if items.len() > 0 {
            items[0].0
        } else {
            None
        },
        _ => None,
    }
}

/// The numeric columns among the first `k` of a data frame, without the one
/// named like the response.
pub open spec fn frame_predictors(f: Frame, skip: Option<Seq<char>>, nrow: nat, k: nat) -> Seq<Predictor>
    decreases k,
{
    if k == 0 {
        Seq::empty()
    } else {
        let s = frame_predictors(f, skip, nrow, (k - 1) as nat);
        let c = f.columns[k - 1];
        if skip == Some(c.0) {
            s
        } else {
            match full_column(c.1, nrow) {
                Some(x) => s.push((c.0, x)),
                None => s,
            }
        }
    }
}

/// A name that starts with a tilde.
pub open spec fn tilde_name(name: Option<Seq<char>>) -> bool {
    name is Some && has_prefix(name->0, "~"@)
}

/// The name of a term of a formula.
pub open spec fn term_name(item: (Option<Seq<char>>, Val), count: nat) -> Seq<char> {
    let given = match item.1 {
        Val::List(inner) => if inner.len() > 0 {
            inner[0].0
        } else {
            item.0
        },
        _ => item.0,
    };
    match given {
        Some(s) => s,
        None => "X"@ + decimal(count + 1),
    }
}

/// The numeric terms among the first `k` of a right-hand side.
pub open spec fn term_predictors(items: Items, nrow: nat, k: nat) -> Seq<Predictor>
    decreases k,
{
    if k == 0 {
        Seq::empty()
    } else {
        let s = term_predictors(items, nrow, (k - 1) as nat);
        let t = items[k - 1];
        if tilde_name(t.0) {
            s
        } else {
            match full_column(unwrapped(t.1), nrow) {
                Some(x) => s.push((term_name(t, s.len()), x)),
                None => s,
            }
        }
    }
}

/// A right-hand side that names its terms.
pub open spec fn names_terms(rhs: Val) -> bool {
    match rhs {
        Val::List(items) => exists|i: int| 0 <= i < items.len() && plain_name((#[trigger] items[i]).0),
        Val::Null => false,
        _ => true,
    }
}

/// The predictors of a formula.
pub open spec fn predictors(f: Frame, lhs: Val, rhs: Val) -> Seq<Predictor> {
    let nrow = frame_rows(f);
    if !names_terms(rhs) {
        frame_predictors(f, response_name(lhs), nrow, f.columns.len())
    } else {
        match rhs {
            Val::List(items) => term_predictors(items, nrow, items.len()),
            _ => match reals(rhs) {
                Some(s) => seq![("X1"@, present(s))],
                None => Seq::empty(),
            },
        }
    }
}

/// The numbers of the first `k` predictors, one after the other.
pub open spec fn stacked(p: Seq<Predictor>, k: nat) -> Seq<Real>
    decreases k,
{
    if k == 0 {
        Seq::empty()
    } else {
        stacked(p, (k - 1) as nat) + p[k - 1].1
    }
}

pub open spec fn predictor_names(p: Seq<Predictor>) -> Seq<Seq<char>> {
    Seq::new(p.len(), |i: int| p[i].0)
}

/// `X1`, `X2`, and so on.
pub open spec fn plain_names(n: nat) -> Seq<Seq<char>> {
    Seq::new(n, |i: int| "X"@ + decimal((i + 1) as nat))
}

/// The names of a matrix's columns, made up where there are none.
pub open spec fn matrix_names(g: Grid) -> Seq<Seq<char>> {
    match g.col_names {
        Some(n) => if n.len() == g.ncol {
            n
        } else {
            plain_names(g.ncol)
        },
        None => plain_names(g.ncol),
    }
}

/// Why there are no model data in a call.
pub open spec fn data_fault(a: Seq<EvalArg>) -> Option<(ErrKind, Seq<char>)> {
    let first = nth(a, 0);
    if is_formula(first) {
        match named(a, "data"@) {
            None => Some((ErrKind::Runtime, "formula requires data= argument"@)),
            Some(Val::DataFrame(f)) => {
                let lhs = item_named(first->List_0, "~lhs"@);
                let rhs = item_named(first->List_0, "~rhs"@);
                if response_numbers(unwrapped(lhs)) is None {
                    Some((ErrKind::Type, "cannot coerce to numeric"@))
                } else if predictors(f, lhs, rhs).len() == 0 {
                    Some((ErrKind::Runtime, "no numeric predictor columns found"@))
                } else {
                    None
                }
            },
            _ => Some((ErrKind::Runtime, "data must be data.frame"@)),
        }
    } else if !(first is Matrix) {
        Some((ErrKind::Runtime, "first argument must be matrix or formula"@))
    } else if reals(nth(a, 1)) is None {
        Some((ErrKind::Type, "cannot coerce to numeric"@))
    } else {
        None
    }
}

/// The model data in a call.
pub open spec fn model_data(a: Seq<EvalArg>, d: ModelData) -> bool {
    let first = nth(a, 0);
    if is_formula(first) {
        let f = named(a, "data"@)->0->DataFrame_0;
        let lhs = item_named(first->List_0, "~lhs"@);
        let p = predictors(f, lhs, item_named(first->List_0, "~rhs"@));
        &&& d.y@ == response_numbers(unwrapped(lhs))->0
        &&& d.x.deep() == Grid {
            data: stacked(p, p.len()),
            nrow: frame_rows(f),
            ncol: p.len(),
            col_names: None,
        }
        &&& texts(d.names@) == predictor_names(p)
    } else {
        &&& d.y@ == present(reals(nth(a, 1))->0)
        &&& d.x.deep() == first->Matrix_0
        &&& texts(d.names@) == matrix_names(first->Matrix_0)
    }
}

fn find_label(levels: &Vec<String>, x: &str) -> (r: usize)
    ensures
        r == place_of(texts(levels@), x@),
        r <= levels@.len(),
        r == levels@.len() <==> !texts(levels@).contains(x@),
{
    let ghost all = texts(levels@);
    let mut i: usize = 0;
    assert(all.skip(0) =~= all);
    while i < levels.len()
        invariant
            all == texts(levels@),
            i <= levels.len(),
            place_of(all, x@) == i + place_of(all.skip(i as int), x@),
            forall|k: int| 0 <= k < i ==> all[k] != x@,
        decreases levels.len() - i,
    {
        assert(all.skip(i as int)[0] == all[i as int]);
        if same_text(levels[i].as_str(), x) {
            assert(all[i as int] == x@);
            assert(all.contains(x@));
            return i;
        }
        assert(all.skip(i as int).drop_first() =~= all.skip(i + 1));
        i += 1;
    }
    assert(all.skip(i as int) =~= Seq::<Seq<char>>::empty());
    i
}

proof fn lemma_place_stable(d: Seq<Seq<char>>, tail: Seq<Seq<char>>, x: Seq<char>)
    requires
        d.contains(x),
    ensures
        place_of(d + tail, x) == place_of(d, x),
        place_of(d, x) < d.len(),
    decreases d.len(),
{
    if d.len() > 0 && d[0] != x {
        let rest = d.drop_first();
        let w = choose|w: int| 0 <= w < d.len() && d[w] == x;
        assert(rest[w - 1] == x);
        lemma_place_stable(rest, tail, x);
        assert((d + tail).drop_first() =~= rest + tail);
    }
}

proof fn lemma_place_new(d: Seq<Seq<char>>, x: Seq<char>)
    requires
        !d.contains(x),
    ensures
        place_of(d.push(x), x) == d.len(),
    decreases d.len(),
{
    if d.len() > 0 {
        assert(d[0] != x);
        let rest = d.drop_first();
        assert(!rest.contains(x)) by {
            if rest.contains(x) {
                let w = choose|w: int| 0 <= w < rest.len() && rest[w] == x;
                assert(d[w + 1] == x);
            }
        }
        lemma_place_new(rest, x);
        assert(d.push(x).drop_first() =~= rest.push(x));
    }
}

/// The distinct labels of a prefix begin those of the whole.
proof fn lemma_seen_prefix(s: Seq<Seq<char>>, k: int)
    requires
        0 <= k <= s.len(),
    ensures
        exists|tail: Seq<Seq<char>>| first_seen(s) == #[trigger] (first_seen(s.take(k)) + tail),
    decreases s.len() - k,
{
    if k == s.len() {
        assert(s.take(k) =~= s);
        assert(first_seen(s) =~= first_seen(s.take(k)) + Seq::<Seq<char>>::empty());
    } else {
        lemma_seen_prefix(s, k + 1);
        let t = choose|tail: Seq<Seq<char>>| first_seen(s) == #[trigger] (first_seen(s.take(k + 1)) + tail);
        assert(s.take(k + 1).drop_last() =~= s.take(k));
        let d = first_seen(s.take(k));
        let x = s.take(k + 1).last();
        if d.contains(x) {
            assert(first_seen(s) == d + t);
        } else {
            assert(first_seen(s) =~= d + (seq![x] + t));
        }
    }
}

fn label_numbers(labels: &Vec<String>) -> (r: Vec<Real>)
    requires
        labels@.len() < SIZE_LIMIT - 1,
    ensures
        r@ == label_codes(texts(labels@)),
{
    let ghost all = texts(labels@);
    let ghost seen = first_seen(all);
    let mut levels: Vec<String> = Vec::new();
    let mut out: Vec<Real> = Vec::new();
    let mut i: usize = 0;
    assert(all.take(0) =~= Seq::<Seq<char>>::empty());
    assert(texts(levels@) =~= Seq::<Seq<char>>::empty());
    while i < labels.len()
        invariant
            labels@.len() < SIZE_LIMIT - 1,
            all == texts(labels@),
            seen == first_seen(all),
            i <= labels.len(),
            texts(levels@) == first_seen(all.take(i as int)),
            levels@.len() <= i,
            out@.len() == i,
            forall|k: int| 0 <= k < i ==> #[trigger] out@[k] == nat_real(place_of(seen, all[k]) + 1),
        decreases labels.len() - i,
    {
        let ghost d = first_seen(all.take(i as int));
        let ghost x = all[i as int];
        let at: usize = find_label(&levels, labels[i].as_str());
        proof {
            assert(all.take(i + 1).drop_last() =~= all.take(i as int));
            assert(all.take(i + 1).last() == x);
            lemma_seen_prefix(all, i + 1);
            let e = first_seen(all.take(i + 1));
            let tail = choose|tail: Seq<Seq<char>>| seen == #[trigger] (e + tail);
            if d.contains(x) {
                lemma_place_stable(d, tail, x);
            } else {
                lemma_place_new(d, x);
                assert(e[d.len() as int] == x);
                lemma_place_stable(e, tail, x);
            }
            assert(texts(levels@).len() == levels@.len());
        }
        if at == levels.len() {
            let label: String = owned(labels[i].as_str());
            let ghost before = levels@;
            levels.push(label);
            assert(texts(levels@) =~= texts(before).push(x));
        }
        out.push(Real::from_count(at as u64 + 1));
        i += 1;
    }
    assert(out@ =~= label_codes(all));
    out
}

fn response_of(v: &RVal) -> (r: Result<Vec<Real>, R2Err>)
    requires
        sized(v.deep()),
    ensures
        match response_numbers(v.deep()) {
            Some(s) => r is Ok && r->Ok_0@ == s,
            None => failed(r, (ErrKind::Type, "cannot coerce to numeric"@)),
        },
{
    proof {
        reveal_with_fuel(RVal::deep, 2);
    }
    match v {
        RVal::Character(s, _) => {
            let mut labels: Vec<String> = Vec::new();
            let mut i: usize = 0;
            while i < s.len()
                invariant
                    i <= s.len(),
                    labels@.len() == i,
                    forall|k: int| 0 <= k < i ==> (#[trigger] labels@[k])@ == text_or_na(opt_text(s@[k])),
                decreases s.len() - i,
            {
                labels.push(
                    match &s[i] {
                        Some(t) => owned(t.as_str()),
                        None => owned("NA"),
                    },
                );
                i += 1;
            }
            proof {
                let c = v.deep()->Character_0;
                assert(texts(labels@) =~= Seq::new(c.len(), |i: int| text_or_na(c[i])));
            }
            Ok(label_numbers(&labels))
        },
        RVal::Factor(f) => {
            let mut out: Vec<Real> = Vec::new();
            let mut i: usize = 0;
            while i < f.codes.len()
                invariant
                    i <= f.codes.len(),
                    out@.len() == i,
                    forall|k: int|
                        0 <= k < i ==> #[trigger] out@[k] == (match f.codes@[k] {
                            Some(c) => nat_real((c + 1) as nat),
                            None => num(NAN_BITS),
                        }),
                decreases f.codes.len() - i,
            {
                out.push(
                    match f.codes[i] {
                        Some(c) => Real::from_count(c as u64 + 1),
                        None => Real { bits: NAN_BITS },
                    },
                );
                i += 1;
            }
            assert(out@ =~= response_numbers(v.deep())->0);
            Ok(out)
        },
        _ => match v.as_reals() {
            Err(e) => Err(e),
            Ok(s) => Ok(keep_present(s.as_slice())),
        },
    }
}

/// A label column short enough to be numbered exactly.
pub open spec fn sized(v: Val) -> bool {
    match v {
        Val::Character(s, _) => s.len() < SIZE_LIMIT - 1,
        _ => true,
    }
}

/// The response of the formula in a call, if it holds one, is short enough to
/// be numbered.
pub open spec fn sized_call(a: Seq<EvalArg>) -> bool {
    nth(a, 0) is List ==> sized(unwrapped(item_named(nth(a, 0)->List_0, "~lhs"@)))
}

pub(crate) fn full_column_of(v: &RVal, nrow: usize) -> (r: Option<Vec<Real>>)
    ensures
        match full_column(v.deep(), nrow as nat) {
            Some(s) => r is Some && (r->0)@ == s,
            None => r is None,
        },
{
    match v.as_reals() {
        Err(_) => None,
        Ok(s) => {
            let n: Vec<Real> = keep_present(s.as_slice());
            if n.len() == nrow {
                Some(n)
            } else {
                None
            }
        },
    }
}

/// Predictors as they are gathered: names, and the numbers one column after the
/// other.
struct Gathered {
    names: Vec<String>,
    data: Vec<Real>,
}

impl Gathered {
    spec fn holds(&self, p: Seq<Predictor>) -> bool {
        texts(self.names@) == predictor_names(p) && self.data@ == stacked(p, p.len())
    }

    fn add(&mut self, name: String, x: &Vec<Real>, Ghost(p): Ghost<Seq<Predictor>>)
        requires
            old(self).holds(p),
        ensures
            final(self).holds(p.push((name@, x@))),
    {
        let ghost q = p.push((name@, x@));
        let ghost names0 = self.names@;
        let ghost data0 = self.data@;
        self.names.push(name);
        let mut i: usize = 0;
        while i < x.len()
            invariant
                i <= x.len(),
                self.names@ == names0.push(name),
                self.data@ == data0 + x@.take(i as int),
            decreases x.len() - i,
        {
            self.data.push(x[i]);
            assert(self.data@ =~= data0 + x@.take(i + 1));
            i += 1;
        }
        proof {
            assert(x@.take(x@.len() as int) =~= x@);
            assert(texts(self.names@) =~= predictor_names(q)) by {
                assert(texts(names0).len() == names0.len());
                assert forall|i: int| 0 <= i < q.len() implies texts(self.names@)[i] == q[i].0 by {
                    if i < p.len() {
                        assert(texts(names0)[i] == predictor_names(p)[i]);
                    }
                }
            }
            lemma_stacked_prefix(p, q, p.len());
            assert(stacked(q, q.len()) == stacked(p, p.len()) + x@);
        }
    }
}

pub proof fn lemma_stacked_prefix(p: Seq<Predictor>, q: Seq<Predictor>, k: nat)
    requires
        k <= p.len() <= q.len(),
        forall|i: int| 0 <= i < k ==> p[i] == q[i],
    ensures
        stacked(p, k) == stacked(q, k),
    decreases k,
{
    if k > 0 {
        lemma_stacked_prefix(p, q, (k - 1) as nat);
    }
}

fn new_gathered() -> (r: Gathered)
    ensures
        r.holds(Seq::<Predictor>::empty()),
        r.names@.len() == 0,
{
    let r = Gathered { names: Vec::new(), data: Vec::new() };
    assert(texts(r.names@) =~= predictor_names(Seq::<Predictor>::empty()));
    r
}

/// The columns of a data frame by their names and contents.
pub open spec fn frame_columns(v: Seq<(String, RVal)>) -> Seq<(Seq<char>, Val)> {
    Seq::new(v.len(), |i: int| (v[i].0@, v[i].1.deep()))
}

fn gather_frame(cols: &Vec<(String, RVal)>, skip: &Option<String>, nrow: usize, Ghost(f): Ghost<Frame>) -> (r: Gathered)
    requires
        f.columns == frame_columns(cols@),
    ensures
        r.holds(frame_predictors(f, opt_text(*skip), nrow as nat, f.columns.len())),
{
    let mut out: Gathered = new_gathered();
    let mut k: usize = 0;
    while k < cols.len()
        invariant
            f.columns == frame_columns(cols@),
            k <= cols.len(),
            out.holds(frame_predictors(f, opt_text(*skip), nrow as nat, k as nat)),
        decreases cols.len() - k,
    {
        let ghost p = frame_predictors(f, opt_text(*skip), nrow as nat, k as nat);
        assert(f.columns[k as int] == (cols@[k as int].0@, cols@[k as int].1.deep()));
        let is_response: bool = is_text(skip, cols[k].0.as_str());
        if !is_response {
            match full_column_of(&cols[k].1, nrow) {
                Some(x) => {
                    let name: String = owned(cols[k].0.as_str());
                    out.add(name, &x, Ghost(p));
                },
                None => {},
            }
        }
        k += 1;
    }
    out
}

fn has_tilde(name: &Option<String>) -> (r: bool)
    ensures
        r == tilde_name(opt_text(*name)),
{
    match name {
        Some(s) => {
            let c: Vec<char> = chars_of(s.as_str());
            starts_with(&c, "~")
        },
        None => false,
    }
}

fn name_of_term(item: &(Option<String>, RVal), count: usize) -> (r: String)
    requires
        count < SIZE_LIMIT,
    ensures
        r@ == term_name((opt_text(item.0), item.1.deep()), count as nat),
{
    proof {
        reveal_with_fuel(RVal::deep, 2);
    }
    let given: Option<String> = match &item.1 {
        RVal::List(inner) => {
            if inner.len() > 0 {
                dup_opt_string(&inner[0].0)
            } else {
                dup_opt_string(&item.0)
            }
        },
        _ => dup_opt_string(&item.0),
    };
    match given {
        Some(s) => s,
        None => numbered("X", count as u64 + 1),
    }
}

fn gather_terms(items: &Vec<(Option<String>, RVal)>, nrow: usize) -> (r: Gathered)
    requires
        items@.len() < SIZE_LIMIT,
    ensures
        r.holds(term_predictors(item_list(items@), nrow as nat, items@.len())),
{
    let ghost all = item_list(items@);
    let mut out: Gathered = new_gathered();
    let mut k: usize = 0;
    while k < items.len()
        invariant
            items@.len() < SIZE_LIMIT,
            all == item_list(items@),
            k <= items.len(),
            out.holds(term_predictors(all, nrow as nat, k as nat)),
            out.names@.len() <= k,
        decreases items.len() - k,
    {
        let ghost p = term_predictors(all, nrow as nat, k as nat);
        assert(all[k as int] == (opt_text(items@[k as int].0), items@[k as int].1.deep()));
        if !has_tilde(&items[k].0) {
            let actual: RVal = crate::stats_design::unwrap_list(items[k].1.dup());
            match full_column_of(&actual, nrow) {
                Some(x) => {
                    let count: usize = out.names.len();
                    proof {
                        assert(texts(out.names@).len() == p.len());
                    }
                    let name: String = name_of_term(&items[k], count);
                    out.add(name, &x, Ghost(p));
                    proof {
                        let q = p.push((name@, x@));
                        assert(texts(out.names@).len() == q.len());
                    }
                },
                None => {},
            }
        }
        k += 1;
    }
    out
}

fn any_plain(items: &Vec<(Option<String>, RVal)>) -> (r: bool)
    ensures
        r == (exists|i: int| 0 <= i < items@.len() && plain_name((#[trigger] item_list(items@)[i]).0)),
{
    let ghost all = item_list(items@);
    let mut i: usize = 0;
    while i < items.len()
        invariant
            all == item_list(items@),
            i <= items.len(),
            forall|k: int| 0 <= k < i ==> !plain_name((#[trigger] all[k]).0),
        decreases items.len() - i,
    {
        assert(all[i as int].0 == opt_text(items@[i as int].0));
        let plain: bool = match &items[i].0 {
            Some(s) => {
                let c: Vec<char> = chars_of(s.as_str());
                !starts_with(&c, "~")
            },
            None => false,
        };
        if plain {
            assert(plain_name(all[i as int].0));
            return true;
        }
        i += 1;
    }
    false
}

fn is_formula_list(items: &Vec<(Option<String>, RVal)>) -> (r: bool)
    ensures
        r == (exists|i: int| 0 <= i < items@.len() && marks_formula(#[trigger] item_list(items@)[i])),
{
    let ghost all = item_list(items@);
    let mut i: usize = 0;
    while i < items.len()
        invariant
            all == item_list(items@),
            i <= items.len(),
            forall|k: int| 0 <= k < i ==> !marks_formula(#[trigger] all[k]),
        decreases items.len() - i,
    {
        proof {
            reveal_with_fuel(RVal::deep, 2);
        }
        assert(all[i as int] == (opt_text(items@[i as int].0), items@[i as int].1.deep()));
        let marks: bool = is_text(&items[i].0, "~class") && (match &items[i].1 {
            RVal::Character(s, _) => s.len() > 0 && is_text(&s[0], "formula"),
            _ => false,
        });
        if marks {
            assert(marks_formula(all[i as int]));
            return true;
        }
        i += 1;
    }
    false
}

fn response_label(lhs: &RVal) -> (r: Option<String>)
    ensures
        opt_text(r) == response_name(lhs.deep()),
{
    proof {
        reveal_with_fuel(RVal::deep, 2);
    }
    match lhs {
        RVal::List(items) => {
            if items.len() > 0 {
                dup_opt_string(&items[0].0)
            } else {
                None
            }
        },
        _ => None,
    }
}

proof fn lemma_list_deep(v: Vec<(Option<String>, RVal)>)
    ensures
        RVal::List(v).deep() == Val::List(item_list(v@)),
{
    reveal_with_fuel(RVal::deep, 2);
    assert(RVal::List(v).deep()->List_0 =~= item_list(v@));
}

fn find_named(items: &Vec<(Option<String>, RVal)>, name: &str) -> (r: RVal)
    ensures
        r.deep() == item_named(item_list(items@), name@),
{
    crate::stats_design::find_item(items, name)
}

/// `X1`, `X2`, and so on.
pub fn made_up_names(n: usize) -> (r: Vec<String>)
    requires
        n < SIZE_LIMIT,
    ensures
        texts(r@) == plain_names(n as nat),
{
    let mut out: Vec<String> = Vec::new();
    let mut i: usize = 0;
    while i < n
        invariant
            n < SIZE_LIMIT,
            i <= n,
            out@.len() == i,
            forall|k: int| 0 <= k < i ==> (#[trigger] out@[k])@ == "X"@ + decimal((k + 1) as nat),
        decreases n - i,
    {
        out.push(numbered("X", i as u64 + 1));
        i += 1;
    }
    assert(texts(out@) =~= plain_names(n as nat));
    out
}

/// The names of a matrix's columns, made up where there are none.
pub fn column_names(m: &Matrix) -> (r: Vec<String>)
    requires
        m.ncol < SIZE_LIMIT,
    ensures
        texts(r@) == matrix_names(m.deep()),
{
    match &m.col_names {
        Some(n) => {
            proof {
                assert(texts(n@).len() == n@.len());
            }
            if n.len() == m.ncol {
                dup_strings(n)
            } else {
                made_up_names(m.ncol)
            }
        },
        None => made_up_names(m.ncol),
    }
}

fn gather(df: &crate::value::DataFrame, lhs: &RVal, rhs: &RVal, nrow: usize) -> (r: Gathered)
    requires
        nrow == frame_rows(df.deep()),
        rhs.deep() is List ==> rhs.deep()->List_0.len() < SIZE_LIMIT,
    ensures
        r.holds(predictors(df.deep(), lhs.deep(), rhs.deep())),
{
    let ghost f = df.deep();
    proof {
        assert(f.columns =~= frame_columns(df.columns@));
    }
    match rhs {
        RVal::List(items) => {
            proof {
                lemma_list_deep(*items);
            }
            let plain: bool = any_plain(items);
            proof {
                assert(plain == names_terms(rhs.deep()));
            }
            if plain {
                gather_terms(items, nrow)
            } else {
                let skip: Option<String> = response_label(lhs);
                gather_frame(&df.columns, &skip, nrow, Ghost(f))
            }
        },
        RVal::Null => {
            let skip: Option<String> = response_label(lhs);
            gather_frame(&df.columns, &skip, nrow, Ghost(f))
        },
        _ => {
            proof {
                reveal_with_fuel(RVal::deep, 2);
                assert(names_terms(rhs.deep()));
            }
            let mut out: Gathered = new_gathered();
            match rhs.as_reals() {
                Ok(s) => {
                    let x: Vec<Real> = keep_present(s.as_slice());
                    out.add(owned("X1"), &x, Ghost(Seq::<Predictor>::empty()));
                    assert(Seq::<Predictor>::empty().push(("X1"@, x@)) =~= seq![("X1"@, x@)]);
                },
                Err(_) => {},
            }
            out
        },
    }
}

/// The lists in a call are short enough to number their terms.
pub open spec fn short_terms(a: Seq<EvalArg>) -> bool {
    nth(a, 0) is List ==> ({
        let rhs = item_named(nth(a, 0)->List_0, "~rhs"@);
        rhs is List ==> rhs->List_0.len() < SIZE_LIMIT
    })
}

/// The matrix in a call has a number of columns that can be counted exactly.
pub open spec fn narrow(a: Seq<EvalArg>) -> bool {
    nth(a, 0) is Matrix ==> nth(a, 0)->Matrix_0.ncol < SIZE_LIMIT
}

/// Response, predictors and names from a formula with a data frame, or from a
/// matrix with a vector.
pub fn extract_ml_data(a: &[EvalArg]) -> (r: Result<ModelData, R2Err>)
    requires
        sized_call(a@),
        short_terms(a@),
        narrow(a@),
    ensures
        match data_fault(a@) {
            Some(e) => failed(r, e),
            None => r is Ok && model_data(a@, r->Ok_0),
        },
{
    let first: RVal = nth_arg(a, 0);
    match &first {
        RVal::List(items) => {
            proof {
                lemma_list_deep(*items);
            }
            let formula: bool = is_formula_list(items);
            proof {
                assert(formula == is_formula(first.deep()));
            }
            if !formula {
                return Err(fail(ErrKind::Runtime, "first argument must be matrix or formula"));
            }
            let df = match arg_named(a, "data") {
                None => {
                    return Err(fail(ErrKind::Runtime, "formula requires data= argument"));
                },
                Some(v) => {
                    proof {
                        reveal_with_fuel(RVal::deep, 2);
                    }
                    match v {
                        RVal::DataFrame(df) => df,
                        _ => {
                            return Err(fail(ErrKind::Runtime, "data must be data.frame"));
                        },
                    }
                },
            };
            let lhs: RVal = find_named(items, "~lhs");
            let rhs: RVal = find_named(items, "~rhs");
            let y_col: RVal = crate::stats_design::unwrap_list(lhs.dup());
            let y: Vec<Real> = match response_of(&y_col) {
                Ok(y) => y,
                Err(e) => {
                    return Err(e);
                },
            };
            let nrow: usize = df.nrow();
            let g: Gathered = gather(df, &lhs, &rhs, nrow);
            let ghost p = predictors(df.deep(), lhs.deep(), rhs.deep());
            proof {
                assert(texts(g.names@).len() == p.len());
            }
            let ncol: usize = g.names.len();
            if ncol == 0 {
                return Err(fail(ErrKind::Runtime, "no numeric predictor columns found"));
            }
            let x = Matrix { data: g.data, nrow, ncol, col_names: None };
            Ok(ModelData { y, x, names: g.names })
        },
        RVal::Matrix(m) => {
            proof {
                reveal_with_fuel(RVal::deep, 2);
            }
            match nth_arg(a, 1).as_reals() {
                Err(e) => Err(e),
                Ok(s) => {
                    let y: Vec<Real> = keep_present(s.as_slice());
                    let names: Vec<String> = column_names(m);
                    let x: Matrix = m.dup();
                    Ok(ModelData { y, x, names })
                },
            }
        },
        _ => {
            proof {
                reveal_with_fuel(RVal::deep, 2);
            }
            Err(fail(ErrKind::Runtime, "first argument must be matrix or formula"))
        },
    }
}

} // verus!
