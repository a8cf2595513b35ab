//! Pieces of printed reports: numbers, padding and lists.
use crate::double::Real;
use crate::stats_design::Printer;
use crate::text::{decimal, extend, extend_decimal, extend_str};
use vstd::prelude::*;

verus! {

/// A whole number, with a sign where it is negative.
pub open spec fn signed_decimal(n: int) -> Seq<char> {
    if n < 0 {
        "-"@ + decimal((-n) as nat)
    } else {
        decimal(n as nat)
    }
}

pub(crate) fn extend_signed(out: &mut Vec<char>, n: i64)
    ensures
        final(out)@ == old(out)@ + signed_decimal(n as int),
{
    let ghost start = out@;
    if n < 0 {
        let m: i128 = -(n as i128);
        extend_str(out, "-");
        extend_decimal(out, m as u64);
        assert(out@ =~= start + signed_decimal(n as int));
    } else {
        extend_decimal(out, n as u64);
    }
}

/// A double as a whole number of 32 bits: cut, and held in the range.
pub open spec fn whole32(x: Real) -> int {
    let n = x.as_long() as int;
    if n < i32::MIN {
        i32::MIN as int
    } else if n > i32::MAX {
        i32::MAX as int
    } else {
        n
    }
}

pub(crate) fn extend_whole32(out: &mut Vec<char>, x: Real)
    ensures
        final(out)@ == old(out)@ + signed_decimal(whole32(x)),
{
    let n: i64 = x.to_i64();
    let m: i64 = if n < -0x8000_0000 {
        -0x8000_0000
    } else if n > 0x7fff_ffff {
        0x7fff_ffff
    } else {
        n
    };
    extend_signed(out, m);
}

pub(crate) fn extend_number<P: Fn(Real) -> String>(out: &mut Vec<char>, printer: &Printer<P>, x: Real)
    requires
        printer.wf(),
    ensures
        final(out)@ == old(out)@ + printer.text(x),
{
    let s: String = printer.print(x);
    extend_str(out, s.as_str());
}

/// Blanks.
pub open spec fn blanks(n: int) -> Seq<char> {
    Seq::new(
        if n < 0 {
            0
        } else {
            n as nat
        },
        |i: int| ' ',
    )
}

fn extend_blanks(out: &mut Vec<char>, n: usize)
    ensures
        final(out)@ == old(out)@ + blanks(n as int),
{
    let ghost start = out@;
    let mut i: usize = 0;
    assert(out@ =~= start + blanks(0));
    while i < n
        invariant
            i <= n,
            out@ == start + blanks(i as int),
        decreases n - i,
    {
        out.push(' ');
        i += 1;
        assert(out@ =~= start + blanks(i as int));
    }
}

/// A text at the right of a field.
pub open spec fn right(s: Seq<char>, w: int) -> Seq<char> {
    blanks(w - s.len()) + s
}

/// A text at the left of a field.
pub open spec fn left(s: Seq<char>, w: int) -> Seq<char> {
    s + blanks(w - s.len())
}

pub(crate) fn extend_right(out: &mut Vec<char>, s: &Vec<char>, w: usize)
    ensures
        final(out)@ == old(out)@ + right(s@, w as int),
{
    let ghost start = out@;
    if s.len() < w {
        extend_blanks(out, w - s.len());
    } else {
        assert(start + blanks(w - s@.len()) =~= start);
    }
    extend(out, s);
    assert(out@ =~= start + right(s@, w as int));
}

pub(crate) fn extend_left(out: &mut Vec<char>, s: &Vec<char>, w: usize)
    ensures
        final(out)@ == old(out)@ + left(s@, w as int),
{
    let ghost start = out@;
    extend(out, s);
    if s.len() < w {
        extend_blanks(out, w - s.len());
    }
    assert(out@ =~= start + left(s@, w as int));
}

/// The numbers with commas between them.
pub open spec fn listed<P: Fn(Real) -> String>(out: Seq<char>, printer: &Printer<P>, s: Seq<Real>, n: nat) -> Seq<char>
    decreases n,
{
    if n == 0 {
        out
    } else if n == 1 {
        out + printer.text(s[0])
    } else {
        listed(out, printer, s, (n - 1) as nat) + ", "@ + printer.text(s[n - 1])
    }
}

pub(crate) fn extend_listed<P: Fn(Real) -> String>(out: &mut Vec<char>, printer: &Printer<P>, s: &Vec<Real>)
    requires
        printer.wf(),
    ensures
        final(out)@ == listed(old(out)@, printer, s@, s@.len()),
{
    let ghost start = out@;
    let mut i: usize = 0;
    while i < s.len()
        invariant
            printer.wf(),
            i <= s.len(),
            out@ == listed(start, printer, s@, i as nat),
        decreases s.len() - i,
    {
        if i > 0 {
            extend_str(out, ", ");
        }
        extend_number(out, printer, s[i]);
        i += 1;
    }
}

} // verus!
