//! Little-endian numbers and bitmaps.
use vstd::arithmetic::div_mod::lemma_div_denominator;
use vstd::prelude::*;

verus! {

/// The `k` low bytes of `n`, lowest first.
pub open spec fn le(n: nat, k: nat) -> Seq<u8>
    decreases k,
{
    if k == 0 {
        Seq::empty()
    } else {
        seq![(n % 256) as u8] + le(n / 256, (k - 1) as nat)
    }
}

/// The number whose bytes, lowest first, are `s`.
pub open spec fn le_value(s: Seq<u8>) -> nat
    decreases s.len(),
{
    if s.len() == 0 {
        0
    } else {
        s[0] as nat + 256 * le_value(s.drop_first())
    }
}

/// 256 to the power `k`.
pub open spec fn radix(k: nat) -> nat
    decreases k,
{
    if k == 0 {
        1
    } else {
        256 * radix((k - 1) as nat)
    }
}

pub proof fn lemma_le_len(n: nat, k: nat)
    ensures
        le(n, k).len() == k,
    decreases k,
{
    if k > 0 {
        lemma_le_len(n / 256, (k - 1) as nat);
    }
}

/// Reading back the bytes of a number that fits in them gives the number.
pub proof fn lemma_le_value(n: nat, k: nat)
    requires
        n < radix(k),
    ensures
        le_value(le(n, k)) == n,
    decreases k,
{
    if k > 0 {
        lemma_le_value(n / 256, (k - 1) as nat);
        assert(le(n, k).drop_first() =~= le(n / 256, (k - 1) as nat));
    }
}

/// `k` bytes hold a number below 256 to the `k`.
pub proof fn lemma_le_bound(s: Seq<u8>)
    ensures
        le_value(s) < radix(s.len()),
    decreases s.len(),
{
    if s.len() > 0 {
        lemma_le_bound(s.drop_first());
    }
}

pub proof fn lemma_radix()
    ensures
        radix(1) == 0x100,
        radix(2) == 0x1_0000,
        radix(4) == 0x1_0000_0000,
        radix(8) == 0x1_0000_0000_0000_0000,
{
    reveal_with_fuel(radix, 9);
}

/// Appends the `k` low bytes of `n`.
pub fn push_le(out: &mut Vec<u8>, n: u64, k: usize)
    requires
        k <= 8,
    ensures
        final(out)@ == old(out)@ + le(n as nat, k as nat),
    decreases k,
{
    let ghost start = out@;
    if k > 0 {
        out.push((n % 256) as u8);
        push_le(out, n / 256, k - 1);
        assert(out@ =~= start + le(n as nat, k as nat));
    } else {
        assert(out@ =~= start + le(n as nat, k as nat));
    }
}

/// The number in the `k` bytes at `at`.
pub fn get_le(b: &[u8], at: usize, k: usize) -> (r: u64)
    requires
        at + k <= b@.len(),
        k <= 8,
    ensures
        r == le_value(b@.subrange(at as int, at + k)),
    decreases k,
{
    proof {
        lemma_le_bound(b@.subrange(at as int, at + k));
        reveal_with_fuel(radix, 9);
    }
    let n: usize = b.len();
    if k == 0 {
        0
    } else {
        let rest: u64 = get_le(b, at + 1, k - 1);
        assert(b@.subrange(at as int, at + k).drop_first() =~= b@.subrange(at + 1, at + 1 + (k - 1)));
        b[at] as u64 + 256 * rest
    }
}

// ── Bitmaps ──────────────────────────────────────────────────────────

pub open spec fn weight(t: int) -> int {
    if t == 0 {
        1
    } else if t == 1 {
        2
    } else if t == 2 {
        4
    } else if t == 3 {
        8
    } else if t == 4 {
        16
    } else if t == 5 {
        32
    } else if t == 6 {
        64
    } else {
        128
    }
}

/// Bit `i`, as a number; past the end it is 0.
pub open spec fn bit_at(bits: Seq<bool>, i: int) -> int {
    if 0 <= i < bits.len() && bits[i] {
        1
    } else {
        0
    }
}

/// The byte that holds bits `8j` to `8j + 7`, the first in the lowest place.
pub open spec fn packed(bits: Seq<bool>, j: int) -> u8 {
    (bit_at(bits, 8 * j) + 2 * bit_at(bits, 8 * j + 1) + 4 * bit_at(bits, 8 * j + 2) + 8 * bit_at(
        bits,
        8 * j + 3,
    ) + 16 * bit_at(bits, 8 * j + 4) + 32 * bit_at(bits, 8 * j + 5) + 64 * bit_at(bits, 8 * j + 6)
        + 128 * bit_at(bits, 8 * j + 7)) as u8
}

/// Bits packed eight to a byte.
pub open spec fn bitmap(bits: Seq<bool>) -> Seq<u8> {
    Seq::new(((bits.len() + 7) / 8) as nat, |j: int| packed(bits, j))
}

/// Bit `t` of a byte.
pub open spec fn bit_of(b: u8, t: int) -> bool {
    (b as int / weight(t)) % 2 == 1
}

/// The first `n` bits of a bitmap.
pub open spec fn unpacked(s: Seq<u8>, n: nat) -> Seq<bool> {
    Seq::new(n, |i: int| bit_of(s[i / 8], i % 8))
}

/// Unpacking a bitmap gives back its bits.
pub proof fn lemma_bitmap(bits: Seq<bool>)
    ensures
        unpacked(bitmap(bits), bits.len()) == bits,
{
    assert forall|i: int| 0 <= i < bits.len() implies unpacked(bitmap(bits), bits.len())[i]
        == bits[i] by {
        let j = i / 8;
        let t = i % 8;
        assert(i == 8 * j + t);
        assert(bitmap(bits)[j] == packed(bits, j));
        assert(bit_at(bits, 8 * j + t) == bit_at(bits, i));
        let x0 = bit_at(bits, 8 * j);
        let x1 = bit_at(bits, 8 * j + 1);
        let x2 = bit_at(bits, 8 * j + 2);
        let x3 = bit_at(bits, 8 * j + 3);
        let x4 = bit_at(bits, 8 * j + 4);
        let x5 = bit_at(bits, 8 * j + 5);
        let x6 = bit_at(bits, 8 * j + 6);
        let x7 = bit_at(bits, 8 * j + 7);
        lemma_bits(x0, x1, x2, x3, x4, x5, x6, x7);
    }
    assert(unpacked(bitmap(bits), bits.len()) =~= bits);
}

proof fn lemma_bits(x0: int, x1: int, x2: int, x3: int, x4: int, x5: int, x6: int, x7: int)
    requires
        0 <= x0 <= 1,
        0 <= x1 <= 1,
        0 <= x2 <= 1,
        0 <= x3 <= 1,
        0 <= x4 <= 1,
        0 <= x5 <= 1,
        0 <= x6 <= 1,
        0 <= x7 <= 1,
    ensures
        ({
            let b = x0 + 2 * x1 + 4 * x2 + 8 * x3 + 16 * x4 + 32 * x5 + 64 * x6 + 128 * x7;
            &&& 0 <= b <= 255
            &&& (b / 1) % 2 == x0
            &&& (b / 2) % 2 == x1
            &&& (b / 4) % 2 == x2
            &&& (b / 8) % 2 == x3
            &&& (b / 16) % 2 == x4
            &&& (b / 32) % 2 == x5
            &&& (b / 64) % 2 == x6
            &&& (b / 128) % 2 == x7
        }),
{
    let b6 = x6 + 2 * x7;
    let b5 = x5 + 2 * b6;
    let b4 = x4 + 2 * b5;
    let b3 = x3 + 2 * b4;
    let b2 = x2 + 2 * b3;
    let b1 = x1 + 2 * b2;
    let b = x0 + 2 * b1;
    lemma_half(x6, x7);
    lemma_half(x5, b6);
    lemma_half(x4, b5);
    lemma_half(x3, b4);
    lemma_half(x2, b3);
    lemma_half(x1, b2);
    lemma_half(x0, b1);
    lemma_div_denominator(b, 2, 2);
    lemma_div_denominator(b, 4, 2);
    lemma_div_denominator(b, 8, 2);
    lemma_div_denominator(b, 16, 2);
    lemma_div_denominator(b, 32, 2);
    lemma_div_denominator(b, 64, 2);
}

proof fn lemma_half(x: int, y: int)
    requires
        0 <= x <= 1,
    ensures
        (x + 2 * y) / 2 == y,
        (x + 2 * y) % 2 == x,
{
}

fn bit_or_zero(bits: &Vec<bool>, i: u64) -> (r: u8)
    ensures
        r == bit_at(bits@, i as int),
{
    if i < bits.len() as u64 && bits[i as usize] {
        1
    } else {
        0
    }
}

/// Appends the bitmap of `bits`.
pub fn push_bitmap(out: &mut Vec<u8>, bits: &Vec<bool>)
    requires
        bits@.len() <= 0xffff_ffff,
    ensures
        final(out)@ == old(out)@ + bitmap(bits@),
{
    let ghost start = out@;
    let n: u64 = (bits.len() as u64 + 7) / 8;
    let mut j: u64 = 0;
    while j < n
        invariant
            bits@.len() <= 0xffff_ffff,
            n == (bits@.len() + 7) / 8,
            j <= n,
            out@ =~= start + bitmap(bits@).subrange(0, j as int),
        decreases n - j,
    {
        let k: u64 = 8 * j;
        let b: u8 = bit_or_zero(bits, k) + 2 * bit_or_zero(bits, k + 1) + 4 * bit_or_zero(
            bits,
            k + 2,
        ) + 8 * bit_or_zero(bits, k + 3) + 16 * bit_or_zero(bits, k + 4) + 32 * bit_or_zero(
            bits,
            k + 5,
        ) + 64 * bit_or_zero(bits, k + 6) + 128 * bit_or_zero(bits, k + 7);
        assert(b == packed(bits@, j as int));
        out.push(b);
        j += 1;
    }
    assert(out@ =~= start + bitmap(bits@));
}

fn bit_in(b: u8, t: u64) -> (r: bool)
    requires
        t < 8,
    ensures
        r == bit_of(b, t as int),
{
    let w: u8 = if t == 0 {
        1
    } else if t == 1 {
        2
    } else if t == 2 {
        4
    } else if t == 3 {
        8
    } else if t == 4 {
        16
    } else if t == 5 {
        32
    } else if t == 6 {
        64
    } else {
        128
    };
    (b / w) % 2 == 1
}

/// The first `n` bits of the bitmap at `at`.
pub fn get_bits(b: &[u8], at: usize, n: usize) -> (r: Vec<bool>)
    requires
        n <= 0xffff_ffff,
        at + (n + 7) / 8 <= b@.len(),
    ensures
        r@ == unpacked(b@.subrange(at as int, at + (n + 7) / 8), n as nat),
{
    let mut out: Vec<bool> = Vec::new();
    let ghost s = b@.subrange(at as int, at + (n + 7) / 8);
    let all: usize = b.len();
    let mut i: usize = 0;
    while i < n
        invariant
            all == b@.len(),
            i <= n <= 0xffff_ffff,
            at + (n + 7) / 8 <= b@.len(),
            s == b@.subrange(at as int, at + (n + 7) / 8),
            out@ =~= unpacked(s, n as nat).subrange(0, i as int),
        decreases n - i,
    {
        assert(i / 8 < (n + 7) / 8);
        assert(s[(i / 8) as int] == b@[at + i / 8]);
        let v: bool = bit_in(b[at + i / 8], (i % 8) as u64);
        out.push(v);
        i += 1;
    }
    assert(out@ =~= unpacked(s, n as nat));
    out
}

/// Appends a run of bytes.
pub fn push_bytes(out: &mut Vec<u8>, s: &[u8])
    ensures
        final(out)@ == old(out)@ + s@,
{
    let ghost start = out@;
    let mut i: usize = 0;
    while i < s.len()
        invariant
            i <= s@.len(),
            out@ =~= start + s@.subrange(0, i as int),
        decreases s@.len() - i,
    {
        out.push(s[i]);
        i += 1;
    }
    assert(s@.subrange(0, s@.len() as int) =~= s@);
}

/// A copy of a run of bytes.
pub fn copy_bytes(b: &[u8], from: usize, to: usize) -> (r: Vec<u8>)
    requires
        from <= to <= b@.len(),
    ensures
        r@ == b@.subrange(from as int, to as int),
{
    let mut out: Vec<u8> = Vec::new();
    let mut i: usize = from;
    while i < to
        invariant
            from <= i <= to <= b@.len(),
            out@ =~= b@.subrange(from as int, i as int),
        decreases to - i,
    {
        out.push(b[i]);
        i += 1;
    }
    out
}

} // verus!
