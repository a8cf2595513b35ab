//! Running totals.
//!
//! A missing value makes everything from it on missing. On the thread pool the
//! column is cut into chunks: each is totalled on its own, the totals before a
//! chunk give its seed, and each chunk is then scanned from its seed.
use crate::double::{FloatOp, Fpu, Real};
use crate::kernel::{Backend, RayonBackend, SerialBackend, values};
use crate::kernel_par::{
    ScanOp, all_in, combined, folded, folded_from, identity, law_extremes_associate, lemma_folded_joins, monoid,
    par_for_rayon, scan_combine, scan_identity,
};
use vstd::arithmetic::div_mod::lemma_fundamental_div_mod;
use vstd::prelude::*;

verus! {

/// Columns shorter than this are scanned serially.
pub const SCAN_SERIAL: usize = 4096;

/// The fewest cells worth a chunk of their own.
pub const SCAN_CHUNK: usize = 1024;

/// None of the first `k` cells is missing.
pub open spec fn clear(d: Seq<Option<Real>>, k: int) -> bool {
    forall|i: int| 0 <= i < k ==> #[trigger] d[i] is Some
}

/// The running total of the cells from `start` to `i`, beginning with `seed`;
/// missing where a cell up to `i` is.
pub open spec fn scan_cell<F: Fn(FloatOp, Real, Real, Real) -> Real>(
    fpu: &Fpu<F>,
    op: ScanOp,
    d: Seq<Option<Real>>,
    seed: Real,
    start: int,
    i: int,
) -> Option<Real> {
    if clear(d, i + 1) {
        Some(folded_from(fpu, op, seed, values(d.subrange(start, i + 1))))
    } else {
        None
    }
}

/// The running totals of a column, from the left.
pub open spec fn serial_scan<F: Fn(FloatOp, Real, Real, Real) -> Real>(
    fpu: &Fpu<F>,
    op: ScanOp,
    d: Seq<Option<Real>>,
) -> Seq<Option<Real>> {
    Seq::new(d.len(), |i: int| scan_cell(fpu, op, d, identity(op), 0, i))
}

/// The end of chunk `c - 1` and the start of chunk `c`.
pub open spec fn chunk_edge(n: int, size: int, c: int) -> int {
    if c * size < n {
        c * size
    } else {
        n
    }
}

/// The total of all chunks before chunk `c`, chunk totals combined from the
/// left.
pub open spec fn seed<F: Fn(FloatOp, Real, Real, Real) -> Real>(
    fpu: &Fpu<F>,
    op: ScanOp,
    d: Seq<Option<Real>>,
    size: int,
    c: nat,
) -> Real
    decreases c,
{
    if c == 0 {
        identity(op)
    } else {
        combined(
            fpu,
            op,
            seed(fpu, op, d, size, (c - 1) as nat),
            folded(
                fpu,
                op,
                values(
                    d.subrange(
                        chunk_edge(d.len() as int, size, c - 1),
                        chunk_edge(d.len() as int, size, c as int),
                    ),
                ),
            ),
        )
    }
}

/// The running totals of a column cut into chunks of the given size.
pub open spec fn chunked_scan<F: Fn(FloatOp, Real, Real, Real) -> Real>(
    fpu: &Fpu<F>,
    op: ScanOp,
    d: Seq<Option<Real>>,
    size: int,
) -> Seq<Option<Real>> {
    Seq::new(
        d.len(),
        |i: int| scan_cell(fpu, op, d, seed(fpu, op, d, size, (i / size) as nat), (i / size) * size, i),
    )
}

/// `n / d`, rounded up.
pub open spec fn ceil_div(n: int, d: int) -> int {
    n / d + if n % d == 0 {
        0int
    } else {
        1int
    }
}

/// The number of chunks: one for each core, but none below the least size.
pub open spec fn chunk_count(n: int, cores: int) -> int {
    let most = ceil_div(n, SCAN_CHUNK as int);
    let k = if cores < most {
        cores
    } else {
        most
    };
    if k < 1 {
        1
    } else {
        k
    }
}

/// The running totals that the thread pool computes on `cores` cores.
pub open spec fn pool_scan<F: Fn(FloatOp, Real, Real, Real) -> Real>(
    fpu: &Fpu<F>,
    op: ScanOp,
    d: Seq<Option<Real>>,
    cores: int,
) -> Seq<Option<Real>> {
    if d.len() < SCAN_SERIAL {
        serial_scan(fpu, op, d)
    } else {
        chunked_scan(fpu, op, d, ceil_div(d.len() as int, chunk_count(d.len() as int, cores)))
    }
}

fn div_ceil(n: usize, d: usize) -> (r: usize)
    requires
        d > 0,
    ensures
        r == ceil_div(n as int, d as int),
{
    let q: usize = n / d;
    if n % d == 0 {
        q
    } else {
        proof {
            lemma_fundamental_div_mod(n as int, d as int);
            assert(q < n) by (nonlinear_arith)
                requires
                    n == d * q + n % d,
                    n % d > 0,
                    d >= 1,
                    q >= 0,
            ;
        }
        q + 1
    }
}

/// How many chunks to cut `n` cells into on a machine of `cores` cores.
pub fn num_chunks(n: usize, cores: usize) -> (r: usize)
    ensures
        r == chunk_count(n as int, cores as int),
{
    let most: usize = div_ceil(n, SCAN_CHUNK);
    let k: usize = if cores < most { cores } else { most };
    if k < 1 {
        1
    } else {
        k
    }
}

fn edge(n: usize, size: usize, c: usize) -> (r: usize)
    requires
        size > 0,
    ensures
        r == chunk_edge(n as int, size as int, c as int),
        r <= n,
{
    let q: usize = n / size;
    proof {
        lemma_fundamental_div_mod(n as int, size as int);
    }
    if c > q {
        assert(c * size >= n) by (nonlinear_arith)
            requires
                c >= q + 1,
                n == size * q + n % size,
                n % size < size,
                size > 0,
        ;
        n
    } else {
        assert(c * size <= n) by (nonlinear_arith)
            requires
                c <= q,
                n == size * q + n % size,
                n % size >= 0,
                size > 0,
        ;
        c * size
    }
}

/// Scans the cells from `start` to `end`, beginning with `seed`.
fn scan_part<F: Fn(FloatOp, Real, Real, Real) -> Real>(
    fpu: &Fpu<F>,
    op: ScanOp,
    data: &[Option<Real>],
    start: usize,
    end: usize,
    seed: Real,
    poisoned: bool,
) -> (r: Vec<Option<Real>>)
    requires
        fpu.wf(),
        start <= end <= data@.len(),
        poisoned == !clear(data@, start as int),
    ensures
        r@ == Seq::new(
            (end - start) as nat,
            |k: int| scan_cell(fpu, op, data@, seed, start as int, start + k),
        ),
{
    let mut out: Vec<Option<Real>> = Vec::new();
    let mut acc: Real = seed;
    let mut hit_na: bool = poisoned;
    let mut i: usize = start;
    assert(values(data@.subrange(start as int, start as int)) =~= Seq::<Real>::empty());
    while i < end
        invariant
            fpu.wf(),
            start <= i <= end <= data@.len(),
            out@.len() == i - start,
            hit_na == !clear(data@, i as int),
            !hit_na ==> acc == folded_from(fpu, op, seed, values(data@.subrange(start as int, i as int))),
            forall|k: int|
                0 <= k < out@.len() ==> #[trigger] out@[k] == scan_cell(fpu, op, data@, seed, start as int, start + k),
        decreases end - i,
    {
        assert(clear(data@, i + 1) == (clear(data@, i as int) && data@[i as int] is Some)) by {
            if clear(data@, i + 1) {
                assert(data@[i as int] is Some);
            }
        }
        if hit_na {
            out.push(None);
        } else {
            match data[i] {
                Some(v) => {
                    proof {
                        let s = values(data@.subrange(start as int, i + 1));
                        assert(s.drop_last() =~= values(data@.subrange(start as int, i as int)));
                        assert(s.last() == v);
                    }
                    acc = scan_combine(fpu, op, acc, v);
                    out.push(Some(acc));
                },
                None => {
                    hit_na = true;
                    out.push(None);
                },
            }
        }
        i += 1;
    }
    assert(out@ =~= Seq::new(
        (end - start) as nat,
        |k: int| scan_cell(fpu, op, data@, seed, start as int, start + k),
    ));
    out
}

/// What a chunk adds up to, and whether none of its cells is missing.
struct ChunkInfo {
    total: Real,
    full: bool,
}

/// None of the cells from `start` to `end` is missing.
spec fn full(d: Seq<Option<Real>>, start: int, end: int) -> bool {
    forall|i: int| start <= i < end ==> #[trigger] d[i] is Some
}

fn chunk_info<F: Fn(FloatOp, Real, Real, Real) -> Real>(
    fpu: &Fpu<F>,
    op: ScanOp,
    data: &[Option<Real>],
    start: usize,
    end: usize,
) -> (r: ChunkInfo)
    requires
        fpu.wf(),
        start <= end <= data@.len(),
    ensures
        r.full == full(data@, start as int, end as int),
        r.full ==> r.total == folded(fpu, op, values(data@.subrange(start as int, end as int))),
{
    let mut acc: Real = scan_identity(op);
    let mut i: usize = start;
    assert(values(data@.subrange(start as int, start as int)) =~= Seq::<Real>::empty());
    while i < end
        invariant
            fpu.wf(),
            start <= i <= end <= data@.len(),
            full(data@, start as int, i as int),
            acc == folded(fpu, op, values(data@.subrange(start as int, i as int))),
        decreases end - i,
    {
        match data[i] {
            Some(v) => {
                proof {
                    let s = values(data@.subrange(start as int, i + 1));
                    assert(s.drop_last() =~= values(data@.subrange(start as int, i as int)));
                    assert(s.last() == v);
                }
                acc = scan_combine(fpu, op, acc, v);
            },
            None => {
                assert(data@[i as int] is None);
                return ChunkInfo { total: acc, full: false };
            },
        }
        i += 1;
    }
    ChunkInfo { total: acc, full: true }
}

proof fn lemma_edges(n: int, size: int, c: int)
    requires
        size > 0,
        c >= 0,
        n >= 0,
    ensures
        0 <= chunk_edge(n, size, c) <= chunk_edge(n, size, c + 1) <= n,
{
    assert(0 <= c * size <= (c + 1) * size) by (nonlinear_arith)
        requires
            size > 0,
            c >= 0,
    ;
}

proof fn lemma_in_chunk(n: int, size: int, c: int, i: int)
    requires
        size > 0,
        c >= 0,
        chunk_edge(n, size, c) <= i < chunk_edge(n, size, c + 1),
    ensures
        i / size == c,
        chunk_edge(n, size, c) == c * size,
{
    assert((c + 1) * size == c * size + size) by (nonlinear_arith);
    assert(c * size <= i < c * size + size);
    vstd::arithmetic::div_mod::lemma_fundamental_div_mod_converse(i, size, c, i - c * size);
}

/// The seeds of the chunks, and for each whether a cell before it is missing.
fn seeds<F: Fn(FloatOp, Real, Real, Real) -> Real>(
    fpu: &Fpu<F>,
    op: ScanOp,
    infos: &Vec<ChunkInfo>,
    Ghost(d): Ghost<Seq<Option<Real>>>,
    Ghost(size): Ghost<int>,
) -> (r: (Vec<Real>, Vec<bool>))
    requires
        fpu.wf(),
        size > 0,
        forall|c: int|
            0 <= c < infos@.len() ==> (#[trigger] infos@[c]).full == full(
                d,
                chunk_edge(d.len() as int, size, c),
                chunk_edge(d.len() as int, size, c + 1),
            ),
        forall|c: int|
            0 <= c < infos@.len() && (#[trigger] infos@[c]).full ==> infos@[c].total == folded(
                fpu,
                op,
                values(
                    d.subrange(chunk_edge(d.len() as int, size, c), chunk_edge(d.len() as int, size, c + 1)),
                ),
            ),
    ensures
        r.0@.len() == infos@.len(),
        r.1@.len() == infos@.len(),
        forall|c: int|
            0 <= c < infos@.len() ==> #[trigger] r.1@[c] == !clear(d, chunk_edge(d.len() as int, size, c)),
        forall|c: int|
            0 <= c < infos@.len() && !r.1@[c] ==> #[trigger] r.0@[c] == seed(fpu, op, d, size, c as nat),
{
    let mut prefixes: Vec<Real> = Vec::new();
    let mut poisoned: Vec<bool> = Vec::new();
    let mut acc: Real = scan_identity(op);
    let mut hit: bool = false;
    let mut c: usize = 0;
    let ghost n = d.len() as int;
    proof {
        assert(chunk_edge(n, size, 0) == 0);
    }
    while c < infos.len()
        invariant
            fpu.wf(),
            size > 0,
            n == d.len(),
            c <= infos.len(),
            forall|c: int|
                0 <= c < infos@.len() ==> (#[trigger] infos@[c]).full == full(
                    d,
                    chunk_edge(n, size, c),
                    chunk_edge(n, size, c + 1),
                ),
            forall|c: int|
                0 <= c < infos@.len() && (#[trigger] infos@[c]).full ==> infos@[c].total == folded(
                    fpu,
                    op,
                    values(d.subrange(chunk_edge(n, size, c), chunk_edge(n, size, c + 1))),
                ),
            prefixes@.len() == c,
            poisoned@.len() == c,
            hit == !clear(d, chunk_edge(n, size, c as int)),
            !hit ==> acc == seed(fpu, op, d, size, c as nat),
            forall|k: int| 0 <= k < c ==> #[trigger] poisoned@[k] == !clear(d, chunk_edge(n, size, k)),
            forall|k: int|
                0 <= k < c && !poisoned@[k] ==> #[trigger] prefixes@[k] == seed(fpu, op, d, size, k as nat),
        decreases infos.len() - c,
    {
        prefixes.push(acc);
        poisoned.push(hit);
        proof {
            lemma_edges(n, size, c as int);
            let a = chunk_edge(n, size, c as int);
            let b = chunk_edge(n, size, c + 1);
            assert(clear(d, b) == (clear(d, a) && full(d, a, b))) by {
                if clear(d, b) {
                    assert forall|i: int| a <= i < b implies #[trigger] d[i] is Some by {}
                }
            }
        }
        if !hit && infos[c].full {
            acc = scan_combine(fpu, op, acc, infos[c].total);
        } else {
            hit = true;
        }
        c += 1;
    }
    (prefixes, poisoned)
}

fn parallel_scan<F: Fn(FloatOp, Real, Real, Real) -> Real + Sync>(
    fpu: &Fpu<F>,
    op: ScanOp,
    data: &[Option<Real>],
    chunks: usize,
) -> (r: Vec<Option<Real>>)
    requires
        fpu.wf(),
        chunks > 0,
        data@.len() > 0,
    ensures
        r@ == chunked_scan(fpu, op, data@, ceil_div(data@.len() as int, chunks as int)),
{
    let n: usize = data.len();
    let size: usize = div_ceil(n, chunks);
    proof {
        lemma_fundamental_div_mod(n as int, chunks as int);
        assert(size > 0 && chunks * size >= n) by (nonlinear_arith)
            requires
                n > 0,
                chunks > 0,
                n == chunks * (n as int / chunks as int) + n as int % chunks as int,
                0 <= n as int % chunks as int,
                (n as int % chunks as int) < chunks,
                n as int % chunks as int == 0 ==> size == n as int / chunks as int,
                n as int % chunks as int != 0 ==> size == n as int / chunks as int + 1,
        ;
    }
    let info = |c: usize| -> (x: ChunkInfo)
        requires
            fpu.wf(),
            size > 0,
            n == data@.len(),
            c < chunks,
        ensures
            x.full == full(data@, chunk_edge(n as int, size as int, c as int), chunk_edge(n as int, size as int, c + 1)),
            x.full ==> x.total == folded(
                fpu,
                op,
                values(
                    data@.subrange(
                        chunk_edge(n as int, size as int, c as int),
                        chunk_edge(n as int, size as int, c + 1),
                    ),
                ),
            ),
        {
            proof {
                lemma_edges(n as int, size as int, c as int);
            }
            chunk_info(fpu, op, data, edge(n, size, c), edge(n, size, c + 1))
        };
    let infos: Vec<ChunkInfo> = par_for_rayon(chunks, info);
    assert forall|c: int| 0 <= c < infos@.len() implies (#[trigger] infos@[c]).full == full(
        data@,
        chunk_edge(n as int, size as int, c),
        chunk_edge(n as int, size as int, c + 1),
    ) by {
        assert(call_ensures(info, (c as usize,), infos@[c]));
    }
    assert forall|c: int| 0 <= c < infos@.len() && (#[trigger] infos@[c]).full implies infos@[c].total == folded(
        fpu,
        op,
        values(data@.subrange(chunk_edge(n as int, size as int, c), chunk_edge(n as int, size as int, c + 1))),
    ) by {
        assert(call_ensures(info, (c as usize,), infos@[c]));
    }
    let (prefixes, poisoned) = seeds(fpu, op, &infos, Ghost(data@), Ghost(size as int));
    let part = |c: usize| -> (x: Vec<Option<Real>>)
        requires
            fpu.wf(),
            size > 0,
            n == data@.len(),
            c < chunks,
            prefixes@.len() == chunks,
            poisoned@.len() == chunks,
            poisoned@[c as int] == !clear(data@, chunk_edge(n as int, size as int, c as int)),
        ensures
            x@ == Seq::new(
                (chunk_edge(n as int, size as int, c + 1) - chunk_edge(n as int, size as int, c as int)) as nat,
                |k: int|
                    scan_cell(
                        fpu,
                        op,
                        data@,
                        prefixes@[c as int],
                        chunk_edge(n as int, size as int, c as int),
                        chunk_edge(n as int, size as int, c as int) + k,
                    ),
            ),
        {
            proof {
                lemma_edges(n as int, size as int, c as int);
            }
            scan_part(fpu, op, data, edge(n, size, c), edge(n, size, c + 1), prefixes[c], poisoned[c])
        };
    let parts: Vec<Vec<Option<Real>>> = par_for_rayon(chunks, part);
    let ghost want = chunked_scan(fpu, op, data@, size as int);
    let mut out: Vec<Option<Real>> = Vec::new();
    let mut c: usize = 0;
    proof {
        assert(chunk_edge(n as int, size as int, 0) == 0);
    }
    while c < chunks
        invariant
            size > 0,
            n == data@.len(),
            c <= chunks,
            parts@.len() == chunks,
            want == chunked_scan(fpu, op, data@, size as int),
            forall|c: int| 0 <= c < chunks ==> call_ensures(part, (c as usize,), #[trigger] parts@[c]),
            forall|c: int|
                0 <= c < chunks ==> #[trigger] poisoned@[c] == !clear(data@, chunk_edge(n as int, size as int, c)),
            forall|c: int|
                0 <= c < chunks && !poisoned@[c] ==> #[trigger] prefixes@[c] == seed(
                    fpu,
                    op,
                    data@,
                    size as int,
                    c as nat,
                ),
            forall|c: usize, x: Vec<Option<Real>>| #[trigger]
                call_ensures(part, (c,), x) ==> x@ == Seq::new(
                    (chunk_edge(n as int, size as int, c + 1) - chunk_edge(n as int, size as int, c as int)) as nat,
                    |k: int|
                        scan_cell(
                            fpu,
                            op,
                            data@,
                            prefixes@[c as int],
                            chunk_edge(n as int, size as int, c as int),
                            chunk_edge(n as int, size as int, c as int) + k,
                        ),
                ),
            out@ == want.take(chunk_edge(n as int, size as int, c as int)),
        decreases chunks - c,
    {
        let ghost a = chunk_edge(n as int, size as int, c as int);
        let ghost b = chunk_edge(n as int, size as int, c + 1);
        let p: &Vec<Option<Real>> = &parts[c];
        proof {
            lemma_edges(n as int, size as int, c as int);
            assert(call_ensures(part, (c,), parts@[c as int]));
            assert(p@.len() == b - a);
            assert forall|k: int| 0 <= k < p@.len() implies #[trigger] p@[k] == want[a + k] by {
                lemma_in_chunk(n as int, size as int, c as int, a + k);
                assert(poisoned@[c as int] == !clear(data@, a));
                if !poisoned@[c as int] {
                    assert(prefixes@[c as int] == seed(fpu, op, data@, size as int, c as nat));
                } else {
                    assert(!clear(data@, a + k + 1)) by {
                        let w = choose|w: int| 0 <= w < a && !(#[trigger] data@[w] is Some);
                        assert(!(data@[w] is Some));
                    }
                }
            }
        }
        let mut k: usize = 0;
        while k < p.len()
            invariant
                k <= p.len(),
                p@.len() == b - a,
                0 <= a <= b <= want.len(),
                forall|k: int| 0 <= k < p@.len() ==> #[trigger] p@[k] == want[a + k],
                out@ == want.take(a + k),
            decreases p.len() - k,
        {
            out.push(p[k]);
            assert(out@ =~= want.take(a + k + 1));
            k += 1;
        }
        c += 1;
    }
    proof {
        assert(chunk_edge(n as int, size as int, chunks as int) == n);
        assert(want.take(n as int) =~= want);
    }
    out
}

/// Running totals of a column.
pub trait ScanBackend {
    /// The running totals; `cores` is the number of cores to use.
    fn scan<F: Fn(FloatOp, Real, Real, Real) -> Real + Sync>(
        &self,
        fpu: &Fpu<F>,
        op: ScanOp,
        data: &[Option<Real>],
        cores: usize,
    ) -> (r: Vec<Option<Real>>)
        requires
            fpu.wf(),
        ensures
            r@.len() == data@.len(),
            forall|i: int| 0 <= i < data@.len() ==> (#[trigger] r@[i] is Some <==> clear(data@, i + 1)),
    ;
}

impl ScanBackend for SerialBackend {
    fn scan<F: Fn(FloatOp, Real, Real, Real) -> Real + Sync>(
        &self,
        fpu: &Fpu<F>,
        op: ScanOp,
        data: &[Option<Real>],
        cores: usize,
    ) -> (r: Vec<Option<Real>>)
        ensures
            r@ == serial_scan(fpu, op, data@),
    {
        let init: Real = scan_identity(op);
        let r = scan_part(fpu, op, data, 0, data.len(), init, false);
        assert(r@ =~= serial_scan(fpu, op, data@));
        r
    }
}

impl ScanBackend for RayonBackend {
    fn scan<F: Fn(FloatOp, Real, Real, Real) -> Real + Sync>(
        &self,
        fpu: &Fpu<F>,
        op: ScanOp,
        data: &[Option<Real>],
        cores: usize,
    ) -> (r: Vec<Option<Real>>)
        ensures
            r@ == pool_scan(fpu, op, data@, cores as int),
    {
        let n: usize = data.len();
        if n < SCAN_SERIAL {
            return SerialBackend.scan(fpu, op, data, cores);
        }
        parallel_scan(fpu, op, data, num_chunks(n, cores))
    }
}

/// The running totals of a column on the given backend.
pub fn scan<F: Fn(FloatOp, Real, Real, Real) -> Real + Sync>(
    fpu: &Fpu<F>,
    op: ScanOp,
    data: &[Option<Real>],
    on: Backend,
    cores: usize,
) -> (r: Vec<Option<Real>>)
    requires
        fpu.wf(),
    ensures
        on == Backend::Serial ==> r@ == serial_scan(fpu, op, data@),
        on == Backend::Rayon ==> r@ == pool_scan(fpu, op, data@, cores as int),
{
    match on {
        Backend::Serial => SerialBackend.scan(fpu, op, data, cores),
        Backend::Rayon => RayonBackend.scan(fpu, op, data, cores),
    }
}

/// A missing value makes every later running total missing, on both backends.
pub proof fn law_missing_spreads<F: Fn(FloatOp, Real, Real, Real) -> Real>(
    fpu: &Fpu<F>,
    op: ScanOp,
    d: Seq<Option<Real>>,
    cores: int,
    i: int,
    j: int,
)
    requires
        0 <= i <= j < d.len(),
        d[i] is None,
    ensures
        serial_scan(fpu, op, d)[j] is None,
        pool_scan(fpu, op, d, cores)[j] is None,
{
    assert(!clear(d, j + 1));
}

/// Where the step is associative, cutting the column into chunks changes
/// nothing: both backends give the same running totals on any number of cores.
pub proof fn law_scans_agree<F: Fn(FloatOp, Real, Real, Real) -> Real>(
    fpu: &Fpu<F>,
    op: ScanOp,
    dom: spec_fn(Real) -> bool,
    d: Seq<Option<Real>>,
    cores: int,
)
    requires
        monoid(fpu, op, dom),
        forall|i: int| 0 <= i < d.len() ==> (#[trigger] d[i] matches Some(x) ==> dom(x)),
    ensures
        pool_scan(fpu, op, d, cores) == serial_scan(fpu, op, d),
{
    if d.len() >= SCAN_SERIAL {
        let n = d.len() as int;
        let k = chunk_count(n, cores);
        let size = ceil_div(n, k);
        lemma_fundamental_div_mod(n, k);
        assert(size > 0) by (nonlinear_arith)
            requires
                n > 0,
                k > 0,
                n == k * (n / k) + n % k,
                0 <= n % k < k,
                n % k == 0 ==> size == n / k,
                n % k != 0 ==> size == n / k + 1,
        ;
        let a = chunked_scan(fpu, op, d, size);
        let b = serial_scan(fpu, op, d);
        assert forall|i: int| 0 <= i < n implies #[trigger] a[i] == b[i] by {
            lemma_scan_cell(fpu, op, dom, d, size, i);
        }
        assert(a =~= b);
    }
}

proof fn lemma_scan_cell<F: Fn(FloatOp, Real, Real, Real) -> Real>(
    fpu: &Fpu<F>,
    op: ScanOp,
    dom: spec_fn(Real) -> bool,
    d: Seq<Option<Real>>,
    size: int,
    i: int,
)
    requires
        monoid(fpu, op, dom),
        size > 0,
        0 <= i < d.len(),
        forall|i: int| 0 <= i < d.len() ==> (#[trigger] d[i] matches Some(x) ==> dom(x)),
    ensures
        chunked_scan(fpu, op, d, size)[i] == serial_scan(fpu, op, d)[i],
{
    if clear(d, i + 1) {
        let c = i / size;
        lemma_fundamental_div_mod(i, size);
        assert(c >= 0) by (nonlinear_arith)
            requires
                i >= 0,
                size > 0,
                c == i / size,
        ;
        assert(c * size == size * c) by (nonlinear_arith);
        lemma_seed(fpu, op, dom, d, size, c as nat, i);
        let x = values(d.subrange(0, c * size));
        let y = values(d.subrange(c * size, i + 1));
        assert(all_in(dom, x)) by {
            assert forall|j: int| 0 <= j < x.len() implies dom(#[trigger] x[j]) by {
                assert(d[j] is Some);
            }
        }
        assert(all_in(dom, y)) by {
            assert forall|j: int| 0 <= j < y.len() implies dom(#[trigger] y[j]) by {
                assert(d[c * size + j] is Some);
            }
        }
        lemma_folded_joins(fpu, op, dom, x, y);
        lemma_folded_from(fpu, op, dom, folded(fpu, op, x), y);
        assert(x + y =~= values(d.subrange(0, i + 1)));
    }
}

/// Folding from a value is folding and then combining with that value.
proof fn lemma_folded_from<F: Fn(FloatOp, Real, Real, Real) -> Real>(
    fpu: &Fpu<F>,
    op: ScanOp,
    dom: spec_fn(Real) -> bool,
    init: Real,
    s: Seq<Real>,
)
    requires
        monoid(fpu, op, dom),
        dom(init),
        all_in(dom, s),
    ensures
        folded_from(fpu, op, init, s) == combined(fpu, op, init, folded(fpu, op, s)),
        dom(folded(fpu, op, s)),
    decreases s.len(),
{
    if s.len() > 0 {
        lemma_folded_from(fpu, op, dom, init, s.drop_last());
        assert(dom(s.last()));
    }
}

proof fn lemma_seed<F: Fn(FloatOp, Real, Real, Real) -> Real>(
    fpu: &Fpu<F>,
    op: ScanOp,
    dom: spec_fn(Real) -> bool,
    d: Seq<Option<Real>>,
    size: int,
    c: nat,
    i: int,
)
    requires
        monoid(fpu, op, dom),
        size > 0,
        c * size <= i < d.len(),
        clear(d, i + 1),
        forall|i: int| 0 <= i < d.len() ==> (#[trigger] d[i] matches Some(x) ==> dom(x)),
    ensures
        seed(fpu, op, d, size, c) == folded(fpu, op, values(d.subrange(0, c * size))),
    decreases c,
{
    if c == 0 {
        assert(c * size == 0) by (nonlinear_arith)
            requires
                c == 0,
        ;
        assert(values(d.subrange(0, 0)) =~= Seq::<Real>::empty());
    } else {
        assert(0 <= (c - 1) * size && (c - 1) * size + size == c * size) by (nonlinear_arith)
            requires
                c >= 1,
                size > 0,
        ;
        lemma_seed(fpu, op, dom, d, size, (c - 1) as nat, i);
        let x = values(d.subrange(0, (c - 1) * size));
        let y = values(d.subrange((c - 1) * size, c * size));
        assert(all_in(dom, x)) by {
            assert forall|j: int| 0 <= j < x.len() implies dom(#[trigger] x[j]) by {
                assert(d[j] is Some);
            }
        }
        assert(all_in(dom, y)) by {
            assert forall|j: int| 0 <= j < y.len() implies dom(#[trigger] y[j]) by {
                assert(d[(c - 1) * size + j] is Some);
            }
        }
        lemma_folded_joins(fpu, op, dom, x, y);
        assert(x + y =~= values(d.subrange(0, c * size)));
        assert(chunk_edge(d.len() as int, size, c - 1) == (c - 1) * size);
        assert(chunk_edge(d.len() as int, size, c as int) == c * size);
    }
}

/// The running extremes of a column without a NaN are the same on both
/// backends.
pub proof fn law_extreme_scans_agree<F: Fn(FloatOp, Real, Real, Real) -> Real>(
    fpu: &Fpu<F>,
    op: ScanOp,
    d: Seq<Option<Real>>,
    cores: int,
)
    requires
        op == ScanOp::Cummax || op == ScanOp::Cummin,
        crate::kernel::column_free_of_nan(d),
    ensures
        pool_scan(fpu, op, d, cores) == serial_scan(fpu, op, d),
{
    law_extremes_associate(fpu, op);
    law_scans_agree(fpu, op, |x: Real| !x.nan(), d, cores);
}

} // verus!
