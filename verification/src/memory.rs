//! Heap accounting and a pool of recyclable buffers.
//!
//! Buffers are grouped by the power of two that their room rounds up to. The
//! pool keeps at most a few per group, so that a workload with many sizes does
//! not hoard memory.
use crate::double::Real;
use vstd::arithmetic::power2::{lemma_pow2_pos, lemma_pow2_strictly_increases, lemma_pow2_unfold, lemma2_to64, pow2};
use vstd::prelude::*;

verus! {

/// How large a task is.
#[derive(Clone, Copy, PartialEq, Eq, Structural, Debug)]
pub enum TaskSize {
    Small,
    Medium,
    Large,
}

impl TaskSize {
    pub fn classify(n: usize) -> (r: TaskSize)
        ensures
            r is Small <==> n < 1_000_000,
            r is Medium <==> 1_000_000 <= n < 100_000_000,
            r is Large <==> 100_000_000 <= n,
    {
        if n < 1_000_000 {
            TaskSize::Small
        } else if n < 100_000_000 {
            TaskSize::Medium
        } else {
            TaskSize::Large
        }
    }

    pub fn should_parallelize(&self) -> (r: bool)
        ensures
            r == (*self !is Small),
    {
        match self {
            TaskSize::Small => false,
            _ => true,
        }
    }
}

/// A counter of allocated bytes.
#[derive(Debug)]
pub struct HeapMeter {
    pub used: usize,
}

/// Counts an allocation. The counter wraps around, as a machine counter does.
pub fn track_alloc(meter: &mut HeapMeter, bytes: usize)
    ensures
        final(meter).used == if old(meter).used + bytes > usize::MAX {
            old(meter).used + bytes - usize::MAX - 1
        } else {
            old(meter).used + bytes
        },
{
    meter.used = meter.used.wrapping_add(bytes);
}

/// The bytes counted so far.
pub fn heap_used(meter: &HeapMeter) -> (r: usize)
    ensures
        r == meter.used,
{
    meter.used
}

// ── Groups ─────────────────────────────────────────────────────────────────

/// The highest group.
pub const MAX_BUCKET: usize = 28;

/// How many buffers a group holds at most.
pub const PER_BUCKET_CAP: usize = 4;

/// `b` is the smallest number such that two to the `b` is at least `cap`.
pub open spec fn is_bucket(cap: nat, b: nat) -> bool {
    &&& cap <= pow2(b)
    &&& b > 0 ==> pow2((b - 1) as nat) < cap
}

/// The group of a capacity.
pub open spec fn bucket(cap: nat) -> nat {
    choose|b: nat| is_bucket(cap, b)
}

/// A capacity has one group.
pub proof fn law_bucket_unique(cap: nat, b: nat)
    requires
        is_bucket(cap, b),
    ensures
        bucket(cap) == b,
{
    let c = bucket(cap);
    assert(is_bucket(cap, c));
    if c < b {
        if c < b - 1 {
            lemma_pow2_strictly_increases(c, (b - 1) as nat);
        }
    } else if b < c {
        if b < c - 1 {
            lemma_pow2_strictly_increases(b, (c - 1) as nat);
        }
    }
}

/// The smallest group whose buffers have room for `cap` items.
pub fn bucket_for(cap: usize) -> (r: usize)
    ensures
        is_bucket(cap as nat, r as nat),
        r == bucket(cap as nat),
{
    let mut b: usize = 0;
    let mut p: u128 = 1;
    proof {
        lemma2_to64();
    }
    while p < cap as u128
        invariant
            p == pow2(b as nat),
            b > 0 ==> pow2((b - 1) as nat) < cap,
            b <= 64,
            b > 0 ==> p < 2 * (cap as int),
        decreases 2 * (cap as int) - p,
    {
        proof {
            lemma_pow2_unfold((b + 1) as nat);
            vstd::arithmetic::power2::lemma2_to64_rest();
            if b == 64 {
                assert(pow2(64) == 0x1_0000_0000_0000_0000);
            }
            lemma_pow2_pos(b as nat);
        }
        p = p * 2;
        b = b + 1;
    }
    proof {
        law_bucket_unique(cap as nat, b as nat);
    }
    b
}

/// The room of a fresh buffer of a group.
pub fn bucket_capacity(bucket: usize) -> (r: usize)
    requires
        pow2(bucket as nat) <= usize::MAX,
    ensures
        r == pow2(bucket as nat),
{
    let mut b: usize = 0;
    let mut p: usize = 1;
    proof {
        lemma2_to64();
    }
    while b < bucket
        invariant
            b <= bucket,
            p == pow2(b as nat),
            pow2(bucket as nat) <= usize::MAX,
        decreases bucket - b,
    {
        proof {
            lemma_pow2_unfold((b + 1) as nat);
            if b + 1 < bucket {
                lemma_pow2_strictly_increases((b + 1) as nat, bucket as nat);
            }
        }
        p = p * 2;
        b = b + 1;
    }
    p
}

// ── The pool ───────────────────────────────────────────────────────────────

/// A buffer and the number of items that it has room for: what it was made
/// for, or, once it is in a pool, the capacity that was measured when it came
/// back.
#[derive(Debug)]
pub struct Buffer {
    pub items: Vec<Real>,
    pub room: usize,
}

impl Buffer {
    /// An empty buffer with room for `room` items.
    pub fn with_room(room: usize) -> (r: Buffer)
        requires
            room * 8 <= isize::MAX,
        ensures
            r.items@ == Seq::<Real>::empty(),
            r.room == room,
            roomy(&r.items, room as nat),
    {
        let mut items: Vec<Real> = Vec::with_capacity(room);
        reserve_room(&mut items, room);
        Buffer { items, room }
    }
}

// ── Capacity ───────────────────────────────────────────────────────────────

/// `Vec::capacity` of std: how many items the vector can hold without
/// allocating again. It is never below the length. Nothing else is stated: how
/// much an allocation gives beyond what was asked for is up to the allocator.
#[verifier::external_body]
fn capacity_of(items: &Vec<Real>) -> (r: usize)
    ensures
        r >= items@.len(),
{
    items.capacity()
}

/// `cap` is a capacity that measuring the vector gives.
pub closed spec fn measured(items: &Vec<Real>, cap: usize) -> bool {
    call_ensures(capacity_of, (items,), cap)
}

/// The vector can hold `n` items without allocating again: no capacity that
/// measuring it gives is less.
pub open spec fn roomy(items: &Vec<Real>, n: nat) -> bool {
    forall|cap: usize| #[trigger] measured(items, cap) ==> cap >= n
}

/// `Vec::reserve_exact` of std: afterwards the vector can hold `more` items
/// beside those in it, which stay as they are. Where it could already, nothing
/// happens. It panics where the capacity would exceed `isize::MAX` bytes.
#[verifier::external_body]
fn reserve_room(items: &mut Vec<Real>, more: usize)
    requires
        (old(items)@.len() + more) * 8 <= isize::MAX,
    ensures
        final(items)@ == old(items)@,
        roomy(final(items), old(items)@.len() + more as nat),
{
    items.reserve_exact(more)
}

/// The capacity of a vector.
fn measure(items: &Vec<Real>) -> (r: usize)
    ensures
        measured(items, r),
        r >= items@.len(),
{
    let f = capacity_of;
    f(items)
}

/// What a pool holds: the rooms of the buffers in each group, and how often a
/// request was met from it or not.
#[verifier::ext_equal]
pub struct PoolState {
    pub rooms: Seq<Seq<nat>>,
    pub hits: nat,
    pub misses: nat,
}

impl PoolState {
    pub open spec fn wf(self) -> bool {
        &&& self.rooms.len() == MAX_BUCKET + 1
        &&& forall|b: int| 0 <= b <= MAX_BUCKET ==> (#[trigger] self.rooms[b]).len() <= PER_BUCKET_CAP
    }

    /// A request for `n` items: the pool afterwards, and the room of the buffer.
    pub open spec fn acquired(self, n: nat) -> (PoolState, nat) {
        let b = bucket(n) as int;
        if b > MAX_BUCKET {
            (PoolState { misses: self.misses + 1, ..self }, n)
        } else if self.rooms[b].len() > 0 {
            let room = self.rooms[b].last();
            (
                PoolState { rooms: self.rooms.update(b, self.rooms[b].drop_last()), hits: self.hits + 1, ..self },
                if room >= n {
                    room
                } else {
                    pow2(b as nat)
                },
            )
        } else {
            (PoolState { misses: self.misses + 1, ..self }, pow2(b as nat))
        }
    }

    /// The room of the buffer that a request for `n` items allocates; nothing
    /// where a pooled one is handed out.
    pub open spec fn fresh(self, n: nat) -> Option<nat> {
        let b = bucket(n) as int;
        if b > MAX_BUCKET {
            Some(n)
        } else if self.rooms[b].len() > 0 && self.rooms[b].last() >= n {
            None
        } else {
            Some(pow2(b as nat))
        }
    }

    /// A request for `n` items can be met: that many, and what it allocates, are a
    /// valid allocation at eight bytes an item, and its counter is not full.
    pub open spec fn servable(self, n: nat) -> bool {
        &&& n * 8 <= isize::MAX
        &&& self.fresh(n) is Some ==> self.fresh(n)->0 * 8 <= isize::MAX
        &&& self.acquired(n).0.hits <= usize::MAX
        &&& self.acquired(n).0.misses <= usize::MAX
    }

    /// The pool after a buffer with the given room comes back.
    pub open spec fn released(self, room: nat) -> PoolState {
        let b = bucket(room) as int;
        if b > MAX_BUCKET || self.rooms[b].len() >= PER_BUCKET_CAP {
            self
        } else {
            PoolState { rooms: self.rooms.update(b, self.rooms[b].push(room)), ..self }
        }
    }

    /// The number of buffers in the first `b` groups.
    pub open spec fn count(self, b: nat) -> nat
        decreases b,
    {
        if b == 0 {
            0
        } else {
            self.count((b - 1) as nat) + self.rooms[b - 1].len()
        }
    }

    /// An empty pool.
    pub open spec fn empty() -> PoolState {
        PoolState { rooms: Seq::new((MAX_BUCKET + 1) as nat, |b: int| Seq::<nat>::empty()), hits: 0, misses: 0 }
    }
}

pub open spec fn bucket_rooms(v: Seq<Buffer>) -> Seq<nat> {
    Seq::new(v.len(), |i: int| v[i].room as nat)
}

/// A bounded pool of buffers.
#[derive(Debug)]
pub struct F64ScratchPool {
    pub buckets: Vec<Vec<Buffer>>,
    pub hits: usize,
    pub misses: usize,
}

impl F64ScratchPool {
    pub open spec fn state(&self) -> PoolState {
        PoolState {
            rooms: Seq::new(self.buckets@.len(), |b: int| bucket_rooms(self.buckets@[b]@)),
            hits: self.hits as nat,
            misses: self.misses as nat,
        }
    }

    /// The groups are bounded, and every pooled buffer is empty.
    pub open spec fn wf(&self) -> bool {
        &&& self.state().wf()
        &&& forall|b: int, i: int|
            0 <= b < self.buckets@.len() && 0 <= i < self.buckets@[b]@.len() ==> (#[trigger] self.buckets@[b]@[i]).items@.len()
                == 0
    }

    pub fn new() -> (r: F64ScratchPool)
        ensures
            r.wf(),
            r.state() == PoolState::empty(),
    {
        let mut buckets: Vec<Vec<Buffer>> = Vec::new();
        let mut b: usize = 0;
        while b <= MAX_BUCKET
            invariant
                b <= MAX_BUCKET + 1,
                buckets@.len() == b,
                forall|i: int| 0 <= i < b ==> (#[trigger] buckets@[i])@.len() == 0,
            decreases MAX_BUCKET + 1 - b,
        {
            buckets.push(Vec::with_capacity(PER_BUCKET_CAP));
            b += 1;
        }
        let r = F64ScratchPool { buckets, hits: 0, misses: 0 };
        proof {
            assert forall|i: int| 0 <= i <= MAX_BUCKET implies (#[trigger] r.state().rooms[i]) =~= Seq::<nat>::empty() by {
                assert(r.buckets@[i]@.len() == 0);
            }
            assert(r.state().rooms =~= PoolState::empty().rooms);
        }
        r
    }

    /// An empty buffer with room for at least `min_cap` items, from the pool
    /// where it holds one of that group. The room is what the vector was asked to
    /// hold, or the capacity measured when it came back.
    pub fn acquire(&mut self, min_cap: usize) -> (r: Buffer)
        requires
            old(self).wf(),
            old(self).state().servable(min_cap as nat),
        ensures
            final(self).wf(),
            r.items@ == Seq::<Real>::empty(),
            roomy(&r.items, min_cap as nat),
            r.room >= min_cap,
            (final(self).state(), r.room as nat) == old(self).state().acquired(min_cap as nat),
    {
        let ghost before = *self;
        let b: usize = bucket_for(min_cap);
        if b > MAX_BUCKET {
            self.misses = self.misses + 1;
            assert(self.state() =~= before.state().acquired(min_cap as nat).0);
            return Buffer::with_room(min_cap);
        }
        proof {
            lemma2_to64();
            if b < MAX_BUCKET {
                lemma_pow2_strictly_increases(b as nat, MAX_BUCKET as nat);
            }
            if b > 0 {
                lemma_pow2_unfold(b as nat);
            }
            assert(self.buckets@.len() == MAX_BUCKET + 1);
            assert(self.state().rooms[b as int] == bucket_rooms(self.buckets@[b as int]@));
        }
        if self.buckets[b].len() > 0 {
            let mut own: Vec<Buffer> = Vec::new();
            std::mem::swap(&mut own, &mut self.buckets[b]);
            let ghost held = own@;
            let buf: Buffer = match own.pop() {
                Some(x) => x,
                None => Buffer { items: Vec::new(), room: 0 },
            };
            assert(buf == held.last());
            std::mem::swap(&mut own, &mut self.buckets[b]);
            self.hits = self.hits + 1;
            proof {
                assert(before.buckets@[b as int]@[held.len() - 1].items@.len() == 0);
                assert(bucket_rooms(held.drop_last()) =~= bucket_rooms(held).drop_last());
                assert(self.buckets@[b as int]@ == held.drop_last());
                let want = before.state().acquired(min_cap as nat).0;
                assert(self.state().rooms =~= want.rooms) by {
                    assert forall|i: int| 0 <= i <= MAX_BUCKET implies self.state().rooms[i] == want.rooms[i] by {}
                }
                assert forall|c: int, i: int|
                    0 <= c < self.buckets@.len() && 0 <= i < self.buckets@[c]@.len() implies (
                #[trigger] self.buckets@[c]@[i]).items@.len() == 0 by {
                    assert(self.buckets@[c]@[i] == before.buckets@[c]@[i]);
                }
                assert forall|c: int| 0 <= c <= MAX_BUCKET implies (#[trigger] self.state().rooms[c]).len()
                    <= PER_BUCKET_CAP by {
                    assert(before.state().rooms[c].len() <= PER_BUCKET_CAP);
                }
            }
            if buf.room >= min_cap {
                let mut items: Vec<Real> = buf.items;
                assert(items@ =~= Seq::<Real>::empty());
                reserve_room(&mut items, min_cap);
                return Buffer { items, room: buf.room };
            }
            return Buffer::with_room(bucket_capacity(b));
        }
        self.misses = self.misses + 1;
        assert(self.state() =~= before.state().acquired(min_cap as nat).0);
        Buffer::with_room(bucket_capacity(b))
    }

    /// Takes a buffer back, emptied, unless its group is full or it is too
    /// large to keep. It is filed by the capacity that it has now, whatever it
    /// was made for.
    pub fn release(&mut self, buf: Buffer)
        requires
            old(self).wf(),
        ensures
            final(self).wf(),
            exists|cap: usize| #[trigger]
                measured(&buf.items, cap) && cap >= buf.items@.len() && final(self).state() == old(self).state().released(
                    cap as nat,
                ),
    {
        let cap: usize = measure(&buf.items);
        self.release_with(buf, cap)
    }

    /// Takes back a buffer of the given capacity, emptied, unless its group is
    /// full or it is too large to keep.
    pub fn release_with(&mut self, buf: Buffer, room: usize)
        requires
            old(self).wf(),
        ensures
            final(self).wf(),
            final(self).state() == old(self).state().released(room as nat),
    {
        let ghost before = *self;
        let mut items: Vec<Real> = buf.items;
        let b: usize = bucket_for(room);
        if b > MAX_BUCKET {
            return;
        }
        proof {
            assert(self.buckets@.len() == MAX_BUCKET + 1);
            assert(self.state().rooms[b as int] == bucket_rooms(self.buckets@[b as int]@));
        }
        if self.buckets[b].len() >= PER_BUCKET_CAP {
            return;
        }
        items.clear();
        let kept = Buffer { items, room };
        let mut own: Vec<Buffer> = Vec::new();
        std::mem::swap(&mut own, &mut self.buckets[b]);
        let ghost prior = own@;
        own.push(kept);
        std::mem::swap(&mut own, &mut self.buckets[b]);
        proof {
            assert(bucket_rooms(prior.push(kept)) =~= bucket_rooms(prior).push(room as nat));
            assert(self.buckets@[b as int]@ == prior.push(kept));
            let want = before.state().released(room as nat);
            assert(self.state().rooms =~= want.rooms);
            assert forall|c: int, i: int|
                0 <= c < self.buckets@.len() && 0 <= i < self.buckets@[c]@.len() implies (
            #[trigger] self.buckets@[c]@[i]).items@.len() == 0 by {
                if c != b || i < prior.len() {
                    assert(self.buckets@[c]@[i] == before.buckets@[c]@[i]);
                }
            }
            assert forall|c: int| 0 <= c <= MAX_BUCKET implies (#[trigger] self.state().rooms[c]).len()
                <= PER_BUCKET_CAP by {
                assert(before.state().rooms[c].len() <= PER_BUCKET_CAP);
            }
        }
    }

    /// Drops all pooled buffers and forgets the statistics.
    pub fn clear(&mut self)
        requires
            old(self).wf(),
        ensures
            final(self).wf(),
            final(self).state() == PoolState::empty(),
    {
        let fresh: F64ScratchPool = F64ScratchPool::new();
        *self = fresh;
    }

    /// The number of pooled buffers.
    pub fn buffer_count(&self) -> (r: usize)
        requires
            self.wf(),
        ensures
            r == self.state().count((MAX_BUCKET + 1) as nat),
            r <= (MAX_BUCKET + 1) * PER_BUCKET_CAP,
    {
        let mut n: usize = 0;
        let mut b: usize = 0;
        while b <= MAX_BUCKET
            invariant
                self.wf(),
                b <= MAX_BUCKET + 1,
                n == self.state().count(b as nat),
                n <= b * PER_BUCKET_CAP,
            decreases MAX_BUCKET + 1 - b,
        {
            assert(self.buckets@.len() == MAX_BUCKET + 1);
            assert(self.state().rooms[b as int] == bucket_rooms(self.buckets@[b as int]@));
            n += self.buckets[b].len();
            b += 1;
        }
        n
    }
}

impl Default for F64ScratchPool {
    fn default() -> (r: F64ScratchPool)
        ensures
            r.wf(),
            r.state() == PoolState::empty(),
    {
        F64ScratchPool::new()
    }
}

/// A buffer from the pool.
pub fn scratch_acquire(pool: &mut F64ScratchPool, min_cap: usize) -> (r: Buffer)
    requires
        old(pool).wf(),
        old(pool).state().servable(min_cap as nat),
    ensures
        final(pool).wf(),
        r.items@ == Seq::<Real>::empty(),
        roomy(&r.items, min_cap as nat),
        r.room >= min_cap,
        (final(pool).state(), r.room as nat) == old(pool).state().acquired(min_cap as nat),
{
    pool.acquire(min_cap)
}

/// Gives a buffer back to the pool.
pub fn scratch_release(pool: &mut F64ScratchPool, buf: Buffer)
    requires
        old(pool).wf(),
    ensures
        final(pool).wf(),
        exists|cap: usize| #[trigger]
            measured(&buf.items, cap) && cap >= buf.items@.len() && final(pool).state() == old(pool).state().released(
                cap as nat,
            ),
{
    pool.release(buf)
}

/// `f` works on an empty buffer that has at least the given room.
pub open spec fn works<R, F: FnOnce(Buffer) -> (R, Buffer)>(f: F, min_cap: usize) -> bool {
    forall|b: Buffer|
        b.items@.len() == 0 && b.room >= min_cap && roomy(&b.items, min_cap as nat) ==> #[trigger] call_requires(f, (b,))
}

/// Runs `f` on a buffer from the pool and gives the buffer back. `f` takes the
/// buffer and hands it back with its result.
pub fn with_scratch<R, F: FnOnce(Buffer) -> (R, Buffer)>(pool: &mut F64ScratchPool, min_cap: usize, f: F) -> (r: R)
    requires
        old(pool).wf(),
        old(pool).state().servable(min_cap as nat),
        works(f, min_cap),
    ensures
        final(pool).wf(),
        exists|b: Buffer, o: (R, Buffer), cap: usize| #[trigger]
            call_ensures(f, (b,), o) && #[trigger] measured(&o.1.items, cap) && b.items@.len() == 0 && roomy(
                &b.items,
                min_cap as nat,
            ) && b.room as nat == old(pool).state().acquired(min_cap as nat).1 && r == o.0 && cap >= o.1.items@.len()
                && final(pool).state() == old(pool).state().acquired(min_cap as nat).0.released(cap as nat),
{
    let buf: Buffer = scratch_acquire(pool, min_cap);
    let out: (R, Buffer) = f(buf);
    let (r, back) = out;
    scratch_release(pool, back);
    r
}

/// The number of buffers in the pool.
pub fn scratch_pool_size(pool: &F64ScratchPool) -> (r: usize)
    requires
        pool.wf(),
    ensures
        r == pool.state().count((MAX_BUCKET + 1) as nat),
{
    pool.buffer_count()
}

/// How many requests the pool met, and how many it did not.
pub fn scratch_stats(pool: &F64ScratchPool) -> (r: (usize, usize))
    ensures
        r == (pool.hits, pool.misses),
{
    (pool.hits, pool.misses)
}

/// Resets the pool.
pub fn scratch_clear(pool: &mut F64ScratchPool)
    requires
        old(pool).wf(),
    ensures
        final(pool).wf(),
        final(pool).state() == PoolState::empty(),
{
    pool.clear()
}

/// A buffer that was given back comes out again on the next request of its
/// group that it has room for, and the pool is as it was but for the hit.
pub proof fn law_recycles(s: PoolState, room: nat, n: nat)
    requires
        s.wf(),
        bucket(room) == bucket(n),
        bucket(n) <= MAX_BUCKET,
        s.rooms[bucket(n) as int].len() < PER_BUCKET_CAP,
        n <= room,
    ensures
        s.released(room).acquired(n) == (PoolState { hits: s.hits + 1, ..s }, room),
{
    let b = bucket(n) as int;
    let t = s.released(room);
    assert(t.rooms[b].drop_last() =~= s.rooms[b]);
    assert(t.acquired(n).0.rooms =~= s.rooms);
}

/// What is done with a pool.
pub enum Step {
    Acquire { n: nat },
    Release { room: nat },
    Clear,
}

/// A new pool after a sequence of steps.
pub open spec fn after(steps: Seq<Step>) -> PoolState
    decreases steps.len(),
{
    if steps.len() == 0 {
        PoolState::empty()
    } else {
        let s = after(steps.drop_last());
        match steps.last() {
            Step::Acquire { n } => s.acquired(n).0,
            Step::Release { room } => s.released(room),
            Step::Clear => PoolState::empty(),
        }
    }
}

/// Whatever was done with a pool, it is within its bounds, and a request is
/// met with at least the room asked for.
pub proof fn law_room_enough(steps: Seq<Step>, n: nat)
    ensures
        after(steps).wf(),
        after(steps).acquired(n).1 >= n,
    decreases steps.len(),
{
    if steps.len() > 0 {
        law_room_enough(steps.drop_last(), n);
        let s = after(steps.drop_last());
        match steps.last() {
            Step::Acquire { n } => law_bounded(s, n, 0),
            Step::Release { room } => law_bounded(s, 0, room),
            Step::Clear => {},
        }
    }
    lemma_bucket(n);
}

/// A pool can meet a request after any sequence of fewer than `usize::MAX`
/// steps, where what the request may allocate is a valid allocation: for up to
/// two to the 28 items it is one on every machine whose addresses have more than
/// 32 bits.
pub proof fn law_always_servable(steps: Seq<Step>, n: nat)
    requires
        steps.len() < usize::MAX,
    ensures
        bucket(n) <= MAX_BUCKET && pow2(bucket(n)) * 8 <= isize::MAX ==> after(steps).servable(n),
        bucket(n) > MAX_BUCKET && n * 8 <= isize::MAX ==> after(steps).servable(n),
        n <= 0x1000_0000 && isize::MAX > 0x7fff_ffff ==> after(steps).servable(n),
{
    lemma_counters(steps);
    lemma_bucket(n);
    let b = bucket(n);
    lemma2_to64();
    if n <= 0x1000_0000 && b > MAX_BUCKET {
        if b > MAX_BUCKET + 1 {
            lemma_pow2_strictly_increases(MAX_BUCKET as nat, (b - 1) as nat);
        }
    }
    if b < MAX_BUCKET {
        lemma_pow2_strictly_increases(b, MAX_BUCKET as nat);
    }
}

/// Each step counts at most one request.
proof fn lemma_counters(steps: Seq<Step>)
    ensures
        after(steps).hits + after(steps).misses <= steps.len(),
    decreases steps.len(),
{
    if steps.len() > 0 {
        lemma_counters(steps.drop_last());
    }
}

proof fn lemma_bucket(n: nat)
    ensures
        is_bucket(n, bucket(n)),
{
    if exists|b: nat| n <= pow2(b) && is_bucket(n, b) {
    } else {
        lemma_bucket_below(n, n);
    }
}

/// Some group below `b` or at it fits, where `b` is large enough.
proof fn lemma_bucket_below(n: nat, b: nat)
    ensures
        n <= pow2(b) ==> exists|c: nat| is_bucket(n, c),
        b < pow2(b),
    decreases b,
{
    lemma2_to64();
    if b > 0 {
        lemma_bucket_below(n, (b - 1) as nat);
        lemma_pow2_unfold(b);
    }
    if n <= pow2(b) && !(b > 0 && n <= pow2((b - 1) as nat)) {
        assert(is_bucket(n, b));
    }
}

/// No sequence of requests and returns lets a group grow past its bound: each
/// step keeps the pool within bounds.
pub proof fn law_bounded(s: PoolState, n: nat, room: nat)
    requires
        s.wf(),
    ensures
        s.acquired(n).0.wf(),
        s.released(room).wf(),
{
    let t = s.acquired(n).0;
    assert forall|b: int| 0 <= b <= MAX_BUCKET implies (#[trigger] t.rooms[b]).len() <= PER_BUCKET_CAP by {
        assert(s.rooms[b].len() <= PER_BUCKET_CAP);
    }
    let u = s.released(room);
    assert forall|b: int| 0 <= b <= MAX_BUCKET implies (#[trigger] u.rooms[b]).len() <= PER_BUCKET_CAP by {
        assert(s.rooms[b].len() <= PER_BUCKET_CAP);
    }
}

} // verus!
