use ardon_r2::double::Real;
use ardon_r2::memory::{
    Buffer, F64ScratchPool, HeapMeter, PER_BUCKET_CAP, TaskSize, bucket_capacity, bucket_for, heap_used, scratch_acquire,
    scratch_clear, scratch_pool_size, scratch_release, scratch_stats, track_alloc, with_scratch,
};

fn three() -> Vec<Real> {
    [1.0f64, 2.0, 3.0].iter().map(|x| Real { bits: x.to_bits() }).collect()
}

#[test]
fn bucket_for_basic() {
    assert_eq!(bucket_for(0), 0);
    assert_eq!(bucket_for(1), 0);
    assert_eq!(bucket_for(2), 1);
    assert_eq!(bucket_for(3), 2);
    assert_eq!(bucket_for(4), 2);
    assert_eq!(bucket_for(5), 3);
    assert_eq!(bucket_for(1000), 10);
    assert_eq!(bucket_for(1024), 10);
    assert_eq!(bucket_for(1025), 11);
}

#[test]
fn pool_recycles_buffers() {
    let mut p = F64ScratchPool::new();
    let b1 = p.acquire(100);
    assert!(b1.items.capacity() >= 100);
    assert!(b1.room >= 100);
    assert_eq!(b1.items.len(), 0);
    let cap1 = b1.items.capacity();
    p.release(b1);

    let b2 = p.acquire(100);
    assert_eq!(b2.items.capacity(), cap1);
    assert_eq!(b2.room, cap1);
    assert_eq!(b2.items.len(), 0);
    assert_eq!(p.hits, 1);
    assert_eq!(p.misses, 1);
}

#[test]
fn pool_handles_different_sizes() {
    let mut p = F64ScratchPool::new();
    let b1 = p.acquire(100);
    let b2 = p.acquire(1000);
    let b3 = p.acquire(100_000);
    p.release(b1);
    p.release(b2);
    p.release(b3);
    assert_eq!(p.buffer_count(), 3);
    let _ = p.acquire(100);
    assert_eq!(p.hits, 1);
}

#[test]
fn pool_respects_per_bucket_cap() {
    let mut p = F64ScratchPool::new();
    for _ in 0..6 {
        p.release(Buffer::with_room(1024));
    }
    assert_eq!(p.buckets[10].len(), PER_BUCKET_CAP);
}

#[test]
fn pool_returns_clean_len_zero() {
    let mut p = F64ScratchPool::new();
    let mut b = p.acquire(10);
    b.items.extend(three());
    assert_eq!(b.items.len(), 3);
    p.release(b);
    let b2 = p.acquire(10);
    assert_eq!(b2.items.len(), 0, "released buffer should come back with len=0");
}

#[test]
fn with_scratch_releases_on_drop() {
    let mut p = F64ScratchPool::default();
    scratch_clear(&mut p);
    let initial = scratch_pool_size(&p);
    let n = with_scratch(&mut p, 1000, |buf: Buffer| {
        let mut buf = buf;
        buf.items.extend(three());
        (buf.items.len(), buf)
    });
    assert_eq!(n, 3);
    assert_eq!(scratch_pool_size(&p), initial + 1);
}

#[test]
fn thread_local_acquire_release() {
    let mut p = F64ScratchPool::default();
    scratch_clear(&mut p);
    let b = scratch_acquire(&mut p, 500);
    assert!(b.items.capacity() >= 500);
    assert!(b.room >= 500);
    scratch_release(&mut p, b);
    assert_eq!(scratch_pool_size(&p), 1);
    let (_, misses) = scratch_stats(&p);
    assert!(misses >= 1, "first acquire is a miss");
}

#[test]
fn a_recycled_buffer_always_has_the_room_asked_for() {
    let mut p = F64ScratchPool::new();
    p.release(Buffer::with_room(70));
    let b = p.acquire(128);
    assert!(b.room >= 128);
    assert!(b.items.capacity() >= 128);
    p.clear();
    assert_eq!(p.buffer_count(), 0);
}

#[test]
fn each_bucket_holds_powers_of_two() {
    assert_eq!(bucket_capacity(0), 1);
    assert_eq!(bucket_capacity(10), 1024);
    assert_eq!(bucket_for(bucket_capacity(20)), 20);
    assert_eq!(bucket_for(bucket_capacity(20) + 1), 21);
}

#[test]
fn tasks_by_size() {
    assert!(matches!(TaskSize::classify(999_999), TaskSize::Small));
    assert!(matches!(TaskSize::classify(1_000_000), TaskSize::Medium));
    assert!(matches!(TaskSize::classify(100_000_000), TaskSize::Large));
    assert!(!TaskSize::classify(10).should_parallelize());
    assert!(TaskSize::classify(1_000_000).should_parallelize());
}

#[test]
fn allocations_add_up() {
    let mut m = HeapMeter { used: 0 };
    track_alloc(&mut m, 100);
    track_alloc(&mut m, 28);
    assert_eq!(heap_used(&m), 128);
}

#[test]
fn whatever_was_done_the_room_is_enough() {
    let mut p = F64ScratchPool::new();
    for n in [1usize, 5, 64] {
        p.release(Buffer::with_room(n));
    }
    let _ = p.acquire(5);
    p.clear();
    p.release(Buffer::with_room(3));
    assert!(p.acquire(4).room >= 4);
    assert_eq!(scratch_stats(&p), (1, 0));
    assert_eq!(p.acquire(0).room, 1);
}

#[test]
fn a_buffer_without_room_serves_no_request() {
    let mut p = F64ScratchPool::new();
    p.release(Buffer::with_room(0));
    assert_eq!(p.buckets[0].len(), 1);
    let b = p.acquire(1);
    assert_eq!(b.room, 1);
    assert!(b.items.capacity() >= 1);
    assert_eq!(scratch_stats(&p), (1, 0));
}

#[test]
fn a_grown_buffer_is_filed_by_its_capacity() {
    let mut p = F64ScratchPool::new();
    let mut b = p.acquire(10);
    b.items.reserve_exact(1000);
    b.items.extend(three());
    b.items.clear();
    let cap = b.items.capacity();
    assert!(cap >= 1000);
    p.release(b);
    assert_eq!(p.buckets[bucket_for(cap)].len(), 1);
    let again = p.acquire(cap);
    assert_eq!(again.items.capacity(), cap);
    assert_eq!(again.room, cap);
    assert_eq!(scratch_stats(&p), (1, 1));
}

#[test]
fn a_buffer_can_be_filed_under_a_given_capacity() {
    let mut p = F64ScratchPool::new();
    p.release_with(Buffer::with_room(64), 64);
    assert_eq!(p.buckets[6].len(), 1);
    assert_eq!(p.acquire(33).room, 64);
    p.release_with(Buffer::with_room(0), usize::MAX);
    assert_eq!(p.buffer_count(), 0);
}

#[test]
fn a_buffer_filed_too_high_still_gets_its_capacity() {
    let mut p = F64ScratchPool::new();
    p.release_with(Buffer::with_room(0), 64);
    let b = p.acquire(40);
    assert_eq!(b.room, 64);
    assert!(b.items.capacity() >= 40);
    assert!(b.items.is_empty());
    assert_eq!(scratch_stats(&p), (1, 0));
}

#[test]
fn a_recycled_buffer_is_the_one_that_came_back() {
    let mut p = F64ScratchPool::new();
    let mut b = scratch_acquire(&mut p, 100);
    b.items.extend(three());
    let place = b.items.as_ptr();
    scratch_release(&mut p, b);
    let again = scratch_acquire(&mut p, 100);
    assert_eq!(again.items.as_ptr(), place);
    assert!(again.items.is_empty());
}

#[test]
fn a_lent_buffer_has_the_capacity_asked_for() {
    let mut p = F64ScratchPool::new();
    let cap = with_scratch(&mut p, 300, |buf: Buffer| (buf.items.capacity(), buf));
    assert!(cap >= 300);
    assert_eq!(p.buckets[bucket_for(cap)].len(), 1);
}
