use std::rc::Rc;
use std::sync::atomic::{AtomicUsize, Ordering};
use std::sync::{Arc, OnceLock};

use array_pool::pool::{scan_step, ArrayPool, ArrayPoolError, BorrowingSlice, ScanStep};
use array_pool::raw_buffer::RawBuffer;
use array_pool::vec::PooledVec;

fn shared_pool() -> &'static Arc<ArrayPool<u32>> {
    static POOL: OnceLock<Arc<ArrayPool<u32>>> = OnceLock::new();
    POOL.get_or_init(|| Arc::new(ArrayPool::new()))
}

fn simple_pool_test(pool: &ArrayPool<u32>) {
    let mut borrowed = pool.rent_or_create_uninitialized(3).unwrap();
    borrowed.set(1, 1);
    assert_eq!(*borrowed.get(1), 1);
    borrowed.release();
}

#[test]
fn general_test() {
    simple_pool_test(shared_pool());
}

#[test]
fn threading_test() {
    let cloned_pool_1 = shared_pool().clone();
    let cloned_pool_2 = shared_pool().clone();
    let worker_1 = move || {
        let mut slice = cloned_pool_1.rent(11).unwrap();
        slice.set(11, 11);
        slice
    };
    let worker_2 = move || {
        let mut slice = cloned_pool_2.rent_or_create_uninitialized(12).unwrap();
        slice.set(12, 12);
        slice
    };

    let value_1 = worker_1();
    let value_2 = worker_2();

    assert_eq!(*value_1.get(11), 11);
    assert_eq!(*value_2.get(12), 12);
    value_1.release();
    value_2.release();
}

#[test]
fn test_vec() {
    let pool = shared_pool();
    let mut vec: PooledVec<u32> = PooledVec::create(pool.clone());
    assert_eq!(vec.len(), 0);
    for x in 0..12 {
        vec.push(x * 2);
    }
    let mut vec2 = vec.clone();
    let mut curr = 11usize * 2;
    let mut it = 0usize;
    while let Some(x) = vec2.pop() {
        assert_eq!(curr, x as usize);
        curr = curr.overflowing_sub(2).0;
        it += 1;
    }
    assert_eq!(it, 12);
    assert_eq!(vec2.len(), 0);
}

#[test]
fn routes_requests_in_a_two_class_pool() {
    let pool: ArrayPool<u32> = ArrayPool::with_max_power(5).unwrap();
    assert_eq!(pool.min_size(), 8);
    assert_eq!(pool.max_size(), 16);
    assert_eq!(pool.rent(3).unwrap().len(), 8);
    assert_eq!(pool.rent(9).unwrap().len(), 16);
    assert_eq!(pool.rent(17).err(), Some(ArrayPoolError::MaxChunkSizeNotSufficient));
    assert_eq!(pool.rent_empty().len(), 0);
}

#[test]
fn exact_class_sizes_route_to_that_class() {
    let pool: ArrayPool<u32> = ArrayPool::new();
    assert_eq!(pool.rent(0).unwrap().len(), 8);
    assert_eq!(pool.rent(8).unwrap().len(), 8);
    assert_eq!(pool.rent(16).unwrap().len(), 16);
    assert_eq!(pool.rent(17).unwrap().len(), 32);
    assert_eq!(pool.rent(64).unwrap().len(), 64);
    assert_eq!(pool.max_size(), 64);
    assert!(pool.rent(65).is_err());
    assert!(pool.rent_or_create_uninitialized(65).is_err());
}

#[test]
fn too_small_max_power_is_refused() {
    assert_eq!(ArrayPool::<u32>::with_max_power(3).err(), Some(ArrayPoolError::MaxPowerTooSmall));
    assert_eq!(ArrayPool::<u32>::with_max_power(0).err(), Some(ArrayPoolError::MaxPowerTooSmall));
    assert!(ArrayPool::<u32>::with_max_power(4).is_ok());
}

#[test]
fn rent_fills_every_slot_with_defaults() {
    let pool: ArrayPool<u32> = ArrayPool::new();
    let h = pool.rent(5).unwrap();
    for i in 0..h.len() {
        assert!(h.is_set(i));
        assert_eq!(*h.get(i), 0);
    }
    let counter = std::cell::Cell::new(0u32);
    let h2 = pool.rent_minimum_with(&|| { counter.set(counter.get() + 1); 7 }).unwrap();
    assert_eq!(h2.len(), 8);
    assert_eq!(*h2.get(7), 7);
    assert_eq!(counter.get(), 8);
}

#[test]
fn uninitialized_rent_leaves_slots_unwritten() {
    let pool: ArrayPool<u32> = ArrayPool::new();
    let h = pool.rent_or_create_minimum_uninitialized().unwrap();
    assert_eq!(h.len(), 8);
    for i in 0..8 {
        assert!(!h.is_set(i));
    }
}

#[test]
fn release_then_rent_reuses_the_buffer() {
    let pool: ArrayPool<u32> = ArrayPool::new();
    let h = pool.rent(20).unwrap();
    assert_eq!(pool.idle_hint(20), 0);
    h.release();
    assert_eq!(pool.idle_hint(20), 1);
    let again = pool.rent(20).unwrap();
    assert_eq!(again.len(), 32);
    assert_eq!(pool.idle_hint(20), 0);
    assert_eq!(*again.get(31), 0);
}

#[test]
fn idle_buffers_match_the_most_ever_outstanding() {
    let pool: Arc<ArrayPool<u32>> = Arc::new(ArrayPool::new());
    for i in 0..1000u32 {
        let mut a = pool.rent(16).unwrap();
        let mut b = pool.rent(16).unwrap();
        a.set(3, i);
        b.set(4, i);
        a.release();
        b.release();
    }
    assert_eq!(pool.idle_hint(16), 2);
}

#[test]
fn expand_moves_elements_to_the_front() {
    let pool: ArrayPool<u32> = ArrayPool::new();
    let mut h = pool.rent_or_create_uninitialized(8).unwrap();
    for i in 0..8 {
        h.set(i, i as u32 + 100);
    }
    let big = pool.expand_buffer(h).unwrap();
    assert_eq!(big.len(), 16);
    for i in 0..8 {
        assert_eq!(*big.get(i), i as u32 + 100);
    }
    for i in 8..16 {
        assert!(!big.is_set(i));
    }
    let bigger = pool.expand_buffer(big).unwrap();
    assert_eq!(bigger.len(), 32);
    let largest = pool.expand_buffer(bigger).unwrap();
    assert_eq!(largest.len(), 64);
    assert_eq!(*largest.get(7), 107);
    assert_eq!(pool.expand_buffer(largest).err(), Some(ArrayPoolError::MaxChunkSizeNotSufficient));
}

#[test]
fn expand_of_the_empty_sentinel_rents_the_smallest_class() {
    let pool: ArrayPool<u32> = ArrayPool::new();
    let h = pool.expand_buffer(pool.rent_empty()).unwrap();
    assert_eq!(h.len(), 8);
}

#[test]
fn shrink_keeps_the_first_half() {
    let pool: ArrayPool<u32> = ArrayPool::new();
    let mut h = pool.rent_or_create_uninitialized(32).unwrap();
    for i in 0..32 {
        h.set(i, i as u32);
    }
    let small = pool.shrink_buffer(h);
    assert_eq!(small.len(), 16);
    for i in 0..16 {
        assert_eq!(*small.get(i), i as u32);
    }
}

#[test]
fn shrink_without_a_smaller_class_returns_the_input() {
    let pool: ArrayPool<u32> = ArrayPool::new();
    let mut h = pool.rent_or_create_uninitialized(8).unwrap();
    h.set(5, 55);
    let same = pool.shrink_buffer(h);
    assert_eq!(same.len(), 8);
    assert_eq!(*same.get(5), 55);
    assert!(!same.is_set(4));
    let empty = pool.shrink_buffer(pool.rent_empty());
    assert_eq!(empty.len(), 0);
}

#[test]
fn take_empties_a_slot() {
    let pool: ArrayPool<u32> = ArrayPool::new();
    let mut h = pool.rent(1).unwrap();
    h.set(2, 9);
    assert_eq!(h.take(2), Some(9));
    assert!(!h.is_set(2));
    assert_eq!(h.take(2), None);
}

#[test]
fn clone_copies_each_slot() {
    let pool: ArrayPool<u32> = ArrayPool::new();
    let mut h = pool.rent_or_create_uninitialized(10).unwrap();
    for i in 0..16 {
        h.set(i, i as u32 + 1);
    }
    let c: BorrowingSlice<u32> = h.clone();
    assert_eq!(c.len(), 16);
    assert_eq!(*c.get(0), 1);
    assert_eq!(*c.get(15), 16);
}

#[test]
fn clone_front_leaves_the_rest_unwritten() {
    let pool: ArrayPool<u32> = ArrayPool::new();
    let mut h = pool.rent_or_create_uninitialized(8).unwrap();
    h.set(0, 4);
    h.set(1, 5);
    h.set(6, 9);
    let c = h.clone_front(2);
    assert_eq!(c.len(), 8);
    assert_eq!(*c.get(1), 5);
    assert!(!c.is_set(2));
    assert!(!c.is_set(6));
}

#[test]
fn scan_decisions() {
    assert_eq!(scan_step(true, 0), ScanStep::Keep);
    assert_eq!(scan_step(true, 5), ScanStep::Keep);
    assert_eq!(scan_step(false, 0), ScanStep::Purge);
    assert_eq!(scan_step(false, 1), ScanStep::Purge);
    assert_eq!(scan_step(false, 2), ScanStep::Borrow);
}

#[test]
fn vec_capacity_follows_push_and_pop() {
    let pool: Arc<ArrayPool<u32>> = Arc::new(ArrayPool::new());
    let mut v = PooledVec::create(pool);
    v.push(0);
    assert_eq!(v.capacity(), 8);
    for i in 1..8u32 {
        v.push(i);
        assert_eq!(v.capacity(), 8);
    }
    v.push(8);
    assert_eq!(v.capacity(), 16);
    for i in 9..17u32 {
        v.push(i);
    }
    assert_eq!(v.capacity(), 32);
    // 17 elements in 32 slots: popping to 16 keeps 2 * 16 == 32, not below
    v.pop();
    assert_eq!(v.capacity(), 32);
    v.pop();
    assert_eq!(v.capacity(), 16);
    assert_eq!(v.len(), 15);
    while v.len() > 0 {
        v.pop();
    }
    assert_eq!(v.capacity(), 8);
}

#[test]
fn raw_buffer_capacity() {
    let e: RawBuffer<u32> = RawBuffer::empty();
    assert_eq!(e.len(), 0);
    let b: RawBuffer<u32> = RawBuffer::new(12);
    assert_eq!(b.len(), 12);
    let slots = b.into_slots();
    assert_eq!(slots.len(), 12);
    assert!(slots.iter().all(|s| s.is_none()));
    let back = RawBuffer::vacate(vec![Some(1u32), None, Some(3)]);
    assert_eq!(back.len(), 3);
}

#[test]
fn vec_grows_and_shrinks_with_hysteresis() {
    let pool: Arc<ArrayPool<u32>> = Arc::new(ArrayPool::new());
    let mut v = PooledVec::create(pool.clone());
    assert_eq!(v.capacity(), 0);
    assert_eq!(v.pop(), None);
    for i in 0..9u32 {
        v.push(i);
    }
    assert_eq!(v.capacity(), 16);
    assert_eq!(v.at(8), Some(&8));
    assert_eq!(v.at(9), None);
    for _ in 0..2 {
        v.pop();
    }
    assert_eq!(v.len(), 7);
    assert_eq!(v.capacity(), 8);
    assert_eq!(v.at(6), Some(&6));
    assert_eq!(v.clear(), 7);
    assert_eq!(v.len(), 0);
    assert_eq!(v.capacity(), 0);
}

#[test]
fn handle_text_lists_elements_in_order() {
    let pool: ArrayPool<u32> = ArrayPool::with_max_power(4).unwrap();
    let mut h = pool.rent(8).unwrap();
    for i in 0..8 {
        h.set(i, i as u32 * 3);
    }
    assert_eq!(h.to_text(), "[ 0, 3, 6, 9, 12, 15, 18, 21 ]");
}

#[test]
fn vec_text_and_in_place_change() {
    let pool: Arc<ArrayPool<u32>> = Arc::new(ArrayPool::new());
    let mut v = PooledVec::create(pool);
    assert_eq!(v.to_text(), "[  ]");
    v.push(1);
    assert_eq!(v.to_text(), "[ 1 ]");
    v.push(2);
    v.push(3);
    if let Some(x) = v.at_mut(1) {
        *x = 20;
    }
    assert!(v.at_mut(3).is_none());
    assert_eq!(v.to_text(), "[ 1, 20, 3 ]");
}

#[test]
fn handle_get_mut_changes_a_written_slot() {
    let pool: ArrayPool<u32> = ArrayPool::new();
    let mut h = pool.rent_or_create_uninitialized(4).unwrap();
    assert!(h.get_mut(0).is_none());
    h.set(0, 5);
    *h.get_mut(0).unwrap() += 1;
    assert_eq!(*h.get(0), 6);
}

#[test]
fn render_joins_with_commas() {
    assert_eq!(array_pool::listing::render(&vec![]), "[  ]");
    assert_eq!(array_pool::listing::render(&vec!["a".to_string()]), "[ a ]");
    assert_eq!(
        array_pool::listing::render(&vec!["a".to_string(), "bc".to_string(), "d".to_string()]),
        "[ a, bc, d ]"
    );
}

#[test]
fn vec_clone_is_independent() {
    let pool: Arc<ArrayPool<u32>> = Arc::new(ArrayPool::new());
    let mut v = PooledVec::create(pool);
    for i in 0..20u32 {
        v.push(i);
    }
    let mut w = v.clone();
    assert_eq!(w.len(), 20);
    assert_eq!(w.capacity(), 32);
    w.push(100);
    assert_eq!(v.len(), 20);
    assert_eq!(w.at(20), Some(&100));
    assert_eq!(v.at(19), Some(&19));
}

struct DropTestStruct(Rc<AtomicUsize>);

impl DropTestStruct {
    fn new(counter: Rc<AtomicUsize>) -> Self {
        counter.fetch_add(1, Ordering::Relaxed);
        Self(counter)
    }
}

impl Drop for DropTestStruct {
    fn drop(&mut self) {
        self.0.fetch_sub(1, Ordering::Relaxed);
    }
}

#[test]
fn drop_test() {
    let counter_1 = Rc::new(AtomicUsize::default());
    let counter_2 = Rc::new(AtomicUsize::default());
    {
        let mut arr: [DropTestStruct; 1] = [DropTestStruct::new(counter_1.clone())];
        assert_eq!(counter_1.load(Ordering::Relaxed), 1);
        assert_eq!(counter_2.load(Ordering::Relaxed), 0);
        arr[0] = DropTestStruct::new(counter_2.clone());
        assert_eq!(counter_1.load(Ordering::Relaxed), 0);
        assert_eq!(counter_2.load(Ordering::Relaxed), 1);
    }
    assert_eq!(counter_1.load(Ordering::Relaxed), 0);
    assert_eq!(counter_2.load(Ordering::Relaxed), 0);
}

struct Counted(Arc<AtomicUsize>);

impl Counted {
    fn new(live: &Arc<AtomicUsize>) -> Self {
        live.fetch_add(1, Ordering::SeqCst);
        Counted(live.clone())
    }
}

impl Drop for Counted {
    fn drop(&mut self) {
        self.0.fetch_sub(1, Ordering::SeqCst);
    }
}

#[test]
fn elements_are_destructed_exactly_once() {
    let live = Arc::new(AtomicUsize::new(0));
    let pool: ArrayPool<Counted> = ArrayPool::new();
    let mut h = pool.rent_or_create_uninitialized(8).unwrap();
    for i in 0..8 {
        h.set(i, Counted::new(&live));
    }
    assert_eq!(live.load(Ordering::SeqCst), 8);
    let h = pool.expand_buffer(h).unwrap();
    assert_eq!(live.load(Ordering::SeqCst), 8);
    let h = pool.shrink_buffer(h);
    assert_eq!(h.len(), 8);
    assert_eq!(live.load(Ordering::SeqCst), 8);
    let mut h = pool.expand_buffer(h).unwrap();
    h.set(12, Counted::new(&live));
    assert_eq!(live.load(Ordering::SeqCst), 9);
    let h = pool.shrink_buffer(h);
    assert_eq!(live.load(Ordering::SeqCst), 8);
    h.release();
    assert_eq!(live.load(Ordering::SeqCst), 0);
    let again = pool.rent_or_create_uninitialized(8).unwrap();
    assert!(!again.is_set(0));
    assert_eq!(live.load(Ordering::SeqCst), 0);
}
