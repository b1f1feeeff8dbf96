use milkpq::Heap;
use milkpq::Queue;

#[test]
fn try_push() {
    let mut q = Queue::new(Heap::new());
    assert_eq!(q.len(), 0);
    assert_eq!(q.try_push(1), Ok(()));
    assert_eq!(q.len(), 1);
    q.try_acquire();
    assert_eq!(q.try_push(2), Err(2));
    assert_eq!(q.len(), 1);
    q.release();
    assert_eq!(q.try_push(2), Ok(()));
    assert_eq!(q.len(), 2);
}

#[test]
fn try_pop() {
    let mut bheap = Heap::new();
    bheap.push(1);
    bheap.push(2);
    let mut q = Queue::new(bheap);
    assert_eq!(q.len(), 2);
    assert_eq!(q.try_pop(), Ok(Some(2)));
    assert_eq!(q.len(), 1);
    q.try_acquire();
    assert_eq!(q.try_pop(), Err(()));
    assert_eq!(q.len(), 1);
    q.release();
    assert_eq!(q.try_pop(), Ok(Some(1)));
    assert_eq!(q.len(), 0);
    assert_eq!(q.try_pop(), Ok(None));
    assert_eq!(q.len(), 0);
}

#[test]
fn take() {
    let mut bheap = Heap::new();
    bheap.push(1);
    bheap.push(2);
    bheap.push(0);
    let mut q = Queue::new(bheap.clone());
    assert_eq!(bheap.into_sorted_vec(), q.take().into_sorted_vec());
    assert_eq!(q.len(), 0);
}

#[test]
fn queue_clear() {
    let mut bheap = Heap::new();
    bheap.push(1);
    bheap.push(2);
    let mut q = Queue::new(bheap);
    q.clear();
    assert_eq!(q.len(), 0);
}

#[test]
fn heap_pops_in_descending_order() {
    let mut h = Heap::new();
    for v in [4u64, 9, 1, 7, 9, 0] {
        h.push(v);
    }
    assert_eq!(h.len(), 6);
    assert!(!h.is_empty());
    assert_eq!(h.pop(), Some(9));
    assert_eq!(h.pop(), Some(9));
    assert_eq!(h.pop(), Some(7));
    assert_eq!(h.pop(), Some(4));
    assert_eq!(h.pop(), Some(1));
    assert_eq!(h.pop(), Some(0));
    assert_eq!(h.pop(), None);
    assert!(h.is_empty());
}

#[test]
fn heap_sorted_vecs() {
    let mut h = Heap::with_capacity(8);
    for v in [3u64, 1, 4, 1, 5] {
        h.push(v);
    }
    assert_eq!(h.clone().into_sorted_vec(), vec![1, 1, 3, 4, 5]);
    assert_eq!(h.into_descending_vec(), vec![5, 4, 3, 1, 1]);
}

#[test]
fn heap_clear_and_into_vec() {
    let mut h = Heap::new();
    h.push(2);
    h.push(8);
    h.clear();
    assert_eq!(h.len(), 0);
    h.push(6);
    let mut v = h.into_vec();
    v.sort();
    assert_eq!(v, vec![6]);
}

#[test]
fn shard_clone_has_same_contents_and_free_flag() {
    let mut h = Heap::new();
    h.push(4);
    h.push(6);
    let mut q = Queue::new(h);
    q.try_acquire();
    let mut c = q.clone();
    assert_eq!(c.len(), 2);
    assert_eq!(c.try_pop(), Ok(Some(6)));
    assert_eq!(q.len(), 2);
    assert_eq!(q.try_pop(), Err(()));
}

#[test]
fn shard_lock_flag_round_trip() {
    let mut q = Queue::new(Heap::new());
    assert!(q.try_acquire());
    assert!(!q.try_acquire());
    q.release();
    assert!(q.try_acquire());
}
