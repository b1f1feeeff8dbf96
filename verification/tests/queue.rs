use milkpq::MilkPQ;
use rand::seq::SliceRandom;

#[test]
fn into_sorted_vec() {
    let mut q = MilkPQ::new();
    let mut vs = (0..100).collect::<Vec<u64>>();
    vs.shuffle(&mut rand::thread_rng());
    q.extend_ref(vs);
    let vs = q.into_sorted_vec();
    assert_eq!(vs, (0..100).rev().collect::<Vec<u64>>());
}

#[test]
fn strong_pop() {
    let mut q = MilkPQ::new();
    q.push(1);
    q.push(2);
    assert!(q.strong_pop().is_some());
    assert!(q.strong_pop().is_some());
    assert!(q.strong_pop().is_none());
}

#[test]
fn default_queue_sorts_pushes_descending() {
    let mut q = MilkPQ::default();
    for v in [5u64, 3, 8, 1, 9, 2] {
        q.push(v);
    }
    assert_eq!(q.into_sorted_vec(), vec![9, 8, 5, 3, 2, 1]);
}

#[test]
fn single_shard_pops_current_max() {
    let mut q = MilkPQ::with_queues(1);
    q.push(10);
    q.push(20);
    q.push(5);
    assert_eq!(q.pop(), Some(20));
    assert_eq!(q.pop(), Some(10));
    assert_eq!(q.pop(), Some(5));
    assert_eq!(q.pop(), None);
}

#[test]
fn strong_pop_returns_both_elements() {
    let mut q = MilkPQ::new();
    q.push(1);
    q.push(2);
    let a = q.strong_pop().unwrap();
    let b = q.strong_pop().unwrap();
    let mut got = vec![a, b];
    got.sort();
    assert_eq!(got, vec![1, 2]);
    assert_eq!(q.strong_pop(), None);
}

#[test]
fn drain_empties_the_queue() {
    let mut q = MilkPQ::with_queues(4);
    q.extend(vec![1, 2, 3, 4]);
    let mut out = q.drain();
    out.sort();
    assert_eq!(out, vec![1, 2, 3, 4]);
    assert_eq!(q.strong_pop(), None);
}

#[test]
fn clear_then_strong_pop_is_none() {
    let mut q = MilkPQ::with_capacity(16);
    q.extend_ref(vec![7, 7, 7, 1, 2]);
    q.clear();
    assert_eq!(q.strong_pop(), None);
    assert_eq!(q.pop(), None);
}

#[test]
fn empty_queue_pops_none() {
    let mut q = MilkPQ::new();
    assert_eq!(q.pop(), None);
    assert_eq!(q.strong_pop(), None);
}

#[test]
fn many_shards_few_elements() {
    let mut q = MilkPQ::with_capacity_and_queues(2, 64);
    q.push(11);
    q.push(3);
    let a = q.strong_pop().unwrap();
    let b = q.strong_pop().unwrap();
    let mut got = vec![a, b];
    got.sort();
    assert_eq!(got, vec![3, 11]);
    assert_eq!(q.strong_pop(), None);
}

#[test]
fn from_vec_sorts_like_the_batch() {
    let q = MilkPQ::from_vec(vec![4, 1, 4, 2, 8]);
    assert_eq!(q.into_sorted_vec(), vec![8, 4, 4, 2, 1]);
}

#[test]
fn extend_ref_on_empty_matches_from_vec() {
    let batch = vec![6u64, 2, 9, 2];
    let built = MilkPQ::from_vec(batch.clone());
    let mut extended = MilkPQ::new();
    extended.extend_ref(batch);
    assert_eq!(built.into_sorted_vec(), extended.into_sorted_vec());
}

#[test]
fn into_vec_keeps_duplicates() {
    let q = MilkPQ::from_vec(vec![2, 2, 1]);
    let mut v = q.into_vec();
    v.sort();
    assert_eq!(v, vec![1, 2, 2]);
}

#[test]
fn clone_is_a_deep_copy() {
    let q = MilkPQ::from_vec(vec![1, 2]);
    let mut c = q.clone();
    c.push(3);
    assert_eq!(c.into_sorted_vec(), vec![3, 2, 1]);
    assert_eq!(q.into_sorted_vec(), vec![2, 1]);
}

#[test]
fn repeated_strong_pop_drains_then_none_once() {
    let mut q = MilkPQ::from_vec(vec![5, 1, 9]);
    let mut got = Vec::new();
    for _ in 0..3 {
        got.push(q.strong_pop().unwrap());
    }
    got.sort();
    assert_eq!(got, vec![1, 5, 9]);
    assert_eq!(q.strong_pop(), None);
}

#[test]
fn pushes_survive_routing_to_sampled_shards() {
    let mut q = MilkPQ::with_queues(5);
    for v in 0..50u64 {
        q.push(v);
    }
    let out = q.into_sorted_vec();
    assert_eq!(out, (0..50u64).rev().collect::<Vec<u64>>());
}
