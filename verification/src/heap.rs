//! A binary max-heap of `u64` values backed by a `Vec`, viewed as the
//! multiset of its elements. One heap backs each shard of the striped
//! queue.

use vstd::prelude::*;
use vstd::multiset::Multiset;
use vstd::seq_lib::group_to_multiset_ensures;

verus! {

/// Index of the parent of the (non-root) node at index `i` in the
/// implicit binary tree laid out over the backing sequence.
pub open spec fn parent_idx(i: int) -> int {
    (i - 1) / 2
}

/// The max-heap property: every non-root node is bounded by its parent.
pub open spec fn is_max_heap(s: Seq<u64>) -> bool {
    forall|i: int| 1 <= i < s.len() ==> s[parent_idx(i)] >= #[trigger] s[i]
}

/// `s` is sorted in descending order.
pub open spec fn sorted_desc(s: Seq<u64>) -> bool {
    forall|i: int, j: int| #![trigger s[i], s[j]] 0 <= i <= j < s.len() ==> s[i] >= s[j]
}

/// `s` is sorted in ascending order.
pub open spec fn sorted_asc(s: Seq<u64>) -> bool {
    forall|i: int, j: int| #![trigger s[i], s[j]] 0 <= i <= j < s.len() ==> s[i] <= s[j]
}

/// Basic facts about the parent index of a non-root node.
proof fn lemma_parent_idx(i: int)
    requires
        i >= 1,
    ensures
        0 <= parent_idx(i) < i,
        i == 2 * parent_idx(i) + 1 || i == 2 * parent_idx(i) + 2,
{
}

/// `s` with the elements at `i` and `j` exchanged.
spec fn swapped(s: Seq<u64>, i: int, j: int) -> Seq<u64> {
    s.update(i, s[j]).update(j, s[i])
}

/// The max-heap property except possibly on the edge from the parent of
/// `hole` into `hole` itself.
spec fn heap_except_edge_into(s: Seq<u64>, hole: int) -> bool {
    forall|i: int| 1 <= i < s.len() && i != hole ==> s[parent_idx(i)] >= #[trigger] s[i]
}

/// When `hole` is not the root, the parent of `hole` already bounds the
/// children of `hole` (the value sifting up may pass between them).
spec fn above_hole(s: Seq<u64>, hole: int) -> bool {
    hole > 0 ==> forall|c: int|
        1 <= c < s.len() && parent_idx(c) == hole ==> s[parent_idx(hole)] >= #[trigger] s[c]
}

/// One sift-up step: exchanging a node that exceeds its parent with that
/// parent moves the hole to the parent and keeps the rest of the heap
/// shape intact.
proof fn lemma_sift_up_swap(s: Seq<u64>, h: int)
    requires
        1 <= h < s.len(),
        heap_except_edge_into(s, h),
        above_hole(s, h),
        s[parent_idx(h)] < s[h],
    ensures
        heap_except_edge_into(swapped(s, parent_idx(h), h), parent_idx(h)),
        above_hole(swapped(s, parent_idx(h), h), parent_idx(h)),
{
    let p = parent_idx(h);
    lemma_parent_idx(h);
    let t = swapped(s, p, h);
    assert forall|i: int| 1 <= i < t.len() && i != p implies t[parent_idx(i)] >= #[trigger] t[i] by {
        lemma_parent_idx(i);
        if i == h {
        } else if parent_idx(i) == h {
            assert(s[p] >= s[i]);
        } else if parent_idx(i) == p {
            assert(s[p] >= s[i]);
        } else {
            assert(t[parent_idx(i)] == s[parent_idx(i)]);
            assert(t[i] == s[i]);
        }
    }
    if p > 0 {
        assert forall|c: int|
            1 <= c < t.len() && parent_idx(c) == p implies t[parent_idx(p)] >= #[trigger] t[c] by {
            lemma_parent_idx(c);
            lemma_parent_idx(p);
            assert(t[parent_idx(p)] == s[parent_idx(p)]);
            assert(s[parent_idx(p)] >= s[p]);
            if c == h {
                assert(t[c] == s[p]);
            } else {
                assert(t[c] == s[c]);
                assert(s[p] >= s[c]);
            }
        }
    }
}

/// The max-heap property except possibly on the edges from `hole` into
/// its children.
spec fn heap_except_edges_from(s: Seq<u64>, hole: int) -> bool {
    forall|i: int| 1 <= i < s.len() && parent_idx(i) != hole ==> s[parent_idx(i)] >= #[trigger] s[i]
}

/// One sift-down step: exchanging a node with its largest child `c`
/// (which exceeds it) moves the hole down to `c` and keeps the rest of
/// the heap shape intact.
proof fn lemma_sift_down_swap(s: Seq<u64>, h: int, c: int)
    requires
        0 <= h < s.len(),
        1 <= c < s.len(),
        parent_idx(c) == h,
        heap_except_edges_from(s, h),
        above_hole(s, h),
        s[h] < s[c],
        forall|j: int| 1 <= j < s.len() && parent_idx(j) == h ==> s[c] >= #[trigger] s[j],
    ensures
        heap_except_edges_from(swapped(s, h, c), c),
        above_hole(swapped(s, h, c), c),
{
    lemma_parent_idx(c);
    let t = swapped(s, h, c);
    assert forall|i: int|
        1 <= i < t.len() && parent_idx(i) != c implies t[parent_idx(i)] >= #[trigger] t[i] by {
        lemma_parent_idx(i);
        if i == c {
            assert(t[h] == s[c] && t[c] == s[h]);
        } else if i == h {
            lemma_parent_idx(h);
            assert(t[parent_idx(h)] == s[parent_idx(h)]);
            assert(s[parent_idx(h)] >= s[c]);
        } else if parent_idx(i) == h {
            assert(t[i] == s[i]);
            assert(s[c] >= s[i]);
        } else {
            assert(t[parent_idx(i)] == s[parent_idx(i)]);
            assert(t[i] == s[i]);
            assert(s[parent_idx(i)] >= s[i]);
        }
    }
    assert forall|gc: int|
        1 <= gc < t.len() && parent_idx(gc) == c implies t[parent_idx(c)] >= #[trigger] t[gc] by {
        lemma_parent_idx(gc);
        assert(s[c] >= s[gc]);
        assert(t[gc] == s[gc]);
        assert(t[parent_idx(c)] == s[c]);
    }
}

/// Two descending-sorted sequences carrying the same multiset of
/// elements are the same sequence: a sorted drain is pinned down by
/// the contents alone.
pub proof fn lemma_sorted_desc_unique(a: Seq<u64>, b: Seq<u64>)
    requires
        sorted_desc(a),
        sorted_desc(b),
        a.to_multiset() == b.to_multiset(),
    ensures
        a == b,
    decreases a.len(),
{
    broadcast use group_to_multiset_ensures;

    assert(a.to_multiset().len() == a.len());
    assert(b.to_multiset().len() == b.len());
    if a.len() == 0 {
        assert(a =~= b);
    } else {
        assert(b.len() == a.len());
        assert(a.contains(a[0]));
        assert(a.to_multiset().count(a[0]) > 0);
        assert(b.to_multiset().count(a[0]) > 0);
        assert(b.contains(a[0]));
        let ja = choose|j: int| 0 <= j < b.len() && b[j] == a[0];
        assert(b[0] >= b[ja]);
        assert(b.contains(b[0]));
        assert(b.to_multiset().count(b[0]) > 0);
        assert(a.to_multiset().count(b[0]) > 0);
        assert(a.contains(b[0]));
        let jb = choose|j: int| 0 <= j < a.len() && a[j] == b[0];
        assert(a[0] >= a[jb]);
        assert(a[0] == b[0]);
        let a1 = a.remove(0);
        let b1 = b.remove(0);
        assert(a1.to_multiset() == a.to_multiset().remove(a[0]));
        assert(b1.to_multiset() == b.to_multiset().remove(b[0]));
        assert(sorted_desc(a1)) by {
            assert forall|i: int, j: int|
                #![trigger a1[i], a1[j]]
                0 <= i <= j < a1.len() implies a1[i] >= a1[j] by {
                assert(a1[i] == a[i + 1]);
                assert(a1[j] == a[j + 1]);
            }
        }
        assert(sorted_desc(b1)) by {
            assert forall|i: int, j: int|
                #![trigger b1[i], b1[j]]
                0 <= i <= j < b1.len() implies b1[i] >= b1[j] by {
                assert(b1[i] == b[i + 1]);
                assert(b1[j] == b[j + 1]);
            }
        }
        lemma_sorted_desc_unique(a1, b1);
        assert(a =~= b) by {
            assert forall|i: int| 0 <= i < a.len() implies a[i] == b[i] by {
                if i >= 1 {
                    assert(a[i] == a1[i - 1]);
                    assert(b[i] == b1[i - 1]);
                }
            }
        }
    }
}

/// In a max-heap the root bounds every element.
pub proof fn lemma_root_is_max(s: Seq<u64>, i: int)
    requires
        is_max_heap(s),
        0 <= i < s.len(),
    ensures
        s[0] >= s[i],
    decreases i,
{
    if i >= 1 {
        lemma_parent_idx(i);
        lemma_root_is_max(s, parent_idx(i));
    }
}

/// A binary max-heap of `u64` values.
#[derive(Debug)]
pub struct Heap {
    data: Vec<u64>,
}

impl View for Heap {
    type V = Multiset<u64>;

    closed spec fn view(&self) -> Multiset<u64> {
        self.data@.to_multiset()
    }
}

impl Clone for Heap {
    /// Deep copy: a fresh backing vector holding the same elements in
    /// the same order, so the clone has the same contents and the same
    /// shape as the source, which is left untouched.
    fn clone(&self) -> (res: Self)
        ensures
            res@ == self@,
            res.wf() == self.wf(),
    {
        let res = Heap { data: self.data.clone() };
        proof {
            assert(res.data@ =~= self.data@);
        }
        res
    }
}

/// Swap the elements at indices `i` and `j`, keeping the multiset of
/// elements unchanged.
fn swap_elems(v: &mut Vec<u64>, i: usize, j: usize)
    requires
        i < old(v).len(),
        j < old(v).len(),
    ensures
        final(v)@ == old(v)@.update(i as int, old(v)@[j as int]).update(
            j as int,
            old(v)@[i as int],
        ),
        final(v)@.to_multiset() == old(v)@.to_multiset(),
        final(v)@.len() == old(v)@.len(),
{
    let ghost s = v@;
    let a = v[i];
    let b = v[j];
    v[i] = b;
    v[j] = a;
    proof {
        broadcast use group_to_multiset_ensures;

        let s1 = s.update(i as int, b);
        let s2 = s1.update(j as int, a);
        assert(v@ == s2);
        if i == j {
            assert(s2 =~= s);
        } else {
            assert(s1[j as int] == b);
            assert(s1.to_multiset() == s.to_multiset().insert(b).remove(a));
            assert(s2.to_multiset() == s1.to_multiset().insert(a).remove(b));
            assert(s.to_multiset().count(a) > 0);
            assert(s2.to_multiset() =~= s.to_multiset());
        }
    }
}

impl Heap {
    /// The heap-shape invariant on the backing vector.
    pub closed spec fn wf(&self) -> bool {
        is_max_heap(self.data@)
    }

    /// Create an empty heap.
    pub fn new() -> (h: Heap)
        ensures
            h.wf(),
            h@ == Multiset::<u64>::empty(),
            h@.len() == 0,
    {
        let h = Heap { data: Vec::new() };
        proof {
            broadcast use group_to_multiset_ensures;

            assert(h.data@.to_multiset() =~= Multiset::<u64>::empty());
        }
        h
    }

    /// Create an empty heap whose backing vector starts with room for
    /// `cap` elements.
    pub fn with_capacity(cap: usize) -> (h: Heap)
        ensures
            h.wf(),
            h@ == Multiset::<u64>::empty(),
            h@.len() == 0,
    {
        let h = Heap { data: Vec::with_capacity(cap) };
        proof {
            broadcast use group_to_multiset_ensures;

            assert(h.data@.to_multiset() =~= Multiset::<u64>::empty());
        }
        h
    }

    /// Number of elements held.
    pub fn len(&self) -> (n: usize)
        ensures
            n == self@.len(),
    {
        proof {
            broadcast use group_to_multiset_ensures;
        }
        self.data.len()
    }

    /// Whether the heap holds no elements.
    pub fn is_empty(&self) -> (b: bool)
        ensures
            b <==> self@.len() == 0,
    {
        proof {
            broadcast use group_to_multiset_ensures;
        }
        self.data.len() == 0
    }

    /// Remove every element.
    pub fn clear(&mut self)
        ensures
            final(self).wf(),
            final(self)@ == Multiset::<u64>::empty(),
    {
        self.data.clear();
        proof {
            broadcast use group_to_multiset_ensures;

            assert(self.data@.to_multiset() =~= Multiset::<u64>::empty());
        }
    }

    /// Insert `t`, restoring the heap shape by sifting it up from the
    /// freshly appended slot.
    pub fn push(&mut self, t: u64)
        requires
            old(self).wf(),
        ensures
            final(self).wf(),
            final(self)@ == old(self)@.insert(t),
            final(self)@.len() == old(self)@.len() + 1,
    {
        proof {
            broadcast use group_to_multiset_ensures;
        }
        let ghost m1 = self.data@.to_multiset().insert(t);
        self.data.push(t);
        let mut h: usize = self.data.len() - 1;
        loop
            invariant
                h < self.data@.len(),
                self.data@.to_multiset() == m1,
                heap_except_edge_into(self.data@, h as int),
                above_hole(self.data@, h as int),
            ensures
                self.data@.to_multiset() == m1,
                is_max_heap(self.data@),
            decreases h,
        {
            if h == 0 {
                break;
            }
            let p: usize = (h - 1) / 2;
            proof {
                lemma_parent_idx(h as int);
                assert(p as int == parent_idx(h as int));
            }
            if self.data[p] >= self.data[h] {
                break;
            }
            let ghost s = self.data@;
            swap_elems(&mut self.data, p, h);
            proof {
                lemma_sift_up_swap(s, h as int);
            }
            h = p;
        }
        proof {
            broadcast use group_to_multiset_ensures;
        }
    }

    /// Remove and return the maximum element, or `None` on an empty
    /// heap. The last element replaces the root and sifts down.
    #[verifier::rlimit(100)]
    pub fn pop(&mut self) -> (r: Option<u64>)
        requires
            old(self).wf(),
        ensures
            final(self).wf(),
            match r {
                Option::None => old(self)@.len() == 0 && final(self)@ == old(self)@,
                Option::Some(m) => {
                    &&& old(self)@.count(m) > 0
                    &&& final(self)@ == old(self)@.remove(m)
                    &&& final(self)@.len() + 1 == old(self)@.len()
                    &&& forall|x: u64| #[trigger] old(self)@.count(x) > 0 ==> m >= x
                },
            },
    {
        proof {
            broadcast use group_to_multiset_ensures;
        }
        let n = self.data.len();
        if n == 0 {
            return None;
        }
        let ghost s0 = self.data@;
        proof {
            assert forall|i: int| 0 <= i < s0.len() implies s0[0] >= #[trigger] s0[i] by {
                lemma_root_is_max(s0, i);
            }
        }
        swap_elems(&mut self.data, 0, n - 1);
        let m = self.data.pop().unwrap();
        let ghost mrem = s0.to_multiset().remove(m);
        proof {
            broadcast use group_to_multiset_ensures;

            assert(m == s0[0]);
            assert(swapped(s0, 0, n - 1) =~= self.data@.push(m));
            assert(s0.to_multiset() == self.data@.to_multiset().insert(m));
            assert(self.data@.to_multiset() =~= mrem);
            assert(heap_except_edges_from(self.data@, 0)) by {
                assert forall|i: int|
                    1 <= i < self.data@.len() && parent_idx(i) != 0 implies self.data@[parent_idx(
                    i,
                )] >= #[trigger] self.data@[i] by {
                    lemma_parent_idx(i);
                    assert(self.data@[i] == s0[i]);
                    assert(self.data@[parent_idx(i)] == s0[parent_idx(i)]);
                }
            }
        }
        let len = self.data.len();
        if len > 0 {
            let mut h: usize = 0;
            loop
                invariant
                    len == self.data@.len(),
                    h < len,
                    self.data@.to_multiset() == mrem,
                    heap_except_edges_from(self.data@, h as int),
                    above_hole(self.data@, h as int),
                ensures
                    self.data@.to_multiset() == mrem,
                    is_max_heap(self.data@),
                decreases len - h,
            {
                if h >= len / 2 {
                    proof {
                        assert forall|i: int| 1 <= i < self.data@.len() implies self.data@[
                            parent_idx(i)] >= #[trigger] self.data@[i] by {
                            lemma_parent_idx(i);
                        }
                    }
                    break;
                }
                let l: usize = 2 * h + 1;
                let c: usize = if l + 1 < len && self.data[l + 1] > self.data[l] {
                    l + 1
                } else {
                    l
                };
                proof {
                    assert(parent_idx(l as int) == h as int);
                    assert(l + 1 < len ==> parent_idx(l as int + 1) == h as int);
                    assert forall|j: int|
                        1 <= j < self.data@.len() && parent_idx(j) == h as int implies self.data@[
                        c as int] >= #[trigger] self.data@[j] by {
                        lemma_parent_idx(j);
                    }
                }
                if self.data[h] >= self.data[c] {
                    proof {
                        assert forall|i: int| 1 <= i < self.data@.len() implies self.data@[
                            parent_idx(i)] >= #[trigger] self.data@[i] by {
                            lemma_parent_idx(i);
                        }
                    }
                    break;
                }
                let ghost s = self.data@;
                swap_elems(&mut self.data, h, c);
                proof {
                    lemma_sift_down_swap(s, h as int, c as int);
                }
                h = c;
            }
        }
        proof {
            broadcast use group_to_multiset_ensures;

            assert forall|x: u64| #[trigger] old(self)@.count(x) > 0 implies m >= x by {
                assert(s0.contains(x));
                let i = choose|i: int| 0 <= i < s0.len() && s0[i] == x;
                assert(s0[0] >= s0[i]);
            }
        }
        Some(m)
    }

    /// Surrender the elements as a plain vector, in unspecified order.
    pub fn into_vec(self) -> (v: Vec<u64>)
        ensures
            v@.to_multiset() == self@,
    {
        self.data
    }

    /// Consume the heap into a vector sorted in descending order, by
    /// popping the maximum until nothing is left.
    pub fn into_descending_vec(self) -> (v: Vec<u64>)
        requires
            self.wf(),
        ensures
            sorted_desc(v@),
            v@.to_multiset() == self@,
    {
        let mut h = self;
        let ghost total = h@;
        let mut out: Vec<u64> = Vec::new();
        proof {
            broadcast use group_to_multiset_ensures;

            assert(out@.to_multiset().add(h@) =~= total);
        }
        loop
            invariant
                h.wf(),
                out@.to_multiset().add(h@) == total,
                sorted_desc(out@),
                forall|k: int, x: u64|
                    #![trigger out@[k], h@.count(x)]
                    0 <= k < out@.len() && h@.count(x) > 0 ==> out@[k] >= x,
            ensures
                out@.to_multiset() == total,
                sorted_desc(out@),
            decreases h@.len(),
        {
            let ghost out0 = out@;
            let ghost hm0 = h@;
            match h.pop() {
                Some(m) => {
                    out.push(m);
                    proof {
                        broadcast use group_to_multiset_ensures;

                        assert(out@.to_multiset() =~= out0.to_multiset().insert(m));
                        assert(out@.to_multiset().add(h@) =~= total);
                        assert(sorted_desc(out@)) by {
                            assert forall|i: int, j: int|
                                #![trigger out@[i], out@[j]]
                                0 <= i <= j < out@.len() implies out@[i] >= out@[j] by {
                                if j == out@.len() - 1 && i < j {
                                    assert(hm0.count(m) > 0);
                                    assert(out0[i] >= m);
                                }
                            }
                        }
                        assert forall|k: int, x: u64|
                            #![trigger out@[k], h@.count(x)]
                            0 <= k < out@.len() && h@.count(x) > 0 implies out@[k] >= x by {
                            assert(hm0.count(x) > 0);
                            if k < out@.len() - 1 {
                                assert(out0[k] >= x);
                            }
                        }
                    }
                }
                None => {
                    proof {
                        broadcast use vstd::multiset::lemma_multiset_empty_len;

                        assert(h@ =~= Multiset::<u64>::empty());
                        assert(out@.to_multiset() =~= total);
                    }
                    break;
                }
            }
        }
        out
    }

    /// Consume the heap into a vector sorted in ascending order.
    pub fn into_sorted_vec(self) -> (v: Vec<u64>)
        requires
            self.wf(),
        ensures
            sorted_asc(v@),
            v@.to_multiset() == self@,
    {
        let ghost total = self@;
        let desc = self.into_descending_vec();
        let mut out: Vec<u64> = Vec::new();
        let mut i: usize = desc.len();
        while i > 0
            invariant
                i <= desc@.len(),
                sorted_desc(desc@),
                desc@.to_multiset() == total,
                out@.len() == desc@.len() - i,
                forall|k: int|
                    0 <= k < out@.len() ==> #[trigger] out@[k] == desc@[desc@.len() - 1 - k],
            decreases i,
        {
            i = i - 1;
            let x = desc[i];
            out.push(x);
        }
        proof {
            broadcast use group_to_multiset_ensures;

            assert(out@ =~= desc@.reverse());
            desc@.lemma_reverse_to_multiset();
        }
        out
    }
}

} // verus!
