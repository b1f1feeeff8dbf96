//! The striped queue: a fixed array of shards, each a lock-flagged
//! max-heap, with push and relaxed pop routed to a uniformly random
//! shard and the exhaustive operations walking the shards in order.
//!
//! The queue is viewed as the union of the multisets held by its
//! shards. A relaxed `pop` answers for one sampled shard only, so it
//! may report `None` while other shards still hold elements; a
//! `strong_pop` reports `None` exactly when the whole queue is empty.

use vstd::prelude::*;
use vstd::multiset::Multiset;
use vstd::seq_lib::group_to_multiset_ensures;
use vstd::seq_lib::lemma_multiset_commutative;

use crate::heap::Heap;
use crate::heap::sorted_desc;
use crate::heap::lemma_sorted_desc_unique;
use crate::shard::Queue;

verus! {

/// Relies on num_cpus::get, which is documented to always return at
/// least 1 logical CPU.
#[verifier::external_body]
fn logical_cpus() -> (n: usize)
    ensures
        1 <= n,
{
    num_cpus::get()
}

/// Relies on rand's thread-local, entropy-seeded generator and on the
/// Uniform distribution re-exported by rand_distr, which samples the
/// half-open range [0, n): every sample lies below n. Uniform::new
/// panics on an empty range, hence the bound on n.
#[verifier::external_body]
fn sample_index(n: usize) -> (i: usize)
    requires
        1 <= n,
    ensures
        i < n,
{
    rand::Rng::sample(&mut rand::thread_rng(), rand_distr::Uniform::new(0usize, n))
}

/// The union of a sequence of multisets: everything the shards hold.
pub open spec fn union_of(s: Seq<Multiset<u64>>) -> Multiset<u64>
    decreases s.len(),
{
    if s.len() == 0 {
        Multiset::empty()
    } else {
        union_of(s.drop_last()).add(s.last())
    }
}

/// Each part is counted inside the union.
pub proof fn lemma_union_of_member(s: Seq<Multiset<u64>>, i: int, x: u64)
    requires
        0 <= i < s.len(),
    ensures
        union_of(s).count(x) >= s[i].count(x),
    decreases s.len(),
{
    if i < s.len() - 1 {
        lemma_union_of_member(s.drop_last(), i, x);
    }
}

/// Replacing one part changes every count in the union by exactly the
/// difference between the new part and the old.
pub proof fn lemma_union_of_update(s: Seq<Multiset<u64>>, i: int, m: Multiset<u64>)
    requires
        0 <= i < s.len(),
    ensures
        forall|x: u64|
            #![trigger union_of(s.update(i, m)).count(x)]
            union_of(s.update(i, m)).count(x) + s[i].count(x) == union_of(s).count(x) + m.count(
                x,
            ),
    decreases s.len(),
{
    let t = s.update(i, m);
    if i == s.len() - 1 {
        assert(t.drop_last() =~= s.drop_last());
        assert(t.last() == m);
        assert forall|x: u64|
            union_of(t).count(x) + s[i].count(x) == union_of(s).count(x) + m.count(x) by {
            assert(union_of(t) == union_of(s.drop_last()).add(m));
            assert(union_of(s) == union_of(s.drop_last()).add(s[i]));
        }
    } else {
        lemma_union_of_update(s.drop_last(), i, m);
        assert(t.drop_last() =~= s.drop_last().update(i, m));
        assert(t.last() == s.last());
        assert forall|x: u64|
            union_of(t).count(x) + s[i].count(x) == union_of(s).count(x) + m.count(x) by {
            assert(union_of(t) == union_of(s.drop_last().update(i, m)).add(s.last()));
            assert(union_of(s) == union_of(s.drop_last()).add(s.last()));
            assert(union_of(s.drop_last().update(i, m)).count(x) + s.drop_last()[i].count(x)
                == union_of(s.drop_last()).count(x) + m.count(x));
            assert(s.drop_last()[i] == s[i]);
        }
    }
}

/// A union of empty parts is empty.
pub proof fn lemma_union_of_empties(s: Seq<Multiset<u64>>)
    requires
        forall|i: int| 0 <= i < s.len() ==> (#[trigger] s[i]).len() == 0,
    ensures
        union_of(s).len() == 0,
        union_of(s) == Multiset::<u64>::empty(),
    decreases s.len(),
{
    broadcast use vstd::multiset::lemma_multiset_empty_len;

    if s.len() > 0 {
        lemma_union_of_empties(s.drop_last());
        assert(s.last() =~= Multiset::<u64>::empty());
        assert(union_of(s) =~= Multiset::<u64>::empty());
    } else {
        assert(union_of(s) =~= Multiset::<u64>::empty());
    }
}

/// An empty union can only come from empty parts.
pub proof fn lemma_union_of_empty_parts(s: Seq<Multiset<u64>>, i: int)
    requires
        union_of(s).len() == 0,
        0 <= i < s.len(),
    ensures
        s[i].len() == 0,
{
    broadcast use vstd::multiset::lemma_multiset_empty_len;

    if s[i].len() > 0 {
        let x = choose|x: u64| s[i].count(x) > 0;
        lemma_union_of_member(s, i, x);
    }
}

/// Growing the prefix of parts by one grows the union by that part.
pub proof fn lemma_union_of_take_succ(s: Seq<Multiset<u64>>, k: int)
    requires
        0 <= k < s.len(),
    ensures
        union_of(s.take(k + 1)) == union_of(s.take(k)).add(s[k]),
{
    assert(s.take(k + 1).drop_last() =~= s.take(k));
    assert(s.take(k + 1).last() == s[k]);
}

/// Removing an element present in a multiset shrinks it by one.
proof fn lemma_remove_len(m: Multiset<u64>, x: u64)
    requires
        m.count(x) > 0,
    ensures
        m.remove(x).len() + 1 == m.len(),
{
    assert(Multiset::singleton(x).subset_of(m)) by {
        assert(forall|y: u64| y != x ==> Multiset::singleton(x).count(y) == 0);
    }
}

/// The striped, relaxed priority queue.
#[derive(Debug)]
pub struct MilkPQ {
    queues: Vec<Queue>,
}

impl View for MilkPQ {
    type V = Multiset<u64>;

    closed spec fn view(&self) -> Multiset<u64> {
        union_of(self.shards())
    }
}

impl Clone for MilkPQ {
    /// Deep copy: every shard's heap is copied into a fresh shard with
    /// a free lock flag, so the clone holds the same contents shard by
    /// shard, shares no storage with the source, and leaves it
    /// untouched.
    fn clone(&self) -> (res: Self)
        ensures
            res.num_shards() == self.num_shards(),
            forall|i: int| 0 <= i < self.num_shards() ==> res.shard(i) == self.shard(i),
            res@ == self@,
            forall|i: int| 0 <= i < self.num_shards() ==> !(#[trigger] res.shard_held(i)),
            self.wf() ==> res.wf(),
    {
        let n = self.queues.len();
        let mut queues: Vec<Queue> = Vec::new();
        let mut k: usize = 0;
        while k < n
            invariant
                k <= n,
                n == self.queues@.len(),
                queues@.len() == k,
                forall|j: int|
                    0 <= j < k ==> (#[trigger] queues@[j])@ == self.queues@[j]@ && queues@[j].wf()
                        == self.queues@[j].wf() && !queues@[j].is_held(),
            decreases n - k,
        {
            queues.push(self.queues[k].clone());
            k = k + 1;
        }
        let res = MilkPQ { queues };
        proof {
            assert(res.shards() =~= self.shards());
        }
        res
    }
}

/// What one successful routed push did: shard `i` gained exactly `t`
/// and every other shard is untouched, so `t` lands in exactly one
/// shard.
pub open spec fn pushed_shard(pre: MilkPQ, post: MilkPQ, i: int, t: u64) -> bool {
    &&& post.shard(i) == pre.shard(i).insert(t)
    &&& forall|j: int| 0 <= j < pre.num_shards() && j != i ==> post.shard(j) == pre.shard(j)
}

/// What one pop attempt against shard `i` did: either that shard was
/// empty and nothing changed, or its maximum came out and every other
/// shard is untouched.
pub open spec fn popped_shard(pre: MilkPQ, post: MilkPQ, i: int, r: Option<u64>) -> bool {
    match r {
        Option::None => {
            &&& pre.shard(i).len() == 0
            &&& forall|j: int| 0 <= j < pre.num_shards() ==> post.shard(j) == pre.shard(j)
        },
        Option::Some(m) => {
            &&& pre.shard(i).count(m) > 0
            &&& forall|x: u64| #[trigger] pre.shard(i).count(x) > 0 ==> m >= x
            &&& post.shard(i) == pre.shard(i).remove(m)
            &&& forall|j: int| 0 <= j < pre.num_shards() && j != i ==> post.shard(j) == pre.shard(
                j,
            )
        },
    }
}

/// One strong pop, projected to the contents alone: either the queue
/// was empty and `None` changed nothing, or some present element came
/// out. This is exactly what `strong_pop` ensures of the view.
pub open spec fn strong_pop_step(pre: Multiset<u64>, post: Multiset<u64>, r: Option<u64>) -> bool {
    match r {
        Option::None => pre.len() == 0 && post == pre,
        Option::Some(x) => pre.count(x) > 0 && post == pre.remove(x),
    }
}

/// The multiset of values a chain of pop results handed out.
pub open spec fn returned_values(results: Seq<Option<u64>>) -> Multiset<u64>
    decreases results.len(),
{
    if results.len() == 0 {
        Multiset::empty()
    } else {
        match results.first() {
            Option::None => returned_values(results.drop_first()),
            Option::Some(x) => returned_values(results.drop_first()).insert(x),
        }
    }
}

impl MilkPQ {
    /// The contents of each shard, in shard order.
    pub closed spec fn shards(&self) -> Seq<Multiset<u64>> {
        self.queues@.map_values(|q: Queue| q@)
    }

    /// The fixed number of shards.
    pub open spec fn num_shards(&self) -> nat {
        self.shards().len()
    }

    /// The contents of shard `i`.
    pub open spec fn shard(&self, i: int) -> Multiset<u64> {
        self.shards()[i]
    }

    /// Whether the lock flag of shard `i` reads `held`.
    pub closed spec fn shard_held(&self, i: int) -> bool {
        self.queues@[i].is_held()
    }

    /// A queue is well formed when it has at least one shard and every
    /// shard, at rest, is a well-formed heap with a free lock flag.
    pub closed spec fn wf(&self) -> bool {
        &&& self.queues@.len() >= 1
        &&& forall|i: int|
            0 <= i < self.queues@.len() ==> (#[trigger] self.queues@[i]).wf()
                && !self.queues@[i].is_held()
    }

    /// Create a queue with `limit` shards, each with an empty heap of
    /// initial capacity `cap`.
    pub fn with_capacity_and_queues(cap: usize, limit: usize) -> (q: MilkPQ)
        requires
            limit >= 1,
        ensures
            q.wf(),
            q.num_shards() == limit,
            q@ == Multiset::<u64>::empty(),
            forall|i: int| 0 <= i < limit ==> #[trigger] q.shard(i).len() == 0,
    {
        let mut queues: Vec<Queue> = Vec::new();
        while queues.len() < limit
            invariant
                queues@.len() <= limit,
                forall|j: int|
                    0 <= j < queues@.len() ==> (#[trigger] queues@[j]).wf()
                        && !queues@[j].is_held() && queues@[j]@ == Multiset::<u64>::empty(),
            decreases limit - queues.len(),
        {
            queues.push(Queue::new(Heap::with_capacity(cap)));
        }
        let q = MilkPQ { queues };
        proof {
            assert forall|i: int| 0 <= i < limit implies #[trigger] q.shard(i).len() == 0 by {
                assert(q.shard(i) == q.queues@[i]@);
            }
            assert forall|i: int|
                0 <= i < q.shards().len() implies (#[trigger] q.shards()[i]).len() == 0 by {
                assert(q.shards()[i] == q.queues@[i]@);
            }
            lemma_union_of_empties(q.shards());
        }
        q
    }

    /// Create a queue with `limit` shards and no pre-allocated room.
    pub fn with_queues(limit: usize) -> (q: MilkPQ)
        requires
            limit >= 1,
        ensures
            q.wf(),
            q.num_shards() == limit,
            q@ == Multiset::<u64>::empty(),
            forall|i: int| 0 <= i < limit ==> #[trigger] q.shard(i).len() == 0,
    {
        Self::with_capacity_and_queues(0, limit)
    }

    /// Create a queue with the default shard count: four shards per
    /// logical CPU (saturating on absurdly wide machines). The exact
    /// count depends on the machine, but it is always a positive
    /// multiple of four unless saturated.
    pub fn new() -> (q: MilkPQ)
        ensures
            q.wf(),
            q.num_shards() >= 4,
            q.num_shards() % 4 == 0 || q.num_shards() == usize::MAX as nat,
            q@ == Multiset::<u64>::empty(),
    {
        let cpus = logical_cpus();
        let limit: usize = if cpus <= usize::MAX / 4 {
            cpus * 4
        } else {
            usize::MAX
        };
        Self::with_queues(limit)
    }

    /// Push `t` into one uniformly sampled shard. A busy shard would
    /// hand `t` back and the push would re-sample; at rest every flag
    /// is free, so the first attempt lands. The element ends up in
    /// exactly one shard.
    pub fn push(&mut self, t: u64)
        requires
            old(self).wf(),
        ensures
            final(self).wf(),
            final(self).num_shards() == old(self).num_shards(),
            final(self)@ == old(self)@.insert(t),
            exists|i: int|
                0 <= i < old(self).num_shards() && #[trigger] pushed_shard(
                    *old(self),
                    *final(self),
                    i,
                    t,
                ),
    {
        let n = self.queues.len();
        let i = sample_index(n);
        let ghost pre = *self;
        let shard = &mut self.queues[i];
        let r = shard.try_push(t);
        proof {
            assert(r == Ok::<(), u64>(()));
            assert(self.queues@ == pre.queues@.update(i as int, self.queues@[i as int]));
            assert(self.shards() =~= pre.shards().update(i as int, pre.shard(i as int).insert(t)));
            lemma_union_of_update(pre.shards(), i as int, pre.shard(i as int).insert(t));
            assert(self@ =~= pre@.insert(t));
            assert(pushed_shard(pre, *self, i as int, t)) by {
                assert(forall|j: int|
                    0 <= j < pre.num_shards() && j != i as int ==> #[trigger] self.shard(j)
                        == pre.shard(j));
            }
        }
    }

    /// Relaxed pop: pop the maximum of one uniformly sampled shard.
    /// The answer speaks for that shard alone — `None` means the
    /// sampled shard was empty, not that the queue is — so spurious
    /// `None`s are possible while other shards hold elements. A busy
    /// shard would be re-sampled; at rest the first attempt lands.
    pub fn pop(&mut self) -> (r: Option<u64>)
        requires
            old(self).wf(),
        ensures
            final(self).wf(),
            final(self).num_shards() == old(self).num_shards(),
            exists|i: int|
                0 <= i < old(self).num_shards() && #[trigger] popped_shard(
                    *old(self),
                    *final(self),
                    i,
                    r,
                ),
            match r {
                Option::None => final(self)@ == old(self)@,
                Option::Some(m) => {
                    &&& old(self)@.count(m) > 0
                    &&& final(self)@ == old(self)@.remove(m)
                    &&& final(self)@.len() + 1 == old(self)@.len()
                },
            },
            old(self)@.len() == 0 ==> r == Option::<u64>::None,
    {
        let n = self.queues.len();
        let i = sample_index(n);
        let ghost pre = *self;
        let shard = &mut self.queues[i];
        let r = shard.try_pop();
        match r {
            Ok(opt) => {
                proof {
                    assert(self.queues@ == pre.queues@.update(i as int, self.queues@[i as int]));
                    match opt {
                        Option::None => {
                            assert(self.shards() =~= pre.shards());
                            assert(popped_shard(pre, *self, i as int, opt)) by {
                                assert(forall|j: int|
                                    0 <= j < pre.num_shards() ==> #[trigger] self.shard(j)
                                        == pre.shard(j));
                            }
                        },
                        Option::Some(m) => {
                            assert(self.shards() =~= pre.shards().update(
                                i as int,
                                pre.shard(i as int).remove(m),
                            ));
                            lemma_union_of_update(
                                pre.shards(),
                                i as int,
                                pre.shard(i as int).remove(m),
                            );
                            lemma_union_of_member(pre.shards(), i as int, m);
                            assert(self@ =~= pre@.remove(m));
                            lemma_remove_len(pre@, m);
                            assert(popped_shard(pre, *self, i as int, opt)) by {
                                assert(forall|j: int|
                                    0 <= j < pre.num_shards() && j != i as int
                                        ==> #[trigger] self.shard(j) == pre.shard(j));
                            }
                        },
                    }
                    if pre@.len() == 0 {
                        lemma_union_of_empty_parts(pre.shards(), i as int);
                    }
                }
                opt
            },
            Err(_) => {
                proof {
                    assert(false);
                }
                None
            },
        }
    }

    /// Exhaustive pop: walk the shards in index order and return the
    /// maximum of the first non-empty one. Returns `None` exactly when
    /// every shard — that is, the whole queue — is empty, so a
    /// quiescent non-empty queue always yields an element.
    pub fn strong_pop(&mut self) -> (r: Option<u64>)
        requires
            old(self).wf(),
        ensures
            final(self).wf(),
            final(self).num_shards() == old(self).num_shards(),
            strong_pop_step(old(self)@, final(self)@, r),
            match r {
                Option::None => old(self)@.len() == 0 && final(self)@ == old(self)@,
                Option::Some(m) => {
                    &&& old(self)@.count(m) > 0
                    &&& final(self)@ == old(self)@.remove(m)
                    &&& final(self)@.len() + 1 == old(self)@.len()
                    &&& exists|i: int|
                        0 <= i < old(self).num_shards() && (forall|j: int|
                            0 <= j < i ==> #[trigger] old(self).shard(j).len() == 0)
                            && #[trigger] popped_shard(*old(self), *final(self), i, r)
                },
            },
    {
        let n = self.queues.len();
        let mut idx: usize = 0;
        while idx < n
            invariant
                old(self).wf(),
                n == self.queues@.len(),
                idx <= n,
                self.wf(),
                self.shards() == old(self).shards(),
                forall|j: int| 0 <= j < idx ==> #[trigger] old(self).shard(j).len() == 0,
            decreases n - idx,
        {
            let ghost pre = *self;
            let shard = &mut self.queues[idx];
            let r = shard.try_pop();
            match r {
                Ok(Some(m)) => {
                    proof {
                        assert(self.queues@ == pre.queues@.update(
                            idx as int,
                            self.queues@[idx as int],
                        ));
                        assert(self.shards() =~= pre.shards().update(
                            idx as int,
                            pre.shard(idx as int).remove(m),
                        ));
                        lemma_union_of_update(
                            old(self).shards(),
                            idx as int,
                            old(self).shard(idx as int).remove(m),
                        );
                        lemma_union_of_member(old(self).shards(), idx as int, m);
                        assert(self@ =~= old(self)@.remove(m));
                        lemma_remove_len(old(self)@, m);
                        assert(popped_shard(*old(self), *self, idx as int, Some(m))) by {
                            assert(forall|j: int|
                                0 <= j < old(self).num_shards() && j != idx as int
                                    ==> #[trigger] self.shard(j) == old(self).shard(j));
                        }
                    }
                    return Some(m);
                },
                Ok(None) => {
                    proof {
                        assert(self.queues@ == pre.queues@.update(
                            idx as int,
                            self.queues@[idx as int],
                        ));
                        assert(self.shards() =~= pre.shards());
                    }
                },
                Err(_) => {
                    proof {
                        assert(false);
                    }
                },
            }
            idx = idx + 1;
        }
        proof {
            assert forall|i: int|
                0 <= i < self.shards().len() implies (#[trigger] self.shards()[i]).len() == 0 by {
                assert(old(self).shard(i).len() == 0);
            }
            lemma_union_of_empties(self.shards());
        }
        None
    }

    /// Empty every shard, visiting each in turn.
    pub fn clear(&mut self)
        requires
            old(self).wf(),
        ensures
            final(self).wf(),
            final(self).num_shards() == old(self).num_shards(),
            final(self)@ == Multiset::<u64>::empty(),
            forall|i: int|
                0 <= i < final(self).num_shards() ==> #[trigger] final(self).shard(i).len() == 0,
    {
        let n = self.queues.len();
        let mut idx: usize = 0;
        while idx < n
            invariant
                n == self.queues@.len(),
                idx <= n,
                self.wf(),
                self.num_shards() == old(self).num_shards(),
                forall|j: int| 0 <= j < idx ==> #[trigger] self.shard(j).len() == 0,
            decreases n - idx,
        {
            let ghost pre = *self;
            let shard = &mut self.queues[idx];
            shard.clear();
            proof {
                assert(self.queues@ == pre.queues@.update(idx as int, self.queues@[idx as int]));
                assert forall|j: int| 0 <= j < idx as int + 1 implies #[trigger] self.shard(
                    j,
                ).len() == 0 by {
                    if j < idx as int {
                        assert(self.shard(j) == pre.shard(j));
                    }
                }
            }
            idx = idx + 1;
        }
        proof {
            assert forall|i: int|
                0 <= i < self.shards().len() implies (#[trigger] self.shards()[i]).len() == 0 by {
                assert(self.shard(i).len() == 0);
            }
            lemma_union_of_empties(self.shards());
        }
    }

    /// Move every element out into a plain vector, leaving the queue
    /// empty. Exclusive access stands in for the locks: each shard's
    /// heap is swapped out without touching its flag. Order across
    /// shards is unspecified.
    pub fn drain(&mut self) -> (v: Vec<u64>)
        requires
            old(self).wf(),
        ensures
            final(self).wf(),
            final(self).num_shards() == old(self).num_shards(),
            v@.to_multiset() == old(self)@,
            final(self)@ == Multiset::<u64>::empty(),
    {
        let n = self.queues.len();
        let mut out: Vec<u64> = Vec::new();
        let mut idx: usize = 0;
        proof {
            broadcast use group_to_multiset_ensures;

            assert(out@.to_multiset() =~= Multiset::<u64>::empty());
            assert(old(self).shards().take(0) =~= Seq::<Multiset<u64>>::empty());
        }
        while idx < n
            invariant
                n == self.queues@.len(),
                idx <= n,
                self.wf(),
                self.num_shards() == old(self).num_shards(),
                out@.to_multiset() == union_of(old(self).shards().take(idx as int)),
                forall|j: int| 0 <= j < idx ==> #[trigger] self.shard(j).len() == 0,
                forall|j: int|
                    idx <= j < n ==> #[trigger] self.queues@[j] == old(self).queues@[j],
            decreases n - idx,
        {
            let ghost pre = *self;
            let ghost out0 = out@;
            let shard = &mut self.queues[idx];
            let h = shard.take();
            let mut items = h.into_vec();
            let ghost items0 = items@;
            out.append(&mut items);
            proof {
                broadcast use group_to_multiset_ensures;

                assert(self.queues@ == pre.queues@.update(idx as int, self.queues@[idx as int]));
                lemma_multiset_commutative(out0, items0);
                lemma_union_of_take_succ(old(self).shards(), idx as int);
                assert(pre.shard(idx as int) == old(self).shard(idx as int));
                assert(out@.to_multiset() =~= union_of(
                    old(self).shards().take(idx as int + 1),
                ));
                assert forall|j: int| 0 <= j < idx as int + 1 implies #[trigger] self.shard(
                    j,
                ).len() == 0 by {
                    if j < idx as int {
                        assert(self.shard(j) == pre.shard(j));
                    }
                }
            }
            idx = idx + 1;
        }
        proof {
            assert(old(self).shards().take(n as int) =~= old(self).shards());
            assert forall|i: int|
                0 <= i < self.shards().len() implies (#[trigger] self.shards()[i]).len() == 0 by {
                assert(self.shard(i).len() == 0);
            }
            lemma_union_of_empties(self.shards());
        }
        out
    }

    /// Consume the queue into a plain vector of its elements, in
    /// unspecified order.
    pub fn into_vec(self) -> (v: Vec<u64>)
        requires
            self.wf(),
        ensures
            v@.to_multiset() == self@,
    {
        let mut q = self;
        q.drain()
    }

    /// Consume the queue into a vector sorted in descending order:
    /// every element, highest priority first.
    pub fn into_sorted_vec(self) -> (v: Vec<u64>)
        requires
            self.wf(),
        ensures
            sorted_desc(v@),
            v@.to_multiset() == self@,
    {
        let ghost total = self@;
        let items = self.into_vec();
        let mut all = Heap::new();
        let mut k: usize = 0;
        proof {
            broadcast use group_to_multiset_ensures;

            assert(items@.take(0) =~= Seq::<u64>::empty());
            assert(all@ =~= items@.take(0).to_multiset());
        }
        while k < items.len()
            invariant
                k <= items@.len(),
                items@.to_multiset() == total,
                all.wf(),
                all@ == items@.take(k as int).to_multiset(),
            decreases items@.len() - k,
        {
            all.push(items[k]);
            proof {
                broadcast use group_to_multiset_ensures;

                assert(items@.take(k as int + 1) =~= items@.take(k as int).push(items@[k as int]));
            }
            k = k + 1;
        }
        proof {
            assert(items@.take(items@.len() as int) =~= items@);
        }
        all.into_descending_vec()
    }

    /// Push every element of `elems`, each routed to its own sampled
    /// shard. The name records that, concurrently, this bulk insert
    /// needs no exclusive access: every push goes through a shard's
    /// own lock, so shared access suffices there.
    pub fn extend_ref(&mut self, elems: Vec<u64>)
        requires
            old(self).wf(),
        ensures
            final(self).wf(),
            final(self).num_shards() == old(self).num_shards(),
            final(self)@ == old(self)@.add(elems@.to_multiset()),
    {
        let n = elems.len();
        let mut k: usize = 0;
        proof {
            broadcast use group_to_multiset_ensures;

            assert(elems@.take(0) =~= Seq::<u64>::empty());
            assert(self@.add(elems@.take(0).to_multiset()) =~= self@);
        }
        while k < n
            invariant
                k <= n,
                n == elems@.len(),
                self.wf(),
                self.num_shards() == old(self).num_shards(),
                self@ == old(self)@.add(elems@.take(k as int).to_multiset()),
            decreases n - k,
        {
            self.push(elems[k]);
            proof {
                broadcast use group_to_multiset_ensures;

                assert(elems@.take(k as int + 1) =~= elems@.take(k as int).push(elems@[k as int]));
                assert(old(self)@.add(elems@.take(k as int).to_multiset()).insert(elems@[k as int])
                    =~= old(self)@.add(elems@.take(k as int + 1).to_multiset()));
            }
            k = k + 1;
        }
        proof {
            assert(elems@.take(n as int) =~= elems@);
        }
    }

    /// Push every element of `elems`; the exclusive-access twin of
    /// `extend_ref`.
    pub fn extend(&mut self, elems: Vec<u64>)
        requires
            old(self).wf(),
        ensures
            final(self).wf(),
            final(self).num_shards() == old(self).num_shards(),
            final(self)@ == old(self)@.add(elems@.to_multiset()),
    {
        self.extend_ref(elems);
    }

    /// Build a queue holding exactly the elements of `elems`, sizing
    /// each shard's initial capacity by the batch length.
    pub fn from_vec(elems: Vec<u64>) -> (q: MilkPQ)
        ensures
            q.wf(),
            q.num_shards() >= 1,
            q@ == elems@.to_multiset(),
    {
        let mut q = MilkPQ::with_capacity(elems.len());
        let ghost empty_view = q@;
        q.extend_ref(elems);
        proof {
            assert(empty_view.add(elems@.to_multiset()) =~= elems@.to_multiset());
        }
        q
    }

    /// Create a queue with the default shard count, each shard with
    /// initial room for `cap` elements.
    pub fn with_capacity(cap: usize) -> (q: MilkPQ)
        ensures
            q.wf(),
            q.num_shards() >= 4,
            q.num_shards() % 4 == 0 || q.num_shards() == usize::MAX as nat,
            q@ == Multiset::<u64>::empty(),
    {
        let cpus = logical_cpus();
        let limit: usize = if cpus <= usize::MAX / 4 {
            cpus * 4
        } else {
            usize::MAX
        };
        Self::with_capacity_and_queues(cap, limit)
    }
}

impl Default for MilkPQ {
    /// The default queue: the default shard count and no pre-allocated
    /// room, exactly as `new` builds it.
    fn default() -> (q: Self)
        ensures
            q.wf(),
            q.num_shards() >= 4,
            q.num_shards() % 4 == 0 || q.num_shards() == usize::MAX as nat,
            q@ == Multiset::<u64>::empty(),
    {
        MilkPQ::new()
    }
}

/// At rest — whenever the queue is well formed — every shard's lock
/// flag reads free.
pub proof fn lemma_locks_free_at_rest(q: &MilkPQ)
    requires
        q.wf(),
    ensures
        forall|i: int| 0 <= i < q.num_shards() ==> !(#[trigger] q.shard_held(i)),
{
    assert forall|i: int| 0 <= i < q.num_shards() implies !(#[trigger] q.shard_held(i)) by {
        assert(!q.queues@[i].is_held());
    }
}

/// With a single shard the queue degenerates to one lock-flagged
/// max-heap: the whole contents sit in shard 0, so a pop against a
/// one-shard queue returns the current global maximum.
pub proof fn lemma_single_shard_view(q: &MilkPQ)
    requires
        q.num_shards() == 1,
    ensures
        q@ == q.shard(0),
{
    assert(q.shards().drop_last() =~= Seq::<Multiset<u64>>::empty());
    assert(union_of(Seq::<Multiset<u64>>::empty()) == Multiset::<u64>::empty());
    assert(q@ =~= q.shard(0));
}

/// With one shard, a successful pop is the global maximum: after any
/// pushes into an empty one-shard queue, what comes out bounds every
/// element that was present.
pub proof fn lemma_single_shard_pop_is_max(pre: MilkPQ, post: MilkPQ, m: u64)
    requires
        pre.num_shards() == 1,
        popped_shard(pre, post, 0, Some(m)),
    ensures
        pre@.count(m) > 0,
        forall|x: u64| #[trigger] pre@.count(x) > 0 ==> m >= x,
{
    lemma_single_shard_view(&pre);
}

/// A descending drain is pinned by the pushed batch: any two
/// descending-sorted vectors carrying the multiset of the pushes are
/// the same vector, so pushing a batch and sorting it out again can
/// only yield the batch, sorted descending.
pub proof fn lemma_sorted_drain_unique(pushed: Seq<u64>, out1: Seq<u64>, out2: Seq<u64>)
    requires
        sorted_desc(out1),
        out1.to_multiset() == pushed.to_multiset(),
        sorted_desc(out2),
        out2.to_multiset() == pushed.to_multiset(),
    ensures
        out1 == out2,
{
    lemma_sorted_desc_unique(out1, out2);
}

/// Bulk-inserting a batch into an empty queue is observationally the
/// same as building a queue from the batch: both leave the view at
/// exactly the batch's multiset.
pub proof fn lemma_extend_empty_matches_from_vec(before: Multiset<u64>, elems: Seq<u64>)
    requires
        before.len() == 0,
    ensures
        before.add(elems.to_multiset()) == elems.to_multiset(),
{
    broadcast use vstd::multiset::lemma_multiset_empty_len;

    assert(before =~= Multiset::<u64>::empty());
    assert(before.add(elems.to_multiset()) =~= elems.to_multiset());
}

/// Repeated strong pops drain a quiescent queue. Along any chain of
/// view-level outcomes (each the `strong_pop_step` that `strong_pop`
/// ensures) starting from contents of size m and running for m + 1
/// calls: the first m calls all return `Some`, together they hand out
/// exactly the starting contents, and the last call returns `None` —
/// exactly once, at the end, on the then-empty queue.
pub proof fn lemma_strong_pop_drains(views: Seq<Multiset<u64>>, results: Seq<Option<u64>>)
    requires
        views.len() == results.len() + 1,
        results.len() == views.first().len() + 1,
        forall|k: int|
            #![trigger results[k]]
            0 <= k < results.len() ==> strong_pop_step(views[k], views[k + 1], results[k]),
    ensures
        forall|k: int| 0 <= k < results.len() - 1 ==> (#[trigger] results[k]) is Some,
        results.last() is None,
        returned_values(results) == views.first(),
        views.last().len() == 0,
    decreases results.len(),
{
    broadcast use vstd::multiset::lemma_multiset_empty_len;

    let m = views.first().len();
    assert(strong_pop_step(views[0], views[1], results[0]));
    if m == 0 {
        assert(results[0] is None);
        assert(results.last() == results[0]);
        assert(views.last() == views[1]);
        assert(returned_values(results.drop_first()) == Multiset::<u64>::empty());
        assert(returned_values(results) =~= views.first());
    } else {
        assert(results[0] is Some);
        let x = results[0]->Some_0;
        lemma_remove_len(views[0], x);
        let v1 = views.drop_first();
        let r1 = results.drop_first();
        assert(v1.first() == views[1]);
        assert(r1.len() == v1.first().len() + 1);
        assert forall|k: int|
            0 <= k < r1.len() implies #[trigger] strong_pop_step(v1[k], v1[k + 1], r1[k]) by {
            assert(strong_pop_step(views[k + 1], views[k + 2], results[k + 1]));
            assert(v1[k] == views[k + 1]);
            assert(v1[k + 1] == views[k + 2]);
            assert(r1[k] == results[k + 1]);
        }
        lemma_strong_pop_drains(v1, r1);
        assert forall|k: int|
            0 <= k < results.len() - 1 implies (#[trigger] results[k]) is Some by {
            if k >= 1 {
                assert(r1[k - 1] is Some);
            }
        }
        assert(results.last() == r1.last());
        assert(views.last() == v1.last());
        assert(returned_values(results) == returned_values(r1).insert(x));
        assert(returned_values(r1) == v1.first());
        assert(views.first() =~= views[1].insert(x));
    }
}

/// An empty queue holds a count of zero for every element, so a
/// cleared queue's next strong pop can only answer `None`.
pub proof fn lemma_empty_yields_none(m: Multiset<u64>, x: u64)
    requires
        m.len() == 0,
    ensures
        m.count(x) == 0,
{
}

} // verus!
