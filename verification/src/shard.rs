//! One shard of the striped queue: a binary max-heap guarded by a
//! one-bit lock flag.
//!
//! The flag is the only state machine here: `free` and `held`, with
//! `free -> held` on a successful try-acquire and `held -> free` on
//! release. The try-operations attempt the acquisition once and report
//! `busy` instead of waiting, exactly as a compare-and-swap loop-free
//! attempt would; ownership of a pushed element returns to the caller
//! on failure.

use vstd::prelude::*;
use vstd::multiset::Multiset;

use crate::heap::Heap;

verus! {

/// A max-heap of `u64` values behind a one-bit lock flag.
#[derive(Debug)]
pub struct Queue {
    heap: Heap,
    held: bool,
}

impl View for Queue {
    type V = Multiset<u64>;

    closed spec fn view(&self) -> Multiset<u64> {
        self.heap@
    }
}

impl Clone for Queue {
    /// Deep copy of the heap behind a fresh, free lock flag; the
    /// source shard is left untouched.
    fn clone(&self) -> (res: Self)
        ensures
            res@ == self@,
            res.wf() == self.wf(),
            !res.is_held(),
    {
        Queue { heap: self.heap.clone(), held: false }
    }
}

impl Queue {
    /// The shard is well formed when its heap is.
    pub closed spec fn wf(&self) -> bool {
        self.heap.wf()
    }

    /// Whether the lock flag currently reads `held`.
    pub closed spec fn is_held(&self) -> bool {
        self.held
    }

    /// Wrap a heap in a shard whose flag starts out free.
    pub fn new(heap: Heap) -> (q: Queue)
        requires
            heap.wf(),
        ensures
            q.wf(),
            !q.is_held(),
            q@ == heap@,
    {
        Queue { heap, held: false }
    }

    /// One acquisition attempt on the lock flag: succeeds exactly when
    /// the flag was free, and never touches the heap.
    pub fn try_acquire(&mut self) -> (ok: bool)
        ensures
            final(self).wf() == old(self).wf(),
            final(self)@ == old(self)@,
            ok == !old(self).is_held(),
            final(self).is_held(),
    {
        if self.held {
            false
        } else {
            self.held = true;
            true
        }
    }

    /// Release the lock flag.
    pub fn release(&mut self)
        ensures
            final(self).wf() == old(self).wf(),
            final(self)@ == old(self)@,
            !final(self).is_held(),
    {
        self.held = false;
    }

    /// Attempt one acquisition; on success insert `t` and release. On a
    /// busy flag the element comes back to the caller untouched.
    pub fn try_push(&mut self, t: u64) -> (r: Result<(), u64>)
        requires
            old(self).wf(),
        ensures
            final(self).wf(),
            final(self).is_held() == old(self).is_held(),
            old(self).is_held() ==> r == Err::<(), u64>(t) && final(self)@ == old(self)@,
            !old(self).is_held() ==> r == Ok::<(), u64>(()) && final(self)@ == old(self)@.insert(
                t,
            ),
    {
        if self.try_acquire() {
            self.heap.push(t);
            self.release();
            Ok(())
        } else {
            Err(t)
        }
    }

    /// Attempt one acquisition; on success pop the heap's maximum (or
    /// `None` from an empty heap) and release. On a busy flag report
    /// `busy` with no data.
    pub fn try_pop(&mut self) -> (r: Result<Option<u64>, ()>)
        requires
            old(self).wf(),
        ensures
            final(self).wf(),
            final(self).is_held() == old(self).is_held(),
            old(self).is_held() ==> r == Err::<Option<u64>, ()>(()) && final(self)@ == old(
                self,
            )@,
            !old(self).is_held() ==> match r {
                Ok(Option::None) => old(self)@.len() == 0 && final(self)@ == old(self)@,
                Ok(Option::Some(m)) => {
                    &&& old(self)@.count(m) > 0
                    &&& final(self)@ == old(self)@.remove(m)
                    &&& final(self)@.len() + 1 == old(self)@.len()
                    &&& forall|x: u64| #[trigger] old(self)@.count(x) > 0 ==> m >= x
                },
                Err(_) => false,
            },
    {
        if self.try_acquire() {
            let r = self.heap.pop();
            self.release();
            Ok(r)
        } else {
            Err(())
        }
    }

    /// Acquire the flag and empty the heap. The striped queue only
    /// clears shards at rest, so a free flag is demanded rather than
    /// spun on: with exclusive access nobody else could release it.
    pub fn clear(&mut self)
        requires
            old(self).wf(),
            !old(self).is_held(),
        ensures
            final(self).wf(),
            !final(self).is_held(),
            final(self)@ == Multiset::<u64>::empty(),
    {
        let acquired = self.try_acquire();
        proof {
            assert(acquired);
        }
        self.heap.clear();
        self.release();
    }

    /// Replace the heap with a fresh empty one and hand the old heap
    /// out. The flag is bypassed: the caller holds exclusive access.
    pub fn take(&mut self) -> (h: Heap)
        requires
            old(self).wf(),
        ensures
            final(self).wf(),
            final(self).is_held() == old(self).is_held(),
            final(self)@ == Multiset::<u64>::empty(),
            h.wf(),
            h@ == old(self)@,
    {
        let mut h = Heap::new();
        core::mem::swap(&mut self.heap, &mut h);
        h
    }

    /// Number of elements currently in the heap. Maintenance use only:
    /// the flag is not consulted.
    pub fn len(&self) -> (n: usize)
        ensures
            n == self@.len(),
    {
        self.heap.len()
    }
}

} // verus!
