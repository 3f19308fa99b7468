//! A bounded pool of reusable client handles.
//!
//! The pool only keeps the books: a handle is a small integer that names one
//! of the clients owned by whoever performs the network calls.
use vstd::prelude::*;

verus! {

/// Mathematical model of a [`MagicPool`].
pub struct PoolView {
    /// Number of handles the pool was made with.
    pub size: nat,
    /// Handles that are not checked out; the next one handed out is the last.
    pub idle: Seq<usize>,
}

impl PoolView {
    /// The idle handles are distinct and all belong to the pool.
    pub open spec fn wf(self) -> bool {
        &&& self.idle.no_duplicates()
        &&& forall|i: int| 0 <= i < self.idle.len() ==> (#[trigger] self.idle[i]) < self.size
    }

    /// A pool of `size` handles, none checked out, handing out `0` first.
    pub open spec fn fresh(size: nat) -> PoolView {
        PoolView { size, idle: Seq::new(size, |i: int| (size - 1 - i) as usize) }
    }

    /// Whether a checkout would succeed.
    pub open spec fn has_idle(self) -> bool {
        self.idle.len() > 0
    }

    /// The handle the next checkout returns.
    pub open spec fn next_handle(self) -> usize
        recommends
            self.has_idle(),
    {
        self.idle.last()
    }

    /// The pool after one checkout.
    pub open spec fn checkout(self) -> PoolView
        recommends
            self.has_idle(),
    {
        PoolView { size: self.size, idle: self.idle.drop_last() }
    }

    /// Whether `handle` is currently checked out of the pool.
    pub open spec fn is_out(self, handle: usize) -> bool {
        handle < self.size && !self.idle.contains(handle)
    }

    /// The pool after `handle` came back.
    pub open spec fn give_back(self, handle: usize) -> PoolView {
        PoolView { size: self.size, idle: self.idle.push(handle) }
    }
}

/// Bounded pool of client handles `0 .. size`.
#[derive(Debug)]
pub struct MagicPool {
    size: usize,
    idle: Vec<usize>,
}

impl View for MagicPool {
    type V = PoolView;

    closed spec fn view(&self) -> PoolView {
        PoolView { size: self.size as nat, idle: self.idle@ }
    }
}

impl MagicPool {
    /// Validity of the pool: see [`PoolView::wf`].
    pub open spec fn wf(&self) -> bool {
        self@.wf()
    }

    /// Creates a pool of `size` handles, all idle.
    pub fn new(size: usize) -> (pool: MagicPool)
        ensures
            pool.wf(),
            pool@ == PoolView::fresh(size as nat),
    {
        let mut idle: Vec<usize> = Vec::new();
        let mut left: usize = size;
        while left > 0
            invariant
                left <= size,
                idle@.len() == size - left,
                forall|i: int| 0 <= i < idle@.len() ==> (#[trigger] idle@[i]) == size - 1 - i,
            decreases left,
        {
            left = left - 1;
            idle.push(left);
        }
        let pool = MagicPool { size, idle };
        assert(pool@.idle =~= PoolView::fresh(size as nat).idle);
        pool
    }

    /// Number of handles the pool was made with.
    pub fn size(&self) -> (n: usize)
        ensures
            n == self@.size,
    {
        self.size
    }

    /// Number of handles that are idle right now.
    pub fn available(&self) -> (n: usize)
        ensures
            n == self@.idle.len(),
    {
        self.idle.len()
    }

    /// Checks a handle out, or returns `None` when every handle is in use.
    pub fn get(&mut self) -> (handle: Option<usize>)
        requires
            old(self).wf(),
        ensures
            final(self).wf(),
            old(self)@.has_idle() ==> handle == Some(old(self)@.next_handle())
                && final(self)@ == old(self)@.checkout(),
            !old(self)@.has_idle() ==> handle.is_none() && final(self)@ == old(self)@,
            handle matches Some(h) ==> final(self)@.is_out(h),
    {
        let handle = self.idle.pop();
        proof {
            if let Some(h) = handle {
                let before = old(self)@.idle;
                assert(before.last() == h);
                assert(self@.idle =~= before.drop_last());
                assert forall|i: int| 0 <= i < self@.idle.len() implies self@.idle[i] != h by {
                    assert(before[i] != before[before.len() - 1]);
                }
            }
        }
        handle
    }

    /// Takes a handle back. Returns `false`, changing nothing, when `handle`
    /// is not one this pool has currently checked out.
    pub fn put(&mut self, handle: usize) -> (accepted: bool)
        requires
            old(self).wf(),
        ensures
            final(self).wf(),
            accepted == old(self)@.is_out(handle),
            accepted ==> final(self)@ == old(self)@.give_back(handle),
            accepted ==> !final(self)@.is_out(handle),
            !accepted ==> final(self)@ == old(self)@,
    {
        if handle >= self.size {
            return false;
        }
        let mut i: usize = 0;
        while i < self.idle.len()
            invariant
                i <= self.idle@.len(),
                *self == *old(self),
                self.wf(),
                handle < self.size,
                forall|j: int| 0 <= j < i ==> (#[trigger] self.idle@[j]) != handle,
            decreases self.idle@.len() - i,
        {
            if self.idle[i] == handle {
                return false;
            }
            i = i + 1;
        }
        assert(!old(self)@.idle.contains(handle));
        self.idle.push(handle);
        assert(self@.idle[self@.idle.len() - 1] == handle);
        true
    }
}

} // verus!
