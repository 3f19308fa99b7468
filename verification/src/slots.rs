//! The slot map that backs one bucket of a wheel.
//!
//! A bucket is a `slab::Slab` of jobs. The slab is not verified here: this
//! module names the two things the scheduler needs to know about one, and
//! states what each slab operation it uses does to them.
use vstd::prelude::*;
use slab::Slab;
use crate::job::Job;

verus! {

/// `slab::Slab`, taken as an opaque type: nothing inside a slab is visible
/// to the proofs but what the two functions below name.
#[verifier::external_type_specification]
#[verifier::external_body]
#[verifier::reject_recursive_types(T)]
pub struct ExSlab<T>(Slab<T>);

/// The entries of a slab, key by key from key 0 on: `Some(job)` where the
/// key is associated with a job, `None` where the key was released and not
/// handed out again.
pub uninterp spec fn slab_slots(slab: Slab<Job>) -> Seq<Option<Job>>;

/// The released keys of a slab in the order in which later insertions take
/// them: the first is the `vacant_key` of the slab, the key released last.
/// When it is empty the next insertion extends the entries by a new key.
pub uninterp spec fn slab_vacant(slab: Slab<Job>) -> Seq<int>;

/// `Slab::new`: a slab without entries and without released keys.
#[verifier::external_body]
pub(crate) fn slab_new() -> (slab: Slab<Job>)
    ensures
        slab_slots(slab) == Seq::<Option<Job>>::empty(),
        slab_vacant(slab) == Seq::<int>::empty(),
{
    Slab::new()
}

/// `Slab::insert`: stores `job` under the key released last, or, when no
/// released key is left, under a new key at the end of the entries, and
/// returns that key. (It panics only when the entries cannot grow any
/// further, which the model of memory used here leaves out, as it does for
/// `Vec::push`.)
#[verifier::external_body]
pub(crate) fn slab_insert(slab: &mut Slab<Job>, job: Job) -> (key: usize)
    ensures
        slab_vacant(*old(slab)).len() == 0 ==> {
            &&& key == slab_slots(*old(slab)).len()
            &&& slab_slots(*final(slab)) == slab_slots(*old(slab)).push(Some(job))
            &&& slab_vacant(*final(slab)) == slab_vacant(*old(slab))
        },
        slab_vacant(*old(slab)).len() > 0 ==> {
            &&& key == slab_vacant(*old(slab)).first()
            &&& slab_slots(*final(slab)) == slab_slots(*old(slab)).update(key as int, Some(job))
            &&& slab_vacant(*final(slab)) == slab_vacant(*old(slab)).drop_first()
        },
{
    slab.insert(job)
}

/// `Slab::try_remove`: when `key` is associated with a job, takes the job
/// out and makes `key` the first released key; otherwise returns `None` and
/// leaves the slab as it was.
#[verifier::external_body]
pub(crate) fn slab_try_remove(slab: &mut Slab<Job>, key: usize) -> (job: Option<Job>)
    ensures
        key < slab_slots(*old(slab)).len() && slab_slots(*old(slab))[key as int].is_some() ==> {
            &&& job == slab_slots(*old(slab))[key as int]
            &&& slab_slots(*final(slab)) == slab_slots(*old(slab)).update(key as int, None)
            &&& slab_vacant(*final(slab)) == seq![key as int] + slab_vacant(*old(slab))
        },
        !(key < slab_slots(*old(slab)).len() && slab_slots(*old(slab))[key as int].is_some()) ==> {
            &&& job.is_none()
            &&& slab_slots(*final(slab)) == slab_slots(*old(slab))
            &&& slab_vacant(*final(slab)) == slab_vacant(*old(slab))
        },
{
    slab.try_remove(key)
}

/// `Slab::iter`: references to the jobs stored in the slab, by increasing
/// key.
#[verifier::external_body]
pub(crate) fn slab_jobs(slab: &Slab<Job>) -> (jobs: Vec<&Job>)
    ensures
        jobs@.map_values(|job: &Job| *job) == occupied(slab_slots(*slab)),
{
    slab.iter().map(|entry| entry.1).collect()
}

/// The jobs of `slots` in key order, free keys left out.
pub open spec fn occupied(slots: Seq<Option<Job>>) -> Seq<Job>
    decreases slots.len(),
{
    if slots.len() == 0 {
        Seq::empty()
    } else {
        match slots.last() {
            Some(job) => occupied(slots.drop_last()).push(job),
            None => occupied(slots.drop_last()),
        }
    }
}

/// Number of jobs stored under the keys below `key`.
pub open spec fn rank(slots: Seq<Option<Job>>, key: int) -> int {
    occupied(slots.take(key)).len() as int
}

/// The jobs under the keys below `key + 1` are those below `key`, followed
/// by the job under `key` if there is one.
pub proof fn lemma_occupied_step(slots: Seq<Option<Job>>, key: int)
    requires
        0 <= key < slots.len(),
    ensures
        occupied(slots.take(key + 1)) == match slots[key] {
            Some(job) => occupied(slots.take(key)).push(job),
            None => occupied(slots.take(key)),
        },
        rank(slots, key + 1) == rank(slots, key) + if slots[key].is_some() {
            1int
        } else {
            0int
        },
{
    assert(slots.take(key + 1).drop_last() =~= slots.take(key));
    assert(slots.take(key + 1).last() == slots[key]);
}

/// The jobs under the keys below `key` are the first `rank(slots, key)` of
/// all the jobs.
pub proof fn lemma_occupied_prefix(slots: Seq<Option<Job>>, key: int)
    requires
        0 <= key <= slots.len(),
    ensures
        rank(slots, key) <= occupied(slots).len(),
        occupied(slots.take(key)) == occupied(slots).take(rank(slots, key)),
    decreases slots.len() - key,
{
    if key == slots.len() {
        assert(slots.take(key) =~= slots);
        assert(occupied(slots).take(rank(slots, key)) =~= occupied(slots));
    } else {
        lemma_occupied_prefix(slots, key + 1);
        lemma_occupied_step(slots, key);
        let longer = occupied(slots.take(key + 1));
        assert(occupied(slots.take(key)) =~= longer.take(rank(slots, key)));
        assert(longer.take(rank(slots, key)) =~= occupied(slots).take(rank(slots, key)));
    }
}

/// More jobs sit below a larger key: the rank never goes down, and it goes
/// up across a key that holds a job.
pub proof fn lemma_rank_monotone(slots: Seq<Option<Job>>, low: int, high: int)
    requires
        0 <= low <= high <= slots.len(),
    ensures
        rank(slots, low) <= rank(slots, high),
        low < high && slots[low].is_some() ==> rank(slots, low) < rank(slots, high),
    decreases high - low,
{
    if low < high {
        lemma_occupied_step(slots, low);
        lemma_rank_monotone(slots, low + 1, high);
    }
}

/// Mathematical model of one bucket: what its slab holds and which keys it
/// will reuse.
pub struct BucketView {
    /// The job stored under each key, `None` where the key is free.
    pub slots: Seq<Option<Job>>,
    /// The freed keys, the one reused next first.
    pub vacant: Seq<int>,
}

impl BucketView {
    /// The model of a slab.
    pub open spec fn of(slab: Slab<Job>) -> BucketView {
        BucketView { slots: slab_slots(slab), vacant: slab_vacant(slab) }
    }

    /// A bucket that never held a job.
    pub open spec fn empty() -> BucketView {
        BucketView { slots: Seq::empty(), vacant: Seq::empty() }
    }

    /// The freed keys are distinct, and each names a free slot.
    pub open spec fn wf(self) -> bool {
        &&& self.vacant.no_duplicates()
        &&& forall|i: int|
            0 <= i < self.vacant.len() ==> 0 <= (#[trigger] self.vacant[i]) < self.slots.len()
                && self.slots[self.vacant[i]].is_none()
    }

    /// Whether a job is stored under `key`.
    pub open spec fn holds(self, key: int) -> bool {
        0 <= key < self.slots.len() && self.slots[key].is_some()
    }

    /// The key the next insertion is stored under: the key freed last, or a
    /// new key past all the others when no freed key is left.
    pub open spec fn next_key(self) -> int {
        if self.vacant.len() > 0 {
            self.vacant.first()
        } else {
            self.slots.len() as int
        }
    }

    /// The bucket after `job` was inserted.
    pub open spec fn insert(self, job: Job) -> BucketView {
        if self.vacant.len() > 0 {
            BucketView {
                slots: self.slots.update(self.vacant.first(), Some(job)),
                vacant: self.vacant.drop_first(),
            }
        } else {
            BucketView { slots: self.slots.push(Some(job)), vacant: self.vacant }
        }
    }

    /// The bucket after the job under `key` was taken out.
    pub open spec fn remove(self, key: int) -> BucketView
        recommends
            self.holds(key),
    {
        BucketView { slots: self.slots.update(key, None), vacant: seq![key] + self.vacant }
    }

    /// The jobs in the bucket, by increasing key.
    pub open spec fn jobs(self) -> Seq<Job> {
        occupied(self.slots)
    }

    /// Where the job under `key` stands among the jobs of the bucket.
    pub open spec fn index_of(self, key: int) -> int {
        rank(self.slots, key)
    }

    /// The key whose job stands at index `i` among the jobs of the bucket.
    pub open spec fn key_of(self, i: int) -> int {
        choose|key: int| self.holds(key) && self.index_of(key) == i
    }

    /// Inserting keeps a bucket valid, stores the job under `next_key`, which
    /// was free, and leaves every other key as it was.
    pub proof fn lemma_insert(self, job: Job)
        requires
            self.wf(),
        ensures
            self.insert(job).wf(),
            0 <= self.next_key(),
            !self.holds(self.next_key()),
            self.insert(job).holds(self.next_key()),
            self.insert(job).slots[self.next_key()] == Some(job),
            forall|key: int|
                key != self.next_key() ==> self.insert(job).holds(key) == self.holds(key),
            forall|key: int|
                key != self.next_key() && self.holds(key) ==> self.insert(job).slots[key]
                    == self.slots[key],
    {
        let after = self.insert(job);
        if self.vacant.len() > 0 {
            assert forall|i: int| 0 <= i < after.vacant.len() implies 0 <= (
            #[trigger] after.vacant[i]) < after.slots.len()
                && after.slots[after.vacant[i]].is_none() by {
                assert(after.vacant[i] == self.vacant[i + 1]);
                assert(self.vacant[i + 1] != self.vacant[0]);
            }
            assert forall|i: int, j: int|
                0 <= i < after.vacant.len() && 0 <= j < after.vacant.len() && i != j implies after.vacant[i]
                != after.vacant[j] by {
                assert(after.vacant[i] == self.vacant[i + 1]);
                assert(after.vacant[j] == self.vacant[j + 1]);
            }
        }
    }

    /// Removing keeps a bucket valid, frees `key`, makes it the key that is
    /// reused next and leaves every other key as it was.
    pub proof fn lemma_remove(self, key: int)
        requires
            self.wf(),
            self.holds(key),
        ensures
            self.remove(key).wf(),
            !self.remove(key).holds(key),
            self.remove(key).next_key() == key,
            forall|other: int| other != key ==> self.remove(key).holds(other) == self.holds(other),
            forall|other: int|
                other != key && self.holds(other) ==> self.remove(key).slots[other]
                    == self.slots[other],
    {
        let after = self.remove(key);
        assert forall|i: int| 0 <= i < after.vacant.len() implies 0 <= (#[trigger] after.vacant[i])
            < after.slots.len() && after.slots[after.vacant[i]].is_none() by {
            if i > 0 {
                assert(after.vacant[i] == self.vacant[i - 1]);
            }
        }
        assert forall|i: int, j: int|
            0 <= i < after.vacant.len() && 0 <= j < after.vacant.len() && i != j implies after.vacant[i]
            != after.vacant[j] by {
            if i > 0 {
                assert(after.vacant[i] == self.vacant[i - 1]);
            }
            if j > 0 {
                assert(after.vacant[j] == self.vacant[j - 1]);
            }
        }
    }

    /// Taking out the job that was inserted last leaves the jobs of the
    /// bucket as they were before the insertion.
    pub proof fn lemma_insert_remove(self, job: Job)
        requires
            self.wf(),
        ensures
            self.insert(job).remove(self.next_key()).jobs() == self.jobs(),
    {
        let back = self.insert(job).remove(self.next_key());
        if self.vacant.len() > 0 {
            assert(back.slots =~= self.slots);
        } else {
            assert(back.slots.drop_last() =~= self.slots);
        }
    }

    /// Every job of the bucket is listed once in `jobs`: the job under a key
    /// stands at the index of that key, two keys that hold jobs have
    /// different indices, ordered as the keys are, and every index of `jobs`
    /// is the index of the key that `key_of` gives for it.
    pub proof fn lemma_jobs_once(self)
        ensures
            forall|key: int| #[trigger]
                self.holds(key) ==> 0 <= self.index_of(key) < self.jobs().len()
                    && self.jobs()[self.index_of(key)] == self.slots[key].unwrap(),
            forall|low: int, high: int|
                low < high && #[trigger] self.holds(low) && #[trigger] self.holds(high)
                    ==> self.index_of(low) < self.index_of(high),
            forall|i: int|
                0 <= i < self.jobs().len() ==> self.holds(#[trigger] self.key_of(i))
                    && self.index_of(self.key_of(i)) == i,
    {
        assert forall|key: int| #[trigger] self.holds(key) implies 0 <= self.index_of(key)
            < self.jobs().len() && self.jobs()[self.index_of(key)] == self.slots[key].unwrap() by {
            lemma_occupied_step(self.slots, key);
            lemma_occupied_prefix(self.slots, key + 1);
            let upto = occupied(self.slots.take(key + 1));
            assert(upto[self.index_of(key)] == self.slots[key].unwrap());
        }
        assert forall|low: int, high: int|
            low < high && #[trigger] self.holds(low) && #[trigger] self.holds(high) implies self.index_of(
            low,
        ) < self.index_of(high) by {
            lemma_rank_monotone(self.slots, low, high);
        }
        assert forall|i: int| 0 <= i < self.jobs().len() implies self.holds(
            #[trigger] self.key_of(i),
        ) && self.index_of(self.key_of(i)) == i by {
            let key = lemma_occupied_source(self.slots, i);
            assert(self.holds(key) && self.index_of(key) == i);
        }
    }
}

/// The job at index `i` of the jobs of `slots` sits under a key of rank `i`.
pub proof fn lemma_occupied_source(slots: Seq<Option<Job>>, i: int) -> (key: int)
    requires
        0 <= i < occupied(slots).len(),
    ensures
        0 <= key < slots.len(),
        slots[key].is_some(),
        rank(slots, key) == i,
    decreases slots.len(),
{
    let last = slots.len() - 1;
    let rest = slots.drop_last();
    assert(slots.take(last) =~= rest);
    if slots.last().is_some() && i == occupied(rest).len() {
        last
    } else {
        let key = lemma_occupied_source(rest, i);
        assert(rest.take(key) =~= slots.take(key));
        key
    }
}

} // verus!
