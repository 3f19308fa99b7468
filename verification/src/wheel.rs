//! The interval wheel: one bucket per second of a period.
//!
//! Jobs that share an interval live in one wheel. A new job goes to the
//! bucket that last had a slot freed, or else to the bucket under the fill
//! cursor, which then moves on by one: same-interval jobs are spread over the
//! whole period instead of firing together. A second cursor marks the bucket
//! that is due at the current tick.
use vstd::prelude::*;
use vstd::arithmetic::div_mod::{
    lemma_add_mod_noop,
    lemma_fundamental_div_mod,
    lemma_fundamental_div_mod_converse,
    lemma_mod_self_0,
    lemma_small_mod,
};
use slab::Slab;
use crate::job::{Job, JobAction, JobRessources};
use crate::pool::PoolView;
use crate::slots::{slab_insert, slab_jobs, slab_new, slab_try_remove, BucketView};

verus! {

/// How often `bucket` occurs in `stack`.
pub open spec fn occurrences(stack: Seq<int>, bucket: int) -> nat
    decreases stack.len(),
{
    if stack.len() == 0 {
        0
    } else {
        occurrences(stack.drop_last(), bucket) + if stack.last() == bucket {
            1nat
        } else {
            0nat
        }
    }
}

/// Pushing `top` adds one occurrence of `top` and none of any other bucket.
pub proof fn lemma_occurrences_push(stack: Seq<int>, top: int, bucket: int)
    ensures
        occurrences(stack.push(top), bucket) == occurrences(stack, bucket) + if top == bucket {
            1nat
        } else {
            0nat
        },
{
    assert(stack.push(top).drop_last() =~= stack);
}

/// A number written as a multiple of `d` plus a remainder below `d` has that
/// multiple as its quotient and that remainder as its remainder.
pub proof fn lemma_div_mod_unique(x: int, d: int, q: int, r: int)
    requires
        0 <= r < d,
        x == d * q + r,
    ensures
        x / d == q,
        x % d == r,
{
    assert(d * q == q * d) by (nonlinear_arith);
    lemma_fundamental_div_mod_converse(x, d, q, r);
}

/// The actions that firing `jobs` one after the other asks for, each decided
/// against the pool as the jobs before it left it, and the pool after the
/// last of them.
pub open spec fn dispatch(jobs: Seq<Job>, pool: PoolView) -> (Seq<JobAction>, PoolView)
    decreases jobs.len(),
{
    if jobs.len() == 0 {
        (Seq::empty(), pool)
    } else {
        let (actions, mid) = dispatch(jobs.drop_last(), pool);
        (actions.push(jobs.last().action(mid)), jobs.last().pool_after(mid))
    }
}

/// Firing jobs asks for one action per job, in the order of the jobs, each
/// for the check of its job, and leaves the pool valid. Clients only leave
/// the pool: those still idle afterwards were idle before, every request got
/// a client that was idle and is checked out afterwards, and no two requests
/// got the same client.
pub proof fn lemma_dispatch(jobs: Seq<Job>, pool: PoolView)
    requires
        pool.wf(),
    ensures
        dispatch(jobs, pool).0.len() == jobs.len(),
        dispatch(jobs, pool).1.wf(),
        dispatch(jobs, pool).1.size == pool.size,
        dispatch(jobs, pool).1.idle.is_prefix_of(pool.idle),
        forall|i: int|
            0 <= i < jobs.len() ==> (#[trigger] dispatch(jobs, pool).0[i]).id() == jobs[i].id,
        forall|i: int|
            0 <= i < jobs.len() ==> match #[trigger] dispatch(jobs, pool).0[i] {
                JobAction::Send { client, .. } => pool.idle.contains(client) && dispatch(
                    jobs,
                    pool,
                ).1.is_out(client),
                _ => true,
            },
        forall|i: int, j: int|
            0 <= i < j < jobs.len() ==> match (
                #[trigger] dispatch(jobs, pool).0[i],
                #[trigger] dispatch(jobs, pool).0[j],
            ) {
                (JobAction::Send { client: first, .. }, JobAction::Send { client: second, .. }) => first
                    != second,
                _ => true,
            },
    decreases jobs.len(),
{
    if jobs.len() > 0 {
        let rest = jobs.drop_last();
        lemma_dispatch(rest, pool);
        let before = dispatch(rest, pool).0;
        let mid = dispatch(rest, pool).1;
        let actions = dispatch(jobs, pool).0;
        let after = dispatch(jobs, pool).1;
        let last = jobs.len() - 1;
        assert forall|k: int| 0 <= k < after.idle.len() implies after.idle[k] == mid.idle[k] by {}
        assert forall|k: int| 0 <= k < last implies actions[k] == before[k] by {}
        assert forall|i: int| 0 <= i < jobs.len() implies (#[trigger] actions[i]).id()
            == jobs[i].id by {
            if i < last {
                assert(before[i].id() == rest[i].id);
            }
        }
        assert forall|i: int| 0 <= i < jobs.len() implies match #[trigger] actions[i] {
            JobAction::Send { client, .. } => pool.idle.contains(client) && after.is_out(client),
            _ => true,
        } by {
            if let JobAction::Send { client, .. } = actions[i] {
                if i < last {
                    assert(before[i] == actions[i]);
                    assert(mid.is_out(client));
                    if after.idle.contains(client) {
                        let k = choose|k: int| 0 <= k < after.idle.len() && after.idle[k] == client;
                        assert(mid.idle[k] == client);
                    }
                } else {
                    assert(client == mid.idle[mid.idle.len() - 1]);
                    assert(pool.idle[mid.idle.len() - 1] == client);
                    if after.idle.contains(client) {
                        let k = choose|k: int| 0 <= k < after.idle.len() && after.idle[k] == client;
                        assert(mid.idle[k] == mid.idle[mid.idle.len() - 1]);
                    }
                }
            }
        }
        assert forall|i: int, j: int| 0 <= i < j < jobs.len() implies match (
            #[trigger] actions[i],
            #[trigger] actions[j],
        ) {
            (JobAction::Send { client: first, .. }, JobAction::Send { client: second, .. }) => first
                != second,
            _ => true,
        } by {
            if j == last {
                if let JobAction::Send { client, .. } = actions[i] {
                    assert(before[i] == actions[i]);
                    assert(mid.is_out(client));
                    if let JobAction::Send { client: second, .. } = actions[j] {
                        assert(second == mid.idle[mid.idle.len() - 1]);
                    }
                }
            } else {
                assert(before[i] == actions[i] && before[j] == actions[j]);
            }
        }
    }
}

/// Mathematical model of a [`JobScheduler`].
pub struct WheelView {
    /// One bucket per second of the interval.
    pub buckets: Seq<BucketView>,
    /// The bucket that receives the next job when no freed slot is left.
    pub fill_cursor: int,
    /// The buckets in which a slot was freed, one entry per freed slot; the
    /// last entry is reused first.
    pub empty_slot: Seq<int>,
    /// The bucket that is due at the next tick.
    pub time_cursor: int,
}

impl WheelView {
    /// Number of buckets, which is the interval in seconds.
    pub open spec fn range(self) -> int {
        self.buckets.len() as int
    }

    /// Validity of a wheel: it has a bucket, both cursors point at one, every
    /// bucket is valid, and the reclaim stack names each bucket once for each
    /// of its freed slots.
    pub open spec fn wf(self) -> bool {
        &&& self.range() > 0
        &&& 0 <= self.fill_cursor < self.range()
        &&& 0 <= self.time_cursor < self.range()
        &&& forall|b: int| 0 <= b < self.range() ==> (#[trigger] self.buckets[b]).wf()
        &&& forall|i: int|
            0 <= i < self.empty_slot.len() ==> 0 <= (#[trigger] self.empty_slot[i]) < self.range()
        &&& forall|b: int|
            0 <= b < self.range() ==> occurrences(self.empty_slot, b)
                == (#[trigger] self.buckets[b]).vacant.len()
    }

    /// A wheel of `range` empty buckets with both cursors at bucket 0.
    pub open spec fn fresh(range: int) -> WheelView {
        WheelView {
            buckets: Seq::new(range as nat, |b: int| BucketView::empty()),
            fill_cursor: 0,
            empty_slot: Seq::empty(),
            time_cursor: 0,
        }
    }

    /// Whether a job sits in slot `position` of bucket `offset`.
    pub open spec fn has_job(self, offset: int, position: int) -> bool {
        0 <= offset < self.range() && self.buckets[offset].holds(position)
    }

    /// The job in slot `position` of bucket `offset`.
    pub open spec fn job_at(self, offset: int, position: int) -> Job
        recommends
            self.has_job(offset, position),
    {
        self.buckets[offset].slots[position].unwrap()
    }

    /// The bucket that receives the next job: the one whose slot was freed
    /// last, or the one under the fill cursor when no freed slot is left.
    pub open spec fn next_bucket(self) -> int {
        if self.empty_slot.len() > 0 {
            self.empty_slot.last()
        } else {
            self.fill_cursor
        }
    }

    /// The slot that the next job gets within `next_bucket`.
    pub open spec fn next_position(self) -> int {
        self.buckets[self.next_bucket()].next_key()
    }

    /// The wheel after `job` was added.
    pub open spec fn add_job(self, job: Job) -> WheelView {
        let b = self.next_bucket();
        WheelView {
            buckets: self.buckets.update(b, self.buckets[b].insert(job)),
            fill_cursor: if self.empty_slot.len() > 0 {
                self.fill_cursor
            } else {
                (self.fill_cursor + 1) % self.range()
            },
            empty_slot: if self.empty_slot.len() > 0 {
                self.empty_slot.drop_last()
            } else {
                self.empty_slot
            },
            time_cursor: self.time_cursor,
        }
    }

    /// The wheel after the jobs of `jobs` were added one after the other.
    pub open spec fn add_jobs(self, jobs: Seq<Job>) -> WheelView
        decreases jobs.len(),
    {
        if jobs.len() == 0 {
            self
        } else {
            self.add_jobs(jobs.drop_last()).add_job(jobs.last())
        }
    }

    /// The wheel after the job in slot `position` of bucket `offset` was
    /// removed.
    pub open spec fn remove_job(self, offset: int, position: int) -> WheelView
        recommends
            self.has_job(offset, position),
    {
        WheelView {
            buckets: self.buckets.update(offset, self.buckets[offset].remove(position)),
            fill_cursor: self.fill_cursor,
            empty_slot: self.empty_slot.push(offset),
            time_cursor: self.time_cursor,
        }
    }

    /// The jobs that are due at the next tick: those of the bucket under the
    /// time cursor, by increasing slot.
    pub open spec fn due(self) -> Seq<Job> {
        self.buckets[self.time_cursor].jobs()
    }

    /// The wheel after one tick: the time cursor has moved on by one bucket,
    /// wrapping round at the end of the wheel.
    pub open spec fn advance(self) -> WheelView {
        WheelView {
            buckets: self.buckets,
            fill_cursor: self.fill_cursor,
            empty_slot: self.empty_slot,
            time_cursor: (self.time_cursor + 1) % self.range(),
        }
    }

    /// The wheel after `ticks` ticks.
    pub open spec fn advance_by(self, ticks: nat) -> WheelView
        decreases ticks,
    {
        if ticks == 0 {
            self
        } else {
            self.advance_by((ticks - 1) as nat).advance()
        }
    }

    /// The one tick among the `range` ticks from `start` on at which
    /// `bucket` is due.
    pub open spec fn visit_tick(self, start: nat, bucket: int) -> nat {
        (start + (bucket - self.time_cursor - start) % self.range()) as nat
    }

    /// Adding a job keeps a wheel valid, puts the job into the slot that
    /// `next_bucket` and `next_position` name, which was free, and leaves
    /// every other job where it was.
    pub proof fn lemma_add_job(self, job: Job)
        requires
            self.wf(),
        ensures
            self.add_job(job).wf(),
            self.add_job(job).range() == self.range(),
            self.add_job(job).time_cursor == self.time_cursor,
            0 <= self.next_bucket() < self.range(),
            0 <= self.next_position(),
            !self.has_job(self.next_bucket(), self.next_position()),
            self.add_job(job).has_job(self.next_bucket(), self.next_position()),
            self.add_job(job).job_at(self.next_bucket(), self.next_position()) == job,
            forall|offset: int, position: int| #[trigger]
                self.has_job(offset, position) ==> self.add_job(job).has_job(offset, position)
                    && self.add_job(job).job_at(offset, position) == self.job_at(offset, position),
    {
        let after = self.add_job(job);
        let b = self.next_bucket();
        if self.empty_slot.len() > 0 {
            assert(self.empty_slot[self.empty_slot.len() - 1] == b);
        }
        self.buckets[b].lemma_insert(job);
        self.lemma_fill_cursor_step();
        assert forall|c: int| 0 <= c < after.range() implies (#[trigger] after.buckets[c]).wf()
            && occurrences(after.empty_slot, c) == after.buckets[c].vacant.len() by {
            assert(self.buckets[c].wf());
        }
        assert forall|offset: int, position: int| #[trigger]
            self.has_job(offset, position) implies after.has_job(offset, position)
            && after.job_at(offset, position) == self.job_at(offset, position) by {
            assert(self.buckets[offset].holds(position));
        }
    }

    /// Moving the fill cursor on by one bucket wraps round to bucket 0 at the
    /// end of the wheel.
    pub proof fn lemma_fill_cursor_step(self)
        requires
            self.wf(),
        ensures
            (self.fill_cursor + 1) % self.range() == if self.fill_cursor + 1 == self.range() {
                0
            } else {
                self.fill_cursor + 1
            },
    {
        if self.fill_cursor + 1 < self.range() {
            lemma_small_mod((self.fill_cursor + 1) as nat, self.range() as nat);
        } else {
            lemma_mod_self_0(self.range());
        }
    }

    /// Removing a job keeps a wheel valid, frees its slot and leaves every
    /// other job where it was.
    pub proof fn lemma_remove_job(self, offset: int, position: int)
        requires
            self.wf(),
            self.has_job(offset, position),
        ensures
            self.remove_job(offset, position).wf(),
            self.remove_job(offset, position).range() == self.range(),
            self.remove_job(offset, position).time_cursor == self.time_cursor,
            !self.remove_job(offset, position).has_job(offset, position),
            forall|o: int, p: int|
                (o != offset || p != position) ==> (#[trigger] self.remove_job(
                    offset,
                    position,
                ).has_job(o, p)) == self.has_job(o, p),
            forall|o: int, p: int|
                (o != offset || p != position) && #[trigger] self.has_job(o, p)
                    ==> self.remove_job(offset, position).job_at(o, p) == self.job_at(o, p),
    {
        let after = self.remove_job(offset, position);
        self.buckets[offset].lemma_remove(position);
        assert forall|c: int| 0 <= c < after.range() implies (#[trigger] after.buckets[c]).wf()
            && occurrences(after.empty_slot, c) == after.buckets[c].vacant.len() by {
            assert(self.buckets[c].wf());
            lemma_occurrences_push(self.empty_slot, offset, c);
        }
        assert forall|i: int| 0 <= i < after.empty_slot.len() implies 0 <= (
        #[trigger] after.empty_slot[i]) < after.range() by {
            if i < self.empty_slot.len() {
                assert(after.empty_slot[i] == self.empty_slot[i]);
            }
        }
    }

    /// A tick keeps a wheel valid and moves nothing but the time cursor,
    /// which wraps round to bucket 0 at the end of the wheel.
    pub proof fn lemma_advance(self)
        requires
            self.wf(),
        ensures
            self.advance().wf(),
            self.advance().time_cursor == if self.time_cursor + 1 == self.range() {
                0
            } else {
                self.time_cursor + 1
            },
    {
        if self.time_cursor + 1 < self.range() {
            lemma_small_mod((self.time_cursor + 1) as nat, self.range() as nat);
        } else {
            lemma_mod_self_0(self.range());
        }
    }

    /// Round-robin placement: on a wheel without freed slots, the job added
    /// after `jobs.len()` others goes to the bucket that many steps past the
    /// fill cursor, counted round the wheel, and the additions free no slot.
    pub proof fn lemma_round_robin(self, jobs: Seq<Job>)
        requires
            self.wf(),
            self.empty_slot.len() == 0,
        ensures
            self.add_jobs(jobs).wf(),
            self.add_jobs(jobs).range() == self.range(),
            self.add_jobs(jobs).empty_slot.len() == 0,
            self.add_jobs(jobs).next_bucket() == (self.fill_cursor + jobs.len()) % self.range(),
        decreases jobs.len(),
    {
        let k = self.range();
        if jobs.len() == 0 {
            lemma_small_mod(self.fill_cursor as nat, k as nat);
        } else {
            let rest = jobs.drop_last();
            self.lemma_round_robin(rest);
            let mid = self.add_jobs(rest);
            mid.lemma_add_job(jobs.last());
            lemma_add_mod_noop(self.fill_cursor + rest.len(), 1, k);
            if k == 1 {
                assert((mid.fill_cursor + 1) % 1 == 0);
                assert((self.fill_cursor + jobs.len()) % 1 == 0);
            } else {
                lemma_small_mod(1, k as nat);
            }
        }
    }

    /// Whether `self` is what `count` additions make of a new wheel of
    /// `range` buckets: bucket `b` holds a job in each of its first slots,
    /// one more in the buckets before the fill cursor than in the others.
    pub open spec fn filled(self, range: int, count: int) -> bool {
        &&& self.wf()
        &&& self.range() == range
        &&& self.empty_slot.len() == 0
        &&& self.fill_cursor == count % range
        &&& forall|b: int|
            0 <= b < range ==> (#[trigger] self.buckets[b]).vacant.len() == 0
                && self.buckets[b].slots.len() == count / range + if b < count % range {
                1int
            } else {
                0int
            }
    }

    /// Placement on a new wheel: after `jobs.len()` additions to a new wheel
    /// of `range` buckets, the next job goes to bucket `jobs.len() % range`
    /// and there to slot `jobs.len() / range`.
    pub proof fn lemma_placement(range: int, jobs: Seq<Job>)
        requires
            range > 0,
        ensures
            Self::fresh(range).add_jobs(jobs).filled(range, jobs.len() as int),
            Self::fresh(range).add_jobs(jobs).next_bucket() == jobs.len() % (range as nat),
            Self::fresh(range).add_jobs(jobs).next_position() == jobs.len() / (range as nat),
        decreases jobs.len(),
    {
        let new = Self::fresh(range);
        let n = jobs.len() as int;
        if jobs.len() == 0 {
            lemma_div_mod_unique(0, range, 0, 0);
            assert forall|b: int| 0 <= b < range implies occurrences(new.empty_slot, b) == (
            #[trigger] new.buckets[b]).vacant.len() by {}
        } else {
            let rest = jobs.drop_last();
            Self::lemma_placement(range, rest);
            let mid = new.add_jobs(rest);
            let after = mid.add_job(jobs.last());
            mid.lemma_add_job(jobs.last());
            mid.lemma_fill_cursor_step();
            let q = (n - 1) / range;
            let r = (n - 1) % range;
            lemma_fundamental_div_mod(n - 1, range);
            if r + 1 < range {
                lemma_div_mod_unique(n, range, q, r + 1);
            } else {
                assert(n == range * (q + 1) + 0) by (nonlinear_arith)
                    requires
                        n - 1 == range * q + r,
                        r + 1 == range,
                ;
                lemma_div_mod_unique(n, range, q + 1, 0);
            }
            assert forall|b: int| 0 <= b < range implies (#[trigger] after.buckets[b]).vacant.len()
                == 0 && after.buckets[b].slots.len() == n / range + if b < n % range {
                1int
            } else {
                0int
            } by {
                assert(mid.buckets[b].vacant.len() == 0);
            }
            assert(after.buckets[after.next_bucket()].vacant.len() == 0);
        }
    }

    /// Reuse of a freed slot: once a job was removed, the next job takes the
    /// slot that the removal freed, and the fill cursor stays where it was.
    pub proof fn lemma_slot_reuse(self, offset: int, position: int, job: Job)
        requires
            self.wf(),
            self.has_job(offset, position),
        ensures
            self.remove_job(offset, position).next_bucket() == offset,
            self.remove_job(offset, position).next_position() == position,
            self.remove_job(offset, position).add_job(job).job_at(offset, position) == job,
            self.remove_job(offset, position).add_job(job).fill_cursor == self.fill_cursor,
            self.remove_job(offset, position).add_job(job).empty_slot == self.empty_slot,
    {
        let freed = self.remove_job(offset, position);
        self.lemma_remove_job(offset, position);
        self.buckets[offset].lemma_remove(position);
        freed.lemma_add_job(job);
        assert(freed.empty_slot.drop_last() =~= self.empty_slot);
    }

    /// Preference for freed slots: while the reclaim stack is not empty, the
    /// next job goes to the bucket on top of it, into the slot of that bucket
    /// that was freed last; the addition takes that bucket off the stack and
    /// leaves the fill cursor where it is.
    pub proof fn lemma_reuse_preference(self, job: Job)
        requires
            self.wf(),
            self.empty_slot.len() > 0,
        ensures
            self.next_bucket() == self.empty_slot.last(),
            self.buckets[self.next_bucket()].vacant.len() > 0,
            self.next_position() == self.buckets[self.next_bucket()].vacant.first(),
            self.next_position() < self.buckets[self.next_bucket()].slots.len(),
            self.add_job(job).fill_cursor == self.fill_cursor,
            self.add_job(job).empty_slot == self.empty_slot.drop_last(),
    {
        let b = self.next_bucket();
        assert(self.empty_slot[self.empty_slot.len() - 1] == b);
        assert(self.buckets[b].wf());
        assert(self.buckets[b].vacant[0] == self.buckets[b].vacant.first());
    }

    /// Ticks move the time cursor round the wheel and touch nothing else.
    pub proof fn lemma_advance_by(self, ticks: nat)
        requires
            self.wf(),
        ensures
            self.advance_by(ticks).wf(),
            self.advance_by(ticks).time_cursor == (self.time_cursor + ticks) % self.range(),
            self.advance_by(ticks).buckets == self.buckets,
            self.advance_by(ticks).fill_cursor == self.fill_cursor,
            self.advance_by(ticks).empty_slot == self.empty_slot,
        decreases ticks,
    {
        let k = self.range();
        if ticks == 0 {
            lemma_small_mod(self.time_cursor as nat, k as nat);
        } else {
            self.lemma_advance_by((ticks - 1) as nat);
            self.advance_by((ticks - 1) as nat).lemma_advance();
            lemma_add_mod_noop(self.time_cursor + ticks - 1, 1, k);
            if k == 1 {
                assert((self.time_cursor + ticks) % 1 == 0);
            } else {
                lemma_small_mod(1, k as nat);
            }
        }
    }

    /// Coverage of a period: among any `range` ticks in a row, every bucket
    /// is due at exactly one, the one that `visit_tick` gives.
    pub proof fn lemma_tick_coverage(self, start: nat, bucket: int)
        requires
            self.wf(),
            0 <= bucket < self.range(),
        ensures
            start <= self.visit_tick(start, bucket) < start + self.range(),
            self.advance_by(self.visit_tick(start, bucket)).time_cursor == bucket,
            self.advance_by(self.visit_tick(start, bucket)).due() == self.buckets[bucket].jobs(),
            forall|tick: nat|
                start <= tick < start + self.range() && (#[trigger] self.advance_by(
                    tick,
                )).time_cursor == bucket ==> tick == self.visit_tick(start, bucket),
    {
        let k = self.range();
        let c = self.time_cursor;
        let d = (bucket - c - start) % k;
        let visit = self.visit_tick(start, bucket);
        lemma_fundamental_div_mod(bucket - c - start, k);
        let q = (bucket - c - start) / k;
        assert(0 <= d < k);
        self.lemma_advance_by(visit);
        assert(c + start + d == k * (-q) + bucket) by (nonlinear_arith)
            requires
                bucket - c - start == k * q + d,
        ;
        lemma_div_mod_unique(c + visit, k, -q, bucket);
        assert forall|tick: nat|
            start <= tick < start + k && (#[trigger] self.advance_by(tick)).time_cursor
                == bucket implies tick == visit by {
            self.lemma_advance_by(tick);
            lemma_fundamental_div_mod(c + tick, k);
            let p = (c + tick) / k;
            assert(tick - visit == k * (p + q)) by (nonlinear_arith)
                requires
                    c + tick == k * p + bucket,
                    c + visit == k * (-q) + bucket,
            ;
            assert(p + q == 0) by (nonlinear_arith)
                requires
                    tick - visit == k * (p + q),
                    -k < tick - visit < k,
                    k > 0,
            ;
        }
    }

    /// A job fires once per period: on a wheel whose driver starts at bucket
    /// 0, the bucket that is due at a tick is the tick modulo the number of
    /// buckets, and a job that sits in a bucket is then listed once among the
    /// due jobs, at the index of its slot.
    pub proof fn lemma_fires_once(self, tick: nat, offset: int, position: int)
        requires
            self.wf(),
            self.time_cursor == 0,
            self.has_job(offset, position),
        ensures
            self.advance_by(tick).time_cursor == tick % (self.range() as nat),
            tick % (self.range() as nat) == offset ==> {
                let due = self.advance_by(tick).due();
                let index = self.buckets[offset].index_of(position);
                &&& 0 <= index < due.len()
                &&& due[index] == self.job_at(offset, position)
                &&& forall|other: int|
                    other != position && #[trigger] self.has_job(offset, other)
                        ==> self.buckets[offset].index_of(other) != index
            },
    {
        self.lemma_advance_by(tick);
        self.buckets[offset].lemma_jobs_once();
        assert(self.buckets[offset].holds(position));
        assert forall|other: int|
            other != position && #[trigger] self.has_job(offset, other) implies self.buckets[offset].index_of(
            other,
        ) != self.buckets[offset].index_of(position) by {
            assert(self.buckets[offset].holds(other));
        }
    }
}

/// Time wheel of the jobs that share one interval.
pub struct JobScheduler {
    fill_cursor: usize,
    empty_slot: Vec<usize>,
    jobs: Vec<Slab<Job>>,
    time_cursor: usize,
}

impl View for JobScheduler {
    type V = WheelView;

    closed spec fn view(&self) -> WheelView {
        WheelView {
            buckets: Seq::new(self.jobs@.len(), |b: int| BucketView::of(self.jobs@[b])),
            fill_cursor: self.fill_cursor as int,
            empty_slot: self.empty_slot@.map_values(|b: usize| b as int),
            time_cursor: self.time_cursor as int,
        }
    }
}

impl JobScheduler {
    /// Validity of the wheel: see [`WheelView::wf`].
    pub open spec fn wf(&self) -> bool {
        self@.wf()
    }

    /// Creates a wheel of `range` empty buckets, one per second of the
    /// interval, with both cursors at bucket 0.
    pub fn new(range: usize) -> (wheel: JobScheduler)
        requires
            range > 0,
        ensures
            wheel.wf(),
            wheel@ == WheelView::fresh(range as int),
    {
        let mut jobs: Vec<Slab<Job>> = Vec::with_capacity(range);
        let mut made: usize = 0;
        while made < range
            invariant
                made <= range,
                jobs@.len() == made,
                forall|b: int|
                    0 <= b < made ==> BucketView::of(#[trigger] jobs@[b]) == BucketView::empty(),
            decreases range - made,
        {
            jobs.push(slab_new());
            made = made + 1;
        }
        let wheel = JobScheduler { fill_cursor: 0, empty_slot: Vec::new(), jobs, time_cursor: 0 };
        assert(wheel@.buckets =~= WheelView::fresh(range as int).buckets);
        assert(wheel@.empty_slot =~= Seq::empty());
        wheel
    }

    /// Number of buckets of the wheel.
    pub fn range(&self) -> (range: usize)
        ensures
            range == self@.range(),
    {
        self.jobs.len()
    }

    /// The bucket that receives the next job when no freed slot is left.
    pub fn fill_cursor(&self) -> (cursor: usize)
        ensures
            cursor == self@.fill_cursor,
    {
        self.fill_cursor
    }

    /// The bucket that is due at the next tick.
    pub fn time_cursor(&self) -> (cursor: usize)
        ensures
            cursor == self@.time_cursor,
    {
        self.time_cursor
    }

    /// The jobs of bucket `offset` by increasing slot, or `None` when the
    /// wheel has no such bucket.
    pub fn jobs_at(&self, offset: usize) -> (found: Option<Vec<Job>>)
        ensures
            found.is_some() == (offset < self@.range()),
            found matches Some(jobs) ==> jobs@ == self@.buckets[offset as int].jobs(),
    {
        if offset >= self.jobs.len() {
            return None;
        }
        let held = slab_jobs(&self.jobs[offset]);
        let mut jobs: Vec<Job> = Vec::with_capacity(held.len());
        let mut copied: usize = 0;
        while copied < held.len()
            invariant
                copied <= held@.len(),
                jobs@.len() == copied,
                forall|i: int| 0 <= i < copied ==> jobs@[i] == *(#[trigger] held@[i]),
            decreases held@.len() - copied,
        {
            jobs.push(held[copied].clone());
            copied = copied + 1;
        }
        assert(jobs@ =~= held@.map_values(|job: &Job| *job));
        Some(jobs)
    }

    /// Places `job` and returns its bucket and its slot in that bucket.
    ///
    /// While a freed slot is left, the job takes the slot freed last.
    /// Otherwise it goes to the bucket under the fill cursor, which then
    /// moves on by one, wrapping round at the end of the wheel.
    pub fn add_job(&mut self, job: Job) -> (placed: (usize, usize))
        requires
            old(self).wf(),
        ensures
            final(self).wf(),
            placed.0 == old(self)@.next_bucket(),
            placed.1 == old(self)@.next_position(),
            final(self)@ == old(self)@.add_job(job),
            final(self)@.has_job(placed.0 as int, placed.1 as int),
            final(self)@.job_at(placed.0 as int, placed.1 as int) == job,
    {
        let ghost before = self@;
        let range = self.jobs.len();
        assert(before.range() == range);
        proof {
            before.lemma_add_job(job);
            before.lemma_fill_cursor_step();
        }
        let cursor: usize;
        if self.empty_slot.len() == 0 {
            cursor = self.fill_cursor;
            if self.fill_cursor + 1 == range {
                self.fill_cursor = 0;
            } else {
                self.fill_cursor = self.fill_cursor + 1;
            }
        } else {
            cursor = self.empty_slot.pop().unwrap();
        }
        let position = slab_insert(&mut self.jobs[cursor], job);
        assert(self@.empty_slot =~= before.add_job(job).empty_slot);
        assert(self@.buckets =~= before.add_job(job).buckets);
        (cursor, position)
    }

    /// Takes the job out of slot `position` of bucket `offset` and records
    /// the bucket as having a free slot. Returns `None`, changing nothing,
    /// when no job sits there.
    pub fn remove_job(&mut self, offset: usize, position: usize) -> (removed: Option<Job>)
        requires
            old(self).wf(),
        ensures
            final(self).wf(),
            old(self)@.has_job(offset as int, position as int) ==> removed == Some(
                old(self)@.job_at(offset as int, position as int),
            ) && final(self)@ == old(self)@.remove_job(offset as int, position as int),
            !old(self)@.has_job(offset as int, position as int) ==> removed.is_none() && final(self)@
                == old(self)@,
    {
        let ghost before = self@;
        if offset >= self.jobs.len() {
            return None;
        }
        let removed = slab_try_remove(&mut self.jobs[offset], position);
        if removed.is_some() {
            self.empty_slot.push(offset);
            proof {
                before.lemma_remove_job(offset as int, position as int);
                let after = before.remove_job(offset as int, position as int);
                assert(self@.empty_slot =~= after.empty_slot);
                assert(self@.buckets =~= after.buckets);
            }
        } else {
            assert(self@.buckets =~= before.buckets);
        }
        removed
    }

    /// One tick of the wheel's driver: fires every job of the bucket under
    /// the time cursor, in slot order, and moves the cursor on by one bucket.
    /// Returns what has to be done for each job that fired; the clients that
    /// the requests need are checked out of `resources`.
    pub fn tick(&mut self, resources: &mut JobRessources) -> (actions: Vec<JobAction>)
        requires
            old(self).wf(),
            old(resources).wf(),
        ensures
            final(self).wf(),
            final(resources).wf(),
            final(self)@ == old(self)@.advance(),
            actions@ == dispatch(old(self)@.due(), old(resources)@).0,
            final(resources)@ == dispatch(old(self)@.due(), old(resources)@).1,
    {
        let ghost before = self@;
        let range = self.jobs.len();
        assert(before.range() == range);
        let due = slab_jobs(&self.jobs[self.time_cursor]);
        let ghost jobs = due@.map_values(|job: &Job| *job);
        assert(jobs == before.due());
        let mut actions: Vec<JobAction> = Vec::with_capacity(due.len());
        let mut fired: usize = 0;
        while fired < due.len()
            invariant
                fired <= due@.len(),
                jobs == due@.map_values(|job: &Job| *job),
                resources.wf(),
                actions@ == dispatch(jobs.take(fired as int), old(resources)@).0,
                resources@ == dispatch(jobs.take(fired as int), old(resources)@).1,
            decreases due@.len() - fired,
        {
            let action = due[fired].execute(resources);
            actions.push(action);
            proof {
                assert(jobs.take(fired + 1).drop_last() =~= jobs.take(fired as int));
                assert(jobs.take(fired + 1).last() == *due@[fired as int]);
            }
            fired = fired + 1;
        }
        assert(jobs.take(fired as int) =~= jobs);
        if self.time_cursor + 1 == range {
            self.time_cursor = 0;
        } else {
            self.time_cursor = self.time_cursor + 1;
        }
        proof {
            before.lemma_advance();
            assert(self@.buckets =~= before.buckets);
        }
        actions
    }
}

} // verus!
