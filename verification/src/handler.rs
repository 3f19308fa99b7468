//! The registry of scheduled checks.
//!
//! The registry owns one wheel per interval that a check has asked for, the
//! placement of every check it has scheduled, and the clients the jobs run
//! with. Commands add and remove checks; the driver of each wheel asks it,
//! tick by tick, what has to be done.
use vstd::prelude::*;
use std::collections::HashMap;
use crate::job::{CheckOutput, Job, JobAction, JobRessources};
use crate::pool::PoolView;
use crate::wheel::{dispatch, lemma_dispatch, JobScheduler, WheelView};

verus! {

broadcast use vstd::std_specs::hash::group_hash_axioms;

/// Where a scheduled job sits: the wheel, by its interval in seconds, the
/// bucket within the wheel and the slot within the bucket.
#[derive(Debug, Clone, Copy, PartialEq, Eq, Structural)]
pub struct JobLocation {
    pub frequency: u64,
    pub offset: usize,
    pub position: usize,
}

/// Mathematical model of a [`JobLocation`].
pub struct Placement {
    /// Interval of the wheel, in seconds.
    pub frequency: u64,
    /// Bucket within the wheel.
    pub offset: int,
    /// Slot within the bucket.
    pub position: int,
}

impl View for JobLocation {
    type V = Placement;

    open spec fn view(&self) -> Placement {
        Placement {
            frequency: self.frequency,
            offset: self.offset as int,
            position: self.position as int,
        }
    }
}

/// A command of the inbound stream.
#[derive(Debug, PartialEq, Eq)]
pub enum Command {
    /// Schedule the check.
    Add(CheckOutput),
    /// Stop running the check with this identifier.
    Remove(u128),
}

/// Why a command was not carried out.
#[derive(Debug, Clone, Copy, PartialEq, Eq, Structural)]
pub enum CommandError {
    /// The interval of the check is zero or too long for a wheel.
    InvalidInterval { interval: u64 },
    /// No check with this identifier is scheduled.
    UnknownCheck { id: u128 },
}

/// Mathematical model of a [`JobsHandler`].
pub struct HandlerView {
    /// The shared pool of clients.
    pub resources: PoolView,
    /// The placement of each scheduled check.
    pub checks: Map<u128, Placement>,
    /// The wheel of each interval seen so far.
    pub jobs: Map<u64, WheelView>,
    /// Number of workers each wheel's driver may run jobs on.
    pub scheduler_task_pool_size: usize,
}

impl HandlerView {
    /// Whether a wheel can be made for `interval`: one bucket per second,
    /// at least one and no more than a collection can hold.
    pub open spec fn accepts(interval: u64) -> bool {
        0 < interval <= usize::MAX
    }

    /// Whether `location` names a slot that holds a job of check `id`.
    pub open spec fn locates(self, id: u128, location: Placement) -> bool {
        &&& self.jobs.contains_key(location.frequency)
        &&& self.jobs[location.frequency].has_job(location.offset, location.position)
        &&& self.jobs[location.frequency].job_at(location.offset, location.position).id == id
    }

    /// Validity of a registry: the pool is valid, the wheel of an interval
    /// is valid and has one bucket per second of it, and every recorded
    /// placement names a slot that holds a job of that check.
    pub open spec fn wf(self) -> bool {
        &&& self.resources.wf()
        &&& forall|interval: u64| #[trigger]
            self.jobs.contains_key(interval) ==> self.jobs[interval].wf()
                && self.jobs[interval].range() == interval
        &&& forall|id: u128| #[trigger]
            self.checks.contains_key(id) ==> self.locates(id, self.checks[id])
    }

    /// A registry without wheels and checks.
    pub open spec fn fresh(resources: PoolView, scheduler_task_pool_size: usize) -> HandlerView {
        HandlerView {
            resources,
            checks: Map::empty(),
            jobs: Map::empty(),
            scheduler_task_pool_size,
        }
    }

    /// The wheel that jobs of `interval` go to: the one the registry has, or
    /// a new one when it has none yet.
    pub open spec fn wheel(self, interval: u64) -> WheelView {
        if self.jobs.contains_key(interval) {
            self.jobs[interval]
        } else {
            WheelView::fresh(interval as int)
        }
    }

    /// Where `check` is placed when it is added.
    pub open spec fn placement(self, check: CheckOutput) -> Placement {
        Placement {
            frequency: check.interval,
            offset: self.wheel(check.interval).next_bucket(),
            position: self.wheel(check.interval).next_position(),
        }
    }

    /// The registry after `check` was added: its job is in the wheel of its
    /// interval, and its placement is recorded under its identifier, in place
    /// of any placement recorded there before.
    pub open spec fn add_check(self, check: CheckOutput) -> HandlerView {
        HandlerView {
            resources: self.resources,
            checks: self.checks.insert(check.id, self.placement(check)),
            jobs: self.jobs.insert(
                check.interval,
                self.wheel(check.interval).add_job(Job::of_check(check)),
            ),
            scheduler_task_pool_size: self.scheduler_task_pool_size,
        }
    }

    /// The registry after the check `id` was removed: its job has left its
    /// wheel, and no placement is recorded for it.
    pub open spec fn remove_check(self, id: u128) -> HandlerView
        recommends
            self.checks.contains_key(id),
    {
        let location = self.checks[id];
        HandlerView {
            resources: self.resources,
            checks: self.checks.remove(id),
            jobs: self.jobs.insert(
                location.frequency,
                self.jobs[location.frequency].remove_job(location.offset, location.position),
            ),
            scheduler_task_pool_size: self.scheduler_task_pool_size,
        }
    }

    /// The job of the check `id`.
    pub open spec fn job_of(self, id: u128) -> Job
        recommends
            self.checks.contains_key(id),
    {
        let location = self.checks[id];
        self.jobs[location.frequency].job_at(location.offset, location.position)
    }

    /// The error that `cmd` is answered with, if it is not carried out: a
    /// check with an interval no wheel can be made for, or the removal of a
    /// check that is not scheduled.
    pub open spec fn rejects(self, cmd: Command) -> Option<CommandError> {
        match cmd {
            Command::Add(check) => if Self::accepts(check.interval) {
                None
            } else {
                Some(CommandError::InvalidInterval { interval: check.interval })
            },
            Command::Remove(id) => if self.checks.contains_key(id) {
                None
            } else {
                Some(CommandError::UnknownCheck { id })
            },
        }
    }

    /// The registry after `cmd`: unchanged when the command is rejected.
    pub open spec fn apply(self, cmd: Command) -> HandlerView {
        if self.rejects(cmd).is_some() {
            self
        } else {
            match cmd {
                Command::Add(check) => self.add_check(check),
                Command::Remove(id) => self.remove_check(id),
            }
        }
    }

    /// The registry after one tick of the wheel of `interval`.
    pub open spec fn tick(self, interval: u64) -> HandlerView
        recommends
            self.jobs.contains_key(interval),
    {
        HandlerView {
            resources: dispatch(self.jobs[interval].due(), self.resources).1,
            checks: self.checks,
            jobs: self.jobs.insert(interval, self.jobs[interval].advance()),
            scheduler_task_pool_size: self.scheduler_task_pool_size,
        }
    }
}

impl HandlerView {
    /// Adding a check that the registry accepts keeps it valid and records,
    /// under the identifier of the check, the slot that now holds its job.
    pub proof fn lemma_add_check(self, check: CheckOutput)
        requires
            self.wf(),
            Self::accepts(check.interval),
        ensures
            self.add_check(check).wf(),
            self.wheel(check.interval).wf(),
            self.wheel(check.interval).range() == check.interval,
            self.add_check(check).checks.contains_key(check.id),
            self.add_check(check).checks[check.id] == self.placement(check),
            self.add_check(check).job_of(check.id) == Job::of_check(check),
    {
        let after = self.add_check(check);
        let wheel = self.wheel(check.interval);
        let job = Job::of_check(check);
        if !self.jobs.contains_key(check.interval) {
            WheelView::lemma_placement(check.interval as int, Seq::empty());
        }
        wheel.lemma_add_job(job);
        assert forall|interval: u64| #[trigger] after.jobs.contains_key(interval) implies after.jobs[interval].wf()
            && after.jobs[interval].range() == interval by {
            if interval != check.interval {
                assert(self.jobs.contains_key(interval));
            }
        }
        assert forall|id: u128| #[trigger] after.checks.contains_key(id) implies after.locates(
            id,
            after.checks[id],
        ) by {
            if id != check.id {
                assert(self.checks.contains_key(id));
                let location = self.checks[id];
                assert(self.locates(id, location));
                if location.frequency == check.interval {
                    assert(wheel.has_job(location.offset, location.position));
                }
            }
        }
    }

    /// Removing a scheduled check keeps the registry valid, forgets the
    /// placement of the check and frees the slot that held its job.
    pub proof fn lemma_remove_check(self, id: u128)
        requires
            self.wf(),
            self.checks.contains_key(id),
        ensures
            self.remove_check(id).wf(),
            !self.remove_check(id).checks.contains_key(id),
            self.remove_check(id).jobs.contains_key(self.checks[id].frequency),
            !self.remove_check(id).jobs[self.checks[id].frequency].has_job(
                self.checks[id].offset,
                self.checks[id].position,
            ),
    {
        let after = self.remove_check(id);
        let gone = self.checks[id];
        assert(self.locates(id, gone));
        let wheel = self.jobs[gone.frequency];
        wheel.lemma_remove_job(gone.offset, gone.position);
        assert forall|interval: u64| #[trigger] after.jobs.contains_key(interval) implies after.jobs[interval].wf()
            && after.jobs[interval].range() == interval by {
            assert(self.jobs.contains_key(interval));
        }
        assert forall|other: u128| #[trigger] after.checks.contains_key(other) implies after.locates(
            other,
            after.checks[other],
        ) by {
            assert(self.checks.contains_key(other));
            let location = self.checks[other];
            assert(self.locates(other, location));
            if location.frequency == gone.frequency {
                assert(wheel.has_job(location.offset, location.position));
                assert(location.offset != gone.offset || location.position != gone.position);
            }
        }
    }

    /// A tick of one wheel keeps the registry valid.
    pub proof fn lemma_tick(self, interval: u64)
        requires
            self.wf(),
            self.jobs.contains_key(interval),
        ensures
            self.tick(interval).wf(),
    {
        let after = self.tick(interval);
        self.jobs[interval].lemma_advance();
        lemma_dispatch(self.jobs[interval].due(), self.resources);
        assert forall|other: u64| #[trigger] after.jobs.contains_key(other) implies after.jobs[other].wf()
            && after.jobs[other].range() == other by {
            assert(self.jobs.contains_key(other));
        }
        assert forall|id: u128| #[trigger] after.checks.contains_key(id) implies after.locates(
            id,
            after.checks[id],
        ) by {
            assert(self.locates(id, self.checks[id]));
        }
    }

    /// The interval whose wheel `cmd` works on.
    pub open spec fn interval_of(self, cmd: Command) -> u64 {
        match cmd {
            Command::Add(check) => check.interval,
            Command::Remove(id) => self.checks[id].frequency,
        }
    }

    /// Wheels are independent: a command leaves the wheel of every interval
    /// but its own as it was, buckets and cursors alike, and makes or drops
    /// no wheel of another interval. The same holds of a tick.
    pub proof fn lemma_interval_isolation(self, cmd: Command, other: u64)
        requires
            other != self.interval_of(cmd),
        ensures
            self.apply(cmd).jobs.contains_key(other) == self.jobs.contains_key(other),
            self.jobs.contains_key(other) ==> self.apply(cmd).jobs[other] == self.jobs[other],
            forall|interval: u64|
                other != interval ==> (#[trigger] self.tick(interval)).jobs.contains_key(other)
                    == self.jobs.contains_key(other),
            forall|interval: u64|
                other != interval && self.jobs.contains_key(other) ==> (#[trigger] self.tick(
                    interval,
                )).jobs[other] == self.jobs[other],
    {
    }

    /// Round trip: adding a check and removing it again leaves no placement
    /// for its identifier, frees the slot its job was put in, and leaves in
    /// every bucket of its wheel the jobs that were there before. Every
    /// other check keeps its placement.
    pub proof fn lemma_add_then_remove(self, check: CheckOutput)
        requires
            self.wf(),
            Self::accepts(check.interval),
        ensures
            self.add_check(check).remove_check(check.id).wf(),
            !self.add_check(check).remove_check(check.id).checks.contains_key(check.id),
            self.add_check(check).remove_check(check.id).checks == self.checks.remove(check.id),
            self.add_check(check).remove_check(check.id).jobs.contains_key(check.interval),
            !self.add_check(check).remove_check(check.id).jobs[check.interval].has_job(
                self.placement(check).offset,
                self.placement(check).position,
            ),
            forall|b: int|
                0 <= b < check.interval ==> (#[trigger] self.add_check(check).remove_check(
                    check.id,
                ).jobs[check.interval].buckets[b]).jobs() == self.wheel(
                    check.interval,
                ).buckets[b].jobs(),
    {
        let added = self.add_check(check);
        let back = added.remove_check(check.id);
        let place = self.placement(check);
        let wheel = self.wheel(check.interval);
        self.lemma_add_check(check);
        added.lemma_remove_check(check.id);
        assert(back.checks =~= self.checks.remove(check.id));
        wheel.lemma_add_job(Job::of_check(check));
        wheel.buckets[place.offset].lemma_insert_remove(Job::of_check(check));
    }
}

/// The registry: entry point for the commands and the drivers.
pub struct JobsHandler {
    resources: JobRessources,
    checks: HashMap<u128, JobLocation>,
    jobs: HashMap<u64, JobScheduler>,
    scheduler_task_pool_size: usize,
}

impl View for JobsHandler {
    type V = HandlerView;

    closed spec fn view(&self) -> HandlerView {
        HandlerView {
            resources: self.resources@,
            checks: self.checks@.map_values(|location: JobLocation| location@),
            jobs: self.jobs@.map_values(|wheel: JobScheduler| wheel@),
            scheduler_task_pool_size: self.scheduler_task_pool_size,
        }
    }
}

impl JobsHandler {
    /// Validity of the registry: see [`HandlerView::wf`].
    pub open spec fn wf(&self) -> bool {
        self@.wf()
    }

    /// Creates a registry without wheels and checks.
    pub fn new(resources: JobRessources, scheduler_task_pool_size: usize) -> (handler: JobsHandler)
        requires
            resources.wf(),
        ensures
            handler.wf(),
            handler@ == HandlerView::fresh(resources@, scheduler_task_pool_size),
    {
        let handler = JobsHandler {
            resources,
            checks: HashMap::new(),
            jobs: HashMap::new(),
            scheduler_task_pool_size,
        };
        assert(handler@.jobs =~= Map::empty());
        assert(handler@.checks =~= Map::empty());
        handler
    }

    /// Schedules `c`: makes the wheel of its interval if there is none yet,
    /// places its job there and records the placement under its identifier,
    /// in place of any placement recorded there before. A check whose
    /// interval no wheel can be made for is rejected.
    pub fn add_check(&mut self, c: &CheckOutput) -> (added: Result<JobLocation, CommandError>)
        requires
            old(self).wf(),
        ensures
            final(self).wf(),
            HandlerView::accepts(c.interval) ==> added.is_ok() && added.unwrap()@ == old(
                self,
            )@.placement(*c) && final(self)@ == old(self)@.add_check(*c),
            !HandlerView::accepts(c.interval) ==> added == Err::<JobLocation, CommandError>(
                CommandError::InvalidInterval { interval: c.interval },
            ) && final(self)@ == old(self)@,
    {
        let ghost before = self@;
        let frequency = c.interval;
        if frequency == 0 || frequency > usize::MAX as u64 {
            return Err(CommandError::InvalidInterval { interval: frequency });
        }
        proof {
            before.lemma_add_check(*c);
        }
        let mut wheel = match self.jobs.remove(&frequency) {
            Some(wheel) => wheel,
            None => JobScheduler::new(frequency as usize),
        };
        assert(wheel@ == before.wheel(frequency));
        let (offset, position) = wheel.add_job(Job::from(c.clone()));
        self.jobs.insert(frequency, wheel);
        let location = JobLocation { frequency, offset, position };
        self.checks.insert(c.id, location);
        assert(self@.jobs =~= before.add_check(*c).jobs);
        assert(self@.checks =~= before.add_check(*c).checks);
        Ok(location)
    }

    /// Stops the check `check_id`: takes its job out of its wheel, forgets
    /// its placement and returns the job. Reports a check that is not
    /// scheduled, changing nothing.
    pub fn remove_check(&mut self, check_id: u128) -> (removed: Result<Job, CommandError>)
        requires
            old(self).wf(),
        ensures
            final(self).wf(),
            old(self)@.checks.contains_key(check_id) ==> removed == Ok::<Job, CommandError>(
                old(self)@.job_of(check_id),
            ) && final(self)@ == old(self)@.remove_check(check_id),
            !old(self)@.checks.contains_key(check_id) ==> removed == Err::<Job, CommandError>(
                CommandError::UnknownCheck { id: check_id },
            ) && final(self)@ == old(self)@,
    {
        let ghost before = self@;
        let location = match self.checks.remove(&check_id) {
            Some(location) => location,
            None => {
                assert(self@.checks =~= before.checks);
                return Err(CommandError::UnknownCheck { id: check_id });
            },
        };
        proof {
            assert(before.checks.contains_key(check_id) && before.checks[check_id] == location@);
            assert(before.locates(check_id, location@));
            before.lemma_remove_check(check_id);
        }
        let mut wheel = self.jobs.remove(&location.frequency).unwrap();
        let job = wheel.remove_job(location.offset, location.position).unwrap();
        self.jobs.insert(location.frequency, wheel);
        assert(self@.jobs =~= before.remove_check(check_id).jobs);
        assert(self@.checks =~= before.remove_check(check_id).checks);
        Ok(job)
    }

    /// Carries out a command of the inbound stream: schedules the check of
    /// an `Add`, stops the check of a `Remove`. A command that cannot be
    /// carried out is reported and changes nothing.
    pub fn handle_command(&mut self, cmd: Command) -> (handled: Result<(), CommandError>)
        requires
            old(self).wf(),
        ensures
            final(self).wf(),
            final(self)@ == old(self)@.apply(cmd),
            handled == match old(self)@.rejects(cmd) {
                Some(error) => Err::<(), CommandError>(error),
                None => Ok::<(), CommandError>(()),
            },
    {
        match cmd {
            Command::Add(check) => match self.add_check(&check) {
                Ok(_) => Ok(()),
                Err(error) => Err(error),
            },
            Command::Remove(id) => match self.remove_check(id) {
                Ok(_) => Ok(()),
                Err(error) => Err(error),
            },
        }
    }

    /// One tick of the driver of the wheel of `interval`: fires the jobs
    /// that are due in that wheel and moves its time cursor on. Returns what
    /// has to be done for each of them, or `None`, changing nothing, when the
    /// registry has no wheel of that interval.
    pub fn tick(&mut self, interval: u64) -> (fired: Option<Vec<JobAction>>)
        requires
            old(self).wf(),
        ensures
            final(self).wf(),
            old(self)@.jobs.contains_key(interval) ==> final(self)@ == old(self)@.tick(interval),
            old(self)@.jobs.contains_key(interval) ==> fired.is_some() && fired.unwrap()@
                == dispatch(old(self)@.jobs[interval].due(), old(self)@.resources).0,
            !old(self)@.jobs.contains_key(interval) ==> fired.is_none(),
            !old(self)@.jobs.contains_key(interval) ==> final(self)@ == old(self)@,
    {
        let ghost before = self@;
        let mut wheel = match self.jobs.remove(&interval) {
            Some(wheel) => wheel,
            None => {
                assert(self@.jobs =~= before.jobs);
                return None;
            },
        };
        proof {
            assert(before.jobs.contains_key(interval) && wheel@ == before.jobs[interval]);
            before.lemma_tick(interval);
        }
        let actions = wheel.tick(&mut self.resources);
        self.jobs.insert(interval, wheel);
        assert(self@.jobs =~= before.tick(interval).jobs);
        Some(actions)
    }

    /// Gives the client `client` back to the pool once its request is done.
    /// Returns `false`, changing nothing, when the pool has no such client
    /// checked out.
    pub fn release(&mut self, client: usize) -> (accepted: bool)
        requires
            old(self).wf(),
        ensures
            final(self).wf(),
            accepted == old(self)@.resources.is_out(client),
            accepted ==> final(self)@ == (HandlerView {
                resources: old(self)@.resources.give_back(client),
                ..old(self)@
            }),
            !accepted ==> final(self)@ == old(self)@,
    {
        let ghost before = self@;
        let accepted = self.resources.http_pool.put(client);
        proof {
            assert forall|id: u128| #[trigger] self@.checks.contains_key(id) implies self@.locates(
                id,
                self@.checks[id],
            ) by {
                assert(before.locates(id, before.checks[id]));
            }
        }
        accepted
    }

    /// The placement recorded for the check `id`, if it is scheduled.
    pub fn location(&self, id: u128) -> (location: Option<JobLocation>)
        ensures
            location.is_some() == self@.checks.contains_key(id),
            location matches Some(found) ==> found@ == self@.checks[id],
    {
        match self.checks.get(&id) {
            Some(location) => Some(*location),
            None => None,
        }
    }

    /// The wheel of `interval`, if there is one.
    pub fn wheel(&self, interval: u64) -> (wheel: Option<&JobScheduler>)
        ensures
            wheel.is_some() == self@.jobs.contains_key(interval),
            wheel matches Some(found) ==> found@ == self@.jobs[interval],
    {
        self.jobs.get(&interval)
    }

    /// Number of workers each wheel's driver may run jobs on.
    pub fn scheduler_task_pool_size(&self) -> (size: usize)
        ensures
            size == self@.scheduler_task_pool_size,
    {
        self.scheduler_task_pool_size
    }

    /// The resources the jobs run with.
    pub fn resources(&self) -> (resources: &JobRessources)
        ensures
            resources@ == self@.resources,
    {
        &self.resources
    }
}

} // verus!
