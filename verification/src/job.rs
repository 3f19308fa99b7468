//! Jobs: the unit of scheduled work, and what firing one asks for.
use vstd::prelude::*;
use vstd::std_specs::convert::FromSpecImpl;
use crate::brokers::{Event, Failure, Outcome};
use crate::pool::{MagicPool, PoolView};

verus! {

/// The clients that jobs need to run, shared by every wheel.
#[derive(Debug)]
pub struct JobRessources {
    pub http_pool: MagicPool,
}

impl View for JobRessources {
    type V = PoolView;

    open spec fn view(&self) -> PoolView {
        self.http_pool@
    }
}

impl JobRessources {
    /// Validity of the resources: the pool is valid.
    pub open spec fn wf(&self) -> bool {
        self.http_pool.wf()
    }
}

impl Default for JobRessources {
    /// Resources with a pool of ten HTTP clients, all idle.
    fn default() -> (resources: Self)
        ensures
            resources.wf(),
            resources@ == PoolView::fresh(10),
    {
        JobRessources { http_pool: MagicPool::new(10) }
    }
}

/// Request template of an HTTP probe. It is never changed once built, only
/// copied into the requests that are sent.
#[derive(Debug, PartialEq, Eq)]
pub struct HttpContext {
    pub url: String,
}

impl HttpContext {
    /// A template that probes `url`.
    pub fn new(url: String) -> (ctx: HttpContext)
        ensures
            ctx.url == url,
    {
        HttpContext { url }
    }

    /// The address the probe is sent to.
    pub fn url(&self) -> (url: &String)
        ensures
            *url == self.url,
    {
        &self.url
    }
}

impl Clone for HttpContext {
    fn clone(&self) -> (copy: Self)
        ensures
            copy == *self,
    {
        HttpContext { url: self.url.clone() }
    }
}

/// What a job does when it fires.
#[derive(Debug, PartialEq, Eq)]
pub enum JobKind {
    /// Send the request built from the template.
    Http(HttpContext),
    /// Do nothing: stands for a check whose kind the agent cannot execute.
    Dummy,
}

impl Clone for JobKind {
    fn clone(&self) -> (copy: Self)
        ensures
            copy == *self,
    {
        match self {
            JobKind::Http(ctx) => JobKind::Http(ctx.clone()),
            JobKind::Dummy => JobKind::Dummy,
        }
    }
}

/// One scheduled unit of work.
#[derive(Debug, PartialEq, Eq)]
pub struct Job {
    /// Identifier of the check the job was made from.
    pub id: u128,
    pub kind: JobKind,
}

impl Clone for Job {
    fn clone(&self) -> (copy: Self)
        ensures
            copy == *self,
    {
        Job { id: self.id, kind: self.kind.clone() }
    }
}

/// What a check asks the agent to do, as the command stream names it.
#[derive(Debug, PartialEq, Eq)]
pub enum CheckKind {
    /// An HTTP probe.
    Http(HttpContext),
    /// Any kind this agent does not know how to execute.
    Other,
}

impl Clone for CheckKind {
    fn clone(&self) -> (copy: Self)
        ensures
            copy == *self,
    {
        match self {
            CheckKind::Http(ctx) => CheckKind::Http(ctx.clone()),
            CheckKind::Other => CheckKind::Other,
        }
    }
}

/// A check as a command describes it.
#[derive(Debug, PartialEq, Eq)]
pub struct CheckOutput {
    pub id: u128,
    /// Period of the check in seconds.
    pub interval: u64,
    pub kind: CheckKind,
}

impl Clone for CheckOutput {
    fn clone(&self) -> (copy: Self)
        ensures
            copy == *self,
    {
        CheckOutput { id: self.id, interval: self.interval, kind: self.kind.clone() }
    }
}

impl Job {
    /// The job that stands for `check`: an HTTP check becomes an HTTP job
    /// with the same template, every other kind the no-op job.
    pub open spec fn of_check(check: CheckOutput) -> Job {
        Job {
            id: check.id,
            kind: match check.kind {
                CheckKind::Http(ctx) => JobKind::Http(ctx),
                CheckKind::Other => JobKind::Dummy,
            },
        }
    }
}

impl From<CheckOutput> for Job {
    fn from(value: CheckOutput) -> (job: Job)
        ensures
            job == Job::of_check(value),
    {
        let kind = match value.kind {
            CheckKind::Http(http) => JobKind::Http(http),
            _ => JobKind::Dummy,
        };
        Job { id: value.id, kind }
    }
}

impl FromSpecImpl<CheckOutput> for Job {
    open spec fn obeys_from_spec() -> bool {
        true
    }

    open spec fn from_spec(v: CheckOutput) -> Job {
        Job::of_check(v)
    }
}

/// The reply of a pooled HTTP client to one request.
#[derive(Debug, Clone, Copy, PartialEq, Eq)]
pub struct HttpResponse {
    pub status: u16,
    /// Time the request took, in milliseconds.
    pub request_time_ms: u128,
}

/// What the driver has to do for a job that fired.
#[derive(Debug, PartialEq, Eq)]
pub enum JobAction {
    /// Nothing to run: note that the check fired.
    Trace { id: u128 },
    /// Send `request` with the pooled client `client`, which is checked out
    /// for this job until it is given back.
    Send { id: u128, request: HttpContext, client: usize },
    /// The job could not run: every client of the pool is in use.
    Exhausted { id: u128 },
}

impl JobAction {
    /// The check that the action belongs to.
    pub open spec fn id(self) -> u128 {
        match self {
            JobAction::Trace { id } => id,
            JobAction::Send { id, .. } => id,
            JobAction::Exhausted { id } => id,
        }
    }

    /// The event that reports how the action ended. A no-op reports
    /// nothing. A request reports success with the status and the time of the
    /// reply, or a failure when the client has no reply. A job that found no
    /// idle client reports that.
    pub open spec fn outcome(self, timestamp: u64, reply: Option<HttpResponse>) -> Option<Event> {
        match self {
            JobAction::Trace { .. } => None,
            JobAction::Send { id, .. } => Some(
                match reply {
                    Some(res) => Event {
                        id,
                        timestamp,
                        outcome: Outcome::Success { status: res.status },
                        latency_ms: Some(res.request_time_ms),
                    },
                    None => Event {
                        id,
                        timestamp,
                        outcome: Outcome::Failed(Failure::NoResponse),
                        latency_ms: None,
                    },
                },
            ),
            JobAction::Exhausted { id } => Some(
                Event {
                    id,
                    timestamp,
                    outcome: Outcome::Failed(Failure::PoolExhausted),
                    latency_ms: None,
                },
            ),
        }
    }

    /// Turns the end of an action into the event to deliver, if any.
    /// `reply` is what the client returned; it is only read for a request.
    pub fn conclude(&self, timestamp: u64, reply: Option<HttpResponse>) -> (event: Option<Event>)
        ensures
            event == self.outcome(timestamp, reply),
    {
        match self {
            JobAction::Trace { .. } => None,
            JobAction::Send { id, .. } => {
                let event = match reply {
                    Some(res) => Event {
                        id: *id,
                        timestamp,
                        outcome: Outcome::Success { status: res.status },
                        latency_ms: Some(res.request_time_ms),
                    },
                    None => Event {
                        id: *id,
                        timestamp,
                        outcome: Outcome::Failed(Failure::NoResponse),
                        latency_ms: None,
                    },
                };
                Some(event)
            },
            JobAction::Exhausted { id } => Some(
                Event {
                    id: *id,
                    timestamp,
                    outcome: Outcome::Failed(Failure::PoolExhausted),
                    latency_ms: None,
                },
            ),
        }
    }
}

impl Job {
    /// What firing the job asks for, given the state of the pool.
    pub open spec fn action(self, pool: PoolView) -> JobAction {
        match self.kind {
            JobKind::Dummy => JobAction::Trace { id: self.id },
            JobKind::Http(ctx) => if pool.has_idle() {
                JobAction::Send { id: self.id, request: ctx, client: pool.next_handle() }
            } else {
                JobAction::Exhausted { id: self.id }
            },
        }
    }

    /// The pool after the job fired: an HTTP job checks one client out when
    /// one is idle; nothing else touches the pool.
    pub open spec fn pool_after(self, pool: PoolView) -> PoolView {
        match self.kind {
            JobKind::Dummy => pool,
            JobKind::Http(_) => if pool.has_idle() {
                pool.checkout()
            } else {
                pool
            },
        }
    }

    fn execute_dummy(id: &u128) -> (action: JobAction)
        ensures
            action == (JobAction::Trace { id: *id }),
    {
        JobAction::Trace { id: *id }
    }

    fn execute_http(id: &u128, ctx: HttpContext, resources: &mut JobRessources) -> (action:
        JobAction)
        requires
            old(resources).wf(),
        ensures
            final(resources).wf(),
            old(resources)@.has_idle() ==> action == (JobAction::Send {
                id: *id,
                request: ctx,
                client: old(resources)@.next_handle(),
            }) && final(resources)@ == old(resources)@.checkout(),
            !old(resources)@.has_idle() ==> action == (JobAction::Exhausted { id: *id })
                && final(resources)@ == old(resources)@,
    {
        match resources.http_pool.get() {
            Some(client) => JobAction::Send { id: *id, request: ctx, client },
            None => JobAction::Exhausted { id: *id },
        }
    }

    /// Fires the job: decides what has to be done for it and checks out the
    /// client it needs. The work itself is left to the caller.
    pub fn execute(&self, resources: &mut JobRessources) -> (action: JobAction)
        requires
            old(resources).wf(),
        ensures
            final(resources).wf(),
            action == self.action(old(resources)@),
            final(resources)@ == self.pool_after(old(resources)@),
    {
        match &self.kind {
            JobKind::Dummy => Self::execute_dummy(&self.id),
            JobKind::Http(ctx) => Self::execute_http(&self.id, ctx.clone(), resources),
        }
    }
}

} // verus!
