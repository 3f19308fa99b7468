//! Scheduling core of a monitoring agent.
//!
//! Periodic checks are sharded by interval: every distinct interval owns a
//! time wheel with one bucket per second of its period. New jobs are spread
//! round-robin over the buckets, freed slots are reused first, and a driver
//! visits one bucket per tick and dispatches the jobs it holds against a
//! bounded pool of clients.
//!
//! The library decides; it performs no I/O. A driver calls
//! [`JobsHandler::tick`] once per second and wheel, carries out the
//! [`JobAction`]s it gets back, and hands what came of them to
//! [`JobAction::conclude`] and on to a [`Broker`].
pub mod brokers;
pub mod handler;
pub mod job;
pub mod pool;
pub mod slots;
pub mod wheel;

pub use crate::brokers::{Broker, Delivery, DevBroker, Event, Failure, Outcome};
pub use crate::handler::{Command, CommandError, JobLocation, JobsHandler};
pub use crate::job::{
    CheckKind, CheckOutput, HttpContext, HttpResponse, Job, JobAction, JobKind, JobRessources,
};
pub use crate::pool::MagicPool;
pub use crate::wheel::JobScheduler;
