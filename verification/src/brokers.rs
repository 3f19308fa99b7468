//! Result events and the sinks that accept them.
use vstd::prelude::*;

verus! {

/// Why a check produced no reply.
#[derive(Debug, Clone, Copy, PartialEq, Eq, Structural)]
pub enum Failure {
    /// The client returned nothing for the request.
    NoResponse,
    /// No client could be had from the pool.
    PoolExhausted,
}

/// How one run of a check ended.
#[derive(Debug, Clone, Copy, PartialEq, Eq, Structural)]
pub enum Outcome {
    Success { status: u16 },
    Failed(Failure),
}

/// Record of one completed run of a check.
#[derive(Debug, Clone, Copy, PartialEq, Eq)]
pub struct Event {
    /// The check that ran.
    pub id: u128,
    /// When the run completed, as the caller's clock gave it.
    pub timestamp: u64,
    pub outcome: Outcome,
    /// Time the reply took in milliseconds, where there was a reply.
    pub latency_ms: Option<u128>,
}

/// Sink that keeps every event in memory, in the order of arrival.
#[derive(Debug)]
pub struct DevBroker {
    events: Vec<Event>,
}

impl View for DevBroker {
    type V = Seq<Event>;

    closed spec fn view(&self) -> Seq<Event> {
        self.events@
    }
}

impl DevBroker {
    /// A sink that has received nothing yet.
    pub fn new() -> (broker: DevBroker)
        ensures
            broker@ == Seq::<Event>::empty(),
    {
        DevBroker { events: Vec::new() }
    }

    /// Appends `event` to the log.
    pub fn send_events(&mut self, event: Event)
        ensures
            final(self)@ == old(self)@.push(event),
    {
        self.events.push(event);
    }

    /// The events received so far, oldest first.
    pub fn events(&self) -> (events: &Vec<Event>)
        ensures
            events@ == self@,
    {
        &self.events
    }
}

/// What is left to do for an event once a sink has accepted it.
#[derive(Debug, Clone, Copy, PartialEq, Eq)]
pub enum Delivery {
    /// The sink keeps the event itself; nothing is left to do.
    Stored,
    /// The event has to be transmitted to the remote collector.
    Forward(Event),
}

/// The sinks an agent can deliver events to.
#[derive(Debug)]
pub enum Broker {
    /// A remote collector reached over the network.
    Grpc,
    /// The in-memory log.
    Dev(DevBroker),
}

impl Broker {
    /// The events that the sink holds in memory: those received so far for
    /// the in-memory log, none for a remote collector.
    pub open spec fn log(self) -> Seq<Event> {
        match self {
            Broker::Grpc => Seq::empty(),
            Broker::Dev(broker) => broker@,
        }
    }

    /// Hands `event` to the sink. The in-memory log appends it; for the
    /// remote collector the event comes back to be transmitted, and the sink
    /// itself does not change.
    pub fn send_events(&mut self, event: Event) -> (delivery: Delivery)
        ensures
            *old(self) is Grpc ==> delivery == Delivery::Forward(event) && *final(self) is Grpc,
            *old(self) is Dev ==> delivery == Delivery::Stored && *final(self) is Dev,
            *old(self) is Dev ==> final(self).log() == old(self).log().push(event),
    {
        match self {
            Broker::Grpc => Delivery::Forward(event),
            Broker::Dev(broker) => {
                broker.send_events(event);
                Delivery::Stored
            },
        }
    }
}

} // verus!
