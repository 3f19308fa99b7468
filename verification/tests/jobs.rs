use ping_agent::{
    Broker, CheckKind, CheckOutput, Delivery, DevBroker, Event, Failure, HttpContext,
    HttpResponse, Job, JobAction, JobKind, JobRessources, MagicPool, Outcome,
};

fn template() -> HttpContext {
    HttpContext::new("http://example.test".to_string())
}

#[test]
fn http_check_becomes_http_job() {
    let check = CheckOutput { id: 42, interval: 5, kind: CheckKind::Http(template()) };
    let job = Job::from(check);
    assert_eq!(job, Job { id: 42, kind: JobKind::Http(template()) });
}

#[test]
fn unsupported_check_becomes_dummy_job() {
    let check = CheckOutput { id: 43, interval: 5, kind: CheckKind::Other };
    assert_eq!(Job::from(check), Job { id: 43, kind: JobKind::Dummy });
}

#[test]
fn template_keeps_its_url() {
    let ctx = template();
    assert_eq!(ctx.url(), "http://example.test");
    assert_eq!(ctx.clone(), ctx);
}

#[test]
fn clones_are_equal_to_their_source() {
    let job = Job { id: 1, kind: JobKind::Http(template()) };
    assert_eq!(job.clone(), job);
    let check = CheckOutput { id: 2, interval: 9, kind: CheckKind::Http(template()) };
    assert_eq!(check.clone(), check);
    assert_eq!(JobKind::Dummy.clone(), JobKind::Dummy);
    assert_eq!(CheckKind::Other.clone(), CheckKind::Other);
}

#[test]
fn dummy_job_only_asks_for_a_trace() {
    let mut resources = JobRessources::default();
    let job = Job { id: 7, kind: JobKind::Dummy };
    assert_eq!(job.execute(&mut resources), JobAction::Trace { id: 7 });
    assert_eq!(resources.http_pool.available(), 10);
}

#[test]
fn http_job_checks_a_client_out() {
    let mut resources = JobRessources::default();
    let job = Job { id: 8, kind: JobKind::Http(template()) };
    assert_eq!(
        job.execute(&mut resources),
        JobAction::Send { id: 8, request: template(), client: 0 }
    );
    assert_eq!(resources.http_pool.available(), 9);
    assert_eq!(
        job.execute(&mut resources),
        JobAction::Send { id: 8, request: template(), client: 1 }
    );
    assert_eq!(resources.http_pool.available(), 8);
}

#[test]
fn http_job_without_idle_client_is_exhausted() {
    let mut resources = JobRessources { http_pool: MagicPool::new(1) };
    let job = Job { id: 9, kind: JobKind::Http(template()) };
    assert_eq!(
        job.execute(&mut resources),
        JobAction::Send { id: 9, request: template(), client: 0 }
    );
    assert_eq!(job.execute(&mut resources), JobAction::Exhausted { id: 9 });
    assert_eq!(resources.http_pool.available(), 0);
    assert!(resources.http_pool.put(0));
    assert_eq!(
        job.execute(&mut resources),
        JobAction::Send { id: 9, request: template(), client: 0 }
    );
}

#[test]
fn trace_reports_nothing() {
    let action = JobAction::Trace { id: 1 };
    assert_eq!(action.conclude(100, None), None);
    assert_eq!(
        action.conclude(100, Some(HttpResponse { status: 200, request_time_ms: 3 })),
        None
    );
}

#[test]
fn reply_is_reported_as_success() {
    let action = JobAction::Send { id: 2, request: template(), client: 4 };
    assert_eq!(
        action.conclude(1_700_000_000, Some(HttpResponse { status: 503, request_time_ms: 27 })),
        Some(Event {
            id: 2,
            timestamp: 1_700_000_000,
            outcome: Outcome::Success { status: 503 },
            latency_ms: Some(27),
        })
    );
}

#[test]
fn missing_reply_is_reported_as_failure() {
    let action = JobAction::Send { id: 3, request: template(), client: 0 };
    assert_eq!(
        action.conclude(55, None),
        Some(Event {
            id: 3,
            timestamp: 55,
            outcome: Outcome::Failed(Failure::NoResponse),
            latency_ms: None,
        })
    );
}

#[test]
fn exhausted_pool_is_reported_as_failure() {
    let action = JobAction::Exhausted { id: 4 };
    let expected = Event {
        id: 4,
        timestamp: 56,
        outcome: Outcome::Failed(Failure::PoolExhausted),
        latency_ms: None,
    };
    assert_eq!(action.conclude(56, None), Some(expected));
    assert_eq!(
        action.conclude(56, Some(HttpResponse { status: 200, request_time_ms: 1 })),
        Some(expected)
    );
}

#[test]
fn default_resources_hold_ten_clients() {
    let resources = JobRessources::default();
    assert_eq!(resources.http_pool.size(), 10);
    assert_eq!(resources.http_pool.available(), 10);
}

#[test]
fn pool_hands_out_each_handle_once() {
    let mut pool = MagicPool::new(3);
    assert_eq!(pool.get(), Some(0));
    assert_eq!(pool.get(), Some(1));
    assert_eq!(pool.get(), Some(2));
    assert_eq!(pool.get(), None);
    assert_eq!(pool.available(), 0);
    assert_eq!(pool.size(), 3);
}

#[test]
fn pool_takes_back_only_what_is_out() {
    let mut pool = MagicPool::new(2);
    assert!(!pool.put(0));
    assert!(!pool.put(2));
    assert_eq!(pool.get(), Some(0));
    assert_eq!(pool.get(), Some(1));
    assert!(pool.put(0));
    assert!(!pool.put(0));
    assert_eq!(pool.available(), 1);
    assert_eq!(pool.get(), Some(0));
    assert!(pool.put(1));
    assert!(pool.put(0));
    assert_eq!(pool.get(), Some(0));
    assert_eq!(pool.get(), Some(1));
}

#[test]
fn empty_pool_never_hands_out() {
    let mut pool = MagicPool::new(0);
    assert_eq!(pool.get(), None);
    assert!(!pool.put(0));
}

fn event(id: u128, timestamp: u64) -> Event {
    Event { id, timestamp, outcome: Outcome::Success { status: 200 }, latency_ms: Some(1) }
}

#[test]
fn dev_broker_keeps_events_in_arrival_order() {
    let mut broker = DevBroker::new();
    assert!(broker.events().is_empty());
    broker.send_events(event(3, 10));
    broker.send_events(event(1, 11));
    broker.send_events(event(3, 12));
    assert_eq!(broker.events(), &vec![event(3, 10), event(1, 11), event(3, 12)]);
}

#[test]
fn broker_stores_in_memory_or_forwards() {
    let mut dev = Broker::Dev(DevBroker::new());
    assert_eq!(dev.send_events(event(1, 1)), Delivery::Stored);
    assert_eq!(dev.send_events(event(2, 2)), Delivery::Stored);
    match &dev {
        Broker::Dev(log) => assert_eq!(log.events(), &vec![event(1, 1), event(2, 2)]),
        Broker::Grpc => panic!("the sink changed its kind"),
    }
    let mut grpc = Broker::Grpc;
    assert_eq!(grpc.send_events(event(1, 1)), Delivery::Forward(event(1, 1)));
    assert!(matches!(grpc, Broker::Grpc));
}
