use ping_agent::{
    Broker, CheckKind, CheckOutput, Command, CommandError, Delivery, DevBroker, Event,
    HttpContext, HttpResponse, Job, JobAction, JobKind, JobLocation, JobRessources, JobsHandler,
    Outcome,
};

const X: u128 = 0x0123_4567_89ab_cdef_0123_4567_89ab_cdef;

fn template() -> HttpContext {
    HttpContext::new("http://example.test".to_string())
}

fn http_check(id: u128, interval: u64) -> CheckOutput {
    CheckOutput { id, interval, kind: CheckKind::Http(template()) }
}

fn other_check(id: u128, interval: u64) -> CheckOutput {
    CheckOutput { id, interval, kind: CheckKind::Other }
}

fn handler() -> JobsHandler {
    JobsHandler::new(JobRessources::default(), 4)
}

fn at(frequency: u64, offset: usize, position: usize) -> JobLocation {
    JobLocation { frequency, offset, position }
}

#[test]
fn new_handler_is_empty() {
    let handler = handler();
    assert_eq!(handler.scheduler_task_pool_size(), 4);
    assert_eq!(handler.resources().http_pool.available(), 10);
    assert_eq!(handler.location(X), None);
    assert!(handler.wheel(5).is_none());
}

#[test]
fn http_check_is_scheduled_run_and_reported() {
    let mut handler = handler();
    assert_eq!(handler.add_check(&http_check(X, 5)), Ok(at(5, 0, 0)));
    let wheel = handler.wheel(5).expect("a wheel for interval 5");
    assert_eq!(wheel.range(), 5);
    assert_eq!(wheel.jobs_at(0), Some(vec![Job { id: X, kind: JobKind::Http(template()) }]));
    assert_eq!(handler.location(X), Some(at(5, 0, 0)));

    let mut sink = Broker::Dev(DevBroker::new());
    let mut dispatched = 0;
    for _ in 0..5 {
        for action in handler.tick(5).expect("the wheel exists") {
            dispatched += 1;
            assert_eq!(action, JobAction::Send { id: X, request: template(), client: 0 });
            let reply = Some(HttpResponse { status: 200, request_time_ms: 12 });
            assert!(handler.release(0));
            if let Some(event) = action.conclude(1000, reply) {
                assert_eq!(sink.send_events(event), Delivery::Stored);
            }
        }
    }
    assert_eq!(dispatched, 1);
    let expected = Event {
        id: X,
        timestamp: 1000,
        outcome: Outcome::Success { status: 200 },
        latency_ms: Some(12),
    };
    match &sink {
        Broker::Dev(log) => assert_eq!(log.events(), &vec![expected]),
        Broker::Grpc => panic!("the sink changed its kind"),
    }
}

#[test]
fn unsupported_check_is_scheduled_as_a_no_op() {
    let mut handler = handler();
    assert_eq!(handler.add_check(&other_check(X, 2)), Ok(at(2, 0, 0)));
    assert_eq!(
        handler.wheel(2).and_then(|wheel| wheel.jobs_at(0)),
        Some(vec![Job { id: X, kind: JobKind::Dummy }])
    );
    let mut sink = DevBroker::new();
    for _ in 0..4 {
        for action in handler.tick(2).expect("the wheel exists") {
            assert_eq!(action, JobAction::Trace { id: X });
            if let Some(event) = action.conclude(1, None) {
                sink.send_events(event);
            }
        }
    }
    assert!(sink.events().is_empty());
    assert_eq!(handler.resources().http_pool.available(), 10);
}

#[test]
fn wheels_of_different_intervals_are_independent() {
    let mut handler = handler();
    assert_eq!(handler.add_check(&other_check(1, 3)), Ok(at(3, 0, 0)));
    assert_eq!(handler.add_check(&other_check(2, 3)), Ok(at(3, 1, 0)));
    assert_eq!(handler.add_check(&other_check(3, 7)), Ok(at(7, 0, 0)));
    assert_eq!(handler.wheel(3).map(|wheel| wheel.fill_cursor()), Some(2));
    assert_eq!(handler.wheel(7).map(|wheel| wheel.fill_cursor()), Some(1));
    assert_eq!(handler.wheel(7).map(|wheel| wheel.range()), Some(7));

    assert_eq!(handler.tick(7).map(|fired| fired.len()), Some(1));
    assert_eq!(handler.wheel(7).map(|wheel| wheel.time_cursor()), Some(1));
    assert_eq!(handler.wheel(3).map(|wheel| wheel.time_cursor()), Some(0));

    assert_eq!(handler.remove_check(3), Ok(Job { id: 3, kind: JobKind::Dummy }));
    assert_eq!(handler.wheel(3).map(|wheel| wheel.fill_cursor()), Some(2));
    assert_eq!(
        handler.wheel(3).and_then(|wheel| wheel.jobs_at(0)),
        Some(vec![Job { id: 1, kind: JobKind::Dummy }])
    );
    assert_eq!(handler.add_check(&other_check(4, 3)), Ok(at(3, 2, 0)));
    assert_eq!(handler.add_check(&other_check(5, 7)), Ok(at(7, 0, 0)));
    assert_eq!(handler.wheel(7).map(|wheel| wheel.fill_cursor()), Some(1));
}

#[test]
fn added_then_removed_check_leaves_no_trace() {
    let mut handler = handler();
    assert_eq!(handler.add_check(&other_check(1, 2)), Ok(at(2, 0, 0)));
    assert_eq!(handler.add_check(&http_check(X, 2)), Ok(at(2, 1, 0)));
    assert_eq!(handler.remove_check(X), Ok(Job { id: X, kind: JobKind::Http(template()) }));
    assert_eq!(handler.location(X), None);
    assert_eq!(handler.location(1), Some(at(2, 0, 0)));
    assert_eq!(handler.wheel(2).and_then(|wheel| wheel.jobs_at(1)), Some(vec![]));
    assert_eq!(handler.tick(2), Some(vec![JobAction::Trace { id: 1 }]));
    assert_eq!(handler.tick(2), Some(vec![]));
    assert_eq!(handler.remove_check(X), Err(CommandError::UnknownCheck { id: X }));
    assert_eq!(handler.add_check(&http_check(X, 2)), Ok(at(2, 1, 0)));
}

#[test]
fn removing_an_unknown_check_is_reported() {
    let mut handler = handler();
    assert_eq!(handler.remove_check(9), Err(CommandError::UnknownCheck { id: 9 }));
    assert_eq!(handler.add_check(&other_check(1, 4)), Ok(at(4, 0, 0)));
    assert_eq!(handler.remove_check(9), Err(CommandError::UnknownCheck { id: 9 }));
    assert_eq!(handler.location(1), Some(at(4, 0, 0)));
}

#[test]
fn check_without_interval_is_rejected() {
    let mut handler = handler();
    assert_eq!(
        handler.add_check(&http_check(X, 0)),
        Err(CommandError::InvalidInterval { interval: 0 })
    );
    assert_eq!(handler.location(X), None);
    assert!(handler.wheel(0).is_none());
    assert_eq!(handler.tick(0), None);
}

#[test]
fn same_check_added_twice_is_placed_twice() {
    let mut handler = handler();
    assert_eq!(handler.add_check(&other_check(X, 3)), Ok(at(3, 0, 0)));
    assert_eq!(handler.add_check(&other_check(X, 3)), Ok(at(3, 1, 0)));
    assert_eq!(handler.location(X), Some(at(3, 1, 0)));
    assert_eq!(handler.remove_check(X), Ok(Job { id: X, kind: JobKind::Dummy }));
    assert_eq!(handler.location(X), None);
    assert_eq!(handler.tick(3), Some(vec![JobAction::Trace { id: X }]));
    assert_eq!(handler.tick(3), Some(vec![]));
}

#[test]
fn commands_are_dispatched_to_add_and_remove() {
    let mut handler = handler();
    assert_eq!(handler.handle_command(Command::Add(http_check(X, 5))), Ok(()));
    assert_eq!(handler.location(X), Some(at(5, 0, 0)));
    assert_eq!(handler.handle_command(Command::Add(other_check(1, 5))), Ok(()));
    assert_eq!(handler.location(1), Some(at(5, 1, 0)));
    assert_eq!(handler.handle_command(Command::Remove(X)), Ok(()));
    assert_eq!(handler.location(X), None);
    assert_eq!(
        handler.handle_command(Command::Remove(X)),
        Err(CommandError::UnknownCheck { id: X })
    );
    assert_eq!(
        handler.handle_command(Command::Add(other_check(2, 0))),
        Err(CommandError::InvalidInterval { interval: 0 })
    );
    assert_eq!(handler.location(2), None);
    assert_eq!(handler.handle_command(Command::Add(other_check(3, 5))), Ok(()));
    assert_eq!(handler.location(3), Some(at(5, 0, 0)));
}

#[test]
fn tick_of_a_missing_wheel_does_nothing() {
    let mut handler = handler();
    assert_eq!(handler.add_check(&http_check(X, 5)), Ok(at(5, 0, 0)));
    assert_eq!(handler.tick(4), None);
    assert_eq!(handler.wheel(5).map(|wheel| wheel.time_cursor()), Some(0));
    assert_eq!(handler.resources().http_pool.available(), 10);
}

#[test]
fn clients_come_back_through_release() {
    let mut handler = handler();
    for id in 0..3u128 {
        assert!(handler.add_check(&http_check(id, 1)).is_ok());
    }
    assert!(!handler.release(0));
    let fired = handler.tick(1).expect("the wheel exists");
    assert_eq!(fired.len(), 3);
    assert_eq!(handler.resources().http_pool.available(), 7);
    assert!(handler.release(1));
    assert!(!handler.release(1));
    assert!(!handler.release(10));
    assert_eq!(handler.resources().http_pool.available(), 8);
    let again = handler.tick(1).expect("the wheel exists");
    assert_eq!(again[0], JobAction::Send { id: 0, request: template(), client: 1 });
    assert_eq!(again[1], JobAction::Send { id: 1, request: template(), client: 3 });
}
