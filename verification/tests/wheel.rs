use ping_agent::{HttpContext, Job, JobAction, JobKind, JobRessources, JobScheduler};

fn dummy(id: u128) -> Job {
    Job { id, kind: JobKind::Dummy }
}

fn http(id: u128, url: &str) -> Job {
    Job { id, kind: JobKind::Http(HttpContext::new(url.to_string())) }
}

fn fired_ids(actions: &[JobAction]) -> Vec<u128> {
    actions
        .iter()
        .map(|action| match action {
            JobAction::Trace { id } => *id,
            JobAction::Send { id, .. } => *id,
            JobAction::Exhausted { id } => *id,
        })
        .collect()
}

#[test]
fn new_wheel_has_one_empty_bucket_per_second() {
    let wheel = JobScheduler::new(5);
    assert_eq!(wheel.range(), 5);
    assert_eq!(wheel.fill_cursor(), 0);
    assert_eq!(wheel.time_cursor(), 0);
    for bucket in 0..5 {
        assert_eq!(wheel.jobs_at(bucket), Some(vec![]));
    }
    assert_eq!(wheel.jobs_at(5), None);
}

#[test]
fn placement_is_round_robin_without_removals() {
    let mut wheel = JobScheduler::new(3);
    let mut placed = Vec::new();
    for n in 0..7u128 {
        placed.push(wheel.add_job(dummy(n)));
    }
    assert_eq!(placed, vec![(0, 0), (1, 0), (2, 0), (0, 1), (1, 1), (2, 1), (0, 2)]);
    assert_eq!(wheel.fill_cursor(), 1);
    assert_eq!(wheel.jobs_at(0), Some(vec![dummy(0), dummy(3), dummy(6)]));
    assert_eq!(wheel.jobs_at(1), Some(vec![dummy(1), dummy(4)]));
    assert_eq!(wheel.jobs_at(2), Some(vec![dummy(2), dummy(5)]));
}

#[test]
fn nth_job_goes_to_bucket_n_minus_one_mod_k() {
    let k = 4usize;
    let mut wheel = JobScheduler::new(k);
    for n in 1..=23usize {
        let (bucket, slot) = wheel.add_job(dummy(n as u128));
        assert_eq!(bucket, (n - 1) % k);
        assert_eq!(slot, (n - 1) / k);
    }
}

#[test]
fn wheel_of_one_bucket_takes_every_job() {
    let mut wheel = JobScheduler::new(1);
    assert_eq!(wheel.add_job(dummy(1)), (0, 0));
    assert_eq!(wheel.add_job(dummy(2)), (0, 1));
    assert_eq!(wheel.add_job(dummy(3)), (0, 2));
    assert_eq!(wheel.fill_cursor(), 0);
}

#[test]
fn freed_slot_is_reused_before_the_fill_cursor() {
    let mut wheel = JobScheduler::new(4);
    for n in 0..5u128 {
        wheel.add_job(dummy(n));
    }
    assert_eq!(wheel.fill_cursor(), 1);
    assert_eq!(wheel.remove_job(2, 0), Some(dummy(2)));
    assert_eq!(wheel.jobs_at(2), Some(vec![]));
    assert_eq!(wheel.add_job(dummy(50)), (2, 0));
    assert_eq!(wheel.fill_cursor(), 1);
    assert_eq!(wheel.jobs_at(2), Some(vec![dummy(50)]));
    assert_eq!(wheel.add_job(dummy(51)), (1, 1));
    assert_eq!(wheel.fill_cursor(), 2);
}

#[test]
fn freed_slots_are_reused_last_freed_first() {
    let mut wheel = JobScheduler::new(3);
    for n in 0..6u128 {
        wheel.add_job(dummy(n));
    }
    assert_eq!(wheel.remove_job(0, 0), Some(dummy(0)));
    assert_eq!(wheel.remove_job(2, 1), Some(dummy(5)));
    assert_eq!(wheel.remove_job(0, 1), Some(dummy(3)));
    assert_eq!(wheel.add_job(dummy(10)), (0, 1));
    assert_eq!(wheel.add_job(dummy(11)), (2, 1));
    assert_eq!(wheel.add_job(dummy(12)), (0, 0));
    assert_eq!(wheel.add_job(dummy(13)), (0, 2));
    assert_eq!(wheel.jobs_at(0), Some(vec![dummy(12), dummy(10), dummy(13)]));
}

#[test]
fn removing_what_is_not_there_changes_nothing() {
    let mut wheel = JobScheduler::new(2);
    wheel.add_job(dummy(1));
    wheel.add_job(dummy(2));
    assert_eq!(wheel.remove_job(2, 0), None);
    assert_eq!(wheel.remove_job(0, 1), None);
    assert_eq!(wheel.remove_job(usize::MAX, usize::MAX), None);
    assert_eq!(wheel.remove_job(0, 0), Some(dummy(1)));
    assert_eq!(wheel.remove_job(0, 0), None);
    assert_eq!(wheel.add_job(dummy(3)), (0, 0));
    assert_eq!(wheel.add_job(dummy(4)), (0, 1));
    assert_eq!(wheel.add_job(dummy(5)), (1, 1));
}

#[test]
fn every_bucket_is_due_once_per_period() {
    let mut wheel = JobScheduler::new(3);
    let mut resources = JobRessources::default();
    for n in 0..3u128 {
        wheel.add_job(dummy(n));
    }
    let mut visited = Vec::new();
    for _ in 0..6 {
        visited.push(wheel.time_cursor());
        let actions = wheel.tick(&mut resources);
        visited.push(fired_ids(&actions)[0] as usize);
    }
    assert_eq!(visited, vec![0, 0, 1, 1, 2, 2, 0, 0, 1, 1, 2, 2]);
    assert_eq!(wheel.time_cursor(), 0);
}

#[test]
fn job_fires_at_the_ticks_of_its_bucket_only() {
    let k = 4usize;
    let mut wheel = JobScheduler::new(k);
    let mut resources = JobRessources::default();
    wheel.add_job(dummy(0));
    wheel.add_job(dummy(1));
    let (bucket, _) = wheel.add_job(dummy(2));
    assert_eq!(bucket, 2);
    for tick in 0..12usize {
        let fired = fired_ids(&wheel.tick(&mut resources));
        let times = fired.iter().filter(|id| **id == 2).count();
        assert_eq!(times, if tick % k == bucket { 1 } else { 0 });
    }
}

#[test]
fn tick_fires_the_jobs_of_a_bucket_in_slot_order() {
    let mut wheel = JobScheduler::new(1);
    let mut resources = JobRessources::default();
    for n in 0..4u128 {
        wheel.add_job(dummy(n));
    }
    wheel.remove_job(0, 1);
    let actions = wheel.tick(&mut resources);
    assert_eq!(
        actions,
        vec![
            JobAction::Trace { id: 0 },
            JobAction::Trace { id: 2 },
            JobAction::Trace { id: 3 },
        ]
    );
    assert_eq!(resources.http_pool.available(), 10);
}

#[test]
fn tick_of_an_empty_bucket_only_moves_the_cursor() {
    let mut wheel = JobScheduler::new(2);
    let mut resources = JobRessources::default();
    wheel.add_job(dummy(1));
    assert_eq!(wheel.tick(&mut resources).len(), 1);
    assert_eq!(wheel.time_cursor(), 1);
    assert_eq!(wheel.tick(&mut resources), vec![]);
    assert_eq!(wheel.time_cursor(), 0);
    assert_eq!(wheel.fill_cursor(), 1);
    assert_eq!(wheel.jobs_at(0), Some(vec![dummy(1)]));
}

#[test]
fn tick_checks_out_clients_until_the_pool_is_empty() {
    let mut wheel = JobScheduler::new(1);
    let mut resources = JobRessources::default();
    for n in 0..12u128 {
        wheel.add_job(http(n, "http://example.test"));
    }
    let actions = wheel.tick(&mut resources);
    assert_eq!(actions.len(), 12);
    for n in 0..10usize {
        assert_eq!(
            actions[n],
            JobAction::Send {
                id: n as u128,
                request: HttpContext::new("http://example.test".to_string()),
                client: n,
            }
        );
    }
    assert_eq!(actions[10], JobAction::Exhausted { id: 10 });
    assert_eq!(actions[11], JobAction::Exhausted { id: 11 });
    assert_eq!(resources.http_pool.available(), 0);
}
