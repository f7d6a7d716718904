use concurrency_template::dispatcher::{DispatchError, Dispatcher, FetchError, Job, JobState};
use concurrency_template::keys::delay_url;

const SCENARIO_KEYS: [i32; 10] = [1802, 1933, 1956, 1981, 2003, 2015, 2073, 2104, 2110, 2127];

fn jobs_of(keys: &[i32]) -> Vec<Job> {
    keys.iter().map(|&k| Job { key: k, url: delay_url(k) }).collect()
}

struct Run {
    dispatcher: Dispatcher,
    max_active: usize,
    snapshots: Vec<String>,
}

/// Drives a run to its end: starts every job that may start, then completes
/// the oldest (or newest) running job, failing the jobs whose keys are listed.
fn drive(keys: &[i32], cap: usize, newest_first: bool, failing: &[i32]) -> Run {
    let mut d = Dispatcher::new(jobs_of(keys), cap).unwrap();
    let mut running: Vec<usize> = Vec::new();
    let mut max_active = 0;
    let mut snapshots = Vec::new();
    loop {
        while let Some(i) = d.start_next() {
            running.push(i);
        }
        assert_eq!(d.active(), running.len());
        max_active = max_active.max(d.active());
        if running.is_empty() {
            break;
        }
        let i = if newest_first { running.pop().unwrap() } else { running.remove(0) };
        assert!(d.is_running(i));
        let key = d.job(i).key;
        let result = if failing.contains(&key) { Err(FetchError::Transport) } else { Ok(format!("trace-{}", key)) };
        if let Some(text) = d.complete(i, result) {
            snapshots.push(text);
            d.record_persist(true);
        }
    }
    assert!(d.is_finished());
    Run { dispatcher: d, max_active, snapshots }
}

fn last_snapshot(run: &Run) -> String {
    run.dispatcher.aggregate().snapshot_text()
}

#[test]
fn scenario_ten_jobs_cap_three() {
    let run = drive(&SCENARIO_KEYS, 3, false, &[]);
    assert!(run.max_active <= 3);
    assert_eq!(run.max_active, 3);
    let text = last_snapshot(&run);
    let value: serde_json::Value = serde_json::from_str(&text).unwrap();
    let object = value.as_object().unwrap();
    assert_eq!(object.len(), 10);
    assert_eq!(object.get("2.110").unwrap().as_str().unwrap(), "trace-2110");
    assert_eq!(object.get("1.802").unwrap().as_str().unwrap(), "trace-1802");
    assert!(text.contains("\"2.110\": \"trace-2110\""));
    assert_eq!(run.snapshots.last().unwrap(), &text);
}

#[test]
fn bounded_parallelism_for_every_cap() {
    for cap in 1..=SCENARIO_KEYS.len() {
        for newest_first in [false, true] {
            let run = drive(&SCENARIO_KEYS, cap, newest_first, &[]);
            assert!(run.max_active <= cap);
            assert_eq!(run.max_active, cap);
        }
    }
}

#[test]
fn start_refused_at_cap() {
    let mut d = Dispatcher::new(jobs_of(&[1, 2, 3]), 2).unwrap();
    assert_eq!(d.start_next(), Some(0));
    assert_eq!(d.start_next(), Some(1));
    assert_eq!(d.start_next(), None);
    assert_eq!(d.active(), 2);
    assert_eq!(d.complete(1, Err(FetchError::Shape)), None);
    assert_eq!(d.active(), 1);
    assert_eq!(d.start_next(), Some(2));
    assert_eq!(d.start_next(), None);
    assert!(!d.is_finished());
}

#[test]
fn keys_are_exactly_the_successes() {
    let run = drive(&SCENARIO_KEYS, 4, false, &[1981, 2127]);
    let agg = run.dispatcher.aggregate();
    assert_eq!(agg.len(), 8);
    for (i, key) in SCENARIO_KEYS.iter().enumerate() {
        let succeeded = matches!(run.dispatcher.state(i), JobState::Succeeded { .. });
        assert_eq!(agg.contains_key(*key), succeeded);
        assert_eq!(succeeded, *key != 1981 && *key != 2127);
    }
}

#[test]
fn order_independence() {
    let one_at_a_time = drive(&SCENARIO_KEYS, 1, false, &[]);
    let all_at_once = drive(&SCENARIO_KEYS, SCENARIO_KEYS.len(), true, &[]);
    assert_eq!(last_snapshot(&one_at_a_time), last_snapshot(&all_at_once));
    assert_eq!(one_at_a_time.dispatcher.aggregate().snapshot_entries(), all_at_once.dispatcher.aggregate().snapshot_entries());
}

#[test]
fn failure_isolation() {
    let third = SCENARIO_KEYS[2];
    let run = drive(&SCENARIO_KEYS, 3, false, &[third]);
    assert!(matches!(run.dispatcher.state(2), JobState::Failed { error: FetchError::Transport }));
    let agg = run.dispatcher.aggregate();
    assert_eq!(agg.len(), SCENARIO_KEYS.len() - 1);
    assert!(!agg.contains_key(third));
    for (i, key) in SCENARIO_KEYS.iter().enumerate() {
        if i != 2 {
            assert_eq!(agg.get(*key).unwrap(), &format!("trace-{}", key));
            assert!(matches!(run.dispatcher.state(i), JobState::Succeeded { persisted: true, .. }));
        }
    }
    let value: serde_json::Value = serde_json::from_str(&last_snapshot(&run)).unwrap();
    assert_eq!(value.as_object().unwrap().len(), 9);
}

#[test]
fn every_snapshot_is_complete() {
    let run = drive(&SCENARIO_KEYS, 3, true, &[1956]);
    assert_eq!(run.snapshots.len(), 9);
    for (n, text) in run.snapshots.iter().enumerate() {
        let value: serde_json::Value = serde_json::from_str(text).unwrap();
        assert_eq!(value.as_object().unwrap().len(), n + 1);
    }
}

#[test]
fn failed_write_keeps_flag_until_next_write() {
    let mut d = Dispatcher::new(jobs_of(&[10, 20]), 2).unwrap();
    d.start_next();
    d.start_next();
    assert!(d.complete(0, Ok("a".to_string())).is_some());
    d.record_persist(false);
    assert!(matches!(d.state(0), JobState::Succeeded { persisted: false, .. }));
    assert!(d.complete(1, Ok("b".to_string())).is_some());
    d.record_persist(true);
    assert!(matches!(d.state(0), JobState::Succeeded { persisted: true, .. }));
    assert!(matches!(d.state(1), JobState::Succeeded { persisted: true, .. }));
    assert!(d.is_finished());
}

#[test]
fn setup_errors() {
    assert!(matches!(Dispatcher::new(jobs_of(&[1, 2]), 0), Err(DispatchError::ZeroCap)));
    assert!(matches!(Dispatcher::new(jobs_of(&[1, 2, 1]), 2), Err(DispatchError::DuplicateKey)));
    assert!(matches!(Dispatcher::new(jobs_of(&[1, 1]), 0), Err(DispatchError::ZeroCap)));
    let d = Dispatcher::new(Vec::new(), 1).unwrap();
    assert!(d.is_finished());
    assert_eq!(d.job_count(), 0);
    assert_eq!(d.cap(), 1);
}
