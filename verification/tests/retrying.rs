use crawler::downloader::run_fetch;
use crawler::downloader::RetryPolicy;
use crawler::downloader::RetrySchedule;

#[test]
fn four_failures_then_success() {
    let policy = RetryPolicy::new();
    let outcomes = vec![false, false, false, false, true];
    let run = run_fetch(&policy, &outcomes);
    assert_eq!(run.success_attempt, Some(5));
    assert_eq!(run.attempts_made, 5);
    assert_eq!(run.total_backoff_secs, 1 + 2 + 4 + 8);
}

#[test]
fn five_failures_exhaust_the_budget() {
    let policy = RetryPolicy::new();
    let outcomes = vec![false, false, false, false, false, true];
    let run = run_fetch(&policy, &outcomes);
    // The sixth outcome would succeed, but no sixth attempt is made.
    assert_eq!(run.success_attempt, None);
    assert_eq!(run.attempts_made, 5);
}

#[test]
fn immediate_success_sleeps_not_at_all() {
    let policy = RetryPolicy::new();
    let outcomes = vec![true, false, false, false, false];
    let run = run_fetch(&policy, &outcomes);
    assert_eq!(run.success_attempt, Some(1));
    assert_eq!(run.attempts_made, 1);
    assert_eq!(run.total_backoff_secs, 0);
}

#[test]
fn substituted_policy_is_honored() {
    let policy = RetryPolicy { max_attempts: 3, initial_delay_secs: 2 };
    let outcomes = vec![false, false, false];
    let run = run_fetch(&policy, &outcomes);
    assert_eq!(run.success_attempt, None);
    assert_eq!(run.attempts_made, 3);
    assert_eq!(run.total_backoff_secs, 2 + 4 + 8);
}

#[test]
fn schedule_doubles_each_backoff_and_spends_the_budget() {
    let policy = RetryPolicy::new();
    let mut schedule = RetrySchedule::new(&policy);
    assert!(schedule.may_attempt());
    assert_eq!(schedule.record_failure(), (1, true));
    assert_eq!(schedule.record_failure(), (2, true));
    assert_eq!(schedule.record_failure(), (4, true));
    assert_eq!(schedule.record_failure(), (8, true));
    assert_eq!(schedule.record_failure(), (16, false));
    assert!(!schedule.may_attempt());
}
