use ghtree::download::{
    plan_transfer, response_disposition, AttemptOutcome, Disposition, Download, NextStep, ResumePlan,
    RetryPolicy,
};
use ghtree::error::{classify_status, status_error, ErrorKind, StatusClass};
use ghtree::scheduler::Scheduler;

#[test]
fn resume_requests_from_local_length() {
    assert_eq!(
        plan_transfer(400, Some(1000)),
        ResumePlan::Fetch { from: 400, restart: false }
    );
    assert_eq!(response_disposition(206, 400), Disposition::Write { restart: false });
    let policy = RetryPolicy::new(3, 10).unwrap();
    let mut d = Download::start(policy, Some(1000));
    // the fake remote sends the 600 missing bytes
    assert_eq!(d.conclude(AttemptOutcome::Finished { final_len: 400 + 600 }), NextStep::Succeeded);
}

#[test]
fn resume_edge_cases() {
    assert_eq!(plan_transfer(1000, Some(1000)), ResumePlan::Complete);
    assert_eq!(plan_transfer(1200, Some(1000)), ResumePlan::Fetch { from: 0, restart: true });
    assert_eq!(plan_transfer(0, None), ResumePlan::Fetch { from: 0, restart: false });
    assert_eq!(plan_transfer(77, None), ResumePlan::Fetch { from: 77, restart: false });
}

#[test]
fn response_statuses() {
    assert_eq!(response_disposition(200, 0), Disposition::Write { restart: false });
    assert_eq!(response_disposition(200, 50), Disposition::Write { restart: true });
    assert_eq!(
        response_disposition(416, 50),
        Disposition::Retry { reason: ErrorKind::Http(416), discard: true }
    );
    assert_eq!(response_disposition(416, 0), Disposition::Fatal(ErrorKind::Http(416)));
    assert_eq!(
        response_disposition(403, 0),
        Disposition::Retry { reason: ErrorKind::RateLimited, discard: false }
    );
    assert_eq!(response_disposition(404, 0), Disposition::Fatal(ErrorKind::NotFound));
    assert_eq!(
        response_disposition(503, 9),
        Disposition::Retry { reason: ErrorKind::Http(503), discard: false }
    );
}

#[test]
fn success_after_transient_failures_waits_the_schedule() {
    let policy = RetryPolicy::new(16, 3000).unwrap();
    let mut d = Download::start(policy, None);
    let mut waited = Vec::new();
    for _ in 0..3 {
        match d.conclude(AttemptOutcome::Interrupted(ErrorKind::NetworkTransient)) {
            NextStep::RetryAfter(ms) => waited.push(ms),
            other => panic!("unexpected step {:?}", other),
        }
    }
    assert_eq!(waited, vec![3000, 6000, 12000]);
    assert_eq!(d.conclude(AttemptOutcome::Finished { final_len: 5 }), NextStep::Succeeded);
    assert_eq!(d.waited_ms, 3000 * (8 - 1));
    assert_eq!(d.attempts, 4);
}

#[test]
fn failure_after_exactly_the_budget() {
    let policy = RetryPolicy::new(4, 100).unwrap();
    let mut d = Download::start(policy, Some(10));
    let mut steps = Vec::new();
    while !d.finished {
        steps.push(d.conclude(AttemptOutcome::Interrupted(ErrorKind::Http(502))));
    }
    assert_eq!(
        steps,
        vec![
            NextStep::RetryAfter(100),
            NextStep::RetryAfter(200),
            NextStep::RetryAfter(400),
            NextStep::Failed(ErrorKind::Http(502)),
        ]
    );
    assert_eq!(d.attempts, 4);
}

#[test]
fn fatal_failure_consumes_no_retry() {
    let policy = RetryPolicy::standard();
    assert_eq!(policy.attempt_budget, 16);
    assert_eq!(policy.base_delay_ms, 3000);
    let mut d = Download::start(policy, None);
    assert_eq!(
        d.conclude(AttemptOutcome::Fatal(ErrorKind::NotFound)),
        NextStep::Failed(ErrorKind::NotFound)
    );
    assert!(d.finished);
    assert_eq!(d.waited_ms, 0);
}

#[test]
fn short_body_is_retried() {
    let policy = RetryPolicy::new(2, 1).unwrap();
    let mut d = Download::start(policy, Some(10));
    assert_eq!(d.conclude(AttemptOutcome::Finished { final_len: 7 }), NextStep::RetryAfter(1));
    assert_eq!(
        d.conclude(AttemptOutcome::Finished { final_len: 7 }),
        NextStep::Failed(ErrorKind::NetworkTransient)
    );
}

#[test]
fn retry_policy_limits() {
    assert!(RetryPolicy::new(0, 10).is_none());
    assert!(RetryPolicy::new(1, u64::MAX).is_some());
    assert!(RetryPolicy::new(2, u64::MAX).is_none());
    assert!(RetryPolicy::new(64, 1).is_some());
    assert!(RetryPolicy::new(65, 1).is_none());
}

#[test]
fn status_classes() {
    assert_eq!(classify_status(200), StatusClass::Success);
    assert_eq!(classify_status(204), StatusClass::Success);
    assert_eq!(classify_status(403), StatusClass::RateLimited);
    assert_eq!(classify_status(404), StatusClass::NotFound);
    assert_eq!(classify_status(422), StatusClass::OtherClientError);
    assert_eq!(classify_status(500), StatusClass::ServerError);
    assert_eq!(status_error(200), None);
    assert_eq!(status_error(403), Some(ErrorKind::RateLimited));
    assert_eq!(status_error(404), Some(ErrorKind::NotFound));
    assert_eq!(status_error(500), Some(ErrorKind::Http(500)));
}

#[test]
fn scheduler_never_exceeds_parallelism() {
    let mut s = Scheduler::new(5, 2).unwrap();
    assert_eq!(s.acquire(), Some(0));
    assert_eq!(s.acquire(), Some(1));
    assert_eq!(s.acquire(), None);
    assert_eq!(s.in_flight(), 2);
    s.complete(0, true);
    assert_eq!(s.acquire(), Some(2));
    assert_eq!(s.acquire(), None);
    s.complete(2, false);
    s.complete(1, true);
    assert_eq!(s.acquire(), Some(3));
    assert_eq!(s.acquire(), Some(4));
    assert_eq!(s.acquire(), None);
    assert!(!s.is_done());
    s.complete(4, false);
    s.complete(3, true);
    assert!(s.is_done());
    assert_eq!(s.in_flight(), 0);
    assert_eq!(s.failed_tasks(), vec![2, 4]);
}

#[test]
fn scheduler_edge_cases() {
    assert!(Scheduler::new(3, 0).is_none());
    let mut s = Scheduler::new(0, 3).unwrap();
    assert!(s.is_done());
    assert_eq!(s.acquire(), None);
}
