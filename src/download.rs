//! Decisions of the resumable downloader: where a transfer resumes, how a
//! response is treated, and the retry/backoff schedule.

use vstd::prelude::*;
use crate::error::{ErrorKind, StatusClass, classify_status, status_class_spec};

verus! {

/// `2^n`.
pub open spec fn two_pow(n: nat) -> nat
    decreases n,
{
    if n == 0 {
        1
    } else {
        2 * two_pow((n - 1) as nat)
    }
}

pub proof fn lemma_two_pow_monotonic(a: nat, b: nat)
    requires
        a <= b,
    ensures
        1 <= two_pow(a) <= two_pow(b),
    decreases b,
{
    if b > 0 {
        if a < b {
            lemma_two_pow_monotonic(a, (b - 1) as nat);
        }
        lemma_two_pow_monotonic(0, (b - 1) as nat);
    }
}

/// The wait before retrying after the failed attempt with index `i` (from 0).
pub open spec fn backoff(base_ms: nat, i: nat) -> nat {
    base_ms * two_pow(i)
}

/// Total wait of the first `k` retries: `base * (2^0 + ... + 2^(k-1))`.
pub open spec fn backoff_total(base_ms: nat, k: nat) -> nat
    decreases k,
{
    if k == 0 {
        0
    } else {
        backoff_total(base_ms, (k - 1) as nat) + backoff(base_ms, (k - 1) as nat)
    }
}

/// The backoff schedule sums to `base * (2^k - 1)`.
pub proof fn lemma_backoff_total_closed(base_ms: nat, k: nat)
    ensures
        backoff_total(base_ms, k) + base_ms == base_ms * two_pow(k),
    decreases k,
{
    if k > 0 {
        let t = two_pow((k - 1) as nat);
        lemma_backoff_total_closed(base_ms, (k - 1) as nat);
        assert(two_pow(k) == 2 * t);
        assert(backoff(base_ms, (k - 1) as nat) == base_ms * t);
        assert(backoff_total(base_ms, k) == backoff_total(base_ms, (k - 1) as nat) + base_ms * t);
        assert(base_ms * two_pow(k) == 2 * (base_ms * t)) by (nonlinear_arith)
            requires
                two_pow(k) == 2 * t,
        ;
    } else {
        assert(two_pow(0) == 1);
        assert(base_ms * two_pow(0) == base_ms);
    }
}

/// How many attempts one transfer may make, and the wait before the first retry.
#[derive(Clone, Copy, Debug)]
pub struct RetryPolicy {
    pub attempt_budget: u32,
    pub base_delay_ms: u64,
}

pub const DEFAULT_ATTEMPT_BUDGET: u32 = 16;

pub const DEFAULT_BASE_DELAY_MS: u64 = 3000;

impl RetryPolicy {
    /// At least one attempt, and the longest wait of the schedule fits in `u64`.
    pub open spec fn wf(&self) -> bool {
        &&& self.attempt_budget >= 1
        &&& self.base_delay_ms * two_pow((self.attempt_budget - 1) as nat) <= u64::MAX
    }

    /// A policy of `attempt_budget` attempts whose first retry waits
    /// `base_delay_ms`; none when no attempt is allowed or when the last wait
    /// of the schedule does not fit in `u64`.
    pub fn new(attempt_budget: u32, base_delay_ms: u64) -> (r: Option<RetryPolicy>)
        ensures
            r is Some <==> attempt_budget >= 1 && base_delay_ms * two_pow(
                (attempt_budget - 1) as nat,
            ) <= u64::MAX,
            r matches Some(p) ==> p.wf() && p.attempt_budget == attempt_budget
                && p.base_delay_ms == base_delay_ms,
    {
        if attempt_budget == 0 {
            return None;
        }
        let mut delay: u64 = base_delay_ms;
        let mut i: u32 = 0;
        assert(two_pow(0) == 1);
        while i + 1 < attempt_budget
            invariant
                attempt_budget >= 1,
                i + 1 <= attempt_budget,
                delay == base_delay_ms * two_pow(i as nat),
            decreases attempt_budget - i,
        {
            proof {
                lemma_two_pow_monotonic((i + 1) as nat, (attempt_budget - 1) as nat);
                assert(base_delay_ms * two_pow((i + 1) as nat) == 2 * delay) by (nonlinear_arith)
                    requires
                        two_pow((i + 1) as nat) == 2 * two_pow(i as nat),
                        delay == base_delay_ms * two_pow(i as nat),
                ;
            }
            if delay > u64::MAX / 2 {
                proof {
                    assert(base_delay_ms * two_pow((attempt_budget - 1) as nat) >= base_delay_ms
                        * two_pow((i + 1) as nat)) by (nonlinear_arith)
                        requires
                            two_pow((i + 1) as nat) <= two_pow((attempt_budget - 1) as nat),
                    ;
                }
                return None;
            }
            delay = delay * 2;
            i = i + 1;
        }
        Some(RetryPolicy { attempt_budget, base_delay_ms })
    }

    /// Sixteen attempts, the first retry after three seconds.
    pub fn standard() -> (r: RetryPolicy)
        ensures
            r.wf(),
            r.attempt_budget == DEFAULT_ATTEMPT_BUDGET,
            r.base_delay_ms == DEFAULT_BASE_DELAY_MS,
    {
        proof {
            reveal_with_fuel(two_pow, 16);
            assert(two_pow(15) == 32768);
        }
        RetryPolicy { attempt_budget: DEFAULT_ATTEMPT_BUDGET, base_delay_ms: DEFAULT_BASE_DELAY_MS }
    }
}

} // verus!

verus! {

/// Where the next attempt of a transfer starts.
#[derive(Clone, Copy, Debug, PartialEq, Eq, Structural)]
pub enum ResumePlan {
    /// The local file already has the expected size: nothing to fetch.
    Complete,
    /// Request bytes from `from` on; `restart` means the local file is emptied first.
    Fetch { from: u64, restart: bool },
}

pub open spec fn plan_transfer_spec(local_len: u64, expected_size: Option<u64>) -> ResumePlan {
    match expected_size {
        Some(e) => if local_len == e {
            ResumePlan::Complete
        } else if local_len > e {
            ResumePlan::Fetch { from: 0, restart: true }
        } else {
            ResumePlan::Fetch { from: local_len, restart: false }
        },
        None => ResumePlan::Fetch { from: local_len, restart: false },
    }
}

/// Resumes at the local length when it is below the expected size or the size
/// is unknown; a local file longer than expected is started over.
pub fn plan_transfer(local_len: u64, expected_size: Option<u64>) -> (r: ResumePlan)
    ensures
        r == plan_transfer_spec(local_len, expected_size),
{
    match expected_size {
        Some(e) => if local_len == e {
            ResumePlan::Complete
        } else if local_len > e {
            ResumePlan::Fetch { from: 0, restart: true }
        } else {
            ResumePlan::Fetch { from: local_len, restart: false }
        },
        None => ResumePlan::Fetch { from: local_len, restart: false },
    }
}

/// What to do with the response to a range request.
#[derive(Clone, Copy, Debug, PartialEq, Eq, Structural)]
pub enum Disposition {
    /// Stream the body into the file; `restart` empties the file first,
    /// because the body holds the whole resource.
    Write { restart: bool },
    /// The attempt failed and may be retried; `discard` empties the local file.
    Retry { reason: ErrorKind, discard: bool },
    /// The transfer fails at once, without consuming retries.
    Fatal(ErrorKind),
}

pub open spec fn disposition_spec(status: u16, from: u64) -> Disposition {
    if 200 <= status <= 299 {
        Disposition::Write { restart: status != 206 && from > 0 }
    } else if status == 416 && from > 0 {
        Disposition::Retry { reason: ErrorKind::Http(status), discard: true }
    } else {
        match status_class_spec(status) {
            StatusClass::RateLimited => Disposition::Retry {
                reason: ErrorKind::RateLimited,
                discard: false,
            },
            StatusClass::NotFound => Disposition::Fatal(ErrorKind::NotFound),
            StatusClass::OtherClientError => Disposition::Fatal(ErrorKind::Http(status)),
            _ => Disposition::Retry { reason: ErrorKind::Http(status), discard: false },
        }
    }
}

/// Treatment of a response with `status` to a request for bytes from `from`.
/// A 206 is appended; any other success carries the whole resource; a rejected
/// range (416) empties the file and retries; 403 and non-client errors are
/// retried; other client errors are fatal.
pub fn response_disposition(status: u16, from: u64) -> (r: Disposition)
    ensures
        r == disposition_spec(status, from),
{
    if 200 <= status && status <= 299 {
        Disposition::Write { restart: status != 206 && from > 0 }
    } else if status == 416 && from > 0 {
        Disposition::Retry { reason: ErrorKind::Http(status), discard: true }
    } else {
        match classify_status(status) {
            StatusClass::RateLimited => Disposition::Retry {
                reason: ErrorKind::RateLimited,
                discard: false,
            },
            StatusClass::NotFound => Disposition::Fatal(ErrorKind::NotFound),
            StatusClass::OtherClientError => Disposition::Fatal(ErrorKind::Http(status)),
            _ => Disposition::Retry { reason: ErrorKind::Http(status), discard: false },
        }
    }
}

/// Length of the local file after a body of `body_len` bytes was written as
/// `restart` says.
pub open spec fn length_after_write(local_len: nat, restart: bool, body_len: nat) -> nat {
    if restart {
        body_len
    } else {
        local_len + body_len
    }
}

/// How one attempt ended, as the transfer loop saw it.
#[derive(Clone, Copy, Debug, PartialEq, Eq, Structural)]
pub enum AttemptOutcome {
    /// The body was streamed to its end; the local file now has `final_len` bytes.
    Finished { final_len: u64 },
    /// The attempt failed in a way that may be retried.
    Interrupted(ErrorKind),
    /// The attempt failed in a way that must not be retried.
    Fatal(ErrorKind),
}

/// What the transfer loop does next.
#[derive(Clone, Copy, Debug, PartialEq, Eq, Structural)]
pub enum NextStep {
    Succeeded,
    /// Wait this many milliseconds, then make the next attempt.
    RetryAfter(u64),
    Failed(ErrorKind),
}

/// The retry state of one transfer.
#[derive(Clone, Copy, Debug)]
pub struct Download {
    pub policy: RetryPolicy,
    pub expected_size: Option<u64>,
    /// Attempts concluded so far.
    pub attempts: u32,
    /// Milliseconds waited between attempts so far.
    pub waited_ms: u64,
    /// The wait that follows the next failed attempt.
    pub next_delay_ms: u64,
    pub finished: bool,
}

impl Download {
    pub open spec fn wf(&self) -> bool {
        &&& self.policy.wf()
        &&& self.attempts <= self.policy.attempt_budget
        &&& !self.finished ==> {
            &&& self.attempts < self.policy.attempt_budget
            &&& self.next_delay_ms == backoff(self.policy.base_delay_ms as nat, self.attempts as nat)
            &&& self.waited_ms == backoff_total(self.policy.base_delay_ms as nat, self.attempts as nat)
        }
    }

    pub open spec fn start_spec(policy: RetryPolicy, expected_size: Option<u64>) -> Download {
        Download {
            policy,
            expected_size,
            attempts: 0,
            waited_ms: 0,
            next_delay_ms: policy.base_delay_ms,
            finished: false,
        }
    }

    /// Whether a finished body of `final_len` bytes completes the transfer.
    pub open spec fn complete_at(&self, final_len: u64) -> bool {
        match self.expected_size {
            Some(e) => final_len == e,
            None => true,
        }
    }

    /// The effect of concluding one attempt with `o`.
    pub open spec fn conclude_spec(self, o: AttemptOutcome) -> (Download, NextStep) {
        let attempts = (self.attempts + 1) as u32;
        let failure = match o {
            AttemptOutcome::Finished { final_len } => if self.complete_at(final_len) {
                None
            } else {
                Some(ErrorKind::NetworkTransient)
            },
            AttemptOutcome::Interrupted(e) => Some(e),
            AttemptOutcome::Fatal(e) => Some(e),
        };
        match failure {
            None => (Download { attempts, finished: true, ..self }, NextStep::Succeeded),
            Some(e) => if !(o is Fatal) && attempts < self.policy.attempt_budget {
                (
                    Download {
                        attempts,
                        waited_ms: (self.waited_ms + self.next_delay_ms) as u64,
                        next_delay_ms: (2 * self.next_delay_ms) as u64,
                        ..self
                    },
                    NextStep::RetryAfter(self.next_delay_ms),
                )
            } else {
                (Download { attempts, finished: true, ..self }, NextStep::Failed(e))
            },
        }
    }

    /// A transfer that has made no attempt yet.
    pub fn start(policy: RetryPolicy, expected_size: Option<u64>) -> (r: Download)
        requires
            policy.wf(),
        ensures
            r == Download::start_spec(policy, expected_size),
            r.wf(),
    {
        proof {
            assert(two_pow(0) == 1);
            assert(policy.base_delay_ms * two_pow(0) == policy.base_delay_ms);
        }
        Download {
            policy,
            expected_size,
            attempts: 0,
            waited_ms: 0,
            next_delay_ms: policy.base_delay_ms,
            finished: false,
        }
    }

    /// Records how an attempt ended and says what comes next: success, a wait
    /// of `base * 2^i` after the failed attempt with index `i` while attempts
    /// remain, or failure with the last error.
    pub fn conclude(&mut self, o: AttemptOutcome) -> (r: NextStep)
        requires
            old(self).wf(),
            !old(self).finished,
        ensures
            (*final(self), r) == old(self).conclude_spec(o),
            final(self).wf(),
    {
        let attempts = self.attempts + 1;
        let failure = match o {
            AttemptOutcome::Finished { final_len } => {
                let complete = match self.expected_size {
                    Some(e) => final_len == e,
                    None => true,
                };
                if complete {
                    None
                } else {
                    Some(ErrorKind::NetworkTransient)
                }
            },
            AttemptOutcome::Interrupted(e) => Some(e),
            AttemptOutcome::Fatal(e) => Some(e),
        };
        match failure {
            None => {
                self.attempts = attempts;
                self.finished = true;
                NextStep::Succeeded
            },
            Some(e) => {
                let fatal = match o {
                    AttemptOutcome::Fatal(_) => true,
                    _ => false,
                };
                if !fatal && attempts < self.policy.attempt_budget {
                    let delay = self.next_delay_ms;
                    proof {
                        let base = self.policy.base_delay_ms as nat;
                        let a = self.attempts as nat;
                        let b = (self.policy.attempt_budget - 1) as nat;
                        lemma_backoff_total_closed(base, a + 1);
                        lemma_two_pow_monotonic(a + 1, b);
                        assert(base * two_pow(a + 1) <= base * two_pow(b)) by (nonlinear_arith)
                            requires
                                two_pow(a + 1) <= two_pow(b),
                        ;
                        assert(two_pow(a + 1) == 2 * two_pow(a));
                        assert(base * two_pow(a + 1) == 2 * (base * two_pow(a))) by (nonlinear_arith)
                            requires
                                two_pow(a + 1) == 2 * two_pow(a),
                        ;
                        assert(backoff_total(base, a + 1) == backoff_total(base, a) + backoff(base, a));
                    }
                    self.attempts = attempts;
                    self.waited_ms = self.waited_ms + delay;
                    self.next_delay_ms = delay * 2;
                    NextStep::RetryAfter(delay)
                } else {
                    self.attempts = attempts;
                    self.finished = true;
                    NextStep::Failed(e)
                }
            },
        }
    }
}

} // verus!

verus! {

/// The steps a transfer takes when its attempts end as `os` says, in order;
/// outcomes after the transfer has finished are never reached.
pub open spec fn replay(d: Download, os: Seq<AttemptOutcome>) -> (Download, Seq<NextStep>)
    decreases os.len(),
{
    if os.len() == 0 || d.finished {
        (d, Seq::empty())
    } else {
        let (d1, s) = d.conclude_spec(os[0]);
        let (d2, ss) = replay(d1, os.drop_first());
        (d2, seq![s] + ss)
    }
}

/// The state of a transfer after its first `j` attempts all failed transiently.
pub open spec fn after_failures(policy: RetryPolicy, expected_size: Option<u64>, j: nat) -> Download {
    Download {
        policy,
        expected_size,
        attempts: j as u32,
        waited_ms: backoff_total(policy.base_delay_ms as nat, j) as u64,
        next_delay_ms: backoff(policy.base_delay_ms as nat, j) as u64,
        finished: false,
    }
}

/// The waits of the first `j` retries, in order.
pub open spec fn retry_schedule(base_ms: nat, from: nat, j: nat) -> Seq<NextStep> {
    Seq::new(j, |i: int| NextStep::RetryAfter(backoff(base_ms, (from + i) as nat) as u64))
}

pub open spec fn all_transient(os: Seq<AttemptOutcome>) -> bool {
    forall|i: int| 0 <= i < os.len() ==> #[trigger] os[i] is Interrupted
}

proof fn lemma_schedule_fits(policy: RetryPolicy, j: nat)
    requires
        policy.wf(),
        j < policy.attempt_budget,
    ensures
        backoff(policy.base_delay_ms as nat, j) <= u64::MAX,
        backoff_total(policy.base_delay_ms as nat, j) <= u64::MAX,
{
    let base = policy.base_delay_ms as nat;
    lemma_two_pow_monotonic(j, (policy.attempt_budget - 1) as nat);
    assert(base * two_pow(j) <= base * two_pow((policy.attempt_budget - 1) as nat))
        by (nonlinear_arith)
        requires
            two_pow(j) <= two_pow((policy.attempt_budget - 1) as nat),
    ;
    lemma_backoff_total_closed(base, j);
}

proof fn lemma_failure_step(policy: RetryPolicy, expected_size: Option<u64>, a: nat, e: ErrorKind)
    requires
        policy.wf(),
        a + 1 < policy.attempt_budget,
    ensures
        after_failures(policy, expected_size, a).wf(),
        after_failures(policy, expected_size, a).conclude_spec(AttemptOutcome::Interrupted(e)) == (
            after_failures(policy, expected_size, a + 1),
            NextStep::RetryAfter(backoff(policy.base_delay_ms as nat, a) as u64),
        ),
{
    let base = policy.base_delay_ms as nat;
    lemma_schedule_fits(policy, a);
    lemma_schedule_fits(policy, a + 1);
    assert(two_pow(a + 1) == 2 * two_pow(a));
    assert(base * two_pow(a + 1) == 2 * (base * two_pow(a))) by (nonlinear_arith)
        requires
            two_pow(a + 1) == 2 * two_pow(a),
    ;
    assert(backoff_total(base, a + 1) == backoff_total(base, a) + backoff(base, a));
}

proof fn lemma_replay_failures(
    policy: RetryPolicy,
    expected_size: Option<u64>,
    a: nat,
    ts: Seq<AttemptOutcome>,
    tail: Seq<AttemptOutcome>,
)
    requires
        policy.wf(),
        a + ts.len() < policy.attempt_budget,
        all_transient(ts),
    ensures
        replay(after_failures(policy, expected_size, a), ts + tail) == (
            replay(after_failures(policy, expected_size, a + ts.len()), tail).0,
            retry_schedule(policy.base_delay_ms as nat, a, ts.len()) + replay(
                after_failures(policy, expected_size, a + ts.len()),
                tail,
            ).1,
        ),
    decreases ts.len(),
{
    let base = policy.base_delay_ms as nat;
    if ts.len() == 0 {
        assert(ts + tail =~= tail);
        assert(retry_schedule(base, a, 0) + replay(after_failures(policy, expected_size, a), tail).1
            =~= replay(after_failures(policy, expected_size, a), tail).1);
    } else {
        let e = ts[0]->Interrupted_0;
        lemma_failure_step(policy, expected_size, a, e);
        assert((ts + tail)[0] == ts[0]);
        assert((ts + tail).drop_first() =~= ts.drop_first() + tail);
        let rest = ts.drop_first();
        assert(all_transient(rest)) by {
            assert forall|i: int| 0 <= i < rest.len() implies #[trigger] rest[i] is Interrupted by {
                assert(rest[i] == ts[i + 1]);
            }
        }
        lemma_replay_failures(policy, expected_size, a + 1, rest, tail);
        let r = replay(after_failures(policy, expected_size, a + ts.len()), tail);
        assert(a + 1 + rest.len() == a + ts.len());
        assert(seq![NextStep::RetryAfter(backoff(base, a) as u64)] + (retry_schedule(
            base,
            a + 1,
            rest.len(),
        ) + r.1) =~= retry_schedule(base, a, ts.len()) + r.1);
    }
}

/// A new transfer has the state of one whose first zero attempts failed.
proof fn lemma_start_is_after_none(policy: RetryPolicy, expected_size: Option<u64>)
    requires
        policy.wf(),
    ensures
        Download::start_spec(policy, expected_size) == after_failures(policy, expected_size, 0),
{
    assert(two_pow(0) == 1);
    assert(policy.base_delay_ms * two_pow(0) == policy.base_delay_ms);
}

/// Resumption: with a local partial file of `local_len` bytes below the
/// expected size, the attempt requests bytes from `local_len` on, appends a
/// partial-content body of the missing bytes, and so ends with exactly the
/// expected size, which completes the transfer.
pub proof fn lemma_resumption(d: Download, local_len: u64, expected: u64)
    requires
        d.wf(),
        !d.finished,
        d.expected_size == Some(expected),
        local_len < expected,
    ensures
        plan_transfer_spec(local_len, d.expected_size) == (ResumePlan::Fetch {
            from: local_len,
            restart: false,
        }),
        disposition_spec(206, local_len) == (Disposition::Write { restart: false }),
        length_after_write(local_len as nat, false, (expected - local_len) as nat) == expected,
        d.conclude_spec(AttemptOutcome::Finished { final_len: expected }).1 == NextStep::Succeeded,
{
}

/// Retries and backoff: when the first `k` attempts (fewer than the budget)
/// fail transiently and the next one completes, the transfer succeeds after
/// `k` waits of `base * 2^i`, whose total is `base * (2^k - 1)`.
pub proof fn lemma_success_after_failures(
    policy: RetryPolicy,
    expected_size: Option<u64>,
    failures: Seq<AttemptOutcome>,
    final_len: u64,
)
    requires
        policy.wf(),
        failures.len() < policy.attempt_budget,
        all_transient(failures),
        Download::start_spec(policy, expected_size).complete_at(final_len),
    ensures
        ({
            let k = failures.len();
            let base = policy.base_delay_ms as nat;
            let (d, steps) = replay(
                Download::start_spec(policy, expected_size),
                failures + seq![AttemptOutcome::Finished { final_len }],
            );
            &&& steps == retry_schedule(base, 0, k) + seq![NextStep::Succeeded]
            &&& d.waited_ms == backoff_total(base, k)
            &&& d.waited_ms + base == base * two_pow(k)
            &&& d.attempts == k + 1
        }),
{
    let k = failures.len();
    let base = policy.base_delay_ms as nat;
    let tail = seq![AttemptOutcome::Finished { final_len }];
    lemma_start_is_after_none(policy, expected_size);
    lemma_replay_failures(policy, expected_size, 0, failures, tail);
    lemma_schedule_fits(policy, k);
    lemma_backoff_total_closed(base, k);
    let dk = after_failures(policy, expected_size, k);
    assert(dk.complete_at(final_len));
    assert(tail[0] == AttemptOutcome::Finished { final_len });
    let (d1, s1) = dk.conclude_spec(tail[0]);
    assert(s1 == NextStep::Succeeded);
    assert(d1.finished);
    assert(d1.attempts == k + 1);
    assert(replay(d1, tail.drop_first()).1 =~= Seq::<NextStep>::empty());
    assert(replay(d1, tail.drop_first()).0 == d1);
    assert(replay(dk, tail).1 =~= seq![NextStep::Succeeded]);
    assert(replay(dk, tail).0 == d1);
}

/// Exhausted budget: when every attempt fails transiently, the transfer fails
/// with the last error after exactly `attempt_budget` attempts, and makes no
/// further attempt however many more failures the remote would give.
pub proof fn lemma_failure_after_budget(
    policy: RetryPolicy,
    expected_size: Option<u64>,
    failures: Seq<AttemptOutcome>,
)
    requires
        policy.wf(),
        failures.len() >= policy.attempt_budget,
        all_transient(failures),
    ensures
        ({
            let n = policy.attempt_budget as int;
            let (d, steps) = replay(Download::start_spec(policy, expected_size), failures);
            &&& steps.len() == n
            &&& steps[n - 1] == NextStep::Failed(failures[n - 1]->Interrupted_0)
            &&& forall|i: int| 0 <= i < n - 1 ==> #[trigger] steps[i] is RetryAfter
            &&& d.finished
            &&& d.attempts == n
        }),
{
    let n = policy.attempt_budget as int;
    let base = policy.base_delay_ms as nat;
    let head = failures.subrange(0, n - 1);
    let tail = failures.subrange(n - 1, failures.len() as int);
    assert(failures =~= head + tail);
    assert(all_transient(head)) by {
        assert forall|i: int| 0 <= i < head.len() implies #[trigger] head[i] is Interrupted by {
            assert(head[i] == failures[i]);
        }
    }
    lemma_start_is_after_none(policy, expected_size);
    lemma_replay_failures(policy, expected_size, 0, head, tail);
    let dl = after_failures(policy, expected_size, (n - 1) as nat);
    lemma_schedule_fits(policy, (n - 1) as nat);
    assert(tail[0] == failures[n - 1]);
    let (d1, s1) = dl.conclude_spec(tail[0]);
    assert(d1.finished);
    assert(replay(d1, tail.drop_first()).1 =~= Seq::<NextStep>::empty());
    assert(replay(dl, tail).1 =~= seq![s1]);
}

} // verus!
