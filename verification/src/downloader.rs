use vstd::prelude::*;

verus! {

/// Two to the power `k`.
pub open spec fn pow2(k: nat) -> nat
    decreases k,
{
    if k == 0 {
        1
    } else {
        2 * pow2((k - 1) as nat)
    }
}

proof fn lemma_pow2_pos(k: nat)
    ensures
        pow2(k) >= 1,
    decreases k,
{
    if k > 0 {
        lemma_pow2_pos((k - 1) as nat)
    }
}

proof fn lemma_pow2_mono(a: nat, b: nat)
    requires
        a <= b,
    ensures
        pow2(a) <= pow2(b),
    decreases b,
{
    if a < b {
        lemma_pow2_mono(a, (b - 1) as nat);
        lemma_pow2_pos((b - 1) as nat);
    }
}

proof fn lemma_pow2_add(a: nat, b: nat)
    ensures
        pow2(a + b) == pow2(a) * pow2(b),
    decreases a,
{
    if a == 0 {
        assert(1 * pow2(b) == pow2(b)) by (nonlinear_arith);
    } else {
        lemma_pow2_add((a - 1) as nat, b);
        assert(2 * (pow2((a - 1) as nat) * pow2(b)) == (2 * pow2((a - 1) as nat)) * pow2(b))
            by (nonlinear_arith);
    }
}

proof fn lemma_pow2_bound(k: nat)
    requires
        k <= 32,
    ensures
        pow2(k) <= 0x1_0000_0000,
{
    lemma_pow2_mono(k, 32);
    reveal_with_fuel(pow2, 9);
    assert(pow2(8) == 256);
    lemma_pow2_add(8, 8);
    assert(pow2(16) == 0x1_0000);
    lemma_pow2_add(16, 16);
    assert(pow2(32) == 0x1_0000_0000);
}

/// Total backoff slept after `k` failed attempts: the first delay is
/// `init` seconds and every further delay doubles the one before it.
pub open spec fn sum_delays(init: nat, k: nat) -> nat
    decreases k,
{
    if k == 0 {
        0
    } else {
        sum_delays(init, (k - 1) as nat) + init * pow2((k - 1) as nat)
    }
}

/// The doubling delays after `k` failures add up to `init * (2^k - 1)`.
pub proof fn lemma_sum_delays_closed_form(init: nat, k: nat)
    ensures
        sum_delays(init, k) == init * (pow2(k) - 1),
    decreases k,
{
    if k == 0 {
        assert(init * (pow2(0) - 1) == 0) by (nonlinear_arith);
    } else {
        lemma_sum_delays_closed_form(init, (k - 1) as nat);
        lemma_pow2_pos((k - 1) as nat);
        let p = pow2((k - 1) as nat);
        assert(pow2(k) == 2 * p);
        assert(init * (p - 1) + init * p == init * (2 * p - 1)) by (nonlinear_arith)
            requires
                p >= 1,
        ;
    }
}

/// Configuration of the retrying downloader: the attempt budget and the
/// first backoff delay. Held explicit so that tests can substitute
/// other budgets and delays.
pub struct RetryPolicy {
    pub max_attempts: u64,
    pub initial_delay_secs: u64,
}

impl RetryPolicy {
    /// Bounds under which no delay sum can overflow.
    pub open spec fn wf(&self) -> bool {
        &&& 1 <= self.max_attempts <= 32
        &&& 1 <= self.initial_delay_secs <= 0x1_0000
    }

    /// The fixed policy of the crawler: five attempts, with backoff
    /// starting at one second.
    pub fn new() -> (p: Self)
        ensures
            p.wf(),
            p.max_attempts == 5,
            p.initial_delay_secs == 1,
    {
        RetryPolicy { max_attempts: 5, initial_delay_secs: 1 }
    }
}

/// The live state of one download's retry loop: how many attempts have
/// failed so far and the backoff delay that the next failure incurs.
/// An app-side fetch loop drives it one attempt at a time; the verified
/// `run_fetch` makes the same decisions against a recorded outcome
/// sequence.
pub struct RetrySchedule {
    pub max_attempts: u64,
    pub initial_delay_secs: u64,
    pub failures: u64,
    pub delay_secs: u64,
}

impl RetrySchedule {
    /// Consistency with the policy bounds and the doubling rule.
    pub open spec fn wf(&self) -> bool {
        &&& 1 <= self.max_attempts <= 32
        &&& 1 <= self.initial_delay_secs <= 0x1_0000
        &&& self.failures <= self.max_attempts
        &&& self.delay_secs == self.initial_delay_secs * pow2(self.failures as nat)
    }

    /// A fresh schedule under `policy`: no failures yet, the first
    /// backoff is the policy's initial delay.
    pub fn new(policy: &RetryPolicy) -> (s: Self)
        requires
            policy.wf(),
        ensures
            s.wf(),
            s.failures == 0,
            s.max_attempts == policy.max_attempts,
            s.initial_delay_secs == policy.initial_delay_secs,
    {
        assert(pow2(0) == 1);
        assert(policy.initial_delay_secs * 1 == policy.initial_delay_secs) by (nonlinear_arith);
        RetrySchedule {
            max_attempts: policy.max_attempts,
            initial_delay_secs: policy.initial_delay_secs,
            failures: 0,
            delay_secs: policy.initial_delay_secs,
        }
    }

    /// Whether the attempt budget still allows a fetch attempt.
    pub fn may_attempt(&self) -> (b: bool)
        ensures
            b == (self.failures < self.max_attempts),
    {
        self.failures < self.max_attempts
    }

    /// One failed attempt: yields the backoff to sleep now — the
    /// initial delay doubled once per earlier failure, as after the
    /// same number of failures in `run_fetch` — and whether the budget
    /// allows a further attempt.
    pub fn record_failure(&mut self) -> (r: (u64, bool))
        requires
            old(self).wf(),
            old(self).failures < old(self).max_attempts,
        ensures
            final(self).wf(),
            final(self).max_attempts == old(self).max_attempts,
            final(self).initial_delay_secs == old(self).initial_delay_secs,
            final(self).failures == old(self).failures + 1,
            r.0 == old(self).initial_delay_secs * pow2(old(self).failures as nat),
            r.1 == (old(self).failures + 1 < old(self).max_attempts),
    {
        proof {
            lemma_pow2_bound(self.failures as nat);
            lemma_pow2_bound((self.failures + 1) as nat);
            assert(self.initial_delay_secs * pow2(self.failures as nat) <= 0x1_0000
                * 0x1_0000_0000) by (nonlinear_arith)
                requires
                    self.initial_delay_secs <= 0x1_0000,
                    pow2(self.failures as nat) <= 0x1_0000_0000,
            ;
            let p = pow2(self.failures as nat);
            assert(pow2((self.failures + 1) as nat) == 2 * p);
            assert(2 * (self.initial_delay_secs * p) == self.initial_delay_secs * (2 * p))
                by (nonlinear_arith);
        }
        let delay = self.delay_secs;
        self.delay_secs = self.delay_secs * 2;
        self.failures = self.failures + 1;
        (delay, self.failures < self.max_attempts)
    }
}

/// The index of the first successful attempt among the first `max`
/// outcomes at or after `from`, if any.
pub open spec fn first_success_from(outcomes: Seq<bool>, from: int, max: int) -> Option<int>
    decreases max - from,
{
    if from < 0 || from >= max || from >= outcomes.len() {
        None
    } else if outcomes[from] {
        Some(from)
    } else {
        first_success_from(outcomes, from + 1, max)
    }
}

/// What one run of the download retry loop did: on which attempt the
/// fetch succeeded (if any), how many attempts were made, and how long
/// the backoff sleeps added up to.
pub struct FetchRun {
    pub success_attempt: Option<u64>,
    pub attempts_made: u64,
    pub total_backoff_secs: u64,
}

/// The decisions of the download retry loop, run against a fixed
/// sequence of attempt outcomes (`true` is a successful fetch): attempts
/// are made in order until one succeeds or the budget is spent; every
/// failed attempt is followed by a backoff sleep, starting at the
/// policy's initial delay and doubling each time.
pub fn run_fetch(policy: &RetryPolicy, outcomes: &Vec<bool>) -> (r: FetchRun)
    requires
        policy.wf(),
        outcomes@.len() >= policy.max_attempts,
    ensures
        match first_success_from(outcomes@, 0, policy.max_attempts as int) {
            Some(i) => {
                &&& r.success_attempt == Some((i + 1) as u64)
                &&& r.attempts_made == i + 1
                &&& r.total_backoff_secs == sum_delays(policy.initial_delay_secs as nat, i as nat)
            },
            None => {
                &&& r.success_attempt is None
                &&& r.attempts_made == policy.max_attempts
                &&& r.total_backoff_secs == sum_delays(
                    policy.initial_delay_secs as nat,
                    policy.max_attempts as nat,
                )
            },
        },
{
    let ghost max = policy.max_attempts as int;
    let ghost init = policy.initial_delay_secs as nat;
    let mut attempt: u64 = 0;
    let mut delay: u64 = policy.initial_delay_secs;
    let mut total: u64 = 0;
    assert(pow2(0) == 1);
    assert(init * 1 == init) by (nonlinear_arith);
    while attempt < policy.max_attempts
        invariant
            policy.wf(),
            outcomes@.len() >= policy.max_attempts,
            max == policy.max_attempts as int,
            init == policy.initial_delay_secs as nat,
            0 <= attempt <= policy.max_attempts,
            delay == init * pow2(attempt as nat),
            total == sum_delays(init, attempt as nat),
            first_success_from(outcomes@, 0, max) == first_success_from(
                outcomes@,
                attempt as int,
                max,
            ),
        decreases max - attempt,
    {
        if outcomes[attempt as usize] {
            assert(first_success_from(outcomes@, attempt as int, max) == Some(attempt as int));
            return FetchRun {
                success_attempt: Some(attempt + 1),
                attempts_made: attempt + 1,
                total_backoff_secs: total,
            };
        }
        proof {
            lemma_pow2_bound(attempt as nat);
            lemma_pow2_bound((attempt + 1) as nat);
            lemma_sum_delays_closed_form(init, (attempt + 1) as nat);
            lemma_sum_delays_closed_form(init, attempt as nat);
            assert(init * pow2(attempt as nat) <= 0x1_0000 * 0x1_0000_0000) by (nonlinear_arith)
                requires
                    init <= 0x1_0000,
                    pow2(attempt as nat) <= 0x1_0000_0000,
            ;
            assert(init * (pow2((attempt + 1) as nat) - 1) <= 0x1_0000 * 0x1_0000_0000)
                by (nonlinear_arith)
                requires
                    init <= 0x1_0000,
                    pow2((attempt + 1) as nat) <= 0x1_0000_0000,
            ;
            let p = pow2(attempt as nat);
            assert(pow2((attempt + 1) as nat) == 2 * p);
            assert(2 * (init * p) == init * (2 * p)) by (nonlinear_arith);
        }
        total = total + delay;
        delay = delay * 2;
        attempt = attempt + 1;
    }
    FetchRun { success_attempt: None, attempts_made: attempt, total_backoff_secs: total }
}

} // verus!
