//! Retrying with exponential backoff and jitter: whether to try again, and how
//! long to wait first.

use rand::Rng;
use vstd::prelude::*;

verus! {

/// How often, and how patiently, an operation is tried again.
#[derive(Debug, Clone, Copy)]
pub struct RetryConfig {
    pub max_retries: u32,
    pub base_delay_ms: u64,
    pub max_delay_ms: u64,
    /// Part of the delay that is randomised, in thousandths: 200 is 20% up or
    /// down. It keeps workers that failed together from retrying together.
    pub jitter_permille: u32,
}

impl Default for RetryConfig {
    fn default() -> (config: Self)
        ensures
            config.max_retries == 5,
            config.base_delay_ms == 250,
            config.max_delay_ms == 10_000,
            config.jitter_permille == 200,
    {
        RetryConfig {
            max_retries: 5,
            base_delay_ms: 250,
            max_delay_ms: 10_000,
            jitter_permille: 200,
        }
    }
}

/// `base` doubled `n` times.
pub open spec fn doubled(base: nat, n: nat) -> nat
    decreases n,
{
    if n == 0 {
        base
    } else {
        2 * doubled(base, (n - 1) as nat)
    }
}

/// The delay after failed attempt number `attempt`, counted from zero, before
/// jitter: it doubles with each attempt and never passes the maximum.
pub open spec fn backoff(config: RetryConfig, attempt: nat) -> nat {
    let grown = doubled(config.base_delay_ms as nat, attempt);
    if grown < config.max_delay_ms {
        grown
    } else {
        config.max_delay_ms as nat
    }
}

/// How far jitter may move a delay of `capped_ms`, in microseconds.
pub open spec fn jitter_bound(config: RetryConfig, capped_ms: nat) -> nat {
    capped_ms * config.jitter_permille as nat
}

/// The delay in whole milliseconds once jitter was added: never negative, and
/// cut to what a `u64` holds.
pub open spec fn jittered(capped_ms: nat, jitter_us: int) -> nat {
    let us = capped_ms * 1000 + jitter_us;
    if us < 0 {
        0
    } else if us / 1000 > u64::MAX {
        u64::MAX as nat
    } else {
        (us / 1000) as nat
    }
}

/// Whether some jitter within bounds turns a delay of `capped_ms` into `delay_ms`.
pub open spec fn is_delay_after(config: RetryConfig, capped_ms: nat, delay_ms: u64) -> bool {
    exists|jitter_us: int|
        -jitter_bound(config, capped_ms) <= jitter_us <= jitter_bound(config, capped_ms)
            && delay_ms == #[trigger] jittered(capped_ms, jitter_us)
}

/// Whether failed attempt number `attempt` is followed by another.
pub open spec fn tries_again(config: RetryConfig, attempt: nat, transient: bool) -> bool {
    transient && attempt < config.max_retries
}

proof fn lemma_doubled_grows(base: nat, n: nat, m: nat)
    requires
        n <= m,
    ensures
        doubled(base, n) <= doubled(base, m),
    decreases m,
{
    if n < m {
        lemma_doubled_grows(base, n, (m - 1) as nat);
    }
}

proof fn lemma_doubled_zero(n: nat)
    ensures
        doubled(0, n) == 0,
    decreases n,
{
    if n > 0 {
        lemma_doubled_zero((n - 1) as nat);
    }
}

/// The delay after a failed attempt, before jitter.
pub fn backoff_ms(config: RetryConfig, attempt: u32) -> (capped_ms: u64)
    ensures
        capped_ms == backoff(config, attempt as nat),
{
    if config.base_delay_ms == 0 {
        proof {
            lemma_doubled_zero(attempt as nat);
        }
        return 0;
    }
    let mut grown: u128 = config.base_delay_ms as u128;
    let mut i: u32 = 0;
    while i < attempt && grown < config.max_delay_ms as u128
        invariant
            i <= attempt,
            grown == doubled(config.base_delay_ms as nat, i as nat),
            grown <= 2 * (u64::MAX as u128),
        decreases attempt - i,
    {
        grown = 2 * grown;
        i += 1;
    }
    proof {
        lemma_doubled_grows(config.base_delay_ms as nat, i as nat, attempt as nat);
    }
    if grown < config.max_delay_ms as u128 {
        grown as u64
    } else {
        config.max_delay_ms
    }
}

/// How far jitter may move a delay of `capped_ms`, in microseconds.
pub fn jitter_bound_us(config: RetryConfig, capped_ms: u64) -> (bound: i128)
    ensures
        bound == jitter_bound(config, capped_ms as nat),
        bound <= u64::MAX * u32::MAX,
{
    assert(0 <= capped_ms * config.jitter_permille <= u64::MAX * u32::MAX) by (nonlinear_arith)
        requires
            0 <= capped_ms <= u64::MAX,
            0 <= config.jitter_permille <= u32::MAX,
    ;
    capped_ms as i128 * config.jitter_permille as i128
}

/// Adds jitter, in microseconds, to a delay.
pub fn add_jitter(capped_ms: u64, jitter_us: i128) -> (delay_ms: u64)
    requires
        capped_ms * 1000 + jitter_us <= i128::MAX,
    ensures
        delay_ms == jittered(capped_ms as nat, jitter_us as int),
{
    let us: i128 = capped_ms as i128 * 1000 + jitter_us;
    if us < 0 {
        return 0;
    }
    let ms: u128 = us as u128 / 1000;
    if ms > u64::MAX as u128 {
        u64::MAX
    } else {
        ms as u64
    }
}

/// `Rng::gen_range` of `rand::thread_rng`, over a range that is symmetric
/// about zero: some number of the range.
#[verifier::external_body]
fn random_within(bound: i128) -> (jitter: i128)
    requires
        0 <= bound,
    ensures
        -bound <= jitter <= bound,
{
    rand::thread_rng().gen_range(-bound..=bound)
}

/// Counts the attempts at one operation.
#[derive(Debug, Clone, Copy)]
pub struct Retry {
    pub config: RetryConfig,
    /// Attempts that have failed and were followed by another.
    pub attempt: u32,
}

impl Retry {
    /// No attempt has failed.
    pub fn new(config: RetryConfig) -> (retry: Self)
        ensures
            retry.config == config,
            retry.attempt == 0,
    {
        Retry { config, attempt: 0 }
    }

    /// Decides what follows a failed attempt: the delay before the next one,
    /// without jitter, or nothing where it was the last.
    pub fn next_backoff(&mut self, transient: bool) -> (capped_ms: Option<u64>)
        ensures
            final(self).config == old(self).config,
            tries_again(old(self).config, old(self).attempt as nat, transient) ==> {
                &&& capped_ms matches Some(ms)
                &&& ms == backoff(old(self).config, old(self).attempt as nat)
                &&& final(self).attempt == old(self).attempt + 1
            },
            !tries_again(old(self).config, old(self).attempt as nat, transient) ==> {
                &&& capped_ms is None
                &&& final(self).attempt == old(self).attempt
            },
    {
        if self.attempt >= self.config.max_retries || !transient {
            return None;
        }
        let capped_ms: u64 = backoff_ms(self.config, self.attempt);
        self.attempt = self.attempt + 1;
        Some(capped_ms)
    }

    /// Decides what follows a failed attempt: the delay before the next one,
    /// or nothing where it was the last. The jitter is random, so only its
    /// bounds are known.
    pub fn after_error(&mut self, transient: bool) -> (delay_ms: Option<u64>)
        ensures
            final(self).config == old(self).config,
            tries_again(old(self).config, old(self).attempt as nat, transient) ==> {
                &&& delay_ms matches Some(ms)
                &&& is_delay_after(
                    old(self).config,
                    backoff(old(self).config, old(self).attempt as nat),
                    ms,
                )
                &&& final(self).attempt == old(self).attempt + 1
            },
            !tries_again(old(self).config, old(self).attempt as nat, transient) ==> {
                &&& delay_ms is None
                &&& final(self).attempt == old(self).attempt
            },
    {
        match self.next_backoff(transient) {
            None => None,
            Some(capped_ms) => {
                let jitter_us: i128 = random_within(jitter_bound_us(self.config, capped_ms));
                let delay_ms: u64 = add_jitter(capped_ms, jitter_us);
                assert(delay_ms == jittered(capped_ms as nat, jitter_us as int));
                Some(delay_ms)
            },
        }
    }
}

/// How one attempt ended.
pub enum Attempt {
    Success,
    Failure { transient: bool },
}

/// How many of the attempts are made, when they would end as given, from
/// attempt number `first` on.
pub open spec fn attempts_made(config: RetryConfig, attempts: Seq<Attempt>, first: nat) -> nat
    decreases attempts.len() - first,
{
    if first >= attempts.len() {
        0
    } else {
        match attempts[first as int] {
            Attempt::Success => 1,
            Attempt::Failure { transient } => if tries_again(config, first, transient) {
                1 + attempts_made(config, attempts, first + 1)
            } else {
                1
            },
        }
    }
}

proof fn lemma_attempts_bounded(config: RetryConfig, attempts: Seq<Attempt>, first: nat)
    requires
        first <= config.max_retries,
    ensures
        attempts_made(config, attempts, first) <= config.max_retries + 1 - first,
        (attempts.len() > config.max_retries && forall|i: int|
            first <= i <= config.max_retries ==> (#[trigger] attempts[i]) == (Attempt::Failure {
                transient: true,
            })) ==> attempts_made(config, attempts, first) == config.max_retries + 1 - first,
    decreases config.max_retries - first,
{
    if first < config.max_retries {
        lemma_attempts_bounded(config, attempts, first + 1);
    }
}

/// An operation runs at most once more than it may be retried, exactly so
/// where every run fails for a transient reason.
pub proof fn law_attempts_are_bounded(config: RetryConfig, attempts: Seq<Attempt>)
    ensures
        attempts_made(config, attempts, 0) <= config.max_retries + 1,
        (attempts.len() > config.max_retries && forall|i: int|
            0 <= i <= config.max_retries ==> (#[trigger] attempts[i]) == (Attempt::Failure {
                transient: true,
            })) ==> attempts_made(config, attempts, 0) == config.max_retries + 1,
{
    lemma_attempts_bounded(config, attempts, 0);
}

/// Nothing runs after a success or after an error that is not transient.
pub proof fn law_terminal_attempt_is_last(config: RetryConfig, attempts: Seq<Attempt>, i: nat)
    requires
        i < attempts.len(),
        attempts[i as int] == (Attempt::Failure { transient: false }) || attempts[i as int]
            == Attempt::Success,
    ensures
        attempts_made(config, attempts, 0) <= i + 1,
{
    lemma_terminal(config, attempts, i, 0);
}

proof fn lemma_terminal(config: RetryConfig, attempts: Seq<Attempt>, i: nat, first: nat)
    requires
        first <= i < attempts.len(),
        attempts[i as int] == (Attempt::Failure { transient: false }) || attempts[i as int]
            == Attempt::Success,
    ensures
        attempts_made(config, attempts, first) <= i + 1 - first,
    decreases i - first,
{
    if first < i {
        lemma_terminal(config, attempts, i, first + 1);
    }
}

/// Delays grow from attempt to attempt and never pass the maximum.
pub proof fn law_backoff_grows_to_its_cap(config: RetryConfig, attempt: nat)
    ensures
        backoff(config, attempt) <= backoff(config, attempt + 1) <= config.max_delay_ms,
{
    lemma_doubled_grows(config.base_delay_ms as nat, attempt, attempt + 1);
}

/// Jitter moves a delay up or down by no more than its part of the delay.
pub proof fn law_jitter_is_bounded(config: RetryConfig, capped_ms: nat, jitter_us: int)
    requires
        config.jitter_permille <= 1000,
        -jitter_bound(config, capped_ms) <= jitter_us <= jitter_bound(config, capped_ms),
    ensures
        capped_ms * (1000 - config.jitter_permille) / 1000 <= jittered(capped_ms, jitter_us)
            || jittered(capped_ms, jitter_us) == u64::MAX,
        jittered(capped_ms, jitter_us) <= capped_ms * (1000 + config.jitter_permille) / 1000,
{
    let p = config.jitter_permille as int;
    let us = capped_ms * 1000 + jitter_us;
    assert(capped_ms * (1000 - p) == capped_ms * 1000 - capped_ms * p) by (nonlinear_arith);
    assert(capped_ms * (1000 + p) == capped_ms * 1000 + capped_ms * p) by (nonlinear_arith);
    assert(0 <= capped_ms * (1000 - p)) by (nonlinear_arith)
        requires
            0 <= p <= 1000,
            0 <= capped_ms,
    ;
    assert(us >= 0);
}

/// Delays begin with the base and double with each attempt, and the maximum
/// cuts them off.
pub proof fn law_delays_double(config: RetryConfig, attempt: nat)
    ensures
        config.base_delay_ms <= config.max_delay_ms ==> backoff(config, 0) == config.base_delay_ms,
        config.base_delay_ms > config.max_delay_ms ==> backoff(config, 0) == config.max_delay_ms,
        2 * backoff(config, attempt) <= config.max_delay_ms ==> backoff(config, attempt + 1) == 2
            * backoff(config, attempt),
        2 * backoff(config, attempt) > config.max_delay_ms ==> backoff(config, attempt + 1)
            == config.max_delay_ms,
{
    lemma_doubled_grows(config.base_delay_ms as nat, attempt, attempt + 1);
}

/// Jitter is added to the delay in microseconds, and what is left of a
/// millisecond is dropped. Below zero there is no delay.
pub proof fn law_jitter_is_added(capped_ms: nat, jitter_us: int)
    ensures
        capped_ms * 1000 + jitter_us < 0 ==> jittered(capped_ms, jitter_us) == 0,
        0 <= capped_ms * 1000 + jitter_us < 1000 * (u64::MAX as int + 1) ==> {
            let ms = jittered(capped_ms, jitter_us);
            ms * 1000 <= capped_ms * 1000 + jitter_us < ms * 1000 + 1000
        },
        capped_ms * 1000 + jitter_us >= 1000 * (u64::MAX as int + 1) ==> jittered(
            capped_ms,
            jitter_us,
        ) == u64::MAX,
        jittered(capped_ms, 0) == if capped_ms <= u64::MAX {
            capped_ms
        } else {
            u64::MAX as nat
        },
{
}

/// The jitter is a part of the delay, in thousandths: of a delay in
/// milliseconds that many microseconds.
pub proof fn law_jitter_is_a_part(config: RetryConfig, capped_ms: nat)
    ensures
        jitter_bound(config, capped_ms) == capped_ms * config.jitter_permille,
        config.jitter_permille == 0 ==> jitter_bound(config, capped_ms) == 0,
        config.jitter_permille == 1000 ==> jitter_bound(config, capped_ms) == capped_ms * 1000,
{
    assert(capped_ms * 0 == 0) by (nonlinear_arith);
}

/// Only a transient failure is followed by another attempt, and only while
/// fewer attempts were followed by another than may be.
pub proof fn law_what_is_tried_again(config: RetryConfig, attempt: nat)
    ensures
        !tries_again(config, attempt, false),
        attempt < config.max_retries ==> tries_again(config, attempt, true),
        attempt >= config.max_retries ==> !tries_again(config, attempt, true),
{
}

/// A delay is off by no more than its part of the delay: a tenth of it where a
/// tenth is random, and so on, up to what is left of a millisecond.
pub proof fn law_delays_stay_within_their_jitter(
    config: RetryConfig,
    capped_ms: nat,
    delay_ms: u64,
)
    requires
        is_delay_after(config, capped_ms, delay_ms),
    ensures
        delay_ms * 1000 <= capped_ms * 1000 + capped_ms * config.jitter_permille,
        delay_ms < u64::MAX ==> capped_ms * 1000 - capped_ms * config.jitter_permille < delay_ms
            * 1000 + 1000,
        config.jitter_permille == 0 && capped_ms <= u64::MAX ==> delay_ms == capped_ms,
{
    let jitter_us = choose|jitter_us: int|
        -jitter_bound(config, capped_ms) <= jitter_us <= jitter_bound(config, capped_ms)
            && delay_ms == #[trigger] jittered(capped_ms, jitter_us);
    law_jitter_is_a_part(config, capped_ms);
}

} // verus!
