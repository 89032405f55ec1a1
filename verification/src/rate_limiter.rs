//! A token bucket that bounds the rate of requests, in exact arithmetic.
//!
//! Rates and capacities are given in billionths of a token and times in
//! nanoseconds, so a refill is a whole number of [`TOKEN`] parts.

use vstd::prelude::*;

verus! {

/// Parts that make up one token: a nanosecond at one billionth of a token per
/// second refills one part.
pub const TOKEN: u128 = 1_000_000_000_000_000_000;

/// Parts in one billionth of a token.
const PARTS_PER_NANO: u128 = 1_000_000_000;

/// What a [`TokenBucketLimiter`] stands for.
pub struct BucketView {
    /// Parts that can accumulate.
    pub capacity: nat,
    /// Parts that one nanosecond refills.
    pub rate: nat,
    /// Parts that are there.
    pub tokens: nat,
    /// The time of the last refill, in nanoseconds.
    pub last_refill: nat,
}

impl BucketView {
    /// The bucket once it was refilled up to `now`. A clock that went back
    /// refills nothing.
    pub open spec fn refilled(self, now: nat) -> BucketView {
        let gain = if now > self.last_refill {
            (now - self.last_refill) as nat * self.rate
        } else {
            0
        };
        BucketView {
            tokens: if self.tokens + gain < self.capacity {
                self.tokens + gain
            } else {
                self.capacity
            },
            last_refill: now,
            ..self
        }
    }

    /// Whether a request at `now` gets its token.
    pub open spec fn grants(self, now: nat) -> bool {
        self.refilled(now).tokens >= TOKEN
    }

    /// The bucket after a request at `now`.
    pub open spec fn after(self, now: nat) -> BucketView {
        let full = self.refilled(now);
        if self.grants(now) {
            BucketView { tokens: (full.tokens - TOKEN) as nat, ..full }
        } else {
            full
        }
    }

    /// The least number of nanoseconds in which the rate makes up for what is
    /// missing at `now`.
    pub open spec fn is_wait(self, now: nat, wait: nat) -> bool {
        let missing = (TOKEN - self.refilled(now).tokens) as nat;
        wait * self.rate >= missing && forall|w: nat| #[trigger]
            (w * self.rate) >= missing ==> wait <= w
    }
}

/// A token bucket.
pub struct TokenBucketLimiter {
    capacity: u128,
    rate: u64,
    tokens: u128,
    last_refill: u64,
}

impl View for TokenBucketLimiter {
    type V = BucketView;

    closed spec fn view(&self) -> BucketView {
        BucketView {
            capacity: self.capacity as nat,
            rate: self.rate as nat,
            tokens: self.tokens as nat,
            last_refill: self.last_refill as nat,
        }
    }
}

impl TokenBucketLimiter {
    /// The bucket never overflows.
    #[verifier::type_invariant]
    pub closed spec fn wf(self) -> bool {
        self.tokens <= self.capacity
    }

    /// A full bucket at time `now`. `rate_per_sec` is the sustained rate and
    /// `burst` what can accumulate, both in billionths of a token.
    pub fn new(rate_per_sec: u64, burst: u64, now: u64) -> (limiter: Self)
        ensures
            limiter@ == (BucketView {
                capacity: burst as nat * 1_000_000_000,
                rate: rate_per_sec as nat,
                tokens: burst as nat * 1_000_000_000,
                last_refill: now as nat,
            }),
    {
        let capacity: u128 = burst as u128 * PARTS_PER_NANO;
        TokenBucketLimiter { capacity, rate: rate_per_sec, tokens: capacity, last_refill: now }
    }

    /// Asks for one token at time `now`: takes it, or says how many
    /// nanoseconds to wait before asking again.
    pub fn acquire(&mut self, now: u64) -> (wait: Option<u64>)
        requires
            old(self)@.rate > 0 || old(self)@.grants(now as nat),
        ensures
            final(self)@ == old(self)@.after(now as nat),
            match wait {
                None => old(self)@.grants(now as nat),
                Some(w) => !old(self)@.grants(now as nat) && old(self)@.is_wait(
                    now as nat,
                    w as nat,
                ),
            },
    {
        proof {
            use_type_invariant(&*self);
        }
        let elapsed: u64 = if now > self.last_refill {
            now - self.last_refill
        } else {
            0
        };
        assert(0 <= elapsed * self.rate <= u128::MAX) by (nonlinear_arith)
            requires
                0 <= elapsed <= u64::MAX,
                0 <= self.rate <= u64::MAX,
        ;
        let gain: u128 = elapsed as u128 * self.rate as u128;
        assert(elapsed == 0 ==> gain == 0) by (nonlinear_arith)
            requires
                gain == elapsed * self.rate,
        ;
        let tokens: u128 = if gain < self.capacity - self.tokens {
            self.tokens + gain
        } else {
            self.capacity
        };
        assert(tokens == old(self)@.refilled(now as nat).tokens);
        if tokens >= TOKEN {
            *self = TokenBucketLimiter {
                capacity: self.capacity,
                rate: self.rate,
                tokens: tokens - TOKEN,
                last_refill: now,
            };
            None
        } else {
            let missing: u128 = TOKEN - tokens;
            let rate: u128 = self.rate as u128;
            let wait: u128 = (missing + rate - 1) / rate;
            proof {
                lemma_ceiling(missing as nat, rate as nat, wait as nat);
            }
            *self = TokenBucketLimiter {
                capacity: self.capacity,
                rate: self.rate,
                tokens,
                last_refill: now,
            };
            Some(wait as u64)
        }
    }
}

proof fn lemma_ceiling(n: nat, d: nat, q: nat)
    requires
        d >= 1,
        q == (n + d - 1) / d as int,
    ensures
        q * d >= n,
        q <= n,
        forall|w: nat| #[trigger] (w * d) >= n ==> q <= w,
{
    assert(q * d >= n && q <= n) by (nonlinear_arith)
        requires
            q == (n + d - 1) / d as int,
            d >= 1,
            n >= 0,
            q >= 0,
    ;
    assert forall|w: nat| #[trigger] (w * d) >= n implies q <= w by {
        assert(q <= w) by (nonlinear_arith)
            requires
                q == (n + d - 1) / d as int,
                d >= 1,
                w * d >= n,
        ;
    }
}

/// The bucket after requests at the given times, and how many were granted.
pub open spec fn bucket_run(bucket: BucketView, times: Seq<nat>) -> (BucketView, nat)
    decreases times.len(),
{
    if times.len() == 0 {
        (bucket, 0)
    } else {
        let (before, granted) = bucket_run(bucket, times.drop_last());
        let now = times.last();
        (
            before.after(now),
            if before.grants(now) {
                granted + 1
            } else {
                granted
            },
        )
    }
}

/// However many callers share the bucket: the requests granted up to some time
/// never exceed what was there at the start plus what the rate brought since.
pub proof fn law_rate_is_never_exceeded(bucket: BucketView, times: Seq<nat>)
    requires
        bucket.tokens <= bucket.capacity,
        times.len() > 0,
        forall|i: int| 0 <= i < times.len() ==> bucket.last_refill <= #[trigger] times[i],
        forall|i: int, j: int| 0 <= i <= j < times.len() ==> times[i] <= times[j],
    ensures
        bucket_run(bucket, times).1 * TOKEN <= bucket.tokens + (times.last() - bucket.last_refill)
            * bucket.rate,
{
    lemma_run_budget(bucket, times);
}

proof fn lemma_run_budget(bucket: BucketView, times: Seq<nat>)
    requires
        bucket.tokens <= bucket.capacity,
        forall|i: int| 0 <= i < times.len() ==> bucket.last_refill <= #[trigger] times[i],
        forall|i: int, j: int| 0 <= i <= j < times.len() ==> times[i] <= times[j],
    ensures
        ({
            let (after, granted) = bucket_run(bucket, times);
            let end = if times.len() == 0 {
                bucket.last_refill
            } else {
                times.last()
            };
            &&& after.rate == bucket.rate
            &&& after.capacity == bucket.capacity
            &&& after.last_refill == end
            &&& after.tokens <= after.capacity
            &&& granted * TOKEN + after.tokens <= bucket.tokens + (end - bucket.last_refill)
                * bucket.rate
        }),
    decreases times.len(),
{
    if times.len() > 0 {
        let prior = times.drop_last();
        lemma_run_budget(bucket, prior);
        let (before, granted) = bucket_run(bucket, prior);
        let now = times.last();
        let mid = before.last_refill;
        if prior.len() > 0 {
            assert(prior.last() == times[times.len() - 2]);
        }
        assert(mid <= now);
        assert((now - mid) * bucket.rate + (mid - bucket.last_refill) * bucket.rate == (now
            - bucket.last_refill) * bucket.rate) by (nonlinear_arith);
        assert((now - mid) * bucket.rate >= 0) by (nonlinear_arith)
            requires
                now >= mid,
        ;
        assert((granted + 1) * TOKEN == granted * TOKEN + TOKEN) by (nonlinear_arith);
    } else {
        assert(0 * bucket.rate == 0) by (nonlinear_arith);
    }
}

/// A caller that was told to wait and asks again no sooner gets its token, if
/// nobody asked in between and the bucket can hold a token at all.
pub proof fn law_waiting_is_rewarded(bucket: BucketView, now: nat, wait: nat, later: nat)
    requires
        bucket.capacity >= TOKEN,
        !bucket.grants(now),
        bucket.is_wait(now, wait),
        later >= now + wait,
    ensures
        bucket.after(now).grants(later),
{
    assert(wait > 0) by (nonlinear_arith)
        requires
            wait * bucket.rate > 0,
    ;
    assert((later - now) * bucket.rate >= wait * bucket.rate) by (nonlinear_arith)
        requires
            later - now >= wait,
            bucket.rate >= 0,
    ;
}

/// A bucket too small for one token never grants a request.
pub proof fn law_small_bucket_grants_nothing(bucket: BucketView, now: nat)
    requires
        bucket.capacity < TOKEN,
    ensures
        !bucket.grants(now),
        bucket.after(now).capacity == bucket.capacity,
{
}

/// What a request at `now` does: what the time since the last one refilled is
/// there, up to the capacity, and a whole token is taken where there is one.
/// Nothing else is lost, and a clock that went back refills nothing.
pub proof fn law_tokens_are_kept(bucket: BucketView, now: nat)
    requires
        bucket.tokens <= bucket.capacity,
    ensures
        ({
            let gain = if now > bucket.last_refill {
                (now - bucket.last_refill) * bucket.rate
            } else {
                0
            };
            let there = if bucket.tokens + gain <= bucket.capacity {
                bucket.tokens + gain
            } else {
                bucket.capacity as int
            };
            let after = bucket.after(now);
            &&& bucket.grants(now) <==> there >= 1_000_000_000_000_000_000
            &&& bucket.grants(now) ==> after.tokens == there - 1_000_000_000_000_000_000
            &&& !bucket.grants(now) ==> after.tokens == there
            &&& after.capacity == bucket.capacity
            &&& after.rate == bucket.rate
            &&& after.last_refill == now
        }),
{
    if now > bucket.last_refill {
        assert((now - bucket.last_refill) as nat * bucket.rate == (now - bucket.last_refill)
            * bucket.rate);
    }
}

/// A full bucket grants as many requests at once as it holds whole tokens.
pub proof fn law_a_burst_is_granted(bucket: BucketView, times: Seq<nat>)
    requires
        bucket.tokens <= bucket.capacity,
        times.len() * TOKEN <= bucket.tokens,
        forall|i: int| 0 <= i < times.len() ==> #[trigger] times[i] == bucket.last_refill,
    ensures
        bucket_run(bucket, times).1 == times.len(),
        bucket_run(bucket, times).0.tokens == bucket.tokens - times.len() * TOKEN,
        bucket_run(bucket, times).0.last_refill == bucket.last_refill,
        bucket_run(bucket, times).0.capacity == bucket.capacity,
    decreases times.len(),
{
    if times.len() > 0 {
        let d = times.drop_last();
        assert forall|i: int| 0 <= i < d.len() implies #[trigger] d[i] == bucket.last_refill by {
            assert(d[i] == times[i]);
        }
        law_a_burst_is_granted(bucket, d);
        assert(times[times.len() - 1] == bucket.last_refill);
    }
}

/// The wait that is asked for is the least: with one nanosecond less the token
/// would not be there yet, and with it it is.
pub proof fn law_the_wait_is_the_least(bucket: BucketView, now: nat, wait: nat)
    requires
        bucket.tokens <= bucket.capacity,
        !bucket.grants(now),
        bucket.is_wait(now, wait),
    ensures
        bucket.after(now).tokens + wait * bucket.rate >= 1_000_000_000_000_000_000,
        wait > 0,
        bucket.after(now).tokens + (wait - 1) * bucket.rate < 1_000_000_000_000_000_000,
{
    let missing = (TOKEN - bucket.refilled(now).tokens) as nat;
    assert(missing > 0);
    assert(wait > 0) by (nonlinear_arith)
        requires
            wait * bucket.rate >= missing,
            missing > 0,
    ;
    let less = (wait - 1) as nat;
    assert(less * bucket.rate < missing) by {
        if less * bucket.rate >= missing {
            assert(wait <= less);
        }
    }
}

} // verus!
