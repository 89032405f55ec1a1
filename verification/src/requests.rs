//! One request, from its first token to its last answer: every attempt takes a
//! token of its own, retries too.

use crate::rate_limiter::{bucket_run, law_rate_is_never_exceeded, BucketView, TOKEN};
use crate::retry::{backoff, is_delay_after, tries_again, Retry, RetryConfig};
use vstd::prelude::*;

verus! {

/// What is done next for a request.
#[derive(Debug, Clone, Copy, PartialEq, Eq, Structural)]
pub enum RequestStep {
    /// Wait for the rate limiter, and take a token.
    TakeToken,
    /// Send the request, once.
    Send,
    /// Wait this long.
    Wait { delay_ms: u64 },
    /// Nothing: the last answer stands.
    Done,
}

/// What came of a step.
#[derive(Debug, Clone, Copy, PartialEq, Eq, Structural)]
pub enum RequestEvent {
    TokenTaken,
    Succeeded,
    Failed { transient: bool },
    Waited,
}

/// What a [`Request`] stands for.
pub struct RequestView {
    pub config: RetryConfig,
    /// Attempts that have failed and were followed by another.
    pub attempt: u32,
    pub step: RequestStep,
}

impl RequestView {
    /// A request that was not sent yet.
    pub open spec fn fresh(config: RetryConfig) -> RequestView {
        RequestView { config, attempt: 0, step: RequestStep::TakeToken }
    }

    /// Whether an event turns this request into `next`. An event that does not
    /// belong to the step changes nothing. The delay before another attempt is
    /// random, within its bounds.
    pub open spec fn becomes(self, event: RequestEvent, next: RequestView) -> bool {
        match (self.step, event) {
            (RequestStep::TakeToken, RequestEvent::TokenTaken) => next == (RequestView {
                step: RequestStep::Send,
                ..self
            }),
            (RequestStep::Send, RequestEvent::Succeeded) => next == (RequestView {
                step: RequestStep::Done,
                ..self
            }),
            (RequestStep::Send, RequestEvent::Failed { transient }) => if tries_again(
                self.config,
                self.attempt as nat,
                transient,
            ) {
                &&& next.config == self.config
                &&& next.attempt == self.attempt + 1
                &&& next.step matches RequestStep::Wait { delay_ms }
                &&& is_delay_after(
                    self.config,
                    backoff(self.config, self.attempt as nat),
                    delay_ms,
                )
            } else {
                next == (RequestView { step: RequestStep::Done, ..self })
            },
            (RequestStep::Wait { .. }, RequestEvent::Waited) => next == (RequestView {
                step: RequestStep::TakeToken,
                ..self
            }),
            _ => next == self,
        }
    }
}

/// One request on its way.
#[derive(Debug, Clone, Copy)]
pub struct Request {
    retry: Retry,
    step: RequestStep,
}

impl View for Request {
    type V = RequestView;

    closed spec fn view(&self) -> RequestView {
        RequestView { config: self.retry.config, attempt: self.retry.attempt, step: self.step }
    }
}

impl Request {
    /// A request that was not sent yet.
    pub fn new(config: RetryConfig) -> (request: Self)
        ensures
            request@ == RequestView::fresh(config),
    {
        Request { retry: Retry::new(config), step: RequestStep::TakeToken }
    }

    /// What is to be done next.
    pub fn step(&self) -> (step: RequestStep)
        ensures
            step == self@.step,
    {
        self.step
    }

    /// How many attempts have failed and were followed by another.
    pub fn attempt(&self) -> (attempt: u32)
        ensures
            attempt == self@.attempt,
    {
        self.retry.attempt
    }

    /// Goes on after what came of a step.
    pub fn on(&mut self, event: RequestEvent)
        ensures
            old(self)@.becomes(event, final(self)@),
    {
        match (self.step, event) {
            (RequestStep::TakeToken, RequestEvent::TokenTaken) => {
                self.step = RequestStep::Send;
            },
            (RequestStep::Send, RequestEvent::Succeeded) => {
                self.step = RequestStep::Done;
            },
            (RequestStep::Send, RequestEvent::Failed { transient }) => {
                self.step = match self.retry.after_error(transient) {
                    Some(delay_ms) => RequestStep::Wait { delay_ms },
                    None => RequestStep::Done,
                };
            },
            (RequestStep::Wait { .. }, RequestEvent::Waited) => {
                self.step = RequestStep::TakeToken;
            },
            _ => {},
        }
    }
}

/// Whether a request goes through these states, one more than there are events.
pub open spec fn is_request_run(
    config: RetryConfig,
    events: Seq<RequestEvent>,
    states: Seq<RequestView>,
) -> bool {
    &&& states.len() == events.len() + 1
    &&& states[0] == RequestView::fresh(config)
    &&& forall|i: int|
        0 <= i < events.len() ==> (#[trigger] states[i]).becomes(events[i], states[i + 1])
}

/// How many tokens were taken.
pub open spec fn tokens_taken(events: Seq<RequestEvent>, states: Seq<RequestView>) -> nat
    decreases events.len(),
{
    if events.len() == 0 {
        0
    } else {
        let n = events.len() - 1;
        tokens_taken(events.drop_last(), states) + if states[n].step is TakeToken
            && events[n] is TokenTaken {
            1nat
        } else {
            0nat
        }
    }
}

/// How many sends were answered.
pub open spec fn answers(events: Seq<RequestEvent>, states: Seq<RequestView>) -> nat
    decreases events.len(),
{
    if events.len() == 0 {
        0
    } else {
        let n = events.len() - 1;
        answers(events.drop_last(), states) + if states[n].step is Send && (events[n] is Succeeded
            || events[n] is Failed) {
            1nat
        } else {
            0nat
        }
    }
}

/// How many times a request was sent: once for each answer, and once more where
/// the answer is still out.
pub open spec fn sends(events: Seq<RequestEvent>, states: Seq<RequestView>) -> nat {
    answers(events, states) + if states[events.len() as int].step is Send {
        1nat
    } else {
        0nat
    }
}

proof fn lemma_run(config: RetryConfig, events: Seq<RequestEvent>, states: Seq<RequestView>)
    requires
        is_request_run(config, events, states),
    ensures
        ({
            let last = states[events.len() as int];
            let tokens = tokens_taken(events, states);
            &&& last.config == config
            &&& last.attempt <= config.max_retries
            &&& tokens == sends(events, states)
            &&& tokens == last.attempt + if last.step is Send || last.step is Done {
                1int
            } else {
                0int
            }
        }),
    decreases events.len(),
{
    if events.len() > 0 {
        let n = events.len() - 1;
        let shorter = states.drop_last();
        let d = events.drop_last();
        assert forall|i: int| 0 <= i < d.len() implies (#[trigger] shorter[i]).becomes(
            d[i],
            shorter[i + 1],
        ) by {
            assert(states[i].becomes(events[i], states[i + 1]));
        }
        lemma_run(config, d, shorter);
        lemma_prefix(d, shorter, states);
        assert(states[n].becomes(events[n], states[n + 1]));
    }
}

proof fn lemma_prefix(events: Seq<RequestEvent>, a: Seq<RequestView>, b: Seq<RequestView>)
    requires
        events.len() <= a.len(),
        events.len() <= b.len(),
        forall|i: int| 0 <= i < events.len() ==> #[trigger] a[i] == b[i],
    ensures
        tokens_taken(events, a) == tokens_taken(events, b),
        answers(events, a) == answers(events, b),
    decreases events.len(),
{
    if events.len() > 0 {
        lemma_prefix(events.drop_last(), a, b);
        assert(a[events.len() - 1] == b[events.len() - 1]);
    }
}

/// A request is never sent without a token: at any time it was sent exactly as
/// often as it took one. It is sent at most once more than it may be retried.
pub proof fn law_every_send_has_a_token(
    config: RetryConfig,
    events: Seq<RequestEvent>,
    states: Seq<RequestView>,
)
    requires
        is_request_run(config, events, states),
    ensures
        sends(events, states) == tokens_taken(events, states),
        sends(events, states) <= config.max_retries + 1,
{
    lemma_run(config, events, states);
}

/// How many tokens several requests took.
pub open spec fn all_tokens(runs: Seq<(Seq<RequestEvent>, Seq<RequestView>)>) -> nat
    decreases runs.len(),
{
    if runs.len() == 0 {
        0
    } else {
        all_tokens(runs.drop_last()) + tokens_taken(runs.last().0, runs.last().1)
    }
}

/// How many times several requests were sent.
pub open spec fn all_sends(runs: Seq<(Seq<RequestEvent>, Seq<RequestView>)>) -> nat
    decreases runs.len(),
{
    if runs.len() == 0 {
        0
    } else {
        all_sends(runs.drop_last()) + sends(runs.last().0, runs.last().1)
    }
}

/// Requests that share a rate limiter are together sent as often as it granted
/// them a token, however many fail and are retried.
pub proof fn law_sends_are_the_granted_tokens(
    config: RetryConfig,
    runs: Seq<(Seq<RequestEvent>, Seq<RequestView>)>,
)
    requires
        forall|i: int|
            0 <= i < runs.len() ==> is_request_run(config, (#[trigger] runs[i]).0, runs[i].1),
    ensures
        all_sends(runs) == all_tokens(runs),
    decreases runs.len(),
{
    if runs.len() > 0 {
        let d = runs.drop_last();
        assert forall|i: int| 0 <= i < d.len() implies is_request_run(
            config,
            (#[trigger] d[i]).0,
            d[i].1,
        ) by {
            assert(d[i] == runs[i]);
        }
        law_sends_are_the_granted_tokens(config, d);
        assert(is_request_run(config, runs[runs.len() - 1].0, runs[runs.len() - 1].1));
        law_every_send_has_a_token(config, runs.last().0, runs.last().1);
    }
}

/// The rate is never exceeded, retries counted: while a bucket grants the
/// tokens, the requests that are sent are at most what it held at first and
/// what the time since then refilled.
pub proof fn law_rate_bounds_the_sends(
    config: RetryConfig,
    runs: Seq<(Seq<RequestEvent>, Seq<RequestView>)>,
    bucket: BucketView,
    times: Seq<nat>,
)
    requires
        forall|i: int|
            0 <= i < runs.len() ==> is_request_run(config, (#[trigger] runs[i]).0, runs[i].1),
        all_tokens(runs) <= bucket_run(bucket, times).1,
        bucket.tokens <= bucket.capacity,
        times.len() > 0,
        forall|i: int| 0 <= i < times.len() ==> bucket.last_refill <= #[trigger] times[i],
        forall|i: int, j: int| 0 <= i <= j < times.len() ==> times[i] <= times[j],
    ensures
        all_sends(runs) * TOKEN <= bucket.tokens + (times.last() - bucket.last_refill)
            * bucket.rate,
{
    law_sends_are_the_granted_tokens(config, runs);
    law_rate_is_never_exceeded(bucket, times);
    let granted = bucket_run(bucket, times).1;
    assert(all_sends(runs) * TOKEN <= granted * TOKEN) by (nonlinear_arith)
        requires
            all_sends(runs) <= granted,
    ;
}

/// What follows an answer: a success ends the request, and so does a failure
/// that is not transient or came after the last retry. Any other failure is
/// followed by a wait and then by another token.
pub proof fn law_what_follows_an_answer(
    before: RequestView,
    event: RequestEvent,
    after: RequestView,
)
    requires
        before.step is Send,
        before.becomes(event, after),
    ensures
        after.config == before.config,
        event is Succeeded ==> after.step is Done && after.attempt == before.attempt,
        event matches RequestEvent::Failed { transient } ==> {
            &&& !transient ==> after.step is Done
            &&& before.attempt >= before.config.max_retries ==> after.step is Done
            &&& transient && before.attempt < before.config.max_retries ==> after.step is Wait
                && after.attempt == before.attempt + 1
        },
        event is TokenTaken || event is Waited ==> after == before,
{
}

/// A token is followed by a send, a wait by another token, and nothing follows
/// the end.
pub proof fn law_requests_go_on(before: RequestView, event: RequestEvent, after: RequestView)
    requires
        before.becomes(event, after),
    ensures
        before.step is TakeToken && event is TokenTaken ==> after.step is Send,
        before.step is TakeToken && !(event is TokenTaken) ==> after == before,
        before.step is Wait && event is Waited ==> after.step is TakeToken && after.attempt
            == before.attempt,
        before.step is Wait && !(event is Waited) ==> after == before,
        before.step is Done ==> after == before,
{
}

} // verus!
