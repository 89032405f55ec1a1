//! Fetching a range of slots with a bounded number of requests in flight:
//! which slot is requested next, and what a finished request comes to.

use crate::rpc_client::{
    error_of_message, is_skipped_message, reply_view, RpcError, RpcErrorView,
};
use crate::types::{DecodedBlock, DecodedBlockView};
use vstd::prelude::*;

verus! {

/// What became of one slot.
pub enum FetchOutcome {
    Ingested(DecodedBlock),
    Skipped { slot: u64 },
    Failed { slot: u64, error: String },
}

/// The mathematical content of a [`FetchOutcome`].
pub enum FetchView {
    Ingested(DecodedBlockView),
    Skipped { slot: u64 },
    Failed { slot: u64, error: Seq<char> },
}

impl FetchView {
    /// The slot that the outcome is about.
    pub open spec fn slot(self) -> u64 {
        match self {
            FetchView::Ingested(block) => block.slot,
            FetchView::Skipped { slot } => slot,
            FetchView::Failed { slot, .. } => slot,
        }
    }
}

impl DeepView for FetchOutcome {
    type V = FetchView;

    open spec fn deep_view(&self) -> FetchView {
        match self {
            FetchOutcome::Ingested(block) => FetchView::Ingested(block.deep_view()),
            FetchOutcome::Skipped { slot } => FetchView::Skipped { slot: *slot },
            FetchOutcome::Failed { slot, error } => FetchView::Failed {
                slot: *slot,
                error: error@,
            },
        }
    }
}

/// What the result of the last attempt at a slot comes to: a skipped slot is
/// no failure, any other error is reported by its message.
pub open spec fn outcome_of(slot: u64, result: Result<DecodedBlockView, RpcErrorView>) -> FetchView {
    match result {
        Ok(block) => FetchView::Ingested(block),
        Err(RpcErrorView::SlotSkipped) => FetchView::Skipped { slot },
        Err(e) => FetchView::Failed { slot, error: e.message() },
    }
}

/// Sorts the result of the last attempt at a slot.
pub fn fetch_outcome(slot: u64, result: Result<DecodedBlock, RpcError>) -> (outcome: FetchOutcome)
    ensures
        outcome.deep_view() == outcome_of(slot, reply_view(result)),
{
    match result {
        Ok(block) => FetchOutcome::Ingested(block),
        Err(RpcError::SlotSkipped) => FetchOutcome::Skipped { slot },
        Err(e) => FetchOutcome::Failed { slot, error: e.message() },
    }
}

/// The slot that an outcome is about.
pub fn fetch_outcome_slot(outcome: &FetchOutcome) -> (slot: u64)
    ensures
        slot == outcome.deep_view().slot(),
{
    match outcome {
        FetchOutcome::Ingested(block) => block.slot,
        FetchOutcome::Skipped { slot } => *slot,
        FetchOutcome::Failed { slot, .. } => *slot,
    }
}

/// The slots `start..start + count`, in order.
pub open spec fn slot_range(start: u64, count: u64) -> Seq<u64> {
    Seq::new(count as nat, |i: int| (start + i) as u64)
}

/// What a [`FetchWindow`] stands for.
#[verifier::ext_equal]
pub struct WindowView {
    /// Slots that no request was started for; the last one is next.
    pub waiting: Seq<u64>,
    /// Requests that were started and have not finished.
    pub in_flight: nat,
    /// How many requests may be in flight.
    pub limit: nat,
}

impl WindowView {
    /// A window that has started nothing.
    pub open spec fn fresh(start: u64, count: u64, limit: nat) -> WindowView {
        WindowView { waiting: slot_range(start, count), in_flight: 0, limit }
    }

    /// The slot to request now, if there is one and the limit leaves room.
    pub open spec fn next(self) -> Option<u64> {
        if self.in_flight < self.limit && self.waiting.len() > 0 {
            Some(self.waiting.last())
        } else {
            None
        }
    }

    /// The window once [`Self::next`] was started, unchanged where there is none.
    pub open spec fn launched(self) -> WindowView {
        if self.next() is Some {
            WindowView {
                waiting: self.waiting.drop_last(),
                in_flight: self.in_flight + 1,
                limit: self.limit,
            }
        } else {
            self
        }
    }

    /// The window once a request has finished.
    pub open spec fn completed(self) -> WindowView {
        WindowView { waiting: self.waiting, in_flight: (self.in_flight - 1) as nat, limit: self.limit }
    }
}

/// Decides which slots of a range are requested, and when: never more than a
/// fixed number at once, and the highest waiting slot first.
pub struct FetchWindow {
    start: u64,
    waiting: u64,
    in_flight: usize,
    limit: usize,
}

impl View for FetchWindow {
    type V = WindowView;

    closed spec fn view(&self) -> WindowView {
        WindowView {
            waiting: slot_range(self.start, self.waiting),
            in_flight: self.in_flight as nat,
            limit: self.limit as nat,
        }
    }
}

impl FetchWindow {
    /// The range ends at a slot number, and the limit is kept.
    #[verifier::type_invariant]
    pub closed spec fn wf(self) -> bool {
        self.start + self.waiting <= u64::MAX && self.in_flight <= self.limit
    }

    /// A window over `start..start + count` with at most `limit` in flight.
    pub fn new(start: u64, count: u64, limit: usize) -> (window: Self)
        requires
            start + count <= u64::MAX,
        ensures
            window@ == WindowView::fresh(start, count, limit as nat),
    {
        FetchWindow { start, waiting: count, in_flight: 0, limit }
    }

    /// Takes the slot to request now.
    pub fn launch(&mut self) -> (slot: Option<u64>)
        ensures
            slot == old(self)@.next(),
            final(self)@ == old(self)@.launched(),
    {
        proof {
            use_type_invariant(&*self);
        }
        if self.in_flight < self.limit && self.waiting > 0 {
            let left: u64 = self.waiting - 1;
            let slot: u64 = self.start + left;
            assert(slot_range(self.start, left) =~= slot_range(self.start, self.waiting).drop_last());
            *self = FetchWindow {
                start: self.start,
                waiting: left,
                in_flight: self.in_flight + 1,
                limit: self.limit,
            };
            Some(slot)
        } else {
            None
        }
    }

    /// Notes that one request has finished.
    pub fn complete(&mut self)
        requires
            old(self)@.in_flight > 0,
        ensures
            final(self)@ == old(self)@.completed(),
    {
        proof {
            use_type_invariant(&*self);
        }
        self.in_flight = self.in_flight - 1;
    }
}

/// One step of a run of a window.
pub enum WindowStep {
    Launch,
    Complete,
}

/// The window after the steps, and the slots that were started, in order. A
/// completion without a request in flight changes nothing.
pub open spec fn window_run(window: WindowView, steps: Seq<WindowStep>) -> (WindowView, Seq<u64>)
    decreases steps.len(),
{
    if steps.len() == 0 {
        (window, Seq::empty())
    } else {
        let (before, started) = window_run(window, steps.drop_last());
        match steps.last() {
            WindowStep::Launch => match before.next() {
                Some(slot) => (before.launched(), started.push(slot)),
                None => (before, started),
            },
            WindowStep::Complete => if before.in_flight > 0 {
                (before.completed(), started)
            } else {
                (before, started)
            },
        }
    }
}

/// In every run, what was started and what is waiting, read backwards, make up
/// the range: each slot is started at most once, none is lost, and never are
/// more requests in flight than the limit allows.
pub proof fn law_window_starts_each_slot_once(
    start: u64,
    count: u64,
    limit: nat,
    steps: Seq<WindowStep>,
)
    requires
        start + count <= u64::MAX,
    ensures
        ({
            let (window, started) = window_run(WindowView::fresh(start, count, limit), steps);
            &&& window.waiting + started.reverse() == slot_range(start, count)
            &&& started.no_duplicates()
            &&& window.in_flight <= limit
            &&& window.limit == limit
        }),
    decreases steps.len(),
{
    let all = slot_range(start, count);
    let (window, started) = window_run(WindowView::fresh(start, count, limit), steps);
    if steps.len() == 0 {
        assert(window.waiting + started.reverse() =~= all);
    } else {
        law_window_starts_each_slot_once(start, count, limit, steps.drop_last());
        let (before, first) = window_run(
            WindowView::fresh(start, count, limit),
            steps.drop_last(),
        );
        if steps.last() is Launch && before.next() is Some {
            assert(window.waiting + started.reverse() =~= before.waiting + first.reverse());
        }
    }
    assert(window.waiting + started.reverse() =~= all);
    assert((window.waiting + started.reverse()).len() == all.len());
    assert forall|i: int, j: int| 0 <= i < started.len() && 0 <= j < started.len() && i
        != j implies started[i] != started[j] by {
        let n = window.waiting.len();
        let m = started.len();
        assert((window.waiting + started.reverse())[n + (m - 1 - i)] == started[i]);
        assert((window.waiting + started.reverse())[n + (m - 1 - j)] == started[j]);
        assert(all[n + (m - 1 - i)] == (start + (n + (m - 1 - i))) as u64);
        assert(all[n + (m - 1 - j)] == (start + (n + (m - 1 - j))) as u64);
    }
}

/// A window that may have requests in flight, has none and starts none has
/// started the whole range, from the top down.
pub proof fn law_idle_window_is_done(start: u64, count: u64, limit: nat, steps: Seq<WindowStep>)
    requires
        start + count <= u64::MAX,
        limit > 0,
        window_run(WindowView::fresh(start, count, limit), steps).0.in_flight == 0,
        window_run(WindowView::fresh(start, count, limit), steps).0.next() is None,
    ensures
        window_run(WindowView::fresh(start, count, limit), steps).1.reverse() == slot_range(
            start,
            count,
        ),
{
    law_window_starts_each_slot_once(start, count, limit, steps);
    let (window, started) = window_run(WindowView::fresh(start, count, limit), steps);
    assert(window.waiting + started.reverse() =~= started.reverse());
}

/// A slot that the RPC says was skipped or is missing comes out as skipped, is
/// no failure, and is not tried again.
pub proof fn law_skipped_message_skips_the_slot(slot: u64, text: Seq<char>)
    requires
        is_skipped_message(text),
    ensures
        ({
            let error = error_of_message(Some(text));
            &&& outcome_of(slot, Err(error)) == (FetchView::Skipped { slot })
            &&& !error.transient()
        }),
{
}

/// An outcome is about the slot that was asked for, if the block is.
pub proof fn law_outcome_is_about_its_slot(
    slot: u64,
    result: Result<DecodedBlockView, RpcErrorView>,
)
    requires
        result matches Ok(block) ==> block.slot == slot,
    ensures
        outcome_of(slot, result).slot() == slot,
{
}

/// A block that was fetched is ingested, a skipped slot is skipped, and any
/// other error fails the slot with its message.
pub proof fn law_outcomes_follow_the_reply(
    slot: u64,
    block: DecodedBlockView,
    text: Seq<char>,
)
    ensures
        outcome_of(slot, Ok(block)) == FetchView::Ingested(block),
        outcome_of(slot, Err(RpcErrorView::SlotSkipped)) == (FetchView::Skipped { slot }),
        outcome_of(slot, Err(RpcErrorView::Transport(text))) == (FetchView::Failed {
            slot,
            error: "transport error: "@ + text,
        }),
        outcome_of(slot, Err(RpcErrorView::RpcReturnedError(text))) == (FetchView::Failed {
            slot,
            error: "rpc returned an error: "@ + text,
        }),
        outcome_of(slot, Err(RpcErrorView::UnexpectedShape(text))) == (FetchView::Failed {
            slot,
            error: "unexpected response shape: "@ + text,
        }),
{
}

/// A range has each slot from its start on, as many as were asked for.
pub proof fn law_range_has_its_slots(start: u64, count: u64, slot: u64)
    requires
        start + count <= u64::MAX,
    ensures
        slot_range(start, count).len() == count,
        slot_range(start, count).contains(slot) <==> start <= slot < start + count,
        forall|i: int| 0 <= i < count ==> #[trigger] slot_range(start, count)[i] == start + i,
{
    let all = slot_range(start, count);
    if start <= slot < start + count {
        assert(all[slot - start] == slot);
    }
}

/// How many of the steps ended a request that was in flight.
pub open spec fn completions(window: WindowView, steps: Seq<WindowStep>) -> nat
    decreases steps.len(),
{
    if steps.len() == 0 {
        0
    } else {
        let before = window_run(window, steps.drop_last()).0;
        completions(window, steps.drop_last()) + if steps.last() is Complete && before.in_flight
            > 0 {
            1nat
        } else {
            0nat
        }
    }
}

/// What is in flight was started and has not ended, and nothing is left waiting
/// while there is room.
pub proof fn law_window_is_used(
    start: u64,
    count: u64,
    limit: nat,
    steps: Seq<WindowStep>,
)
    requires
        start + count <= u64::MAX,
    ensures
        ({
            let fresh = WindowView::fresh(start, count, limit);
            let (window, started) = window_run(fresh, steps);
            &&& window.in_flight == started.len() - completions(fresh, steps)
            &&& window.waiting.len() + started.len() == count
            &&& window.next() is None <==> window.in_flight >= limit || started.len() == count
            &&& window.next() matches Some(slot) ==> !started.contains(slot) && start <= slot
                < start + count
        }),
    decreases steps.len(),
{
    let fresh = WindowView::fresh(start, count, limit);
    let (window, started) = window_run(fresh, steps);
    law_window_starts_each_slot_once(start, count, limit, steps);
    assert((window.waiting + started.reverse()).len() == count);
    if steps.len() > 0 {
        law_window_is_used(start, count, limit, steps.drop_last());
    }
    if let Some(slot) = window.next() {
        let w = window.waiting.len() - 1;
        let all = slot_range(start, count);
        assert((window.waiting + started.reverse())[w] == slot);
        assert(all[w] == slot);
        assert(!started.contains(slot)) by {
            if started.contains(slot) {
                let i = choose|i: int| 0 <= i < started.len() && started[i] == slot;
                let r = started.len() - 1 - i;
                assert(started.reverse()[r] == slot);
                assert((window.waiting + started.reverse())[w + 1 + r] == slot);
                assert(all[w + 1 + r] == slot);
            }
        }
    }
}

/// Once nothing is in flight and nothing more can be started, every slot of the
/// range was started, and no other.
pub proof fn law_idle_window_started_every_slot(
    start: u64,
    count: u64,
    limit: nat,
    steps: Seq<WindowStep>,
    slot: u64,
)
    requires
        start + count <= u64::MAX,
        limit > 0,
        window_run(WindowView::fresh(start, count, limit), steps).0.in_flight == 0,
        window_run(WindowView::fresh(start, count, limit), steps).0.next() is None,
    ensures
        window_run(WindowView::fresh(start, count, limit), steps).1.contains(slot) <==> start
            <= slot < start + count,
        window_run(WindowView::fresh(start, count, limit), steps).1.len() == count,
{
    let started = window_run(WindowView::fresh(start, count, limit), steps).1;
    law_idle_window_is_done(start, count, limit, steps);
    law_range_has_its_slots(start, count, slot);
    let back = started.reverse();
    if started.contains(slot) {
        let i = choose|i: int| 0 <= i < started.len() && started[i] == slot;
        assert(back[started.len() - 1 - i] == slot);
    }
    if back.contains(slot) {
        let i = choose|i: int| 0 <= i < back.len() && back[i] == slot;
        assert(started[started.len() - 1 - i] == slot);
    }
}

/// The content of an outcome is all that it holds, and its slot is the one that
/// it names.
pub proof fn law_outcome_views_hold_everything(outcome: FetchOutcome)
    ensures
        outcome matches FetchOutcome::Ingested(block) ==> outcome.deep_view()
            == FetchView::Ingested(block.deep_view()) && outcome.deep_view().slot() == block.slot,
        outcome matches FetchOutcome::Skipped { slot } ==> outcome.deep_view() == (
        FetchView::Skipped { slot }) && outcome.deep_view().slot() == slot,
        outcome matches FetchOutcome::Failed { slot, error } ==> outcome.deep_view() == (
        FetchView::Failed { slot, error: error@ }) && outcome.deep_view().slot() == slot,
{
}

} // verus!
