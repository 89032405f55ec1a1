//! What a run of the store stage leaves in the tables: a slot that is recorded
//! as ingested has its data there.
//!
//! A status is recorded when an outcome arrives, before the block's batch is
//! written. Where the batch is not written, its slots are recorded as failed.

use crate::pipeline::{
    lemma_step_ops_set_steps, slot_row, slot_rows, status_of, step_ops, ParsedBlock,
    ParsedBlockView, ParsedOutcomeView, StageView,
};
use crate::storage::{status_op, StoreOp, StoreOpView};
use crate::tables::{
    apply, distinct_slots, holds_slot, law_batch_keeps_statuses_and_candles,
    law_batch_stores_its_slots, law_batch_touches_no_other_slot, lemma_held_where_same, lemma_step_ops,
    lemma_stored_slots_distinct, run_batch, run_ops, same_rows, Tables,
};
use crate::types::SlotStatus;
use vstd::prelude::*;

verus! {

/// What is noted of the slots of a batch that was not written.
pub const BATCH_FAILED: &'static str = "batch could not be stored";

/// The writes that record the slots of a batch as failed.
pub open spec fn failed_statuses(blocks: Seq<ParsedBlockView>) -> Seq<StoreOpView> {
    Seq::new(
        blocks.len(),
        |i: int|
            StoreOpView::UpsertStatus {
                slot: blocks[i].slot as i64,
                status: SlotStatus::Failed.text(),
                note: Some(BATCH_FAILED@),
            },
    )
}

/// Plans how the slots of a batch that could not be written are recorded.
pub fn batch_failed(blocks: &[ParsedBlock]) -> (ops: Vec<StoreOp>)
    ensures
        ops.deep_view() == failed_statuses(blocks.deep_view()),
{
    let ghost all = failed_statuses(blocks.deep_view());
    let mut ops: Vec<StoreOp> = Vec::new();
    let mut i: usize = 0;
    assert(ops.deep_view() =~= all.take(0));
    while i < blocks.len()
        invariant
            i <= blocks@.len(),
            all == failed_statuses(blocks.deep_view()),
            ops.deep_view() == all.take(i as int),
        decreases blocks@.len() - i,
    {
        let ghost before = ops.deep_view();
        assert(blocks.deep_view()[i as int] == blocks@[i as int].deep_view());
        let op = status_op(blocks[i].slot, SlotStatus::Failed, Some(BATCH_FAILED.to_owned()));
        assert(op.deep_view() == all[i as int]);
        ops.push(op);
        assert(ops.deep_view() =~= before.push(op.deep_view()));
        assert(ops.deep_view() =~= all.take(i + 1));
        i += 1;
    }
    assert(all.take(i as int) =~= all);
    ops
}

/// How the database took a batch.
pub enum FlushEnd {
    /// The slots and the steps of their schedules are written.
    Stored,
    /// Nothing is written.
    Refused,
    /// The slots are written, and at most this many steps.
    Interrupted { steps: nat },
}

/// The first of the writes, at most `count`.
pub open spec fn at_most(ops: Seq<StoreOpView>, count: nat) -> Seq<StoreOpView> {
    if count < ops.len() {
        ops.take(count as int)
    } else {
        ops
    }
}

/// The tables once a batch was handed to the database, and once its slots were
/// recorded as failed where it did not take all of it.
pub open spec fn after_flush(t: Tables, blocks: Seq<ParsedBlockView>, end: FlushEnd) -> Tables {
    let failed = failed_statuses(blocks);
    match run_batch(t, slot_rows(blocks)) {
        None => run_ops(t, failed)->0,
        Some(written) => match end {
            FlushEnd::Stored => run_ops(written, step_ops(blocks))->0,
            FlushEnd::Refused => run_ops(t, failed)->0,
            FlushEnd::Interrupted { steps } => run_ops(
                run_ops(written, at_most(step_ops(blocks), steps))->0,
                failed,
            )->0,
        },
    }
}

/// Whether the database takes all of a batch.
pub open spec fn is_taken(t: Tables, blocks: Seq<ParsedBlockView>, end: FlushEnd) -> bool {
    run_batch(t, slot_rows(blocks)) is Some && end is Stored
}

/// The stage and the tables after outcomes: each one's status is recorded, and
/// a batch that is due is flushed. `ends` says how each flush ends, by the
/// outcome that it follows.
pub open spec fn store_run(
    stage: StageView,
    t: Tables,
    outcomes: Seq<ParsedOutcomeView>,
    ends: spec_fn(int) -> FlushEnd,
) -> (StageView, Tables)
    decreases outcomes.len(),
{
    if outcomes.len() == 0 {
        (stage, t)
    } else {
        let n = outcomes.len() - 1;
        let (before, tables) = store_run(stage, t, outcomes.drop_last(), ends);
        let now = before.accepted(outcomes.last());
        let recorded = apply(tables, status_of(outcomes.last()))->0;
        if now.is_due() {
            (now.drained(), after_flush(recorded, now.pending, ends(n)))
        } else {
            (now, recorded)
        }
    }
}

/// The tables at the end of a run, when the last blocks were flushed too.
pub open spec fn tables_after_run(
    stage: StageView,
    t: Tables,
    outcomes: Seq<ParsedOutcomeView>,
    ends: spec_fn(int) -> FlushEnd,
) -> Tables {
    let (last, tables) = store_run(stage, t, outcomes, ends);
    if last.pending.len() > 0 {
        after_flush(tables, last.pending, ends(outcomes.len() as int))
    } else {
        tables
    }
}

/// The blocks among outcomes whose batch was flushed and not stored.
pub open spec fn refused_blocks(
    stage: StageView,
    t: Tables,
    outcomes: Seq<ParsedOutcomeView>,
    ends: spec_fn(int) -> FlushEnd,
) -> Seq<ParsedBlockView>
    decreases outcomes.len(),
{
    if outcomes.len() == 0 {
        Seq::empty()
    } else {
        let n = outcomes.len() - 1;
        let refused = refused_blocks(stage, t, outcomes.drop_last(), ends);
        let (before, tables) = store_run(stage, t, outcomes.drop_last(), ends);
        let now = before.accepted(outcomes.last());
        let recorded = apply(tables, status_of(outcomes.last()))->0;
        if now.is_due() && !is_taken(recorded, now.pending, ends(n)) {
            refused + now.pending
        } else {
            refused
        }
    }
}

/// The blocks of a run whose batch was not stored, the last batch too.
pub open spec fn blocks_not_stored(
    stage: StageView,
    t: Tables,
    outcomes: Seq<ParsedOutcomeView>,
    ends: spec_fn(int) -> FlushEnd,
) -> Seq<ParsedBlockView> {
    let refused = refused_blocks(stage, t, outcomes, ends);
    let (last, tables) = store_run(stage, t, outcomes, ends);
    if last.pending.len() > 0 && !is_taken(tables, last.pending, ends(outcomes.len() as int)) {
        refused + last.pending
    } else {
        refused
    }
}

/// The status of a slot.
pub open spec fn status_in(t: Tables, slot: u64) -> Option<Seq<char>> {
    match t.statuses.get(slot as i64) {
        Some(row) => Some(row.0),
        None => None,
    }
}

/// The three statuses have different names.
proof fn lemma_statuses_differ()
    ensures
        SlotStatus::Ingested.text() != SlotStatus::Skipped.text(),
        SlotStatus::Ingested.text() != SlotStatus::Failed.text(),
{
    reveal_strlit("ingested");
    reveal_strlit("skipped");
    reveal_strlit("failed");
    assert("ingested"@[0] != "skipped"@[0]);
    assert("ingested"@[0] != "failed"@[0]);
}

/// The row of `ingestion_status` of a slot whose batch was not written.
pub open spec fn failed_row() -> (Seq<char>, Option<Seq<char>>) {
    (SlotStatus::Failed.text(), Some(BATCH_FAILED@))
}

/// The row of `ingestion_status` that is written for an outcome.
pub open spec fn outcome_row(outcome: ParsedOutcomeView) -> (Seq<char>, Option<Seq<char>>) {
    match outcome {
        ParsedOutcomeView::Ingested(_) => (SlotStatus::Ingested.text(), None),
        ParsedOutcomeView::Skipped { .. } => (SlotStatus::Skipped.text(), None),
        ParsedOutcomeView::Failed { error, .. } => (SlotStatus::Failed.text(), Some(error)),
    }
}

/// Whether no two blocks have one slot.
pub open spec fn distinct_blocks(blocks: Seq<ParsedBlockView>) -> bool {
    forall|i: int, j: int|
        0 <= i < j < blocks.len() ==> (#[trigger] blocks[i]).slot != (#[trigger] blocks[j]).slot
}

/// Whether none of the blocks is of a slot.
pub open spec fn none_of(blocks: Seq<ParsedBlockView>, slot: u64) -> bool {
    forall|i: int| 0 <= i < blocks.len() ==> (#[trigger] blocks[i]).slot != slot
}

/// Recording slots as failed changes their statuses and nothing else.
proof fn lemma_failed_statuses(t: Tables, blocks: Seq<ParsedBlockView>)
    ensures
        match run_ops(t, failed_statuses(blocks)) {
            None => false,
            Some(after) => {
                &&& (Tables { statuses: t.statuses, ..after }) == t
                &&& forall|i: int|
                    0 <= i < blocks.len() ==> after.statuses.get(
                        (#[trigger] blocks[i]).slot as i64,
                    ) == Some(failed_row())
                &&& forall|slot: u64|
                    none_of(blocks, slot) ==> #[trigger] after.statuses.get(slot as i64)
                        == t.statuses.get(slot as i64)
            },
        },
    decreases blocks.len(),
{
    let ops = failed_statuses(blocks);
    if blocks.len() > 0 {
        let d = blocks.drop_last();
        let n = blocks.len() - 1;
        assert(ops.drop_last() =~= failed_statuses(d));
        lemma_failed_statuses(t, d);
        let before = run_ops(t, failed_statuses(d))->0;
        let after = run_ops(t, ops)->0;
        assert(apply(before, ops[n]) == Some(after));
        assert forall|i: int| 0 <= i < blocks.len() implies after.statuses.get(
            (#[trigger] blocks[i]).slot as i64,
        ) == Some(failed_row()) by {
            if i < n {
                assert(d[i] == blocks[i]);
                assert(before.statuses.get(d[i].slot as i64) == Some(failed_row()));
            }
        }
        assert forall|slot: u64| none_of(blocks, slot) implies #[trigger] after.statuses.get(
            slot as i64,
        ) == t.statuses.get(slot as i64) by {
            assert forall|i: int| 0 <= i < d.len() implies (#[trigger] d[i]).slot != slot by {
                assert(blocks[i].slot != slot);
            }
            assert(none_of(d, slot));
            assert(before.statuses.get(slot as i64) == t.statuses.get(slot as i64));
            assert(blocks[n].slot != slot);
            lemma_stored_slots_distinct(blocks[n].slot, slot);
        }
    }
}

/// A flush stores each of its blocks or records it as failed, and touches no
/// other slot.
proof fn lemma_flush(t: Tables, blocks: Seq<ParsedBlockView>, end: FlushEnd)
    requires
        distinct_blocks(blocks),
    ensures
        ({
            let after = after_flush(t, blocks, end);
            &&& forall|i: int|
                0 <= i < blocks.len() ==> status_in(after, (#[trigger] blocks[i]).slot) == Some(
                    SlotStatus::Failed.text(),
                ) || holds_slot(after, slot_row(blocks[i]))
            &&& forall|slot: u64|
                none_of(blocks, slot) ==> #[trigger] after.statuses.get(slot as i64)
                    == t.statuses.get(slot as i64) && same_rows(t, after, slot as i64)
            &&& is_taken(t, blocks, end) ==> after.statuses == t.statuses
            &&& !is_taken(t, blocks, end) ==> forall|i: int|
                0 <= i < blocks.len() ==> after.statuses.get((#[trigger] blocks[i]).slot as i64)
                    == Some(failed_row())
        }),
{
    let rows = slot_rows(blocks);
    let after = after_flush(t, blocks, end);
    assert(distinct_slots(rows)) by {
        assert forall|i: int, j: int| 0 <= i < j < rows.len() implies (#[trigger] rows[i]).0 != (
        #[trigger] rows[j]).0 by {
            assert(blocks[i].slot != blocks[j].slot);
        }
    }
    lemma_failed_statuses(t, blocks);
    if run_batch(t, rows) is Some {
        let written = run_batch(t, rows)->0;
        let steps = step_ops(blocks);
        lemma_step_ops_set_steps(blocks, blocks.len() as int);
        assert(blocks.take(blocks.len() as int) =~= blocks);
        lemma_step_ops(written, steps);
        assert forall|slot: u64| none_of(blocks, slot) implies same_rows(
            t,
            written,
            slot as i64,
        ) by {
            assert forall|i: int| 0 <= i < rows.len() implies (#[trigger] rows[i]).0 as i64
                != slot as i64 by {
                assert(blocks[i].slot != slot);
                lemma_stored_slots_distinct(blocks[i].slot, slot);
            }
            law_batch_touches_no_other_slot(t, rows, slot as i64);
        }
        assert(written.statuses == t.statuses) by {
            law_batch_keeps_statuses_and_candles(t, rows);
        }
        match end {
            FlushEnd::Stored => {
                assert forall|i: int| 0 <= i < blocks.len() implies holds_slot(
                    after,
                    slot_row(#[trigger] blocks[i]),
                ) by {
                    law_batch_stores_its_slots(t, rows, i);
                    assert(rows[i] == slot_row(blocks[i]));
                }
            },
            FlushEnd::Refused => {},
            FlushEnd::Interrupted { steps: done } => {
                let part = at_most(steps, done);
                assert forall|i: int| 0 <= i < part.len() implies #[trigger] part[i]
                    is SetStep by {
                    assert(steps[i] is SetStep);
                }
                lemma_step_ops(written, part);
                lemma_failed_statuses(run_ops(written, part)->0, blocks);
            },
        }
    }
}

/// What holds of a run so far: its pending blocks are of outcomes that arrived,
/// and every slot that is recorded as ingested is pending or stored.
spec fn is_sound(outcomes: Seq<ParsedOutcomeView>, stage: StageView, t: Tables) -> bool {
    &&& distinct_blocks(stage.pending)
    &&& forall|i: int|
        0 <= i < stage.pending.len() ==> is_arrived(outcomes, #[trigger] stage.pending[i])
    &&& forall|j: int|
        0 <= j < outcomes.len() && status_in(t, (#[trigger] outcomes[j]).slot()) == Some(
            SlotStatus::Ingested.text(),
        ) ==> is_accounted_for(outcomes[j], stage.pending, t)
}

/// Whether a block is of one of the outcomes.
spec fn is_arrived(outcomes: Seq<ParsedOutcomeView>, block: ParsedBlockView) -> bool {
    exists|j: int|
        0 <= j < outcomes.len() && #[trigger] outcomes[j] == ParsedOutcomeView::Ingested(block)
}

/// Whether an outcome is a block that is pending or stored.
spec fn is_accounted_for(
    outcome: ParsedOutcomeView,
    pending: Seq<ParsedBlockView>,
    t: Tables,
) -> bool {
    &&& outcome matches ParsedOutcomeView::Ingested(block)
    &&& pending.contains(block) || holds_slot(t, slot_row(block))
}

/// Whether no two outcomes are of one slot.
pub open spec fn distinct_outcomes(outcomes: Seq<ParsedOutcomeView>) -> bool {
    forall|i: int, j: int|
        0 <= i < j < outcomes.len() ==> (#[trigger] outcomes[i]).slot() != (
        #[trigger] outcomes[j]).slot()
}

/// A flush of the pending blocks keeps a run sound.
proof fn lemma_flush_is_sound(
    outcomes: Seq<ParsedOutcomeView>,
    stage: StageView,
    t: Tables,
    end: FlushEnd,
)
    requires
        distinct_outcomes(outcomes),
        is_sound(outcomes, stage, t),
    ensures
        is_sound(outcomes, stage.drained(), after_flush(t, stage.pending, end)),
{
    let blocks = stage.pending;
    let after = after_flush(t, blocks, end);
    lemma_flush(t, blocks, end);
    lemma_statuses_differ();
    assert forall|j: int|
        0 <= j < outcomes.len() && status_in(after, (#[trigger] outcomes[j]).slot()) == Some(
            SlotStatus::Ingested.text(),
        ) implies is_accounted_for(outcomes[j], stage.drained().pending, after) by {
        let slot = outcomes[j].slot();
        if none_of(blocks, slot) {
            assert(after.statuses.get(slot as i64) == t.statuses.get(slot as i64));
            assert(status_in(t, slot) == Some(SlotStatus::Ingested.text()));
            let block = outcomes[j]->Ingested_0;
            if blocks.contains(block) {
                let i = choose|i: int| 0 <= i < blocks.len() && blocks[i] == block;
                assert(blocks[i].slot != slot);
            }
            lemma_held_where_same(t, after, slot_row(block));
        } else {
            let i = choose|i: int| 0 <= i < blocks.len() && (#[trigger] blocks[i]).slot == slot;
            assert(is_arrived(outcomes, blocks[i]));
            let m = choose|m: int|
                0 <= m < outcomes.len() && #[trigger] outcomes[m] == ParsedOutcomeView::Ingested(
                    blocks[i],
                );
            assert(outcomes[m].slot() == outcomes[j].slot());
            assert(m == j);
            assert(status_in(after, blocks[i].slot) != Some(SlotStatus::Failed.text()));
        }
    }
}

/// An outcome that arrives keeps a run sound.
proof fn lemma_accept_is_sound(
    outcomes: Seq<ParsedOutcomeView>,
    before: StageView,
    tables: Tables,
)
    requires
        outcomes.len() > 0,
        distinct_outcomes(outcomes),
        is_sound(outcomes.drop_last(), before, tables),
    ensures
        is_sound(
            outcomes,
            before.accepted(outcomes.last()),
            apply(tables, status_of(outcomes.last()))->0,
        ),
{
    let n = outcomes.len() - 1;
    let d = outcomes.drop_last();
    let last = outcomes[n];
    let now = before.accepted(last);
    let recorded = apply(tables, status_of(last))->0;
    lemma_statuses_differ();
    assert forall|i: int| 0 <= i < now.pending.len() implies is_arrived(
        outcomes,
        #[trigger] now.pending[i],
    ) by {
        if i < before.pending.len() {
            assert(now.pending[i] == before.pending[i]);
            assert(is_arrived(d, before.pending[i]));
            let j = choose|j: int|
                0 <= j < d.len() && #[trigger] d[j] == ParsedOutcomeView::Ingested(
                    before.pending[i],
                );
            assert(outcomes[j] == d[j]);
        } else {
            assert(outcomes[n] == ParsedOutcomeView::Ingested(now.pending[i]));
        }
    }
    assert forall|i: int, k: int| 0 <= i < k < now.pending.len() implies (
    #[trigger] now.pending[i]).slot != (#[trigger] now.pending[k]).slot by {
        assert(now.pending[i] == before.pending[i]);
        if k < before.pending.len() {
            assert(now.pending[k] == before.pending[k]);
        } else {
            assert(is_arrived(d, before.pending[i]));
            let j = choose|j: int|
                0 <= j < d.len() && #[trigger] d[j] == ParsedOutcomeView::Ingested(
                    before.pending[i],
                );
            assert(outcomes[j].slot() != outcomes[n].slot());
        }
    }
    assert forall|j: int|
        0 <= j < outcomes.len() && status_in(recorded, (#[trigger] outcomes[j]).slot())
            == Some(SlotStatus::Ingested.text()) implies is_accounted_for(
        outcomes[j],
        now.pending,
        recorded,
    ) by {
        if j < n {
            assert(outcomes[j].slot() != outcomes[n].slot());
            lemma_stored_slots_distinct(outcomes[j].slot(), outcomes[n].slot());
            assert(d[j] == outcomes[j]);
            assert(status_in(tables, d[j].slot()) == Some(SlotStatus::Ingested.text()));
            let block = outcomes[j]->Ingested_0;
            if before.pending.contains(block) {
                let i = choose|i: int|
                    0 <= i < before.pending.len() && before.pending[i] == block;
                assert(now.pending[i] == block);
            } else {
                assert(holds_slot(tables, slot_row(block)));
                assert(holds_slot(recorded, slot_row(block)));
            }
        } else {
            match last {
                ParsedOutcomeView::Ingested(block) => {
                    assert(now.pending[now.pending.len() - 1] == block);
                },
                _ => {},
            }
        }
    }
}

/// Every run is sound.
proof fn lemma_run_is_sound(
    stage: StageView,
    t: Tables,
    outcomes: Seq<ParsedOutcomeView>,
    ends: spec_fn(int) -> FlushEnd,
)
    requires
        stage.pending.len() == 0,
        distinct_outcomes(outcomes),
    ensures
        is_sound(
            outcomes,
            store_run(stage, t, outcomes, ends).0,
            store_run(stage, t, outcomes, ends).1,
        ),
    decreases outcomes.len(),
{
    if outcomes.len() > 0 {
        let n = outcomes.len() - 1;
        let d = outcomes.drop_last();
        assert forall|i: int, j: int| 0 <= i < j < d.len() implies (#[trigger] d[i]).slot() != (
        #[trigger] d[j]).slot() by {
            assert(outcomes[i].slot() != outcomes[j].slot());
        }
        lemma_run_is_sound(stage, t, d, ends);
        let (before, tables) = store_run(stage, t, d, ends);
        let now = before.accepted(outcomes.last());
        lemma_accept_is_sound(outcomes, before, tables);
        if now.is_due() {
            lemma_flush_is_sound(
                outcomes,
                now,
                apply(tables, status_of(outcomes.last()))->0,
                ends(n),
            );
        }
    }
}

/// What is recorded as ingested is stored: at the end of a run, however its
/// flushes ended, each slot of it with that status has its block, its
/// transactions, their locks and their balance changes in the tables.
pub proof fn law_ingested_slots_are_stored(
    stage: StageView,
    t: Tables,
    outcomes: Seq<ParsedOutcomeView>,
    ends: spec_fn(int) -> FlushEnd,
    j: int,
)
    requires
        stage.pending.len() == 0,
        distinct_outcomes(outcomes),
        0 <= j < outcomes.len(),
        status_in(tables_after_run(stage, t, outcomes, ends), outcomes[j].slot()) == Some(
            SlotStatus::Ingested.text(),
        ),
    ensures
        outcomes[j] is Ingested,
        holds_slot(
            tables_after_run(stage, t, outcomes, ends),
            slot_row(outcomes[j]->Ingested_0),
        ),
{
    let (last, tables) = store_run(stage, t, outcomes, ends);
    lemma_run_is_sound(stage, t, outcomes, ends);
    let end = ends(outcomes.len() as int);
    if last.pending.len() > 0 {
        lemma_flush_is_sound(outcomes, last, tables, end);
    }
    let after = tables_after_run(stage, t, outcomes, ends);
    assert(is_accounted_for(outcomes[j], Seq::empty(), after) || is_accounted_for(
        outcomes[j],
        last.pending,
        after,
    ));
}

/// Whether none of the outcomes is of a slot.
pub open spec fn no_outcome_of(outcomes: Seq<ParsedOutcomeView>, slot: u64) -> bool {
    forall|j: int| 0 <= j < outcomes.len() ==> (#[trigger] outcomes[j]).slot() != slot
}

/// A run touches its own slots only: the rows and the status of any other stay
/// as they were.
pub proof fn law_run_touches_no_other_slot(
    stage: StageView,
    t: Tables,
    outcomes: Seq<ParsedOutcomeView>,
    ends: spec_fn(int) -> FlushEnd,
    slot: u64,
)
    requires
        stage.pending.len() == 0,
        distinct_outcomes(outcomes),
        no_outcome_of(outcomes, slot),
    ensures
        ({
            let after = tables_after_run(stage, t, outcomes, ends);
            &&& same_rows(t, after, slot as i64)
            &&& after.statuses.get(slot as i64) == t.statuses.get(slot as i64)
        }),
{
    let (last, tables) = store_run(stage, t, outcomes, ends);
    lemma_run_touches(stage, t, outcomes, ends, slot);
    lemma_run_is_sound(stage, t, outcomes, ends);
    lemma_pending_is_other(outcomes, last, tables, slot);
    let end = ends(outcomes.len() as int);
    lemma_flush(tables, last.pending, end);
    assert(after_flush(tables, last.pending, end).statuses.get(slot as i64)
        == tables.statuses.get(slot as i64));
}

proof fn lemma_pending_is_other(
    outcomes: Seq<ParsedOutcomeView>,
    stage: StageView,
    t: Tables,
    slot: u64,
)
    requires
        is_sound(outcomes, stage, t),
        no_outcome_of(outcomes, slot),
    ensures
        none_of(stage.pending, slot),
{
    assert forall|i: int| 0 <= i < stage.pending.len() implies (#[trigger] stage.pending[i]).slot
        != slot by {
        assert(is_arrived(outcomes, stage.pending[i]));
        let j = choose|j: int|
            0 <= j < outcomes.len() && #[trigger] outcomes[j] == ParsedOutcomeView::Ingested(
                stage.pending[i],
            );
        assert(outcomes[j].slot() != slot);
    }
}

proof fn lemma_run_touches(
    stage: StageView,
    t: Tables,
    outcomes: Seq<ParsedOutcomeView>,
    ends: spec_fn(int) -> FlushEnd,
    slot: u64,
)
    requires
        stage.pending.len() == 0,
        distinct_outcomes(outcomes),
        no_outcome_of(outcomes, slot),
    ensures
        ({
            let after = store_run(stage, t, outcomes, ends).1;
            &&& same_rows(t, after, slot as i64)
            &&& after.statuses.get(slot as i64) == t.statuses.get(slot as i64)
        }),
    decreases outcomes.len(),
{
    if outcomes.len() > 0 {
        let n = outcomes.len() - 1;
        let d = outcomes.drop_last();
        assert forall|i: int, j: int| 0 <= i < j < d.len() implies (#[trigger] d[i]).slot() != (
        #[trigger] d[j]).slot() by {
            assert(outcomes[i].slot() != outcomes[j].slot());
        }
        assert forall|j: int| 0 <= j < d.len() implies (#[trigger] d[j]).slot() != slot by {
            assert(outcomes[j].slot() != slot);
        }
        lemma_run_touches(stage, t, d, ends, slot);
        lemma_run_is_sound(stage, t, d, ends);
        let (before, tables) = store_run(stage, t, d, ends);
        lemma_accept_is_sound(outcomes, before, tables);
        let now = before.accepted(outcomes[n]);
        let recorded = apply(tables, status_of(outcomes[n]))->0;
        assert(outcomes[n].slot() != slot);
        lemma_stored_slots_distinct(outcomes[n].slot(), slot);
        assert(recorded.statuses.get(slot as i64) == t.statuses.get(slot as i64));
        lemma_pending_is_other(outcomes, now, recorded, slot);
        if now.is_due() {
            lemma_flush(recorded, now.pending, ends(n));
            assert(after_flush(recorded, now.pending, ends(n)).statuses.get(slot as i64)
                == recorded.statuses.get(slot as i64));
        }
    }
}

/// The row that an outcome's slot has, given the blocks that were not stored.
pub open spec fn recorded_row(
    outcome: ParsedOutcomeView,
    refused: Seq<ParsedBlockView>,
) -> (Seq<char>, Option<Seq<char>>) {
    if none_of(refused, outcome.slot()) {
        outcome_row(outcome)
    } else {
        failed_row()
    }
}

/// Whether the slot of each outcome has its row, and what was refused arrived.
spec fn is_recorded(
    outcomes: Seq<ParsedOutcomeView>,
    refused: Seq<ParsedBlockView>,
    t: Tables,
) -> bool {
    &&& forall|i: int| 0 <= i < refused.len() ==> is_arrived(outcomes, #[trigger] refused[i])
    &&& forall|j: int|
        0 <= j < outcomes.len() ==> t.statuses.get((#[trigger] outcomes[j]).slot() as i64) == Some(
            recorded_row(outcomes[j], refused),
        )
}

/// A flush records what it does not store.
proof fn lemma_flush_is_recorded(
    outcomes: Seq<ParsedOutcomeView>,
    refused: Seq<ParsedBlockView>,
    stage: StageView,
    t: Tables,
    end: FlushEnd,
)
    requires
        is_sound(outcomes, stage, t),
        is_recorded(outcomes, refused, t),
    ensures
        is_recorded(
            outcomes,
            if is_taken(t, stage.pending, end) {
                refused
            } else {
                refused + stage.pending
            },
            after_flush(t, stage.pending, end),
        ),
{
    let blocks = stage.pending;
    let after = after_flush(t, blocks, end);
    lemma_flush(t, blocks, end);
    if !is_taken(t, blocks, end) {
        let all = refused + blocks;
        assert forall|i: int| 0 <= i < all.len() implies is_arrived(outcomes, #[trigger] all[i]) by {
            if i < refused.len() {
                assert(is_arrived(outcomes, refused[i]));
            } else {
                assert(is_arrived(outcomes, blocks[i - refused.len()]));
            }
        }
        assert forall|j: int| 0 <= j < outcomes.len() implies after.statuses.get(
            (#[trigger] outcomes[j]).slot() as i64,
        ) == Some(recorded_row(outcomes[j], all)) by {
            let slot = outcomes[j].slot();
            assert(t.statuses.get(slot as i64) == Some(recorded_row(outcomes[j], refused)));
            if none_of(blocks, slot) {
                assert(after.statuses.get(slot as i64) == t.statuses.get(slot as i64));
                lemma_none_of_joined(refused, blocks, slot);
            } else {
                let i = choose|i: int| 0 <= i < blocks.len() && (#[trigger] blocks[i]).slot == slot;
                assert(after.statuses.get(blocks[i].slot as i64) == Some(failed_row()));
                assert(all[refused.len() + i].slot == slot);
            }
        }
    }
}

proof fn lemma_none_of_joined(a: Seq<ParsedBlockView>, b: Seq<ParsedBlockView>, slot: u64)
    requires
        none_of(b, slot),
    ensures
        none_of(a + b, slot) == none_of(a, slot),
{
    if none_of(a, slot) {
        assert forall|i: int| 0 <= i < (a + b).len() implies (#[trigger] (a + b)[i]).slot
            != slot by {
            if i < a.len() {
                assert(a[i].slot != slot);
            } else {
                assert(b[i - a.len()].slot != slot);
            }
        }
    } else {
        let i = choose|i: int| 0 <= i < a.len() && (#[trigger] a[i]).slot == slot;
        assert((a + b)[i].slot == slot);
    }
}

/// A run records every outcome so far.
proof fn lemma_run_is_recorded(
    stage: StageView,
    t: Tables,
    outcomes: Seq<ParsedOutcomeView>,
    ends: spec_fn(int) -> FlushEnd,
)
    requires
        stage.pending.len() == 0,
        distinct_outcomes(outcomes),
    ensures
        is_recorded(
            outcomes,
            refused_blocks(stage, t, outcomes, ends),
            store_run(stage, t, outcomes, ends).1,
        ),
    decreases outcomes.len(),
{
    if outcomes.len() > 0 {
        let n = outcomes.len() - 1;
        let d = outcomes.drop_last();
        assert forall|i: int, j: int| 0 <= i < j < d.len() implies (#[trigger] d[i]).slot() != (
        #[trigger] d[j]).slot() by {
            assert(outcomes[i].slot() != outcomes[j].slot());
        }
        lemma_run_is_recorded(stage, t, d, ends);
        lemma_run_is_sound(stage, t, d, ends);
        let refused = refused_blocks(stage, t, d, ends);
        let (before, tables) = store_run(stage, t, d, ends);
        let now = before.accepted(outcomes[n]);
        let recorded = apply(tables, status_of(outcomes[n]))->0;
        lemma_accept_is_sound(outcomes, before, tables);
        assert forall|i: int| 0 <= i < refused.len() implies is_arrived(
            outcomes,
            #[trigger] refused[i],
        ) && refused[i].slot != outcomes[n].slot() by {
            assert(is_arrived(d, refused[i]));
            let j = choose|j: int|
                0 <= j < d.len() && #[trigger] d[j] == ParsedOutcomeView::Ingested(refused[i]);
            assert(outcomes[j] == d[j]);
            assert(outcomes[j].slot() != outcomes[n].slot());
        }
        assert forall|j: int| 0 <= j < outcomes.len() implies recorded.statuses.get(
            (#[trigger] outcomes[j]).slot() as i64,
        ) == Some(recorded_row(outcomes[j], refused)) by {
            if j < n {
                assert(d[j] == outcomes[j]);
                assert(outcomes[j].slot() != outcomes[n].slot());
                lemma_stored_slots_distinct(outcomes[j].slot(), outcomes[n].slot());
                assert(tables.statuses.get(d[j].slot() as i64) == Some(
                    recorded_row(d[j], refused),
                ));
            } else {
                assert(none_of(refused, outcomes[n].slot()));
            }
        }
        if now.is_due() {
            lemma_flush_is_recorded(outcomes, refused, now, recorded, ends(n));
        }
    }
}

/// Every slot ends with its status: at the end of a run the slot of each
/// outcome has the status and the note of the outcome, or failed with
/// [`BATCH_FAILED`] where its block is of a batch that was not stored.
pub proof fn law_every_slot_is_recorded(
    stage: StageView,
    t: Tables,
    outcomes: Seq<ParsedOutcomeView>,
    ends: spec_fn(int) -> FlushEnd,
    j: int,
)
    requires
        stage.pending.len() == 0,
        distinct_outcomes(outcomes),
        0 <= j < outcomes.len(),
    ensures
        ({
            let after = tables_after_run(stage, t, outcomes, ends);
            let lost = blocks_not_stored(stage, t, outcomes, ends);
            &&& status_of(outcomes[j]) == (StoreOpView::UpsertStatus {
                slot: outcomes[j].slot() as i64,
                status: outcome_row(outcomes[j]).0,
                note: outcome_row(outcomes[j]).1,
            })
            &&& after.statuses.get(outcomes[j].slot() as i64) == Some(
                if none_of(lost, outcomes[j].slot()) {
                    outcome_row(outcomes[j])
                } else {
                    failed_row()
                },
            )
            &&& outcomes[j] !is Ingested ==> none_of(lost, outcomes[j].slot())
        }),
{
    let (last, tables) = store_run(stage, t, outcomes, ends);
    let refused = refused_blocks(stage, t, outcomes, ends);
    let lost = blocks_not_stored(stage, t, outcomes, ends);
    let after = tables_after_run(stage, t, outcomes, ends);
    lemma_run_is_sound(stage, t, outcomes, ends);
    lemma_run_is_recorded(stage, t, outcomes, ends);
    if last.pending.len() > 0 {
        lemma_flush_is_recorded(outcomes, refused, last, tables, ends(outcomes.len() as int));
    }
    assert(is_recorded(outcomes, lost, after));
    assert(after.statuses.get(outcomes[j].slot() as i64) == Some(recorded_row(outcomes[j], lost)));
    if outcomes[j] !is Ingested {
        assert forall|i: int| 0 <= i < lost.len() implies (#[trigger] lost[i]).slot
            != outcomes[j].slot() by {
            assert(is_arrived(outcomes, lost[i]));
            let m = choose|m: int|
                0 <= m < outcomes.len() && #[trigger] outcomes[m] == ParsedOutcomeView::Ingested(
                    lost[i],
                );
            assert(m != j);
            if m < j {
                assert(outcomes[m].slot() != outcomes[j].slot());
            } else {
                assert(outcomes[j].slot() != outcomes[m].slot());
            }
        }
    }
}

/// The block of every outcome is stored, unless its batch was not: at the end of
/// a run the tables hold exactly its rows.
pub proof fn law_every_other_block_is_stored(
    stage: StageView,
    t: Tables,
    outcomes: Seq<ParsedOutcomeView>,
    ends: spec_fn(int) -> FlushEnd,
    j: int,
)
    requires
        stage.pending.len() == 0,
        distinct_outcomes(outcomes),
        0 <= j < outcomes.len(),
        outcomes[j] is Ingested,
        none_of(blocks_not_stored(stage, t, outcomes, ends), outcomes[j].slot()),
    ensures
        holds_slot(
            tables_after_run(stage, t, outcomes, ends),
            slot_row(outcomes[j]->Ingested_0),
        ),
{
    law_every_slot_is_recorded(stage, t, outcomes, ends, j);
    law_ingested_slots_are_stored(stage, t, outcomes, ends, j);
}

} // verus!
