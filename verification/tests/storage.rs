use block_analysis::contention::{AccountLock, ScheduleResult};
use block_analysis::pipeline::{parse_block, plan_flush};
use block_analysis::storage::{
    coalesce_token_balance_rows, contention_summary, load_balance_change, next_batch_step,
    replace_slot_ops, schedule_step_ops, status_op, BatchStep, SlotBatchRow, StoreOp,
    StoredLock, StoredTokenChange, StoredTransaction, TokenBalanceRow,
};
use block_analysis::types::{DecodedBlock, DecodedTransaction, SlotStatus};
use std::collections::BTreeMap;

fn row(sig: &str, mint: &str, pre: u64, post: u64, decimals: u8) -> TokenBalanceRow {
    (sig.to_string(), mint.to_string(), pre, post, decimals)
}

/// The tables that the planned writes go to, with their primary keys.
#[derive(Clone, Default, PartialEq, Debug)]
struct Tables {
    blocks: BTreeMap<i64, (Option<i64>, i32)>,
    transactions: BTreeMap<String, StoredTransaction>,
    locks: BTreeMap<(String, String), StoredLock>,
    token_changes: BTreeMap<(String, String), StoredTokenChange>,
}

impl Tables {
    fn apply(&mut self, op: StoreOp) -> bool {
        match op {
            StoreOp::DeleteLocks { slot } => self.locks.retain(|_, r| r.0 != slot),
            StoreOp::DeleteTokenChanges { slot } => self.token_changes.retain(|_, r| r.1 != slot),
            StoreOp::DeleteTransactions { slot } => self.transactions.retain(|_, r| r.1 != slot),
            StoreOp::UpsertBlock { slot, block_time, tx_count } => {
                self.blocks.insert(slot, (block_time, tx_count));
            }
            StoreOp::AppendTransactions { rows } => {
                for r in rows {
                    if self.transactions.insert(r.0.clone(), r).is_some() {
                        return false;
                    }
                }
            }
            StoreOp::AppendLocks { rows } => {
                for r in rows {
                    if self.locks.insert((r.1.clone(), r.2.clone()), r).is_some() {
                        return false;
                    }
                }
            }
            StoreOp::AppendTokenChanges { rows } => {
                for r in rows {
                    // Amounts are unsigned columns, decimals a signed byte.
                    if r.4 < 0 || r.5 < 0 || i8::try_from(r.6).is_err() {
                        return false;
                    }
                    if self.token_changes.insert((r.0.clone(), r.3.clone()), r).is_some() {
                        return false;
                    }
                }
            }
            StoreOp::SetStep { signature, step } => {
                if let Some(r) = self.transactions.get_mut(&signature) {
                    r.5 = Some(step);
                }
            }
            StoreOp::UpsertStatus { .. } | StoreOp::UpsertCandle { .. } => {}
        }
        true
    }

    /// Writes a batch in one transaction, step by step.
    fn write(&mut self, slots: &[SlotBatchRow]) -> bool {
        let before = self.clone();
        let mut step = BatchStep::Begin;
        loop {
            let ok = match step {
                BatchStep::Begin | BatchStep::Commit => true,
                BatchStep::Replace { index } => {
                    replace_slot_ops(&slots[index]).into_iter().all(|op| self.apply(op))
                }
                BatchStep::Rollback => {
                    *self = before.clone();
                    true
                }
                BatchStep::Done => return true,
                BatchStep::Failed => return false,
            };
            step = next_batch_step(step, slots.len(), ok);
        }
    }
}

fn slot_row(slot: u64) -> SlotBatchRow {
    (
        slot,
        Some(1_000),
        vec![(format!("sig-{slot}"), false, vec!["prog".to_string()], None)],
        vec![(format!("sig-{slot}"), "acct".to_string(), true)],
        vec![row(&format!("sig-{slot}"), "MINT", 10, 0, 6)],
    )
}

#[test]
fn two_rows_of_one_mint_are_netted() {
    let usdt = "Es9vMFrzaCERmJfrF4H2FYD4KCoNkY11McCe8BenwNYB";
    let netted = coalesce_token_balance_rows(&[
        row("sig-dup-mint", usdt, 10, 20, 6),
        row("sig-dup-mint", usdt, 5, 0, 6),
    ]);
    // +10 and -5 make +5
    assert_eq!(netted, vec![row("sig-dup-mint", usdt, 0, 5, 6)]);
}

#[test]
fn netting_keeps_order_and_drops_what_cancels_out() {
    let netted = coalesce_token_balance_rows(&[
        row("b", "M", 0, 3, 6),
        row("a", "N", 7, 0, 2),
        row("a", "M", 5, 0, 6),
        row("b", "M", 0, 4, 9),
        row("a", "M", 0, 5, 6),
        row("a", "N", 0, 1, 4),
    ]);
    assert_eq!(netted, vec![row("b", "M", 0, 7, 6), row("a", "N", 6, 0, 2)]);
    assert!(coalesce_token_balance_rows(&[]).is_empty());
}

#[test]
fn netting_takes_the_largest_amounts() {
    let netted = coalesce_token_balance_rows(&[
        row("s", "M", 0, u64::MAX, 0),
        row("s", "M", u64::MAX, 0, 0),
        row("s", "M", u64::MAX, 0, 0),
    ]);
    assert_eq!(netted, vec![row("s", "M", u64::MAX, 0, 0)]);
}

#[test]
fn a_slot_is_deleted_before_it_is_written() {
    let slot: SlotBatchRow = (
        7,
        Some(9),
        vec![
            ("t1".to_string(), false, vec!["p\"1".to_string(), "p2".to_string()], None),
            ("t2".to_string(), true, vec![], Some(3)),
        ],
        vec![("t1".to_string(), "hot".to_string(), true)],
        vec![row("t1", "M", 1, 0, 6), row("t1", "M", 0, 4, 6)],
    );
    let ops = replace_slot_ops(&slot);
    assert_eq!(ops.len(), 7);
    assert!(matches!(ops[0], StoreOp::DeleteLocks { slot: 7 }));
    assert!(matches!(ops[1], StoreOp::DeleteTokenChanges { slot: 7 }));
    assert!(matches!(ops[2], StoreOp::DeleteTransactions { slot: 7 }));
    assert!(matches!(
        ops[3],
        StoreOp::UpsertBlock { slot: 7, block_time: Some(9), tx_count: 2 }
    ));
    match &ops[4] {
        StoreOp::AppendTransactions { rows } => assert_eq!(
            *rows,
            vec![
                ("t1".to_string(), 7, Some(9), false, r#"["p\"1","p2"]"#.to_string(), None),
                ("t2".to_string(), 7, Some(9), true, "[]".to_string(), Some(3)),
            ]
        ),
        _ => panic!("transactions come first"),
    }
    match &ops[5] {
        StoreOp::AppendLocks { rows } => {
            assert_eq!(*rows, vec![(7, "t1".to_string(), "hot".to_string(), true)])
        }
        _ => panic!("locks come second"),
    }
    match &ops[6] {
        StoreOp::AppendTokenChanges { rows } => assert_eq!(
            *rows,
            vec![("t1".to_string(), 7, Some(9), "M".to_string(), 0, 3, 6)]
        ),
        _ => panic!("balances come last"),
    }
}

#[test]
fn replacing_a_slot_again_leaves_the_same_rows() {
    let mut tables = Tables::default();
    assert!(tables.write(&[slot_row(42)]));
    let once = tables.clone();
    assert!(tables.write(&[slot_row(42)]));
    assert_eq!(tables, once);
    assert_eq!(tables.transactions.len(), 1);
    assert_eq!(tables.locks.len(), 1);
    assert_eq!(tables.token_changes.len(), 1);
}

#[test]
fn ingesting_a_batch_again_keeps_its_steps() {
    let batch = vec![slot_row(1), slot_row(2)];
    let steps = || {
        schedule_step_ops(
            &["sig-1".to_string(), "sig-2".to_string()],
            &ScheduleResult {
                steps: vec![4, 5],
                depth: 6,
                width_per_step: Default::default(),
                conflicts: vec![],
            },
        )
    };
    let mut tables = Tables::default();
    assert!(tables.write(&batch));
    assert!(steps().into_iter().all(|op| tables.apply(op)));
    let once = tables.clone();
    assert_eq!(once.transactions["sig-2"].5, Some(5));
    assert!(tables.write(&batch));
    assert!(steps().into_iter().all(|op| tables.apply(op)));
    assert_eq!(tables, once);
}

#[test]
fn a_batch_with_a_doubled_signature_is_rolled_back() {
    let mut tables = Tables::default();
    let tx = ("same-sig".to_string(), false, vec![], None);
    let bad: SlotBatchRow = (1, Some(1), vec![tx.clone(), tx.clone()], vec![], vec![]);
    assert!(!tables.write(&[slot_row(9), bad]));
    assert_eq!(tables, Tables::default());
    let good: SlotBatchRow = (1, Some(1), vec![tx], vec![], vec![]);
    assert!(tables.write(&[good]));
    assert_eq!(tables.transactions.len(), 1);
}

#[test]
fn amounts_beyond_the_columns_are_rolled_back() {
    let with = |pre: u64, post: u64, decimals: u8| -> SlotBatchRow {
        (1, None, vec![], vec![], vec![row("s", "M", pre, post, decimals)])
    };
    let mut tables = Tables::default();
    assert!(!tables.write(&[slot_row(9), with(1 << 63, 0, 6)]));
    assert!(!tables.write(&[slot_row(9), with(0, u64::MAX, 6)]));
    assert!(!tables.write(&[slot_row(9), with(0, 1, 128)]));
    assert_eq!(tables, Tables::default());
    assert!(tables.write(&[slot_row(9), with(0, i64::MAX as u64, 127)]));
    assert_eq!(tables.token_changes.len(), 2);
}

#[test]
fn replacing_a_slot_leaves_the_others_as_they_were() {
    let mut tables = Tables::default();
    assert!(tables.write(&[slot_row(1), slot_row(2)]));
    let before = tables.clone();
    let emptied: SlotBatchRow = (2, None, vec![], vec![], vec![]);
    assert!(tables.write(&[emptied]));
    assert_eq!(tables.blocks[&1], before.blocks[&1]);
    assert_eq!(tables.transactions["sig-1"], before.transactions["sig-1"]);
    assert_eq!(tables.transactions.len(), 1);
    assert_eq!(tables.locks.len(), 1);
    assert_eq!(tables.token_changes.len(), 1);
    assert_eq!(tables.blocks[&2], (None, 0));
}

#[test]
fn slots_that_repeat_in_a_batch_can_fail_the_second_time() {
    let empty = |slot| (slot, None, vec![], vec![], vec![]);
    let with_x = |slot| {
        (slot, None, vec![("x".to_string(), false, vec![], None)], vec![], vec![])
    };
    let batch: Vec<SlotBatchRow> = vec![with_x(1), empty(2), empty(1), with_x(2)];
    let mut tables = Tables::default();
    assert!(tables.write(&batch));
    assert!(!tables.write(&batch));
}

#[test]
fn a_batch_begins_replaces_and_commits() {
    let mut step = BatchStep::Begin;
    let mut seen = vec![step];
    for _ in 0..4 {
        step = next_batch_step(step, 2, true);
        seen.push(step);
    }
    assert_eq!(
        seen,
        vec![
            BatchStep::Begin,
            BatchStep::Replace { index: 0 },
            BatchStep::Replace { index: 1 },
            BatchStep::Commit,
            BatchStep::Done,
        ]
    );
    assert_eq!(next_batch_step(BatchStep::Begin, 0, true), BatchStep::Commit);
    assert_eq!(next_batch_step(BatchStep::Begin, 2, false), BatchStep::Failed);
    assert_eq!(
        next_batch_step(BatchStep::Replace { index: 1 }, 2, false),
        BatchStep::Rollback
    );
    assert_eq!(next_batch_step(BatchStep::Commit, 2, false), BatchStep::Rollback);
    assert_eq!(next_batch_step(BatchStep::Rollback, 2, false), BatchStep::Failed);
    assert_eq!(next_batch_step(BatchStep::Done, 2, false), BatchStep::Done);
    assert_eq!(next_batch_step(BatchStep::Failed, 2, true), BatchStep::Failed);
}

#[test]
fn steps_are_written_as_far_as_there_are_signatures() {
    let schedule = ScheduleResult {
        steps: vec![0, 1, 1],
        depth: 2,
        width_per_step: Default::default(),
        conflicts: vec![],
    };
    let ops = schedule_step_ops(&["t1".to_string(), "t2".to_string()], &schedule);
    assert_eq!(ops.len(), 2);
    assert!(matches!(&ops[1], StoreOp::SetStep { signature, step: 1 } if signature == "t2"));
}

#[test]
fn statuses_are_written_with_their_notes() {
    match status_op(5, SlotStatus::Failed, Some("boom".to_string())) {
        StoreOp::UpsertStatus { slot, status, note } => {
            assert_eq!((slot, status, note), (5, "failed", Some("boom".to_string())))
        }
        _ => panic!("a status is an upsert"),
    }
    assert_eq!(SlotStatus::Ingested.as_str(), "ingested");
    assert_eq!(SlotStatus::Skipped.as_str(), "skipped");
}

#[test]
fn stored_balance_changes_read_back() {
    let slot: SlotBatchRow =
        (u64::MAX, None, vec![], vec![], vec![row("s", "M", u64::MAX, 0, 255)]);
    let mut ops = replace_slot_ops(&slot);
    match ops.remove(6) {
        StoreOp::AppendTokenChanges { mut rows } => {
            let stored = rows.remove(0);
            assert_eq!(stored.1, -1);
            assert_eq!(stored.4, -1);
            assert_eq!(
                load_balance_change(stored),
                ("s".to_string(), u64::MAX, None, "M".to_string(), u64::MAX, 0, 255)
            );
        }
        _ => panic!("balances come last"),
    }
}

#[test]
fn a_range_without_steps_has_no_depth() {
    assert_eq!(contention_summary(-1, vec![]).depth, 0);
    let summary = contention_summary(2, vec![("hot".to_string(), 2)]);
    assert_eq!(summary.depth, 2);
    assert_eq!(summary.top_conflicting_accounts[0], ("hot".to_string(), 2));
}

#[test]
fn the_stored_depth_is_that_of_the_schedule() {
    let tx = |signature: &str, account: &str| DecodedTransaction {
        signature: signature.to_string(),
        slot: 7,
        block_time: Some(1),
        program_ids: vec![],
        locks: vec![AccountLock::write(account)],
        token_deltas: vec![],
        failed: false,
    };
    let block = |slot: u64, transactions| DecodedBlock { slot, block_time: Some(1), transactions };
    let parsed = vec![
        parse_block(block(7, vec![tx("t1", "hot"), tx("t2", "hot"), tx("t3", "cold")])),
        parse_block(block(8, vec![tx("u1", "hot")])),
    ];
    let depths: Vec<usize> = parsed.iter().map(|p| p.schedule.depth).collect();
    assert_eq!(depths, vec![2, 1]);

    let plan = plan_flush(parsed);
    let mut tables = Tables::default();
    assert!(tables.write(&plan.slots));
    assert!(plan.steps.into_iter().all(|op| tables.apply(op)));
    let depth_of = |slot: i64| {
        let steps = tables.transactions.values().filter(|r| r.1 == slot).filter_map(|r| r.5);
        steps.max().unwrap_or(-1) + 1
    };
    assert_eq!((depth_of(7), depth_of(8), depth_of(9)), (2, 1, 0));
    assert_eq!(tables.transactions["t3"].5, Some(0));
}
