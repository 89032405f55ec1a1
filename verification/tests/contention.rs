use block_analysis::contention::{build_schedule, AccountLock, ScheduleResult, TxLocks};

fn tx(sig: &str, locks: Vec<AccountLock>) -> TxLocks {
    TxLocks {
        signature: sig.to_string(),
        program_ids: vec!["11111111111111111111111111111111".to_string()],
        locks,
    }
}

#[test]
fn read_read_no_conflict() {
    let txs = vec![
        tx("tx1", vec![AccountLock::read("A")]),
        tx("tx2", vec![AccountLock::read("A")]),
    ];
    let r = build_schedule(&txs);
    assert_eq!(r.steps, vec![0, 0]);
    assert_eq!(r.depth, 1);
}

#[test]
fn write_then_read_conflicts() {
    let txs = vec![
        tx("tx1", vec![AccountLock::write("A")]),
        tx("tx2", vec![AccountLock::read("A")]),
    ];
    let r = build_schedule(&txs);
    assert_eq!(r.steps, vec![0, 1]);
}

#[test]
fn read_then_write_conflicts() {
    let txs = vec![
        tx("tx1", vec![AccountLock::read("A")]),
        tx("tx2", vec![AccountLock::write("A")]),
    ];
    let r = build_schedule(&txs);
    assert_eq!(r.steps, vec![0, 1]);
}

#[test]
fn write_write_conflicts() {
    let txs = vec![
        tx("tx1", vec![AccountLock::write("A")]),
        tx("tx2", vec![AccountLock::write("A")]),
    ];
    let r = build_schedule(&txs);
    assert_eq!(r.steps, vec![0, 1]);
    assert_eq!(r.conflicts.len(), 1);
    assert_eq!(r.conflicts[0].tx_signature, "tx2");
}

#[test]
fn independent_accounts_run_fully_parallel() {
    let txs = vec![
        tx("tx1", vec![AccountLock::write("A")]),
        tx("tx2", vec![AccountLock::write("B")]),
    ];
    let r = build_schedule(&txs);
    assert_eq!(r.steps, vec![0, 0]);
    assert_eq!(r.depth, 1);
}

#[test]
fn write_read_write_chain() {
    let txs = vec![
        tx("tx1", vec![AccountLock::write("A")]),
        tx("tx2", vec![AccountLock::read("A")]),
        tx("tx3", vec![AccountLock::write("A")]),
    ];
    let r = build_schedule(&txs);
    assert_eq!(r.steps, vec![0, 1, 2]);
    assert_eq!(r.depth, 3);
}

#[test]
fn multiple_readers_share_a_step_writer_waits_for_all() {
    let txs = vec![
        tx("tx1", vec![AccountLock::write("A")]),
        tx("tx2", vec![AccountLock::read("A")]),
        tx("tx3", vec![AccountLock::read("A")]),
        tx("tx4", vec![AccountLock::read("A")]),
        tx("tx5", vec![AccountLock::write("A")]),
    ];
    let r = build_schedule(&txs);
    assert_eq!(r.steps, vec![0, 1, 1, 1, 2]);
    assert_eq!(r.width_per_step.get(&1), Some(&3));
    assert_eq!(r.depth, 3);
}

#[test]
fn multi_account_tx_takes_max_of_constraints() {
    let txs = vec![
        tx("tx1", vec![AccountLock::write("A")]),
        tx("tx2", vec![AccountLock::write("B")]),
        tx("tx3", vec![AccountLock::write("A"), AccountLock::write("B")]),
    ];
    let r = build_schedule(&txs);
    assert_eq!(r.steps, vec![0, 0, 1]);
}

#[test]
fn shared_fee_payer_forces_sequential_execution() {
    let txs = vec![
        tx("tx1", vec![AccountLock::write("payer"), AccountLock::read("A")]),
        tx("tx2", vec![AccountLock::write("payer"), AccountLock::read("B")]),
    ];
    let r = build_schedule(&txs);
    assert_eq!(r.steps, vec![0, 1]);
}

#[test]
fn empty_block_has_zero_depth() {
    let r = build_schedule(&[]);
    assert_eq!(r.depth, 0);
    assert!(r.steps.is_empty());
    assert!(r.conflicts.is_empty());
}

#[test]
fn single_transaction_no_conflicts() {
    let txs = vec![tx("tx1", vec![AccountLock::write("A"), AccountLock::read("B")])];
    let r = build_schedule(&txs);
    assert_eq!(r.steps, vec![0]);
    assert_eq!(r.depth, 1);
    assert!(r.conflicts.is_empty());
}

#[test]
fn conflict_reports_name_the_account_and_the_programs() {
    let txs = vec![
        tx("tx1", vec![AccountLock::read("A"), AccountLock::read("B")]),
        tx("tx2", vec![AccountLock::write("C"), AccountLock::write("B"), AccountLock::read("A")]),
        tx("tx3", vec![AccountLock::read("B")]),
    ];
    let r = build_schedule(&txs);
    assert_eq!(r.steps, vec![0, 1, 2]);
    assert_eq!(r.conflicts.len(), 2);
    assert_eq!(r.conflicts[0].account, "B");
    assert_eq!(r.conflicts[0].tx_signature, "tx2");
    assert_eq!(r.conflicts[0].program_ids, vec!["11111111111111111111111111111111".to_string()]);
    assert_eq!(r.conflicts[0].step, 1);
    assert!(r.conflicts[0].caused_by_write);
    assert_eq!(r.conflicts[1].account, "B");
    assert_eq!(r.conflicts[1].tx_signature, "tx3");
    assert_eq!(r.conflicts[1].step, 2);
    assert!(!r.conflicts[1].caused_by_write);
}

#[test]
fn a_read_blocked_by_an_earlier_write_is_reported() {
    let txs = vec![
        tx("tx1", vec![AccountLock::write("A")]),
        tx("tx2", vec![AccountLock::read("A")]),
    ];
    let r = build_schedule(&txs);
    assert_eq!(r.conflicts.len(), 1);
    assert_eq!(r.conflicts[0].account, "A");
    assert_eq!(r.conflicts[0].tx_signature, "tx2");
    assert_eq!(r.conflicts[0].step, 1);
    assert!(!r.conflicts[0].caused_by_write);
}

#[test]
fn a_transaction_that_locks_an_account_twice_is_not_blocked_by_itself() {
    let txs = vec![tx("tx1", vec![AccountLock::write("A"), AccountLock::read("A")])];
    let r = build_schedule(&txs);
    assert_eq!(r.steps, vec![0]);
    assert_eq!(r.depth, 1);
    assert!(r.conflicts.is_empty());
}

#[test]
fn a_write_after_its_own_read_is_reported() {
    let txs = vec![tx("tx1", vec![AccountLock::read("A"), AccountLock::write("A")])];
    let r = build_schedule(&txs);
    assert_eq!(r.steps, vec![0]);
    assert_eq!(r.conflicts.len(), 1);
    assert_eq!(r.conflicts[0].account, "A");
    assert_eq!(r.conflicts[0].tx_signature, "tx1");
    assert_eq!(r.conflicts[0].step, 0);
    assert!(r.conflicts[0].caused_by_write);
}

#[test]
fn a_prefix_of_a_block_is_scheduled_alike() {
    let txs = vec![
        tx("tx1", vec![AccountLock::write("A"), AccountLock::read("B")]),
        tx("tx2", vec![AccountLock::read("A"), AccountLock::write("A")]),
        tx("tx3", vec![AccountLock::write("C")]),
        tx("tx4", vec![AccountLock::read("C"), AccountLock::write("B")]),
        tx("tx5", vec![AccountLock::write("A"), AccountLock::read("C")]),
    ];
    let whole = build_schedule(&txs);
    assert_eq!(whole.steps, vec![0, 1, 0, 1, 2]);
    let told = |r: &ScheduleResult| -> Vec<(String, String, usize)> {
        r.conflicts
            .iter()
            .map(|e| (e.account.clone(), e.tx_signature.clone(), e.step))
            .collect()
    };
    for k in 0..=txs.len() {
        let part = build_schedule(&txs[..k]);
        assert_eq!(part.steps, whole.steps[..k]);
        assert!(told(&whole).starts_with(&told(&part)));
        assert!(part.depth <= whole.depth);
        assert!(part.width_per_step.iter().all(|(s, w)| *w <= whole.width_per_step[s]));
    }
}

#[test]
fn every_step_below_the_depth_is_used() {
    let txs = vec![
        tx("tx1", vec![AccountLock::write("A")]),
        tx("tx2", vec![AccountLock::write("B")]),
        tx("tx3", vec![AccountLock::write("A")]),
        tx("tx4", vec![AccountLock::read("A"), AccountLock::read("B")]),
    ];
    let r = build_schedule(&txs);
    assert_eq!(r.steps, vec![0, 0, 1, 2]);
    assert_eq!(r.depth, 3);
    assert_eq!(r.width_per_step.len(), 3);
    assert_eq!(r.width_per_step[&0], 2);
    assert_eq!(r.width_per_step[&1], 1);
    assert_eq!(r.width_per_step[&2], 1);
}
