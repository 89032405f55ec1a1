use block_analysis::block_fetch::FetchOutcome;
use block_analysis::contention::AccountLock;
use block_analysis::ohlcv::WSOL_MINT;
use block_analysis::pipeline::{
    are_times_bucketable, candles_from_balance_rows, parse_block, parse_outcome, plan_flush, range_end,
    snapshots_from_balance_rows, ParsedBlock, ParsedOutcome, StoreStage,
};
use block_analysis::storage::{load_balance_change, replace_slot_ops, StoreOp};
use block_analysis::types::{DecodedBlock, DecodedTransaction, TokenBalanceChange};

fn change(mint: &str, pre_amount: u64, post_amount: u64, decimals: u8) -> TokenBalanceChange {
    TokenBalanceChange { mint: mint.to_string(), pre_amount, post_amount, decimals }
}

fn tx(
    signature: &str,
    locks: Vec<AccountLock>,
    token_deltas: Vec<TokenBalanceChange>,
    failed: bool,
) -> DecodedTransaction {
    DecodedTransaction {
        signature: signature.to_string(),
        slot: 1,
        block_time: Some(1),
        program_ids: vec!["prog".to_string()],
        locks,
        token_deltas,
        failed,
    }
}

fn block(slot: u64, transactions: Vec<DecodedTransaction>) -> DecodedBlock {
    DecodedBlock { slot, block_time: Some(1), transactions }
}

fn parsed(slot: u64, txs: usize) -> ParsedBlock {
    parse_block(block(
        slot,
        (0..txs).map(|i| tx(&format!("{slot}-{i}"), vec![], vec![], false)).collect(),
    ))
}

fn slots_of(blocks: &[ParsedBlock]) -> Vec<u64> {
    blocks.iter().map(|b| b.slot).collect()
}

#[test]
fn snapshots_group_by_signature_and_drop_null_block_time() {
    let rows = vec![
        ("sig-a".into(), 1, Some(100), "MINT".into(), 10, 0, 6),
        ("sig-a".into(), 1, Some(100), WSOL_MINT.into(), 0, 1_000_000_000, 9),
        ("sig-b".into(), 2, None, "MINT".into(), 1, 0, 6),
    ];
    let snaps = snapshots_from_balance_rows(rows);
    assert_eq!(snaps.len(), 1);
    assert_eq!(snaps[0].signature, "sig-a");
    assert_eq!(snaps[0].token_deltas.len(), 2);
}

#[test]
fn parse_block_excludes_failed_tx_from_ohlcv_rows() {
    let block = DecodedBlock {
        slot: 1,
        block_time: Some(1),
        transactions: vec![
            DecodedTransaction {
                signature: "ok".into(),
                slot: 1,
                block_time: Some(1),
                program_ids: vec![],
                locks: vec![],
                token_deltas: vec![change("MINT", 10, 0, 6)],
                failed: false,
            },
            DecodedTransaction {
                signature: "bad".into(),
                slot: 1,
                block_time: Some(1),
                program_ids: vec![],
                locks: vec![],
                token_deltas: vec![change("MINT", 10, 0, 6)],
                failed: true,
            },
        ],
    };
    let parsed = parse_block(block);
    assert_eq!(parsed.token_changes.len(), 1);
    assert_eq!(parsed.token_changes[0].0, "ok");
    assert_eq!(parsed.transactions.len(), 2);
}

#[test]
fn a_block_parses_into_rows_and_a_schedule() {
    let parsed = parse_block(block(
        8,
        vec![
            tx("a", vec![AccountLock::write("X"), AccountLock::read("Y")], vec![], false),
            tx("b", vec![AccountLock::write("X")], vec![], true),
        ],
    ));
    assert_eq!((parsed.slot, parsed.block_time), (8, Some(1)));
    assert_eq!(
        parsed.transactions[1],
        ("b".to_string(), true, vec!["prog".to_string()], None)
    );
    assert_eq!(
        parsed.locks,
        vec![
            ("a".to_string(), "X".to_string(), true),
            ("a".to_string(), "Y".to_string(), false),
            ("b".to_string(), "X".to_string(), true),
        ]
    );
    assert_eq!(parsed.signatures, vec!["a".to_string(), "b".to_string()]);
    // A failed transaction takes its locks all the same.
    assert_eq!(parsed.schedule.steps, vec![0, 1]);
    assert_eq!(parsed.schedule.depth, 2);
}

#[test]
fn outcomes_keep_their_slots() {
    let ingested = parse_outcome(FetchOutcome::Ingested(block(3, vec![])));
    assert_eq!(ingested.slot(), 3);
    assert!(matches!(ingested, ParsedOutcome::Ingested(_)));
    let skipped = parse_outcome(FetchOutcome::Skipped { slot: 4 });
    assert_eq!(skipped.slot(), 4);
    assert!(matches!(skipped, ParsedOutcome::Skipped { slot: 4 }));
    let failed = parse_outcome(FetchOutcome::Failed { slot: 5, error: "e".to_string() });
    assert_eq!(failed.slot(), 5);
    assert!(matches!(failed, ParsedOutcome::Failed { slot: 5, error } if error == "e"));
}

#[test]
fn a_snapshot_takes_the_time_of_its_first_row() {
    let rows = vec![
        ("b".into(), 1, Some(7), "M".into(), 1, 2, 3),
        ("a".into(), 1, None, "M".into(), 1, 2, 3),
        ("a".into(), 1, Some(8), "N".into(), 4, 5, 6),
        ("b".into(), 1, Some(9), "O".into(), 7, 8, 9),
    ];
    let snaps = snapshots_from_balance_rows(rows);
    assert_eq!(snaps.len(), 2);
    assert_eq!((snaps[0].signature.as_str(), snaps[0].block_time), ("b", 7));
    assert_eq!((snaps[1].signature.as_str(), snaps[1].block_time), ("a", 8));
    let mints: Vec<&str> = snaps[0].token_deltas.iter().map(|d| d.mint.as_str()).collect();
    assert_eq!(mints, vec!["M", "O"]);
    let d = &snaps[0].token_deltas[1];
    assert_eq!((d.pre_amount, d.post_amount, d.decimals), (7, 8, 9));
}

#[test]
fn a_stored_swap_becomes_candles() {
    let t = 1_700_000_060i64;
    let slot = (
        9u64,
        Some(t),
        vec![("swap".to_string(), false, vec![], None)],
        vec![],
        vec![
            ("swap".to_string(), "TOKENMINT".to_string(), 100_000_000, 0, 6),
            ("swap".to_string(), WSOL_MINT.to_string(), 0, 1_000_000_000, 9),
        ],
    );
    let rows = match replace_slot_ops(&slot).remove(6) {
        StoreOp::AppendTokenChanges { rows } => rows,
        _ => panic!("balances come last"),
    };
    let built = candles_from_balance_rows(rows.into_iter().map(load_balance_change).collect());
    assert_eq!(built.snapshots, 1);
    assert_eq!(built.trades, 1);
    assert_eq!(built.intervals.len(), 2);
    for (interval, seconds) in built.intervals.iter().zip([60, 300]) {
        assert_eq!(interval.interval_sec, seconds);
        assert_eq!(interval.series.len(), 1);
        assert_eq!(interval.series[0].mint, "TOKENMINT");
        let candle = &interval.series[0].candles[0];
        assert_eq!(candle.bucket_start, t - t % seconds as i64);
        assert_eq!(candle.volume.len(), 1);
        assert_eq!((candle.volume[0].units, candle.volume[0].decimals), (1_000_000_000, 9));
    }
    assert!(built.intervals.iter().all(|i| i.series.iter().all(|s| s.mint != WSOL_MINT)));
}

#[test]
fn a_flush_writes_slots_and_then_steps() {
    let blocks = vec![
        parse_block(block(
            1,
            vec![
                tx("a", vec![AccountLock::write("X")], vec![change("M", 2, 1, 0)], false),
                tx("b", vec![AccountLock::write("X")], vec![], false),
            ],
        )),
        parsed(2, 1),
    ];
    let plan = plan_flush(blocks);
    assert_eq!(plan.slots.len(), 2);
    assert_eq!((plan.slots[0].0, plan.slots[0].1), (1, Some(1)));
    assert_eq!(plan.slots[0].2.len(), 2);
    assert_eq!(plan.slots[0].3.len(), 2);
    assert_eq!(plan.slots[0].4.len(), 1);
    let steps: Vec<(String, i32)> = plan
        .steps
        .into_iter()
        .map(|op| match op {
            StoreOp::SetStep { signature, step } => (signature, step),
            _ => panic!("only steps are set"),
        })
        .collect();
    assert_eq!(
        steps,
        vec![("a".to_string(), 0), ("b".to_string(), 1), ("2-0".to_string(), 0)]
    );
}

#[test]
fn the_store_stage_hands_out_every_block_once() {
    let mut stage = StoreStage::new(2, 0);
    let mut written: Vec<u64> = Vec::new();
    let outcomes = vec![
        ParsedOutcome::Ingested(parsed(10, 3)),
        ParsedOutcome::Skipped { slot: 11 },
        ParsedOutcome::Ingested(parsed(12, 2)),
        ParsedOutcome::Failed { slot: 13, error: "boom".to_string() },
        ParsedOutcome::Ingested(parsed(14, 1)),
    ];
    let mut statuses: Vec<(i64, &str, Option<String>)> = Vec::new();
    for outcome in outcomes {
        match stage.accept(outcome) {
            StoreOp::UpsertStatus { slot, status, note } => statuses.push((slot, status, note)),
            _ => panic!("an outcome is recorded as a status"),
        }
        if let Some(batch) = stage.take_batch() {
            assert_eq!(batch.len(), 2);
            written.extend(slots_of(&batch));
        }
    }
    assert_eq!(written, vec![10, 12]);
    assert_eq!(
        statuses,
        vec![
            (10, "ingested", None),
            (11, "skipped", None),
            (12, "ingested", None),
            (13, "failed", Some("boom".to_string())),
            (14, "ingested", None),
        ]
    );
    let totals = stage.totals();
    assert_eq!((totals.ingested, totals.skipped, totals.failed), (3, 1, 1));
    assert_eq!(totals.ingested_txs, 6);
    assert_eq!(slots_of(&stage.finish().unwrap()), vec![14]);
}

#[test]
fn the_store_stage_pauses_once() {
    let mut stage = StoreStage::new(5, 10);
    assert_eq!(stage.take_pause(), Some(10));
    assert_eq!(stage.take_pause(), None);
    assert_eq!(StoreStage::new(5, 0).take_pause(), None);
    assert!(stage.finish().is_none());
}

#[test]
fn a_batch_size_of_zero_is_always_due() {
    let mut stage = StoreStage::new(0, 0);
    stage.accept(ParsedOutcome::Skipped { slot: 1 });
    assert_eq!(stage.take_batch().map(|b| b.len()), Some(0));
}

#[test]
fn a_range_ends_at_its_last_slot() {
    assert_eq!(range_end(100, 1000), 1099);
    assert_eq!(range_end(100, 1), 100);
    assert_eq!(range_end(100, 0), 100);
    assert_eq!(range_end(u64::MAX, 5), u64::MAX);
}

#[test]
fn failure_does_not_change_the_schedule() {
    let txs = |failed: bool| {
        vec![
            tx("a", vec![AccountLock::write("X")], vec![change("M", 2, 1, 0)], failed),
            tx("b", vec![AccountLock::read("X")], vec![], false),
            tx("c", vec![AccountLock::write("Y")], vec![], failed),
        ]
    };
    let succeeded = parse_block(block(1, txs(false)));
    let failed = parse_block(block(1, txs(true)));
    assert_eq!(succeeded.schedule.steps, failed.schedule.steps);
    assert_eq!(succeeded.schedule.depth, failed.schedule.depth);
    assert_eq!(succeeded.token_changes.len(), 1);
    assert!(failed.token_changes.is_empty());
}

#[test]
fn times_before_all_windows_are_told_apart() {
    let row = |time| ("s".to_string(), 1, time, "M".to_string(), 1, 0, 0);
    assert!(are_times_bucketable(&[row(None), row(Some(0)), row(Some(i64::MAX))]));
    assert!(!are_times_bucketable(&[row(Some(0)), row(Some(i64::MIN))]));
    assert!(are_times_bucketable(&[]));
}

#[test]
fn outcomes_are_accepted_while_they_can_be_counted() {
    let stage = StoreStage::new(1, 0);
    assert!(stage.can_accept(&ParsedOutcome::Ingested(parsed(1, 4))));
    assert!(stage.can_accept(&ParsedOutcome::Skipped { slot: 1 }));
    assert!(stage.can_accept(&ParsedOutcome::Failed { slot: 1, error: String::new() }));
}
