use block_analysis::pipeline::{
    parse_block, plan_flush, FlushPlan, ParsedBlock, ParsedOutcome, StoreStage,
};
use block_analysis::storage::StoreOp;
use block_analysis::store_run::{batch_failed, BATCH_FAILED};
use block_analysis::types::DecodedBlock;
use std::collections::{BTreeMap, BTreeSet};

fn parsed(slot: u64) -> ParsedBlock {
    parse_block(DecodedBlock { slot, block_time: Some(1), transactions: vec![] })
}

/// Statuses, and the slots whose data is there.
#[derive(Default)]
struct Recorded {
    statuses: BTreeMap<i64, (&'static str, Option<String>)>,
    stored: BTreeSet<u64>,
}

impl Recorded {
    fn record(&mut self, op: StoreOp) {
        match op {
            StoreOp::UpsertStatus { slot, status, note } => {
                self.statuses.insert(slot, (status, note));
            }
            _ => panic!("only statuses are recorded"),
        }
    }

    fn flush(&mut self, batch: Vec<ParsedBlock>, works: bool) {
        let failed = batch_failed(&batch);
        let FlushPlan { slots, .. } = plan_flush(batch);
        if works {
            self.stored.extend(slots.iter().map(|row| row.0));
        } else {
            failed.into_iter().for_each(|op| self.record(op));
        }
    }
}

#[test]
fn a_failed_batch_is_recorded_slot_by_slot() {
    let ops = batch_failed(&[parsed(4), parsed(u64::MAX)]);
    assert_eq!(ops.len(), 2);
    for (op, expected) in ops.into_iter().zip([4, -1]) {
        match op {
            StoreOp::UpsertStatus { slot, status, note } => {
                assert_eq!(slot, expected);
                assert_eq!(status, "failed");
                assert_eq!(note, Some(BATCH_FAILED.to_string()));
            }
            _ => panic!("a failed slot is a status"),
        }
    }
    assert!(batch_failed(&[]).is_empty());
}

#[test]
fn what_is_recorded_as_ingested_is_stored() {
    let mut stage = StoreStage::new(2, 0);
    let mut recorded = Recorded::default();
    let mut flushes = 0;
    for slot in 0..7 {
        let outcome = match slot {
            3 => ParsedOutcome::Skipped { slot },
            5 => ParsedOutcome::Failed { slot, error: "down".to_string() },
            _ => ParsedOutcome::Ingested(parsed(slot)),
        };
        let status = stage.accept(outcome);
        recorded.record(status);
        if let Some(batch) = stage.take_batch() {
            recorded.flush(batch, flushes != 0);
            flushes += 1;
        }
    }
    if let Some(batch) = stage.finish() {
        recorded.flush(batch, true);
    }
    assert_eq!(recorded.stored, BTreeSet::from([2, 4, 6]));
    let ingested: BTreeSet<u64> = recorded
        .statuses
        .iter()
        .filter(|(_, (status, _))| *status == "ingested")
        .map(|(slot, _)| *slot as u64)
        .collect();
    assert_eq!(ingested, recorded.stored);
    assert_eq!(recorded.statuses.len(), 7);
    assert_eq!(recorded.statuses[&2], ("ingested", None));
    assert_eq!(recorded.statuses[&0], ("failed", Some(BATCH_FAILED.to_string())));
    assert_eq!(recorded.statuses[&1], ("failed", Some("batch could not be stored".to_string())));
    assert_eq!(recorded.statuses[&3], ("skipped", None));
    assert_eq!(recorded.statuses[&5], ("failed", Some("down".to_string())));
}
