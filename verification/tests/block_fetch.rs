use block_analysis::block_fetch::{fetch_outcome, fetch_outcome_slot, FetchOutcome, FetchWindow};
use block_analysis::rpc_client::{classify_error, is_transient, RpcError};
use block_analysis::types::DecodedBlock;

fn block(slot: u64) -> DecodedBlock {
    DecodedBlock { slot, block_time: None, transactions: vec![] }
}

#[test]
fn outcomes_are_sorted_by_error() {
    let ok = fetch_outcome(5, Ok(block(5)));
    assert!(matches!(&ok, FetchOutcome::Ingested(b) if b.slot == 5));
    assert_eq!(fetch_outcome_slot(&ok), 5);

    let skipped = fetch_outcome(6, Err(RpcError::SlotSkipped));
    assert!(matches!(&skipped, FetchOutcome::Skipped { slot: 6 }));
    assert_eq!(fetch_outcome_slot(&skipped), 6);

    let failed = fetch_outcome(7, Err(RpcError::Transport("reset".to_string())));
    assert_eq!(fetch_outcome_slot(&failed), 7);
    match failed {
        FetchOutcome::Failed { slot, error } => {
            assert_eq!(slot, 7);
            assert_eq!(error, "transport error: reset");
        }
        _ => panic!("a transport error is a failure"),
    }
}

#[test]
fn a_window_starts_every_slot_once_and_never_too_many() {
    let mut window = FetchWindow::new(10, 5, 2);
    let mut started: Vec<u64> = Vec::new();
    let mut in_flight = 0usize;
    loop {
        while let Some(slot) = window.launch() {
            started.push(slot);
            in_flight += 1;
            assert!(in_flight <= 2);
        }
        if in_flight == 0 {
            break;
        }
        in_flight -= 1;
        window.complete();
    }
    assert_eq!(started, vec![14, 13, 12, 11, 10]);
}

#[test]
fn empty_slot_range_completes_without_rpc() {
    let mut window = FetchWindow::new(100, 0, 8);
    assert_eq!(window.launch(), None);
}

#[test]
fn a_window_without_room_starts_nothing() {
    let mut window = FetchWindow::new(100, 3, 0);
    assert_eq!(window.launch(), None);
}

#[test]
fn a_window_can_reach_the_last_slots() {
    let mut window = FetchWindow::new(u64::MAX - 2, 2, 1);
    assert_eq!(window.launch(), Some(u64::MAX - 1));
    assert_eq!(window.launch(), None);
    window.complete();
    assert_eq!(window.launch(), Some(u64::MAX - 2));
}

#[test]
fn a_skipped_slot_is_no_failure() {
    let error = classify_error(Some("Slot 9 was skipped, or missing in long-term storage"));
    assert!(!is_transient(&error));
    assert!(matches!(fetch_outcome(9, Err(error)), FetchOutcome::Skipped { slot: 9 }));
}
