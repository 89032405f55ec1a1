use block_analysis::account_resolution::MessageHeader;
use block_analysis::rpc_client::{
    build_token_deltas, checked_slot, classify_error, decode_block, decode_get_block_json,
    decode_get_slot_json, decode_parsed_block, decode_transaction, extract_program_ids,
    get_block_body, is_transient, reply_error, RawBlock, RawInstruction, RawLoadedAddresses,
    RawMessage, RawMeta, RawTokenBalance, RawTransaction, RawTxWithMeta, RawUiTokenAmount,
    RpcError,
};

fn keys(strs: &[&str]) -> Vec<String> {
    strs.iter().map(|s| s.to_string()).collect()
}

fn balance(account_index: u32, mint: &str, amount: &str) -> RawTokenBalance {
    RawTokenBalance {
        account_index,
        mint: mint.to_string(),
        ui_token_amount: RawUiTokenAmount { amount: amount.to_string(), decimals: 6 },
    }
}

fn ix(program_id_index: u8) -> RawInstruction {
    RawInstruction { program_id_index }
}

fn raw_tx(meta: Option<RawMeta>) -> RawTxWithMeta {
    RawTxWithMeta {
        transaction: RawTransaction {
            message: RawMessage {
                account_keys: keys(&["Payer", "Program"]),
                header: MessageHeader {
                    num_required_signatures: 1,
                    num_readonly_signed_accounts: 0,
                    num_readonly_unsigned_accounts: 1,
                },
                instructions: vec![ix(1), ix(3)],
            },
            signatures: keys(&["first", "second"]),
        },
        meta,
    }
}

fn parse(text: &str) -> serde_json::Value {
    serde_json::from_str(text).unwrap()
}

#[test]
fn program_ids_are_sorted_distinct_and_by_index() {
    let ids = extract_program_ids(
        &keys(&["zeta", "alpha"]),
        &keys(&["mid"]),
        &keys(&["beta"]),
        &[ix(0), ix(3), ix(1), ix(0), ix(2), ix(9)],
    );
    assert_eq!(ids, keys(&["alpha", "beta", "mid", "zeta"]));
    assert!(extract_program_ids(&[], &[], &[], &[ix(0)]).is_empty());
}

#[test]
fn token_deltas_match_by_account_and_keep_closed_accounts() {
    let pre = vec![balance(1, "M", "100"), balance(2, "N", "7"), balance(3, "C", "5")];
    let post = vec![balance(2, "N", "7"), balance(1, "M", "40"), balance(4, "O", "9")];
    let deltas = build_token_deltas(&pre, &post);
    let seen: Vec<(String, u64, u64)> =
        deltas.iter().map(|d| (d.mint.clone(), d.pre_amount, d.post_amount)).collect();
    assert_eq!(
        seen,
        vec![("M".to_string(), 100, 40), ("O".to_string(), 0, 9), ("C".to_string(), 5, 0)]
    );
    assert_eq!(deltas[0].decimals, 6);
}

#[test]
fn amounts_that_are_no_numbers_count_as_zero() {
    let pre = vec![balance(1, "M", "not a number"), balance(2, "N", "18446744073709551616")];
    let post = vec![balance(1, "M", "18446744073709551615"), balance(2, "N", "+3")];
    let deltas = build_token_deltas(&pre, &post);
    assert_eq!(deltas.len(), 2);
    assert_eq!((deltas[0].pre_amount, deltas[0].post_amount), (0, u64::MAX));
    assert_eq!((deltas[1].pre_amount, deltas[1].post_amount), (0, 3));
}

#[test]
fn a_transaction_decodes_with_its_loaded_accounts() {
    let meta = RawMeta {
        err: true,
        pre_token_balances: vec![balance(0, "M", "2")],
        post_token_balances: vec![balance(0, "M", "1")],
        loaded_addresses: Some(RawLoadedAddresses {
            writable: keys(&["W"]),
            readonly: keys(&["R"]),
        }),
    };
    let tx = decode_transaction(5, Some(77), &raw_tx(Some(meta)));
    assert_eq!(tx.signature, "first");
    assert_eq!(tx.slot, 5);
    assert_eq!(tx.block_time, Some(77));
    assert!(tx.failed);
    assert_eq!(tx.program_ids, keys(&["Program", "R"]));
    let locks: Vec<(&str, bool)> =
        tx.locks.iter().map(|l| (l.account.as_str(), l.is_writable)).collect();
    assert_eq!(locks, vec![("Payer", true), ("W", true), ("Program", false), ("R", false)]);
    assert_eq!(tx.token_deltas.len(), 1);
}

#[test]
fn a_transaction_without_meta_decodes() {
    let mut raw = raw_tx(None);
    raw.transaction.signatures.clear();
    let tx = decode_transaction(5, None, &raw);
    assert_eq!(tx.signature, "");
    assert!(!tx.failed);
    assert!(tx.token_deltas.is_empty());
    assert_eq!(tx.locks.len(), 2);
    assert_eq!(tx.program_ids, keys(&["Program"]));
}

#[test]
fn a_block_keeps_every_transaction() {
    let raw = RawBlock { block_time: Some(9), transactions: vec![raw_tx(None), raw_tx(None)] };
    let block = decode_block(3, &raw);
    assert_eq!(block.slot, 3);
    assert_eq!(block.block_time, Some(9));
    assert_eq!(block.transactions.len(), 2);
    assert_eq!(block.transactions[1].block_time, Some(9));
}

#[test]
fn a_block_with_failures_and_balances_decodes_from_its_reply() {
    let meta = |err: bool, pre, post| {
        Some(RawMeta {
            err,
            pre_token_balances: pre,
            post_token_balances: post,
            loaded_addresses: None,
        })
    };
    let parsed = RawBlock {
        block_time: Some(1787237909),
        transactions: vec![
            raw_tx(meta(false, vec![], vec![])),
            raw_tx(meta(true, vec![], vec![])),
            raw_tx(meta(false, vec![balance(0, "M", "10")], vec![balance(0, "M", "4")])),
        ],
    };
    let reply = parse(r#"{"jsonrpc":"2.0","id":1,"result":{}}"#);
    let block = decode_get_block_json(440494625, &reply, Ok(Some(parsed))).unwrap();
    assert_eq!(block.block_time, Some(1787237909));
    assert_eq!(block.transactions.len(), 3);
    assert!(!block.transactions[0].failed);
    assert!(block.transactions[1].failed);
    assert!(!block.transactions[2].token_deltas.is_empty());
    assert!(!block.transactions[2].locks.is_empty());
}

#[test]
fn skipped_slot_message_is_skipped() {
    let reply = parse(
        r#"{"error":{"code":-32007,"message":"Slot 5 was skipped, or missing due to ledger jump to recent snapshot"}}"#,
    );
    assert_eq!(reply_error(&reply), Some(RpcError::SlotSkipped));
    assert_eq!(
        decode_get_block_json(5, &reply, Ok(None)).unwrap_err(),
        RpcError::SlotSkipped
    );
}

#[test]
fn block_not_available_is_skipped() {
    assert_eq!(classify_error(Some("Block not available for slot 5")), RpcError::SlotSkipped);
}

#[test]
fn rate_limit_rpc_errors_are_transient() {
    for message in ["rate limit exceeded", "Rate limited", "429 Too Many Requests"] {
        let error = classify_error(Some(message));
        assert_eq!(error, RpcError::RpcReturnedError(message.to_string()));
        assert!(is_transient(&error));
    }
    assert!(!is_transient(&RpcError::RpcReturnedError("internal error".to_string())));
}

#[test]
fn only_transport_and_rate_limits_are_transient() {
    assert!(is_transient(&RpcError::Transport("reset".to_string())));
    assert!(!is_transient(&RpcError::SlotSkipped));
    assert!(!is_transient(&RpcError::UnexpectedShape("rate limit".to_string())));
}

#[test]
fn errors_read_as_they_are_reported() {
    assert_eq!(RpcError::Transport("x".to_string()).message(), "transport error: x");
    assert_eq!(
        RpcError::RpcReturnedError("x".to_string()).message(),
        "rpc returned an error: x"
    );
    assert_eq!(RpcError::SlotSkipped.message(), "slot was skipped by the leader");
    assert_eq!(
        RpcError::UnexpectedShape("x".to_string()).message(),
        "unexpected response shape: x"
    );
}

#[test]
fn an_error_without_a_message_reads_rpc_error() {
    for text in [r#"{"error":{}}"#, r#"{"error":null}"#, r#"{"error":{"message":7}}"#] {
        assert_eq!(
            reply_error(&parse(text)),
            Some(RpcError::RpcReturnedError("rpc error".to_string()))
        );
    }
    assert_eq!(reply_error(&parse(r#"{"result":1}"#)), None);
    assert_eq!(reply_error(&parse("[1]")), None);
}

#[test]
fn an_error_decides_before_a_block() {
    let reply = parse(r#"{"error":{"message":"boom"},"result":null}"#);
    let parsed = Ok(Some(RawBlock { block_time: None, transactions: vec![] }));
    assert_eq!(
        decode_get_block_json(1, &reply, parsed).unwrap_err(),
        RpcError::RpcReturnedError("boom".to_string())
    );
}

#[test]
fn replies_without_a_block_have_the_wrong_shape() {
    let reply = parse(r#"{"result":null}"#);
    assert_eq!(
        decode_get_block_json(1, &reply, Ok(None)).unwrap_err(),
        RpcError::UnexpectedShape("missing result".to_string())
    );
    assert_eq!(
        decode_get_block_json(1, &reply, Err("bad field".to_string())).unwrap_err(),
        RpcError::UnexpectedShape("bad field".to_string())
    );
    let parsed = Ok(Some(RawBlock { block_time: Some(4), transactions: vec![raw_tx(None)] }));
    let block = decode_get_block_json(8, &reply, parsed).unwrap();
    assert_eq!((block.slot, block.block_time, block.transactions.len()), (8, Some(4), 1));
    assert!(decode_parsed_block(1, Ok(None)).is_err());
}

#[test]
fn the_slot_of_a_reply_is_read_or_shown() {
    assert_eq!(decode_get_slot_json(&parse(r#"{"result":440494625}"#)), Ok(440494625));
    assert_eq!(
        decode_get_slot_json(&parse(r#"{"result":"5"}"#)),
        Err(RpcError::UnexpectedShape(r#"getSlot: {"result":"5"}"#.to_string()))
    );
    assert_eq!(
        decode_get_slot_json(&parse(r#"{"result":-1}"#)),
        Err(RpcError::UnexpectedShape(r#"getSlot: {"result":-1}"#.to_string()))
    );
    assert_eq!(checked_slot(Some(3), "x"), Ok(3));
    assert_eq!(
        checked_slot(None, "x"),
        Err(RpcError::UnexpectedShape("getSlot: x".to_string()))
    );
}

#[test]
fn a_block_request_asks_for_full_json() {
    let request = get_block_body(12);
    assert_eq!(request.jsonrpc, "2.0");
    assert_eq!(request.id, 1);
    assert_eq!(request.method, "getBlock");
    assert_eq!(request.slot, 12);
    assert_eq!(request.encoding, "json");
    assert_eq!(request.max_supported_transaction_version, 0);
    assert_eq!(request.transaction_details, "full");
    assert!(!request.rewards);
}
