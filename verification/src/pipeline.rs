//! The ingest pipeline: what is parsed from a fetched block, when parsed blocks
//! are written, and the candles that are built from what was written.

use crate::block_fetch::{FetchOutcome, FetchView};
use crate::candle_windows::valid_prices;
use crate::candles::{
    bucketable, build_candles, is_bucketable, is_candles, law_ordinary_times_have_windows, mints_of,
    MintCandles, MintCandlesView,
};
use crate::contention::{
    build_schedule, comes_after, conflicts, is_depth, law_reports_are_the_locks_that_meet,
    law_schedule_is_unique, locks_conflict, stands_before, AccountLock, ScheduleResult, TxLocks,
    TxLocksView,
};
use crate::index::{first_seen, lemma_first_seen, lemma_first_seen_push, KeyIndex};
use crate::json::json_string_array;
use crate::ohlcv::{
    infer_trades, law_trades_have_two_sides, trades_of, InferredTrade, TokenDelta, TokenDeltaView,
    TradeView, TxSnapshot, TxSnapshotView, WSOL_MINT,
};
use crate::sequences::{are_indices, lemma_flat_map_at, lemma_flat_map_from};
use crate::storage::{
    schedule_ops, schedule_step_ops, slot_transactions, status_op, AccountLockRow,
    AccountLockView, BalanceChangeRow, SlotBatchRow, SlotBatchView, StoreOp, StoreOpView,
    TokenBalanceRow, TokenBalanceView, TransactionRow, TransactionView,
};
use crate::tables::{
    are_step_ops, distinct_slots, flushed, holds_slot, in_range, is_range_depth, last_step,
    law_batch_stores_its_slots, law_ingesting_again_changes_nothing, law_written_rows_are_as_given,
    lemma_signatures_distinct, lemma_step_ops, lemma_stored_slots_distinct, run_batch, run_ops, transaction_rows, Tables,
};
use crate::types::{
    DecodedBlock, DecodedBlockView, DecodedTransaction, DecodedTxView, SlotStatus,
};
use vstd::prelude::*;

verus! {

/// A block ready to be written.
pub struct ParsedBlock {
    pub slot: u64,
    pub block_time: Option<i64>,
    pub transactions: Vec<TransactionRow>,
    pub locks: Vec<AccountLockRow>,
    pub token_changes: Vec<TokenBalanceRow>,
    pub signatures: Vec<String>,
    pub schedule: ScheduleResult,
}

/// The content of a [`ParsedBlock`].
pub struct ParsedBlockView {
    pub slot: u64,
    pub block_time: Option<i64>,
    pub transactions: Seq<TransactionView>,
    pub locks: Seq<AccountLockView>,
    pub token_changes: Seq<TokenBalanceView>,
    pub signatures: Seq<Seq<char>>,
    pub schedule: ScheduleResult,
}

impl DeepView for ParsedBlock {
    type V = ParsedBlockView;

    open spec fn deep_view(&self) -> ParsedBlockView {
        ParsedBlockView {
            slot: self.slot,
            block_time: self.block_time,
            transactions: self.transactions.deep_view(),
            locks: self.locks.deep_view(),
            token_changes: self.token_changes.deep_view(),
            signatures: self.signatures.deep_view(),
            schedule: self.schedule,
        }
    }
}

/// The row of a transaction; its step is not known yet.
pub open spec fn transaction_row(tx: DecodedTxView) -> TransactionView {
    (tx.signature, tx.failed, tx.program_ids, None)
}

/// The rows of a transaction's locks.
pub open spec fn lock_rows_of() -> spec_fn(DecodedTxView) -> Seq<AccountLockView> {
    |tx: DecodedTxView|
        Seq::new(
            tx.locks.len(),
            |i: int| (tx.signature, tx.locks[i].account, tx.locks[i].is_writable),
        )
}

/// The rows of a transaction's balance changes: a failed one has none, since
/// it prices no trade.
pub open spec fn balance_rows_of() -> spec_fn(DecodedTxView) -> Seq<TokenBalanceView> {
    |tx: DecodedTxView|
        if tx.failed {
            Seq::empty()
        } else {
            Seq::new(
                tx.token_deltas.len(),
                |i: int|
                    (
                        tx.signature,
                        tx.token_deltas[i].mint,
                        tx.token_deltas[i].pre_amount,
                        tx.token_deltas[i].post_amount,
                        tx.token_deltas[i].decimals,
                    ),
            )
        }
}

/// What the scheduler sees of a transaction.
pub open spec fn tx_locks(tx: DecodedTxView) -> TxLocksView {
    TxLocksView { signature: tx.signature, program_ids: tx.program_ids, locks: tx.locks }
}

/// What the scheduler sees of a block.
pub open spec fn block_locks(block: DecodedBlockView) -> Seq<TxLocksView> {
    Seq::new(block.transactions.len(), |i: int| tx_locks(block.transactions[i]))
}

/// Whether this is what a block parses to: rows for all its transactions, and
/// its own schedule.
pub open spec fn is_parsed(parsed: ParsedBlockView, block: DecodedBlockView) -> bool {
    let txs = block.transactions;
    &&& parsed.slot == block.slot
    &&& parsed.block_time == block.block_time
    &&& parsed.transactions == Seq::new(txs.len(), |i: int| transaction_row(txs[i]))
    &&& parsed.locks == txs.flat_map(lock_rows_of())
    &&& parsed.token_changes == txs.flat_map(balance_rows_of())
    &&& parsed.signatures == Seq::new(txs.len(), |i: int| txs[i].signature)
    &&& parsed.schedule.describes(block_locks(block))
}

fn copy_texts(texts: &Vec<String>) -> (copy: Vec<String>)
    ensures
        copy.deep_view() == texts.deep_view(),
{
    let copy = texts.clone();
    assert(copy.deep_view() =~= texts.deep_view());
    copy
}

fn push_lock_rows(rows: &mut Vec<AccountLockRow>, tx: &DecodedTransaction)
    ensures
        final(rows).deep_view() == old(rows).deep_view() + lock_rows_of()(tx.deep_view()),
{
    let ghost before = rows.deep_view();
    let ghost own = lock_rows_of()(tx.deep_view());
    let mut i: usize = 0;
    assert(rows.deep_view() =~= before + own.take(0));
    while i < tx.locks.len()
        invariant
            i <= tx.locks@.len(),
            own == lock_rows_of()(tx.deep_view()),
            rows.deep_view() == before + own.take(i as int),
        decreases tx.locks@.len() - i,
    {
        let ghost prior = rows.deep_view();
        let lock = &tx.locks[i];
        let row: AccountLockRow = (tx.signature.clone(), lock.account.clone(), lock.is_writable);
        assert(row.deep_view() == own[i as int]) by {
            assert(tx.locks.deep_view()[i as int] == lock.deep_view());
        }
        rows.push(row);
        assert(rows.deep_view() =~= prior.push(row.deep_view()));
        assert(rows.deep_view() =~= before + own.take(i + 1));
        i += 1;
    }
    assert(own.take(i as int) =~= own);
}

fn push_balance_rows(rows: &mut Vec<TokenBalanceRow>, tx: &DecodedTransaction)
    ensures
        final(rows).deep_view() == old(rows).deep_view() + balance_rows_of()(tx.deep_view()),
{
    let ghost before = rows.deep_view();
    let ghost own = balance_rows_of()(tx.deep_view());
    if tx.failed {
        assert(before + own =~= before);
        return;
    }
    let mut i: usize = 0;
    assert(rows.deep_view() =~= before + own.take(0));
    while i < tx.token_deltas.len()
        invariant
            i <= tx.token_deltas@.len(),
            !tx.failed,
            own == balance_rows_of()(tx.deep_view()),
            rows.deep_view() == before + own.take(i as int),
        decreases tx.token_deltas@.len() - i,
    {
        let ghost prior = rows.deep_view();
        let delta = &tx.token_deltas[i];
        let row: TokenBalanceRow = (
            tx.signature.clone(),
            delta.mint.clone(),
            delta.pre_amount,
            delta.post_amount,
            delta.decimals,
        );
        assert(row.deep_view() == own[i as int]) by {
            assert(tx.token_deltas.deep_view()[i as int] == delta.deep_view());
        }
        rows.push(row);
        assert(rows.deep_view() =~= prior.push(row.deep_view()));
        assert(rows.deep_view() =~= before + own.take(i + 1));
        i += 1;
    }
    assert(own.take(i as int) =~= own);
}

fn locks_for_schedule(tx: &DecodedTransaction) -> (locks: TxLocks)
    ensures
        locks.deep_view() == tx_locks(tx.deep_view()),
{
    let ghost all = tx.locks.deep_view();
    let mut locks: Vec<AccountLock> = Vec::new();
    let mut i: usize = 0;
    assert(locks.deep_view() =~= all.take(0));
    while i < tx.locks.len()
        invariant
            i <= tx.locks@.len(),
            all == tx.locks.deep_view(),
            locks.deep_view() == all.take(i as int),
        decreases tx.locks@.len() - i,
    {
        let ghost before = locks.deep_view();
        let lock = AccountLock {
            account: tx.locks[i].account.clone(),
            is_writable: tx.locks[i].is_writable,
        };
        assert(lock.deep_view() == all[i as int]);
        locks.push(lock);
        assert(locks.deep_view() =~= before.push(lock.deep_view()));
        assert(locks.deep_view() =~= all.take(i + 1));
        i += 1;
    }
    assert(all.take(i as int) =~= all);
    TxLocks {
        signature: tx.signature.clone(),
        program_ids: copy_texts(&tx.program_ids),
        locks,
    }
}

/// Parses a block into rows and schedules it. Schedules do not cross blocks.
pub fn parse_block(block: DecodedBlock) -> (parsed: ParsedBlock)
    ensures
        is_parsed(parsed.deep_view(), block.deep_view()),
{
    let ghost txs = block.transactions.deep_view();
    let ghost all_rows = Seq::new(txs.len(), |i: int| transaction_row(txs[i]));
    let ghost all_signatures = Seq::new(txs.len(), |i: int| txs[i].signature);
    let ghost all_locks = block_locks(block.deep_view());
    let mut transactions: Vec<TransactionRow> = Vec::new();
    let mut locks: Vec<AccountLockRow> = Vec::new();
    let mut token_changes: Vec<TokenBalanceRow> = Vec::new();
    let mut signatures: Vec<String> = Vec::new();
    let mut schedule_locks: Vec<TxLocks> = Vec::new();
    let mut i: usize = 0;
    assert(transactions.deep_view() =~= all_rows.take(0));
    assert(signatures.deep_view() =~= all_signatures.take(0));
    assert(schedule_locks.deep_view() =~= all_locks.take(0));
    assert(locks.deep_view() =~= txs.take(0).flat_map(lock_rows_of()));
    assert(token_changes.deep_view() =~= txs.take(0).flat_map(balance_rows_of()));
    while i < block.transactions.len()
        invariant
            i <= block.transactions@.len(),
            txs == block.transactions.deep_view(),
            all_rows == Seq::new(txs.len(), |i: int| transaction_row(txs[i])),
            all_signatures == Seq::new(txs.len(), |i: int| txs[i].signature),
            all_locks == block_locks(block.deep_view()),
            transactions.deep_view() == all_rows.take(i as int),
            locks.deep_view() == txs.take(i as int).flat_map(lock_rows_of()),
            token_changes.deep_view() == txs.take(i as int).flat_map(balance_rows_of()),
            signatures.deep_view() == all_signatures.take(i as int),
            schedule_locks.deep_view() == all_locks.take(i as int),
        decreases block.transactions@.len() - i,
    {
        let tx = &block.transactions[i];
        assert(tx.deep_view() == txs[i as int]);
        proof {
            txs.lemma_flat_map_take_append(lock_rows_of(), i as int);
            txs.lemma_flat_map_take_append(balance_rows_of(), i as int);
        }
        let ghost rows_before = transactions.deep_view();
        let row: TransactionRow = (
            tx.signature.clone(),
            tx.failed,
            copy_texts(&tx.program_ids),
            None,
        );
        assert(row.deep_view() == all_rows[i as int]);
        transactions.push(row);
        assert(transactions.deep_view() =~= rows_before.push(row.deep_view()));
        assert(transactions.deep_view() =~= all_rows.take(i + 1));
        push_lock_rows(&mut locks, tx);
        push_balance_rows(&mut token_changes, tx);
        let ghost signatures_before = signatures.deep_view();
        signatures.push(tx.signature.clone());
        assert(signatures.deep_view() =~= signatures_before.push(tx.signature@));
        assert(signatures.deep_view() =~= all_signatures.take(i + 1));
        let ghost locks_before = schedule_locks.deep_view();
        let one = locks_for_schedule(tx);
        assert(one.deep_view() == all_locks[i as int]);
        schedule_locks.push(one);
        assert(schedule_locks.deep_view() =~= locks_before.push(one.deep_view()));
        assert(schedule_locks.deep_view() =~= all_locks.take(i + 1));
        i += 1;
    }
    assert(txs.take(i as int) =~= txs);
    assert(all_rows.take(i as int) =~= all_rows);
    assert(all_signatures.take(i as int) =~= all_signatures);
    assert(all_locks.take(i as int) =~= all_locks);
    let schedule = build_schedule(schedule_locks.as_slice());
    ParsedBlock {
        slot: block.slot,
        block_time: block.block_time,
        transactions,
        locks,
        token_changes,
        signatures,
        schedule,
    }
}

/// What became of a slot, parsed.
pub enum ParsedOutcome {
    Ingested(ParsedBlock),
    Skipped { slot: u64 },
    Failed { slot: u64, error: String },
}

/// The content of a [`ParsedOutcome`].
pub enum ParsedOutcomeView {
    Ingested(ParsedBlockView),
    Skipped { slot: u64 },
    Failed { slot: u64, error: Seq<char> },
}

impl ParsedOutcomeView {
    /// The slot that the outcome is about.
    pub open spec fn slot(self) -> u64 {
        match self {
            ParsedOutcomeView::Ingested(block) => block.slot,
            ParsedOutcomeView::Skipped { slot } => slot,
            ParsedOutcomeView::Failed { slot, .. } => slot,
        }
    }
}

impl DeepView for ParsedOutcome {
    type V = ParsedOutcomeView;

    open spec fn deep_view(&self) -> ParsedOutcomeView {
        match self {
            ParsedOutcome::Ingested(block) => ParsedOutcomeView::Ingested(block.deep_view()),
            ParsedOutcome::Skipped { slot } => ParsedOutcomeView::Skipped { slot: *slot },
            ParsedOutcome::Failed { slot, error } => ParsedOutcomeView::Failed {
                slot: *slot,
                error: error@,
            },
        }
    }
}

impl ParsedOutcome {
    /// The slot that the outcome is about.
    pub fn slot(&self) -> (slot: u64)
        ensures
            slot == self.deep_view().slot(),
    {
        match self {
            ParsedOutcome::Ingested(block) => block.slot,
            ParsedOutcome::Skipped { slot } => *slot,
            ParsedOutcome::Failed { slot, .. } => *slot,
        }
    }
}

/// Parses the outcome of a slot; only a fetched block has anything to parse.
pub fn parse_outcome(outcome: FetchOutcome) -> (parsed: ParsedOutcome)
    ensures
        match outcome.deep_view() {
            FetchView::Ingested(block) => parsed.deep_view() is Ingested && is_parsed(
                parsed.deep_view()->Ingested_0,
                block,
            ),
            FetchView::Skipped { slot } => parsed.deep_view() == (ParsedOutcomeView::Skipped {
                slot,
            }),
            FetchView::Failed { slot, error } => parsed.deep_view() == (ParsedOutcomeView::Failed {
                slot,
                error,
            }),
        },
        parsed.deep_view().slot() == outcome.deep_view().slot(),
{
    match outcome {
        FetchOutcome::Skipped { slot } => ParsedOutcome::Skipped { slot },
        FetchOutcome::Failed { slot, error } => ParsedOutcome::Failed { slot, error },
        FetchOutcome::Ingested(block) => ParsedOutcome::Ingested(parse_block(block)),
    }
}

/// The content of a [`BalanceChangeRow`].
pub type BalanceChangeView = (Seq<char>, u64, Option<i64>, Seq<char>, u64, u64, u8);

/// Whether a row has a block time.
pub open spec fn is_timed() -> spec_fn(BalanceChangeView) -> bool {
    |row: BalanceChangeView| row.2 is Some
}

/// Whether a row is of a transaction.
pub open spec fn of_signature(signature: Seq<char>) -> spec_fn(BalanceChangeView) -> bool {
    |row: BalanceChangeView| row.0 == signature
}

/// The balance change of a row.
pub open spec fn delta_of(row: BalanceChangeView) -> TokenDeltaView {
    TokenDeltaView { mint: row.3, pre_amount: row.4, post_amount: row.5, decimals: row.6 }
}

/// The signatures of rows.
pub open spec fn signatures_of(rows: Seq<BalanceChangeView>) -> Seq<Seq<char>> {
    Seq::new(rows.len(), |i: int| rows[i].0)
}

/// The snapshot of one transaction: its rows in order, at the time of the first.
pub open spec fn snapshot_of(timed: Seq<BalanceChangeView>, signature: Seq<char>) -> TxSnapshotView {
    let own = timed.filter(of_signature(signature));
    TxSnapshotView {
        signature,
        block_time: own[0].2->0,
        token_deltas: Seq::new(own.len(), |i: int| delta_of(own[i])),
    }
}

/// One snapshot for each transaction, in the order in which they first occur.
/// Rows without a block time are left out: a candle needs one.
pub open spec fn snapshots_of(rows: Seq<BalanceChangeView>) -> Seq<TxSnapshotView> {
    let timed = rows.filter(is_timed());
    let signatures = first_seen(signatures_of(timed));
    Seq::new(signatures.len(), |i: int| snapshot_of(timed, signatures[i]))
}

/// One more row changes the snapshot of its own transaction only.
proof fn lemma_snapshot_push(
    timed: Seq<BalanceChangeView>,
    row: BalanceChangeView,
    signature: Seq<char>,
)
    requires
        row.0 == signature ==> signatures_of(timed).contains(signature),
    ensures
        snapshot_of(timed.push(row), signature) == if row.0 == signature {
            TxSnapshotView {
                token_deltas: snapshot_of(timed, signature).token_deltas.push(delta_of(row)),
                ..snapshot_of(timed, signature)
            }
        } else {
            snapshot_of(timed, signature)
        },
{
    timed.lemma_filter_push(row, of_signature(signature));
    let own = timed.filter(of_signature(signature));
    if row.0 == signature {
        let k = choose|k: int| 0 <= k < timed.len() && signatures_of(timed)[k] == signature;
        timed.lemma_filter_contains(of_signature(signature), k);
        assert(own.len() > 0);
        assert(snapshot_of(timed.push(row), signature).token_deltas =~= snapshot_of(
            timed,
            signature,
        ).token_deltas.push(delta_of(row)));
    }
}

/// The first row of a transaction is its whole snapshot.
proof fn lemma_snapshot_first(timed: Seq<BalanceChangeView>, row: BalanceChangeView)
    requires
        !signatures_of(timed).contains(row.0),
        row.2 is Some,
    ensures
        snapshot_of(timed.push(row), row.0) == (TxSnapshotView {
            signature: row.0,
            block_time: row.2->0,
            token_deltas: seq![delta_of(row)],
        }),
{
    let pred = of_signature(row.0);
    timed.lemma_filter_push(row, pred);
    assert forall|k: int| 0 <= k < timed.len() implies !pred(#[trigger] timed[k]) by {
        assert(signatures_of(timed)[k] == timed[k].0);
    }
    timed.lemma_all_neg_filter_empty(pred);
    let own = timed.push(row).filter(pred);
    assert(own =~= seq![row]);
    assert(snapshot_of(timed.push(row), row.0).token_deltas =~= seq![delta_of(row)]);
}

/// Groups stored balance rows into one snapshot for each transaction.
pub fn snapshots_from_balance_rows(rows: Vec<BalanceChangeRow>) -> (snapshots: Vec<TxSnapshot>)
    ensures
        snapshots.deep_view() == snapshots_of(rows.deep_view()),
{
    let ghost all = rows.deep_view();
    let mut signatures = KeyIndex::new();
    let mut snapshots: Vec<TxSnapshot> = Vec::new();
    let mut i: usize = 0;
    assert(all.take(0).filter(is_timed()) =~= Seq::<BalanceChangeView>::empty()) by {
        reveal(Seq::filter);
    }
    assert(signatures_of(all.take(0).filter(is_timed())) =~= Seq::<Seq<char>>::empty());
    while i < rows.len()
        invariant
            i <= rows@.len(),
            all == rows.deep_view(),
            signatures.wf(),
            signatures@ == first_seen(signatures_of(all.take(i as int).filter(is_timed()))),
            snapshots@.len() == signatures@.len(),
            forall|p: int|
                0 <= p < snapshots@.len() ==> (#[trigger] snapshots@[p]).deep_view() == snapshot_of(
                    all.take(i as int).filter(is_timed()),
                    signatures@[p],
                ),
        decreases rows@.len() - i,
    {
        let row = &rows[i];
        let ghost rv = row.deep_view();
        let ghost timed = all.take(i as int).filter(is_timed());
        proof {
            assert(all.take(i + 1) =~= all.take(i as int).push(rv));
            all.take(i as int).lemma_filter_push(rv, is_timed());
        }
        if let Some(block_time) = row.2 {
            let ghost old_signatures = signatures@;
            let ghost old_snapshots = snapshots@;
            proof {
                assert(signatures_of(timed.push(rv)) =~= signatures_of(timed).push(rv.0));
                lemma_first_seen_push(signatures_of(timed), rv.0);
                lemma_first_seen(signatures_of(timed));
                signatures.lemma_no_duplicates();
            }
            let pos: usize = signatures.find_or_add(row.0.as_str());
            proof {
                signatures.lemma_no_duplicates();
            }
            let delta = TokenDelta {
                mint: row.3.clone(),
                pre_amount: row.4,
                post_amount: row.5,
                decimals: row.6,
            };
            assert(delta.deep_view() == delta_of(rv));
            if pos == snapshots.len() {
                let mut token_deltas: Vec<TokenDelta> = Vec::new();
                token_deltas.push(delta);
                assert(token_deltas.deep_view() =~= seq![delta_of(rv)]);
                snapshots.push(
                    TxSnapshot { signature: row.0.clone(), block_time, token_deltas },
                );
                proof {
                    assert(!old_signatures.contains(rv.0)) by {
                        if old_signatures.contains(rv.0) {
                            assert(signatures@ == old_signatures);
                        }
                    }
                    lemma_snapshot_first(timed, rv);
                }
            } else {
                let ghost before = snapshots@[pos as int].token_deltas.deep_view();
                snapshots[pos].token_deltas.push(delta);
                proof {
                    assert(snapshots@[pos as int].token_deltas.deep_view() =~= before.push(
                        delta_of(rv),
                    ));
                    assert(old_signatures.contains(rv.0)) by {
                        if !old_signatures.contains(rv.0) {
                            assert(old_signatures[pos as int] == signatures@[pos as int]);
                            assert(old_signatures.contains(old_signatures[pos as int]));
                        }
                    }
                    lemma_snapshot_push(timed, rv, rv.0);
                }
            }
            assert forall|p: int| 0 <= p < snapshots@.len() implies (
            #[trigger] snapshots@[p]).deep_view() == snapshot_of(
                timed.push(rv),
                signatures@[p],
            ) by {
                if p != pos {
                    assert(signatures@[p] != signatures@[pos as int]);
                    assert(signatures@[p] == old_signatures[p]);
                    assert(snapshots@[p] == old_snapshots[p]);
                    lemma_snapshot_push(timed, rv, signatures@[p]);
                } else {
                    assert(signatures@[p] == rv.0);
                }
            }
        }
        i += 1;
    }
    assert(all.take(i as int) =~= all);
    assert(snapshots.deep_view() =~= snapshots_of(all));
    snapshots
}

/// The trades of each snapshot.
pub open spec fn snapshot_trades() -> spec_fn(TxSnapshotView) -> Seq<TradeView> {
    |tx: TxSnapshotView| trades_of(tx)
}

/// The trades that stored balance rows come to.
pub open spec fn trades_from(rows: Seq<BalanceChangeView>) -> Seq<TradeView> {
    snapshots_of(rows).flat_map(snapshot_trades())
}

/// The candles of one interval.
pub struct IntervalCandles {
    pub interval_sec: i32,
    pub series: Vec<MintCandles>,
}

impl DeepView for IntervalCandles {
    type V = (i32, Seq<MintCandlesView>);

    open spec fn deep_view(&self) -> (i32, Seq<MintCandlesView>) {
        (self.interval_sec, self.series.deep_view())
    }
}

/// The candles of a range of slots.
pub struct CandleBuild {
    /// How many transactions were looked at.
    pub snapshots: usize,
    /// How many trades they came to.
    pub trades: usize,
    /// The candles of a minute and of five minutes.
    pub intervals: Vec<IntervalCandles>,
}

/// Whether windows of a minute and of five minutes can be computed of every
/// row's time.
pub open spec fn times_bucketable(rows: Seq<BalanceChangeView>) -> bool {
    forall|i: int|
        0 <= i < rows.len() && (#[trigger] rows[i]).2 is Some ==> bucketable(rows[i].2->0, 60)
            && bucketable(rows[i].2->0, 300)
}

/// Whether windows of a minute and of five minutes can be computed of every
/// row's time.
pub fn are_times_bucketable(rows: &[BalanceChangeRow]) -> (possible: bool)
    ensures
        possible == times_bucketable(rows.deep_view()),
{
    let ghost all = rows.deep_view();
    let mut i: usize = 0;
    while i < rows.len()
        invariant
            i <= rows@.len(),
            all == rows.deep_view(),
            forall|k: int|
                0 <= k < i && (#[trigger] all[k]).2 is Some ==> bucketable(all[k].2->0, 60)
                    && bucketable(all[k].2->0, 300),
        decreases rows@.len() - i,
    {
        assert(all[i as int] == rows@[i as int].deep_view());
        if let Some(time) = rows[i].2 {
            if !is_bucketable(time, 60) || !is_bucketable(time, 300) {
                return false;
            }
        }
        i += 1;
    }
    true
}

/// A snapshot's time is that of one of the rows.
proof fn lemma_snapshot_times(rows: Seq<BalanceChangeView>, p: int)
    requires
        times_bucketable(rows),
        0 <= p < snapshots_of(rows).len(),
    ensures
        bucketable(snapshots_of(rows)[p].block_time, 60),
        bucketable(snapshots_of(rows)[p].block_time, 300),
{
    let timed = rows.filter(is_timed());
    let signatures = first_seen(signatures_of(timed));
    let signature = signatures[p];
    let pred = of_signature(signature);
    lemma_first_seen(signatures_of(timed));
    assert(signatures.contains(signature));
    let k = choose|k: int| 0 <= k < timed.len() && signatures_of(timed)[k] == signature;
    timed.lemma_filter_contains(pred, k);
    let own = timed.filter(pred);
    assert(own.contains(own[0]));
    timed.lemma_filter_contains_rev(pred, own[0]);
    let m = choose|m: int| 0 <= m < timed.len() && timed[m] == own[0];
    rows.lemma_filter_pred(is_timed(), m);
    assert(timed.contains(timed[m]));
    rows.lemma_filter_contains_rev(is_timed(), timed[m]);
    let r = choose|r: int| 0 <= r < rows.len() && rows[r] == timed[m];
    assert(rows[r].2 is Some);
}

/// Builds the candles of a minute and of five minutes from stored balance rows.
pub fn candles_from_balance_rows(rows: Vec<BalanceChangeRow>) -> (built: CandleBuild)
    requires
        times_bucketable(rows.deep_view()),
    ensures
        built.snapshots == snapshots_of(rows.deep_view()).len(),
        built.trades == trades_from(rows.deep_view()).len(),
        built.intervals@.len() == 2,
        built.intervals@[0].interval_sec == 60,
        is_candles(
            built.intervals@[0].series.deep_view(),
            trades_from(rows.deep_view()),
            60,
        ),
        built.intervals@[1].interval_sec == 300,
        is_candles(
            built.intervals@[1].series.deep_view(),
            trades_from(rows.deep_view()),
            300,
        ),
{
    let ghost all = rows.deep_view();
    let ghost txs = snapshots_of(all);
    let snapshots = snapshots_from_balance_rows(rows);
    let mut trades: Vec<InferredTrade> = Vec::new();
    let mut i: usize = 0;
    assert(trades.deep_view() =~= txs.take(0).flat_map(snapshot_trades()));
    while i < snapshots.len()
        invariant
            i <= snapshots@.len(),
            snapshots.deep_view() == txs,
            txs == snapshots_of(all),
            times_bucketable(all),
            trades.deep_view() == txs.take(i as int).flat_map(snapshot_trades()),
            forall|k: int|
                0 <= k < trades@.len() ==> bucketable((#[trigger] trades@[k]).block_time, 60)
                    && bucketable(trades@[k].block_time, 300),
        decreases snapshots@.len() - i,
    {
        let ghost before = trades@;
        let ghost before_view = trades.deep_view();
        proof {
            assert(txs[i as int] == snapshots@[i as int].deep_view());
            txs.lemma_flat_map_take_append(snapshot_trades(), i as int);
            lemma_snapshot_times(all, i as int);
        }
        let mut own = infer_trades(&snapshots[i]);
        let ghost own_before = own@;
        let ghost own_view = own.deep_view();
        trades.append(&mut own);
        proof {
            assert(trades@ =~= before + own_before);
            assert(trades.deep_view() =~= before_view + own_view);
            assert forall|k: int| 0 <= k < trades@.len() implies bucketable(
                (#[trigger] trades@[k]).block_time,
                60,
            ) && bucketable(trades@[k].block_time, 300) by {
                if k < before.len() {
                    assert(trades@[k] == before[k]);
                } else {
                    let j = k - before.len();
                    assert(own_view[j] == own_before[j].deep_view());
                    law_trades_have_two_sides(txs[i as int], j);
                }
            }
        }
        i += 1;
    }
    assert(txs.take(i as int) =~= txs);
    let minute = build_candles(trades.as_slice(), 60);
    let five_minutes = build_candles(trades.as_slice(), 300);
    CandleBuild {
        snapshots: snapshots.len(),
        trades: trades.len(),
        intervals: vec![
            IntervalCandles { interval_sec: 60, series: minute },
            IntervalCandles { interval_sec: 300, series: five_minutes },
        ],
    }
}

/// What a batch of parsed blocks is written as: the rows of its slots, and
/// then the steps of their schedules.
pub struct FlushPlan {
    pub slots: Vec<SlotBatchRow>,
    pub steps: Vec<StoreOp>,
}

/// The rows of a block.
pub open spec fn slot_row(block: ParsedBlockView) -> SlotBatchView {
    (block.slot, block.block_time, block.transactions, block.locks, block.token_changes)
}

/// The rows of a batch.
pub open spec fn slot_rows(blocks: Seq<ParsedBlockView>) -> Seq<SlotBatchView> {
    Seq::new(blocks.len(), |i: int| slot_row(blocks[i]))
}

/// The writes of a block's schedule.
pub open spec fn block_step_ops() -> spec_fn(ParsedBlockView) -> Seq<StoreOpView> {
    |block: ParsedBlockView| schedule_ops(block.signatures, block.schedule.steps@)
}

/// The writes of a batch's schedules, block by block.
pub open spec fn step_ops(blocks: Seq<ParsedBlockView>) -> Seq<StoreOpView> {
    blocks.flat_map(block_step_ops())
}

/// Plans how a batch of parsed blocks is written.
pub fn plan_flush(blocks: Vec<ParsedBlock>) -> (plan: FlushPlan)
    ensures
        plan.slots.deep_view() == slot_rows(blocks.deep_view()),
        plan.steps.deep_view() == step_ops(blocks.deep_view()),
{
    let ghost all = blocks.deep_view();
    let ghost rows = slot_rows(all);
    let mut slots: Vec<SlotBatchRow> = Vec::new();
    let mut steps: Vec<StoreOp> = Vec::new();
    assert(slots.deep_view() =~= rows.take(0));
    assert(steps.deep_view() =~= all.take(0).flat_map(block_step_ops()));
    for block in it: blocks
        invariant
            it.seq() == blocks@,
            all == blocks.deep_view(),
            rows == slot_rows(all),
            slots.deep_view() == rows.take(it.index()),
            steps.deep_view() == all.take(it.index()).flat_map(block_step_ops()),
    {
        let ghost i = it.index();
        let ghost slots_before = slots.deep_view();
        let ghost steps_before = steps.deep_view();
        assert(block.deep_view() == all[i]);
        proof {
            all.lemma_flat_map_take_append(block_step_ops(), i);
        }
        let mut own = schedule_step_ops(block.signatures.as_slice(), &block.schedule);
        let ghost own_view = own.deep_view();
        steps.append(&mut own);
        assert(steps.deep_view() =~= steps_before + own_view);
        let row: SlotBatchRow = (
            block.slot,
            block.block_time,
            block.transactions,
            block.locks,
            block.token_changes,
        );
        assert(row.deep_view() == rows[i]);
        slots.push(row);
        assert(slots.deep_view() =~= slots_before.push(row.deep_view()));
        assert(slots.deep_view() =~= rows.take(i + 1));
    }
    assert(rows.take(all.len() as int) =~= rows);
    assert(all.take(all.len() as int) =~= all);
    FlushPlan { slots, steps }
}

/// Flushing a batch of distinct slots a second time succeeds and leaves the
/// tables as they are.
pub proof fn law_flush_is_idempotent(t: Tables, blocks: Seq<ParsedBlockView>)
    requires
        forall|i: int, j: int|
            0 <= i < j < blocks.len() ==> (#[trigger] blocks[i]).slot != (
            #[trigger] blocks[j]).slot,
        flushed(t, slot_rows(blocks), step_ops(blocks)) is Some,
    ensures
        ({
            let after = flushed(t, slot_rows(blocks), step_ops(blocks));
            flushed(after->0, slot_rows(blocks), step_ops(blocks)) == after
        }),
{
    let rows = slot_rows(blocks);
    assert forall|i: int, j: int| 0 <= i < j < rows.len() implies (#[trigger] rows[i]).0 != (
    #[trigger] rows[j]).0 by {
        assert(blocks[i].slot != blocks[j].slot);
    }
    lemma_step_ops_set_steps(blocks, blocks.len() as int);
    assert(blocks.take(blocks.len() as int) =~= blocks);
    law_ingesting_again_changes_nothing(t, rows, step_ops(blocks));
}

pub proof fn lemma_step_ops_set_steps(blocks: Seq<ParsedBlockView>, n: int)
    requires
        0 <= n <= blocks.len(),
    ensures
        are_step_ops(step_ops(blocks.take(n))),
    decreases n,
{
    if n > 0 {
        lemma_step_ops_set_steps(blocks, n - 1);
        blocks.lemma_flat_map_take_append(block_step_ops(), n - 1);
        let before = step_ops(blocks.take(n - 1));
        let own = block_step_ops()(blocks[n - 1]);
        assert forall|i: int| 0 <= i < step_ops(blocks.take(n)).len() implies #[trigger] step_ops(
            blocks.take(n),
        )[i] is SetStep by {
            if i < before.len() {
                assert(before[i] is SetStep);
            } else {
                assert(own[i - before.len()] is SetStep);
            }
        }
    } else {
        assert(step_ops(blocks.take(0)) =~= Seq::<StoreOpView>::empty());
    }
}

/// What an ingest has come to.
#[derive(Debug, Clone, Copy, PartialEq, Eq, Structural)]
pub struct Totals {
    pub ingested: u64,
    pub skipped: u64,
    pub failed: u64,
    /// Transactions in the ingested blocks.
    pub ingested_txs: u64,
}

impl Totals {
    /// The slots that were attempted.
    pub open spec fn attempted(self) -> int {
        self.ingested + self.skipped + self.failed
    }

    /// Whether another outcome can be counted.
    pub open spec fn can_count(self, outcome: ParsedOutcomeView) -> bool {
        match outcome {
            ParsedOutcomeView::Ingested(block) => self.ingested < u64::MAX && self.ingested_txs
                + block.transactions.len() <= u64::MAX,
            ParsedOutcomeView::Skipped { .. } => self.skipped < u64::MAX,
            ParsedOutcomeView::Failed { .. } => self.failed < u64::MAX,
        }
    }

    /// The totals with another outcome.
    pub open spec fn counting(self, outcome: ParsedOutcomeView) -> Totals {
        match outcome {
            ParsedOutcomeView::Ingested(block) => Totals {
                ingested: (self.ingested + 1) as u64,
                ingested_txs: (self.ingested_txs + block.transactions.len()) as u64,
                ..self
            },
            ParsedOutcomeView::Skipped { .. } => Totals {
                skipped: (self.skipped + 1) as u64,
                ..self
            },
            ParsedOutcomeView::Failed { .. } => Totals { failed: (self.failed + 1) as u64, ..self },
        }
    }
}

/// What the status of a slot is recorded as.
pub open spec fn status_of(outcome: ParsedOutcomeView) -> StoreOpView {
    match outcome {
        ParsedOutcomeView::Ingested(block) => StoreOpView::UpsertStatus {
            slot: block.slot as i64,
            status: SlotStatus::Ingested.text(),
            note: None,
        },
        ParsedOutcomeView::Skipped { slot } => StoreOpView::UpsertStatus {
            slot: slot as i64,
            status: SlotStatus::Skipped.text(),
            note: None,
        },
        ParsedOutcomeView::Failed { slot, error } => StoreOpView::UpsertStatus {
            slot: slot as i64,
            status: SlotStatus::Failed.text(),
            note: Some(error),
        },
    }
}

/// What a [`StoreStage`] stands for.
#[verifier::ext_equal]
pub struct StageView {
    /// Blocks that are not written yet.
    pub pending: Seq<ParsedBlockView>,
    pub totals: Totals,
    /// The pause that is still to be made, in seconds; zero for none.
    pub pause_secs: u64,
    pub batch_size: nat,
}

impl StageView {
    /// The stage once an outcome has arrived.
    pub open spec fn accepted(self, outcome: ParsedOutcomeView) -> StageView {
        StageView {
            pending: match outcome {
                ParsedOutcomeView::Ingested(block) => self.pending.push(block),
                _ => self.pending,
            },
            totals: self.totals.counting(outcome),
            ..self
        }
    }

    /// Whether the pending blocks are to be written now.
    pub open spec fn is_due(self) -> bool {
        self.pending.len() >= self.batch_size
    }

    /// The stage once the pending blocks were handed on.
    pub open spec fn drained(self) -> StageView {
        StageView { pending: Seq::empty(), ..self }
    }
}

/// The stage that records outcomes and collects blocks into batches.
pub struct StoreStage {
    pending: Vec<ParsedBlock>,
    totals: Totals,
    pause_secs: u64,
    batch_size: usize,
}

impl View for StoreStage {
    type V = StageView;

    closed spec fn view(&self) -> StageView {
        StageView {
            pending: self.pending.deep_view(),
            totals: self.totals,
            pause_secs: self.pause_secs,
            batch_size: self.batch_size as nat,
        }
    }
}

impl StoreStage {
    /// A stage that has seen nothing. It pauses once for `pause_secs` seconds,
    /// which lets the stages before it fill up.
    pub fn new(batch_size: usize, pause_secs: u64) -> (stage: Self)
        ensures
            stage@ == (StageView {
                pending: Seq::empty(),
                totals: Totals { ingested: 0, skipped: 0, failed: 0, ingested_txs: 0 },
                pause_secs,
                batch_size: batch_size as nat,
            }),
    {
        let stage = StoreStage {
            pending: Vec::new(),
            totals: Totals { ingested: 0, skipped: 0, failed: 0, ingested_txs: 0 },
            pause_secs,
            batch_size,
        };
        assert(stage.pending.deep_view() =~= Seq::<ParsedBlockView>::empty());
        stage
    }

    /// The pause to make before the next outcome is recorded, the first time.
    pub fn take_pause(&mut self) -> (secs: Option<u64>)
        ensures
            secs == if old(self)@.pause_secs > 0 {
                Some(old(self)@.pause_secs)
            } else {
                None::<u64>
            },
            final(self)@ == (StageView { pause_secs: 0, ..old(self)@ }),
    {
        let secs: u64 = self.pause_secs;
        self.pause_secs = 0;
        if secs > 0 {
            Some(secs)
        } else {
            None
        }
    }

    /// Whether another outcome can be counted.
    pub fn can_accept(&self, outcome: &ParsedOutcome) -> (possible: bool)
        ensures
            possible == self@.totals.can_count(outcome.deep_view()),
    {
        match outcome {
            ParsedOutcome::Ingested(block) => {
                let count: u64 = block.transactions.len() as u64;
                self.totals.ingested < u64::MAX && self.totals.ingested_txs <= u64::MAX - count
            },
            ParsedOutcome::Skipped { .. } => self.totals.skipped < u64::MAX,
            ParsedOutcome::Failed { .. } => self.totals.failed < u64::MAX,
        }
    }

    /// Takes in an outcome, and says how its status is recorded.
    pub fn accept(&mut self, outcome: ParsedOutcome) -> (status: StoreOp)
        requires
            old(self)@.totals.can_count(outcome.deep_view()),
        ensures
            status.deep_view() == status_of(outcome.deep_view()),
            final(self)@ == old(self)@.accepted(outcome.deep_view()),
    {
        match outcome {
            ParsedOutcome::Ingested(block) => {
                let ghost before = self.pending.deep_view();
                let slot: u64 = block.slot;
                let count: u64 = block.transactions.len() as u64;
                self.totals = Totals {
                    ingested: self.totals.ingested + 1,
                    skipped: self.totals.skipped,
                    failed: self.totals.failed,
                    ingested_txs: self.totals.ingested_txs + count,
                };
                self.pending.push(block);
                assert(self.pending.deep_view() =~= before.push(block.deep_view()));
                status_op(slot, SlotStatus::Ingested, None)
            },
            ParsedOutcome::Skipped { slot } => {
                self.totals = Totals {
                    ingested: self.totals.ingested,
                    skipped: self.totals.skipped + 1,
                    failed: self.totals.failed,
                    ingested_txs: self.totals.ingested_txs,
                };
                status_op(slot, SlotStatus::Skipped, None)
            },
            ParsedOutcome::Failed { slot, error } => {
                self.totals = Totals {
                    ingested: self.totals.ingested,
                    skipped: self.totals.skipped,
                    failed: self.totals.failed + 1,
                    ingested_txs: self.totals.ingested_txs,
                };
                status_op(slot, SlotStatus::Failed, Some(error))
            },
        }
    }

    /// Hands out the pending blocks, if there are enough for a batch.
    pub fn take_batch(&mut self) -> (batch: Option<Vec<ParsedBlock>>)
        ensures
            match batch {
                Some(blocks) => {
                    &&& old(self)@.is_due()
                    &&& blocks.deep_view() == old(self)@.pending
                    &&& final(self)@ == old(self)@.drained()
                },
                None => !old(self)@.is_due() && final(self)@ == old(self)@,
            },
    {
        if self.pending.len() >= self.batch_size {
            let mut batch: Vec<ParsedBlock> = Vec::new();
            assert(batch.deep_view() =~= Seq::<ParsedBlockView>::empty());
            std::mem::swap(&mut batch, &mut self.pending);
            Some(batch)
        } else {
            None
        }
    }

    /// What the ingest has come to so far.
    pub fn totals(&self) -> (totals: Totals)
        ensures
            totals == self@.totals,
    {
        self.totals
    }

    /// Ends the stage: the blocks that are left to be written, if any.
    pub fn finish(self) -> (rest: Option<Vec<ParsedBlock>>)
        ensures
            match rest {
                Some(blocks) => self@.pending.len() > 0 && blocks.deep_view() == self@.pending,
                None => self@.pending.len() == 0,
            },
    {
        if self.pending.len() > 0 {
            Some(self.pending)
        } else {
            None
        }
    }
}

/// The blocks among outcomes.
pub open spec fn ingested_blocks(outcomes: Seq<ParsedOutcomeView>) -> Seq<ParsedBlockView>
    decreases outcomes.len(),
{
    if outcomes.len() == 0 {
        Seq::empty()
    } else {
        let before = ingested_blocks(outcomes.drop_last());
        match outcomes.last() {
            ParsedOutcomeView::Ingested(block) => before.push(block),
            _ => before,
        }
    }
}

/// The stage after outcomes, and the blocks that were handed out, batch by
/// batch: each outcome is accepted, and a batch that is due is taken.
pub open spec fn stage_run(stage: StageView, outcomes: Seq<ParsedOutcomeView>) -> (
    StageView,
    Seq<ParsedBlockView>,
)
    decreases outcomes.len(),
{
    if outcomes.len() == 0 {
        (stage, Seq::empty())
    } else {
        let (before, written) = stage_run(stage, outcomes.drop_last());
        let now = before.accepted(outcomes.last());
        if now.is_due() {
            (now.drained(), written + now.pending)
        } else {
            (now, written)
        }
    }
}

/// No block is lost, doubled or moved: what was handed out and what is pending
/// are the ingested blocks in their order. Every outcome is counted once.
pub proof fn law_stage_keeps_every_block(stage: StageView, outcomes: Seq<ParsedOutcomeView>)
    requires
        stage.pending.len() == 0,
        stage.totals == (Totals { ingested: 0, skipped: 0, failed: 0, ingested_txs: 0 }),
        forall|n: int|
            0 <= n < outcomes.len() ==> stage_run(stage, outcomes.take(n)).0.totals.can_count(
                #[trigger] outcomes[n],
            ),
    ensures
        ({
            let (after, written) = stage_run(stage, outcomes);
            &&& written + after.pending == ingested_blocks(outcomes)
            &&& after.totals.attempted() == outcomes.len()
            &&& after.totals.ingested == ingested_blocks(outcomes).len()
            &&& after.batch_size == stage.batch_size
            &&& stage.batch_size > 0 ==> after.pending.len() < stage.batch_size
        }),
    decreases outcomes.len(),
{
    let (after, written) = stage_run(stage, outcomes);
    if outcomes.len() == 0 {
        assert(written + after.pending =~= ingested_blocks(outcomes));
    } else {
        let d = outcomes.drop_last();
        assert forall|n: int| 0 <= n < d.len() implies stage_run(
            stage,
            d.take(n),
        ).0.totals.can_count(#[trigger] d[n]) by {
            assert(d.take(n) =~= outcomes.take(n));
            assert(d[n] == outcomes[n]);
        }
        law_stage_keeps_every_block(stage, d);
        assert(outcomes.take(outcomes.len() - 1) =~= d);
        assert(outcomes[outcomes.len() - 1] == outcomes.last());
        let (before, done) = stage_run(stage, d);
        assert(before.totals.can_count(outcomes.last()));
        assert(written + after.pending =~= ingested_blocks(outcomes));
    }
}

/// The last slot of a range, which has at least its first slot.
pub fn range_end(start_slot: u64, count: u64) -> (end: u64)
    ensures
        end == if count == 0 {
            start_slot as int
        } else if start_slot + count - 1 > u64::MAX {
            u64::MAX as int
        } else {
            start_slot + count - 1
        },
{
    start_slot.saturating_add(count.saturating_sub(1))
}

/// Whether a balance row is of change `j` of transaction `k`.
pub open spec fn is_balance_row(
    txs: Seq<DecodedTxView>,
    k: int,
    j: int,
    row: TokenBalanceView,
) -> bool {
    &&& 0 <= k < txs.len()
    &&& 0 <= j < txs[k].token_deltas.len()
    &&& row == (
        txs[k].signature,
        txs[k].token_deltas[j].mint,
        txs[k].token_deltas[j].pre_amount,
        txs[k].token_deltas[j].post_amount,
        txs[k].token_deltas[j].decimals,
    )
}

/// Failed transactions price nothing: every balance row of a block is of a
/// transaction that succeeded.
pub proof fn law_failed_transactions_have_no_balance_rows(txs: Seq<DecodedTxView>, p: int)
    requires
        0 <= p < txs.flat_map(balance_rows_of()).len(),
    ensures
        exists|k: int, j: int| #[trigger]
            is_balance_row(txs, k, j, txs.flat_map(balance_rows_of())[p]) && !txs[k].failed,
{
    let (k, j) = lemma_flat_map_from(txs, balance_rows_of(), p);
    assert(is_balance_row(txs, k, j, txs.flat_map(balance_rows_of())[p]));
}

/// Failed transactions count for contention: a block's schedule is the same
/// whichever of its transactions failed.
pub proof fn law_failure_does_not_change_the_schedule(
    a: DecodedBlockView,
    b: DecodedBlockView,
    first: ParsedBlockView,
    second: ParsedBlockView,
)
    requires
        is_parsed(first, a),
        is_parsed(second, b),
        a.transactions.len() == b.transactions.len(),
        forall|i: int|
            0 <= i < a.transactions.len() ==> (DecodedTxView {
                failed: true,
                ..(#[trigger] a.transactions[i])
            }) == (DecodedTxView { failed: true, ..b.transactions[i] }),
    ensures
        first.schedule.steps@ == second.schedule.steps@,
        first.schedule.depth == second.schedule.depth,
{
    assert(block_locks(a) =~= block_locks(b)) by {
        assert forall|i: int| 0 <= i < a.transactions.len() implies block_locks(a)[i]
            == block_locks(b)[i] by {
            let x = a.transactions[i];
            let y = b.transactions[i];
            assert((DecodedTxView { failed: true, ..x }) == (DecodedTxView { failed: true, ..y }));
        }
    }
    law_schedule_is_unique(
        block_locks(a),
        first.schedule.steps@,
        second.schedule.steps@,
    );
}

/// Wrapped SOL is what prices are quoted in, so it has no candles of its own.
pub proof fn law_quote_mint_has_no_candles(
    rows: Seq<BalanceChangeView>,
    series: Seq<MintCandlesView>,
    interval: i64,
    m: int,
)
    requires
        is_candles(series, trades_from(rows), interval),
        0 <= m < series.len(),
    ensures
        series[m].mint != WSOL_MINT@,
{
    let trades = trades_from(rows);
    lemma_first_seen(mints_of(trades));
    let mints = first_seen(mints_of(trades));
    assert(series[m].mint == mints[m]);
    assert(mints.contains(mints[m]));
    let k = choose|k: int| 0 <= k < trades.len() && mints_of(trades)[k] == mints[m];
    let (i, j) = lemma_flat_map_from(snapshots_of(rows), snapshot_trades(), k);
    law_trades_have_two_sides(snapshots_of(rows)[i], j);
}

/// Every price that is inferred from stored balance rows is for some tokens.
pub proof fn law_inferred_prices_are_valid(rows: Seq<BalanceChangeView>)
    ensures
        valid_prices(trades_from(rows)),
{
    assert forall|k: int| 0 <= k < trades_from(rows).len() implies (#[trigger] trades_from(
        rows,
    )[k]).price_in_sol.valid() by {
        let (i, j) = lemma_flat_map_from(snapshots_of(rows), snapshot_trades(), k);
        law_trades_have_two_sides(snapshots_of(rows)[i], j);
    }
}

/// Whether a block's signatures are those of its rows, and each has a step.
pub open spec fn is_scheduled(block: ParsedBlockView) -> bool {
    &&& block.signatures.len() == block.transactions.len()
    &&& block.schedule.steps@.len() == block.transactions.len()
    &&& forall|j: int|
        0 <= j < block.transactions.len() ==> block.signatures[j] == (
        #[trigger] block.transactions[j]).0
}

/// Every parsed block is scheduled.
pub proof fn law_parsed_blocks_are_scheduled(parsed: ParsedBlockView, block: DecodedBlockView)
    requires
        is_parsed(parsed, block),
    ensures
        is_scheduled(parsed),
{
}

proof fn lemma_last_step_joins(a: Seq<StoreOpView>, b: Seq<StoreOpView>, k: Seq<char>)
    ensures
        last_step(a + b, k) == if last_step(b, k) is Some {
            last_step(b, k)
        } else {
            last_step(a, k)
        },
    decreases b.len(),
{
    if b.len() == 0 {
        assert(a + b =~= a);
    } else {
        lemma_last_step_joins(a, b.drop_last(), k);
        assert((a + b).drop_last() =~= a + b.drop_last());
        assert((a + b).last() == b.last());
    }
}

/// The step that a schedule's writes leave for a signature.
proof fn lemma_schedule_last_step(
    signatures: Seq<Seq<char>>,
    steps: Seq<usize>,
    n: int,
    k: Seq<char>,
)
    requires
        signatures.len() == steps.len(),
        0 <= n <= steps.len(),
        forall|i: int, j: int|
            0 <= i < j < signatures.len() ==> #[trigger] signatures[i] != #[trigger] signatures[j],
    ensures
        forall|j: int|
            0 <= j < n && #[trigger] signatures[j] == k ==> last_step(
                schedule_ops(signatures, steps).take(n),
                k,
            ) == Some(steps[j] as i32),
        (forall|j: int| 0 <= j < n ==> #[trigger] signatures[j] != k) ==> last_step(
            schedule_ops(signatures, steps).take(n),
            k,
        ) is None,
    decreases n,
{
    let ops = schedule_ops(signatures, steps);
    if n > 0 {
        lemma_schedule_last_step(signatures, steps, n - 1, k);
        assert(ops.take(n).drop_last() =~= ops.take(n - 1));
        assert(ops.take(n).last() == ops[n - 1]);
        assert(signatures[n - 1] == signatures[n - 1]);
    }
}

/// The signatures of a written batch are all different.
proof fn lemma_batch_signatures_distinct(
    after: Tables,
    blocks: Seq<ParsedBlockView>,
    a: int,
    i: int,
    b: int,
    j: int,
)
    requires
        distinct_slots(slot_rows(blocks)),
        forall|n: int| 0 <= n < blocks.len() ==> is_scheduled(#[trigger] blocks[n]),
        forall|n: int|
            0 <= n < blocks.len() ==> holds_slot(after, #[trigger] slot_rows(blocks)[n]),
        0 <= a < blocks.len(),
        0 <= b < blocks.len(),
        0 <= i < blocks[a].signatures.len(),
        0 <= j < blocks[b].signatures.len(),
        a != b || i != j,
    ensures
        blocks[a].signatures[i] != blocks[b].signatures[j],
{
    let rows = slot_rows(blocks);
    let ra = slot_transactions(rows[a]);
    let rb = slot_transactions(rows[b]);
    assert(is_scheduled(blocks[a]) && is_scheduled(blocks[b]));
    assert(blocks[a].transactions[i].0 == ra[i].0);
    assert(blocks[b].transactions[j].0 == rb[j].0);
    assert(holds_slot(after, rows[a]) && holds_slot(after, rows[b]));
    if a == b {
        lemma_signatures_distinct(after, rows[a]);
        if i < j {
            assert(ra[i].0 != ra[j].0);
        } else {
            assert(ra[j].0 != ra[i].0);
        }
    } else {
        if a < b {
            assert(rows[a].0 != rows[b].0);
        } else {
            assert(rows[b].0 != rows[a].0);
        }
        lemma_stored_slots_distinct(rows[a].0, rows[b].0);
        assert(transaction_rows(ra)[i].0 == ra[i].0);
        assert(transaction_rows(rb)[j].0 == rb[j].0);
    }
}

proof fn lemma_flushed_step(
    after: Tables,
    blocks: Seq<ParsedBlockView>,
    n: int,
    i: int,
    j: int,
)
    requires
        distinct_slots(slot_rows(blocks)),
        forall|n: int| 0 <= n < blocks.len() ==> is_scheduled(#[trigger] blocks[n]),
        forall|n: int|
            0 <= n < blocks.len() ==> holds_slot(after, #[trigger] slot_rows(blocks)[n]),
        0 <= i < n <= blocks.len(),
        0 <= j < blocks[i].signatures.len(),
    ensures
        last_step(step_ops(blocks.take(n)), blocks[i].signatures[j]) == Some(
            blocks[i].schedule.steps@[j] as i32,
        ),
    decreases n,
{
    let k = blocks[i].signatures[j];
    let last = blocks[n - 1];
    let own = schedule_ops(last.signatures, last.schedule.steps@);
    assert(is_scheduled(last) && is_scheduled(blocks[i]));
    blocks.lemma_flat_map_take_append(block_step_ops(), n - 1);
    lemma_last_step_joins(step_ops(blocks.take(n - 1)), own, k);
    assert forall|x: int, y: int| 0 <= x < y < last.signatures.len() implies #[trigger] last.signatures[x]
        != #[trigger] last.signatures[y] by {
        lemma_batch_signatures_distinct(after, blocks, n - 1, x, n - 1, y);
    }
    lemma_schedule_last_step(
        last.signatures,
        last.schedule.steps@,
        last.signatures.len() as int,
        k,
    );
    assert(own.take(own.len() as int) =~= own);
    if i == n - 1 {
        assert(last.signatures[j] == k);
    } else {
        assert forall|y: int| 0 <= y < last.signatures.len() implies #[trigger] last.signatures[y]
            != k by {
            lemma_batch_signatures_distinct(after, blocks, n - 1, y, i, j);
        }
        lemma_flushed_step(after, blocks, n - 1, i, j);
    }
}

/// A flush stores the step of every transaction.
pub proof fn law_flush_stores_every_step(
    t: Tables,
    blocks: Seq<ParsedBlockView>,
    i: int,
    j: int,
)
    requires
        distinct_slots(slot_rows(blocks)),
        forall|n: int| 0 <= n < blocks.len() ==> is_scheduled(#[trigger] blocks[n]),
        flushed(t, slot_rows(blocks), step_ops(blocks)) is Some,
        0 <= i < blocks.len(),
        0 <= j < blocks[i].signatures.len(),
    ensures
        ({
            let after = flushed(t, slot_rows(blocks), step_ops(blocks))->0;
            let signature = blocks[i].signatures[j];
            &&& after.transactions.contains_key(signature)
            &&& after.transactions[signature].0 == blocks[i].slot as i64
            &&& after.steps.contains_key(signature)
            &&& after.steps[signature] == blocks[i].schedule.steps@[j] as i32
        }),
{
    let rows = slot_rows(blocks);
    let written = run_batch(t, rows)->0;
    let signature = blocks[i].signatures[j];
    assert forall|n: int| 0 <= n < blocks.len() implies holds_slot(
        written,
        #[trigger] slot_rows(blocks)[n],
    ) by {
        law_batch_stores_its_slots(t, rows, n);
    }
    lemma_flushed_step(written, blocks, blocks.len() as int, i, j);
    assert(blocks.take(blocks.len() as int) =~= blocks);
    lemma_step_ops_set_steps(blocks, blocks.len() as int);
    lemma_step_ops(written, step_ops(blocks));
    let after = run_ops(written, step_ops(blocks))->0;
    assert(holds_slot(written, rows[i]));
    assert(is_scheduled(blocks[i]));
    assert(blocks[i].transactions[j].0 == signature);
    let own = transaction_rows(slot_transactions(rows[i]));
    assert(own[j].0 == signature);
    assert(after.steps.get(signature) == Some(blocks[i].schedule.steps@[j] as i32));
}

/// The depth that is read back for a slot is the depth of its schedule.
pub proof fn law_stored_depth_is_the_schedules(
    t: Tables,
    blocks: Seq<ParsedBlockView>,
    i: int,
)
    requires
        distinct_slots(slot_rows(blocks)),
        forall|n: int| 0 <= n < blocks.len() ==> is_scheduled(#[trigger] blocks[n]),
        flushed(t, slot_rows(blocks), step_ops(blocks)) is Some,
        0 <= i < blocks.len(),
        is_depth(blocks[i].schedule.steps@, blocks[i].schedule.depth),
        blocks[i].schedule.depth <= i32::MAX,
    ensures
        is_range_depth(
            flushed(t, slot_rows(blocks), step_ops(blocks))->0,
            blocks[i].slot as i64,
            blocks[i].slot as i64,
            blocks[i].schedule.depth as int,
        ),
{
    let rows = slot_rows(blocks);
    let written = run_batch(t, rows)->0;
    let after = flushed(t, rows, step_ops(blocks))->0;
    let slot = blocks[i].slot as i64;
    let block = blocks[i];
    let steps = block.schedule.steps@;
    let depth = block.schedule.depth;
    law_batch_stores_its_slots(t, rows, i);
    lemma_step_ops_set_steps(blocks, blocks.len() as int);
    assert(blocks.take(blocks.len() as int) =~= blocks);
    lemma_step_ops(written, step_ops(blocks));
    assert(is_scheduled(block));
    let own = transaction_rows(slot_transactions(rows[i]));
    assert forall|k: Seq<char>|
        in_range(after, slot, slot, k) && #[trigger] after.steps.contains_key(
            k,
        ) implies after.steps[k] < depth by {
        assert(written.transactions.contains_key(k) && written.transactions[k].0 == slot);
        let j = choose|j: int| 0 <= j < own.len() && (#[trigger] own[j]).0 == k;
        assert(block.transactions[j].0 == k);
        law_flush_stores_every_step(t, blocks, i, j);
        assert(steps[j] < depth);
    }
    if depth > 0 {
        let j = choose|j: int| 0 <= j < steps.len() && #[trigger] steps[j] + 1 == depth;
        law_flush_stores_every_step(t, blocks, i, j);
        let k = block.signatures[j];
        assert(in_range(after, slot, slot, k));
        assert(after.steps.contains_key(k) && after.steps[k] + 1 == depth);
    }
}

/// How many balance changes the transactions that succeeded have.
pub open spec fn priced_changes(txs: Seq<DecodedTxView>) -> nat
    decreases txs.len(),
{
    if txs.len() == 0 {
        0
    } else if txs.last().failed {
        priced_changes(txs.drop_last())
    } else {
        priced_changes(txs.drop_last()) + txs.last().token_deltas.len()
    }
}

proof fn lemma_priced_changes(txs: Seq<DecodedTxView>, n: int)
    requires
        0 <= n <= txs.len(),
    ensures
        txs.take(n).flat_map(balance_rows_of()).len() == priced_changes(txs.take(n)),
    decreases n,
{
    if n == 0 {
        assert(txs.take(0) =~= Seq::<DecodedTxView>::empty());
        assert(txs.take(0).flat_map(balance_rows_of()) =~= Seq::<TokenBalanceView>::empty());
    } else {
        lemma_priced_changes(txs, n - 1);
        txs.lemma_flat_map_take_append(balance_rows_of(), n - 1);
        assert(txs.take(n).drop_last() =~= txs.take(n - 1));
    }
}

/// Every balance change of a transaction that succeeded has its row, in the
/// order of the block, and there are no other rows.
pub proof fn law_every_balance_change_has_its_row(
    parsed: ParsedBlockView,
    block: DecodedBlockView,
    k: int,
    j: int,
)
    requires
        is_parsed(parsed, block),
    ensures
        parsed.token_changes.len() == priced_changes(block.transactions),
        0 <= k < block.transactions.len() && !block.transactions[k].failed && 0 <= j
            < block.transactions[k].token_deltas.len() ==> {
            let at = priced_changes(block.transactions.take(k)) + j;
            let (tx, row) = (block.transactions[k], parsed.token_changes[at]);
            &&& at < parsed.token_changes.len()
            &&& row.0 == tx.signature
            &&& row.1 == tx.token_deltas[j].mint
            &&& row.2 == tx.token_deltas[j].pre_amount
            &&& row.3 == tx.token_deltas[j].post_amount
            &&& row.4 == tx.token_deltas[j].decimals
        },
{
    let txs = block.transactions;
    lemma_priced_changes(txs, txs.len() as int);
    assert(txs.take(txs.len() as int) =~= txs);
    if 0 <= k < txs.len() && !txs[k].failed && 0 <= j < txs[k].token_deltas.len() {
        lemma_priced_changes(txs, k);
        lemma_flat_map_at(txs, balance_rows_of(), k, j);
    }
}

/// How many locks transactions have.
pub open spec fn lock_count(txs: Seq<DecodedTxView>) -> nat
    decreases txs.len(),
{
    if txs.len() == 0 {
        0
    } else {
        lock_count(txs.drop_last()) + txs.last().locks.len()
    }
}

proof fn lemma_lock_count(txs: Seq<DecodedTxView>, n: int)
    requires
        0 <= n <= txs.len(),
    ensures
        txs.take(n).flat_map(lock_rows_of()).len() == lock_count(txs.take(n)),
    decreases n,
{
    if n == 0 {
        assert(txs.take(0) =~= Seq::<DecodedTxView>::empty());
        assert(txs.take(0).flat_map(lock_rows_of()) =~= Seq::<AccountLockView>::empty());
    } else {
        lemma_lock_count(txs, n - 1);
        txs.lemma_flat_map_take_append(lock_rows_of(), n - 1);
        assert(txs.take(n).drop_last() =~= txs.take(n - 1));
    }
}

/// Every lock of every transaction, failed or not, has its row with its account
/// and its kind, in the order of the block, and there are no other rows.
pub proof fn law_every_lock_has_its_row(
    parsed: ParsedBlockView,
    block: DecodedBlockView,
    k: int,
    j: int,
)
    requires
        is_parsed(parsed, block),
    ensures
        parsed.locks.len() == lock_count(block.transactions),
        0 <= k < block.transactions.len() && 0 <= j < block.transactions[k].locks.len() ==> {
            let at = lock_count(block.transactions.take(k)) + j;
            let (tx, row) = (block.transactions[k], parsed.locks[at]);
            &&& at < parsed.locks.len()
            &&& row.0 == tx.signature
            &&& row.1 == tx.locks[j].account
            &&& row.2 == tx.locks[j].is_writable
        },
{
    let txs = block.transactions;
    lemma_lock_count(txs, txs.len() as int);
    assert(txs.take(txs.len() as int) =~= txs);
    if 0 <= k < txs.len() && 0 <= j < txs[k].locks.len() {
        lemma_lock_count(txs, k);
        lemma_flat_map_at(txs, lock_rows_of(), k, j);
    }
}

/// Every transaction of a block, failed or not, has its row in its place: its
/// signature, whether it failed and its programs, with no step yet.
pub proof fn law_every_transaction_has_its_row(
    parsed: ParsedBlockView,
    block: DecodedBlockView,
    k: int,
)
    requires
        is_parsed(parsed, block),
    ensures
        parsed.slot == block.slot,
        parsed.block_time == block.block_time,
        parsed.transactions.len() == block.transactions.len(),
        parsed.signatures.len() == block.transactions.len(),
        parsed.schedule.steps@.len() == block.transactions.len(),
        0 <= k < block.transactions.len() ==> {
            let (tx, row) = (block.transactions[k], parsed.transactions[k]);
            &&& row.0 == tx.signature
            &&& row.1 == tx.failed
            &&& row.2 == tx.program_ids
            &&& row.3 is None
            &&& parsed.signatures[k] == tx.signature
        },
{
}

/// The schedule of a block is that of its own locks: of two transactions with a
/// lock on one account, of which one writes, the later runs later, and none
/// runs later than that makes it.
pub proof fn law_parsed_schedule_is_of_the_locks(
    parsed: ParsedBlockView,
    block: DecodedBlockView,
    j: int,
    m: int,
    i: int,
    k: int,
)
    requires
        is_parsed(parsed, block),
        0 <= j < i < block.transactions.len(),
        0 <= m < block.transactions[j].locks.len(),
        0 <= k < block.transactions[i].locks.len(),
        block.transactions[j].locks[m].account == block.transactions[i].locks[k].account,
        block.transactions[j].locks[m].is_writable || block.transactions[i].locks[k].is_writable,
    ensures
        parsed.schedule.steps@[j] < parsed.schedule.steps@[i],
{
    let locks = block_locks(block);
    assert(locks_conflict(locks[j].locks[m], locks[i].locks[k]));
    assert(conflicts(locks[j], locks[i]));
}

/// A transaction is not in the first step only where it shares an account with
/// one in the step before, and one of the two writes it.
pub proof fn law_parsed_schedule_is_tight(
    parsed: ParsedBlockView,
    block: DecodedBlockView,
    i: int,
) -> (shared: (int, int, int))
    requires
        is_parsed(parsed, block),
        0 <= i < block.transactions.len(),
        parsed.schedule.steps@[i] > 0,
    ensures
        ({
            let (j, m, k) = shared;
            &&& 0 <= j < i
            &&& 0 <= m < block.transactions[j].locks.len()
            &&& 0 <= k < block.transactions[i].locks.len()
            &&& block.transactions[j].locks[m].account == block.transactions[i].locks[k].account
            &&& block.transactions[j].locks[m].is_writable
                || block.transactions[i].locks[k].is_writable
            &&& parsed.schedule.steps@[j] + 1 == parsed.schedule.steps@[i]
        }),
{
    let locks = block_locks(block);
    let steps = parsed.schedule.steps@;
    let j = choose|j: int|
        0 <= j < i && #[trigger] conflicts(locks[j], locks[i]) && steps[j] + 1 == steps[i];
    let (m, k) = choose|m: int, k: int|
        0 <= m < locks[j].locks.len() && 0 <= k < locks[i].locks.len() && #[trigger] locks_conflict(
            locks[j].locks[m],
            locks[i].locks[k],
        );
    (j, m, k)
}

/// A flushed block is stored as it was parsed: its block row, its transactions
/// with the steps of its schedule, and its locks with their kinds.
pub proof fn law_flushed_blocks_are_as_parsed(t: Tables, blocks: Seq<ParsedBlockView>, n: int)
    requires
        distinct_slots(slot_rows(blocks)),
        forall|n: int| 0 <= n < blocks.len() ==> is_scheduled(#[trigger] blocks[n]),
        flushed(t, slot_rows(blocks), step_ops(blocks)) is Some,
        0 <= n < blocks.len(),
    ensures
        ({
            let after = flushed(t, slot_rows(blocks), step_ops(blocks))->0;
            let block = blocks[n];
            let slot = block.slot as i64;
            &&& after.blocks.get(slot) == Some((block.block_time, block.transactions.len() as i32))
            &&& forall|i: int|
                0 <= i < block.transactions.len() ==> after.transactions.get(
                    (#[trigger] block.transactions[i]).0,
                ) == Some(
                    (
                        slot,
                        (
                            block.block_time,
                            block.transactions[i].1,
                            json_string_array(block.transactions[i].2),
                        ),
                    ),
                ) && after.steps.get(block.transactions[i].0) == Some(
                    block.schedule.steps@[i] as i32,
                )
            &&& forall|i: int|
                0 <= i < block.locks.len() ==> after.locks.get(
                    ((#[trigger] block.locks[i]).0, block.locks[i].1),
                ) == Some((slot, block.locks[i].2))
        }),
{
    let rows = slot_rows(blocks);
    let written = run_batch(t, rows)->0;
    let block = blocks[n];
    law_written_rows_are_as_given(t, rows, n);
    assert(blocks.take(blocks.len() as int) =~= blocks);
    lemma_step_ops_set_steps(blocks, blocks.len() as int);
    lemma_step_ops(written, step_ops(blocks));
    let after = run_ops(written, step_ops(blocks))->0;
    assert(rows[n].2 == block.transactions && rows[n].3 == block.locks);
    assert forall|i: int| 0 <= i < block.transactions.len() implies after.transactions.get(
        (#[trigger] block.transactions[i]).0,
    ) == Some(
        (
            block.slot as i64,
            (
                block.block_time,
                block.transactions[i].1,
                json_string_array(block.transactions[i].2),
            ),
        ),
    ) && after.steps.get(block.transactions[i].0) == Some(block.schedule.steps@[i] as i32) by {
        assert(is_scheduled(block));
        assert(block.signatures[i] == block.transactions[i].0);
        law_flush_stores_every_step(t, blocks, n, i);
        assert(rows[n].2[i] == block.transactions[i]);
    }
}

/// Each outcome is counted under its own kind, with the transactions of its
/// block, and nothing else changes.
pub proof fn law_outcomes_are_counted(totals: Totals, outcome: ParsedOutcomeView)
    requires
        totals.can_count(outcome),
    ensures
        ({
            let now = totals.counting(outcome);
            &&& outcome matches ParsedOutcomeView::Ingested(block) ==> now.ingested
                == totals.ingested + 1 && now.ingested_txs == totals.ingested_txs
                + block.transactions.len() && now.skipped == totals.skipped && now.failed
                == totals.failed
            &&& outcome is Skipped ==> now.skipped == totals.skipped + 1 && now.ingested
                == totals.ingested && now.ingested_txs == totals.ingested_txs && now.failed
                == totals.failed
            &&& outcome is Failed ==> now.failed == totals.failed + 1 && now.ingested
                == totals.ingested && now.ingested_txs == totals.ingested_txs && now.skipped
                == totals.skipped
        }),
{
}

/// Totals can count on until a number would no longer fit.
pub proof fn law_totals_count_far(totals: Totals, outcome: ParsedOutcomeView)
    requires
        totals.ingested < u64::MAX,
        totals.skipped < u64::MAX,
        totals.failed < u64::MAX,
        outcome matches ParsedOutcomeView::Ingested(block) ==> totals.ingested_txs
            + block.transactions.len() <= u64::MAX,
    ensures
        totals.can_count(outcome),
{
}

/// Each outcome is recorded under its own slot and name, a failure with what
/// went wrong.
pub proof fn law_outcomes_are_recorded(outcome: ParsedOutcomeView)
    ensures
        outcome matches ParsedOutcomeView::Ingested(block) ==> status_of(outcome) == (
        StoreOpView::UpsertStatus { slot: block.slot as i64, status: "ingested"@, note: None }),
        outcome matches ParsedOutcomeView::Skipped { slot } ==> status_of(outcome) == (
        StoreOpView::UpsertStatus { slot: slot as i64, status: "skipped"@, note: None }),
        outcome matches ParsedOutcomeView::Failed { slot, error } ==> status_of(outcome) == (
        StoreOpView::UpsertStatus { slot: slot as i64, status: "failed"@, note: Some(error) }),
{
}

/// Blocks are handed out in whole batches: with a batch size, as many as a
/// multiple of it, so that fewer than a batch are ever pending.
pub proof fn law_batches_are_whole(stage: StageView, outcomes: Seq<ParsedOutcomeView>)
    requires
        stage.pending.len() == 0,
        stage.batch_size > 0,
    ensures
        ({
            let (after, written) = stage_run(stage, outcomes);
            &&& written.len() % stage.batch_size == 0
            &&& after.pending.len() < stage.batch_size
            &&& after.batch_size == stage.batch_size
            &&& after.pause_secs == stage.pause_secs
            &&& written + after.pending == ingested_blocks(outcomes)
        }),
    decreases outcomes.len(),
{
    let (after, written) = stage_run(stage, outcomes);
    let size = stage.batch_size as int;
    if outcomes.len() == 0 {
        assert(written + after.pending =~= ingested_blocks(outcomes));
    } else {
        law_batches_are_whole(stage, outcomes.drop_last());
        let (before, done) = stage_run(stage, outcomes.drop_last());
        let now = before.accepted(outcomes.last());
        assert(written + after.pending =~= ingested_blocks(outcomes));
        if now.is_due() {
            assert(now.pending.len() == size);
            let n = done.len() as int;
            vstd::arithmetic::div_mod::lemma_mod_add_multiples_vanish(n, size);
            assert(written.len() == n + size);
        }
    }
}

/// The blocks among outcomes are all of them, in order.
pub proof fn law_ingested_blocks_are_all(outcomes: Seq<ParsedOutcomeView>) -> (src: Seq<int>)
    ensures
        are_indices(src, outcomes.len() as int),
        src.len() == ingested_blocks(outcomes).len(),
        forall|t: int|
            0 <= t < src.len() ==> outcomes[#[trigger] src[t]] == ParsedOutcomeView::Ingested(
                ingested_blocks(outcomes)[t],
            ),
        forall|i: int|
            0 <= i < outcomes.len() && (#[trigger] outcomes[i]) is Ingested ==> src.contains(i),
    decreases outcomes.len(),
{
    if outcomes.len() == 0 {
        Seq::empty()
    } else {
        let d = outcomes.drop_last();
        let n = d.len() as int;
        let before = law_ingested_blocks_are_all(d);
        let src = if outcomes.last() is Ingested {
            before.push(n)
        } else {
            before
        };
        assert forall|t: int| 0 <= t < src.len() implies outcomes[#[trigger] src[t]]
            == ParsedOutcomeView::Ingested(ingested_blocks(outcomes)[t]) by {
            if t < before.len() {
                assert(src[t] == before[t]);
                assert(d[before[t]] == outcomes[before[t]]);
            }
        }
        assert forall|i: int|
            0 <= i < outcomes.len() && (#[trigger] outcomes[i]) is Ingested implies src.contains(
            i,
        ) by {
            if i < n {
                assert(d[i] == outcomes[i]);
                assert(before.contains(i));
                let t = choose|t: int| 0 <= t < before.len() && before[t] == i;
                assert(src[t] == i);
            } else {
                assert(src[before.len() as int] == n);
            }
        }
        src
    }
}

/// Candles can be built wherever no time is within five minutes of the least.
pub proof fn law_ordinary_rows_can_be_bucketed(rows: Seq<BalanceChangeView>)
    requires
        forall|i: int|
            0 <= i < rows.len() && (#[trigger] rows[i]).2 is Some ==> rows[i].2->0 - 300
                >= i64::MIN,
    ensures
        times_bucketable(rows),
{
    assert forall|i: int| 0 <= i < rows.len() && (#[trigger] rows[i]).2 is Some implies bucketable(
        rows[i].2->0,
        60,
    ) && bucketable(rows[i].2->0, 300) by {
        law_ordinary_times_have_windows(rows[i].2->0, 60);
        law_ordinary_times_have_windows(rows[i].2->0, 300);
    }
}

/// The conflicts that are reported of a block are of its own locks: each names
/// the account, the signature and the programs of its transaction, and whether
/// the lock writes; and a lock is reported exactly where it comes after one
/// that it meets.
pub proof fn law_parsed_conflicts_are_of_the_locks(
    parsed: ParsedBlockView,
    block: DecodedBlockView,
) -> (src: Seq<(int, int)>)
    requires
        is_parsed(parsed, block),
    ensures
        ({
            let txs = block.transactions;
            let events = parsed.schedule.conflicts.deep_view();
            &&& src.len() == events.len()
            &&& forall|t: int, u: int|
                0 <= t < u < src.len() ==> stands_before(#[trigger] src[t], #[trigger] src[u])
            &&& forall|t: int|
                0 <= t < src.len() ==> {
                    let (i, k) = #[trigger] src[t];
                    &&& 0 <= i < txs.len()
                    &&& 0 <= k < txs[i].locks.len()
                    &&& events[t].account == txs[i].locks[k].account
                    &&& events[t].tx_signature == txs[i].signature
                    &&& events[t].program_ids == txs[i].program_ids
                    &&& events[t].step == parsed.schedule.steps@[i]
                    &&& events[t].caused_by_write == txs[i].locks[k].is_writable
                }
            &&& forall|i: int, k: int, j: int, m: int|
                #![trigger txs[i].locks[k], txs[j].locks[m]]
                0 <= j < i < txs.len() && 0 <= k < txs[i].locks.len() && 0 <= m
                    < txs[j].locks.len() && txs[i].locks[k].account == txs[j].locks[m].account && (
                txs[i].locks[k].is_writable || txs[j].locks[m].is_writable) ==> src.contains(
                    (i, k),
                )
        }),
{
    let txs = block.transactions;
    let locks = block_locks(block);
    let events = parsed.schedule.conflicts.deep_view();
    let src = law_reports_are_the_locks_that_meet(locks, parsed.schedule.steps@);
    assert forall|t: int| 0 <= t < src.len() implies {
        let (i, k) = #[trigger] src[t];
        &&& 0 <= i < txs.len()
        &&& 0 <= k < txs[i].locks.len()
        &&& events[t].account == txs[i].locks[k].account
        &&& events[t].tx_signature == txs[i].signature
        &&& events[t].program_ids == txs[i].program_ids
        &&& events[t].step == parsed.schedule.steps@[i]
        &&& events[t].caused_by_write == txs[i].locks[k].is_writable
    } by {
        assert(locks[src[t].0] == tx_locks(txs[src[t].0]));
    }
    assert forall|i: int, k: int, j: int, m: int|
        #![trigger txs[i].locks[k], txs[j].locks[m]]
        0 <= j < i < txs.len() && 0 <= k < txs[i].locks.len() && 0 <= m < txs[j].locks.len()
            && txs[i].locks[k].account == txs[j].locks[m].account && (txs[i].locks[k].is_writable
            || txs[j].locks[m].is_writable) implies src.contains((i, k)) by {
        assert(locks[i].locks == txs[i].locks && locks[j].locks == txs[j].locks);
        assert(comes_after(locks, i, k, j, m));
    }
    src
}

/// A flush plans every block of a batch, in order, with all its rows.
pub proof fn law_every_block_is_planned(blocks: Seq<ParsedBlockView>, i: int)
    requires
        0 <= i < blocks.len(),
    ensures
        slot_rows(blocks).len() == blocks.len(),
        slot_rows(blocks)[i].0 == blocks[i].slot,
        slot_rows(blocks)[i].1 == blocks[i].block_time,
        slot_rows(blocks)[i].2 == blocks[i].transactions,
        slot_rows(blocks)[i].3 == blocks[i].locks,
        slot_rows(blocks)[i].4 == blocks[i].token_changes,
{
}

/// An outcome is about the slot that it names.
pub proof fn law_outcomes_name_their_slot(block: ParsedBlockView, slot: u64, error: Seq<char>)
    ensures
        ParsedOutcomeView::Ingested(block).slot() == block.slot,
        (ParsedOutcomeView::Skipped { slot }).slot() == slot,
        (ParsedOutcomeView::Failed { slot, error }).slot() == slot,
{
}

/// The content of a parsed block is all that it holds.
pub proof fn law_parsed_views_hold_every_field(block: ParsedBlock)
    ensures
        block.deep_view().slot == block.slot,
        block.deep_view().block_time == block.block_time,
        block.deep_view().transactions == block.transactions.deep_view(),
        block.deep_view().locks == block.locks.deep_view(),
        block.deep_view().token_changes == block.token_changes.deep_view(),
        block.deep_view().signatures == block.signatures.deep_view(),
        block.deep_view().schedule == block.schedule,
{
}

/// The content of an outcome and of an interval's candles is all that they hold.
pub proof fn law_outcome_views_hold_everything(outcome: ParsedOutcome, candles: IntervalCandles)
    ensures
        outcome matches ParsedOutcome::Ingested(block) ==> outcome.deep_view()
            == ParsedOutcomeView::Ingested(block.deep_view()),
        outcome matches ParsedOutcome::Skipped { slot } ==> outcome.deep_view() == (
        ParsedOutcomeView::Skipped { slot }),
        outcome matches ParsedOutcome::Failed { slot, error } ==> outcome.deep_view() == (
        ParsedOutcomeView::Failed { slot, error: error@ }),
        candles.deep_view().0 == candles.interval_sec,
        candles.deep_view().1 == candles.series.deep_view(),
{
}

} // verus!
