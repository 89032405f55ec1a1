//! What is written to the database: netted balance rows, and the statements
//! that replace a slot.

use crate::candles::{Candle, CandleView};
use crate::contention::ScheduleResult;
use crate::index::{
    appears_first, first_seen, law_first_seen_takes_first_appearances, lemma_first_seen, lemma_first_seen_push,
    PairIndex,
};
use crate::json::{json_string_array, string_array};
use crate::sequences::{are_indices, lemma_filter_map_sources};
use crate::types::SlotStatus;
use vstd::prelude::*;

verus! {

/// Signature, whether it failed, program ids, schedule step.
pub type TransactionRow = (String, bool, Vec<String>, Option<i32>);

/// Signature, account, whether it is written.
pub type AccountLockRow = (String, String, bool);

/// Signature, mint, amount before, amount after, decimals.
pub type TokenBalanceRow = (String, String, u64, u64, u8);

/// Slot, block time, and the rows of its transactions.
pub type SlotBatchRow = (
    u64,
    Option<i64>,
    Vec<TransactionRow>,
    Vec<AccountLockRow>,
    Vec<TokenBalanceRow>,
);

/// Signature, slot, block time, mint, amount before, amount after, decimals.
pub type BalanceChangeRow = (String, u64, Option<i64>, String, u64, u64, u8);

/// The content of a [`TokenBalanceRow`].
pub type TokenBalanceView = (Seq<char>, Seq<char>, u64, u64, u8);

/// A transaction and a mint.
pub type TxMint = (Seq<char>, Seq<char>);

/// The transaction and mint of each row.
pub open spec fn pairs_of(rows: Seq<TokenBalanceView>) -> Seq<TxMint> {
    Seq::new(rows.len(), |i: int| (rows[i].0, rows[i].1))
}

/// How much the rows of one transaction and mint add up to.
pub open spec fn net(rows: Seq<TokenBalanceView>, pair: TxMint) -> int
    decreases rows.len(),
{
    if rows.len() == 0 {
        0
    } else {
        let last = rows.last();
        net(rows.drop_last(), pair) + if (last.0, last.1) == pair {
            last.3 - last.2
        } else {
            0
        }
    }
}

/// The decimals of the first row of one transaction and mint.
pub open spec fn decimals_of(rows: Seq<TokenBalanceView>, pair: TxMint) -> u8
    decreases rows.len(),
{
    if rows.len() == 0 {
        0
    } else if pairs_of(rows.drop_last()).contains(pair) {
        decimals_of(rows.drop_last(), pair)
    } else {
        rows.last().4
    }
}

/// The one row that the rows of a transaction and mint come to, if they do not
/// cancel out: what was gained or what was lost.
pub open spec fn netted_row(rows: Seq<TokenBalanceView>) -> spec_fn(TxMint) -> Option<
    TokenBalanceView,
> {
    |pair: TxMint|
        {
            let n = net(rows, pair);
            if n == 0 {
                None
            } else if n > 0 {
                Some((pair.0, pair.1, 0u64, n as u64, decimals_of(rows, pair)))
            } else {
                Some((pair.0, pair.1, (-n) as u64, 0u64, decimals_of(rows, pair)))
            }
        }
}

/// One row for each transaction and mint, in the order in which they first
/// occur, without those that cancel out.
pub open spec fn coalesced(rows: Seq<TokenBalanceView>) -> Seq<TokenBalanceView> {
    first_seen(pairs_of(rows)).filter_map(netted_row(rows))
}

/// Running sums of one transaction and mint.
struct Total {
    gained: u128,
    lost: u128,
    decimals: u8,
}

/// The sums of every pair over the first rows.
spec fn totals_match(
    totals: Seq<Total>,
    pairs: Seq<TxMint>,
    rows: Seq<TokenBalanceView>,
    count: int,
) -> bool {
    &&& totals.len() == pairs.len()
    &&& forall|p: int|
        0 <= p < totals.len() ==> {
            &&& (#[trigger] totals[p]).gained - totals[p].lost == net(rows, pairs[p])
            &&& totals[p].decimals == decimals_of(rows, pairs[p])
            &&& totals[p].gained <= count * u64::MAX
            &&& totals[p].lost <= count * u64::MAX
        }
}

/// Rows that do not occur add up to nothing.
pub proof fn lemma_net_absent(rows: Seq<TokenBalanceView>, pair: TxMint)
    requires
        !pairs_of(rows).contains(pair),
    ensures
        net(rows, pair) == 0,
    decreases rows.len(),
{
    if rows.len() > 0 {
        let d = rows.drop_last();
        assert(pairs_of(rows)[rows.len() - 1] == (rows.last().0, rows.last().1));
        assert forall|k: int| 0 <= k < d.len() implies pairs_of(d)[k] != pair by {
            assert(pairs_of(rows)[k] == pairs_of(d)[k]);
        }
        lemma_net_absent(d, pair);
    }
}

/// The running sums of every transaction and mint.
fn sum_up(rows: &[TokenBalanceRow]) -> (sums: (PairIndex, Vec<Total>))
    ensures
        sums.0@ == first_seen(pairs_of(rows.deep_view())),
        totals_match(sums.1@, sums.0@, rows.deep_view(), rows@.len() as int),
{
    let ghost all = rows.deep_view();
    let mut index = PairIndex::new();
    let mut totals: Vec<Total> = Vec::new();
    let mut i: usize = 0;
    assert(pairs_of(all.take(0)) =~= Seq::<TxMint>::empty());
    while i < rows.len()
        invariant
            i <= rows.len(),
            all == rows.deep_view(),
            index.wf(),
            index@ == first_seen(pairs_of(all.take(i as int))),
            totals_match(totals@, index@, all.take(i as int), i as int),
        decreases rows@.len() - i,
    {
        let row = &rows[i];
        let ghost prior = all.take(i as int);
        let ghost now = all.take(i + 1);
        let ghost pair = (row.0@, row.1@);
        let ghost old_index = index@;
        let ghost old_totals = totals@;
        proof {
            assert(row.deep_view() == all[i as int]);
            assert(now.drop_last() =~= prior);
            assert(now.last() == all[i as int]);
            assert(pairs_of(now) =~= pairs_of(prior).push(pair));
            lemma_first_seen_push(pairs_of(prior), pair);
            lemma_first_seen(pairs_of(prior));
            lemma_first_seen(pairs_of(now));
        }
        let pos: usize = index.find_or_add(row.0.as_str(), row.1.as_str());
        if pos == totals.len() {
            totals.push(
                Total { gained: row.3 as u128, lost: row.2 as u128, decimals: row.4 },
            );
            proof {
                assert(!old_index.contains(pair));
                lemma_net_absent(prior, pair);
            }
        } else {
            let gained: u128 = totals[pos].gained;
            let lost: u128 = totals[pos].lost;
            let decimals: u8 = totals[pos].decimals;
            assert((i + 1) * u64::MAX <= u128::MAX) by (nonlinear_arith)
                requires
                    i < u64::MAX,
            ;
            assert(i * u64::MAX + u64::MAX == (i + 1) * u64::MAX) by (nonlinear_arith);
            totals.set(
                pos,
                Total { gained: gained + row.3 as u128, lost: lost + row.2 as u128, decimals },
            );
            proof {
                assert(old_index.contains(pair)) by {
                    if !old_index.contains(pair) {
                        assert(old_index[pos as int] == pair);
                    }
                }
            }
        }
        assert forall|p: int| 0 <= p < totals@.len() implies {
            &&& (#[trigger] totals@[p]).gained - totals@[p].lost == net(now, index@[p])
            &&& totals@[p].decimals == decimals_of(now, index@[p])
            &&& totals@[p].gained <= (i + 1) * u64::MAX
            &&& totals@[p].lost <= (i + 1) * u64::MAX
        } by {
            assert(i * u64::MAX + u64::MAX == (i + 1) * u64::MAX) by (nonlinear_arith);
            if p != pos {
                assert(index@[p] != pair) by {
                    assert(index@.no_duplicates());
                }
                assert(totals@[p] == old_totals[p]);
                assert(index@[p] == old_index[p]);
                assert(old_index.contains(old_index[p]));
            } else {
                assert(0 <= i * u64::MAX) by (nonlinear_arith)
                    requires
                        i >= 0,
                ;
            }
        }
        i += 1;
    }
    assert(all.take(i as int) =~= all);
    (index, totals)
}

/// Nets the rows of each transaction and mint, so that they can be a primary
/// key. A swap often moves two accounts of one mint, and only the net counts.
pub fn coalesce_token_balance_rows(rows: &[TokenBalanceRow]) -> (netted: Vec<TokenBalanceRow>)
    ensures
        netted.deep_view() == coalesced(rows.deep_view()),
{
    let ghost all = rows.deep_view();
    let ghost pairs = first_seen(pairs_of(all));
    let ghost row_of = netted_row(all);
    let (index, totals) = sum_up(rows);
    let mut netted: Vec<TokenBalanceRow> = Vec::new();
    let mut p: usize = 0;
    assert(netted.deep_view() =~= pairs.take(0).filter_map(row_of)) by {
        reveal(Seq::filter_map);
    }
    while p < totals.len()
        invariant
            p <= totals@.len(),
            index@ == pairs,
            row_of == netted_row(all),
            totals_match(totals@, pairs, all, rows@.len() as int),
            netted.deep_view() == pairs.take(p as int).filter_map(row_of),
        decreases totals@.len() - p,
    {
        let ghost before = netted.deep_view();
        let total = &totals[p];
        let pair = index.pair(p);
        proof {
            pairs.lemma_filter_map_take_succ(row_of, p as int);
            assert(totals@[p as int].gained - totals@[p as int].lost == net(all, pairs[p as int]));
        }
        if total.gained != total.lost {
            let (pre, post): (u64, u64) = if total.gained > total.lost {
                (0, (total.gained - total.lost) as u64)
            } else {
                ((total.lost - total.gained) as u64, 0)
            };
            let row: TokenBalanceRow = (
                pair.0.clone(),
                pair.1.clone(),
                pre,
                post,
                total.decimals,
            );
            netted.push(row);
            assert(netted.deep_view() =~= before.push(row.deep_view()));
        }
        p += 1;
    }
    assert(pairs.take(p as int) =~= pairs);
    netted
}

proof fn lemma_netted_prefix(
    rows: Seq<TokenBalanceView>,
    pairs: Seq<TxMint>,
    n: int,
    pair: TxMint,
)
    requires
        pairs.no_duplicates(),
        0 <= n <= pairs.len(),
    ensures
        ({
            let out = pairs.take(n).filter_map(netted_row(rows));
            &&& pairs_of(out).no_duplicates()
            &&& forall|q: TxMint| #[trigger]
                pairs_of(out).contains(q) ==> pairs.take(n).contains(q) && net(rows, q) != 0
            &&& forall|i: int|
                0 <= i < out.len() ==> netted_row(rows)(pairs_of(out)[i]) == Some(#[trigger] out[i])
            &&& -u64::MAX <= net(rows, pair) <= u64::MAX ==> net(out, pair) == if pairs.take(
                n,
            ).contains(pair) {
                net(rows, pair)
            } else {
                0
            }
        }),
    decreases n,
{
    let f = netted_row(rows);
    let out = pairs.take(n).filter_map(f);
    if n == 0 {
        assert(out =~= Seq::<TokenBalanceView>::empty()) by {
            reveal(Seq::filter_map);
        }
        assert(pairs_of(out) =~= Seq::<TxMint>::empty());
    } else {
        lemma_netted_prefix(rows, pairs, n - 1, pair);
        pairs.lemma_filter_map_take_succ(f, n - 1);
        let before = pairs.take(n - 1).filter_map(f);
        let p = pairs[n - 1];
        let some = pairs.take(n - 1);
        let more = pairs.take(n);
        assert(more =~= some.push(p));
        assert(!some.contains(p)) by {
            if some.contains(p) {
                let k = choose|k: int| 0 <= k < some.len() && some[k] == p;
                assert(pairs[k] == pairs[n - 1]);
            }
        }
        assert(more[n - 1] == p);
        assert forall|q: TxMint| some.contains(q) implies more.contains(q) by {
            let k = choose|k: int| 0 <= k < some.len() && some[k] == q;
            assert(more[k] == q);
        }
        match f(p) {
            None => {
                assert(out =~= before);
                assert(net(rows, p) == 0);
            },
            Some(row) => {
                assert(out =~= before.push(row));
                assert(pairs_of(out) =~= pairs_of(before).push(p));
                assert(out.drop_last() =~= before);
                assert forall|i: int, j: int| 0 <= i < j < out.len() implies pairs_of(out)[i]
                    != pairs_of(out)[j] by {
                    if j == out.len() - 1 {
                        assert(pairs_of(before).contains(pairs_of(before)[i]));
                    } else {
                        assert(pairs_of(before)[i] != pairs_of(before)[j]);
                    }
                }
                assert forall|q: TxMint| #[trigger] pairs_of(out).contains(q) implies more.contains(q)
                    && net(rows, q) != 0 by {
                    if q != p {
                        let k = choose|k: int| 0 <= k < out.len() && pairs_of(out)[k] == q;
                        assert(pairs_of(before)[k] == q);
                        assert(pairs_of(before).contains(q));
                    }
                }
                assert forall|i: int| 0 <= i < out.len() implies f(pairs_of(out)[i]) == Some(
                    #[trigger] out[i],
                ) by {
                    if i < before.len() {
                        assert(before[i] == out[i]);
                        assert(pairs_of(before)[i] == pairs_of(out)[i]);
                    }
                }
            },
        }
        if pair != p && more.contains(pair) {
            let k = choose|k: int| 0 <= k < more.len() && more[k] == pair;
            assert(some[k] == pair);
        }
    }
}

/// Netted rows name each transaction and mint at most once, so they can be a
/// primary key, and each is a change: one of its amounts is zero, and it is
/// what the rows of its transaction and mint add up to.
pub proof fn law_netted_rows_are_keyed(rows: Seq<TokenBalanceView>)
    ensures
        pairs_of(coalesced(rows)).no_duplicates(),
        forall|i: int|
            0 <= i < coalesced(rows).len() ==> {
                let row = #[trigger] coalesced(rows)[i];
                let n = net(rows, (row.0, row.1));
                &&& n != 0
                &&& row.4 == decimals_of(rows, (row.0, row.1))
                &&& n > 0 ==> row.2 == 0 && row.3 == n as u64
                &&& n < 0 ==> row.2 == (-n) as u64 && row.3 == 0
            },
{
    let pairs = first_seen(pairs_of(rows));
    let n = pairs.len() as int;
    lemma_first_seen(pairs_of(rows));
    assert(pairs.take(n) =~= pairs);
    lemma_netted_prefix(rows, pairs, n, arbitrary());
    let out = coalesced(rows);
    assert forall|i: int| 0 <= i < out.len() implies {
        let row = #[trigger] out[i];
        let n = net(rows, (row.0, row.1));
        &&& n != 0
        &&& row.4 == decimals_of(rows, (row.0, row.1))
        &&& n > 0 ==> row.2 == 0 && row.3 == n as u64
        &&& n < 0 ==> row.2 == (-n) as u64 && row.3 == 0
    } by {
        assert(netted_row(rows)(pairs_of(out)[i]) == Some(out[i]));
    }
}

/// Netting changes no balance: what the rows of a transaction and mint add up
/// to stays the same, wherever it fits an amount.
pub proof fn law_netting_keeps_the_net(rows: Seq<TokenBalanceView>, pair: TxMint)
    requires
        -u64::MAX <= net(rows, pair) <= u64::MAX,
    ensures
        net(coalesced(rows), pair) == net(rows, pair),
{
    let pairs = first_seen(pairs_of(rows));
    lemma_first_seen(pairs_of(rows));
    assert(pairs.take(pairs.len() as int) =~= pairs);
    lemma_netted_prefix(rows, pairs, pairs.len() as int, pair);
    if !pairs.contains(pair) {
        lemma_net_absent(rows, pair);
    }
}

/// Signature, slot, block time, whether it failed, program ids as a JSON array,
/// schedule step: a row of `transactions`.
pub type StoredTransaction = (String, i64, Option<i64>, bool, String, Option<i32>);

/// Slot, signature, account, whether it is written: a row of `account_locks`.
pub type StoredLock = (i64, String, String, bool);

/// Signature, slot, block time, mint, amount before, amount after, decimals: a
/// row of `token_balance_changes`.
pub type StoredTokenChange = (String, i64, Option<i64>, String, i64, i64, i32);

/// The content of a [`StoredTransaction`].
pub type StoredTransactionView = (
    Seq<char>,
    i64,
    Option<i64>,
    bool,
    Seq<char>,
    Option<i32>,
);

/// The content of a [`StoredLock`].
pub type StoredLockView = (i64, Seq<char>, Seq<char>, bool);

/// The content of a [`StoredTokenChange`].
pub type StoredTokenChangeView = (Seq<char>, i64, Option<i64>, Seq<char>, i64, i64, i32);

/// The content of a [`TransactionRow`].
pub type TransactionView = (Seq<char>, bool, Seq<Seq<char>>, Option<i32>);

/// The content of an [`AccountLockRow`].
pub type AccountLockView = (Seq<char>, Seq<char>, bool);

/// The content of a [`SlotBatchRow`].
pub type SlotBatchView = (
    u64,
    Option<i64>,
    Seq<TransactionView>,
    Seq<AccountLockView>,
    Seq<TokenBalanceView>,
);

/// One write to the database.
pub enum StoreOp {
    /// Deletes the rows of `account_locks` of a slot.
    DeleteLocks { slot: i64 },
    /// Deletes the rows of `token_balance_changes` of a slot.
    DeleteTokenChanges { slot: i64 },
    /// Deletes the rows of `transactions` of a slot.
    DeleteTransactions { slot: i64 },
    /// Inserts or overwrites the row of `blocks` of a slot.
    UpsertBlock { slot: i64, block_time: Option<i64>, tx_count: i32 },
    /// Appends rows to `transactions`.
    AppendTransactions { rows: Vec<StoredTransaction> },
    /// Appends rows to `account_locks`.
    AppendLocks { rows: Vec<StoredLock> },
    /// Appends rows to `token_balance_changes`.
    AppendTokenChanges { rows: Vec<StoredTokenChange> },
    /// Sets the step of the transaction with a signature.
    SetStep { signature: String, step: i32 },
    /// Inserts or overwrites the row of `ingestion_status` of a slot.
    UpsertStatus { slot: i64, status: &'static str, note: Option<String> },
    /// Inserts or overwrites the row of `candles` of a mint, an interval and a
    /// start.
    UpsertCandle { mint: String, interval_sec: i32, candle: Candle },
}

/// The mathematical content of a [`StoreOp`].
pub enum StoreOpView {
    DeleteLocks { slot: i64 },
    DeleteTokenChanges { slot: i64 },
    DeleteTransactions { slot: i64 },
    UpsertBlock { slot: i64, block_time: Option<i64>, tx_count: i32 },
    AppendTransactions { rows: Seq<StoredTransactionView> },
    AppendLocks { rows: Seq<StoredLockView> },
    AppendTokenChanges { rows: Seq<StoredTokenChangeView> },
    SetStep { signature: Seq<char>, step: i32 },
    UpsertStatus { slot: i64, status: Seq<char>, note: Option<Seq<char>> },
    UpsertCandle { mint: Seq<char>, interval_sec: i32, candle: CandleView },
}

impl DeepView for StoreOp {
    type V = StoreOpView;

    open spec fn deep_view(&self) -> StoreOpView {
        match self {
            StoreOp::DeleteLocks { slot } => StoreOpView::DeleteLocks { slot: *slot },
            StoreOp::DeleteTokenChanges { slot } => StoreOpView::DeleteTokenChanges {
                slot: *slot,
            },
            StoreOp::DeleteTransactions { slot } => StoreOpView::DeleteTransactions {
                slot: *slot,
            },
            StoreOp::UpsertBlock { slot, block_time, tx_count } => StoreOpView::UpsertBlock {
                slot: *slot,
                block_time: *block_time,
                tx_count: *tx_count,
            },
            StoreOp::AppendTransactions { rows } => StoreOpView::AppendTransactions {
                rows: rows.deep_view(),
            },
            StoreOp::AppendLocks { rows } => StoreOpView::AppendLocks { rows: rows.deep_view() },
            StoreOp::AppendTokenChanges { rows } => StoreOpView::AppendTokenChanges {
                rows: rows.deep_view(),
            },
            StoreOp::SetStep { signature, step } => StoreOpView::SetStep {
                signature: signature@,
                step: *step,
            },
            StoreOp::UpsertStatus { slot, status, note } => StoreOpView::UpsertStatus {
                slot: *slot,
                status: status@,
                note: note.deep_view(),
            },
            StoreOp::UpsertCandle { mint, interval_sec, candle } => StoreOpView::UpsertCandle {
                mint: mint@,
                interval_sec: *interval_sec,
                candle: candle.deep_view(),
            },
        }
    }
}

/// The stored form of a transaction.
pub open spec fn stored_transaction(
    slot: u64,
    block_time: Option<i64>,
    row: TransactionView,
) -> StoredTransactionView {
    (row.0, slot as i64, block_time, row.1, json_string_array(row.2), row.3)
}

/// The stored form of a lock.
pub open spec fn stored_lock(slot: u64, row: AccountLockView) -> StoredLockView {
    (slot as i64, row.0, row.1, row.2)
}

/// The stored form of a balance change.
pub open spec fn stored_token_change(
    slot: u64,
    block_time: Option<i64>,
    row: TokenBalanceView,
) -> StoredTokenChangeView {
    (row.0, slot as i64, block_time, row.1, row.2 as i64, row.3 as i64, row.4 as i32)
}

/// The rows that a slot's transactions are stored as.
pub open spec fn slot_transactions(row: SlotBatchView) -> Seq<StoredTransactionView> {
    Seq::new(row.2.len(), |i: int| stored_transaction(row.0, row.1, row.2[i]))
}

/// The rows that a slot's locks are stored as.
pub open spec fn slot_locks(row: SlotBatchView) -> Seq<StoredLockView> {
    Seq::new(row.3.len(), |i: int| stored_lock(row.0, row.3[i]))
}

/// The rows that a slot's netted balance changes are stored as.
pub open spec fn slot_token_changes(row: SlotBatchView) -> Seq<StoredTokenChangeView> {
    let netted = coalesced(row.4);
    Seq::new(netted.len(), |i: int| stored_token_change(row.0, row.1, netted[i]))
}

/// The writes that replace all data of one slot: what is there is deleted, then
/// the rows are appended.
pub open spec fn slot_ops(row: SlotBatchView) -> Seq<StoreOpView> {
    let slot = row.0 as i64;
    seq![
        StoreOpView::DeleteLocks { slot },
        StoreOpView::DeleteTokenChanges { slot },
        StoreOpView::DeleteTransactions { slot },
        StoreOpView::UpsertBlock { slot, block_time: row.1, tx_count: row.2.len() as i32 },
        StoreOpView::AppendTransactions { rows: slot_transactions(row) },
        StoreOpView::AppendLocks { rows: slot_locks(row) },
        StoreOpView::AppendTokenChanges { rows: slot_token_changes(row) },
    ]
}

fn store_transactions(row: &SlotBatchRow) -> (stored: Vec<StoredTransaction>)
    ensures
        stored.deep_view() == slot_transactions(row.deep_view()),
{
    let ghost all = slot_transactions(row.deep_view());
    let mut stored: Vec<StoredTransaction> = Vec::new();
    let mut i: usize = 0;
    assert(stored.deep_view() =~= all.take(0));
    while i < row.2.len()
        invariant
            i <= row.2@.len(),
            all == slot_transactions(row.deep_view()),
            stored.deep_view() == all.take(i as int),
        decreases row.2@.len() - i,
    {
        let ghost before = stored.deep_view();
        let tx = &row.2[i];
        let program_ids: String = match string_array(&tx.2) {
            Ok(text) => text,
            Err(_) => vstd::pervasive::unreached(),
        };
        let one: StoredTransaction = (
            tx.0.clone(),
            row.0 as i64,
            row.1,
            tx.1,
            program_ids,
            tx.3,
        );
        assert(one.deep_view() == all[i as int]) by {
            assert(row.deep_view().2[i as int] == tx.deep_view());
        }
        stored.push(one);
        assert(stored.deep_view() =~= before.push(one.deep_view()));
        assert(stored.deep_view() =~= all.take(i + 1));
        i += 1;
    }
    assert(all.take(i as int) =~= all);
    stored
}

fn store_locks(row: &SlotBatchRow) -> (stored: Vec<StoredLock>)
    ensures
        stored.deep_view() == slot_locks(row.deep_view()),
{
    let ghost all = slot_locks(row.deep_view());
    let mut stored: Vec<StoredLock> = Vec::new();
    let mut i: usize = 0;
    assert(stored.deep_view() =~= all.take(0));
    while i < row.3.len()
        invariant
            i <= row.3@.len(),
            all == slot_locks(row.deep_view()),
            stored.deep_view() == all.take(i as int),
        decreases row.3@.len() - i,
    {
        let ghost before = stored.deep_view();
        let lock = &row.3[i];
        let one: StoredLock = (row.0 as i64, lock.0.clone(), lock.1.clone(), lock.2);
        assert(one.deep_view() == all[i as int]) by {
            assert(row.deep_view().3[i as int] == lock.deep_view());
        }
        stored.push(one);
        assert(stored.deep_view() =~= before.push(one.deep_view()));
        assert(stored.deep_view() =~= all.take(i + 1));
        i += 1;
    }
    assert(all.take(i as int) =~= all);
    stored
}

fn store_token_changes(row: &SlotBatchRow) -> (stored: Vec<StoredTokenChange>)
    ensures
        stored.deep_view() == slot_token_changes(row.deep_view()),
{
    let ghost all = slot_token_changes(row.deep_view());
    let netted = coalesce_token_balance_rows(row.4.as_slice());
    let mut stored: Vec<StoredTokenChange> = Vec::new();
    let mut i: usize = 0;
    assert(stored.deep_view() =~= all.take(0));
    while i < netted.len()
        invariant
            i <= netted@.len(),
            all == slot_token_changes(row.deep_view()),
            netted.deep_view() == coalesced(row.deep_view().4),
            stored.deep_view() == all.take(i as int),
        decreases netted@.len() - i,
    {
        let ghost before = stored.deep_view();
        let change = &netted[i];
        let one: StoredTokenChange = (
            change.0.clone(),
            row.0 as i64,
            row.1,
            change.1.clone(),
            change.2 as i64,
            change.3 as i64,
            change.4 as i32,
        );
        assert(one.deep_view() == all[i as int]) by {
            assert(netted.deep_view()[i as int] == change.deep_view());
        }
        stored.push(one);
        assert(stored.deep_view() =~= before.push(one.deep_view()));
        assert(stored.deep_view() =~= all.take(i + 1));
        i += 1;
    }
    assert(all.take(i as int) =~= all);
    stored
}

/// Plans the writes that replace all data of one slot.
pub fn replace_slot_ops(row: &SlotBatchRow) -> (ops: Vec<StoreOp>)
    ensures
        ops.deep_view() == slot_ops(row.deep_view()),
{
    let slot: i64 = row.0 as i64;
    let tx_count: i32 = row.2.len() as i32;
    let ops: Vec<StoreOp> = vec![
        StoreOp::DeleteLocks { slot },
        StoreOp::DeleteTokenChanges { slot },
        StoreOp::DeleteTransactions { slot },
        StoreOp::UpsertBlock { slot, block_time: row.1, tx_count },
        StoreOp::AppendTransactions { rows: store_transactions(row) },
        StoreOp::AppendLocks { rows: store_locks(row) },
        StoreOp::AppendTokenChanges { rows: store_token_changes(row) },
    ];
    assert(ops.deep_view() =~= slot_ops(row.deep_view()));
    ops
}

/// The writes that record a schedule: one for each signature and step, as far
/// as there are both.
pub open spec fn schedule_ops(signatures: Seq<Seq<char>>, steps: Seq<usize>) -> Seq<StoreOpView> {
    Seq::new(
        if signatures.len() < steps.len() {
            signatures.len()
        } else {
            steps.len()
        },
        |i: int| StoreOpView::SetStep { signature: signatures[i], step: steps[i] as i32 },
    )
}

/// Plans the writes that record a block's schedule.
pub fn schedule_step_ops(signatures: &[String], schedule: &ScheduleResult) -> (ops: Vec<StoreOp>)
    ensures
        ops.deep_view() == schedule_ops(signatures.deep_view(), schedule.steps@),
{
    let ghost all = schedule_ops(signatures.deep_view(), schedule.steps@);
    let mut ops: Vec<StoreOp> = Vec::new();
    let mut i: usize = 0;
    assert(ops.deep_view() =~= all.take(0));
    while i < signatures.len() && i < schedule.steps.len()
        invariant
            i <= all.len(),
            all == schedule_ops(signatures.deep_view(), schedule.steps@),
            ops.deep_view() == all.take(i as int),
        decreases signatures@.len() - i,
    {
        let ghost before = ops.deep_view();
        let op = StoreOp::SetStep {
            signature: signatures[i].clone(),
            step: schedule.steps[i] as i32,
        };
        assert(op.deep_view() == all[i as int]) by {
            assert(signatures.deep_view()[i as int] == signatures@[i as int]@);
        }
        ops.push(op);
        assert(ops.deep_view() =~= before.push(op.deep_view()));
        assert(ops.deep_view() =~= all.take(i + 1));
        i += 1;
    }
    assert(all.take(i as int) =~= all);
    ops
}

/// Plans the write that records what became of a slot.
pub fn status_op(slot: u64, status: SlotStatus, note: Option<String>) -> (op: StoreOp)
    ensures
        op.deep_view() == (StoreOpView::UpsertStatus {
            slot: slot as i64,
            status: status.text(),
            note: note.deep_view(),
        }),
{
    StoreOp::UpsertStatus { slot: slot as i64, status: status.as_str(), note }
}

/// The balance change that a stored row stands for.
pub open spec fn loaded_balance_change(row: StoredTokenChangeView) -> (
    Seq<char>,
    u64,
    Option<i64>,
    Seq<char>,
    u64,
    u64,
    u8,
) {
    (row.0, row.1 as u64, row.2, row.3, row.4 as u64, row.5 as u64, row.6 as u8)
}

/// Reads a stored balance change.
pub fn load_balance_change(row: StoredTokenChange) -> (change: BalanceChangeRow)
    ensures
        change.deep_view() == loaded_balance_change(row.deep_view()),
{
    (row.0, row.1 as u64, row.2, row.3, row.4 as u64, row.5 as u64, row.6 as u8)
}

/// Reading a stored balance change gives back what was written.
pub proof fn law_stored_balance_change_reads_back(
    slot: u64,
    block_time: Option<i64>,
    row: TokenBalanceView,
)
    ensures
        loaded_balance_change(stored_token_change(slot, block_time, row)) == (
            row.0,
            slot,
            block_time,
            row.1,
            row.2,
            row.3,
            row.4,
        ),
{
    let (pre, post, decimals) = (row.2, row.3, row.4);
    assert((slot as i64) as u64 == slot) by (bit_vector);
    assert((pre as i64) as u64 == pre) by (bit_vector);
    assert((post as i64) as u64 == post) by (bit_vector);
    assert((decimals as i32) as u8 == decimals) by (bit_vector);
}

/// What is done next to write a batch in one database transaction.
#[derive(Debug, Clone, Copy, PartialEq, Eq, Structural)]
pub enum BatchStep {
    Begin,
    /// Replace the data of the slot with this index in the batch.
    Replace { index: usize },
    Commit,
    /// Undo everything: without it the connection would refuse what follows.
    Rollback,
    /// The batch is written.
    Done,
    /// Nothing of the batch is written.
    Failed,
}

/// The step that follows one that succeeded or failed. A transaction that did
/// not begin is not rolled back, and a failed rollback changes nothing.
pub open spec fn step_after(step: BatchStep, slots: nat, ok: bool) -> BatchStep {
    match step {
        BatchStep::Begin => if !ok {
            BatchStep::Failed
        } else if slots > 0 {
            BatchStep::Replace { index: 0 }
        } else {
            BatchStep::Commit
        },
        BatchStep::Replace { index } => if !ok {
            BatchStep::Rollback
        } else if index + 1 < slots {
            BatchStep::Replace { index: (index + 1) as usize }
        } else {
            BatchStep::Commit
        },
        BatchStep::Commit => if ok {
            BatchStep::Done
        } else {
            BatchStep::Rollback
        },
        BatchStep::Rollback => BatchStep::Failed,
        BatchStep::Done => BatchStep::Done,
        BatchStep::Failed => BatchStep::Failed,
    }
}

/// Decides the step that follows.
pub fn next_batch_step(step: BatchStep, slots: usize, ok: bool) -> (next: BatchStep)
    ensures
        next == step_after(step, slots as nat, ok),
{
    match step {
        BatchStep::Begin => if !ok {
            BatchStep::Failed
        } else if slots > 0 {
            BatchStep::Replace { index: 0 }
        } else {
            BatchStep::Commit
        },
        BatchStep::Replace { index } => if !ok {
            BatchStep::Rollback
        } else if slots > 0 && index < slots - 1 {
            BatchStep::Replace { index: index + 1 }
        } else {
            BatchStep::Commit
        },
        BatchStep::Commit => if ok {
            BatchStep::Done
        } else {
            BatchStep::Rollback
        },
        BatchStep::Rollback => BatchStep::Failed,
        BatchStep::Done => BatchStep::Done,
        BatchStep::Failed => BatchStep::Failed,
    }
}

/// The step that is reached when the steps turn out as given.
pub open spec fn batch_run(slots: nat, results: Seq<bool>) -> BatchStep
    decreases results.len(),
{
    if results.len() == 0 {
        BatchStep::Begin
    } else {
        step_after(batch_run(slots, results.drop_last()), slots, results.last())
    }
}

/// The step that follows `n` successes in a row: begin, each slot once and in
/// order, commit.
pub open spec fn step_number(slots: nat, n: nat) -> BatchStep {
    if n == 0 {
        BatchStep::Begin
    } else if n <= slots {
        BatchStep::Replace { index: (n - 1) as usize }
    } else if n == slots + 1 {
        BatchStep::Commit
    } else {
        BatchStep::Done
    }
}

/// While all goes well, the batch begins, replaces each slot once and in order,
/// and commits.
pub proof fn law_batch_runs_in_order(slots: nat, results: Seq<bool>)
    requires
        slots <= usize::MAX,
        forall|i: int| 0 <= i < results.len() ==> #[trigger] results[i],
    ensures
        batch_run(slots, results) == step_number(slots, results.len()),
    decreases results.len(),
{
    if results.len() > 0 {
        law_batch_runs_in_order(slots, results.drop_last());
        assert(results[results.len() - 1]);
    }
}

/// A batch is all or nothing: it is done only after every step succeeded, and
/// any failure once it has begun leads to a rollback, and to nothing else.
pub proof fn law_batch_is_all_or_nothing(slots: nat, results: Seq<bool>, failure: int)
    requires
        slots <= usize::MAX,
        0 <= failure < results.len(),
        failure < slots + 2,
        !results[failure],
        forall|i: int| 0 <= i < failure ==> #[trigger] results[i],
    ensures
        batch_run(slots, results) == if failure > 0 && results.len() == failure + 1 {
            BatchStep::Rollback
        } else {
            BatchStep::Failed
        },
    decreases results.len(),
{
    let d = results.drop_last();
    if results.len() == failure + 1 {
        law_batch_runs_in_order(slots, d);
        assert(results.last() == results[failure]);
    } else {
        law_batch_is_all_or_nothing(slots, d, failure);
    }
}

/// Contention of a range of slots.
#[derive(Debug, Clone)]
pub struct ContentionSummary {
    pub depth: u64,
    /// The accounts that were written most, with how often.
    pub top_conflicting_accounts: Vec<(String, i64)>,
}

/// Sums up a range of slots from the depth found in the database, which is
/// below zero where no step is stored.
pub fn contention_summary(depth: i64, top_accounts: Vec<(String, i64)>) -> (summary:
    ContentionSummary)
    ensures
        summary.depth == if depth < 0 {
            0
        } else {
            depth as int
        },
        summary.top_conflicting_accounts == top_accounts,
{
    ContentionSummary {
        depth: if depth < 0 {
            0
        } else {
            depth as u64
        },
        top_conflicting_accounts: top_accounts,
    }
}

/// One mint that has stored candles.
#[derive(Debug, Clone)]
pub struct TokenOption {
    pub mint: String,
    pub candles_1m: i64,
    pub candles_5m: i64,
}

/// Row counts of the database.
#[derive(Debug, Clone)]
pub struct DbStats {
    pub blocks: i64,
    pub transactions: i64,
    pub failed_transactions: i64,
    pub token_change_rows: i64,
    pub distinct_mints: i64,
    pub distinct_tx_with_balances: i64,
    pub tx_with_wsol: i64,
    pub candles_1m: i64,
    pub candles_5m: i64,
}

/// What rows add up to is a sum: of no rows nothing, of one row its gain where
/// it is of the transaction and mint, and of two lists the two sums.
pub proof fn law_net_is_a_sum(
    a: Seq<TokenBalanceView>,
    b: Seq<TokenBalanceView>,
    row: TokenBalanceView,
    pair: TxMint,
)
    ensures
        net(Seq::empty(), pair) == 0,
        net(seq![row], pair) == if row.0 == pair.0 && row.1 == pair.1 {
            row.3 - row.2
        } else {
            0
        },
        net(a + b, pair) == net(a, pair) + net(b, pair),
    decreases b.len(),
{
    assert(seq![row].drop_last() =~= Seq::<TokenBalanceView>::empty());
    assert(net(seq![row].drop_last(), pair) == 0);
    assert((row.0, row.1) == pair <==> row.0 == pair.0 && row.1 == pair.1);
    if b.len() == 0 {
        assert(a + b =~= a);
    } else {
        assert((a + b).drop_last() =~= a + b.drop_last());
        law_net_is_a_sum(a, b.drop_last(), row, pair);
    }
}

/// Whether row `i` is the first of its transaction and mint.
pub open spec fn is_first_row(rows: Seq<TokenBalanceView>, i: int) -> bool {
    &&& 0 <= i < rows.len()
    &&& forall|j: int|
        0 <= j < i ==> (#[trigger] rows[j]).0 != rows[i].0 || rows[j].1 != rows[i].1
}

proof fn lemma_decimals_of_first(rows: Seq<TokenBalanceView>, i: int)
    requires
        is_first_row(rows, i),
    ensures
        decimals_of(rows, (rows[i].0, rows[i].1)) == rows[i].4,
    decreases rows.len(),
{
    let d = rows.drop_last();
    let pair = (rows[i].0, rows[i].1);
    if i < d.len() {
        assert(pairs_of(d)[i] == pair);
        assert forall|j: int| 0 <= j < i implies (#[trigger] d[j]).0 != d[i].0 || d[j].1
            != d[i].1 by {
            assert(rows[j].0 != rows[i].0 || rows[j].1 != rows[i].1);
        }
        lemma_decimals_of_first(d, i);
    } else if pairs_of(d).contains(pair) {
        let j = choose|j: int| 0 <= j < pairs_of(d).len() && pairs_of(d)[j] == pair;
        assert(rows[j].0 != rows[i].0 || rows[j].1 != rows[i].1);
    }
}

/// Netting makes one row of each transaction and mint whose rows do not cancel
/// out, in the order of their first rows: with the first row's decimals, from
/// nothing to what was gained, or from what was lost to nothing.
pub proof fn law_rows_are_netted(rows: Seq<TokenBalanceView>) -> (src: Seq<int>)
    ensures
        are_indices(src, rows.len() as int),
        coalesced(rows).len() == src.len(),
        forall|t: int|
            0 <= t < src.len() ==> {
                let first = rows[#[trigger] src[t]];
                let row = coalesced(rows)[t];
                let gain = net(rows, (first.0, first.1));
                &&& is_first_row(rows, src[t])
                &&& row.0 == first.0
                &&& row.1 == first.1
                &&& row.4 == first.4
                &&& 0 < gain <= u64::MAX ==> row.2 == 0 && row.3 == gain
                &&& -u64::MAX <= gain < 0 ==> row.2 == -gain && row.3 == 0
            },
        forall|i: int|
            src.contains(i) <==> #[trigger] is_first_row(rows, i) && net(
                rows,
                (rows[i].0, rows[i].1),
            ) != 0,
{
    let keys = pairs_of(rows);
    let pairs = first_seen(keys);
    let f = netted_row(rows);
    let a = law_first_seen_takes_first_appearances(keys);
    let b = lemma_filter_map_sources(pairs, f);
    let src = Seq::new(b.len(), |t: int| a[b[t]]);
    assert forall|i: int| 0 <= i < rows.len() implies (is_first_row(rows, i) <==> a.contains(
        i,
    )) by {
        assert(keys[i] == (rows[i].0, rows[i].1));
        assert(a.contains(i) <==> appears_first(keys, i));
        if a.contains(i) {
            assert forall|j: int| 0 <= j < i implies (#[trigger] rows[j]).0 != rows[i].0
                || rows[j].1 != rows[i].1 by {
                assert(keys[j] != keys[i]);
            }
        }
        if is_first_row(rows, i) {
            assert forall|j: int| 0 <= j < i implies #[trigger] keys[j] != keys[i] by {
                assert(rows[j].0 != rows[i].0 || rows[j].1 != rows[i].1);
            }
        }
    }
    assert forall|t: int| 0 <= t < src.len() implies {
        let first = rows[#[trigger] src[t]];
        let row = coalesced(rows)[t];
        let gain = net(rows, (first.0, first.1));
        &&& is_first_row(rows, src[t])
        &&& gain != 0
        &&& row.0 == first.0
        &&& row.1 == first.1
        &&& row.4 == first.4
        &&& 0 < gain <= u64::MAX ==> row.2 == 0 && row.3 == gain
        &&& -u64::MAX <= gain < 0 ==> row.2 == -gain && row.3 == 0
    } by {
        assert(f(pairs[b[t]]) == Some(coalesced(rows)[t]));
        assert(keys[a[b[t]]] == pairs[b[t]]);
        assert(a.contains(a[b[t]]));
        assert(is_first_row(rows, src[t]));
        lemma_decimals_of_first(rows, src[t]);
    }
    assert forall|i: int|
        src.contains(i) <==> #[trigger] is_first_row(rows, i) && net(rows, (rows[i].0, rows[i].1))
            != 0 by {
        if src.contains(i) {
            let t = choose|t: int| 0 <= t < src.len() && src[t] == i;
            assert(is_first_row(rows, src[t]));
        }
        if is_first_row(rows, i) && net(rows, (rows[i].0, rows[i].1)) != 0 {
            assert(a.contains(i));
            let q = choose|q: int| 0 <= q < a.len() && a[q] == i;
            assert(pairs[q] == (rows[i].0, rows[i].1));
            assert(f(pairs[q]) is Some);
            assert(b.contains(q));
            let t = choose|t: int| 0 <= t < b.len() && b[t] == q;
            assert(src[t] == i);
        }
    }
    src
}

/// The writes of a slot: its old rows go, then its block and all its rows come,
/// each with what it was given.
pub proof fn law_slot_writes_are_its_rows(row: SlotBatchView)
    ensures
        ({
            let ops = slot_ops(row);
            let slot = row.0 as i64;
            &&& ops.len() == 7
            &&& ops[0] == (StoreOpView::DeleteLocks { slot })
            &&& ops[1] == (StoreOpView::DeleteTokenChanges { slot })
            &&& ops[2] == (StoreOpView::DeleteTransactions { slot })
            &&& ops[3] == (StoreOpView::UpsertBlock {
                slot,
                block_time: row.1,
                tx_count: row.2.len() as i32,
            })
            &&& ops[4] matches StoreOpView::AppendTransactions { rows } && rows.len()
                == row.2.len() && forall|i: int|
                0 <= i < rows.len() ==> #[trigger] rows[i] == (
                    row.2[i].0,
                    slot,
                    row.1,
                    row.2[i].1,
                    json_string_array(row.2[i].2),
                    row.2[i].3,
                )
            &&& ops[5] matches StoreOpView::AppendLocks { rows } && rows.len() == row.3.len()
                && forall|i: int|
                0 <= i < rows.len() ==> #[trigger] rows[i] == (
                    slot,
                    row.3[i].0,
                    row.3[i].1,
                    row.3[i].2,
                )
            &&& ops[6] matches StoreOpView::AppendTokenChanges { rows } && rows.len() == coalesced(
                row.4,
            ).len() && forall|i: int|
                0 <= i < rows.len() ==> #[trigger] rows[i] == (
                    coalesced(row.4)[i].0,
                    slot,
                    row.1,
                    coalesced(row.4)[i].1,
                    coalesced(row.4)[i].2 as i64,
                    coalesced(row.4)[i].3 as i64,
                    coalesced(row.4)[i].4 as i32,
                )
        }),
{
}

/// Every transaction that has a signature and a step gets its step, in order.
pub proof fn law_every_step_is_written(signatures: Seq<Seq<char>>, steps: Seq<usize>)
    ensures
        signatures.len() <= steps.len() ==> schedule_ops(signatures, steps).len()
            == signatures.len(),
        steps.len() <= signatures.len() ==> schedule_ops(signatures, steps).len() == steps.len(),
        forall|i: int|
            0 <= i < signatures.len() && i < steps.len() ==> #[trigger] schedule_ops(
                signatures,
                steps,
            )[i] == (StoreOpView::SetStep { signature: signatures[i], step: steps[i] as i32 }),
{
}

/// The content of a write is all that it holds.
pub proof fn law_write_views_hold_every_field(op: StoreOp)
    ensures
        op matches StoreOp::DeleteLocks { slot } ==> op.deep_view() == (StoreOpView::DeleteLocks {
            slot,
        }),
        op matches StoreOp::DeleteTokenChanges { slot } ==> op.deep_view() == (
        StoreOpView::DeleteTokenChanges { slot }),
        op matches StoreOp::DeleteTransactions { slot } ==> op.deep_view() == (
        StoreOpView::DeleteTransactions { slot }),
        op matches StoreOp::UpsertBlock { slot, block_time, tx_count } ==> op.deep_view() == (
        StoreOpView::UpsertBlock { slot, block_time, tx_count }),
        op matches StoreOp::AppendTransactions { rows } ==> op.deep_view() == (
        StoreOpView::AppendTransactions { rows: rows.deep_view() }),
        op matches StoreOp::AppendLocks { rows } ==> op.deep_view() == (
        StoreOpView::AppendLocks { rows: rows.deep_view() }),
        op matches StoreOp::AppendTokenChanges { rows } ==> op.deep_view() == (
        StoreOpView::AppendTokenChanges { rows: rows.deep_view() }),
        op matches StoreOp::SetStep { signature, step } ==> op.deep_view() == (
        StoreOpView::SetStep { signature: signature@, step }),
        op matches StoreOp::UpsertStatus { slot, status, note } ==> op.deep_view() == (
        StoreOpView::UpsertStatus { slot, status: status@, note: note.deep_view() }),
        op matches StoreOp::UpsertCandle { mint, interval_sec, candle } ==> op.deep_view() == (
        StoreOpView::UpsertCandle { mint: mint@, interval_sec, candle: candle.deep_view() }),
{
}

} // verus!
