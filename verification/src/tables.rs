//! What the writes of [`crate::storage`] do to the tables: a model of the
//! database, and the laws of replacing slots.
//!
//! Tables are maps from primary key to the rest of the row. An insert of a key
//! that is there already fails, and so does a value that its column cannot
//! hold. A failed batch leaves no trace.

use crate::candles::CandleView;
use crate::json::json_string_array;
use crate::storage::{
    coalesced, law_netted_rows_are_keyed, law_stored_balance_change_reads_back, lemma_net_absent,
    loaded_balance_change, pairs_of, slot_locks, slot_ops, slot_token_changes, slot_transactions,
    stored_token_change, AccountLockView, SlotBatchView, StoreOpView, StoredLockView, StoredTokenChangeView,
    StoredTransactionView, TransactionView,
};
use vstd::prelude::*;

verus! {

/// The tables, each row with its slot first.
#[verifier::ext_equal]
pub struct Tables {
    pub blocks: Map<i64, (Option<i64>, i32)>,
    pub transactions: Map<Seq<char>, (i64, (Option<i64>, bool, Seq<char>))>,
    /// The steps of transactions, where they are not null.
    pub steps: Map<Seq<char>, i32>,
    pub locks: Map<(Seq<char>, Seq<char>), (i64, bool)>,
    pub token_changes: Map<(Seq<char>, Seq<char>), (i64, (Option<i64>, i64, i64, i32))>,
    pub statuses: Map<i64, (Seq<char>, Option<Seq<char>>)>,
    /// Candles by mint, interval and start.
    pub candles: Map<(Seq<char>, i32, i64), CandleView>,
}

/// A table without the rows of a slot.
pub open spec fn without_slot<K, W>(table: Map<K, (i64, W)>, slot: i64) -> Map<K, (i64, W)> {
    Map::new(|k: K| table.contains_key(k) && table[k].0 != slot, |k: K| table[k])
}

/// A table with rows appended, or nothing where a key would occur twice.
pub open spec fn append_rows<K, V>(table: Map<K, V>, rows: Seq<(K, V)>) -> Option<Map<K, V>>
    decreases rows.len(),
{
    if rows.len() == 0 {
        Some(table)
    } else {
        let (key, value) = rows.last();
        match append_rows(table, rows.drop_last()) {
            Some(t) => if t.contains_key(key) {
                None
            } else {
                Some(t.insert(key, value))
            },
            None => None,
        }
    }
}

/// The keys and rests of transaction rows.
pub open spec fn transaction_rows(rows: Seq<StoredTransactionView>) -> Seq<
    (Seq<char>, (i64, (Option<i64>, bool, Seq<char>))),
> {
    Seq::new(rows.len(), |i: int| (rows[i].0, (rows[i].1, (rows[i].2, rows[i].3, rows[i].4))))
}

/// The keys and rests of lock rows.
pub open spec fn lock_rows(rows: Seq<StoredLockView>) -> Seq<
    ((Seq<char>, Seq<char>), (i64, bool)),
> {
    Seq::new(rows.len(), |i: int| ((rows[i].1, rows[i].2), (rows[i].0, rows[i].3)))
}

/// The keys and rests of balance change rows.
pub open spec fn token_change_rows(rows: Seq<StoredTokenChangeView>) -> Seq<
    ((Seq<char>, Seq<char>), (i64, (Option<i64>, i64, i64, i32))),
> {
    Seq::new(
        rows.len(),
        |i: int|
            (
                (rows[i].0, rows[i].3),
                (rows[i].1, (rows[i].2, rows[i].4, rows[i].5, rows[i].6)),
            ),
    )
}

/// Whether a balance change fits its columns: amounts that are not negative,
/// and decimals in a signed byte.
pub open spec fn fits_columns(row: StoredTokenChangeView) -> bool {
    row.4 >= 0 && row.5 >= 0 && i8::MIN <= row.6 <= i8::MAX
}

/// Whether all balance changes fit their columns.
pub open spec fn all_fit(rows: Seq<StoredTokenChangeView>) -> bool {
    forall|i: int| 0 <= i < rows.len() ==> fits_columns(#[trigger] rows[i])
}

/// Sets the step of a transaction.
pub open spec fn put_step(
    steps: Map<Seq<char>, i32>,
    signature: Seq<char>,
    step: Option<i32>,
) -> Map<Seq<char>, i32> {
    match step {
        Some(s) => steps.insert(signature, s),
        None => steps.remove(signature),
    }
}

/// Sets the steps that transaction rows come with.
pub open spec fn put_steps(
    steps: Map<Seq<char>, i32>,
    rows: Seq<StoredTransactionView>,
) -> Map<Seq<char>, i32>
    decreases rows.len(),
{
    if rows.len() == 0 {
        steps
    } else {
        put_step(put_steps(steps, rows.drop_last()), rows.last().0, rows.last().5)
    }
}

/// The tables after one write, or nothing where it fails.
pub open spec fn apply(t: Tables, op: StoreOpView) -> Option<Tables> {
    match op {
        StoreOpView::DeleteLocks { slot } => Some(
            Tables { locks: without_slot(t.locks, slot), ..t },
        ),
        StoreOpView::DeleteTokenChanges { slot } => Some(
            Tables { token_changes: without_slot(t.token_changes, slot), ..t },
        ),
        StoreOpView::DeleteTransactions { slot } => Some(
            Tables {
                transactions: without_slot(t.transactions, slot),
                steps: Map::new(
                    |k: Seq<char>|
                        t.steps.contains_key(k) && !(t.transactions.contains_key(k)
                            && t.transactions[k].0 == slot),
                    |k: Seq<char>| t.steps[k],
                ),
                ..t
            },
        ),
        StoreOpView::UpsertBlock { slot, block_time, tx_count } => Some(
            Tables { blocks: t.blocks.insert(slot, (block_time, tx_count)), ..t },
        ),
        StoreOpView::AppendTransactions { rows } => match append_rows(
            t.transactions,
            transaction_rows(rows),
        ) {
            Some(transactions) => Some(
                Tables { transactions, steps: put_steps(t.steps, rows), ..t },
            ),
            None => None,
        },
        StoreOpView::AppendLocks { rows } => match append_rows(t.locks, lock_rows(rows)) {
            Some(locks) => Some(Tables { locks, ..t }),
            None => None,
        },
        StoreOpView::AppendTokenChanges { rows } => if all_fit(rows) {
            match append_rows(t.token_changes, token_change_rows(rows)) {
                Some(token_changes) => Some(Tables { token_changes, ..t }),
                None => None,
            }
        } else {
            None
        },
        StoreOpView::SetStep { signature, step } => if t.transactions.contains_key(signature) {
            Some(Tables { steps: t.steps.insert(signature, step), ..t })
        } else {
            Some(t)
        },
        StoreOpView::UpsertStatus { slot, status, note } => Some(
            Tables { statuses: t.statuses.insert(slot, (status, note)), ..t },
        ),
        StoreOpView::UpsertCandle { mint, interval_sec, candle } => Some(
            Tables {
                candles: t.candles.insert((mint, interval_sec, candle.bucket_start), candle),
                ..t
            },
        ),
    }
}

/// The tables after writes, or nothing where one fails.
pub open spec fn run_ops(t: Tables, ops: Seq<StoreOpView>) -> Option<Tables>
    decreases ops.len(),
{
    if ops.len() == 0 {
        Some(t)
    } else {
        match run_ops(t, ops.drop_last()) {
            Some(before) => apply(before, ops.last()),
            None => None,
        }
    }
}

/// The tables after replacing slots one after the other, or nothing where a
/// write fails.
pub open spec fn run_batch(t: Tables, batch: Seq<SlotBatchView>) -> Option<Tables>
    decreases batch.len(),
{
    if batch.len() == 0 {
        Some(t)
    } else {
        match run_batch(t, batch.drop_last()) {
            Some(before) => run_ops(before, slot_ops(batch.last())),
            None => None,
        }
    }
}

/// The tables after a batch in one transaction: all of it or nothing.
pub open spec fn committed(t: Tables, batch: Seq<SlotBatchView>) -> Tables {
    match run_batch(t, batch) {
        Some(after) => after,
        None => t,
    }
}

/// Whether a key occurs among rows.
pub open spec fn has_key<K, V>(rows: Seq<(K, V)>, key: K) -> bool {
    exists|i: int| 0 <= i < rows.len() && (#[trigger] rows[i]).0 == key
}

/// Whether the rows of a slot in a table are exactly these.
pub open spec fn holds_rows<K, W>(
    table: Map<K, (i64, W)>,
    slot: i64,
    rows: Seq<(K, (i64, W))>,
) -> bool {
    &&& forall|k: K| #[trigger]
        table.contains_key(k) && table[k].0 == slot ==> has_key(rows, k)
    &&& forall|i: int|
        0 <= i < rows.len() ==> table.contains_key((#[trigger] rows[i]).0) && table[rows[i].0]
            == rows[i].1
    &&& forall|i: int, j: int|
        0 <= i < j < rows.len() ==> (#[trigger] rows[i]).0 != (#[trigger] rows[j]).0
}

/// Whether the tables hold exactly the data of a slot, apart from steps.
pub open spec fn holds_slot(t: Tables, row: SlotBatchView) -> bool {
    let slot = row.0 as i64;
    &&& holds_rows(t.transactions, slot, transaction_rows(slot_transactions(row)))
    &&& holds_rows(t.locks, slot, lock_rows(slot_locks(row)))
    &&& holds_rows(t.token_changes, slot, token_change_rows(slot_token_changes(row)))
    &&& all_fit(slot_token_changes(row))
    &&& t.blocks.contains_key(slot)
    &&& t.blocks[slot] == (row.1, row.2.len() as i32)
}

proof fn lemma_append_rows<K, V>(table: Map<K, V>, rows: Seq<(K, V)>)
    ensures
        match append_rows(table, rows) {
            Some(t) => {
                &&& forall|i: int|
                    0 <= i < rows.len() ==> {
                        &&& !table.contains_key((#[trigger] rows[i]).0)
                        &&& t.contains_key(rows[i].0)
                        &&& t[rows[i].0] == rows[i].1
                    }
                &&& forall|i: int, j: int|
                    0 <= i < j < rows.len() ==> (#[trigger] rows[i]).0 != (#[trigger] rows[j]).0
                &&& forall|k: K| #[trigger]
                    t.contains_key(k) <==> table.contains_key(k) || has_key(rows, k)
                &&& forall|k: K| #[trigger] table.contains_key(k) ==> t[k] == table[k]
            },
            None => (exists|i: int|
                0 <= i < rows.len() && table.contains_key((#[trigger] rows[i]).0)) || (exists|
                i: int,
                j: int,
            |
                0 <= i < j < rows.len() && (#[trigger] rows[i]).0 == (#[trigger] rows[j]).0),
        },
    decreases rows.len(),
{
    if rows.len() > 0 {
        let d = rows.drop_last();
        let last = rows.last();
        lemma_append_rows(table, d);
        assert forall|i: int| 0 <= i < d.len() implies #[trigger] d[i] == rows[i] by {}
        match append_rows(table, d) {
            None => {
                if exists|i: int| 0 <= i < d.len() && table.contains_key((#[trigger] d[i]).0) {
                    let i = choose|i: int|
                        0 <= i < d.len() && table.contains_key((#[trigger] d[i]).0);
                    assert(table.contains_key(rows[i].0));
                } else {
                    let (i, j) = choose|i: int, j: int|
                        0 <= i < j < d.len() && (#[trigger] d[i]).0 == (#[trigger] d[j]).0;
                    assert(rows[i].0 == rows[j].0);
                }
            },
            Some(before) => {
                let n = rows.len() - 1;
                assert(rows[n] == last);
                if before.contains_key(last.0) {
                    if table.contains_key(last.0) {
                        assert(table.contains_key(rows[n].0));
                    } else {
                        let i = choose|i: int| 0 <= i < d.len() && (#[trigger] d[i]).0 == last.0;
                        assert(rows[i].0 == rows[n].0);
                    }
                } else {
                    let t = before.insert(last.0, last.1);
                    assert forall|k: K| #[trigger] t.contains_key(k) <==> table.contains_key(k)
                        || has_key(rows, k) by {
                        if has_key(d, k) {
                            let i = choose|i: int| 0 <= i < d.len() && (#[trigger] d[i]).0 == k;
                            assert(rows[i].0 == k);
                        }
                        if has_key(rows, k) {
                            let i = choose|i: int|
                                0 <= i < rows.len() && (#[trigger] rows[i]).0 == k;
                            if i < n {
                                assert(d[i].0 == k);
                                assert(before.contains_key(k));
                            }
                        }
                    }
                    assert forall|i: int| 0 <= i < rows.len() implies {
                        &&& !table.contains_key((#[trigger] rows[i]).0)
                        &&& t.contains_key(rows[i].0)
                        &&& t[rows[i].0] == rows[i].1
                    } by {
                        if i < n {
                            assert(d[i] == rows[i]);
                            assert(before.contains_key(rows[i].0));
                        } else {
                            assert(!before.contains_key(last.0));
                        }
                    }
                    assert forall|i: int, j: int| 0 <= i < j < rows.len() implies (
                    #[trigger] rows[i]).0 != (#[trigger] rows[j]).0 by {
                        if j < n {
                            assert(d[i].0 != d[j].0);
                        } else {
                            assert(d[i] == rows[i]);
                            assert(before.contains_key(d[i].0));
                        }
                    }
                    assert forall|k: K| #[trigger] table.contains_key(k) implies t[k]
                        == table[k] by {
                        assert(before.contains_key(k));
                    }
                }
            },
        }
    } else {
        assert forall|k: K| !(#[trigger] has_key(rows, k)) by {}
    }
}

/// Replacing a slot's rows leaves exactly those.
proof fn lemma_replaced<K, W>(
    table: Map<K, (i64, W)>,
    slot: i64,
    rows: Seq<(K, (i64, W))>,
    after: Map<K, (i64, W)>,
)
    requires
        append_rows(without_slot(table, slot), rows) == Some(after),
        forall|i: int| 0 <= i < rows.len() ==> (#[trigger] rows[i]).1.0 == slot,
    ensures
        holds_rows(after, slot, rows),
        forall|k: K|
            #![trigger after.contains_key(k)]
            #![trigger table.contains_key(k)]
            !has_key(rows, k) ==> (after.contains_key(k) <==> table.contains_key(k)
                && table[k].0 != slot),
        forall|k: K|
            #![trigger after.contains_key(k)]
            !has_key(rows, k) && after.contains_key(k) ==> after[k] == table[k],
{
    let rest = without_slot(table, slot);
    lemma_append_rows(rest, rows);
    assert forall|k: K| #[trigger]
        after.contains_key(k) && after[k].0 == slot implies has_key(rows, k) by {
        if !has_key(rows, k) {
            assert(rest.contains_key(k));
        }
    }
    assert forall|k: K|
        #![trigger after.contains_key(k)]
        #![trigger table.contains_key(k)]
        !has_key(rows, k) implies (after.contains_key(k) <==> table.contains_key(k) && table[k].0
        != slot) by {
        assert(rest.contains_key(k) <==> table.contains_key(k) && table[k].0 != slot);
        assert(after.contains_key(k) <==> rest.contains_key(k));
    }
    assert forall|k: K|
        #![trigger after.contains_key(k)]
        !has_key(rows, k) && after.contains_key(k) implies after[k] == table[k] by {
        assert(rest.contains_key(k));
    }
}

/// Replacing a slot's rows by those that are there changes nothing.
proof fn lemma_replace_same<K, W>(table: Map<K, (i64, W)>, slot: i64, rows: Seq<(K, (i64, W))>)
    requires
        holds_rows(table, slot, rows),
        forall|i: int| 0 <= i < rows.len() ==> (#[trigger] rows[i]).1.0 == slot,
    ensures
        append_rows(without_slot(table, slot), rows) == Some(table),
{
    let rest = without_slot(table, slot);
    lemma_append_rows(rest, rows);
    assert forall|i: int| 0 <= i < rows.len() implies !rest.contains_key(
        (#[trigger] rows[i]).0,
    ) by {
        assert(table[rows[i].0].0 == slot);
    }
    match append_rows(rest, rows) {
        None => {},
        Some(t) => {
            assert forall|k: K| #[trigger] t.contains_key(k) <==> table.contains_key(k) by {
                if has_key(rows, k) {
                    let i = choose|i: int| 0 <= i < rows.len() && (#[trigger] rows[i]).0 == k;
                    assert(table.contains_key(rows[i].0));
                } else {
                    assert(rest.contains_key(k) <==> table.contains_key(k) && table[k].0 != slot);
                }
            }
            assert forall|k: K| #[trigger] t.contains_key(k) implies t[k] == table[k] by {
                if has_key(rows, k) {
                    let i = choose|i: int| 0 <= i < rows.len() && (#[trigger] rows[i]).0 == k;
                    assert(t[rows[i].0] == rows[i].1);
                } else {
                    assert(rest.contains_key(k));
                }
            }
            assert(t =~= table);
        },
    }
}

/// Replacing one slot's rows leaves another slot's as they are.
proof fn lemma_replace_other<K, W>(
    table: Map<K, (i64, W)>,
    slot: i64,
    rows: Seq<(K, (i64, W))>,
    after: Map<K, (i64, W)>,
    other: i64,
    kept: Seq<(K, (i64, W))>,
)
    requires
        append_rows(without_slot(table, slot), rows) == Some(after),
        forall|i: int| 0 <= i < rows.len() ==> (#[trigger] rows[i]).1.0 == slot,
        forall|i: int| 0 <= i < kept.len() ==> (#[trigger] kept[i]).1.0 == other,
        holds_rows(table, other, kept),
        slot != other,
    ensures
        holds_rows(after, other, kept),
        forall|i: int| 0 <= i < kept.len() ==> !has_key(rows, (#[trigger] kept[i]).0),
{
    let rest = without_slot(table, slot);
    lemma_append_rows(rest, rows);
    lemma_replaced(table, slot, rows, after);
    assert forall|i: int| 0 <= i < kept.len() implies !has_key(rows, (#[trigger] kept[i]).0)
        && after.contains_key(kept[i].0) && after[kept[i].0] == kept[i].1 by {
        let k = kept[i].0;
        assert(table.contains_key(k) && table[k].0 == other);
        assert(rest.contains_key(k));
        if has_key(rows, k) {
            let j = choose|j: int| 0 <= j < rows.len() && (#[trigger] rows[j]).0 == k;
            assert(!rest.contains_key(rows[j].0));
        }
        assert(after.contains_key(k));
    }
    assert forall|k: K| #[trigger]
        after.contains_key(k) && after[k].0 == other implies has_key(kept, k) by {
        if has_key(rows, k) {
            let j = choose|j: int| 0 <= j < rows.len() && (#[trigger] rows[j]).0 == k;
            assert(after[rows[j].0].0 == slot);
        } else {
            assert(table.contains_key(k));
        }
    }
}

/// The steps of transactions outside a slot.
spec fn steps_without(t: Tables, slot: i64) -> Map<Seq<char>, i32> {
    Map::new(
        |k: Seq<char>|
            t.steps.contains_key(k) && !(t.transactions.contains_key(k) && t.transactions[k].0
                == slot),
        |k: Seq<char>| t.steps[k],
    )
}

/// What the writes of one slot come to.
spec fn replaced(t: Tables, row: SlotBatchView) -> Option<Tables> {
    let slot = row.0 as i64;
    match append_rows(
        without_slot(t.transactions, slot),
        transaction_rows(slot_transactions(row)),
    ) {
        None => None,
        Some(transactions) => match append_rows(
            without_slot(t.locks, slot),
            lock_rows(slot_locks(row)),
        ) {
            None => None,
            Some(locks) => match append_rows(
                without_slot(t.token_changes, slot),
                token_change_rows(slot_token_changes(row)),
            ) {
                None => None,
                Some(token_changes) => if all_fit(slot_token_changes(row)) {
                    Some(
                        Tables {
                            blocks: t.blocks.insert(slot, (row.1, row.2.len() as i32)),
                            transactions,
                            steps: put_steps(steps_without(t, slot), slot_transactions(row)),
                            locks,
                            token_changes,
                            ..t
                        },
                    )
                } else {
                    None
                },
            },
        },
    }
}

proof fn lemma_run_take_succ(t: Tables, ops: Seq<StoreOpView>, n: int)
    requires
        0 <= n < ops.len(),
    ensures
        run_ops(t, ops.take(n + 1)) == match run_ops(t, ops.take(n)) {
            Some(before) => apply(before, ops[n]),
            None => None,
        },
{
    assert(ops.take(n + 1).drop_last() =~= ops.take(n));
}

proof fn lemma_run_slot(t: Tables, row: SlotBatchView)
    ensures
        run_ops(t, slot_ops(row)) == replaced(t, row),
{
    let ops = slot_ops(row);
    lemma_run_take_succ(t, ops, 0);
    lemma_run_take_succ(t, ops, 1);
    lemma_run_take_succ(t, ops, 2);
    lemma_run_take_succ(t, ops, 3);
    lemma_run_take_succ(t, ops, 4);
    lemma_run_take_succ(t, ops, 5);
    lemma_run_take_succ(t, ops, 6);
    assert(run_ops(t, ops.take(0)) == Some(t));
    assert(ops.take(7) =~= ops);
    let slot = row.0 as i64;
    let t3 = run_ops(t, ops.take(3))->0;
    assert(t3.steps =~= steps_without(t, slot));
}

/// Whether the steps of a slot's transactions are those that its rows came with.
spec fn steps_done(t: Tables, row: SlotBatchView) -> bool {
    forall|i: int|
        0 <= i < slot_transactions(row).len() ==> t.steps.get(
            (#[trigger] slot_transactions(row)[i]).0,
        ) == slot_transactions(row)[i].5
}

proof fn lemma_put_steps(steps: Map<Seq<char>, i32>, rows: Seq<StoredTransactionView>)
    requires
        forall|i: int, j: int|
            0 <= i < j < rows.len() ==> (#[trigger] rows[i]).0 != (#[trigger] rows[j]).0,
    ensures
        forall|i: int|
            0 <= i < rows.len() ==> put_steps(steps, rows).get((#[trigger] rows[i]).0)
                == rows[i].5,
        forall|k: Seq<char>|
            (forall|i: int| 0 <= i < rows.len() ==> (#[trigger] rows[i]).0 != k)
                ==> #[trigger] put_steps(steps, rows).get(k) == steps.get(k),
    decreases rows.len(),
{
    if rows.len() > 0 {
        let d = rows.drop_last();
        assert forall|i: int| 0 <= i < d.len() implies #[trigger] d[i] == rows[i] by {}
        assert forall|i: int, j: int| 0 <= i < j < d.len() implies (#[trigger] d[i]).0 != (
        #[trigger] d[j]).0 by {
            assert(rows[i].0 != rows[j].0);
        }
        lemma_put_steps(steps, d);
        let n = rows.len() - 1;
        assert forall|i: int| 0 <= i < rows.len() implies put_steps(steps, rows).get(
            (#[trigger] rows[i]).0,
        ) == rows[i].5 by {
            if i < n {
                assert(d[i] == rows[i]);
                assert(rows[i].0 != rows[n].0);
            }
        }
        assert forall|k: Seq<char>|
            (forall|i: int| 0 <= i < rows.len() ==> (#[trigger] rows[i]).0
                != k) implies #[trigger] put_steps(steps, rows).get(k) == steps.get(k) by {
            assert(rows[n].0 != k);
            assert forall|i: int| 0 <= i < d.len() implies (#[trigger] d[i]).0 != k by {
                assert(rows[i].0 != k);
            }
            assert(put_steps(steps, d).get(k) == steps.get(k));
        }
    }
}

/// All rows of a slot carry its number.
proof fn lemma_rows_carry_slot(row: SlotBatchView)
    ensures
        forall|i: int|
            0 <= i < transaction_rows(slot_transactions(row)).len() ==> (
            #[trigger] transaction_rows(slot_transactions(row))[i]).1.0 == row.0 as i64,
        forall|i: int|
            0 <= i < lock_rows(slot_locks(row)).len() ==> (#[trigger] lock_rows(
                slot_locks(row),
            )[i]).1.0 == row.0 as i64,
        forall|i: int|
            0 <= i < token_change_rows(slot_token_changes(row)).len() ==> (
            #[trigger] token_change_rows(slot_token_changes(row))[i]).1.0 == row.0 as i64,
{
}

/// Signatures of a slot are distinct where its rows are held.
pub proof fn lemma_signatures_distinct(t: Tables, row: SlotBatchView)
    requires
        holds_rows(
            t.transactions,
            row.0 as i64,
            transaction_rows(slot_transactions(row)),
        ),
    ensures
        forall|i: int, j: int|
            0 <= i < j < slot_transactions(row).len() ==> (#[trigger] slot_transactions(row)[i]).0
                != (#[trigger] slot_transactions(row)[j]).0,
{
    let rows = slot_transactions(row);
    assert forall|i: int, j: int| 0 <= i < j < rows.len() implies (#[trigger] rows[i]).0 != (
    #[trigger] rows[j]).0 by {
        assert(transaction_rows(rows)[i].0 != transaction_rows(rows)[j].0);
    }
}

/// After its replacement, a slot is held, with the steps that its rows came with.
proof fn lemma_slot_after(t: Tables, row: SlotBatchView, after: Tables)
    requires
        run_ops(t, slot_ops(row)) == Some(after),
    ensures
        holds_slot(after, row),
        steps_done(after, row),
{
    let slot = row.0 as i64;
    lemma_run_slot(t, row);
    lemma_rows_carry_slot(row);
    lemma_replaced(
        t.transactions,
        slot,
        transaction_rows(slot_transactions(row)),
        after.transactions,
    );
    lemma_replaced(t.locks, slot, lock_rows(slot_locks(row)), after.locks);
    lemma_replaced(
        t.token_changes,
        slot,
        token_change_rows(slot_token_changes(row)),
        after.token_changes,
    );
    lemma_signatures_distinct(after, row);
    lemma_put_steps(steps_without(t, slot), slot_transactions(row));
}

/// Replacing one slot leaves another as it is, steps and all.
proof fn lemma_slot_other(t: Tables, row: SlotBatchView, after: Tables, other: SlotBatchView)
    requires
        run_ops(t, slot_ops(row)) == Some(after),
        holds_slot(t, other),
        steps_done(t, other),
        row.0 as i64 != other.0 as i64,
    ensures
        holds_slot(after, other),
        steps_done(after, other),
{
    let slot = row.0 as i64;
    let kept = other.0 as i64;
    lemma_run_slot(t, row);
    lemma_slot_after(t, row, after);
    lemma_rows_carry_slot(row);
    lemma_rows_carry_slot(other);
    let rows = slot_transactions(row);
    let others = slot_transactions(other);
    lemma_replace_other(
        t.transactions,
        slot,
        transaction_rows(rows),
        after.transactions,
        kept,
        transaction_rows(others),
    );
    lemma_replace_other(
        t.locks,
        slot,
        lock_rows(slot_locks(row)),
        after.locks,
        kept,
        lock_rows(slot_locks(other)),
    );
    lemma_replace_other(
        t.token_changes,
        slot,
        token_change_rows(slot_token_changes(row)),
        after.token_changes,
        kept,
        token_change_rows(slot_token_changes(other)),
    );
    lemma_signatures_distinct(after, row);
    lemma_put_steps(steps_without(t, slot), rows);
    assert forall|i: int| 0 <= i < others.len() implies after.steps.get((#[trigger] others[i]).0)
        == others[i].5 by {
        let k = others[i].0;
        assert(transaction_rows(others)[i].0 == k);
        assert(!has_key(transaction_rows(rows), k));
        assert forall|j: int| 0 <= j < rows.len() implies (#[trigger] rows[j]).0 != k by {
            assert(transaction_rows(rows)[j].0 == rows[j].0);
        }
        assert(t.transactions.contains_key(k) && t.transactions[k].0 == kept);
        assert(steps_without(t, slot).get(k) == t.steps.get(k));
    }
}

/// The tables agree in everything but steps.
pub open spec fn same_but_steps(a: Tables, b: Tables) -> bool {
    &&& a.blocks == b.blocks
    &&& a.transactions == b.transactions
    &&& a.locks == b.locks
    &&& a.token_changes == b.token_changes
    &&& a.statuses == b.statuses
    &&& a.candles == b.candles
}

/// Replacing a slot that is held resets its steps and changes nothing else.
proof fn lemma_slot_again(t: Tables, row: SlotBatchView)
    requires
        holds_slot(t, row),
    ensures
        match run_ops(t, slot_ops(row)) {
            None => false,
            Some(after) => {
                &&& same_but_steps(after, t)
                &&& steps_done(after, row)
                &&& forall|k: Seq<char>|
                    !has_key(transaction_rows(slot_transactions(row)), k)
                        ==> #[trigger] after.steps.get(k) == t.steps.get(k)
            },
        },
{
    let slot = row.0 as i64;
    let rows = slot_transactions(row);
    lemma_run_slot(t, row);
    lemma_rows_carry_slot(row);
    lemma_replace_same(t.transactions, slot, transaction_rows(rows));
    lemma_replace_same(t.locks, slot, lock_rows(slot_locks(row)));
    lemma_replace_same(t.token_changes, slot, token_change_rows(slot_token_changes(row)));
    let after = run_ops(t, slot_ops(row))->0;
    assert(after.blocks =~= t.blocks);
    lemma_slot_after(t, row, after);
    lemma_signatures_distinct(t, row);
    lemma_put_steps(steps_without(t, slot), rows);
    assert forall|k: Seq<char>| !has_key(transaction_rows(rows), k) implies #[trigger] after.steps.get(
        k,
    ) == t.steps.get(k) by {
        assert forall|j: int| 0 <= j < rows.len() implies (#[trigger] rows[j]).0 != k by {
            assert(transaction_rows(rows)[j].0 == rows[j].0);
        }
        assert(!(t.transactions.contains_key(k) && t.transactions[k].0 == slot));
        assert(steps_without(t, slot).get(k) == t.steps.get(k));
    }
}

/// Slot numbers of a batch are distinct.
pub open spec fn distinct_slots(batch: Seq<SlotBatchView>) -> bool {
    forall|i: int, j: int| 0 <= i < j < batch.len() ==> (#[trigger] batch[i]).0 != (
    #[trigger] batch[j]).0
}

/// Different slots are stored as different numbers.
pub proof fn lemma_stored_slots_distinct(a: u64, b: u64)
    requires
        a != b,
    ensures
        a as i64 != b as i64,
{
    assert((a as i64) as u64 == a) by (bit_vector);
    assert((b as i64) as u64 == b) by (bit_vector);
}

/// After a batch, every slot of it is held.
proof fn lemma_batch_after(t: Tables, batch: Seq<SlotBatchView>, after: Tables)
    requires
        distinct_slots(batch),
        run_batch(t, batch) == Some(after),
    ensures
        forall|i: int|
            0 <= i < batch.len() ==> holds_slot(after, #[trigger] batch[i]) && steps_done(
                after,
                batch[i],
            ),
    decreases batch.len(),
{
    if batch.len() > 0 {
        let d = batch.drop_last();
        let last = batch.last();
        assert forall|i: int, j: int| 0 <= i < j < d.len() implies (#[trigger] d[i]).0 != (
        #[trigger] d[j]).0 by {
            assert(batch[i].0 != batch[j].0);
        }
        let before = run_batch(t, d)->0;
        lemma_batch_after(t, d, before);
        lemma_slot_after(before, last, after);
        assert forall|i: int| 0 <= i < batch.len() implies holds_slot(after, #[trigger] batch[i])
            && steps_done(after, batch[i]) by {
            if i < d.len() {
                assert(d[i] == batch[i]);
                assert(batch[i].0 != batch[batch.len() - 1].0);
                lemma_stored_slots_distinct(last.0, batch[i].0);
                lemma_slot_other(before, last, after, batch[i]);
            }
        }
    }
}

/// Running a batch again resets steps and changes nothing else.
proof fn lemma_batch_again(first: Tables, t: Tables, batch: Seq<SlotBatchView>)
    requires
        same_but_steps(first, t),
        forall|i: int|
            0 <= i < batch.len() ==> holds_slot(first, #[trigger] batch[i]) && steps_done(
                first,
                batch[i],
            ),
    ensures
        match run_batch(t, batch) {
            None => false,
            Some(after) => {
                &&& same_but_steps(after, t)
                &&& forall|k: Seq<char>| #[trigger]
                    after.steps.get(k) == first.steps.get(k) || after.steps.get(k) == t.steps.get(k)
            },
        },
    decreases batch.len(),
{
    if batch.len() > 0 {
        let d = batch.drop_last();
        let last = batch.last();
        assert forall|i: int| 0 <= i < d.len() implies holds_slot(first, #[trigger] d[i])
            && steps_done(first, d[i]) by {
            assert(d[i] == batch[i]);
        }
        assert(batch[batch.len() - 1] == last);
        lemma_batch_again(first, t, d);
        let before = run_batch(t, d)->0;
        lemma_slot_again(before, last);
        let after = run_batch(t, batch)->0;
        let rows = slot_transactions(last);
        assert forall|k: Seq<char>| #[trigger]
            after.steps.get(k) == first.steps.get(k) || after.steps.get(k) == t.steps.get(k) by {
            if has_key(transaction_rows(rows), k) {
                let i = choose|i: int|
                    0 <= i < transaction_rows(rows).len() && (#[trigger] transaction_rows(
                        rows,
                    )[i]).0 == k;
                assert(rows[i].0 == k);
            } else {
                assert(after.steps.get(k) == before.steps.get(k));
            }
        }
    }
}

/// Whether all writes set steps.
pub open spec fn are_step_ops(ops: Seq<StoreOpView>) -> bool {
    forall|i: int| 0 <= i < ops.len() ==> #[trigger] ops[i] is SetStep
}

/// The step that the last of the writes for a signature sets.
pub open spec fn last_step(ops: Seq<StoreOpView>, k: Seq<char>) -> Option<i32>
    decreases ops.len(),
{
    if ops.len() == 0 {
        None
    } else {
        match ops.last() {
            StoreOpView::SetStep { signature, step } => if signature == k {
                Some(step)
            } else {
                last_step(ops.drop_last(), k)
            },
            _ => last_step(ops.drop_last(), k),
        }
    }
}

/// Setting steps never fails, and changes nothing else.
pub proof fn lemma_step_ops(t: Tables, ops: Seq<StoreOpView>)
    requires
        are_step_ops(ops),
    ensures
        match run_ops(t, ops) {
            None => false,
            Some(after) => {
                &&& same_but_steps(after, t)
                &&& forall|k: Seq<char>| #[trigger]
                    after.steps.get(k) == if last_step(ops, k) is Some
                        && t.transactions.contains_key(k) {
                        last_step(ops, k)
                    } else {
                        t.steps.get(k)
                    }
            },
        },
    decreases ops.len(),
{
    if ops.len() > 0 {
        let d = ops.drop_last();
        assert forall|i: int| 0 <= i < d.len() implies #[trigger] d[i] is SetStep by {
            assert(d[i] == ops[i]);
        }
        lemma_step_ops(t, d);
        assert(ops[ops.len() - 1] is SetStep);
        let before = run_ops(t, d)->0;
        let after = run_ops(t, ops)->0;
        assert forall|k: Seq<char>| #[trigger]
            after.steps.get(k) == if last_step(ops, k) is Some && t.transactions.contains_key(k) {
                last_step(ops, k)
            } else {
                t.steps.get(k)
            } by {
            assert(before.steps.get(k) == if last_step(d, k) is Some
                && t.transactions.contains_key(k) {
                last_step(d, k)
            } else {
                t.steps.get(k)
            });
        }
    }
}

/// The tables after a batch and the steps of its schedules.
pub open spec fn flushed(
    t: Tables,
    batch: Seq<SlotBatchView>,
    steps: Seq<StoreOpView>,
) -> Option<Tables> {
    match run_batch(t, batch) {
        Some(after) => run_ops(after, steps),
        None => None,
    }
}

/// Ingesting is idempotent: writing slots and their schedules a second time
/// succeeds and changes nothing.
pub proof fn law_ingesting_again_changes_nothing(
    t: Tables,
    batch: Seq<SlotBatchView>,
    steps: Seq<StoreOpView>,
)
    requires
        distinct_slots(batch),
        are_step_ops(steps),
        flushed(t, batch, steps) is Some,
    ensures
        flushed(flushed(t, batch, steps)->0, batch, steps) == flushed(t, batch, steps),
{
    let first = run_batch(t, batch)->0;
    let done = flushed(t, batch, steps)->0;
    lemma_batch_after(t, batch, first);
    lemma_step_ops(first, steps);
    lemma_batch_again(first, done, batch);
    let again = run_batch(done, batch)->0;
    lemma_step_ops(again, steps);
    let last = run_ops(again, steps)->0;
    assert forall|k: Seq<char>| #[trigger] last.steps.get(k) == done.steps.get(k) by {
        assert(again.steps.get(k) == first.steps.get(k) || again.steps.get(k) == done.steps.get(
            k,
        ));
        assert(done.steps.get(k) == if last_step(steps, k) is Some
            && first.transactions.contains_key(k) {
            last_step(steps, k)
        } else {
            first.steps.get(k)
        });
    }
    assert(last.steps =~= done.steps) by {
        assert forall|k: Seq<char>| #[trigger]
            last.steps.contains_key(k) <==> done.steps.contains_key(k) by {
            assert(last.steps.get(k) == done.steps.get(k));
        }
        assert forall|k: Seq<char>| #[trigger] last.steps.contains_key(k) implies last.steps[k]
            == done.steps[k] by {
            assert(last.steps.get(k) == done.steps.get(k));
        }
    }
}

/// Replacing slots a second time succeeds and changes nothing.
pub proof fn law_replacing_again_changes_nothing(t: Tables, batch: Seq<SlotBatchView>)
    requires
        distinct_slots(batch),
        run_batch(t, batch) is Some,
    ensures
        run_batch(run_batch(t, batch)->0, batch) == run_batch(t, batch),
{
    let none = Seq::<StoreOpView>::empty();
    law_ingesting_again_changes_nothing(t, batch, none);
}

/// A replaced slot is in the tables with exactly its own rows.
pub proof fn law_batch_stores_its_slots(t: Tables, batch: Seq<SlotBatchView>, i: int)
    requires
        distinct_slots(batch),
        run_batch(t, batch) is Some,
        0 <= i < batch.len(),
    ensures
        holds_slot(run_batch(t, batch)->0, batch[i]),
{
    lemma_batch_after(t, batch, run_batch(t, batch)->0);
}

/// A slot with two transactions of one signature fails the batch.
pub proof fn law_duplicate_signature_fails_the_batch(
    t: Tables,
    batch: Seq<SlotBatchView>,
    n: int,
    i: int,
    j: int,
)
    requires
        0 <= n < batch.len(),
        0 <= i < j < batch[n].2.len(),
        batch[n].2[i].0 == batch[n].2[j].0,
    ensures
        run_batch(t, batch) is None,
        committed(t, batch) == t,
    decreases batch.len(),
{
    if n < batch.len() - 1 {
        law_duplicate_signature_fails_the_batch(t, batch.drop_last(), n, i, j);
    } else if run_batch(t, batch) is Some {
        let before = run_batch(t, batch.drop_last())->0;
        let after = run_batch(t, batch)->0;
        lemma_slot_after(before, batch.last(), after);
        lemma_signatures_distinct(after, batch.last());
        let rows = slot_transactions(batch.last());
        assert(rows[i].0 != rows[j].0);
    }
}

/// Two rows of one mint in one transaction never collide: balance rows are
/// netted first, so a key is refused only where an earlier row is in the way.
pub proof fn law_netted_rows_do_not_collide(t: Tables, row: SlotBatchView)
    requires
        forall|i: int|
            0 <= i < row.4.len() ==> {
                let key = ((#[trigger] row.4[i]).0, row.4[i].1);
                t.token_changes.contains_key(key) ==> t.token_changes[key].0 == row.0 as i64
            },
    ensures
        append_rows(
            without_slot(t.token_changes, row.0 as i64),
            token_change_rows(slot_token_changes(row)),
        ) is Some,
{
    let slot = row.0 as i64;
    let rest = without_slot(t.token_changes, slot);
    let rows = token_change_rows(slot_token_changes(row));
    let netted = coalesced(row.4);
    lemma_append_rows(rest, rows);
    law_netted_rows_are_keyed(row.4);
    assert forall|i: int| 0 <= i < rows.len() implies !rest.contains_key(
        (#[trigger] rows[i]).0,
    ) by {
        let key = (netted[i].0, netted[i].1);
        assert(rows[i].0 == key);
        if !pairs_of(row.4).contains(key) {
            lemma_net_absent(row.4, key);
        }
        let k = choose|k: int| 0 <= k < row.4.len() && pairs_of(row.4)[k] == key;
        assert((row.4[k].0, row.4[k].1) == key);
    }
    assert forall|i: int, j: int| 0 <= i < j < rows.len() implies (#[trigger] rows[i]).0 != (
    #[trigger] rows[j]).0 by {
        assert(pairs_of(netted)[i] != pairs_of(netted)[j]);
    }
}

/// A netted balance change with an amount or decimals beyond the columns fails
/// the batch.
pub proof fn law_amounts_beyond_the_columns_fail_the_batch(
    t: Tables,
    batch: Seq<SlotBatchView>,
    n: int,
    i: int,
)
    requires
        0 <= n < batch.len(),
        0 <= i < coalesced(batch[n].4).len(),
        ({
            let row = coalesced(batch[n].4)[i];
            row.2 > i64::MAX || row.3 > i64::MAX || row.4 > i8::MAX
        }),
    ensures
        run_batch(t, batch) is None,
        committed(t, batch) == t,
    decreases batch.len(),
{
    if n < batch.len() - 1 {
        law_amounts_beyond_the_columns_fail_the_batch(t, batch.drop_last(), n, i);
    } else if run_batch(t, batch) is Some {
        let before = run_batch(t, batch.drop_last())->0;
        let after = run_batch(t, batch)->0;
        lemma_slot_after(before, batch.last(), after);
        let row = coalesced(batch[n].4)[i];
        let stored = slot_token_changes(batch[n])[i];
        assert(fits_columns(stored));
        let (pre, post, decimals) = (row.2, row.3, row.4);
        assert(pre > 0x7fff_ffff_ffff_ffff ==> (pre as i64) < 0) by (bit_vector);
        assert(post > 0x7fff_ffff_ffff_ffff ==> (post as i64) < 0) by (bit_vector);
    }
}

/// The rows of a table that carry a slot.
pub open spec fn slot_rows_of<K, W>(table: Map<K, (i64, W)>, slot: i64) -> Map<K, (i64, W)> {
    Map::new(|k: K| table.contains_key(k) && table[k].0 == slot, |k: K| table[k])
}

/// Whether a slot's rows are the same, apart from steps.
pub open spec fn same_rows(a: Tables, b: Tables, slot: i64) -> bool {
    &&& slot_rows_of(a.transactions, slot) == slot_rows_of(b.transactions, slot)
    &&& slot_rows_of(a.locks, slot) == slot_rows_of(b.locks, slot)
    &&& slot_rows_of(a.token_changes, slot) == slot_rows_of(b.token_changes, slot)
    &&& a.blocks.get(slot) == b.blocks.get(slot)
}

/// Whether a slot's rows, and the steps of its transactions, are the same.
pub open spec fn same_slot(a: Tables, b: Tables, slot: i64) -> bool {
    &&& same_rows(a, b, slot)
    &&& forall|k: Seq<char>|
        a.transactions.contains_key(k) && a.transactions[k].0 == slot ==> #[trigger] a.steps.get(k)
            == b.steps.get(k)
}

proof fn lemma_replace_keeps<K, W>(
    table: Map<K, (i64, W)>,
    slot: i64,
    rows: Seq<(K, (i64, W))>,
    after: Map<K, (i64, W)>,
    other: i64,
)
    requires
        append_rows(without_slot(table, slot), rows) == Some(after),
        forall|i: int| 0 <= i < rows.len() ==> (#[trigger] rows[i]).1.0 == slot,
        slot != other,
    ensures
        slot_rows_of(after, other) == slot_rows_of(table, other),
        forall|k: K| #[trigger]
            table.contains_key(k) && table[k].0 == other ==> !has_key(rows, k),
{
    let rest = without_slot(table, slot);
    lemma_append_rows(rest, rows);
    assert forall|k: K| #[trigger] table.contains_key(k) && table[k].0 == other implies !has_key(
        rows,
        k,
    ) by {
        assert(rest.contains_key(k));
        if has_key(rows, k) {
            let i = choose|i: int| 0 <= i < rows.len() && (#[trigger] rows[i]).0 == k;
            assert(!rest.contains_key(rows[i].0));
        }
    }
    let x = slot_rows_of(after, other);
    let y = slot_rows_of(table, other);
    assert forall|k: K| #[trigger] x.contains_key(k) <==> y.contains_key(k) by {
        if has_key(rows, k) {
            let i = choose|i: int| 0 <= i < rows.len() && (#[trigger] rows[i]).0 == k;
            assert(after[rows[i].0].0 == slot);
        } else {
            assert(after.contains_key(k) <==> rest.contains_key(k));
            if rest.contains_key(k) {
                assert(after[k] == rest[k]);
            }
        }
    }
    assert forall|k: K| #[trigger] x.contains_key(k) implies x[k] == y[k] by {
        assert(y.contains_key(k));
        assert(rest.contains_key(k));
    }
    assert(x =~= y);
}

/// Replacing a slot leaves every other slot, all statuses and all candles as
/// they were.
pub proof fn law_replacing_a_slot_touches_no_other(t: Tables, row: SlotBatchView, other: i64)
    requires
        run_ops(t, slot_ops(row)) is Some,
        other != row.0 as i64,
    ensures
        ({
            let after = run_ops(t, slot_ops(row))->0;
            &&& same_slot(t, after, other)
            &&& after.statuses == t.statuses
            &&& after.candles == t.candles
        }),
{
    let slot = row.0 as i64;
    let after = run_ops(t, slot_ops(row))->0;
    let rows = slot_transactions(row);
    lemma_run_slot(t, row);
    lemma_rows_carry_slot(row);
    lemma_replace_keeps(t.transactions, slot, transaction_rows(rows), after.transactions, other);
    lemma_replace_keeps(t.locks, slot, lock_rows(slot_locks(row)), after.locks, other);
    lemma_replace_keeps(
        t.token_changes,
        slot,
        token_change_rows(slot_token_changes(row)),
        after.token_changes,
        other,
    );
    lemma_slot_after(t, row, after);
    lemma_signatures_distinct(after, row);
    lemma_put_steps(steps_without(t, slot), rows);
    assert forall|k: Seq<char>|
        t.transactions.contains_key(k) && t.transactions[k].0 == other implies #[trigger] t.steps.get(
        k,
    ) == after.steps.get(k) by {
        assert(!has_key(transaction_rows(rows), k));
        assert forall|j: int| 0 <= j < rows.len() implies (#[trigger] rows[j]).0 != k by {
            assert(transaction_rows(rows)[j].0 == rows[j].0);
        }
        assert(put_steps(steps_without(t, slot), rows).get(k) == steps_without(t, slot).get(k));
    }
}

/// A batch leaves every slot that is not of it as it was.
pub proof fn law_batch_touches_no_other_slot(t: Tables, batch: Seq<SlotBatchView>, other: i64)
    requires
        run_batch(t, batch) is Some,
        forall|i: int| 0 <= i < batch.len() ==> (#[trigger] batch[i]).0 as i64 != other,
    ensures
        same_slot(t, run_batch(t, batch)->0, other),
    decreases batch.len(),
{
    if batch.len() > 0 {
        let d = batch.drop_last();
        assert forall|i: int| 0 <= i < d.len() implies (#[trigger] d[i]).0 as i64 != other by {
            assert(d[i] == batch[i]);
        }
        law_batch_touches_no_other_slot(t, d, other);
        let before = run_batch(t, d)->0;
        let after = run_batch(t, batch)->0;
        assert(batch[batch.len() - 1].0 as i64 != other);
        law_replacing_a_slot_touches_no_other(before, batch.last(), other);
        assert forall|k: Seq<char>|
            t.transactions.contains_key(k) && t.transactions[k].0
                == other implies #[trigger] t.steps.get(k) == after.steps.get(k) by {
            assert(slot_rows_of(t.transactions, other).contains_key(k));
            assert(slot_rows_of(before.transactions, other).contains_key(k));
            assert(before.steps.get(k) == after.steps.get(k));
        }
    }
}

/// Replacing slots changes no status and no candle.
pub proof fn law_batch_keeps_statuses_and_candles(t: Tables, batch: Seq<SlotBatchView>)
    requires
        run_batch(t, batch) is Some,
    ensures
        (run_batch(t, batch)->0).statuses == t.statuses,
        (run_batch(t, batch)->0).candles == t.candles,
    decreases batch.len(),
{
    if batch.len() > 0 {
        law_batch_keeps_statuses_and_candles(t, batch.drop_last());
        lemma_run_slot(run_batch(t, batch.drop_last())->0, batch.last());
    }
}

/// A slot that is held stays held where its rows stay the same.
pub proof fn lemma_held_where_same(a: Tables, b: Tables, row: SlotBatchView)
    requires
        holds_slot(a, row),
        same_rows(a, b, row.0 as i64),
    ensures
        holds_slot(b, row),
{
    let slot = row.0 as i64;
    lemma_rows_carry_slot(row);
    lemma_rows_where_same(
        a.transactions,
        b.transactions,
        slot,
        transaction_rows(slot_transactions(row)),
    );
    lemma_rows_where_same(a.locks, b.locks, slot, lock_rows(slot_locks(row)));
    lemma_rows_where_same(
        a.token_changes,
        b.token_changes,
        slot,
        token_change_rows(slot_token_changes(row)),
    );
    assert(a.blocks.get(slot) == Some(a.blocks[slot]));
}

proof fn lemma_rows_where_same<K, W>(
    a: Map<K, (i64, W)>,
    b: Map<K, (i64, W)>,
    slot: i64,
    rows: Seq<(K, (i64, W))>,
)
    requires
        holds_rows(a, slot, rows),
        slot_rows_of(a, slot) == slot_rows_of(b, slot),
        forall|i: int| 0 <= i < rows.len() ==> (#[trigger] rows[i]).1.0 == slot,
    ensures
        holds_rows(b, slot, rows),
{
    let x = slot_rows_of(a, slot);
    let y = slot_rows_of(b, slot);
    assert forall|k: K| #[trigger] b.contains_key(k) && b[k].0 == slot implies has_key(
        rows,
        k,
    ) by {
        assert(y.contains_key(k));
        assert(x.contains_key(k));
        assert(a.contains_key(k));
    }
    assert forall|i: int| 0 <= i < rows.len() implies b.contains_key((#[trigger] rows[i]).0)
        && b[rows[i].0] == rows[i].1 by {
        let k = rows[i].0;
        assert(a.contains_key(k));
        assert(x.contains_key(k));
        assert(y.contains_key(k));
        assert(x[k] == y[k]);
    }
}

/// The last status of a slot wins.
pub proof fn law_last_status_wins(t: Tables, first: StoreOpView, second: StoreOpView)
    requires
        first is UpsertStatus,
        second is UpsertStatus,
        first->UpsertStatus_slot == second->UpsertStatus_slot,
    ensures
        apply(apply(t, first)->0, second) == apply(t, second),
{
    let a = apply(apply(t, first)->0, second)->0;
    let b = apply(t, second)->0;
    assert(a.statuses =~= b.statuses);
}

/// Whether `depth` is one more than the highest step stored for a range of
/// slots, both ends taken in, or zero where there is none.
pub open spec fn is_range_depth(t: Tables, from: i64, to: i64, depth: int) -> bool {
    &&& 0 <= depth
    &&& forall|k: Seq<char>|
        in_range(t, from, to, k) && #[trigger] t.steps.contains_key(k) ==> t.steps[k] < depth
    &&& depth > 0 ==> exists|k: Seq<char>|
        in_range(t, from, to, k) && #[trigger] t.steps.contains_key(k) && t.steps[k] + 1 == depth
}

/// Whether a transaction is stored for a slot of a range.
pub open spec fn in_range(t: Tables, from: i64, to: i64, signature: Seq<char>) -> bool {
    t.transactions.contains_key(signature) && from <= t.transactions[signature].0 <= to
}

/// The balance change that is stored under a key.
pub open spec fn change_at(t: Tables, key: (Seq<char>, Seq<char>)) -> StoredTokenChangeView {
    let (slot, (block_time, pre, post, decimals)) = t.token_changes[key];
    (key.0, slot, block_time, key.1, pre, post, decimals)
}

/// What was written is read back: each netted balance change of a batch is
/// found under its transaction and mint, with the amounts that it had.
pub proof fn law_balance_changes_read_back(
    t: Tables,
    batch: Seq<SlotBatchView>,
    n: int,
    i: int,
)
    requires
        distinct_slots(batch),
        run_batch(t, batch) is Some,
        0 <= n < batch.len(),
        0 <= i < coalesced(batch[n].4).len(),
    ensures
        ({
            let after = run_batch(t, batch)->0;
            let row = coalesced(batch[n].4)[i];
            let key = (row.0, row.1);
            &&& after.token_changes.contains_key(key)
            &&& loaded_balance_change(change_at(after, key)) == (
                row.0,
                batch[n].0,
                batch[n].1,
                row.1,
                row.2,
                row.3,
                row.4,
            )
        }),
{
    let after = run_batch(t, batch)->0;
    let slot = batch[n];
    let row = coalesced(slot.4)[i];
    lemma_batch_after(t, batch, after);
    assert(holds_slot(after, slot));
    let rows = token_change_rows(slot_token_changes(slot));
    assert(rows[i].0 == (row.0, row.1));
    law_stored_balance_change_reads_back(slot.0, slot.1, row);
    assert(change_at(after, (row.0, row.1)) == stored_token_change(slot.0, slot.1, row));
}

/// Nothing else is read back: each balance change that is stored for a slot of
/// a batch is one of its netted ones.
pub proof fn law_only_own_balance_changes_are_stored(
    t: Tables,
    batch: Seq<SlotBatchView>,
    n: int,
    key: (Seq<char>, Seq<char>),
)
    requires
        distinct_slots(batch),
        run_batch(t, batch) is Some,
        0 <= n < batch.len(),
        (run_batch(t, batch)->0).token_changes.contains_key(key),
        (run_batch(t, batch)->0).token_changes[key].0 == batch[n].0 as i64,
    ensures
        pairs_of(coalesced(batch[n].4)).contains(key),
{
    let after = run_batch(t, batch)->0;
    lemma_batch_after(t, batch, after);
    assert(holds_slot(after, batch[n]));
    let rows = token_change_rows(slot_token_changes(batch[n]));
    let i = choose|i: int| 0 <= i < rows.len() && (#[trigger] rows[i]).0 == key;
    assert(pairs_of(coalesced(batch[n].4))[i] == key);
}

/// What is written of a slot is what was given: after a batch, each of its
/// transactions is stored with its time, failure, programs and step, each lock
/// with its account and its kind, and its block with its time and size.
pub proof fn law_written_rows_are_as_given(t: Tables, batch: Seq<SlotBatchView>, n: int)
    requires
        distinct_slots(batch),
        run_batch(t, batch) is Some,
        0 <= n < batch.len(),
    ensures
        ({
            let after = run_batch(t, batch)->0;
            let (slot, time, txs, locks) = (
                batch[n].0 as i64,
                batch[n].1,
                batch[n].2,
                batch[n].3,
            );
            &&& after.blocks.get(slot) == Some((time, txs.len() as i32))
            &&& forall|i: int|
                0 <= i < txs.len() ==> after.transactions.get((#[trigger] txs[i]).0) == Some(
                    (slot, (time, txs[i].1, json_string_array(txs[i].2))),
                ) && after.steps.get(txs[i].0) == txs[i].3
            &&& forall|i: int|
                0 <= i < locks.len() ==> after.locks.get(((#[trigger] locks[i]).0, locks[i].1))
                    == Some((slot, locks[i].2))
        }),
{
    let after = run_batch(t, batch)->0;
    let row = batch[n];
    lemma_batch_after(t, batch, after);
    assert(holds_slot(after, row) && steps_done(after, row));
    assert forall|i: int| 0 <= i < row.2.len() implies after.transactions.get(
        (#[trigger] row.2[i]).0,
    ) == Some((row.0 as i64, (row.1, row.2[i].1, json_string_array(row.2[i].2))))
        && after.steps.get(row.2[i].0) == row.2[i].3 by {
        assert(transaction_rows(slot_transactions(row))[i].0 == row.2[i].0);
        assert(slot_transactions(row)[i].0 == row.2[i].0);
    }
    assert forall|i: int| 0 <= i < row.3.len() implies after.locks.get(
        ((#[trigger] row.3[i]).0, row.3[i].1),
    ) == Some((row.0 as i64, row.3[i].2)) by {
        assert(lock_rows(slot_locks(row))[i].0 == (row.3[i].0, row.3[i].1));
    }
}

/// Whether one of the transactions has a signature.
pub open spec fn names_transaction(txs: Seq<TransactionView>, signature: Seq<char>) -> bool {
    exists|i: int| 0 <= i < txs.len() && (#[trigger] txs[i]).0 == signature
}

/// Whether one of the locks is of a transaction and an account.
pub open spec fn names_lock(locks: Seq<AccountLockView>, key: (Seq<char>, Seq<char>)) -> bool {
    exists|i: int|
        0 <= i < locks.len() && (#[trigger] locks[i]).0 == key.0 && locks[i].1 == key.1
}

/// Nothing else is stored for a slot of a batch: each transaction and each lock
/// that the tables have for it was given with it.
pub proof fn law_only_given_rows_are_stored(t: Tables, batch: Seq<SlotBatchView>, n: int)
    requires
        distinct_slots(batch),
        run_batch(t, batch) is Some,
        0 <= n < batch.len(),
    ensures
        ({
            let after = run_batch(t, batch)->0;
            let (slot, txs, locks) = (batch[n].0 as i64, batch[n].2, batch[n].3);
            &&& forall|k: Seq<char>| #[trigger]
                after.transactions.contains_key(k) && after.transactions[k].0 == slot
                    ==> names_transaction(txs, k)
            &&& forall|k: (Seq<char>, Seq<char>)| #[trigger]
                after.locks.contains_key(k) && after.locks[k].0 == slot ==> names_lock(locks, k)
        }),
{
    let after = run_batch(t, batch)->0;
    let row = batch[n];
    lemma_batch_after(t, batch, after);
    assert(holds_slot(after, row));
    assert forall|k: Seq<char>| #[trigger]
        after.transactions.contains_key(k) && after.transactions[k].0
            == row.0 as i64 implies names_transaction(row.2, k) by {
        let rows = transaction_rows(slot_transactions(row));
        assert(has_key(rows, k));
        let i = choose|i: int| 0 <= i < rows.len() && (#[trigger] rows[i]).0 == k;
        assert(row.2[i].0 == k);
    }
    assert forall|k: (Seq<char>, Seq<char>)| #[trigger]
        after.locks.contains_key(k) && after.locks[k].0 == row.0 as i64 implies names_lock(
        row.3,
        k,
    ) by {
        let rows = lock_rows(slot_locks(row));
        assert(has_key(rows, k));
        let i = choose|i: int| 0 <= i < rows.len() && (#[trigger] rows[i]).0 == k;
        assert(row.3[i].0 == k.0);
    }
}

} // verus!
