//! Order-preserving schedule of one block, from its account locks.
//!
//! The RPC does not expose the validator's schedule; this one is a heuristic.
//! It keeps the block's order: a transaction starts only after every earlier
//! transaction that it conflicts with.
//!
//! Two reads of an account never conflict. A write conflicts with any read or
//! write of the same account.

use crate::index::KeyIndex;
use std::collections::HashMap;
use vstd::prelude::*;

verus! {

broadcast use vstd::std_specs::hash::group_hash_axioms;

/// One account lock held by a transaction.
#[derive(Debug, Clone, PartialEq, Eq)]
pub struct AccountLock {
    pub account: String,
    pub is_writable: bool,
}

/// The mathematical content of an [`AccountLock`].
pub struct LockView {
    pub account: Seq<char>,
    pub is_writable: bool,
}

impl DeepView for AccountLock {
    type V = LockView;

    open spec fn deep_view(&self) -> LockView {
        LockView { account: self.account@, is_writable: self.is_writable }
    }
}

impl AccountLock {
    /// A writable lock.
    pub fn write(account: &str) -> (lock: Self)
        ensures
            lock.deep_view() == (LockView { account: account@, is_writable: true }),
    {
        AccountLock { account: account.to_owned(), is_writable: true }
    }

    /// A read-only lock.
    pub fn read(account: &str) -> (lock: Self)
        ensures
            lock.deep_view() == (LockView { account: account@, is_writable: false }),
    {
        AccountLock { account: account.to_owned(), is_writable: false }
    }
}

/// A single transaction's account locks, as decoded from a block.
#[derive(Debug, Clone, PartialEq, Eq)]
pub struct TxLocks {
    pub signature: String,
    pub program_ids: Vec<String>,
    pub locks: Vec<AccountLock>,
}

/// The mathematical content of a [`TxLocks`].
pub struct TxLocksView {
    pub signature: Seq<char>,
    pub program_ids: Seq<Seq<char>>,
    pub locks: Seq<LockView>,
}

impl DeepView for TxLocks {
    type V = TxLocksView;

    open spec fn deep_view(&self) -> TxLocksView {
        TxLocksView {
            signature: self.signature@,
            program_ids: self.program_ids.deep_view(),
            locks: self.locks.deep_view(),
        }
    }
}

/// One reported conflict: a lock that meets an earlier one on its account, for
/// a breakdown by account and by program.
#[derive(Debug, Clone)]
pub struct ConflictEvent {
    pub account: String,
    pub tx_signature: String,
    pub program_ids: Vec<String>,
    pub step: usize,
    /// True if this was a write that met prior activity. Reads are only ever
    /// blocked by a conflict, never the cause of one.
    pub caused_by_write: bool,
}

/// The mathematical content of a [`ConflictEvent`].
pub struct ConflictView {
    pub account: Seq<char>,
    pub tx_signature: Seq<char>,
    pub program_ids: Seq<Seq<char>>,
    pub step: usize,
    pub caused_by_write: bool,
}

impl DeepView for ConflictEvent {
    type V = ConflictView;

    open spec fn deep_view(&self) -> ConflictView {
        ConflictView {
            account: self.account@,
            tx_signature: self.tx_signature@,
            program_ids: self.program_ids.deep_view(),
            step: self.step,
            caused_by_write: self.caused_by_write,
        }
    }
}

/// Result of scheduling one block.
#[derive(Debug, Clone)]
pub struct ScheduleResult {
    /// The step of each transaction, in block order.
    pub steps: Vec<usize>,
    /// Number of steps. 0 if there were no transactions.
    pub depth: usize,
    /// Number of transactions that run in each step.
    pub width_per_step: HashMap<usize, usize>,
    /// Every account-lock conflict observed, in block order.
    pub conflicts: Vec<ConflictEvent>,
}

/// Two locks conflict: same account, and at least one of them writes.
pub open spec fn locks_conflict(a: LockView, b: LockView) -> bool {
    a.account == b.account && (a.is_writable || b.is_writable)
}

/// Some lock of `a` conflicts with some lock of `b`.
pub open spec fn conflicts(a: TxLocksView, b: TxLocksView) -> bool {
    exists|i: int, k: int|
        0 <= i < a.locks.len() && 0 <= k < b.locks.len() && #[trigger] locks_conflict(
            a.locks[i],
            b.locks[k],
        )
}

/// The transaction locks the account.
pub open spec fn touches(tx: TxLocksView, account: Seq<char>) -> bool {
    exists|k: int| 0 <= k < tx.locks.len() && (#[trigger] tx.locks[k]).account == account
}

/// The transaction locks the account for writing.
pub open spec fn writes(tx: TxLocksView, account: Seq<char>) -> bool {
    exists|k: int|
        0 <= k < tx.locks.len() && (#[trigger] tx.locks[k]).account == account
            && tx.locks[k].is_writable
}

/// `steps` is the order-preserving schedule of `txs`: each transaction stands
/// after every earlier one that it conflicts with, and no later than needed.
pub open spec fn is_schedule(txs: Seq<TxLocksView>, steps: Seq<usize>) -> bool {
    &&& steps.len() == txs.len()
    &&& forall|j: int, i: int|
        0 <= j < i < txs.len() && #[trigger] conflicts(txs[j], txs[i]) ==> steps[j] < steps[i]
    &&& forall|i: int|
        0 <= i < txs.len() && #[trigger] steps[i] > 0 ==> exists|j: int|
            0 <= j < i && #[trigger] conflicts(txs[j], txs[i]) && steps[j] + 1 == steps[i]
}

/// Lock `k` of transaction `i` conflicts with a lock of an earlier transaction:
/// a write with any lock of its account, a read with a write of it.
pub open spec fn meets_conflict(txs: Seq<TxLocksView>, i: int, k: int) -> bool {
    let lock = txs[i].locks[k];
    if lock.is_writable {
        exists|j: int| 0 <= j < i && #[trigger] touches(txs[j], lock.account)
    } else {
        exists|j: int| 0 <= j < i && #[trigger] writes(txs[j], lock.account)
    }
}

/// Lock `k` of the transaction is a write of an account that the transaction
/// locked before.
pub open spec fn repeats_lock(tx: TxLocksView, k: int) -> bool {
    &&& tx.locks[k].is_writable
    &&& exists|m: int| 0 <= m < k && (#[trigger] tx.locks[m]).account == tx.locks[k].account
}

/// Whether lock `k` of transaction `i` is reported: it conflicts with an earlier
/// transaction, or it is a write of an account that its own transaction locked
/// before.
pub open spec fn is_reported(txs: Seq<TxLocksView>, i: int, k: int) -> bool {
    meets_conflict(txs, i, k) || repeats_lock(txs[i], k)
}

/// The conflicts reported for the first `k` locks of transaction `i`.
pub open spec fn tx_events(
    txs: Seq<TxLocksView>,
    steps: Seq<usize>,
    i: int,
    k: int,
) -> Seq<ConflictView>
    decreases k,
{
    if k <= 0 {
        Seq::empty()
    } else {
        let before = tx_events(txs, steps, i, k - 1);
        if is_reported(txs, i, k - 1) {
            before.push(
                ConflictView {
                    account: txs[i].locks[k - 1].account,
                    tx_signature: txs[i].signature,
                    program_ids: txs[i].program_ids,
                    step: steps[i],
                    caused_by_write: txs[i].locks[k - 1].is_writable,
                },
            )
        } else {
            before
        }
    }
}

/// The conflicts reported for the first `n` transactions, in block order.
pub open spec fn block_events(
    txs: Seq<TxLocksView>,
    steps: Seq<usize>,
    n: int,
) -> Seq<ConflictView>
    decreases n,
{
    if n <= 0 {
        Seq::empty()
    } else {
        block_events(txs, steps, n - 1) + tx_events(
            txs,
            steps,
            n - 1,
            txs[n - 1].locks.len() as int,
        )
    }
}

/// Holds of step `s` alone.
pub open spec fn in_step(s: usize) -> spec_fn(usize) -> bool {
    |x: usize| x == s
}

/// The number of transactions in step `s`.
pub open spec fn width(steps: Seq<usize>, s: usize) -> nat {
    steps.filter(in_step(s)).len()
}

/// `depth` is one more than the highest step, or 0 without transactions.
pub open spec fn is_depth(steps: Seq<usize>, depth: usize) -> bool {
    &&& forall|i: int| 0 <= i < steps.len() ==> #[trigger] steps[i] < depth
    &&& depth > 0 ==> exists|i: int| 0 <= i < steps.len() && #[trigger] steps[i] + 1 == depth
}

impl ScheduleResult {
    /// This is the schedule of the block `txs`.
    pub open spec fn describes(&self, txs: Seq<TxLocksView>) -> bool {
        &&& is_schedule(txs, self.steps@)
        &&& is_depth(self.steps@, self.depth)
        &&& forall|s: usize| #[trigger]
            self.width_per_step@.contains_key(s) <==> self.steps@.contains(s)
        &&& forall|s: usize| #[trigger]
            self.width_per_step@.contains_key(s) ==> self.width_per_step@[s] == width(
                self.steps@,
                s,
            )
        &&& self.conflicts.deep_view() == block_events(txs, self.steps@, txs.len() as int)
    }
}

/// What the scheduler remembers of an account that was locked.
#[derive(Clone, Copy)]
struct AccountState {
    /// Latest step of a write, or None if never written.
    last_write: Option<usize>,
    /// Latest step of any lock.
    last_access: usize,
}

/// `w` is the latest step in which `account` was written.
spec fn is_last_write(
    txs: Seq<TxLocksView>,
    steps: Seq<usize>,
    account: Seq<char>,
    w: Option<usize>,
) -> bool {
    match w {
        Some(w) => {
            &&& exists|j: int| 0 <= j < txs.len() && #[trigger] writes(txs[j], account) && steps[j] == w
            &&& forall|j: int| 0 <= j < txs.len() && #[trigger] writes(txs[j], account) ==> steps[j] <= w
        },
        None => forall|j: int| 0 <= j < txs.len() ==> !#[trigger] writes(txs[j], account),
    }
}

/// `m` is the latest step in which `account` was locked.
spec fn is_last_access(
    txs: Seq<TxLocksView>,
    steps: Seq<usize>,
    account: Seq<char>,
    m: usize,
) -> bool {
    &&& exists|j: int| 0 <= j < txs.len() && #[trigger] touches(txs[j], account) && steps[j] == m
    &&& forall|j: int| 0 <= j < txs.len() && #[trigger] touches(txs[j], account) ==> steps[j] <= m
}

/// The scheduler's memory matches the transactions `txs` at `steps`.
spec fn remembers(
    txs: Seq<TxLocksView>,
    steps: Seq<usize>,
    accounts: Seq<Seq<char>>,
    states: Seq<AccountState>,
) -> bool {
    &&& accounts.len() == states.len()
    &&& forall|a: Seq<char>| #[trigger]
        accounts.contains(a) <==> exists|j: int| 0 <= j < txs.len() && #[trigger] touches(txs[j], a)
    &&& forall|p: int|
        0 <= p < states.len() ==> is_last_write(
            txs,
            steps,
            #[trigger] accounts[p],
            states[p].last_write,
        )
    &&& forall|p: int|
        0 <= p < states.len() ==> is_last_access(
            txs,
            steps,
            #[trigger] accounts[p],
            states[p].last_access,
        )
}

/// The transaction with only its first `k` locks.
spec fn with_locks(tx: TxLocksView, k: int) -> TxLocksView {
    TxLocksView { locks: tx.locks.take(k), ..tx }
}

/// A lock is blocked by the transactions that write its account and, if it is
/// a write, by those that read it too.
proof fn lemma_conflicts_by_lock(a: TxLocksView, b: TxLocksView, k: int)
    requires
        0 <= k < b.locks.len(),
    ensures
        conflicts(a, with_locks(b, k + 1)) <==> {
            ||| conflicts(a, with_locks(b, k))
            ||| (if b.locks[k].is_writable {
                touches(a, b.locks[k].account)
            } else {
                writes(a, b.locks[k].account)
            })
        },
{
    let small = with_locks(b, k);
    let large = with_locks(b, k + 1);
    let lock = b.locks[k];
    let blocked = if lock.is_writable {
        touches(a, lock.account)
    } else {
        writes(a, lock.account)
    };
    if conflicts(a, large) {
        let (i, m) = choose|i: int, m: int|
            0 <= i < a.locks.len() && 0 <= m < large.locks.len() && #[trigger] locks_conflict(
                a.locks[i],
                large.locks[m],
            );
        if m < k {
            assert(locks_conflict(a.locks[i], small.locks[m]));
        } else {
            assert(a.locks[i].account == lock.account);
            assert(blocked);
        }
    }
    if conflicts(a, small) {
        let (i, m) = choose|i: int, m: int|
            0 <= i < a.locks.len() && 0 <= m < small.locks.len() && #[trigger] locks_conflict(
                a.locks[i],
                small.locks[m],
            );
        assert(locks_conflict(a.locks[i], large.locks[m]));
    }
    if blocked {
        if lock.is_writable {
            let i = choose|i: int|
                0 <= i < a.locks.len() && (#[trigger] a.locks[i]).account == lock.account;
            assert(locks_conflict(a.locks[i], large.locks[k]));
        } else {
            let i = choose|i: int|
                0 <= i < a.locks.len() && (#[trigger] a.locks[i]).account == lock.account
                    && a.locks[i].is_writable;
            assert(locks_conflict(a.locks[i], large.locks[k]));
        }
    }
}

/// The earliest step in which `tx` can run after the transactions `txs`.
fn earliest_step(
    tx: &TxLocks,
    accounts: &KeyIndex,
    states: &Vec<AccountState>,
    Ghost(txs): Ghost<Seq<TxLocksView>>,
    Ghost(steps): Ghost<Seq<usize>>,
) -> (earliest: usize)
    requires
        accounts.wf(),
        steps.len() == txs.len(),
        remembers(txs, steps, accounts@, states@),
        forall|j: int| 0 <= j < steps.len() ==> #[trigger] steps[j] <= j,
        txs.len() <= usize::MAX,
    ensures
        forall|j: int|
            0 <= j < txs.len() && #[trigger] conflicts(txs[j], tx.deep_view()) ==> steps[j]
                < earliest,
        earliest > 0 ==> exists|j: int|
            0 <= j < txs.len() && #[trigger] conflicts(txs[j], tx.deep_view()) && steps[j] + 1
                == earliest,
{
    let ghost view = tx.deep_view();
    let mut earliest: usize = 0;
    let mut k: usize = 0;
    while k < tx.locks.len()
        invariant
            k <= tx.locks.len(),
            view == tx.deep_view(),
            accounts.wf(),
            steps.len() == txs.len(),
            remembers(txs, steps, accounts@, states@),
            forall|j: int| 0 <= j < steps.len() ==> #[trigger] steps[j] <= j,
            txs.len() <= usize::MAX,
            forall|j: int|
                0 <= j < txs.len() && #[trigger] conflicts(txs[j], with_locks(view, k as int))
                    ==> steps[j] < earliest,
            earliest > 0 ==> exists|j: int|
                0 <= j < txs.len() && #[trigger] conflicts(txs[j], with_locks(view, k as int))
                    && steps[j] + 1 == earliest,
        decreases tx.locks.len() - k,
    {
        let ghost before = earliest;
        let ghost account = view.locks[k as int].account;
        let lock = &tx.locks[k];
        assert(account == lock.account@);
        let blocking: Option<usize> = match accounts.find(lock.account.as_str()) {
            Some(p) => {
                assert(is_last_access(txs, steps, accounts@[p as int], states@[p as int].last_access));
                assert(is_last_write(txs, steps, accounts@[p as int], states@[p as int].last_write));
                if lock.is_writable {
                    Some(states[p].last_access)
                } else {
                    states[p].last_write
                }
            },
            None => {
                assert forall|j: int|
                    #![trigger touches(txs[j], account)]
                    #![trigger writes(txs[j], account)]
                    0 <= j < txs.len() implies !touches(txs[j], account) && !writes(
                    txs[j],
                    account,
                ) by {
                    if writes(txs[j], account) {
                        assert(touches(txs[j], account));
                    }
                }
                None
            },
        };
        if let Some(b) = blocking {
            if b + 1 > earliest {
                earliest = b + 1;
            }
        }
        proof {
            assert forall|j: int|
                0 <= j < txs.len() && #[trigger] conflicts(
                    txs[j],
                    with_locks(view, k + 1),
                ) implies steps[j] < earliest by {
                lemma_conflicts_by_lock(txs[j], view, k as int);
            }
            if earliest > 0 {
                if earliest == before {
                    let j = choose|j: int|
                        0 <= j < txs.len() && #[trigger] conflicts(
                            txs[j],
                            with_locks(view, k as int),
                        ) && steps[j] + 1 == earliest;
                    lemma_conflicts_by_lock(txs[j], view, k as int);
                    assert(conflicts(txs[j], with_locks(view, k + 1)));
                } else if lock.is_writable {
                    let j = choose|j: int|
                        0 <= j < txs.len() && #[trigger] touches(txs[j], account) && steps[j] + 1
                            == earliest;
                    lemma_conflicts_by_lock(txs[j], view, k as int);
                    assert(conflicts(txs[j], with_locks(view, k + 1)));
                } else {
                    let j = choose|j: int|
                        0 <= j < txs.len() && #[trigger] writes(txs[j], account) && steps[j] + 1
                            == earliest;
                    lemma_conflicts_by_lock(txs[j], view, k as int);
                    assert(conflicts(txs[j], with_locks(view, k + 1)));
                }
            }
        }
        k += 1;
    }
    assert(with_locks(view, k as int) == view) by {
        assert(view.locks.take(k as int) =~= view.locks);
    }
    earliest
}

/// What one more lock adds to the accounts that a transaction locks.
proof fn lemma_touches_by_lock(tx: TxLocksView, k: int, account: Seq<char>)
    requires
        0 <= k < tx.locks.len(),
    ensures
        touches(with_locks(tx, k + 1), account) <==> touches(with_locks(tx, k), account)
            || tx.locks[k].account == account,
        writes(with_locks(tx, k + 1), account) <==> writes(with_locks(tx, k), account) || (
        tx.locks[k].account == account && tx.locks[k].is_writable),
{
    let small = with_locks(tx, k);
    let large = with_locks(tx, k + 1);
    assert(large.locks[k] == tx.locks[k]);
    assert forall|m: int| 0 <= m < k implies #[trigger] small.locks[m] == large.locks[m] by {}
    if touches(small, account) {
        let m = choose|m: int|
            0 <= m < small.locks.len() && (#[trigger] small.locks[m]).account == account;
        assert(large.locks[m].account == account);
    }
    if writes(small, account) {
        let m = choose|m: int|
            0 <= m < small.locks.len() && (#[trigger] small.locks[m]).account == account
                && small.locks[m].is_writable;
        assert(large.locks[m].account == account);
    }
    if touches(large, account) {
        let m = choose|m: int|
            0 <= m < large.locks.len() && (#[trigger] large.locks[m]).account == account;
        assert(m < k ==> small.locks[m].account == account);
    }
    if writes(large, account) {
        let m = choose|m: int|
            0 <= m < large.locks.len() && (#[trigger] large.locks[m]).account == account
                && large.locks[m].is_writable;
        assert(m < k ==> small.locks[m].account == account);
    }
}

/// The memory after one more lock of the transaction that runs last.
proof fn lemma_remembers_lock(
    done: Seq<TxLocksView>,
    tx: TxLocksView,
    k: int,
    steps: Seq<usize>,
    accounts: Seq<Seq<char>>,
    states: Seq<AccountState>,
    accounts2: Seq<Seq<char>>,
    states2: Seq<AccountState>,
    p: int,
)
    requires
        0 <= k < tx.locks.len(),
        steps.len() == done.len() + 1,
        remembers(done.push(with_locks(tx, k)), steps, accounts, states),
        accounts2 == if accounts.contains(tx.locks[k].account) {
            accounts
        } else {
            accounts.push(tx.locks[k].account)
        },
        accounts2.no_duplicates(),
        0 <= p < accounts2.len(),
        accounts2[p] == tx.locks[k].account,
        states2.len() == accounts2.len(),
        forall|q: int| 0 <= q < accounts2.len() && q != p ==> states2[q] == states[q],
        p < accounts.len() ==> {
            &&& states2[p].last_access == if states[p].last_access > steps.last() {
                states[p].last_access
            } else {
                steps.last()
            }
            &&& states2[p].last_write == if !tx.locks[k].is_writable {
                states[p].last_write
            } else if states[p].last_write is Some && states[p].last_write->0 > steps.last() {
                states[p].last_write
            } else {
                Some(steps.last())
            }
        },
        p == accounts.len() ==> {
            &&& states2[p].last_access == steps.last()
            &&& states2[p].last_write == if tx.locks[k].is_writable {
                Some(steps.last())
            } else {
                None
            }
        },
    ensures
        remembers(done.push(with_locks(tx, k + 1)), steps, accounts2, states2),
{
    let n = done.len() as int;
    let before = done.push(with_locks(tx, k));
    let after = done.push(with_locks(tx, k + 1));
    let acct = tx.locks[k].account;
    assert forall|a: Seq<char>, j: int|
        #![trigger touches(after[j], a)]
        #![trigger touches(before[j], a)]
        0 <= j <= n implies touches(after[j], a) == (touches(before[j], a) || (j == n && a
        == acct)) by {
        lemma_touches_by_lock(tx, k, a);
    }
    assert forall|a: Seq<char>, j: int|
        #![trigger writes(after[j], a)]
        #![trigger writes(before[j], a)]
        0 <= j <= n implies writes(after[j], a) == (writes(before[j], a) || (j == n && a == acct
        && tx.locks[k].is_writable)) by {
        lemma_touches_by_lock(tx, k, a);
    }
    assert(touches(after[n], acct));
    assert forall|a: Seq<char>| #[trigger] accounts2.contains(a) implies exists|j: int|
        0 <= j < after.len() && #[trigger] touches(after[j], a) by {
        if a != acct {
            let q = choose|q: int| 0 <= q < accounts2.len() && accounts2[q] == a;
            assert(accounts[q] == a);
            assert(accounts.contains(a));
            let j = choose|j: int| 0 <= j < before.len() && #[trigger] touches(before[j], a);
            assert(touches(after[j], a));
        }
    }
    assert forall|a: Seq<char>|
        (exists|j: int| 0 <= j < after.len() && #[trigger] touches(after[j], a)) implies
        #[trigger] accounts2.contains(a) by {
        let j = choose|j: int| 0 <= j < after.len() && #[trigger] touches(after[j], a);
        if a == acct {
            assert(accounts2[p] == a);
        } else {
            assert(touches(before[j], a));
            assert(accounts.contains(a));
            let q = choose|q: int| 0 <= q < accounts.len() && accounts[q] == a;
            assert(accounts2[q] == a);
        }
    }
    assert forall|q: int| 0 <= q < states2.len() implies is_last_access(
        after,
        steps,
        #[trigger] accounts2[q],
        states2[q].last_access,
    ) by {
        if q < accounts.len() {
            assert(accounts[q] == accounts2[q]);
            let m = states[q].last_access;
            let w = choose|j: int|
                0 <= j < before.len() && #[trigger] touches(before[j], accounts[q]) && steps[j] == m;
            assert(touches(after[w], accounts2[q]));
        } else {
            assert(!accounts.contains(acct));
            assert forall|j: int|
                0 <= j < after.len() && #[trigger] touches(after[j], acct) implies steps[j]
                <= steps.last() by {
                assert(!touches(before[j], acct));
            }
        }
    }
    assert forall|q: int| 0 <= q < states2.len() implies is_last_write(
        after,
        steps,
        #[trigger] accounts2[q],
        states2[q].last_write,
    ) by {
        if q < accounts.len() {
            assert(accounts[q] == accounts2[q]);
            if let Some(m) = states[q].last_write {
                let w = choose|j: int|
                    0 <= j < before.len() && #[trigger] writes(before[j], accounts[q]) && steps[j]
                        == m;
                assert(writes(after[w], accounts2[q]));
            }
        } else {
            assert(!accounts.contains(acct));
            assert forall|j: int| 0 <= j < before.len() implies !#[trigger] writes(
                before[j],
                acct,
            ) by {
                if writes(before[j], acct) {
                    assert(touches(before[j], acct));
                }
            }
        }
        if q == p && tx.locks[k].is_writable {
            assert(writes(after[n], acct));
        }
    }
}

/// Which locks of a transaction conflict with one of an earlier transaction.
fn conflicts_met(
    tx: &TxLocks,
    accounts: &KeyIndex,
    states: &Vec<AccountState>,
    Ghost(txs): Ghost<Seq<TxLocksView>>,
    Ghost(n): Ghost<int>,
    Ghost(steps): Ghost<Seq<usize>>,
) -> (met: Vec<bool>)
    requires
        0 <= n < txs.len(),
        tx.deep_view() == txs[n],
        accounts.wf(),
        remembers(txs.take(n), steps.take(n), accounts@, states@),
    ensures
        met@.len() == tx.locks@.len(),
        forall|k: int| 0 <= k < met@.len() ==> #[trigger] met@[k] == meets_conflict(txs, n, k),
{
    let ghost done = txs.take(n);
    let ghost at = steps.take(n);
    let mut met: Vec<bool> = Vec::new();
    let mut k: usize = 0;
    while k < tx.locks.len()
        invariant
            k <= tx.locks@.len(),
            0 <= n < txs.len(),
            tx.deep_view() == txs[n],
            done == txs.take(n),
            at == steps.take(n),
            accounts.wf(),
            remembers(done, at, accounts@, states@),
            met@.len() == k,
            forall|m: int| 0 <= m < k ==> #[trigger] met@[m] == meets_conflict(txs, n, m),
        decreases tx.locks@.len() - k,
    {
        let lock = &tx.locks[k];
        let ghost account = txs[n].locks[k as int].account;
        assert(txs[n].locks[k as int] == lock.deep_view());
        let found: Option<usize> = accounts.find(lock.account.as_str());
        let blocked: bool = match found {
            Some(p) => lock.is_writable || states[p].last_write.is_some(),
            None => false,
        };
        proof {
            assert forall|j: int|
                #![trigger touches(txs[j], account)]
                #![trigger touches(done[j], account)]
                0 <= j < n implies txs[j] == done[j] by {}
            assert forall|j: int|
                #![trigger writes(txs[j], account)]
                #![trigger writes(done[j], account)]
                0 <= j < n implies txs[j] == done[j] && (writes(txs[j], account) ==> touches(
                done[j],
                account,
            )) by {}
            match found {
                Some(p) => {
                    assert(accounts@.contains(accounts@[p as int]));
                    assert(is_last_write(done, at, accounts@[p as int], states@[p as int].last_write));
                    let j = choose|j: int| 0 <= j < done.len() && #[trigger] touches(done[j], account);
                    assert(touches(txs[j], account));
                    if states@[p as int].last_write is Some {
                        let w = choose|w: int|
                            0 <= w < done.len() && #[trigger] writes(done[w], account) && at[w]
                                == states@[p as int].last_write->0;
                        assert(writes(txs[w], account));
                    }
                },
                None => {
                    assert(!accounts@.contains(account));
                },
            }
            assert(blocked == meets_conflict(txs, n, k as int));
        }
        met.push(blocked);
        k += 1;
    }
    met
}

/// Records the locks of the transaction that was just given `step`, and
/// reports its conflicts.
fn record_locks(
    tx: &TxLocks,
    step: usize,
    accounts: &mut KeyIndex,
    states: &mut Vec<AccountState>,
    events: &mut Vec<ConflictEvent>,
    Ghost(txs): Ghost<Seq<TxLocksView>>,
    Ghost(n): Ghost<int>,
    Ghost(steps): Ghost<Seq<usize>>,
)
    requires
        0 <= n < txs.len(),
        tx.deep_view() == txs[n],
        steps.len() == n + 1,
        steps[n] == step,
        old(accounts).wf(),
        remembers(txs.take(n), steps.take(n), old(accounts)@, old(states)@),
    ensures
        final(accounts).wf(),
        remembers(txs.take(n + 1), steps, final(accounts)@, final(states)@),
        final(events).deep_view() == old(events).deep_view() + tx_events(
            txs,
            steps,
            n,
            txs[n].locks.len() as int,
        ),
{
    let ghost view = tx.deep_view();
    let ghost done = txs.take(n);
    let met: Vec<bool> = conflicts_met(tx, accounts, states, Ghost(txs), Ghost(n), Ghost(steps));
    let ghost events0 = events.deep_view();
    proof {
        lemma_remembers_empty(done, view, steps, accounts@, states@);
        assert(events.deep_view() =~= events0 + tx_events(txs, steps, n, 0));
    }
    let mut k: usize = 0;
    while k < tx.locks.len()
        invariant
            0 <= n < txs.len(),
            k <= tx.locks.len(),
            view == tx.deep_view(),
            view == txs[n],
            done == txs.take(n),
            steps.len() == n + 1,
            steps[n] == step,
            accounts.wf(),
            remembers(done.push(with_locks(view, k as int)), steps, accounts@, states@),
            events.deep_view() == events0 + tx_events(txs, steps, n, k as int),
            met@.len() == tx.locks@.len(),
            forall|m: int| 0 <= m < met@.len() ==> #[trigger] met@[m] == meets_conflict(txs, n, m),
        decreases tx.locks.len() - k,
    {
        let lock = &tx.locks[k];
        let ghost accounts0 = accounts@;
        let ghost states0 = states@;
        let ghost account = view.locks[k as int].account;
        assert(account == lock.account@);
        assert(view.locks[k as int].is_writable ==> (accounts0.contains(account) <==> (
        meets_conflict(txs, n, k as int) || repeats_lock(view, k as int)))) by {
            if view.locks[k as int].is_writable {
                lemma_prior_activity(txs, n, k as int);
            }
        }
        let known: usize = accounts.len();
        let p: usize = accounts.find_or_add(lock.account.as_str());
        proof {
            accounts.lemma_no_duplicates();
            if accounts0.contains(account) {
                let q = choose|q: int| 0 <= q < accounts0.len() && accounts0[q] == account;
                assert(p == q);
            } else {
                assert(accounts@[known as int] == account);
                assert(p == known);
            }
        }
        if p < known {
            let was = states[p];
            let last_write: Option<usize> = if lock.is_writable {
                match was.last_write {
                    Some(w) if w > step => Some(w),
                    _ => Some(step),
                }
            } else {
                was.last_write
            };
            let last_access: usize = if was.last_access > step { was.last_access } else { step };
            states[p] = AccountState { last_write, last_access };
        } else {
            let last_write: Option<usize> = if lock.is_writable { Some(step) } else { None };
            states.push(AccountState { last_write, last_access: step });
        }
        if met[k] || (lock.is_writable && p < known) {
            let ghost before = events.deep_view();
            let ids = tx.program_ids.clone();
            assert(ids.deep_view() =~= tx.program_ids.deep_view());
            let event = ConflictEvent {
                account: lock.account.clone(),
                tx_signature: tx.signature.clone(),
                program_ids: ids,
                step,
                caused_by_write: lock.is_writable,
            };
            events.push(event);
            assert(events.deep_view() =~= before.push(event.deep_view()));
        }
        proof {
            lemma_remembers_lock(
                done,
                view,
                k as int,
                steps,
                accounts0,
                states0,
                accounts@,
                states@,
                p as int,
            );
            assert(events.deep_view() =~= events0 + tx_events(txs, steps, n, k + 1));
        }
        k += 1;
    }
    assert(done.push(with_locks(view, k as int)) =~= txs.take(n + 1)) by {
        assert(view.locks.take(k as int) =~= view.locks);
    }
}

/// A transaction without locks leaves the memory as it is.
proof fn lemma_remembers_empty(
    done: Seq<TxLocksView>,
    tx: TxLocksView,
    steps: Seq<usize>,
    accounts: Seq<Seq<char>>,
    states: Seq<AccountState>,
)
    requires
        steps.len() == done.len() + 1,
        remembers(done, steps.take(done.len() as int), accounts, states),
    ensures
        remembers(done.push(with_locks(tx, 0)), steps, accounts, states),
{
    let n = done.len() as int;
    let before = steps.take(n);
    let after = done.push(with_locks(tx, 0));
    assert forall|a: Seq<char>|
        #![trigger touches(after[n], a)]
        !touches(after[n], a) && !writes(after[n], a) by {}
    assert forall|j: int| 0 <= j < n implies after[j] == #[trigger] done[j] && steps[j]
        == before[j] by {}
    assert forall|a: Seq<char>| #[trigger] accounts.contains(a) implies exists|j: int|
        0 <= j < after.len() && #[trigger] touches(after[j], a) by {
        let j = choose|j: int| 0 <= j < done.len() && #[trigger] touches(done[j], a);
        assert(touches(after[j], a));
    }
    assert forall|a: Seq<char>|
        (exists|j: int| 0 <= j < after.len() && #[trigger] touches(after[j], a)) implies
        #[trigger] accounts.contains(a) by {
        let j = choose|j: int| 0 <= j < after.len() && #[trigger] touches(after[j], a);
        assert(j != n);
        assert(touches(done[j], a));
    }
    assert forall|q: int| 0 <= q < states.len() implies is_last_access(
        after,
        steps,
        #[trigger] accounts[q],
        states[q].last_access,
    ) by {
        let a = accounts[q];
        assert(is_last_access(done, before, a, states[q].last_access));
        let w = choose|j: int|
            0 <= j < done.len() && #[trigger] touches(done[j], a) && before[j]
                == states[q].last_access;
        assert(touches(after[w], a) && steps[w] == states[q].last_access);
        assert forall|j: int| 0 <= j < after.len() && #[trigger] touches(after[j], a) implies
            steps[j] <= states[q].last_access by {
            assert(j != n);
            assert(touches(done[j], a));
        }
    }
    assert forall|q: int| 0 <= q < states.len() implies is_last_write(
        after,
        steps,
        #[trigger] accounts[q],
        states[q].last_write,
    ) by {
        let a = accounts[q];
        assert(is_last_write(done, before, a, states[q].last_write));
        assert forall|j: int| 0 <= j < after.len() && #[trigger] writes(after[j], a) implies j < n
            && writes(done[j], a) by {
            assert(!touches(after[n], a));
        }
        if let Some(m) = states[q].last_write {
            let w = choose|j: int|
                0 <= j < done.len() && #[trigger] writes(done[j], a) && before[j] == m;
            assert(writes(after[w], a) && steps[w] == m);
        }
    }
}

/// A write is reported where its account was locked before, by an earlier
/// transaction or by an earlier lock of the same one.
proof fn lemma_prior_activity(txs: Seq<TxLocksView>, n: int, k: int)
    requires
        0 <= n < txs.len(),
        0 <= k < txs[n].locks.len(),
        txs[n].locks[k].is_writable,
    ensures
        meets_conflict(txs, n, k) || repeats_lock(txs[n], k) <==> exists|j: int|
            0 <= j <= n && #[trigger] touches(
                txs.take(n).push(with_locks(txs[n], k))[j],
                txs[n].locks[k].account,
            ),
{
    let account = txs[n].locks[k].account;
    let small = with_locks(txs[n], k);
    let seen = txs.take(n).push(small);
    if meets_conflict(txs, n, k) {
        let j = choose|j: int| 0 <= j < n && #[trigger] touches(txs[j], account);
        assert(touches(seen[j], account));
    }
    if repeats_lock(txs[n], k) {
        let m = choose|m: int| 0 <= m < k && (#[trigger] txs[n].locks[m]).account == account;
        assert(small.locks[m].account == account);
        assert(touches(seen[n], account));
    }
    if exists|j: int| 0 <= j <= n && #[trigger] touches(seen[j], account) {
        let j = choose|j: int| 0 <= j <= n && #[trigger] touches(seen[j], account);
        if j < n {
            assert(touches(txs[j], account));
        } else {
            let m = choose|m: int|
                0 <= m < small.locks.len() && (#[trigger] small.locks[m]).account == account;
            assert(txs[n].locks[m].account == account);
        }
    }
}

/// The reported conflicts depend only on the steps given so far.
proof fn lemma_events_prefix(
    txs: Seq<TxLocksView>,
    steps: Seq<usize>,
    more: Seq<usize>,
    n: int,
)
    requires
        0 <= n <= steps.len() <= more.len(),
        forall|i: int| 0 <= i < n ==> steps[i] == more[i],
    ensures
        block_events(txs, steps, n) == block_events(txs, more, n),
    decreases n,
{
    if n > 0 {
        lemma_events_prefix(txs, steps, more, n - 1);
        lemma_tx_events_prefix(txs, steps, more, n - 1, txs[n - 1].locks.len() as int);
    }
}

proof fn lemma_tx_events_prefix(
    txs: Seq<TxLocksView>,
    steps: Seq<usize>,
    more: Seq<usize>,
    i: int,
    k: int,
)
    requires
        steps[i] == more[i],
    ensures
        tx_events(txs, steps, i, k) == tx_events(txs, more, i, k),
    decreases k,
{
    if k > 0 {
        lemma_tx_events_prefix(txs, steps, more, i, k - 1);
    }
}

/// Counts the transactions of each step.
fn count_widths(steps: &Vec<usize>) -> (widths: HashMap<usize, usize>)
    ensures
        forall|s: usize| #[trigger] widths@.contains_key(s) <==> steps@.contains(s),
        forall|s: usize| #[trigger]
            widths@.contains_key(s) ==> widths@[s] == width(steps@, s),
{
    let mut widths: HashMap<usize, usize> = HashMap::new();
    let mut i: usize = 0;
    while i < steps.len()
        invariant
            i <= steps.len(),
            forall|s: usize| #[trigger]
                widths@.contains_key(s) <==> steps@.take(i as int).contains(s),
            forall|s: usize| #[trigger]
                widths@.contains_key(s) ==> widths@[s] == width(steps@.take(i as int), s),
        decreases steps.len() - i,
    {
        let step: usize = steps[i];
        let ghost seen = steps@.take(i as int);
        let ghost more = steps@.take(i + 1);
        let ghost widths0 = widths@;
        let so_far: usize = match widths.get(&step) {
            Some(w) => *w,
            None => 0,
        };
        proof {
            assert(more =~= seen.push(step));
            assert forall|s: usize| #[trigger] width(more, s) == width(seen, s) + if s == step {
                1int
            } else {
                0
            } by {
                seen.lemma_filter_len_push(in_step(s), step);
            }
            seen.lemma_filter_len(in_step(step));
            if !seen.contains(step) {
                lemma_width_zero(seen, step);
            }
            assert(so_far == width(seen, step));
        }
        widths.insert(step, so_far + 1);
        proof {
            assert forall|s: usize| #[trigger] widths@.contains_key(s) <==> more.contains(s) by {
                if more.contains(s) && s != step {
                    let j = choose|j: int| 0 <= j < more.len() && more[j] == s;
                    assert(seen[j] == s);
                    assert(seen.contains(s));
                }
                if seen.contains(s) {
                    let j = choose|j: int| 0 <= j < seen.len() && seen[j] == s;
                    assert(more[j] == s);
                }
                assert(more[i as int] == step);
                assert(widths0.contains_key(s) <==> seen.contains(s));
            }
            assert forall|s: usize| #[trigger] widths@.contains_key(s) implies widths@[s] == width(
                more,
                s,
            ) by {
                assert(s != step ==> widths0.contains_key(s));
            }
        }
        i += 1;
    }
    assert(steps@.take(i as int) =~= steps@);
    widths
}

/// A step that does not occur has width 0.
proof fn lemma_width_zero(steps: Seq<usize>, s: usize)
    requires
        !steps.contains(s),
    ensures
        width(steps, s) == 0,
{
    assert forall|i: int| 0 <= i < steps.len() implies steps[i] != s by {
        assert(steps.contains(steps[i]));
    }
    steps.lemma_all_neg_filter_empty(in_step(s));
}

/// One more than the highest step.
fn schedule_depth(steps: &Vec<usize>) -> (depth: usize)
    requires
        forall|i: int| 0 <= i < steps@.len() ==> #[trigger] steps@[i] < usize::MAX,
    ensures
        is_depth(steps@, depth),
{
    let mut depth: usize = 0;
    let mut i: usize = 0;
    while i < steps.len()
        invariant
            i <= steps.len(),
            forall|j: int| 0 <= j < steps@.len() ==> #[trigger] steps@[j] < usize::MAX,
            forall|j: int| 0 <= j < i ==> #[trigger] steps@[j] < depth,
            depth > 0 ==> exists|j: int| 0 <= j < i && #[trigger] steps@[j] + 1 == depth,
        decreases steps.len() - i,
    {
        if steps[i] + 1 > depth {
            depth = steps[i] + 1;
        }
        i += 1;
    }
    depth
}

/// Reconstructs the order-preserving schedule of one block. `txs` is in block
/// order.
pub fn build_schedule(txs: &[TxLocks]) -> (result: ScheduleResult)
    ensures
        result.describes(txs.deep_view()),
{
    let ghost view = txs.deep_view();
    let mut accounts = KeyIndex::new();
    let mut states: Vec<AccountState> = Vec::new();
    let mut steps: Vec<usize> = Vec::new();
    let mut events: Vec<ConflictEvent> = Vec::new();
    let mut i: usize = 0;
    assert(events.deep_view() =~= block_events(view, steps@, 0));
    while i < txs.len()
        invariant
            view == txs.deep_view(),
            i <= txs@.len(),
            accounts.wf(),
            steps@.len() == i,
            remembers(view.take(i as int), steps@, accounts@, states@),
            forall|j: int| 0 <= j < i ==> #[trigger] steps@[j] <= j,
            is_schedule(view.take(i as int), steps@),
            events.deep_view() == block_events(view, steps@, i as int),
        decreases txs@.len() - i,
    {
        let ghost steps0 = steps@;
        let ghost done = view.take(i as int);
        assert(txs@[i as int].deep_view() == view[i as int]);
        let step: usize = earliest_step(&txs[i], &accounts, &states, Ghost(done), Ghost(steps@));
        steps.push(step);
        proof {
            assert(steps@.take(i as int) =~= steps0);
            let next = view.take(i + 1);
            assert forall|j: int| 0 <= j < i implies next[j] == #[trigger] done[j] by {}
            assert(next[i as int] == view[i as int]);
            if step > 0 {
                let j = choose|j: int|
                    0 <= j < done.len() && #[trigger] conflicts(done[j], view[i as int])
                        && steps0[j] + 1 == step;
                assert(steps0[j] <= j);
                assert(conflicts(next[j], next[i as int]));
            }
            assert forall|j: int, m: int|
                0 <= j < m < next.len() && #[trigger] conflicts(next[j], next[m]) implies steps@[j]
                < steps@[m] by {
                if m < i {
                    assert(conflicts(done[j], done[m]));
                } else {
                    assert(conflicts(done[j], view[i as int]));
                }
            }
            assert forall|m: int| 0 <= m < next.len() && #[trigger] steps@[m] > 0 implies exists|
                j: int,
            |
                0 <= j < m && #[trigger] conflicts(next[j], next[m]) && steps@[j] + 1 == steps@[m] by {
                if m < i {
                    assert(steps0[m] > 0);
                    let j = choose|j: int|
                        0 <= j < m && #[trigger] conflicts(done[j], done[m]) && steps0[j] + 1
                            == steps0[m];
                    assert(conflicts(next[j], next[m]));
                }
            }
            assert(is_schedule(next, steps@));
            lemma_events_prefix(view, steps0, steps@, i as int);
        }
        record_locks(
            &txs[i],
            step,
            &mut accounts,
            &mut states,
            &mut events,
            Ghost(view),
            Ghost(i as int),
            Ghost(steps@),
        );
        i += 1;
    }
    assert(view.take(i as int) =~= view);
    let width_per_step = count_widths(&steps);
    let depth: usize = schedule_depth(&steps);
    ScheduleResult { steps, depth, width_per_step, conflicts: events }
}

/// Two transactions that only read the accounts they share do not conflict.
pub proof fn law_shared_reads_do_not_conflict(a: TxLocksView, b: TxLocksView)
    requires
        forall|account: Seq<char>| #[trigger]
            touches(a, account) && #[trigger] touches(b, account) ==> !writes(a, account)
                && !writes(b, account),
    ensures
        !conflicts(a, b),
{
    if conflicts(a, b) {
        let (i, k) = choose|i: int, k: int|
            0 <= i < a.locks.len() && 0 <= k < b.locks.len() && #[trigger] locks_conflict(
                a.locks[i],
                b.locks[k],
            );
        let account = a.locks[i].account;
        assert(touches(a, account));
        assert(b.locks[k].account == account);
        assert(touches(b, account));
        if a.locks[i].is_writable {
            assert(writes(a, account));
        } else {
            assert(writes(b, account));
        }
    }
}

/// A write conflicts with every other lock of its account, whichever of the
/// two transactions comes first.
pub proof fn law_write_conflicts(a: TxLocksView, b: TxLocksView, account: Seq<char>)
    requires
        writes(a, account),
        touches(b, account),
    ensures
        conflicts(a, b),
        conflicts(b, a),
{
    let i = choose|i: int|
        0 <= i < a.locks.len() && (#[trigger] a.locks[i]).account == account
            && a.locks[i].is_writable;
    let k = choose|k: int| 0 <= k < b.locks.len() && (#[trigger] b.locks[k]).account == account;
    assert(locks_conflict(a.locks[i], b.locks[k]));
    assert(locks_conflict(b.locks[k], a.locks[i]));
}

/// The transactions of one step can run in parallel: no two of them conflict.
pub proof fn law_same_step_is_parallel(txs: Seq<TxLocksView>, steps: Seq<usize>, j: int, i: int)
    requires
        is_schedule(txs, steps),
        0 <= j < i < txs.len(),
        steps[j] == steps[i],
    ensures
        !conflicts(txs[j], txs[i]),
{
}

/// A block has one order-preserving schedule.
pub proof fn law_schedule_is_unique(txs: Seq<TxLocksView>, a: Seq<usize>, b: Seq<usize>)
    requires
        is_schedule(txs, a),
        is_schedule(txs, b),
    ensures
        a == b,
{
    assert forall|i: int| 0 <= i < txs.len() implies a[i] == b[i] by {
        lemma_same_step(txs, a, b, i);
    }
    assert(a =~= b);
}

proof fn lemma_same_step(txs: Seq<TxLocksView>, a: Seq<usize>, b: Seq<usize>, i: int)
    requires
        is_schedule(txs, a),
        is_schedule(txs, b),
        0 <= i < txs.len(),
    ensures
        a[i] == b[i],
    decreases i,
{
    if a[i] > b[i] {
        let j = choose|j: int|
            0 <= j < i && #[trigger] conflicts(txs[j], txs[i]) && a[j] + 1 == a[i];
        lemma_same_step(txs, a, b, j);
    } else if b[i] > a[i] {
        let j = choose|j: int|
            0 <= j < i && #[trigger] conflicts(txs[j], txs[i]) && b[j] + 1 == b[i];
        lemma_same_step(txs, a, b, j);
    }
}

/// A block without conflicts runs in one step.
pub proof fn law_independent_block_is_flat(
    txs: Seq<TxLocksView>,
    steps: Seq<usize>,
    depth: usize,
)
    requires
        is_schedule(txs, steps),
        is_depth(steps, depth),
        forall|j: int, i: int| 0 <= j < i < txs.len() ==> !#[trigger] conflicts(txs[j], txs[i]),
    ensures
        forall|i: int| 0 <= i < txs.len() ==> steps[i] == 0,
        depth == if txs.len() == 0 {
            0int
        } else {
            1
        },
{
    if txs.len() > 0 {
        assert(steps[0] < depth);
    }
}

/// A block in which every transaction conflicts with the one before it runs
/// fully in sequence.
pub proof fn law_conflict_chain_is_sequential(
    txs: Seq<TxLocksView>,
    steps: Seq<usize>,
    i: int,
)
    requires
        is_schedule(txs, steps),
        forall|m: int| 0 < m < txs.len() ==> conflicts(txs[m - 1], #[trigger] txs[m]),
        0 <= i < txs.len(),
    ensures
        steps[i] == i,
    decreases i,
{
    lemma_step_bound(txs, steps, i);
    if i > 0 {
        law_conflict_chain_is_sequential(txs, steps, i - 1);
        assert(conflicts(txs[i - 1], txs[i]));
    }
}

proof fn lemma_step_bound(txs: Seq<TxLocksView>, steps: Seq<usize>, i: int)
    requires
        is_schedule(txs, steps),
        0 <= i < txs.len(),
    ensures
        steps[i] <= i,
    decreases i,
{
    if steps[i] > 0 {
        let j = choose|j: int|
            0 <= j < i && #[trigger] conflicts(txs[j], txs[i]) && steps[j] + 1 == steps[i];
        lemma_step_bound(txs, steps, j);
    }
}

/// The schedule is never deeper than the block is long, and no step below its
/// depth is empty.
pub proof fn law_no_step_is_empty(
    txs: Seq<TxLocksView>,
    steps: Seq<usize>,
    depth: usize,
    s: usize,
)
    requires
        is_schedule(txs, steps),
        is_depth(steps, depth),
    ensures
        depth <= txs.len(),
        s < depth <==> steps.contains(s),
        s < depth <==> width(steps, s) > 0,
{
    if depth > 0 {
        let i = choose|i: int| 0 <= i < steps.len() && #[trigger] steps[i] + 1 == depth;
        lemma_step_bound(txs, steps, i);
        if s < depth {
            lemma_lower_step(txs, steps, i, s);
        }
    }
    if steps.contains(s) {
        let k = choose|k: int| 0 <= k < steps.len() && steps[k] == s;
        steps.lemma_filter_contains(in_step(s), k);
        assert(steps.filter(in_step(s)).contains(s));
    } else {
        lemma_width_zero(steps, s);
    }
}

proof fn lemma_lower_step(txs: Seq<TxLocksView>, steps: Seq<usize>, i: int, s: usize)
    requires
        is_schedule(txs, steps),
        0 <= i < txs.len(),
        s <= steps[i],
    ensures
        steps.contains(s),
    decreases i,
{
    if s == steps[i] {
        assert(steps.contains(steps[i]));
    } else {
        let j = choose|j: int|
            0 <= j < i && #[trigger] conflicts(txs[j], txs[i]) && steps[j] + 1 == steps[i];
        lemma_lower_step(txs, steps, j, s);
    }
}

/// Whether `e` reports lock `k` of transaction `i`, one of the first `n`.
pub open spec fn is_report(
    txs: Seq<TxLocksView>,
    steps: Seq<usize>,
    n: int,
    i: int,
    k: int,
    e: ConflictView,
) -> bool {
    &&& 0 <= i < n
    &&& 0 <= k < txs[i].locks.len()
    &&& e.account == txs[i].locks[k].account
    &&& e.tx_signature == txs[i].signature
    &&& e.program_ids == txs[i].program_ids
    &&& e.step == steps[i]
    &&& e.caused_by_write == txs[i].locks[k].is_writable
}

/// Every report is a conflict: of a lock that meets one of an earlier
/// transaction, or of a write whose own transaction locked the account before.
/// It is caused by a write exactly where the lock is one.
pub proof fn law_reports_are_conflicts(
    txs: Seq<TxLocksView>,
    steps: Seq<usize>,
    n: int,
    e: ConflictView,
)
    requires
        0 <= n <= txs.len(),
        block_events(txs, steps, n).contains(e),
    ensures
        exists|i: int, k: int| #[trigger]
            is_report(txs, steps, n, i, k, e) && is_reported(txs, i, k),
    decreases n,
{
    if n > 0 {
        let before = block_events(txs, steps, n - 1);
        let own = tx_events(txs, steps, n - 1, txs[n - 1].locks.len() as int);
        let p = choose|p: int| 0 <= p < (before + own).len() && (before + own)[p] == e;
        if p < before.len() {
            assert(before[p] == e);
            law_reports_are_conflicts(txs, steps, n - 1, e);
            let (i, k) = choose|i: int, k: int| #[trigger]
                is_report(txs, steps, n - 1, i, k, e) && is_reported(txs, i, k);
            assert(is_report(txs, steps, n, i, k, e));
        } else {
            assert(own[p - before.len()] == e);
            let k = lemma_tx_report(
                txs,
                steps,
                n - 1,
                txs[n - 1].locks.len() as int,
                e,
            );
            assert(is_report(txs, steps, n, n - 1, k, e));
        }
    }
}

proof fn lemma_tx_report(
    txs: Seq<TxLocksView>,
    steps: Seq<usize>,
    i: int,
    k: int,
    e: ConflictView,
) -> (m: int)
    requires
        0 <= i < txs.len(),
        0 <= k <= txs[i].locks.len(),
        tx_events(txs, steps, i, k).contains(e),
    ensures
        0 <= m < k,
        is_report(txs, steps, i + 1, i, m, e),
        is_reported(txs, i, m),
    decreases k,
{
    let before = tx_events(txs, steps, i, k - 1);
    let now = tx_events(txs, steps, i, k);
    let p = choose|p: int| 0 <= p < now.len() && now[p] == e;
    if p < before.len() {
        assert(before[p] == e);
        lemma_tx_report(txs, steps, i, k - 1, e)
    } else {
        k - 1
    }
}

/// Every conflict is reported: wherever a lock conflicts with one of an earlier
/// transaction, there is a report of it.
pub proof fn law_every_conflict_is_reported(
    txs: Seq<TxLocksView>,
    steps: Seq<usize>,
    j: int,
    m: int,
    i: int,
    k: int,
)
    requires
        0 <= j < i < txs.len(),
        0 <= m < txs[j].locks.len(),
        0 <= k < txs[i].locks.len(),
        locks_conflict(txs[j].locks[m], txs[i].locks[k]),
    ensures
        exists|e: ConflictView| #[trigger]
            block_events(txs, steps, txs.len() as int).contains(e) && is_report(
                txs,
                steps,
                txs.len() as int,
                i,
                k,
                e,
            ),
{
    let account = txs[i].locks[k].account;
    assert(txs[j].locks[m].account == account);
    assert(touches(txs[j], account));
    if !txs[i].locks[k].is_writable {
        assert(writes(txs[j], account));
    }
    let e = ConflictView {
        account,
        tx_signature: txs[i].signature,
        program_ids: txs[i].program_ids,
        step: steps[i],
        caused_by_write: txs[i].locks[k].is_writable,
    };
    let own = tx_events(txs, steps, i, k + 1);
    assert(own[own.len() - 1] == e);
    assert(own.contains(e));
    lemma_tx_events_grow(txs, steps, i, k + 1, txs[i].locks.len() as int, e);
    let all = tx_events(txs, steps, i, txs[i].locks.len() as int);
    let p = choose|p: int| 0 <= p < all.len() && all[p] == e;
    let before = block_events(txs, steps, i);
    assert((before + all)[before.len() + p] == e);
    lemma_block_events_grow(txs, steps, i + 1, txs.len() as int, e);
    assert(is_report(txs, steps, txs.len() as int, i, k, e));
}

/// Where no transaction locks an account twice, each report is of a transaction
/// that conflicts with an earlier one.
pub proof fn law_reports_are_between_transactions(
    txs: Seq<TxLocksView>,
    steps: Seq<usize>,
    e: ConflictView,
)
    requires
        block_events(txs, steps, txs.len() as int).contains(e),
        forall|i: int, m: int, k: int|
            0 <= i < txs.len() && 0 <= m < k < txs[i].locks.len() ==> (
            #[trigger] txs[i].locks[m]).account != (#[trigger] txs[i].locks[k]).account,
    ensures
        exists|j: int, i: int, k: int|
            0 <= j < i && #[trigger] conflicts(txs[j], txs[i]) && #[trigger] is_report(
                txs,
                steps,
                txs.len() as int,
                i,
                k,
                e,
            ),
{
    let n = txs.len() as int;
    law_reports_are_conflicts(txs, steps, n, e);
    let (i, k) = choose|i: int, k: int| #[trigger]
        is_report(txs, steps, n, i, k, e) && is_reported(txs, i, k);
    assert(!repeats_lock(txs[i], k));
    let account = txs[i].locks[k].account;
    if txs[i].locks[k].is_writable {
        let j = choose|j: int| 0 <= j < i && #[trigger] touches(txs[j], account);
        assert(writes(txs[i], account));
        law_write_conflicts(txs[i], txs[j], account);
    } else {
        let j = choose|j: int| 0 <= j < i && #[trigger] writes(txs[j], account);
        assert(touches(txs[i], account));
        law_write_conflicts(txs[j], txs[i], account);
    }
}

/// Later transactions never change what was decided for earlier ones: the
/// schedule of the first `k` transactions of a block has the block's steps for
/// them, its reports come first among the block's, and it is no deeper and in
/// no step wider.
pub proof fn law_prefix_is_scheduled_alike(
    txs: Seq<TxLocksView>,
    k: int,
    whole: ScheduleResult,
    part: ScheduleResult,
)
    requires
        0 <= k <= txs.len(),
        whole.describes(txs),
        part.describes(txs.take(k)),
    ensures
        part.steps@ == whole.steps@.take(k),
        part.conflicts.deep_view().is_prefix_of(whole.conflicts.deep_view()),
        part.depth <= whole.depth,
        forall|s: usize| #[trigger]
            part.width_per_step@.contains_key(s) ==> whole.width_per_step@.contains_key(s)
                && part.width_per_step@[s] <= whole.width_per_step@[s],
{
    let n = txs.len() as int;
    let steps = whole.steps@;
    lemma_schedule_of_prefix(txs, steps, k);
    law_schedule_is_unique(txs.take(k), part.steps@, steps.take(k));
    lemma_events_of_prefix(txs, steps, k, k);
    lemma_block_events_prefix(txs, steps, k, n);
    if part.depth > 0 {
        let i = choose|i: int|
            0 <= i < part.steps@.len() && #[trigger] part.steps@[i] + 1 == part.depth;
        assert(steps[i] == part.steps@[i]);
    }
    assert forall|s: usize| #[trigger] part.width_per_step@.contains_key(s) implies {
        &&& whole.width_per_step@.contains_key(s)
        &&& part.width_per_step@[s] <= whole.width_per_step@[s]
    } by {
        let i = choose|i: int| 0 <= i < part.steps@.len() && part.steps@[i] == s;
        assert(steps[i] == s);
        assert(steps.contains(s));
        assert(whole.width_per_step@.contains_key(s));
        lemma_width_of_prefix(steps, k, s);
        assert(part.width_per_step@[s] == width(part.steps@, s));
        assert(whole.width_per_step@[s] == width(steps, s));
    }
}

proof fn lemma_width_of_prefix(steps: Seq<usize>, k: int, s: usize)
    requires
        0 <= k <= steps.len(),
    ensures
        width(steps.take(k), s) <= width(steps, s),
{
    assert(steps =~= steps.take(k) + steps.skip(k));
    Seq::filter_distributes_over_add(steps.take(k), steps.skip(k), in_step(s));
}

/// The steps of the first transactions are a schedule of them.
proof fn lemma_schedule_of_prefix(txs: Seq<TxLocksView>, steps: Seq<usize>, k: int)
    requires
        0 <= k <= txs.len(),
        is_schedule(txs, steps),
    ensures
        is_schedule(txs.take(k), steps.take(k)),
{
    let few = txs.take(k);
    let at = steps.take(k);
    assert forall|j: int, i: int|
        0 <= j < i < few.len() && #[trigger] conflicts(few[j], few[i]) implies at[j] < at[i] by {
        assert(conflicts(txs[j], txs[i]));
    }
    assert forall|i: int| 0 <= i < few.len() && #[trigger] at[i] > 0 implies exists|j: int|
        0 <= j < i && #[trigger] conflicts(few[j], few[i]) && at[j] + 1 == at[i] by {
        assert(steps[i] > 0);
        let j = choose|j: int|
            0 <= j < i && #[trigger] conflicts(txs[j], txs[i]) && steps[j] + 1 == steps[i];
        assert(conflicts(few[j], few[i]));
    }
}

/// The reports of the first transactions do not depend on the later ones.
proof fn lemma_events_of_prefix(txs: Seq<TxLocksView>, steps: Seq<usize>, k: int, n: int)
    requires
        0 <= n <= k <= txs.len(),
        steps.len() == txs.len(),
    ensures
        block_events(txs.take(k), steps.take(k), n) == block_events(txs, steps, n),
    decreases n,
{
    if n > 0 {
        lemma_events_of_prefix(txs, steps, k, n - 1);
        lemma_tx_events_of_prefix(txs, steps, k, n - 1, txs[n - 1].locks.len() as int);
    }
}

proof fn lemma_tx_events_of_prefix(
    txs: Seq<TxLocksView>,
    steps: Seq<usize>,
    k: int,
    i: int,
    m: int,
)
    requires
        0 <= i < k <= txs.len(),
        0 <= m <= txs[i].locks.len(),
        steps.len() == txs.len(),
    ensures
        tx_events(txs.take(k), steps.take(k), i, m) == tx_events(txs, steps, i, m),
    decreases m,
{
    if m > 0 {
        lemma_tx_events_of_prefix(txs, steps, k, i, m - 1);
        let few = txs.take(k);
        let account = txs[i].locks[m - 1].account;
        assert forall|j: int|
            #![trigger touches(txs[j], account)]
            #![trigger touches(few[j], account)]
            0 <= j < i implies txs[j] == few[j] by {}
        assert forall|j: int|
            #![trigger writes(txs[j], account)]
            #![trigger writes(few[j], account)]
            0 <= j < i implies txs[j] == few[j] by {}
        assert(meets_conflict(few, i, m - 1) == meets_conflict(txs, i, m - 1)) by {
            if meets_conflict(txs, i, m - 1) {
                if txs[i].locks[m - 1].is_writable {
                    let j = choose|j: int| 0 <= j < i && #[trigger] touches(txs[j], account);
                    assert(touches(few[j], account));
                } else {
                    let j = choose|j: int| 0 <= j < i && #[trigger] writes(txs[j], account);
                    assert(writes(few[j], account));
                }
            }
        }
    }
}

/// The reports of fewer transactions come first.
proof fn lemma_block_events_prefix(txs: Seq<TxLocksView>, steps: Seq<usize>, k: int, n: int)
    requires
        0 <= k <= n,
    ensures
        block_events(txs, steps, k).is_prefix_of(block_events(txs, steps, n)),
    decreases n - k,
{
    if k < n {
        lemma_block_events_prefix(txs, steps, k, n - 1);
        let few = block_events(txs, steps, k);
        let before = block_events(txs, steps, n - 1);
        let all = block_events(txs, steps, n);
        assert(all.take(before.len() as int) =~= before);
        assert(all.take(few.len() as int) =~= before.take(few.len() as int));
    }
}

proof fn lemma_tx_events_grow(
    txs: Seq<TxLocksView>,
    steps: Seq<usize>,
    i: int,
    k: int,
    m: int,
    e: ConflictView,
)
    requires
        0 <= k <= m,
        tx_events(txs, steps, i, k).contains(e),
    ensures
        tx_events(txs, steps, i, m).contains(e),
    decreases m - k,
{
    if k < m {
        lemma_tx_events_grow(txs, steps, i, k, m - 1, e);
        let before = tx_events(txs, steps, i, m - 1);
        let p = choose|p: int| 0 <= p < before.len() && before[p] == e;
        assert(tx_events(txs, steps, i, m)[p] == e);
    }
}

proof fn lemma_block_events_grow(
    txs: Seq<TxLocksView>,
    steps: Seq<usize>,
    n: int,
    m: int,
    e: ConflictView,
)
    requires
        0 <= n <= m,
        block_events(txs, steps, n).contains(e),
    ensures
        block_events(txs, steps, m).contains(e),
    decreases m - n,
{
    if n < m {
        lemma_block_events_grow(txs, steps, n, m - 1, e);
        let before = block_events(txs, steps, m - 1);
        let p = choose|p: int| 0 <= p < before.len() && before[p] == e;
        assert(block_events(txs, steps, m)[p] == e);
    }
}

/// Whether lock `k` of transaction `i` comes after lock `m` of transaction `j`
/// on the same account, and either one of the two writes it and the
/// transactions are two, or the later lock writes it.
pub open spec fn comes_after(txs: Seq<TxLocksView>, i: int, k: int, j: int, m: int) -> bool {
    &&& 0 <= j <= i
    &&& 0 <= m < txs[j].locks.len()
    &&& txs[j].locks[m].account == txs[i].locks[k].account
    &&& (j < i && txs[j].locks[m].is_writable) || txs[i].locks[k].is_writable
    &&& j == i ==> m < k
}

proof fn lemma_reported(txs: Seq<TxLocksView>, i: int, k: int)
    requires
        0 <= i < txs.len(),
        0 <= k < txs[i].locks.len(),
    ensures
        is_reported(txs, i, k) <==> exists|j: int, m: int| comes_after(txs, i, k, j, m),
{
    let lock = txs[i].locks[k];
    if meets_conflict(txs, i, k) {
        if lock.is_writable {
            let j = choose|j: int| 0 <= j < i && #[trigger] touches(txs[j], lock.account);
            let m = choose|m: int|
                0 <= m < txs[j].locks.len() && (#[trigger] txs[j].locks[m]).account
                    == lock.account;
            assert(comes_after(txs, i, k, j, m));
        } else {
            let j = choose|j: int| 0 <= j < i && #[trigger] writes(txs[j], lock.account);
            let m = choose|m: int|
                0 <= m < txs[j].locks.len() && (#[trigger] txs[j].locks[m]).account
                    == lock.account && txs[j].locks[m].is_writable;
            assert(comes_after(txs, i, k, j, m));
        }
    }
    if repeats_lock(txs[i], k) {
        let m = choose|m: int| 0 <= m < k && (#[trigger] txs[i].locks[m]).account == lock.account;
        assert(comes_after(txs, i, k, i, m));
    }
    if exists|j: int, m: int| comes_after(txs, i, k, j, m) {
        let (j, m) = choose|j: int, m: int| comes_after(txs, i, k, j, m);
        assert(txs[j].locks[m].account == lock.account);
        if j < i {
            assert(touches(txs[j], lock.account));
            if !lock.is_writable {
                assert(writes(txs[j], lock.account));
            }
        }
    }
}

/// Whether one lock stands before another, by transaction and then by place.
pub open spec fn stands_before(a: (int, int), b: (int, int)) -> bool {
    a.0 < b.0 || (a.0 == b.0 && a.1 < b.1)
}

/// The reports are of the locks that come after another one that they meet:
/// one report for each, in the order of the block, and none for the others.
pub proof fn law_reports_are_the_locks_that_meet(txs: Seq<TxLocksView>, steps: Seq<usize>) -> (src:
    Seq<(int, int)>)
    ensures
        ({
            let events = block_events(txs, steps, txs.len() as int);
            &&& src.len() == events.len()
            &&& forall|t: int, u: int|
                0 <= t < u < src.len() ==> stands_before(#[trigger] src[t], #[trigger] src[u])
            &&& forall|t: int|
                0 <= t < src.len() ==> is_report(
                    txs,
                    steps,
                    txs.len() as int,
                    (#[trigger] src[t]).0,
                    src[t].1,
                    events[t],
                )
            &&& forall|i: int, k: int|
                0 <= i < txs.len() && 0 <= k < txs[i].locks.len() ==> (#[trigger] src.contains(
                    (i, k),
                ) <==> exists|j: int, m: int| comes_after(txs, i, k, j, m))
        }),
{
    let src = lemma_block_sources(txs, steps, txs.len() as int);
    assert forall|i: int, k: int|
        0 <= i < txs.len() && 0 <= k < txs[i].locks.len() implies (#[trigger] src.contains((i, k))
        <==> exists|j: int, m: int| comes_after(txs, i, k, j, m)) by {
        lemma_reported(txs, i, k);
    }
    src
}

proof fn lemma_block_sources(txs: Seq<TxLocksView>, steps: Seq<usize>, n: int) -> (src: Seq<
    (int, int),
>)
    requires
        0 <= n <= txs.len(),
    ensures
        ({
            let events = block_events(txs, steps, n);
            &&& src.len() == events.len()
            &&& forall|t: int, u: int|
                0 <= t < u < src.len() ==> stands_before(#[trigger] src[t], #[trigger] src[u])
            &&& forall|t: int|
                0 <= t < src.len() ==> is_report(
                    txs,
                    steps,
                    n,
                    (#[trigger] src[t]).0,
                    src[t].1,
                    events[t],
                )
            &&& forall|i: int, k: int|
                0 <= i < n && 0 <= k < txs[i].locks.len() ==> (#[trigger] src.contains((i, k))
                    <==> is_reported(txs, i, k))
        }),
    decreases n,
{
    if n == 0 {
        Seq::empty()
    } else {
        let before = lemma_block_sources(txs, steps, n - 1);
        let count = txs[n - 1].locks.len() as int;
        let own = lemma_tx_sources(txs, steps, n - 1, count);
        let src = before + own;
        let events = block_events(txs, steps, n);
        assert forall|t: int| 0 <= t < src.len() implies is_report(
            txs,
            steps,
            n,
            (#[trigger] src[t]).0,
            src[t].1,
            events[t],
        ) by {
            if t < before.len() {
                assert(src[t] == before[t]);
            } else {
                assert(src[t] == own[t - before.len()]);
            }
        }
        assert forall|t: int, u: int| 0 <= t < u < src.len() implies stands_before(
            #[trigger] src[t],
            #[trigger] src[u],
        ) by {
            if u < before.len() {
                assert(stands_before(before[t], before[u]));
            } else if t >= before.len() {
                assert(stands_before(own[t - before.len()], own[u - before.len()]));
            } else {
                assert(before[t].0 < n - 1);
                assert(own[u - before.len()].0 == n - 1);
            }
        }
        assert forall|i: int, k: int|
            0 <= i < n && 0 <= k < txs[i].locks.len() implies (#[trigger] src.contains((i, k))
            <==> is_reported(txs, i, k)) by {
            if src.contains((i, k)) {
                let t = choose|t: int| 0 <= t < src.len() && src[t] == (i, k);
                if t < before.len() {
                    assert(before[t] == (i, k));
                    assert(before.contains((i, k)));
                } else {
                    assert(own[t - before.len()] == (i, k));
                    assert(own.contains((i, k)));
                }
            }
            if is_reported(txs, i, k) {
                if i < n - 1 {
                    assert(before.contains((i, k)));
                    let t = choose|t: int| 0 <= t < before.len() && before[t] == (i, k);
                    assert(src[t] == (i, k));
                } else {
                    assert(own.contains((i, k)));
                    let t = choose|t: int| 0 <= t < own.len() && own[t] == (i, k);
                    assert(src[before.len() + t] == (i, k));
                }
            }
        }
        src
    }
}

proof fn lemma_tx_sources(txs: Seq<TxLocksView>, steps: Seq<usize>, i: int, n: int) -> (src: Seq<
    (int, int),
>)
    requires
        0 <= i < txs.len(),
        0 <= n <= txs[i].locks.len(),
    ensures
        ({
            let events = tx_events(txs, steps, i, n);
            &&& src.len() == events.len()
            &&& forall|t: int, u: int|
                0 <= t < u < src.len() ==> stands_before(#[trigger] src[t], #[trigger] src[u])
            &&& forall|t: int|
                0 <= t < src.len() ==> (#[trigger] src[t]).0 == i && src[t].1 < n && is_report(
                    txs,
                    steps,
                    i + 1,
                    i,
                    src[t].1,
                    events[t],
                )
            &&& forall|k: int|
                0 <= k < n ==> (#[trigger] src.contains((i, k)) <==> is_reported(txs, i, k))
        }),
    decreases n,
{
    if n == 0 {
        Seq::empty()
    } else {
        let before = lemma_tx_sources(txs, steps, i, n - 1);
        let src = if is_reported(txs, i, n - 1) {
            before.push((i, n - 1))
        } else {
            before
        };
        assert forall|k: int| 0 <= k < n implies (#[trigger] src.contains((i, k)) <==> is_reported(
            txs,
            i,
            k,
        )) by {
            if src.contains((i, k)) {
                let t = choose|t: int| 0 <= t < src.len() && src[t] == (i, k);
                if t < before.len() {
                    assert(before[t] == (i, k));
                    assert(before.contains((i, k)));
                }
            }
            if is_reported(txs, i, k) {
                if k < n - 1 {
                    assert(before.contains((i, k)));
                    let t = choose|t: int| 0 <= t < before.len() && before[t] == (i, k);
                    assert(src[t] == (i, k));
                } else {
                    assert(src[before.len() as int] == (i, k));
                }
            }
        }
        src
    }
}

/// Of two transactions with a lock on one account, of which one writes, the
/// later runs in a later step.
pub proof fn law_shared_accounts_order_the_steps(
    txs: Seq<TxLocksView>,
    steps: Seq<usize>,
    j: int,
    m: int,
    i: int,
    k: int,
)
    requires
        is_schedule(txs, steps),
        0 <= j < i < txs.len(),
        0 <= m < txs[j].locks.len(),
        0 <= k < txs[i].locks.len(),
        txs[j].locks[m].account == txs[i].locks[k].account,
        txs[j].locks[m].is_writable || txs[i].locks[k].is_writable,
    ensures
        steps[j] < steps[i],
{
    assert(locks_conflict(txs[j].locks[m], txs[i].locks[k]));
    assert(conflicts(txs[j], txs[i]));
}

/// A transaction waits only for one in the step before with which it shares an
/// account that one of the two writes.
pub proof fn law_no_step_is_later_than_needed(
    txs: Seq<TxLocksView>,
    steps: Seq<usize>,
    i: int,
) -> (shared: (int, int, int))
    requires
        is_schedule(txs, steps),
        0 <= i < txs.len(),
        steps[i] > 0,
    ensures
        ({
            let (j, m, k) = shared;
            &&& 0 <= j < i
            &&& 0 <= m < txs[j].locks.len()
            &&& 0 <= k < txs[i].locks.len()
            &&& txs[j].locks[m].account == txs[i].locks[k].account
            &&& txs[j].locks[m].is_writable || txs[i].locks[k].is_writable
            &&& steps[j] + 1 == steps[i]
        }),
{
    let j = choose|j: int|
        0 <= j < i && #[trigger] conflicts(txs[j], txs[i]) && steps[j] + 1 == steps[i];
    let (m, k) = choose|m: int, k: int|
        0 <= m < txs[j].locks.len() && 0 <= k < txs[i].locks.len() && #[trigger] locks_conflict(
            txs[j].locks[m],
            txs[i].locks[k],
        );
    (j, m, k)
}

/// A width is a count: nothing without transactions, and one more with each
/// transaction of the step.
pub proof fn law_widths_count_transactions(steps: Seq<usize>, x: usize, s: usize)
    ensures
        width(Seq::empty(), s) == 0,
        width(steps.push(x), s) == width(steps, s) + if x == s {
            1int
        } else {
            0int
        },
{
    steps.lemma_filter_push(x, in_step(s));
    assert(Seq::<usize>::empty().filter(in_step(s)) =~= Seq::<usize>::empty());
}

/// The depth is one more than the highest step, and zero without transactions.
pub proof fn law_depth_is_the_highest_step(steps: Seq<usize>, depth: usize)
    requires
        is_depth(steps, depth),
    ensures
        steps.len() == 0 ==> depth == 0,
        steps.len() > 0 ==> depth > 0 && exists|i: int|
            0 <= i < steps.len() && #[trigger] steps[i] + 1 == depth,
        forall|i: int| 0 <= i < steps.len() ==> #[trigger] steps[i] < depth,
{
    if steps.len() > 0 {
        assert(steps[0] < depth);
    }
}

/// The content of a lock list and of a report is all that it holds.
pub proof fn law_lock_views_hold_every_field(tx: TxLocks, event: ConflictEvent)
    ensures
        tx.deep_view().signature == tx.signature@,
        tx.deep_view().program_ids.len() == tx.program_ids@.len(),
        forall|i: int|
            0 <= i < tx.program_ids@.len() ==> #[trigger] tx.deep_view().program_ids[i]
                == tx.program_ids@[i]@,
        tx.deep_view().locks.len() == tx.locks@.len(),
        forall|i: int|
            0 <= i < tx.locks@.len() ==> (#[trigger] tx.deep_view().locks[i]).account
                == tx.locks@[i].account@ && tx.deep_view().locks[i].is_writable
                == tx.locks@[i].is_writable,
        event.deep_view().account == event.account@,
        event.deep_view().tx_signature == event.tx_signature@,
        event.deep_view().program_ids.len() == event.program_ids@.len(),
        forall|i: int|
            0 <= i < event.program_ids@.len() ==> #[trigger] event.deep_view().program_ids[i]
                == event.program_ids@[i]@,
        event.deep_view().step == event.step,
        event.deep_view().caused_by_write == event.caused_by_write,
{
}

} // verus!
