//! The full, ordered account-lock list of a transaction, with the accounts
//! that v0 messages load from address lookup tables.
//!
//! Static account keys are ordered
//! `[signed-writable][signed-readonly][unsigned-writable][unsigned-readonly]`.
//! The loaded keys come resolved from the RPC (`meta.loadedAddresses`), so
//! they only need to be appended with the right flag.

use crate::contention::{AccountLock, LockView};
use crate::sequences::are_indices;
use vstd::prelude::*;

verus! {

/// The header of a transaction message.
#[derive(Debug, Clone, Copy)]
pub struct MessageHeader {
    pub num_required_signatures: u8,
    pub num_readonly_signed_accounts: u8,
    pub num_readonly_unsigned_accounts: u8,
}

/// `a - b`, or 0.
pub open spec fn monus(a: int, b: int) -> int {
    if a > b {
        a - b
    } else {
        0
    }
}

/// The smaller of two numbers.
pub open spec fn min_int(a: int, b: int) -> int {
    if a < b {
        a
    } else {
        b
    }
}

impl MessageHeader {
    /// Where the signers end among `n` static keys.
    pub open spec fn signers_end(self, n: int) -> int {
        min_int(self.num_required_signatures as int, n)
    }

    /// Where the writable signers end among `n` static keys.
    pub open spec fn signed_writable_end(self, n: int) -> int {
        min_int(
            monus(
                self.num_required_signatures as int,
                self.num_readonly_signed_accounts as int,
            ),
            n,
        )
    }

    /// Where the writable non-signers end among `n` static keys.
    pub open spec fn unsigned_writable_end(self, n: int) -> int {
        min_int(
            self.num_required_signatures + monus(
                monus(n, self.num_required_signatures as int),
                self.num_readonly_unsigned_accounts as int,
            ),
            n,
        )
    }
}

/// The static keys that the message may write.
pub open spec fn static_writable(keys: Seq<Seq<char>>, header: MessageHeader) -> Seq<Seq<char>> {
    let n = keys.len() as int;
    keys.subrange(0, header.signed_writable_end(n)) + keys.subrange(
        header.signers_end(n),
        header.unsigned_writable_end(n),
    )
}

/// The static keys that the message only reads.
pub open spec fn static_readonly(keys: Seq<Seq<char>>, header: MessageHeader) -> Seq<Seq<char>> {
    let n = keys.len() as int;
    keys.subrange(header.signed_writable_end(n), header.signers_end(n)) + keys.subrange(
        header.unsigned_writable_end(n),
        n,
    )
}

/// A lock of one kind for each of `accounts`.
pub open spec fn locks_of(accounts: Seq<Seq<char>>, is_writable: bool) -> Seq<LockView> {
    Seq::new(accounts.len(), |i: int| LockView { account: accounts[i], is_writable })
}

/// The locks of a transaction: static and loaded writable accounts, then
/// static and loaded read-only ones.
pub open spec fn account_locks(
    keys: Seq<Seq<char>>,
    header: MessageHeader,
    loaded_writable: Seq<Seq<char>>,
    loaded_readonly: Seq<Seq<char>>,
) -> Seq<LockView> {
    locks_of(static_writable(keys, header) + loaded_writable, true) + locks_of(
        static_readonly(keys, header) + loaded_readonly,
        false,
    )
}

/// The boundaries are in order, so each static key falls in one group.
proof fn lemma_boundaries(header: MessageHeader, n: int)
    requires
        n >= 0,
    ensures
        0 <= header.signed_writable_end(n) <= header.signers_end(n)
            <= header.unsigned_writable_end(n) <= n,
{
}

/// Appends the keys in `from..to`.
fn append_keys(out: &mut Vec<String>, keys: &[String], from: usize, to: usize)
    requires
        from <= to <= keys@.len(),
    ensures
        final(out).deep_view() == old(out).deep_view() + keys.deep_view().subrange(
            from as int,
            to as int,
        ),
{
    let ghost out0 = out.deep_view();
    let mut i: usize = from;
    assert(out.deep_view() =~= out0 + keys.deep_view().subrange(from as int, from as int));
    while i < to
        invariant
            from <= i <= to <= keys@.len(),
            out.deep_view() == out0 + keys.deep_view().subrange(from as int, i as int),
        decreases to - i,
    {
        let ghost before = out.deep_view();
        out.push(keys[i].clone());
        assert(out.deep_view() =~= before.push(keys.deep_view()[i as int]));
        assert(out.deep_view() =~= out0 + keys.deep_view().subrange(from as int, i + 1));
        i += 1;
    }
}

/// Splits the static keys of a message into writable and read-only ones.
pub fn split_static_keys(static_keys: &[String], header: MessageHeader) -> (split: (
    Vec<String>,
    Vec<String>,
))
    ensures
        split.0.deep_view() == static_writable(static_keys.deep_view(), header),
        split.1.deep_view() == static_readonly(static_keys.deep_view(), header),
{
    let n: usize = static_keys.len();
    let num_sig: usize = header.num_required_signatures as usize;
    let num_readonly_signed: usize = header.num_readonly_signed_accounts as usize;
    let num_readonly_unsigned: usize = header.num_readonly_unsigned_accounts as usize;
    proof {
        lemma_boundaries(header, n as int);
    }
    let signed_writable: usize = num_sig.saturating_sub(num_readonly_signed);
    let non_signers: usize = n.saturating_sub(num_sig);
    let unsigned_writable: usize = non_signers.saturating_sub(num_readonly_unsigned);
    let signed_writable_end: usize = if signed_writable < n { signed_writable } else { n };
    let signers_end: usize = if num_sig < n { num_sig } else { n };
    let unsigned_writable_end: usize = if num_sig < n { num_sig + unsigned_writable } else { n };

    let mut writable: Vec<String> = Vec::new();
    append_keys(&mut writable, static_keys, 0, signed_writable_end);
    append_keys(&mut writable, static_keys, signers_end, unsigned_writable_end);
    let mut readonly: Vec<String> = Vec::new();
    append_keys(&mut readonly, static_keys, signed_writable_end, signers_end);
    append_keys(&mut readonly, static_keys, unsigned_writable_end, n);
    assert(writable.deep_view() =~= static_writable(static_keys.deep_view(), header));
    assert(readonly.deep_view() =~= static_readonly(static_keys.deep_view(), header));
    (writable, readonly)
}

/// Appends a lock for each account.
fn append_locks(locks: &mut Vec<AccountLock>, accounts: &[String], is_writable: bool)
    ensures
        final(locks).deep_view() == old(locks).deep_view() + locks_of(
            accounts.deep_view(),
            is_writable,
        ),
{
    let ghost locks0 = locks.deep_view();
    let ghost all = locks_of(accounts.deep_view(), is_writable);
    let mut i: usize = 0;
    assert(locks.deep_view() =~= locks0 + all.take(0));
    while i < accounts.len()
        invariant
            i <= accounts@.len(),
            all == locks_of(accounts.deep_view(), is_writable),
            locks.deep_view() == locks0 + all.take(i as int),
        decreases accounts@.len() - i,
    {
        let ghost before = locks.deep_view();
        let lock = AccountLock { account: accounts[i].clone(), is_writable };
        locks.push(lock);
        assert(locks.deep_view() =~= before.push(lock.deep_view()));
        assert(lock.deep_view() == all[i as int]);
        assert(locks.deep_view() =~= locks0 + all.take(i + 1));
        i += 1;
    }
    assert(all.take(i as int) =~= all);
}

/// Resolves the complete, ordered account-lock list of one transaction.
pub fn resolve_account_locks(
    static_keys: &[String],
    header: MessageHeader,
    loaded_writable: &[String],
    loaded_readonly: &[String],
) -> (locks: Vec<AccountLock>)
    ensures
        locks.deep_view() == account_locks(
            static_keys.deep_view(),
            header,
            loaded_writable.deep_view(),
            loaded_readonly.deep_view(),
        ),
{
    let (writable, readonly) = split_static_keys(static_keys, header);
    let mut locks: Vec<AccountLock> = Vec::new();
    append_locks(&mut locks, writable.as_slice(), true);
    append_locks(&mut locks, loaded_writable, true);
    append_locks(&mut locks, readonly.as_slice(), false);
    append_locks(&mut locks, loaded_readonly, false);
    assert(locks.deep_view() =~= account_locks(
        static_keys.deep_view(),
        header,
        loaded_writable.deep_view(),
        loaded_readonly.deep_view(),
    ));
    locks
}

/// Static key `i` is writable: it stands among the writable signers or among
/// the writable non-signers.
pub open spec fn key_is_writable(header: MessageHeader, n: int, i: int) -> bool {
    i < header.signed_writable_end(n) || header.signers_end(n) <= i < header.unsigned_writable_end(n)
}

/// Resolution drops no account and adds none: there is one lock for each
/// static and each loaded key.
pub proof fn law_one_lock_per_key(
    keys: Seq<Seq<char>>,
    header: MessageHeader,
    loaded_writable: Seq<Seq<char>>,
    loaded_readonly: Seq<Seq<char>>,
)
    ensures
        account_locks(keys, header, loaded_writable, loaded_readonly).len() == keys.len()
            + loaded_writable.len() + loaded_readonly.len(),
        (static_writable(keys, header) + static_readonly(keys, header)).to_multiset()
            == keys.to_multiset(),
{
    let n = keys.len() as int;
    lemma_boundaries(header, n);
    let a = keys.subrange(0, header.signed_writable_end(n));
    let b = keys.subrange(header.signed_writable_end(n), header.signers_end(n));
    let c = keys.subrange(header.signers_end(n), header.unsigned_writable_end(n));
    let d = keys.subrange(header.unsigned_writable_end(n), n);
    assert(keys =~= (a + b) + (c + d));
    vstd::seq_lib::lemma_multiset_commutative(a + b, c + d);
    vstd::seq_lib::lemma_multiset_commutative(a, b);
    vstd::seq_lib::lemma_multiset_commutative(c, d);
    vstd::seq_lib::lemma_multiset_commutative(a + c, b + d);
    vstd::seq_lib::lemma_multiset_commutative(a, c);
    vstd::seq_lib::lemma_multiset_commutative(b, d);
    assert(a.to_multiset().add(c.to_multiset()).add(b.to_multiset().add(d.to_multiset()))
        =~= a.to_multiset().add(b.to_multiset()).add(c.to_multiset().add(d.to_multiset())));
}

/// A static key gets a writable lock exactly where the header's layout makes
/// it writable, and every loaded key keeps its kind.
pub proof fn law_lock_kinds(
    keys: Seq<Seq<char>>,
    header: MessageHeader,
    loaded_writable: Seq<Seq<char>>,
    loaded_readonly: Seq<Seq<char>>,
    account: Seq<char>,
)
    ensures
        account_locks(keys, header, loaded_writable, loaded_readonly).contains(
            LockView { account, is_writable: true },
        ) <==> loaded_writable.contains(account) || exists|i: int|
            0 <= i < keys.len() && #[trigger] key_is_writable(header, keys.len() as int, i)
                && keys[i] == account,
        account_locks(keys, header, loaded_writable, loaded_readonly).contains(
            LockView { account, is_writable: false },
        ) <==> loaded_readonly.contains(account) || exists|i: int|
            0 <= i < keys.len() && !(#[trigger] key_is_writable(header, keys.len() as int, i))
                && keys[i] == account,
{
    let n = keys.len() as int;
    lemma_boundaries(header, n);
    let w = header.signed_writable_end(n);
    let s = header.signers_end(n);
    let u = header.unsigned_writable_end(n);
    let writable = static_writable(keys, header) + loaded_writable;
    let readonly = static_readonly(keys, header) + loaded_readonly;
    let all = account_locks(keys, header, loaded_writable, loaded_readonly);
    let write = LockView { account, is_writable: true };
    let read = LockView { account, is_writable: false };
    assert forall|i: int| 0 <= i < n implies #[trigger] keys[i] == (if i < w {
        writable[i]
    } else if s <= i < u {
        writable[w + i - s]
    } else if i < s {
        readonly[i - w]
    } else {
        readonly[s - w + i - u]
    }) by {}
    if all.contains(write) {
        let k = choose|k: int| 0 <= k < all.len() && all[k] == write;
        if k < w {
            assert(key_is_writable(header, n, k) && keys[k] == account);
        } else if k < w + u - s {
            assert(key_is_writable(header, n, s + k - w) && keys[s + k - w] == account);
        } else {
            assert(loaded_writable[k - (w + u - s)] == account);
        }
    }
    if loaded_writable.contains(account) {
        let k = choose|k: int| 0 <= k < loaded_writable.len() && loaded_writable[k] == account;
        assert(all[w + u - s + k] == write);
    }
    if exists|i: int| 0 <= i < n && #[trigger] key_is_writable(header, n, i) && keys[i] == account {
        let i = choose|i: int|
            0 <= i < n && #[trigger] key_is_writable(header, n, i) && keys[i] == account;
        if i < w {
            assert(all[i] == write);
        } else {
            assert(all[w + i - s] == write);
        }
    }
    let m = writable.len() as int;
    if all.contains(read) {
        let k = choose|k: int| 0 <= k < all.len() && all[k] == read;
        let r = k - m;
        assert(readonly[r] == account);
        if r < s - w {
            assert(!key_is_writable(header, n, w + r) && keys[w + r] == account);
        } else if r < s - w + n - u {
            let i = u + r - (s - w);
            assert(!key_is_writable(header, n, i) && keys[i] == account);
        } else {
            assert(loaded_readonly[r - (s - w + n - u)] == account);
        }
    }
    if loaded_readonly.contains(account) {
        let k = choose|k: int| 0 <= k < loaded_readonly.len() && loaded_readonly[k] == account;
        assert(all[m + s - w + n - u + k] == read);
    }
    if exists|i: int| 0 <= i < n && !(#[trigger] key_is_writable(header, n, i)) && keys[i]
        == account {
        let i = choose|i: int|
            0 <= i < n && !(#[trigger] key_is_writable(header, n, i)) && keys[i] == account;
        if i < s {
            assert(all[m + i - w] == read);
        } else {
            assert(all[m + s - w + i - u] == read);
        }
    }
}

/// Whether static key `i` of `n` is written: it is a signer with the read-only
/// signers still to come, or no signer with the read-only others still to come.
pub open spec fn header_writes(header: MessageHeader, n: int, i: int) -> bool {
    if i < header.num_required_signatures {
        i + header.num_readonly_signed_accounts < header.num_required_signatures
    } else {
        i + header.num_readonly_unsigned_accounts < n
    }
}

/// The static keys are split by the numbers of the header alone, and each part
/// keeps the order of the message.
pub proof fn law_static_keys_are_split(keys: Seq<Seq<char>>, header: MessageHeader) -> (split: (
    Seq<int>,
    Seq<int>,
))
    ensures
        are_indices(split.0, keys.len() as int),
        are_indices(split.1, keys.len() as int),
        static_writable(keys, header).len() == split.0.len(),
        static_readonly(keys, header).len() == split.1.len(),
        forall|t: int|
            0 <= t < split.0.len() ==> static_writable(keys, header)[t]
                == keys[#[trigger] split.0[t]],
        forall|t: int|
            0 <= t < split.1.len() ==> static_readonly(keys, header)[t]
                == keys[#[trigger] split.1[t]],
        forall|i: int|
            0 <= i < keys.len() ==> {
                &&& split.0.contains(i) <==> #[trigger] header_writes(
                    header,
                    keys.len() as int,
                    i,
                )
                &&& split.1.contains(i) <==> !header_writes(header, keys.len() as int, i)
            },
{
    let n = keys.len() as int;
    lemma_boundaries(header, n);
    let w = header.signed_writable_end(n);
    let s = header.signers_end(n);
    let u = header.unsigned_writable_end(n);
    let writable = Seq::new(
        (w + u - s) as nat,
        |t: int|
            if t < w {
                t
            } else {
                t - w + s
            },
    );
    let readonly = Seq::new(
        (s - w + n - u) as nat,
        |t: int|
            if t < s - w {
                t + w
            } else {
                t - (s - w) + u
            },
    );
    assert forall|i: int| 0 <= i < n implies {
        &&& writable.contains(i) <==> #[trigger] header_writes(header, n, i)
        &&& readonly.contains(i) <==> !header_writes(header, n, i)
    } by {
        if i < w {
            assert(writable[i] == i);
        } else if i < s {
            assert(readonly[i - w] == i);
        } else if i < u {
            assert(writable[i - s + w] == i);
        } else {
            assert(readonly[i - u + s - w] == i);
        }
    }
    (writable, readonly)
}

/// For a header that fits its keys, the read-only keys are as many as it says
/// among the signers and among the others, and they come last in each group.
pub proof fn law_header_counts_the_read_only_keys(keys: Seq<Seq<char>>, header: MessageHeader)
    requires
        header.num_readonly_signed_accounts <= header.num_required_signatures,
        header.num_required_signatures + header.num_readonly_unsigned_accounts <= keys.len(),
    ensures
        ({
            let n = keys.len() as int;
            let signers = header.num_required_signatures as int;
            let signed = signers - header.num_readonly_signed_accounts;
            let unsigned = n - header.num_readonly_unsigned_accounts;
            &&& static_writable(keys, header) == keys.subrange(0, signed) + keys.subrange(
                signers,
                unsigned,
            )
            &&& static_readonly(keys, header) == keys.subrange(signed, signers) + keys.subrange(
                unsigned,
                n,
            )
            &&& static_readonly(keys, header).len() == header.num_readonly_signed_accounts
                + header.num_readonly_unsigned_accounts
        }),
{
}

/// Every key has a lock of its own, of the kind that the header gives to a
/// static key and that a loaded key comes with. The writable locks come first,
/// and the locks of one kind keep the order static, loaded.
pub proof fn law_each_key_has_its_lock(
    keys: Seq<Seq<char>>,
    header: MessageHeader,
    loaded_writable: Seq<Seq<char>>,
    loaded_readonly: Seq<Seq<char>>,
) -> (at: (Seq<int>, Seq<int>, Seq<int>))
    ensures
        ({
            let n = keys.len() as int;
            let locks = account_locks(keys, header, loaded_writable, loaded_readonly);
            &&& locks.len() == n + loaded_writable.len() + loaded_readonly.len()
            &&& at.0.len() == n
            &&& at.1.len() == loaded_writable.len()
            &&& at.2.len() == loaded_readonly.len()
            &&& forall|i: int|
                0 <= i < n ==> 0 <= #[trigger] at.0[i] < locks.len() && locks[at.0[i]] == (
                LockView { account: keys[i], is_writable: header_writes(header, n, i) })
            &&& forall|i: int|
                0 <= i < loaded_writable.len() ==> 0 <= #[trigger] at.1[i] < locks.len()
                    && locks[at.1[i]] == (LockView {
                    account: loaded_writable[i],
                    is_writable: true,
                })
            &&& forall|i: int|
                0 <= i < loaded_readonly.len() ==> 0 <= #[trigger] at.2[i] < locks.len()
                    && locks[at.2[i]] == (LockView {
                    account: loaded_readonly[i],
                    is_writable: false,
                })
            &&& forall|i: int, j: int|
                0 <= i < j < n && header_writes(header, n, i) == header_writes(header, n, j)
                    ==> #[trigger] at.0[i] < #[trigger] at.0[j]
            &&& forall|i: int, j: int|
                0 <= i < n && 0 <= j < loaded_writable.len() ==> (#[trigger] at.0[i]
                    < #[trigger] at.1[j] <==> header_writes(header, n, i))
            &&& forall|i: int, j: int|
                0 <= i < n && 0 <= j < loaded_readonly.len() ==> #[trigger] at.0[i]
                    < #[trigger] at.2[j]
            &&& forall|i: int, j: int|
                0 <= i < j < loaded_writable.len() ==> #[trigger] at.1[i] < #[trigger] at.1[j]
            &&& forall|i: int, j: int|
                0 <= i < j < loaded_readonly.len() ==> #[trigger] at.2[i] < #[trigger] at.2[j]
            &&& forall|p: int, q: int|
                0 <= p < q < locks.len() && (#[trigger] locks[q]).is_writable ==> (
                #[trigger] locks[p]).is_writable
        }),
{
    let n = keys.len() as int;
    lemma_boundaries(header, n);
    let w = header.signed_writable_end(n);
    let s = header.signers_end(n);
    let u = header.unsigned_writable_end(n);
    let m = w + u - s + loaded_writable.len();
    (
        Seq::new(
            n as nat,
            |i: int|
                if i < w {
                    i
                } else if i < s {
                    m + i - w
                } else if i < u {
                    w + i - s
                } else {
                    m + s - w + i - u
                },
        ),
        Seq::new(loaded_writable.len(), |i: int| w + u - s + i),
        Seq::new(loaded_readonly.len(), |i: int| m + s - w + n - u + i),
    )
}

} // verus!
