//! Decoding of `getBlock` and `getSlot` replies.
//!
//! The `Raw*` types name the fields of a reply that are decoded
//! (`encoding=json`, `maxSupportedTransactionVersion=0`); everything else in
//! the reply is ignored.

use crate::account_resolution::{account_locks, resolve_account_locks, MessageHeader};
use crate::json;
use crate::sequences::{are_indices, lemma_filter_map_has, lemma_filter_map_sources};
use crate::text::{
    contains_in_small_letters, contains_text, is_before, law_a_part_occurs, law_small_letters,
    law_what_occurs_is_a_part, lemma_text_before_irreflexive, lemma_text_before_total,
    lemma_text_before_transitive, occurs, occurs_at, parse_u64, small_letters, text_before,
    u64_of_text,
};
use crate::types::{
    DecodedBlock, DecodedBlockView, DecodedTransaction, DecodedTxView, TokenBalanceChange,
    TokenChangeView,
};
use vstd::prelude::*;

verus! {

/// Why a slot could not be fetched.
#[derive(Debug, Clone, PartialEq, Eq)]
pub enum RpcError {
    /// The request did not complete.
    Transport(String),
    /// The RPC answered with an error.
    RpcReturnedError(String),
    /// The leader skipped the slot: an expected outcome.
    SlotSkipped,
    /// The reply does not have the shape of a block.
    UnexpectedShape(String),
}

/// The mathematical content of an [`RpcError`].
pub enum RpcErrorView {
    Transport(Seq<char>),
    RpcReturnedError(Seq<char>),
    SlotSkipped,
    UnexpectedShape(Seq<char>),
}

impl DeepView for RpcError {
    type V = RpcErrorView;

    open spec fn deep_view(&self) -> RpcErrorView {
        match self {
            RpcError::Transport(text) => RpcErrorView::Transport(text@),
            RpcError::RpcReturnedError(text) => RpcErrorView::RpcReturnedError(text@),
            RpcError::SlotSkipped => RpcErrorView::SlotSkipped,
            RpcError::UnexpectedShape(text) => RpcErrorView::UnexpectedShape(text@),
        }
    }
}

impl RpcErrorView {
    /// The message that an error is reported with.
    pub open spec fn message(self) -> Seq<char> {
        match self {
            RpcErrorView::Transport(text) => "transport error: "@ + text,
            RpcErrorView::RpcReturnedError(text) => "rpc returned an error: "@ + text,
            RpcErrorView::SlotSkipped => "slot was skipped by the leader"@,
            RpcErrorView::UnexpectedShape(text) => "unexpected response shape: "@ + text,
        }
    }

    /// Whether trying again can help.
    pub open spec fn transient(self) -> bool {
        match self {
            RpcErrorView::Transport(_) => true,
            RpcErrorView::RpcReturnedError(text) => is_rate_limit_message(text),
            RpcErrorView::SlotSkipped => false,
            RpcErrorView::UnexpectedShape(_) => false,
        }
    }
}

impl RpcError {
    /// The message that this error is reported with.
    pub fn message(&self) -> (text: String)
        ensures
            text@ == self.deep_view().message(),
    {
        match self {
            RpcError::Transport(text) => "transport error: ".to_owned().concat(text.as_str()),
            RpcError::RpcReturnedError(text) => "rpc returned an error: ".to_owned().concat(
                text.as_str(),
            ),
            RpcError::SlotSkipped => "slot was skipped by the leader".to_owned(),
            RpcError::UnexpectedShape(text) => "unexpected response shape: ".to_owned().concat(
                text.as_str(),
            ),
        }
    }
}

/// The RPC refused the request because too many were sent, in whatever capitals.
pub open spec fn is_rate_limit_message(text: Seq<char>) -> bool {
    ||| occurs(small_letters(text), "rate limit"@)
    ||| occurs(small_letters(text), "too many requests"@)
}

/// The RPC has no block for the slot: the leader skipped it, or it is missing
/// from the ledger.
pub open spec fn is_skipped_message(text: Seq<char>) -> bool {
    ||| occurs(text, "skipped"@)
    ||| occurs(text, "missing"@)
    ||| occurs(text, "Block not available"@)
}

/// Transient errors are worth retrying: network failures and rate-limit
/// replies. A skipped slot or a malformed reply is not.
pub fn is_transient(e: &RpcError) -> (transient: bool)
    ensures
        transient == e.deep_view().transient(),
{
    match e {
        RpcError::Transport(_) => true,
        RpcError::RpcReturnedError(text) => {
            let t: &str = text.as_str();
            contains_in_small_letters(t, "rate limit") || contains_in_small_letters(
                t,
                "too many requests",
            )
        },
        RpcError::SlotSkipped => false,
        RpcError::UnexpectedShape(_) => false,
    }
}

/// The error that an RPC error message stands for. A reply without a message
/// reads `rpc error`.
pub open spec fn error_of_message(message: Option<Seq<char>>) -> RpcErrorView {
    let text = match message {
        Some(t) => t,
        None => "rpc error"@,
    };
    if is_skipped_message(text) {
        RpcErrorView::SlotSkipped
    } else {
        RpcErrorView::RpcReturnedError(text)
    }
}

/// Classifies the message of an RPC error.
pub fn classify_error(message: Option<&str>) -> (error: RpcError)
    ensures
        error.deep_view() == error_of_message(message.deep_view()),
{
    let text: &str = match message {
        Some(t) => t,
        None => "rpc error",
    };
    if contains_text(text, "skipped") || contains_text(text, "missing") || contains_text(
        text,
        "Block not available",
    ) {
        RpcError::SlotSkipped
    } else {
        RpcError::RpcReturnedError(text.to_owned())
    }
}

/// The error that a JSON-RPC reply carries, if it has an `error` member.
pub open spec fn error_of_reply(reply: serde_json::Value) -> Option<RpcErrorView> {
    match json::json_member(reply, "error"@) {
        None => None,
        Some(error) => Some(
            error_of_message(
                match json::json_member(error, "message"@) {
                    Some(message) => json::json_str(message),
                    None => None,
                },
            ),
        ),
    }
}

/// The error that a JSON-RPC reply carries.
pub fn reply_error(reply: &serde_json::Value) -> (error: Option<RpcError>)
    ensures
        error.deep_view() == error_of_reply(*reply),
{
    match json::member(reply, "error") {
        None => None,
        Some(error) => {
            let message: Option<&str> = match json::member(error, "message") {
                Some(m) => json::as_text(m),
                None => None,
            };
            Some(classify_error(message))
        },
    }
}

/// The slot that a `getSlot` reply holds.
pub open spec fn slot_of_reply(reply: serde_json::Value) -> Option<u64> {
    match json::json_member(reply, "result"@) {
        Some(result) => json::json_u64(result),
        None => None,
    }
}

/// Takes the number found in a `getSlot` reply; without one the reply has the
/// wrong shape, and is shown.
pub fn checked_slot(number: Option<u64>, shown: &str) -> (slot: Result<u64, RpcError>)
    ensures
        match slot {
            Ok(s) => number == Some(s),
            Err(e) => number is None && e.deep_view() == RpcErrorView::UnexpectedShape(
                "getSlot: "@ + shown@,
            ),
        },
{
    match number {
        Some(s) => Ok(s),
        None => Err(RpcError::UnexpectedShape("getSlot: ".to_owned().concat(shown))),
    }
}

/// Reads the slot of a `getSlot` reply.
pub fn decode_get_slot_json(reply: &serde_json::Value) -> (slot: Result<u64, RpcError>)
    ensures
        match slot {
            Ok(s) => slot_of_reply(*reply) == Some(s),
            Err(e) => slot_of_reply(*reply) is None && e.deep_view()
                == RpcErrorView::UnexpectedShape("getSlot: "@ + json::json_display(*reply)),
        },
{
    let number: Option<u64> = match json::member(reply, "result") {
        Some(result) => json::as_number(result),
        None => None,
    };
    checked_slot(number, json::display(reply).as_str())
}

/// The parameters of a `getBlock` request.
#[derive(Debug, Clone)]
pub struct GetBlockRequest {
    pub jsonrpc: &'static str,
    pub id: u64,
    pub method: &'static str,
    pub slot: u64,
    pub encoding: &'static str,
    pub max_supported_transaction_version: u64,
    pub transaction_details: &'static str,
    pub rewards: bool,
}

/// The `getBlock` request for one slot: full transactions as JSON, up to
/// version 0, without rewards.
pub fn get_block_body(slot: u64) -> (request: GetBlockRequest)
    ensures
        request.jsonrpc@ == "2.0"@,
        request.id == 1,
        request.method@ == "getBlock"@,
        request.slot == slot,
        request.encoding@ == "json"@,
        request.max_supported_transaction_version == 0,
        request.transaction_details@ == "full"@,
        !request.rewards,
{
    GetBlockRequest {
        jsonrpc: "2.0",
        id: 1,
        method: "getBlock",
        slot,
        encoding: "json",
        max_supported_transaction_version: 0,
        transaction_details: "full",
        rewards: false,
    }
}

/// A block as the RPC sends it.
#[derive(Debug, Clone)]
pub struct RawBlock {
    pub block_time: Option<i64>,
    pub transactions: Vec<RawTxWithMeta>,
}

/// A transaction with its outcome.
#[derive(Debug, Clone)]
pub struct RawTxWithMeta {
    pub transaction: RawTransaction,
    pub meta: Option<RawMeta>,
}

/// A signed message.
#[derive(Debug, Clone)]
pub struct RawTransaction {
    pub message: RawMessage,
    pub signatures: Vec<String>,
}

/// A transaction message.
#[derive(Debug, Clone)]
pub struct RawMessage {
    pub account_keys: Vec<String>,
    pub header: MessageHeader,
    pub instructions: Vec<RawInstruction>,
}

/// One instruction, reduced to its program.
#[derive(Debug, Clone, Copy)]
pub struct RawInstruction {
    pub program_id_index: u8,
}

/// The accounts that a v0 message loaded from lookup tables.
#[derive(Debug, Clone)]
pub struct RawLoadedAddresses {
    pub writable: Vec<String>,
    pub readonly: Vec<String>,
}

/// The outcome of a transaction.
#[derive(Debug, Clone)]
pub struct RawMeta {
    /// Whether `err` was set.
    pub err: bool,
    pub pre_token_balances: Vec<RawTokenBalance>,
    pub post_token_balances: Vec<RawTokenBalance>,
    pub loaded_addresses: Option<RawLoadedAddresses>,
}

/// The balance of one token account.
#[derive(Debug, Clone)]
pub struct RawTokenBalance {
    pub account_index: u32,
    pub mint: String,
    pub ui_token_amount: RawUiTokenAmount,
}

/// An amount, as the RPC writes it.
#[derive(Debug, Clone)]
pub struct RawUiTokenAmount {
    /// The raw amount, in decimal.
    pub amount: String,
    pub decimals: u8,
}

/// The mathematical content of a [`RawBlock`].
pub struct RawBlockView {
    pub block_time: Option<i64>,
    pub transactions: Seq<RawTxView>,
}

/// The mathematical content of a [`RawTxWithMeta`].
pub struct RawTxView {
    pub account_keys: Seq<Seq<char>>,
    pub header: MessageHeader,
    pub instructions: Seq<u8>,
    pub signatures: Seq<Seq<char>>,
    pub meta: Option<RawMetaView>,
}

/// The mathematical content of a [`RawMeta`].
pub struct RawMetaView {
    pub err: bool,
    pub pre: Seq<RawBalanceView>,
    pub post: Seq<RawBalanceView>,
    pub loaded: Option<(Seq<Seq<char>>, Seq<Seq<char>>)>,
}

/// The mathematical content of a [`RawTokenBalance`].
pub struct RawBalanceView {
    pub account_index: u32,
    pub mint: Seq<char>,
    pub amount: Seq<char>,
    pub decimals: u8,
}

impl DeepView for RawTokenBalance {
    type V = RawBalanceView;

    open spec fn deep_view(&self) -> RawBalanceView {
        RawBalanceView {
            account_index: self.account_index,
            mint: self.mint@,
            amount: self.ui_token_amount.amount@,
            decimals: self.ui_token_amount.decimals,
        }
    }
}

impl DeepView for RawInstruction {
    type V = u8;

    open spec fn deep_view(&self) -> u8 {
        self.program_id_index
    }
}

impl DeepView for RawLoadedAddresses {
    type V = (Seq<Seq<char>>, Seq<Seq<char>>);

    open spec fn deep_view(&self) -> (Seq<Seq<char>>, Seq<Seq<char>>) {
        (self.writable.deep_view(), self.readonly.deep_view())
    }
}

impl DeepView for RawMeta {
    type V = RawMetaView;

    open spec fn deep_view(&self) -> RawMetaView {
        RawMetaView {
            err: self.err,
            pre: self.pre_token_balances.deep_view(),
            post: self.post_token_balances.deep_view(),
            loaded: self.loaded_addresses.deep_view(),
        }
    }
}

impl DeepView for RawTxWithMeta {
    type V = RawTxView;

    open spec fn deep_view(&self) -> RawTxView {
        RawTxView {
            account_keys: self.transaction.message.account_keys.deep_view(),
            header: self.transaction.message.header,
            instructions: self.transaction.message.instructions.deep_view(),
            signatures: self.transaction.signatures.deep_view(),
            meta: self.meta.deep_view(),
        }
    }
}

impl DeepView for RawBlock {
    type V = RawBlockView;

    open spec fn deep_view(&self) -> RawBlockView {
        RawBlockView { block_time: self.block_time, transactions: self.transactions.deep_view() }
    }
}

/// The raw amount that a text denotes; 0 where it denotes none.
pub open spec fn amount_of(text: Seq<char>) -> u64 {
    match u64_of_text(text) {
        Some(v) => v,
        None => 0,
    }
}

/// The first balance of a token account, by its index in the transaction.
pub open spec fn balance_at(list: Seq<RawBalanceView>, account_index: u32) -> Option<RawBalanceView>
    decreases list.len(),
{
    if list.len() == 0 {
        None
    } else if list[0].account_index == account_index {
        Some(list[0])
    } else {
        balance_at(list.drop_first(), account_index)
    }
}

/// The change of a token account that still exists, if its amount changed. An
/// account that did not exist before had nothing.
pub open spec fn kept_account_change(pre: Seq<RawBalanceView>) -> spec_fn(
    RawBalanceView,
) -> Option<TokenChangeView> {
    |post: RawBalanceView|
        {
            let pre_amount = match balance_at(pre, post.account_index) {
                Some(p) => amount_of(p.amount),
                None => 0,
            };
            if pre_amount != amount_of(post.amount) {
                Some(
                    TokenChangeView {
                        mint: post.mint,
                        pre_amount,
                        post_amount: amount_of(post.amount),
                        decimals: post.decimals,
                    },
                )
            } else {
                None
            }
        }
}

/// The change of a token account that was closed: all it held went to zero.
pub open spec fn closed_account_change(post: Seq<RawBalanceView>) -> spec_fn(
    RawBalanceView,
) -> Option<TokenChangeView> {
    |pre: RawBalanceView|
        if balance_at(post, pre.account_index) is None && amount_of(pre.amount) != 0 {
            Some(
                TokenChangeView {
                    mint: pre.mint,
                    pre_amount: amount_of(pre.amount),
                    post_amount: 0,
                    decimals: pre.decimals,
                },
            )
        } else {
            None
        }
}

/// The balance changes of a transaction: the accounts that still exist, then
/// those that were closed.
pub open spec fn token_deltas(pre: Seq<RawBalanceView>, post: Seq<RawBalanceView>) -> Seq<
    TokenChangeView,
> {
    post.filter_map(kept_account_change(pre)) + pre.filter_map(closed_account_change(post))
}

/// Finds the first balance of a token account.
fn find_balance(list: &[RawTokenBalance], account_index: u32) -> (found: Option<usize>)
    ensures
        match found {
            Some(i) => i < list@.len() && balance_at(list.deep_view(), account_index) == Some(
                list.deep_view()[i as int],
            ),
            None => balance_at(list.deep_view(), account_index) is None,
        },
{
    let ghost all = list.deep_view();
    let mut i: usize = 0;
    assert(all.skip(0) =~= all);
    while i < list.len()
        invariant
            i <= list@.len(),
            all == list.deep_view(),
            balance_at(all, account_index) == balance_at(all.skip(i as int), account_index),
        decreases list@.len() - i,
    {
        assert(all.skip(i as int)[0] == all[i as int]);
        if list[i].account_index == account_index {
            return Some(i);
        }
        assert(all.skip(i as int).drop_first() =~= all.skip(i + 1));
        i += 1;
    }
    None
}

/// The raw amount of a balance; 0 where its text is no number.
fn raw_amount(balance: &RawTokenBalance) -> (amount: u64)
    ensures
        amount == amount_of(balance.deep_view().amount),
{
    match parse_u64(balance.ui_token_amount.amount.as_str()) {
        Some(v) => v,
        None => 0,
    }
}

/// Pairs the balances before and after a transaction by account index.
pub fn build_token_deltas(pre: &[RawTokenBalance], post: &[RawTokenBalance]) -> (deltas: Vec<
    TokenBalanceChange,
>)
    ensures
        deltas.deep_view() == token_deltas(pre.deep_view(), post.deep_view()),
{
    let ghost pres = pre.deep_view();
    let ghost posts = post.deep_view();
    let ghost kept = kept_account_change(pres);
    let ghost closed = closed_account_change(posts);
    let mut deltas: Vec<TokenBalanceChange> = Vec::new();
    let mut i: usize = 0;
    assert(deltas.deep_view() =~= posts.take(0).filter_map(kept)) by {
        reveal(Seq::filter_map);
    }
    while i < post.len()
        invariant
            i <= post@.len(),
            pres == pre.deep_view(),
            posts == post.deep_view(),
            kept == kept_account_change(pres),
            deltas.deep_view() == posts.take(i as int).filter_map(kept),
        decreases post@.len() - i,
    {
        let ghost before = deltas.deep_view();
        let balance = &post[i];
        assert(balance.deep_view() == posts[i as int]);
        let pre_amount: u64 = match find_balance(pre, balance.account_index) {
            Some(p) => raw_amount(&pre[p]),
            None => 0,
        };
        let post_amount: u64 = raw_amount(balance);
        proof {
            posts.lemma_filter_map_take_succ(kept, i as int);
        }
        if pre_amount != post_amount {
            let change = TokenBalanceChange {
                mint: balance.mint.clone(),
                pre_amount,
                post_amount,
                decimals: balance.ui_token_amount.decimals,
            };
            deltas.push(change);
            assert(deltas.deep_view() =~= before.push(change.deep_view()));
        }
        i += 1;
    }
    assert(posts.take(i as int) =~= posts);
    let ghost first = deltas.deep_view();
    let mut j: usize = 0;
    assert(deltas.deep_view() =~= first + pres.take(0).filter_map(closed)) by {
        reveal(Seq::filter_map);
    }
    while j < pre.len()
        invariant
            j <= pre@.len(),
            pres == pre.deep_view(),
            posts == post.deep_view(),
            closed == closed_account_change(posts),
            deltas.deep_view() == first + pres.take(j as int).filter_map(closed),
        decreases pre@.len() - j,
    {
        let ghost before = deltas.deep_view();
        let balance = &pre[j];
        assert(balance.deep_view() == pres[j as int]);
        proof {
            pres.lemma_filter_map_take_succ(closed, j as int);
        }
        if find_balance(post, balance.account_index).is_none() {
            let pre_amount: u64 = raw_amount(balance);
            if pre_amount != 0 {
                let change = TokenBalanceChange {
                    mint: balance.mint.clone(),
                    pre_amount,
                    post_amount: 0,
                    decimals: balance.ui_token_amount.decimals,
                };
                deltas.push(change);
                assert(deltas.deep_view() =~= before.push(change.deep_view()));
            }
        }
        assert(deltas.deep_view() =~= first + pres.take(j + 1).filter_map(closed));
        j += 1;
    }
    assert(pres.take(j as int) =~= pres);
    deltas
}

/// Puts `x` at its place in a sorted sequence, unless it is there already.
pub open spec fn sorted_insert(s: Seq<Seq<char>>, x: Seq<char>) -> Seq<Seq<char>>
    decreases s.len(),
{
    if s.len() == 0 {
        seq![x]
    } else if s.last() == x {
        s
    } else if text_before(x, s.last()) {
        sorted_insert(s.drop_last(), x).push(s.last())
    } else {
        s.push(x)
    }
}

/// Strictly ascending, so sorted and without duplicates.
pub open spec fn ascending(s: Seq<Seq<char>>) -> bool {
    forall|i: int, j: int| 0 <= i < j < s.len() ==> text_before(#[trigger] s[i], #[trigger] s[j])
}

/// The programs that the instructions name, sorted, each once. An instruction
/// names its program by index into the account list; an index beyond the list
/// names none.
pub open spec fn program_ids(accounts: Seq<Seq<char>>, instructions: Seq<u8>) -> Seq<Seq<char>>
    decreases instructions.len(),
{
    if instructions.len() == 0 {
        Seq::empty()
    } else {
        let before = program_ids(accounts, instructions.drop_last());
        if instructions.last() < accounts.len() {
            sorted_insert(before, accounts[instructions.last() as int])
        } else {
            before
        }
    }
}

/// Everything from `k` on comes after `x`, so `x` is placed before it.
proof fn lemma_sorted_insert_tail(s: Seq<Seq<char>>, x: Seq<char>, k: int)
    requires
        0 <= k <= s.len(),
        forall|j: int| k <= j < s.len() ==> text_before(x, #[trigger] s[j]),
    ensures
        sorted_insert(s, x) == sorted_insert(s.take(k), x) + s.skip(k),
    decreases s.len() - k,
{
    if k == s.len() {
        assert(s.take(k) =~= s);
        assert(sorted_insert(s, x) =~= sorted_insert(s.take(k), x) + s.skip(k));
    } else {
        let d = s.drop_last();
        assert forall|j: int| k <= j < d.len() implies text_before(x, #[trigger] d[j]) by {
            assert(d[j] == s[j]);
        }
        lemma_sorted_insert_tail(d, x, k);
        assert(text_before(x, s[s.len() - 1]));
        lemma_text_before_irreflexive(x);
        assert(d.take(k) =~= s.take(k));
        assert(sorted_insert(s, x) =~= sorted_insert(s.take(k), x) + s.skip(k));
    }
}

/// Inserts a program id into a sorted list.
fn insert_sorted(ids: &mut Vec<String>, id: &String)
    ensures
        final(ids).deep_view() == sorted_insert(old(ids).deep_view(), id@),
{
    let ghost s = ids.deep_view();
    let mut p: usize = ids.len();
    while p > 0 && is_before(id.as_str(), ids[p - 1].as_str())
        invariant
            p <= ids@.len(),
            s == ids.deep_view(),
            forall|j: int| p <= j < s.len() ==> text_before(id@, #[trigger] s[j]),
        decreases p,
    {
        assert(s[p - 1] == ids@[p - 1]@);
        p -= 1;
    }
    proof {
        lemma_sorted_insert_tail(s, id@, p as int);
        if p > 0 {
            assert(s.take(p as int).last() == ids@[p - 1]@);
        }
    }
    if p > 0 && ids[p - 1] == *id {
        assert(s =~= s.take(p as int) + s.skip(p as int));
        return;
    }
    ids.insert(p, id.clone());
    assert(ids.deep_view() =~= s.take(p as int).push(id@) + s.skip(p as int));
}

/// The account at `index` in the static keys, then the loaded writable, then
/// the loaded read-only ones.
fn account_at<'a>(
    static_keys: &'a [String],
    loaded_writable: &'a [String],
    loaded_readonly: &'a [String],
    index: usize,
) -> (account: Option<&'a String>)
    ensures
        ({
            let all = static_keys.deep_view() + loaded_writable.deep_view()
                + loaded_readonly.deep_view();
            match account {
                Some(a) => index < all.len() && a@ == all[index as int],
                None => index >= all.len(),
            }
        }),
{
    if index < static_keys.len() {
        return Some(&static_keys[index]);
    }
    let rest: usize = index - static_keys.len();
    if rest < loaded_writable.len() {
        return Some(&loaded_writable[rest]);
    }
    let rest: usize = rest - loaded_writable.len();
    if rest < loaded_readonly.len() {
        return Some(&loaded_readonly[rest]);
    }
    None
}

/// The programs that a message invokes. Instructions index the account list in
/// message order, not in the order of the locks.
pub fn extract_program_ids(
    static_keys: &[String],
    loaded_writable: &[String],
    loaded_readonly: &[String],
    instructions: &[RawInstruction],
) -> (ids: Vec<String>)
    ensures
        ids.deep_view() == program_ids(
            static_keys.deep_view() + loaded_writable.deep_view() + loaded_readonly.deep_view(),
            instructions.deep_view(),
        ),
{
    let ghost all = static_keys.deep_view() + loaded_writable.deep_view()
        + loaded_readonly.deep_view();
    let ghost ixs = instructions.deep_view();
    let mut ids: Vec<String> = Vec::new();
    let mut i: usize = 0;
    assert(ids.deep_view() =~= program_ids(all, ixs.take(0)));
    while i < instructions.len()
        invariant
            i <= instructions@.len(),
            all == static_keys.deep_view() + loaded_writable.deep_view()
                + loaded_readonly.deep_view(),
            ixs == instructions.deep_view(),
            ids.deep_view() == program_ids(all, ixs.take(i as int)),
        decreases instructions@.len() - i,
    {
        assert(ixs.take(i + 1).drop_last() =~= ixs.take(i as int));
        let index: usize = instructions[i].program_id_index as usize;
        match account_at(static_keys, loaded_writable, loaded_readonly, index) {
            Some(id) => insert_sorted(&mut ids, id),
            None => {},
        }
        i += 1;
    }
    assert(ixs.take(i as int) =~= ixs);
    ids
}

/// The transaction that a raw one stands for.
pub open spec fn decoded_transaction(
    slot: u64,
    block_time: Option<i64>,
    raw: RawTxView,
) -> DecodedTxView {
    let loaded = match raw.meta {
        Some(meta) => match meta.loaded {
            Some(l) => l,
            None => (Seq::empty(), Seq::empty()),
        },
        None => (Seq::empty(), Seq::empty()),
    };
    DecodedTxView {
        signature: if raw.signatures.len() > 0 {
            raw.signatures[0]
        } else {
            Seq::empty()
        },
        slot,
        block_time,
        program_ids: program_ids(raw.account_keys + loaded.0 + loaded.1, raw.instructions),
        locks: account_locks(raw.account_keys, raw.header, loaded.0, loaded.1),
        token_deltas: match raw.meta {
            Some(meta) => token_deltas(meta.pre, meta.post),
            None => Seq::empty(),
        },
        failed: match raw.meta {
            Some(meta) => meta.err,
            None => false,
        },
    }
}

/// Decodes one transaction.
pub fn decode_transaction(slot: u64, block_time: Option<i64>, raw: &RawTxWithMeta) -> (tx:
    DecodedTransaction)
    ensures
        tx.deep_view() == decoded_transaction(slot, block_time, raw.deep_view()),
{
    let message = &raw.transaction.message;
    let none: Vec<String> = Vec::new();
    assert(none.deep_view() =~= Seq::<Seq<char>>::empty());
    let mut loaded_writable: &Vec<String> = &none;
    let mut loaded_readonly: &Vec<String> = &none;
    let mut failed: bool = false;
    let mut token_deltas: Vec<TokenBalanceChange> = Vec::new();
    assert(token_deltas.deep_view() =~= Seq::<TokenChangeView>::empty());
    if let Some(meta) = &raw.meta {
        if let Some(loaded) = &meta.loaded_addresses {
            loaded_writable = &loaded.writable;
            loaded_readonly = &loaded.readonly;
        }
        failed = meta.err;
        token_deltas = build_token_deltas(
            meta.pre_token_balances.as_slice(),
            meta.post_token_balances.as_slice(),
        );
    }
    let locks = resolve_account_locks(
        message.account_keys.as_slice(),
        message.header,
        loaded_writable.as_slice(),
        loaded_readonly.as_slice(),
    );
    let program_ids = extract_program_ids(
        message.account_keys.as_slice(),
        loaded_writable.as_slice(),
        loaded_readonly.as_slice(),
        message.instructions.as_slice(),
    );
    let signature: String = if raw.transaction.signatures.len() > 0 {
        raw.transaction.signatures[0].clone()
    } else {
        String::new()
    };
    DecodedTransaction { signature, slot, block_time, program_ids, locks, token_deltas, failed }
}

/// The block that a raw one stands for: every transaction, in order.
pub open spec fn decoded_block(slot: u64, raw: RawBlockView) -> DecodedBlockView {
    DecodedBlockView {
        slot,
        block_time: raw.block_time,
        transactions: Seq::new(
            raw.transactions.len(),
            |i: int| decoded_transaction(slot, raw.block_time, raw.transactions[i]),
        ),
    }
}

/// Decodes one block.
pub fn decode_block(slot: u64, raw: &RawBlock) -> (block: DecodedBlock)
    ensures
        block.deep_view() == decoded_block(slot, raw.deep_view()),
{
    let ghost all = decoded_block(slot, raw.deep_view()).transactions;
    let mut transactions: Vec<DecodedTransaction> = Vec::new();
    let mut i: usize = 0;
    assert(transactions.deep_view() =~= all.take(0));
    while i < raw.transactions.len()
        invariant
            i <= raw.transactions@.len(),
            all == decoded_block(slot, raw.deep_view()).transactions,
            transactions.deep_view() == all.take(i as int),
        decreases raw.transactions@.len() - i,
    {
        let ghost before = transactions.deep_view();
        let tx = decode_transaction(slot, raw.block_time, &raw.transactions[i]);
        assert(tx.deep_view() == all[i as int]);
        transactions.push(tx);
        assert(transactions.deep_view() =~= before.push(tx.deep_view()));
        assert(transactions.deep_view() =~= all.take(i + 1));
        i += 1;
    }
    assert(all.take(i as int) =~= all);
    DecodedBlock { slot, block_time: raw.block_time, transactions }
}

/// What a `getBlock` reply decodes to, given the block that was parsed from
/// its `result` member, if there is one, or the reason why it has not the
/// shape of a block.
pub open spec fn decoded_reply(
    slot: u64,
    reply_error: Option<RpcErrorView>,
    parsed: Result<Option<RawBlockView>, Seq<char>>,
) -> Result<DecodedBlockView, RpcErrorView> {
    match reply_error {
        Some(e) => Err(e),
        None => match parsed {
            Err(reason) => Err(RpcErrorView::UnexpectedShape(reason)),
            Ok(None) => Err(RpcErrorView::UnexpectedShape("missing result"@)),
            Ok(Some(raw)) => Ok(decoded_block(slot, raw)),
        },
    }
}

/// The content of a parse result.
pub open spec fn parsed_view(parsed: Result<Option<RawBlock>, String>) -> Result<
    Option<RawBlockView>,
    Seq<char>,
> {
    match parsed {
        Ok(raw) => Ok(raw.deep_view()),
        Err(reason) => Err(reason@),
    }
}

/// The content of a decoded reply.
pub open spec fn reply_view(reply: Result<DecodedBlock, RpcError>) -> Result<
    DecodedBlockView,
    RpcErrorView,
> {
    match reply {
        Ok(block) => Ok(block.deep_view()),
        Err(e) => Err(e.deep_view()),
    }
}

/// Decodes a reply that carries no error.
pub fn decode_parsed_block(slot: u64, parsed: Result<Option<RawBlock>, String>) -> (decoded: Result<
    DecodedBlock,
    RpcError,
>)
    ensures
        reply_view(decoded) == decoded_reply(slot, None, parsed_view(parsed)),
{
    match parsed {
        Err(reason) => Err(RpcError::UnexpectedShape(reason)),
        Ok(None) => Err(RpcError::UnexpectedShape("missing result".to_owned())),
        Ok(Some(raw)) => Ok(decode_block(slot, &raw)),
    }
}

/// Decodes a `getBlock` reply. An `error` member decides before the parsed
/// block does.
pub fn decode_get_block_json(
    slot: u64,
    reply: &serde_json::Value,
    parsed: Result<Option<RawBlock>, String>,
) -> (decoded: Result<DecodedBlock, RpcError>)
    ensures
        reply_view(decoded) == decoded_reply(slot, error_of_reply(*reply), parsed_view(parsed)),
{
    match reply_error(reply) {
        Some(e) => Err(e),
        None => decode_parsed_block(slot, parsed),
    }
}

proof fn lemma_sorted_insert(s: Seq<Seq<char>>, x: Seq<char>)
    requires
        ascending(s),
    ensures
        ascending(sorted_insert(s, x)),
        forall|y: Seq<char>| #[trigger]
            sorted_insert(s, x).contains(y) <==> s.contains(y) || y == x,
    decreases s.len(),
{
    let r = sorted_insert(s, x);
    if s.len() == 0 {
        assert(r[0] == x);
        assert forall|y: Seq<char>| #[trigger] r.contains(y) <==> s.contains(y) || y == x by {
            if y == x {
                assert(r.contains(r[0]));
            }
        }
    } else if s.last() == x {
        assert(s.contains(s[s.len() - 1]));
    } else if text_before(x, s.last()) {
        let d = s.drop_last();
        lemma_sorted_insert(d, x);
        let q = sorted_insert(d, x);
        assert forall|i: int| 0 <= i < q.len() implies text_before(#[trigger] q[i], s.last()) by {
            assert(q.contains(q[i]));
            if d.contains(q[i]) {
                let k = choose|k: int| 0 <= k < d.len() && d[k] == q[i];
                assert(s[k] == q[i]);
            }
        }
        assert forall|y: Seq<char>| #[trigger] r.contains(y) <==> s.contains(y) || y == x by {
            if r.contains(y) {
                let k = choose|k: int| 0 <= k < r.len() && r[k] == y;
                if k < q.len() {
                    assert(q.contains(y));
                    if d.contains(y) {
                        let m = choose|m: int| 0 <= m < d.len() && d[m] == y;
                        assert(s[m] == y);
                    }
                } else {
                    assert(s[s.len() - 1] == y);
                }
            }
            if s.contains(y) || y == x {
                if y == s.last() {
                    assert(r[r.len() - 1] == y);
                } else {
                    if s.contains(y) {
                        let m = choose|m: int| 0 <= m < s.len() && s[m] == y;
                        assert(d[m] == y);
                        assert(d.contains(y));
                    }
                    assert(q.contains(y));
                    let k = choose|k: int| 0 <= k < q.len() && q[k] == y;
                    assert(r[k] == y);
                }
            }
        }
    } else {
        lemma_text_before_total(x, s.last());
        assert forall|i: int| 0 <= i < s.len() implies text_before(#[trigger] s[i], x) by {
            if i < s.len() - 1 {
                lemma_text_before_transitive(s[i], s.last(), x);
            }
        }
        assert forall|y: Seq<char>| #[trigger] r.contains(y) <==> s.contains(y) || y == x by {
            if r.contains(y) {
                let k = choose|k: int| 0 <= k < r.len() && r[k] == y;
                if k < s.len() {
                    assert(s[k] == y);
                }
            }
            if s.contains(y) {
                let k = choose|k: int| 0 <= k < s.len() && s[k] == y;
                assert(r[k] == y);
            }
            if y == x {
                assert(r[s.len() as int] == x);
            }
        }
    }
}

/// Program ids are strictly ascending, and they are exactly the accounts that
/// some instruction names.
pub proof fn law_program_ids_are_sorted_and_distinct(
    accounts: Seq<Seq<char>>,
    instructions: Seq<u8>,
)
    ensures
        ascending(program_ids(accounts, instructions)),
        forall|id: Seq<char>| #[trigger]
            program_ids(accounts, instructions).contains(id) <==> exists|i: int|
                0 <= i < instructions.len() && #[trigger] instructions[i] < accounts.len()
                    && accounts[instructions[i] as int] == id,
    decreases instructions.len(),
{
    if instructions.len() > 0 {
        let d = instructions.drop_last();
        let before = program_ids(accounts, d);
        let last = instructions.last();
        law_program_ids_are_sorted_and_distinct(accounts, d);
        if last < accounts.len() {
            lemma_sorted_insert(before, accounts[last as int]);
        }
        assert forall|id: Seq<char>| #[trigger]
            program_ids(accounts, instructions).contains(id) <==> exists|i: int|
                0 <= i < instructions.len() && #[trigger] instructions[i] < accounts.len()
                    && accounts[instructions[i] as int] == id by {
            if before.contains(id) {
                let i = choose|i: int|
                    0 <= i < d.len() && #[trigger] d[i] < accounts.len() && accounts[d[i] as int]
                        == id;
                assert(instructions[i] == d[i]);
            }
            if exists|i: int|
                0 <= i < instructions.len() && #[trigger] instructions[i] < accounts.len()
                    && accounts[instructions[i] as int] == id {
                let i = choose|i: int|
                    0 <= i < instructions.len() && #[trigger] instructions[i] < accounts.len()
                        && accounts[instructions[i] as int] == id;
                if i < d.len() {
                    assert(d[i] == instructions[i]);
                    assert(before.contains(id));
                }
            }
            assert(instructions[instructions.len() - 1] == last);
        }
    }
}

/// A transient error is never a skipped slot or a malformed reply, so those
/// are not tried again.
pub proof fn law_terminal_errors_are_not_transient(e: RpcErrorView)
    requires
        e is SlotSkipped || e is UnexpectedShape,
    ensures
        !e.transient(),
{
}

/// No change of a balance is dropped: neither of an account that is still
/// there, nor of one that was closed and so went to zero.
pub proof fn law_no_balance_change_is_dropped(
    pre: Seq<RawBalanceView>,
    post: Seq<RawBalanceView>,
    i: int,
)
    ensures
        0 <= i < post.len() && kept_account_change(pre)(post[i]) is Some ==> token_deltas(
            pre,
            post,
        ).contains(kept_account_change(pre)(post[i])->0),
        0 <= i < pre.len() && closed_account_change(post)(pre[i]) is Some ==> token_deltas(
            pre,
            post,
        ).contains(closed_account_change(post)(pre[i])->0),
{
    let kept = post.filter_map(kept_account_change(pre));
    let closed = pre.filter_map(closed_account_change(post));
    if 0 <= i < post.len() && kept_account_change(pre)(post[i]) is Some {
        let change = kept_account_change(pre)(post[i])->0;
        lemma_filter_map_has(post, kept_account_change(pre), i);
        let p = choose|p: int| 0 <= p < kept.len() && kept[p] == change;
        assert((kept + closed)[p] == change);
    }
    if 0 <= i < pre.len() && closed_account_change(post)(pre[i]) is Some {
        let change = closed_account_change(post)(pre[i])->0;
        lemma_filter_map_has(pre, closed_account_change(post), i);
        let p = choose|p: int| 0 <= p < closed.len() && closed[p] == change;
        assert((kept + closed)[kept.len() + p] == change);
    }
}

/// A balance that did not change is not among the changes.
pub proof fn law_balance_changes_are_changes(
    pre: Seq<RawBalanceView>,
    post: Seq<RawBalanceView>,
    i: int,
)
    requires
        0 <= i < token_deltas(pre, post).len(),
    ensures
        token_deltas(pre, post)[i].pre_amount != token_deltas(pre, post)[i].post_amount,
{
    let kept = post.filter_map(kept_account_change(pre));
    let closed = pre.filter_map(closed_account_change(post));
    let change = token_deltas(pre, post)[i];
    if i < kept.len() {
        assert(kept.contains(kept[i]));
        post.lemma_filter_map_contains(kept_account_change(pre), change);
    } else {
        assert(closed.contains(closed[i - kept.len()]));
        pre.lemma_filter_map_contains(closed_account_change(post), change);
    }
}

/// Whether a word of small letters stands in a text at a position, in whatever
/// capitals.
pub open spec fn reads_at(text: Seq<char>, word: Seq<char>, at: int) -> bool {
    &&& 0 <= at
    &&& at + word.len() <= text.len()
    &&& forall|j: int|
        0 <= j < word.len() ==> text[at + j] == #[trigger] word[j] || (65 <= text[at + j] as int
            <= 90 && text[at + j] as int + 32 == word[j] as int)
}

proof fn lemma_reads(text: Seq<char>, word: Seq<char>)
    requires
        forall|j: int| 0 <= j < word.len() ==> !(65 <= (#[trigger] word[j]) as int <= 90),
    ensures
        occurs(small_letters(text), word) <==> exists|at: int| reads_at(text, word, at),
{
    let small = small_letters(text);
    if occurs(small, word) {
        let at = choose|at: int| occurs_at(small, word, at);
        assert forall|j: int| 0 <= j < word.len() implies text[at + j] == #[trigger] word[j] || (65
            <= text[at + j] as int <= 90 && text[at + j] as int + 32 == word[j] as int) by {
            assert(small.subrange(at, at + word.len())[j] == word[j]);
            law_small_letters(text, at + j);
        }
        assert(reads_at(text, word, at));
    }
    if exists|at: int| reads_at(text, word, at) {
        let at = choose|at: int| reads_at(text, word, at);
        let part = small.subrange(at, at + word.len());
        assert forall|j: int| 0 <= j < word.len() implies part[j] == word[j] by {
            law_small_letters(text, at + j);
            assert(word[j] == word[j]);
            assert(small[at + j] as int == word[j] as int);
        }
        assert(part =~= word);
        assert(occurs_at(small, word, at));
    }
}

/// What is tried again: requests that did not complete, and replies that speak
/// of a rate limit or of too many requests, in whatever capitals.
pub proof fn law_what_is_transient(e: RpcErrorView)
    ensures
        e is Transport ==> e.transient(),
        e matches RpcErrorView::RpcReturnedError(text) ==> (e.transient() <==> (exists|at: int|
            reads_at(text, "rate limit"@, at)) || (exists|at: int|
            reads_at(text, "too many requests"@, at))),
        e is SlotSkipped ==> !e.transient(),
        e is UnexpectedShape ==> !e.transient(),
{
    if let RpcErrorView::RpcReturnedError(text) = e {
        reveal_strlit("rate limit");
        reveal_strlit("too many requests");
        lemma_reads(text, "rate limit"@);
        lemma_reads(text, "too many requests"@);
    }
}

/// A message that speaks of a skipped, missing or unavailable block is a
/// skipped slot, whatever stands around it.
pub proof fn law_messages_of_skipped_slots(before: Seq<char>, behind: Seq<char>)
    ensures
        error_of_message(Some(before + "skipped"@ + behind)) is SlotSkipped,
        error_of_message(Some(before + "missing"@ + behind)) is SlotSkipped,
        error_of_message(Some(before + "Block not available"@ + behind)) is SlotSkipped,
{
    law_a_part_occurs(before, "skipped"@, behind);
    law_a_part_occurs(before, "missing"@, behind);
    law_a_part_occurs(before, "Block not available"@, behind);
}

/// Every other message is returned as it is, and no message reads `rpc error`.
pub proof fn law_other_messages_are_returned(message: Option<Seq<char>>)
    ensures
        message is None ==> error_of_message(message) == RpcErrorView::RpcReturnedError(
            "rpc error"@,
        ),
        message matches Some(text) ==> {
            ||| error_of_message(message) == RpcErrorView::RpcReturnedError(text)
            ||| error_of_message(message) is SlotSkipped && exists|
                before: Seq<char>,
                behind: Seq<char>,
            |
                text == #[trigger] (before + "skipped"@ + behind) || text == before + "missing"@
                    + behind || text == before + "Block not available"@ + behind
        },
{
    match message {
        None => {
            reveal_strlit("rpc error");
            reveal_strlit("skipped");
            reveal_strlit("missing");
            reveal_strlit("Block not available");
            let text = "rpc error"@;
            assert forall|at: int| !occurs_at(text, "skipped"@, at) by {
                if occurs_at(text, "skipped"@, at) {
                    assert(text.subrange(at, at + 7)[0] == 's');
                    assert(text[at] == 's');
                }
            }
            assert forall|at: int| !occurs_at(text, "missing"@, at) by {
                if occurs_at(text, "missing"@, at) {
                    assert(text.subrange(at, at + 7)[0] == 'm');
                    assert(text[at] == 'm');
                }
            }
        },
        Some(text) => {
            if occurs(text, "skipped"@) {
                let (a, b) = law_what_occurs_is_a_part(text, "skipped"@);
                assert(text == a + "skipped"@ + b);
            } else if occurs(text, "missing"@) {
                let (a, b) = law_what_occurs_is_a_part(text, "missing"@);
                let other = a + "skipped"@ + b;
                assert(text == a + "missing"@ + b);
            } else if occurs(text, "Block not available"@) {
                let (a, b) = law_what_occurs_is_a_part(text, "Block not available"@);
                let other = a + "skipped"@ + b;
                assert(text == a + "Block not available"@ + b);
            }
        },
    }
}

/// Errors are reported with what kind they are and what was said.
pub proof fn law_messages_name_the_kind(text: Seq<char>)
    ensures
        RpcErrorView::Transport(text).message() == "transport error: "@ + text,
        RpcErrorView::RpcReturnedError(text).message() == "rpc returned an error: "@ + text,
        RpcErrorView::UnexpectedShape(text).message() == "unexpected response shape: "@ + text,
        RpcErrorView::SlotSkipped.message() == "slot was skipped by the leader"@,
{
}

/// A reply is an error exactly where it has an `error` member, whatever its
/// message is.
pub proof fn law_error_member_is_an_error(reply: serde_json::Value)
    ensures
        error_of_reply(reply) is None <==> json::json_member(reply, "error"@) is None,
        json::json_member(reply, "error"@) matches Some(error) ==> match json::json_member(
            error,
            "message"@,
        ) {
            Some(message) => match json::json_str(message) {
                Some(text) => error_of_reply(reply) == Some(error_of_message(Some(text))),
                None => error_of_reply(reply) == Some(
                    RpcErrorView::RpcReturnedError("rpc error"@),
                ),
            },
            None => error_of_reply(reply) == Some(RpcErrorView::RpcReturnedError("rpc error"@)),
        },
{
    law_other_messages_are_returned(None);
}

/// The slot of a reply is the number of its `result` member, whichever it is.
pub proof fn law_slot_is_the_result(reply: serde_json::Value)
    ensures
        json::json_member(reply, "result"@) is None ==> slot_of_reply(reply) is None,
        json::json_member(reply, "result"@) matches Some(result) ==> slot_of_reply(reply)
            == json::json_u64(result),
{
}

/// Whether position `p` of a list is the first of a token account.
pub open spec fn is_first_of(list: Seq<RawBalanceView>, account_index: u32, p: int) -> bool {
    &&& 0 <= p < list.len()
    &&& list[p].account_index == account_index
    &&& forall|q: int| 0 <= q < p ==> (#[trigger] list[q]).account_index != account_index
}

/// Whether a list has no balance of a token account.
pub open spec fn has_none_of(list: Seq<RawBalanceView>, account_index: u32) -> bool {
    forall|q: int| 0 <= q < list.len() ==> (#[trigger] list[q]).account_index != account_index
}

/// The number that an amount's text denotes counts, and a text that denotes
/// none counts as zero.
pub open spec fn is_amount(text: Seq<char>, amount: u64) -> bool {
    u64_of_text(text) == Some(amount) || (u64_of_text(text) is None && amount == 0)
}

/// Whether a list says that a token account holds an amount: its first balance
/// does, or it has none and the amount is zero.
pub open spec fn says_amount(list: Seq<RawBalanceView>, account_index: u32, amount: u64) -> bool {
    ||| has_none_of(list, account_index) && amount == 0
    ||| exists|p: int| #[trigger]
        is_first_of(list, account_index, p) && is_amount(list[p].amount, amount)
}

proof fn lemma_balance_at(list: Seq<RawBalanceView>, account_index: u32) -> (p: int)
    ensures
        balance_at(list, account_index) is Some ==> is_first_of(list, account_index, p)
            && balance_at(list, account_index) == Some(list[p]),
        balance_at(list, account_index) is None <==> has_none_of(list, account_index),
    decreases list.len(),
{
    if list.len() == 0 {
        0
    } else if list[0].account_index == account_index {
        0
    } else {
        let rest = list.drop_first();
        let p = lemma_balance_at(rest, account_index);
        assert forall|q: int| 0 <= q < list.len() implies (list[q].account_index != account_index
            <==> q == 0 || (#[trigger] rest[q - 1]).account_index != account_index) by {}
        if balance_at(rest, account_index) is Some {
            assert(rest[p] == list[p + 1]);
            assert forall|q: int| 0 <= q < p + 1 implies (#[trigger] list[q]).account_index
                != account_index by {
                if q > 0 {
                    assert(rest[q - 1] == list[q]);
                }
            }
            assert(!has_none_of(list, account_index)) by {
                assert(list[p + 1].account_index == account_index);
            }
        } else {
            assert forall|q: int| 0 <= q < list.len() implies (#[trigger] list[q]).account_index
                != account_index by {
                if q > 0 {
                    assert(rest[q - 1] == list[q]);
                }
            }
        }
        p + 1
    }
}

proof fn lemma_said_amount(list: Seq<RawBalanceView>, account_index: u32, amount: u64)
    ensures
        says_amount(list, account_index, amount) <==> amount == match balance_at(
            list,
            account_index,
        ) {
            Some(b) => amount_of(b.amount),
            None => 0,
        },
{
    let p = lemma_balance_at(list, account_index);
    if balance_at(list, account_index) is Some {
        assert(is_first_of(list, account_index, p));
        assert(!has_none_of(list, account_index));
        assert forall|q: int| #[trigger] is_first_of(list, account_index, q) implies q == p by {
            if q < p {
                assert(list[q].account_index != account_index);
            }
            if p < q {
                assert(list[p].account_index != account_index);
            }
        }
    } else {
        assert forall|q: int| !(#[trigger] is_first_of(list, account_index, q)) by {
            if 0 <= q < list.len() {
                assert(list[q].account_index != account_index);
            }
        }
    }
}

/// Every balance that differs from what its account held before is among the
/// changes, whether it grew or shrank, with both amounts.
pub proof fn law_every_changed_balance_is_reported(
    pre: Seq<RawBalanceView>,
    post: Seq<RawBalanceView>,
    i: int,
    before: u64,
    after: u64,
)
    requires
        0 <= i < post.len(),
        says_amount(pre, post[i].account_index, before),
        is_amount(post[i].amount, after),
        before != after,
    ensures
        token_deltas(pre, post).contains(
            TokenChangeView {
                mint: post[i].mint,
                pre_amount: before,
                post_amount: after,
                decimals: post[i].decimals,
            },
        ),
{
    lemma_said_amount(pre, post[i].account_index, before);
    law_no_balance_change_is_dropped(pre, post, i);
}

/// Every account that held something and is gone afterwards is among the
/// changes, down to zero.
pub proof fn law_every_closed_account_is_reported(
    pre: Seq<RawBalanceView>,
    post: Seq<RawBalanceView>,
    i: int,
    before: u64,
)
    requires
        0 <= i < pre.len(),
        has_none_of(post, pre[i].account_index),
        is_amount(pre[i].amount, before),
        before != 0,
    ensures
        token_deltas(pre, post).contains(
            TokenChangeView {
                mint: pre[i].mint,
                pre_amount: before,
                post_amount: 0,
                decimals: pre[i].decimals,
            },
        ),
{
    lemma_balance_at(post, pre[i].account_index);
    law_no_balance_change_is_dropped(pre, post, i);
}

/// The changes are those of the accounts that are there afterwards, in their
/// order, then those of the accounts that are gone, in theirs: one for each
/// balance that differs, and none for the others.
pub proof fn law_changes_are_the_balances_that_differ(
    pre: Seq<RawBalanceView>,
    post: Seq<RawBalanceView>,
) -> (src: (Seq<int>, Seq<int>))
    ensures
        are_indices(src.0, post.len() as int),
        are_indices(src.1, pre.len() as int),
        token_deltas(pre, post).len() == src.0.len() + src.1.len(),
        forall|t: int|
            0 <= t < src.0.len() ==> {
                let balance = post[#[trigger] src.0[t]];
                let change = token_deltas(pre, post)[t];
                &&& change.mint == balance.mint
                &&& change.decimals == balance.decimals
                &&& says_amount(pre, balance.account_index, change.pre_amount)
                &&& is_amount(balance.amount, change.post_amount)
            },
        forall|t: int|
            0 <= t < src.1.len() ==> {
                let balance = pre[#[trigger] src.1[t]];
                let change = token_deltas(pre, post)[src.0.len() + t];
                &&& change.mint == balance.mint
                &&& change.decimals == balance.decimals
                &&& is_amount(balance.amount, change.pre_amount)
                &&& change.post_amount == 0
            },
        forall|i: int|
            0 <= i < post.len() ==> (src.0.contains(i) <==> exists|before: u64, after: u64|
                before != after && #[trigger] says_amount(
                    pre,
                    (#[trigger] post[i]).account_index,
                    before,
                ) && #[trigger] is_amount(post[i].amount, after)),
        forall|i: int|
            0 <= i < pre.len() ==> (src.1.contains(i) <==> has_none_of(
                post,
                (#[trigger] pre[i]).account_index,
            ) && !is_amount(pre[i].amount, 0)),
{
    let kept = kept_account_change(pre);
    let closed = closed_account_change(post);
    let first = lemma_filter_map_sources(post, kept);
    let second = lemma_filter_map_sources(pre, closed);
    assert forall|t: int| 0 <= t < first.len() implies {
        let balance = post[#[trigger] first[t]];
        let change = token_deltas(pre, post)[t];
        &&& change.mint == balance.mint
        &&& change.decimals == balance.decimals
        &&& says_amount(pre, balance.account_index, change.pre_amount)
        &&& is_amount(balance.amount, change.post_amount)
    } by {
        assert(kept(post[first[t]]) == Some(token_deltas(pre, post)[t]));
        lemma_said_amount(
            pre,
            post[first[t]].account_index,
            token_deltas(pre, post)[t].pre_amount,
        );
    }
    assert forall|t: int| 0 <= t < second.len() implies {
        let balance = pre[#[trigger] second[t]];
        let change = token_deltas(pre, post)[first.len() + t];
        &&& change.mint == balance.mint
        &&& change.decimals == balance.decimals
        &&& is_amount(balance.amount, change.pre_amount)
        &&& change.post_amount == 0
    } by {
        assert(closed(pre[second[t]]) == Some(token_deltas(pre, post)[first.len() + t]));
    }
    assert forall|i: int| 0 <= i < post.len() implies (first.contains(i) <==> exists|
        before: u64,
        after: u64,
    |
        before != after && #[trigger] says_amount(
            pre,
            (#[trigger] post[i]).account_index,
            before,
        ) && #[trigger] is_amount(post[i].amount, after)) by {
        let held = match balance_at(pre, post[i].account_index) {
            Some(p) => amount_of(p.amount),
            None => 0,
        };
        let now = amount_of(post[i].amount);
        lemma_said_amount(pre, post[i].account_index, held);
        assert(says_amount(pre, post[i].account_index, held));
        assert(is_amount(post[i].amount, now));
        assert(kept(post[i]) is Some <==> held != now);
        assert forall|before: u64| #[trigger]
            says_amount(pre, post[i].account_index, before) implies before == held by {
            lemma_said_amount(pre, post[i].account_index, before);
        }
        assert forall|after: u64| #[trigger] is_amount(post[i].amount, after) implies after
            == now by {}
    }
    assert forall|i: int| 0 <= i < pre.len() implies (second.contains(i) <==> has_none_of(
        post,
        (#[trigger] pre[i]).account_index,
    ) && !is_amount(pre[i].amount, 0)) by {
        lemma_balance_at(post, pre[i].account_index);
        assert(closed(pre[i]) is Some <==> second.contains(i));
    }
    (first, second)
}

/// A transaction is decoded field by field: its first signature, the slot and
/// time of its block, whether it failed, and the locks, programs and balance
/// changes of what the message and its meta name.
pub proof fn law_transactions_are_decoded(slot: u64, block_time: Option<i64>, raw: RawTxView)
    ensures
        ({
            let tx = decoded_transaction(slot, block_time, raw);
            let none = Seq::<Seq<char>>::empty();
            &&& raw.signatures.len() > 0 ==> tx.signature == raw.signatures[0]
            &&& raw.signatures.len() == 0 ==> tx.signature.len() == 0
            &&& tx.slot == slot
            &&& tx.block_time == block_time
            &&& raw.meta is None ==> {
                &&& !tx.failed
                &&& tx.token_deltas.len() == 0
            }
            &&& raw.meta matches Some(meta) ==> {
                &&& tx.failed == meta.err
                &&& tx.token_deltas == token_deltas(meta.pre, meta.post)
                &&& meta.loaded matches Some(loaded) ==> {
                    &&& tx.locks == account_locks(
                        raw.account_keys,
                        raw.header,
                        loaded.0,
                        loaded.1,
                    )
                    &&& tx.program_ids == program_ids(
                        raw.account_keys + loaded.0 + loaded.1,
                        raw.instructions,
                    )
                }
            }
            &&& raw.meta is None || raw.meta->0.loaded is None ==> {
                &&& tx.locks == account_locks(raw.account_keys, raw.header, none, none)
                &&& tx.program_ids == program_ids(raw.account_keys, raw.instructions)
            }
        }),
{
    assert(raw.account_keys + Seq::<Seq<char>>::empty() + Seq::<Seq<char>>::empty()
        =~= raw.account_keys);
}

/// A block keeps every transaction in its place, failed ones too, with its own
/// slot and time.
pub proof fn law_blocks_keep_every_transaction(slot: u64, raw: RawBlockView, i: int)
    ensures
        ({
            let block = decoded_block(slot, raw);
            &&& block.slot == slot
            &&& block.block_time == raw.block_time
            &&& block.transactions.len() == raw.transactions.len()
            &&& 0 <= i < raw.transactions.len() ==> {
                let tx = block.transactions[i];
                &&& tx == decoded_transaction(slot, raw.block_time, raw.transactions[i])
                &&& tx.slot == slot
                &&& tx.block_time == raw.block_time
                &&& raw.transactions[i].signatures.len() > 0 ==> tx.signature
                    == raw.transactions[i].signatures[0]
                &&& raw.transactions[i].meta matches Some(meta) ==> tx.failed == meta.err
            }
        }),
{
}

/// An error decides before a block does; a reply without either has the wrong
/// shape; and any block that was parsed is decoded.
pub proof fn law_replies_are_decoded(
    slot: u64,
    error: RpcErrorView,
    raw: RawBlockView,
    reason: Seq<char>,
    parsed: Result<Option<RawBlockView>, Seq<char>>,
)
    ensures
        decoded_reply(slot, Some(error), parsed) == Err::<DecodedBlockView, RpcErrorView>(error),
        decoded_reply(slot, None, Ok(Some(raw))) matches Ok(block) && block.slot == slot
            && block.transactions.len() == raw.transactions.len() && block == decoded_block(
            slot,
            raw,
        ),
        decoded_reply(slot, None, Ok(None)) == Err::<DecodedBlockView, RpcErrorView>(
            RpcErrorView::UnexpectedShape("missing result"@),
        ),
        decoded_reply(slot, None, Err(reason)) == Err::<DecodedBlockView, RpcErrorView>(
            RpcErrorView::UnexpectedShape(reason),
        ),
{
}

/// The content of a raw transaction is all that it holds.
pub proof fn law_raw_views_hold_every_field(raw: RawTxWithMeta, balance: RawTokenBalance)
    ensures
        balance.deep_view().account_index == balance.account_index,
        balance.deep_view().mint == balance.mint@,
        balance.deep_view().amount == balance.ui_token_amount.amount@,
        balance.deep_view().decimals == balance.ui_token_amount.decimals,
        raw.deep_view().header == raw.transaction.message.header,
        raw.deep_view().account_keys == raw.transaction.message.account_keys.deep_view(),
        raw.deep_view().signatures == raw.transaction.signatures.deep_view(),
        raw.deep_view().instructions.len() == raw.transaction.message.instructions@.len(),
        forall|i: int|
            0 <= i < raw.transaction.message.instructions@.len() ==> #[trigger] raw.deep_view()
                .instructions[i] == raw.transaction.message.instructions@[i].program_id_index,
        raw.deep_view().meta is None <==> raw.meta is None,
        raw.meta matches Some(meta) ==> {
            let view = raw.deep_view().meta->0;
            &&& view.err == meta.err
            &&& view.pre == meta.pre_token_balances.deep_view()
            &&& view.post == meta.post_token_balances.deep_view()
            &&& view.loaded is None <==> meta.loaded_addresses is None
            &&& meta.loaded_addresses matches Some(loaded) ==> view.loaded->0 == (
                loaded.writable.deep_view(),
                loaded.readonly.deep_view(),
            )
        },
{
}

/// The content of errors and results is all that they hold.
pub proof fn law_reply_views_hold_everything(
    error: RpcError,
    block: DecodedBlock,
    raw: RawBlock,
    text: String,
)
    ensures
        error matches RpcError::Transport(t) ==> error.deep_view() == RpcErrorView::Transport(t@),
        error matches RpcError::RpcReturnedError(t) ==> error.deep_view()
            == RpcErrorView::RpcReturnedError(t@),
        error is SlotSkipped ==> error.deep_view() is SlotSkipped,
        error matches RpcError::UnexpectedShape(t) ==> error.deep_view()
            == RpcErrorView::UnexpectedShape(t@),
        reply_view(Ok(block)) == Ok::<DecodedBlockView, RpcErrorView>(block.deep_view()),
        reply_view(Err(error)) == Err::<DecodedBlockView, RpcErrorView>(error.deep_view()),
        parsed_view(Ok(Some(raw))) == Ok::<Option<RawBlockView>, Seq<char>>(Some(raw.deep_view())),
        parsed_view(Ok(None)) == Ok::<Option<RawBlockView>, Seq<char>>(None),
        parsed_view(Err(text)) == Err::<Option<RawBlockView>, Seq<char>>(text@),
        raw.deep_view().block_time == raw.block_time,
        raw.deep_view().transactions.len() == raw.transactions@.len(),
        forall|i: int|
            0 <= i < raw.transactions@.len() ==> #[trigger] raw.deep_view().transactions[i]
                == raw.transactions@[i].deep_view(),
{
}

} // verus!
