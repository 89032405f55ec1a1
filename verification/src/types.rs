//! Decoded blocks: what fetching hands to scheduling, pricing and storage.

use crate::contention::{AccountLock, LockView};
use vstd::prelude::*;

verus! {

/// One token account's balance before and after a transaction.
#[derive(Debug, Clone)]
pub struct TokenBalanceChange {
    pub mint: String,
    pub pre_amount: u64,
    pub post_amount: u64,
    pub decimals: u8,
}

/// The mathematical content of a [`TokenBalanceChange`].
pub struct TokenChangeView {
    pub mint: Seq<char>,
    pub pre_amount: u64,
    pub post_amount: u64,
    pub decimals: u8,
}

impl DeepView for TokenBalanceChange {
    type V = TokenChangeView;

    open spec fn deep_view(&self) -> TokenChangeView {
        TokenChangeView {
            mint: self.mint@,
            pre_amount: self.pre_amount,
            post_amount: self.post_amount,
            decimals: self.decimals,
        }
    }
}

/// One fully decoded transaction.
#[derive(Debug, Clone)]
pub struct DecodedTransaction {
    pub signature: String,
    pub slot: u64,
    pub block_time: Option<i64>,
    pub program_ids: Vec<String>,
    pub locks: Vec<AccountLock>,
    pub token_deltas: Vec<TokenBalanceChange>,
    /// True if `meta.err` was set. A failed transaction still took its locks
    /// and counts for contention, but its balances price no trade.
    pub failed: bool,
}

/// The mathematical content of a [`DecodedTransaction`].
pub struct DecodedTxView {
    pub signature: Seq<char>,
    pub slot: u64,
    pub block_time: Option<i64>,
    pub program_ids: Seq<Seq<char>>,
    pub locks: Seq<LockView>,
    pub token_deltas: Seq<TokenChangeView>,
    pub failed: bool,
}

impl DeepView for DecodedTransaction {
    type V = DecodedTxView;

    open spec fn deep_view(&self) -> DecodedTxView {
        DecodedTxView {
            signature: self.signature@,
            slot: self.slot,
            block_time: self.block_time,
            program_ids: self.program_ids.deep_view(),
            locks: self.locks.deep_view(),
            token_deltas: self.token_deltas.deep_view(),
            failed: self.failed,
        }
    }
}

/// Status of one slot after an ingest attempt.
#[derive(Debug, Clone, Copy, PartialEq, Eq, Structural)]
pub enum SlotStatus {
    Ingested,
    /// The leader skipped this slot: expected, not an error.
    Skipped,
    /// Retries were exhausted.
    Failed,
}

impl SlotStatus {
    /// The text stored for a status.
    pub open spec fn text(self) -> Seq<char> {
        match self {
            SlotStatus::Ingested => "ingested"@,
            SlotStatus::Skipped => "skipped"@,
            SlotStatus::Failed => "failed"@,
        }
    }

    /// The text stored for this status.
    pub fn as_str(self) -> (text: &'static str)
        ensures
            text@ == self.text(),
    {
        match self {
            SlotStatus::Ingested => "ingested",
            SlotStatus::Skipped => "skipped",
            SlotStatus::Failed => "failed",
        }
    }
}

/// One decoded block.
#[derive(Debug, Clone)]
pub struct DecodedBlock {
    pub slot: u64,
    pub block_time: Option<i64>,
    pub transactions: Vec<DecodedTransaction>,
}

/// The mathematical content of a [`DecodedBlock`].
pub struct DecodedBlockView {
    pub slot: u64,
    pub block_time: Option<i64>,
    pub transactions: Seq<DecodedTxView>,
}

impl DeepView for DecodedBlock {
    type V = DecodedBlockView;

    open spec fn deep_view(&self) -> DecodedBlockView {
        DecodedBlockView {
            slot: self.slot,
            block_time: self.block_time,
            transactions: self.transactions.deep_view(),
        }
    }
}

/// The content of a decoded value is all that it holds.
pub proof fn law_decoded_views_hold_every_field(
    change: TokenBalanceChange,
    tx: DecodedTransaction,
    block: DecodedBlock,
)
    ensures
        change.deep_view().mint == change.mint@,
        change.deep_view().pre_amount == change.pre_amount,
        change.deep_view().post_amount == change.post_amount,
        change.deep_view().decimals == change.decimals,
        tx.deep_view().signature == tx.signature@,
        tx.deep_view().slot == tx.slot,
        tx.deep_view().block_time == tx.block_time,
        tx.deep_view().failed == tx.failed,
        tx.deep_view().program_ids.len() == tx.program_ids@.len(),
        forall|i: int|
            0 <= i < tx.program_ids@.len() ==> #[trigger] tx.deep_view().program_ids[i]
                == tx.program_ids@[i]@,
        tx.deep_view().locks.len() == tx.locks@.len(),
        forall|i: int|
            0 <= i < tx.locks@.len() ==> (#[trigger] tx.deep_view().locks[i]).account
                == tx.locks@[i].account@ && tx.deep_view().locks[i].is_writable
                == tx.locks@[i].is_writable,
        tx.deep_view().token_deltas.len() == tx.token_deltas@.len(),
        forall|i: int|
            0 <= i < tx.token_deltas@.len() ==> #[trigger] tx.deep_view().token_deltas[i]
                == tx.token_deltas@[i].deep_view(),
        block.deep_view().slot == block.slot,
        block.deep_view().block_time == block.block_time,
        block.deep_view().transactions.len() == block.transactions@.len(),
        forall|i: int|
            0 <= i < block.transactions@.len() ==> #[trigger] block.deep_view().transactions[i]
                == block.transactions@[i].deep_view(),
{
}

} // verus!
