//! Trades inferred from token balances.
//!
//! A price is inferred where one transaction moves some token one way and
//! wrapped SOL the other way. Not counted, on purpose:
//!   - wrapping or unwrapping SOL alone, which has no counter-asset
//!   - legs that move in the same direction, as when liquidity is added
//!   - transactions without a wrapped-SOL leg
//!   - dust, below [`DUST_THRESHOLD_UNITS`] at [`DUST_THRESHOLD_DECIMALS`]

use crate::price::{law_pow10_is_a_power, pow10, scaled_is_below, Amount, Price};
use crate::sequences::{are_indices, lemma_filter_map_alike, lemma_filter_map_sources};
use crate::text::text_eq;
use vstd::arithmetic::power::pow;
use vstd::prelude::*;

verus! {

/// The mint of wrapped SOL, the leg that prices are quoted in. Native SOL
/// balances are noisy, since every transaction pays a fee.
pub const WSOL_MINT: &'static str = "So11111111111111111111111111111111111111112";

/// The least volume that counts is this many units...
pub const DUST_THRESHOLD_UNITS: u64 = 5;

/// ...with this many decimals, in SOL: 0.0005.
pub const DUST_THRESHOLD_DECIMALS: u8 = 4;

/// A mint's balance before and after one transaction, in raw units.
#[derive(Debug, Clone)]
pub struct TokenDelta {
    pub mint: String,
    pub pre_amount: u64,
    pub post_amount: u64,
    pub decimals: u8,
}

/// The mathematical content of a [`TokenDelta`].
pub struct TokenDeltaView {
    pub mint: Seq<char>,
    pub pre_amount: u64,
    pub post_amount: u64,
    pub decimals: u8,
}

impl TokenDeltaView {
    /// How much the balance grew, in units of the last decimal.
    pub open spec fn change(self) -> int {
        self.post_amount - self.pre_amount
    }

    /// How much the balance moved, whichever way.
    pub open spec fn moved(self) -> Amount {
        Amount {
            units: if self.change() < 0 {
                (-self.change()) as u64
            } else {
                self.change() as u64
            },
            decimals: self.decimals,
        }
    }
}

impl DeepView for TokenDelta {
    type V = TokenDeltaView;

    open spec fn deep_view(&self) -> TokenDeltaView {
        TokenDeltaView {
            mint: self.mint@,
            pre_amount: self.pre_amount,
            post_amount: self.post_amount,
            decimals: self.decimals,
        }
    }
}

/// A signed decimal number: `units` with the last `decimals` digits behind the
/// point.
#[derive(Debug, Clone, Copy, PartialEq, Eq, Structural)]
pub struct SignedAmount {
    pub units: i128,
    pub decimals: u8,
}

impl TokenDelta {
    /// The change of the balance: positive where it increased (bought),
    /// negative where it decreased (sold).
    pub fn delta_ui(&self) -> (delta: SignedAmount)
        ensures
            delta.units == self.deep_view().change(),
            delta.units == self.post_amount - self.pre_amount,
            delta.decimals == self.decimals,
    {
        SignedAmount {
            units: self.post_amount as i128 - self.pre_amount as i128,
            decimals: self.decimals,
        }
    }

    /// How much the balance moved, whichever way.
    fn moved(&self) -> (amount: Amount)
        ensures
            amount == self.deep_view().moved(),
    {
        let units: u64 = if self.post_amount < self.pre_amount {
            self.pre_amount - self.post_amount
        } else {
            self.post_amount - self.pre_amount
        };
        Amount { units, decimals: self.decimals }
    }
}

/// The balances that one transaction changed.
#[derive(Debug, Clone)]
pub struct TxSnapshot {
    pub signature: String,
    pub block_time: i64,
    pub token_deltas: Vec<TokenDelta>,
}

/// The mathematical content of a [`TxSnapshot`].
pub struct TxSnapshotView {
    pub signature: Seq<char>,
    pub block_time: i64,
    pub token_deltas: Seq<TokenDeltaView>,
}

impl DeepView for TxSnapshot {
    type V = TxSnapshotView;

    open spec fn deep_view(&self) -> TxSnapshotView {
        TxSnapshotView {
            signature: self.signature@,
            block_time: self.block_time,
            token_deltas: self.token_deltas.deep_view(),
        }
    }
}

/// One inferred trade: some mint moved against wrapped SOL.
#[derive(Debug, Clone)]
pub struct InferredTrade {
    pub signature: String,
    pub block_time: i64,
    pub mint: String,
    pub price_in_sol: Price,
    pub volume_sol: Amount,
}

/// The mathematical content of an [`InferredTrade`].
pub struct TradeView {
    pub signature: Seq<char>,
    pub block_time: i64,
    pub mint: Seq<char>,
    pub price_in_sol: Price,
    pub volume_sol: Amount,
}

impl DeepView for InferredTrade {
    type V = TradeView;

    open spec fn deep_view(&self) -> TradeView {
        TradeView {
            signature: self.signature@,
            block_time: self.block_time,
            mint: self.mint@,
            price_in_sol: self.price_in_sol,
            volume_sol: self.volume_sol,
        }
    }
}

/// The first wrapped-SOL delta, if there is one.
pub open spec fn sol_leg(deltas: Seq<TokenDeltaView>) -> Option<TokenDeltaView>
    decreases deltas.len(),
{
    if deltas.len() == 0 {
        None
    } else if deltas[0].mint == WSOL_MINT@ {
        Some(deltas[0])
    } else {
        sol_leg(deltas.skip(1))
    }
}

/// Whether a volume in SOL is too small to count.
pub open spec fn is_dust(volume: Amount) -> bool {
    volume.units as nat * pow10(DUST_THRESHOLD_DECIMALS as nat) < DUST_THRESHOLD_UNITS as nat
        * pow10(volume.decimals as nat)
}

/// The trade of one delta against the wrapped-SOL leg, if they make a trade.
pub open spec fn trade_against(
    signature: Seq<char>,
    block_time: i64,
    sol: TokenDeltaView,
) -> spec_fn(TokenDeltaView) -> Option<TradeView> {
    |token: TokenDeltaView|
        if token.mint != WSOL_MINT@ && token.change() != 0 && (token.change() > 0) != (
        sol.change() > 0) && !is_dust(sol.moved()) {
            Some(
                TradeView {
                    signature,
                    block_time,
                    mint: token.mint,
                    price_in_sol: Price { sol: sol.moved(), tokens: token.moved() },
                    volume_sol: sol.moved(),
                },
            )
        } else {
            None
        }
}

/// The trades of one transaction, in the order of its deltas.
pub open spec fn trades_of(tx: TxSnapshotView) -> Seq<TradeView> {
    match sol_leg(tx.token_deltas) {
        Some(sol) => if sol.change() != 0 {
            tx.token_deltas.filter_map(trade_against(tx.signature, tx.block_time, sol))
        } else {
            Seq::empty()
        },
        None => Seq::empty(),
    }
}

/// The position of the first wrapped-SOL delta.
fn find_sol_leg(deltas: &[TokenDelta]) -> (found: Option<usize>)
    ensures
        match found {
            Some(i) => i < deltas@.len() && sol_leg(deltas.deep_view()) == Some(
                deltas.deep_view()[i as int],
            ),
            None => sol_leg(deltas.deep_view()) is None,
        },
{
    let ghost all = deltas.deep_view();
    let mut i: usize = 0;
    assert(all.skip(0) =~= all);
    while i < deltas.len()
        invariant
            i <= deltas@.len(),
            all == deltas.deep_view(),
            sol_leg(all) == sol_leg(all.skip(i as int)),
        decreases deltas@.len() - i,
    {
        assert(all[i as int] == deltas[i as int].deep_view());
        if text_eq(deltas[i].mint.as_str(), WSOL_MINT) {
            return Some(i);
        }
        assert(all.skip(i as int).skip(1) =~= all.skip(i + 1));
        i += 1;
    }
    None
}

/// Infers the trades of one transaction.
pub fn infer_trades(tx: &TxSnapshot) -> (trades: Vec<InferredTrade>)
    ensures
        trades.deep_view() == trades_of(tx.deep_view()),
{
    let ghost all = tx.token_deltas.deep_view();
    let mut trades: Vec<InferredTrade> = Vec::new();
    assert(trades.deep_view() =~= Seq::<TradeView>::empty());
    let sol = match find_sol_leg(tx.token_deltas.as_slice()) {
        Some(i) => &tx.token_deltas[i],
        None => return trades,
    };
    let sol_delta = sol.delta_ui();
    if sol_delta.units == 0 {
        return trades;
    }
    let volume = sol.moved();
    let dust: bool = scaled_is_below(
        volume.units as u128,
        DUST_THRESHOLD_DECIMALS as u16,
        DUST_THRESHOLD_UNITS as u128,
        volume.decimals as u16,
    );
    let ghost infer = trade_against(tx.signature@, tx.block_time, sol.deep_view());
    let mut i: usize = 0;
    assert(trades.deep_view() =~= all.take(0).filter_map(infer)) by {
        reveal(Seq::filter_map);
    }
    while i < tx.token_deltas.len()
        invariant
            i <= tx.token_deltas@.len(),
            all == tx.token_deltas.deep_view(),
            infer == trade_against(tx.signature@, tx.block_time, sol.deep_view()),
            sol_delta.units == sol.deep_view().change(),
            volume == sol.deep_view().moved(),
            dust == is_dust(volume),
            trades.deep_view() == all.take(i as int).filter_map(infer),
        decreases tx.token_deltas@.len() - i,
    {
        let ghost before = trades.deep_view();
        let token = &tx.token_deltas[i];
        assert(token.deep_view() == all[i as int]);
        proof {
            all.lemma_filter_map_take_succ(infer, i as int);
        }
        let token_delta = token.delta_ui();
        if !text_eq(token.mint.as_str(), WSOL_MINT) && token_delta.units != 0 && (token_delta.units > 0)
            != (sol_delta.units > 0) && !dust {
            let trade = InferredTrade {
                signature: tx.signature.clone(),
                block_time: tx.block_time,
                mint: token.mint.clone(),
                price_in_sol: Price { sol: volume, tokens: token.moved() },
                volume_sol: volume,
            };
            trades.push(trade);
            assert(trades.deep_view() =~= before.push(trade.deep_view()));
        }
        i += 1;
    }
    assert(all.take(i as int) =~= all);
    trades
}

/// Every inferred trade is in a token other than wrapped SOL, whose balance
/// moved against a wrapped-SOL leg that is not dust.
pub proof fn law_trades_have_two_sides(tx: TxSnapshotView, i: int)
    requires
        0 <= i < trades_of(tx).len(),
    ensures
        trades_of(tx)[i].mint != WSOL_MINT@,
        trades_of(tx)[i].price_in_sol.valid(),
        trades_of(tx)[i].signature == tx.signature,
        trades_of(tx)[i].block_time == tx.block_time,
        !is_dust(trades_of(tx)[i].volume_sol),
        sol_leg(tx.token_deltas) is Some,
        exists|k: int| #![trigger tx.token_deltas[k]]
            {
                let token = tx.token_deltas[k];
                let sol = sol_leg(tx.token_deltas)->0;
                &&& 0 <= k < tx.token_deltas.len()
                &&& token.mint == trades_of(tx)[i].mint
                &&& (token.change() > 0 && sol.change() < 0) || (token.change() < 0
                    && sol.change() > 0)
            },
{
    let sol = sol_leg(tx.token_deltas)->0;
    let infer = trade_against(tx.signature, tx.block_time, sol);
    let trade = trades_of(tx)[i];
    assert(tx.token_deltas.filter_map(infer).contains(trade));
    tx.token_deltas.lemma_filter_map_contains(infer, trade);
    let token = choose|t: TokenDeltaView| #[trigger]
        tx.token_deltas.contains(t) && infer(t) == Some(trade);
    let k = choose|k: int| 0 <= k < tx.token_deltas.len() && tx.token_deltas[k] == token;
    assert(tx.token_deltas[k] == token);
}

/// Without a wrapped-SOL leg, or without any other token, there is no trade.
pub proof fn law_one_sided_transactions_have_no_trade(tx: TxSnapshotView)
    requires
        (forall|k: int| 0 <= k < tx.token_deltas.len() ==> #[trigger] tx.token_deltas[k].mint
            != WSOL_MINT@) || (forall|k: int|
            0 <= k < tx.token_deltas.len() ==> #[trigger] tx.token_deltas[k].mint == WSOL_MINT@),
    ensures
        trades_of(tx).len() == 0,
{
    if trades_of(tx).len() > 0 {
        law_trades_have_two_sides(tx, 0);
        lemma_sol_leg_is_there(tx.token_deltas);
    }
}

proof fn lemma_sol_leg_is_there(deltas: Seq<TokenDeltaView>)
    requires
        sol_leg(deltas) is Some,
    ensures
        exists|k: int| 0 <= k < deltas.len() && #[trigger] deltas[k].mint == WSOL_MINT@,
    decreases deltas.len(),
{
    if deltas[0].mint == WSOL_MINT@ {
    } else {
        lemma_sol_leg_is_there(deltas.skip(1));
        let k = choose|k: int|
            0 <= k < deltas.skip(1).len() && #[trigger] deltas.skip(1)[k].mint == WSOL_MINT@;
        assert(deltas[k + 1].mint == WSOL_MINT@);
    }
}

/// How far two balances are apart.
pub open spec fn distance(a: u64, b: u64) -> int {
    if a < b {
        b - a
    } else {
        a - b
    }
}

/// Whether delta `s` is the first of wrapped SOL, delta `k` is of another mint
/// and moved the other way, and at least 0.0005 SOL moved.
pub open spec fn is_counter_move(deltas: Seq<TokenDeltaView>, s: int, k: int) -> bool {
    &&& 0 <= s < deltas.len()
    &&& 0 <= k < deltas.len()
    &&& deltas[s].mint == WSOL_MINT@
    &&& forall|j: int| 0 <= j < s ==> (#[trigger] deltas[j]).mint != WSOL_MINT@
    &&& deltas[k].mint != WSOL_MINT@
    &&& {
        ||| deltas[k].pre_amount < deltas[k].post_amount && deltas[s].pre_amount
            > deltas[s].post_amount
        ||| deltas[k].pre_amount > deltas[k].post_amount && deltas[s].pre_amount
            < deltas[s].post_amount
    }
    &&& distance(deltas[s].pre_amount, deltas[s].post_amount) * 10_000 >= 5 * pow(
        10,
        deltas[s].decimals as nat,
    )
}

/// Whether a trade is of delta `k` against the wrapped SOL of delta `s`: all
/// that moved of the one was paid for by all that moved of the other.
pub open spec fn is_exchange(trade: TradeView, tx: TxSnapshotView, s: int, k: int) -> bool {
    let (sol, token) = (tx.token_deltas[s], tx.token_deltas[k]);
    &&& trade.signature == tx.signature
    &&& trade.block_time == tx.block_time
    &&& trade.mint == token.mint
    &&& trade.price_in_sol.sol.units == distance(sol.pre_amount, sol.post_amount)
    &&& trade.price_in_sol.sol.decimals == sol.decimals
    &&& trade.price_in_sol.tokens.units == distance(token.pre_amount, token.post_amount)
    &&& trade.price_in_sol.tokens.decimals == token.decimals
    &&& trade.volume_sol.units == distance(sol.pre_amount, sol.post_amount)
    &&& trade.volume_sol.decimals == sol.decimals
}

/// The first delta of wrapped SOL.
proof fn lemma_sol_leg_is_first(deltas: Seq<TokenDeltaView>) -> (s: int)
    ensures
        sol_leg(deltas) is Some ==> 0 <= s < deltas.len() && sol_leg(deltas) == Some(deltas[s])
            && deltas[s].mint == WSOL_MINT@,
        sol_leg(deltas) is None ==> s == deltas.len(),
        forall|j: int| 0 <= j < s ==> (#[trigger] deltas[j]).mint != WSOL_MINT@,
    decreases deltas.len(),
{
    if deltas.len() == 0 || deltas[0].mint == WSOL_MINT@ {
        0
    } else {
        let rest = deltas.skip(1);
        let s = lemma_sol_leg_is_first(rest);
        assert forall|j: int| 0 <= j < s + 1 implies (#[trigger] deltas[j]).mint
            != WSOL_MINT@ by {
            if j > 0 {
                assert(rest[j - 1] == deltas[j]);
            }
        }
        s + 1
    }
}

/// The dust rule, multiplied out.
proof fn lemma_dust(volume: Amount)
    ensures
        is_dust(volume) <==> volume.units * 10_000 < 5 * pow(10, volume.decimals as nat),
{
    law_pow10_is_a_power(volume.decimals as nat);
    reveal_with_fuel(pow10, 5);
    assert(pow10(4) == 10_000);
}

/// The trades of a transaction are its counter moves: every delta, bought or
/// sold, that moved against the first wrapped-SOL delta makes one trade at what
/// was exchanged, in the order of the deltas, and nothing else makes one.
pub proof fn law_trades_are_the_counter_moves(tx: TxSnapshotView) -> (made: (int, Seq<int>))
    ensures
        are_indices(made.1, tx.token_deltas.len() as int),
        made.1.len() == trades_of(tx).len(),
        forall|t: int|
            0 <= t < made.1.len() ==> is_counter_move(
                tx.token_deltas,
                made.0,
                #[trigger] made.1[t],
            ) && is_exchange(trades_of(tx)[t], tx, made.0, made.1[t]),
        forall|s: int, k: int| #[trigger]
            is_counter_move(tx.token_deltas, s, k) ==> s == made.0 && made.1.contains(k),
{
    let deltas = tx.token_deltas;
    let first = lemma_sol_leg_is_first(deltas);
    assert forall|s: int, k: int| #[trigger] is_counter_move(deltas, s, k) implies s == first by {
        if s < first {
            assert(deltas[s].mint != WSOL_MINT@);
        }
        if first < s {
            assert(deltas[first].mint != WSOL_MINT@);
        }
    }
    if sol_leg(deltas) is Some && sol_leg(deltas)->0.change() != 0 {
        let sol = deltas[first];
        let infer = trade_against(tx.signature, tx.block_time, sol);
        lemma_dust(sol.moved());
        assert forall|k: int| 0 <= k < deltas.len() implies (infer(#[trigger] deltas[k]) is Some
            <==> is_counter_move(deltas, first, k)) by {}
        let src = lemma_filter_map_sources(deltas, infer);
        assert forall|t: int| 0 <= t < src.len() implies is_counter_move(
            deltas,
            first,
            #[trigger] src[t],
        ) && is_exchange(trades_of(tx)[t], tx, first, src[t]) by {
            assert(infer(deltas[src[t]]) == Some(trades_of(tx)[t]));
        }
        assert forall|s: int, k: int| #[trigger] is_counter_move(deltas, s, k) implies s == first
            && src.contains(k) by {
            assert(infer(deltas[k]) is Some);
        }
        (first, src)
    } else {
        let src = Seq::<int>::empty();
        assert forall|s: int, k: int| #[trigger] is_counter_move(deltas, s, k) implies s == first
            && src.contains(k) by {
            assert(deltas[s] == sol_leg(deltas)->0);
        }
        (first, src)
    }
}

/// No counter move is left out, whichever way it went: some trade has its mint,
/// its price and its volume.
pub proof fn law_every_counter_move_is_a_trade(tx: TxSnapshotView, s: int, k: int)
    requires
        is_counter_move(tx.token_deltas, s, k),
    ensures
        exists|t: int|
            0 <= t < trades_of(tx).len() && is_exchange(#[trigger] trades_of(tx)[t], tx, s, k),
{
    let (first, src) = law_trades_are_the_counter_moves(tx);
    let t = choose|t: int| 0 <= t < src.len() && src[t] == k;
    assert(is_exchange(trades_of(tx)[t], tx, first, src[t]));
}

/// Every trade is of a counter move.
pub proof fn law_every_trade_is_a_counter_move(tx: TxSnapshotView, t: int)
    requires
        0 <= t < trades_of(tx).len(),
    ensures
        exists|s: int, k: int| #[trigger]
            is_counter_move(tx.token_deltas, s, k) && is_exchange(trades_of(tx)[t], tx, s, k),
{
    let (s, src) = law_trades_are_the_counter_moves(tx);
    assert(is_counter_move(tx.token_deltas, s, src[t]));
}

/// Buying and selling are priced alike: with every balance before and after
/// exchanged, a transaction makes the same trades.
pub proof fn law_direction_does_not_matter(a: TxSnapshotView, b: TxSnapshotView)
    requires
        a.signature == b.signature,
        a.block_time == b.block_time,
        a.token_deltas.len() == b.token_deltas.len(),
        forall|k: int|
            0 <= k < a.token_deltas.len() ==> {
                &&& (#[trigger] a.token_deltas[k]).mint == b.token_deltas[k].mint
                &&& a.token_deltas[k].decimals == b.token_deltas[k].decimals
                &&& a.token_deltas[k].pre_amount == b.token_deltas[k].post_amount
                &&& a.token_deltas[k].post_amount == b.token_deltas[k].pre_amount
            },
    ensures
        trades_of(a) == trades_of(b),
{
    let (x, y) = (a.token_deltas, b.token_deltas);
    let i = lemma_sol_leg_is_first(x);
    let j = lemma_sol_leg_is_first(y);
    assert(i == j) by {
        if i < j {
            assert(x[i].mint == y[i].mint);
        }
        if j < i {
            assert(x[j].mint == y[j].mint);
        }
    }
    if sol_leg(x) is Some && x[i].pre_amount != x[i].post_amount {
        let f = trade_against(a.signature, a.block_time, x[i]);
        let g = trade_against(b.signature, b.block_time, y[i]);
        assert(x[i].moved() == y[i].moved());
        assert forall|k: int| 0 <= k < x.len() implies f(#[trigger] x[k]) == g(y[k]) by {
            assert(x[k].mint == y[k].mint);
            assert(x[k].moved() == y[k].moved());
        }
        lemma_filter_map_alike(x, y, f, g);
    } else if sol_leg(x) is Some {
        assert(x[i].mint == y[i].mint);
    }
}

/// The content of balances and trades is all that they hold.
pub proof fn law_trade_views_hold_every_field(
    delta: TokenDelta,
    tx: TxSnapshot,
    trade: InferredTrade,
)
    ensures
        delta.deep_view().mint == delta.mint@,
        delta.deep_view().pre_amount == delta.pre_amount,
        delta.deep_view().post_amount == delta.post_amount,
        delta.deep_view().decimals == delta.decimals,
        tx.deep_view().signature == tx.signature@,
        tx.deep_view().block_time == tx.block_time,
        tx.deep_view().token_deltas == tx.token_deltas.deep_view(),
        trade.deep_view().signature == trade.signature@,
        trade.deep_view().block_time == trade.block_time,
        trade.deep_view().mint == trade.mint@,
        trade.deep_view().price_in_sol == trade.price_in_sol,
        trade.deep_view().volume_sol == trade.volume_sol,
{
}

} // verus!
