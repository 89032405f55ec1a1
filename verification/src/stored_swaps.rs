//! What stored balance rows say: which transactions they are of, and which
//! swaps are priced.

use crate::index::{appears_first, first_seen, law_first_seen_takes_first_appearances};
use crate::ohlcv::{
    distance, is_counter_move, is_exchange, law_every_counter_move_is_a_trade,
    law_every_trade_is_a_counter_move, trades_of, TradeView, WSOL_MINT,
};
use crate::pipeline::{
    is_timed, of_signature, signatures_of, snapshot_of, snapshot_trades, snapshots_of,
    trades_from, BalanceChangeView,
};
use crate::sequences::{
    are_indices, composed, lemma_composed, lemma_filter_sources, lemma_flat_map_at,
    lemma_flat_map_from,
};
use vstd::arithmetic::power::pow;
use vstd::prelude::*;

verus! {

/// Whether row `i` is the first of its transaction that has a time.
pub open spec fn is_first_timed(rows: Seq<BalanceChangeView>, i: int) -> bool {
    &&& 0 <= i < rows.len()
    &&& rows[i].2 is Some
    &&& forall|j: int|
        0 <= j < i && (#[trigger] rows[j]).2 is Some ==> rows[j].0 != rows[i].0
}

/// There is one snapshot for each transaction with a timed row, in the order of
/// their first ones, at the time of the first.
pub proof fn law_snapshots_are_of_the_transactions(rows: Seq<BalanceChangeView>) -> (src: Seq<int>)
    ensures
        are_indices(src, rows.len() as int),
        src.len() == snapshots_of(rows).len(),
        forall|t: int|
            0 <= t < src.len() ==> is_first_timed(rows, #[trigger] src[t])
                && snapshots_of(rows)[t].signature == rows[src[t]].0
                && snapshots_of(rows)[t].block_time == rows[src[t]].2->0,
        forall|i: int| #[trigger] is_first_timed(rows, i) ==> src.contains(i),
{
    let timed = rows.filter(is_timed());
    let keys = signatures_of(timed);
    let a = lemma_filter_sources(rows, is_timed());
    let b = law_first_seen_takes_first_appearances(keys);
    let src = composed(a, b);
    lemma_composed(a, b, rows.len() as int);
    assert forall|t: int| 0 <= t < src.len() implies is_first_timed(rows, #[trigger] src[t])
        && snapshots_of(rows)[t].signature == rows[src[t]].0 && snapshots_of(rows)[t].block_time
        == rows[src[t]].2->0 by {
        let q = b[t];
        assert(rows[a[q]] == timed[q]);
        assert(a.contains(a[q]));
        assert(b.contains(q));
        assert(appears_first(keys, q));
        assert(keys[q] == first_seen(keys)[t]);
        assert forall|j: int| 0 <= j < src[t] && (#[trigger] rows[j]).2 is Some implies rows[j].0
            != rows[src[t]].0 by {
            assert(a.contains(j));
            let p = choose|p: int| 0 <= p < a.len() && a[p] == j;
            assert(p < q) by {
                if q < p {
                    assert(a[q] < a[p]);
                }
            }
            assert(keys[p] != keys[q]);
            assert(rows[a[p]] == timed[p]);
        }
        let own = law_snapshot_has_its_rows(rows, t);
        assert(own.contains(src[t]));
        let d = choose|d: int| 0 <= d < own.len() && own[d] == src[t];
        lemma_first_own(rows, t, own);
        assert(own[0] == src[t]) by {
            if d > 0 {
                assert(own[0] < own[d]);
                assert(own.contains(own[0]));
                assert(rows[own[0]].2 is Some);
            }
        }
    }
    assert forall|i: int| #[trigger] is_first_timed(rows, i) implies src.contains(i) by {
        assert(a.contains(i));
        let q = choose|q: int| 0 <= q < a.len() && a[q] == i;
        assert(rows[a[q]] == timed[q]);
        assert forall|p: int| 0 <= p < q implies #[trigger] keys[p] != keys[q] by {
            assert(a[p] < a[q]);
            assert(rows[a[p]] == timed[p]);
            assert(a.contains(a[p]));
            assert(rows[a[p]].2 is Some);
        }
        assert(appears_first(keys, q));
        assert(b.contains(q));
    }
    src
}

/// A snapshot has all timed rows of its transaction, in their order, each with
/// its mint, its amounts and its decimals.
pub proof fn law_snapshot_has_its_rows(rows: Seq<BalanceChangeView>, t: int) -> (own: Seq<int>)
    requires
        0 <= t < snapshots_of(rows).len(),
    ensures
        are_indices(own, rows.len() as int),
        own.len() == snapshots_of(rows)[t].token_deltas.len(),
        forall|d: int|
            0 <= d < own.len() ==> {
                let (row, delta) = (
                    rows[#[trigger] own[d]],
                    snapshots_of(rows)[t].token_deltas[d],
                );
                &&& delta.mint == row.3
                &&& delta.pre_amount == row.4
                &&& delta.post_amount == row.5
                &&& delta.decimals == row.6
            },
        forall|i: int|
            0 <= i < rows.len() ==> (own.contains(i) <==> (#[trigger] rows[i]).2 is Some
                && rows[i].0 == snapshots_of(rows)[t].signature),
{
    let timed = rows.filter(is_timed());
    let signature = snapshots_of(rows)[t].signature;
    let a = lemma_filter_sources(rows, is_timed());
    let b = lemma_filter_sources(timed, of_signature(signature));
    let own = composed(a, b);
    lemma_composed(a, b, rows.len() as int);
    assert(snapshots_of(rows)[t] == snapshot_of(timed, signature));
    assert forall|d: int| 0 <= d < own.len() implies {
        let (row, delta) = (rows[#[trigger] own[d]], snapshots_of(rows)[t].token_deltas[d]);
        &&& delta.mint == row.3
        &&& delta.pre_amount == row.4
        &&& delta.post_amount == row.5
        &&& delta.decimals == row.6
    } by {
        assert(rows[a[b[d]]] == timed[b[d]]);
        assert(timed[b[d]] == timed.filter(of_signature(signature))[d]);
    }
    assert forall|i: int| 0 <= i < rows.len() implies (own.contains(i) <==> (
    #[trigger] rows[i]).2 is Some && rows[i].0 == signature) by {
        if own.contains(i) {
            let q = choose|q: int| 0 <= q < a.len() && a[q] == i && #[trigger] b.contains(q);
            assert(rows[a[q]] == timed[q]);
            assert(a.contains(i));
            assert(of_signature(signature)(timed[q]));
        }
        if rows[i].2 is Some && rows[i].0 == signature {
            assert(a.contains(i));
            let q = choose|q: int| 0 <= q < a.len() && a[q] == i;
            assert(rows[a[q]] == timed[q]);
            assert(of_signature(signature)(timed[q]));
            assert(b.contains(q));
        }
    }
    own
}

/// The time of a snapshot is that of its first row.
proof fn lemma_first_own(rows: Seq<BalanceChangeView>, t: int, own: Seq<int>)
    requires
        0 <= t < snapshots_of(rows).len(),
        own.len() > 0,
        are_indices(own, rows.len() as int),
        forall|i: int|
            0 <= i < rows.len() ==> (own.contains(i) <==> (#[trigger] rows[i]).2 is Some
                && rows[i].0 == snapshots_of(rows)[t].signature),
    ensures
        snapshots_of(rows)[t].block_time == rows[own[0]].2->0,
{
    let timed = rows.filter(is_timed());
    let signature = snapshots_of(rows)[t].signature;
    let a = lemma_filter_sources(rows, is_timed());
    let b = lemma_filter_sources(timed, of_signature(signature));
    let c = composed(a, b);
    lemma_composed(a, b, rows.len() as int);
    assert(snapshots_of(rows)[t] == snapshot_of(timed, signature));
    let i = own[0];
    assert(own.contains(i));
    assert(rows[i].2 is Some && rows[i].0 == signature);
    assert(a.contains(i));
    let q = choose|q: int| 0 <= q < a.len() && a[q] == i;
    assert(rows[a[q]] == timed[q]);
    assert(of_signature(signature)(timed[q]));
    assert(b.contains(q));
    let x = choose|x: int| 0 <= x < b.len() && b[x] == q;
    assert(x == 0) by {
        if x > 0 {
            let p = b[0];
            assert(b[0] < b[x]);
            assert(a[p] < a[q]);
            assert(rows[a[p]] == timed[p]);
            assert(b.contains(p));
            assert(of_signature(signature)(timed[p]));
            assert(a.contains(a[p]));
            assert(rows[a[p]].2 is Some);
            assert(own.contains(a[p]));
            let y = choose|y: int| 0 <= y < own.len() && own[y] == a[p];
            if y > 0 {
                assert(own[0] < own[y]);
            }
        }
    }
    assert(timed.filter(of_signature(signature))[0] == timed[b[0]]);
}

/// Whether row `s` is the first wrapped-SOL row of its transaction, row `k` is
/// of the same transaction and another mint and moved the other way, both have
/// a time, and at least 0.0005 SOL moved.
pub open spec fn is_stored_swap(rows: Seq<BalanceChangeView>, s: int, k: int) -> bool {
    &&& 0 <= s < rows.len()
    &&& 0 <= k < rows.len()
    &&& rows[s].2 is Some
    &&& rows[k].2 is Some
    &&& rows[s].0 == rows[k].0
    &&& rows[s].3 == WSOL_MINT@
    &&& rows[k].3 != WSOL_MINT@
    &&& forall|j: int|
        0 <= j < s && (#[trigger] rows[j]).2 is Some && rows[j].0 == rows[s].0 ==> rows[j].3
            != WSOL_MINT@
    &&& (rows[k].4 < rows[k].5 && rows[s].4 > rows[s].5) || (rows[k].4 > rows[k].5 && rows[s].4
        < rows[s].5)
    &&& distance(rows[s].4, rows[s].5) * 10_000 >= 5 * pow(10, rows[s].6 as nat)
}

/// Every stored swap is priced, bought or sold: some trade is of its
/// transaction and its mint, at what was exchanged, at the time of the
/// transaction's first row.
pub proof fn law_stored_swaps_are_priced(
    rows: Seq<BalanceChangeView>,
    s: int,
    k: int,
    first: int,
)
    requires
        is_stored_swap(rows, s, k),
        is_first_timed(rows, first),
        rows[first].0 == rows[s].0,
    ensures
        exists|n: int|
            0 <= n < trades_from(rows).len() && {
                let trade = #[trigger] trades_from(rows)[n];
                &&& trade.signature == rows[s].0
                &&& trade.block_time == rows[first].2->0
                &&& trade.mint == rows[k].3
                &&& trade.price_in_sol.sol.units == distance(rows[s].4, rows[s].5)
                &&& trade.price_in_sol.sol.decimals == rows[s].6
                &&& trade.price_in_sol.tokens.units == distance(rows[k].4, rows[k].5)
                &&& trade.price_in_sol.tokens.decimals == rows[k].6
                &&& trade.volume_sol.units == distance(rows[s].4, rows[s].5)
                &&& trade.volume_sol.decimals == rows[s].6
            },
{
    let snapshots = snapshots_of(rows);
    let src = law_snapshots_are_of_the_transactions(rows);
    assert(src.contains(first));
    let t = choose|t: int| 0 <= t < src.len() && src[t] == first;
    assert(is_first_timed(rows, src[t]));
    let tx = snapshots[t];
    let own = law_snapshot_has_its_rows(rows, t);
    assert(own.contains(s));
    assert(own.contains(k));
    let x = choose|x: int| 0 <= x < own.len() && own[x] == s;
    let y = choose|y: int| 0 <= y < own.len() && own[y] == k;
    assert(tx.token_deltas[x].mint == rows[own[x]].3);
    assert(tx.token_deltas[y].mint == rows[own[y]].3);
    assert forall|j: int| 0 <= j < x implies (#[trigger] tx.token_deltas[j]).mint
        != WSOL_MINT@ by {
        assert(own[j] < own[x]);
        assert(own.contains(own[j]));
        assert(rows[own[j]].2 is Some);
    }
    assert(is_counter_move(tx.token_deltas, x, y));
    law_every_counter_move_is_a_trade(tx, x, y);
    let j = choose|j: int|
        0 <= j < trades_of(tx).len() && is_exchange(#[trigger] trades_of(tx)[j], tx, x, y);
    lemma_flat_map_at(snapshots, snapshot_trades(), t, j);
    let n = snapshots.take(t).flat_map(snapshot_trades()).len() + j;
    assert(trades_from(rows)[n] == trades_of(tx)[j]);
}

/// Every trade is of a stored swap.
pub proof fn law_trades_are_of_stored_swaps(rows: Seq<BalanceChangeView>, n: int) -> (swap: (
    int,
    int,
))
    requires
        0 <= n < trades_from(rows).len(),
    ensures
        ({
            let (s, k) = swap;
            let trade = trades_from(rows)[n];
            &&& is_stored_swap(rows, s, k)
            &&& trade.signature == rows[s].0
            &&& trade.mint == rows[k].3
            &&& trade.price_in_sol.sol.units == distance(rows[s].4, rows[s].5)
            &&& trade.price_in_sol.sol.decimals == rows[s].6
            &&& trade.price_in_sol.tokens.units == distance(rows[k].4, rows[k].5)
            &&& trade.price_in_sol.tokens.decimals == rows[k].6
            &&& trade.volume_sol.units == distance(rows[s].4, rows[s].5)
            &&& trade.volume_sol.decimals == rows[s].6
        }),
{
    let snapshots = snapshots_of(rows);
    let (t, j) = lemma_flat_map_from(snapshots, snapshot_trades(), n);
    let tx = snapshots[t];
    law_every_trade_is_a_counter_move(tx, j);
    let (x, y) = choose|x: int, y: int| #[trigger]
        is_counter_move(tx.token_deltas, x, y) && is_exchange(trades_of(tx)[j], tx, x, y);
    let own = law_snapshot_has_its_rows(rows, t);
    let (s, k) = (own[x], own[y]);
    assert(own.contains(s) && own.contains(k));
    assert(rows[s].2 is Some && rows[k].2 is Some);
    assert(tx.token_deltas[x].mint == rows[own[x]].3);
    assert(tx.token_deltas[y].mint == rows[own[y]].3);
    assert forall|i: int|
        0 <= i < s && (#[trigger] rows[i]).2 is Some && rows[i].0 == rows[s].0 implies rows[i].3
        != WSOL_MINT@ by {
        assert(own.contains(i));
        let z = choose|z: int| 0 <= z < own.len() && own[z] == i;
        assert(z < x) by {
            if x < z {
                assert(own[x] < own[z]);
            }
        }
        assert(tx.token_deltas[z].mint != WSOL_MINT@);
        assert(tx.token_deltas[z].mint == rows[own[z]].3);
    }
    (s, k)
}

/// The trades of a transaction stand together, in the order of the snapshots:
/// there are as many as all snapshots make.
pub proof fn law_every_snapshot_is_traded(rows: Seq<BalanceChangeView>, t: int, j: int)
    requires
        0 <= t < snapshots_of(rows).len(),
        0 <= j < trades_of(snapshots_of(rows)[t]).len(),
    ensures
        ({
            let at = trade_count(rows, t) + j;
            &&& at < trades_from(rows).len()
            &&& trades_from(rows)[at] == trades_of(snapshots_of(rows)[t])[j]
        }),
        trades_from(rows).len() == trade_count(rows, snapshots_of(rows).len() as int),
{
    let snapshots = snapshots_of(rows);
    lemma_flat_map_at(snapshots, snapshot_trades(), t, j);
    lemma_trade_count(rows, t);
    lemma_trade_count(rows, snapshots.len() as int);
    assert(snapshots.take(snapshots.len() as int) =~= snapshots);
}

/// How many trades the first `n` snapshots make.
pub open spec fn trade_count(rows: Seq<BalanceChangeView>, n: int) -> nat
    decreases n,
{
    if n <= 0 {
        0
    } else {
        trade_count(rows, n - 1) + trades_of(snapshots_of(rows)[n - 1]).len()
    }
}

proof fn lemma_trade_count(rows: Seq<BalanceChangeView>, n: int)
    requires
        0 <= n <= snapshots_of(rows).len(),
    ensures
        snapshots_of(rows).take(n).flat_map(snapshot_trades()).len() == trade_count(rows, n),
    decreases n,
{
    let snapshots = snapshots_of(rows);
    if n == 0 {
        assert(snapshots.take(0).flat_map(snapshot_trades()) =~= Seq::<TradeView>::empty());
    } else {
        lemma_trade_count(rows, n - 1);
        snapshots.lemma_flat_map_take_append(snapshot_trades(), n - 1);
    }
}

} // verus!
