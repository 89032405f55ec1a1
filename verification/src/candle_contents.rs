//! What a candle says of the trades in its window, by the trades themselves.

use crate::candles::{
    at_time, bucket_start, bucket_trades, by_time, candle_of, has_candle, in_bucket,
    is_candles, is_series, law_bucket_contains_its_times, law_by_time_sorts_stably,
    law_high_and_low_bound_the_prices, law_volume_is_the_sum, lemma_turnover_insert, mints_of,
    of_mint, turnover, volume_value, MintCandlesView,
};
use crate::candle_windows::valid_prices;
use crate::index::{
    appears_first, first_seen, law_first_seen_takes_first_appearances, lemma_first_seen,
};
use crate::ohlcv::TradeView;
use crate::price::law_pow10_is_a_power;
use crate::sequences::{are_indices, composed, lemma_composed, lemma_filter_sources};
use vstd::arithmetic::power::pow;
use vstd::prelude::*;

verus! {

/// Whether trade `i` is of a mint and falls into the time from `start` to before
/// `start + interval`.
pub open spec fn is_inside(
    trades: Seq<TradeView>,
    i: int,
    mint: Seq<char>,
    start: i64,
    interval: i64,
) -> bool {
    &&& 0 <= i < trades.len()
    &&& trades[i].mint == mint
    &&& start <= trades[i].block_time
    &&& trades[i].block_time < start + interval
}

/// What the trades inside add up to, in units of the smallest decimal.
pub open spec fn value_inside(
    trades: Seq<TradeView>,
    mint: Seq<char>,
    start: i64,
    interval: i64,
) -> int
    decreases trades.len(),
{
    if trades.len() == 0 {
        0
    } else {
        let last = trades.last();
        value_inside(trades.drop_last(), mint, start, interval) + if is_inside(
            trades,
            trades.len() - 1,
            mint,
            start,
            interval,
        ) {
            last.volume_sol.units * pow(10, (255 - last.volume_sol.decimals) as nat)
        } else {
            0
        }
    }
}

/// A time falls into the window from `start` on exactly where that is its
/// window.
proof fn lemma_window(time: int, start: int, interval: int)
    requires
        interval > 0,
        start % interval == 0,
    ensures
        bucket_start(time, interval) == start <==> start <= time < start + interval,
{
    law_bucket_contains_its_times(time, interval);
    let b = bucket_start(time, interval);
    if start <= time < start + interval {
        vstd::arithmetic::div_mod::lemma_fundamental_div_mod(b, interval);
        vstd::arithmetic::div_mod::lemma_fundamental_div_mod(start, interval);
        let (x, y) = (b / interval, start / interval);
        assert(x == y) by (nonlinear_arith)
            requires
                interval > 0,
                b == interval * x,
                start == interval * y,
                b < start + interval,
                start < b + interval,
        ;
    }
}

/// The trades of a window, and where they stand among all trades.
proof fn lemma_window_sources(
    trades: Seq<TradeView>,
    mint: Seq<char>,
    start: i64,
    interval: i64,
) -> (src: Seq<int>)
    requires
        interval > 0,
        start as int % interval as int == 0,
    ensures
        ({
            let mine = trades.filter(of_mint(mint)).filter(in_bucket(interval, start));
            &&& are_indices(src, trades.len() as int)
            &&& src.len() == mine.len()
            &&& forall|t: int| 0 <= t < src.len() ==> trades[#[trigger] src[t]] == mine[t]
            &&& forall|i: int|
                src.contains(i) <==> #[trigger] is_inside(trades, i, mint, start, interval)
        }),
{
    let of = trades.filter(of_mint(mint));
    let mine = of.filter(in_bucket(interval, start));
    let a = lemma_filter_sources(trades, of_mint(mint));
    let b = lemma_filter_sources(of, in_bucket(interval, start));
    let src = composed(a, b);
    lemma_composed(a, b, trades.len() as int);
    assert forall|t: int| 0 <= t < src.len() implies trades[#[trigger] src[t]] == mine[t] by {
        assert(trades[a[b[t]]] == of[b[t]]);
    }
    assert forall|i: int|
        src.contains(i) <==> #[trigger] is_inside(trades, i, mint, start, interval) by {
        if 0 <= i < trades.len() {
            lemma_window(trades[i].block_time as int, start as int, interval as int);
        }
        if src.contains(i) {
            let q = choose|q: int| 0 <= q < a.len() && a[q] == i && #[trigger] b.contains(q);
            assert(trades[a[q]] == of[q]);
            assert(a.contains(i));
            assert(of_mint(mint)(trades[i]));
            assert(in_bucket(interval, start)(of[q]));
        }
        if is_inside(trades, i, mint, start, interval) {
            assert(of_mint(mint)(trades[i]));
            assert(a.contains(i));
            let q = choose|q: int| 0 <= q < a.len() && a[q] == i;
            assert(trades[a[q]] == of[q]);
            assert(in_bucket(interval, start)(of[q]));
            assert(b.contains(q));
        }
    }
    src
}

proof fn lemma_turnover_by_time(trades: Seq<TradeView>)
    ensures
        turnover(by_time(trades)) == turnover(trades),
    decreases trades.len(),
{
    if trades.len() > 0 {
        lemma_turnover_by_time(trades.drop_last());
        lemma_turnover_insert(by_time(trades.drop_last()), trades.last());
    }
}

proof fn lemma_value_inside(trades: Seq<TradeView>, mint: Seq<char>, start: i64, interval: i64)
    requires
        interval > 0,
        start as int % interval as int == 0,
    ensures
        value_inside(trades, mint, start, interval) == turnover(
            trades.filter(of_mint(mint)).filter(in_bucket(interval, start)),
        ),
    decreases trades.len(),
{
    if trades.len() == 0 {
        assert(trades.filter(of_mint(mint)) =~= trades);
        assert(trades.filter(in_bucket(interval, start)) =~= trades);
    } else {
        let d = trades.drop_last();
        let x = trades.last();
        lemma_value_inside(d, mint, start, interval);
        lemma_window(x.block_time as int, start as int, interval as int);
        assert(trades =~= d.push(x));
        d.lemma_filter_push(x, of_mint(mint));
        let before = d.filter(of_mint(mint));
        before.lemma_filter_push(x, in_bucket(interval, start));
        law_pow10_is_a_power((255 - x.volume_sol.decimals) as nat);
        let kept = before.filter(in_bucket(interval, start));
        assert(kept.push(x).drop_last() =~= kept);
    }
}

/// A candle opens with the first trade inside it and closes with the last, by
/// time and then by the order of the trades. Its volume is what the trades
/// inside add up to, and its window is a multiple of the interval.
pub proof fn law_candles_open_and_close(
    series: Seq<MintCandlesView>,
    trades: Seq<TradeView>,
    interval: i64,
    m: int,
    c: int,
) -> (at: (int, int))
    requires
        is_candles(series, trades, interval),
        interval > 0,
        0 <= m < series.len(),
        0 <= c < series[m].candles.len(),
    ensures
        ({
            let mint = series[m].mint;
            let candle = series[m].candles[c];
            let start = candle.bucket_start;
            let (open, close) = at;
            &&& start as int % interval as int == 0
            &&& is_inside(trades, open, mint, start, interval)
            &&& is_inside(trades, close, mint, start, interval)
            &&& candle.open == trades[open].price_in_sol
            &&& candle.close == trades[close].price_in_sol
            &&& forall|i: int| #[trigger]
                is_inside(trades, i, mint, start, interval) ==> {
                    &&& trades[open].block_time < trades[i].block_time || (trades[open].block_time
                        == trades[i].block_time && open <= i)
                    &&& trades[i].block_time < trades[close].block_time || (trades[i].block_time
                        == trades[close].block_time && i <= close)
                }
            &&& volume_value(candle.volume) == value_inside(trades, mint, start, interval)
        }),
{
    let mint = series[m].mint;
    let candle = series[m].candles[c];
    let start = candle.bucket_start;
    let mints = first_seen(mints_of(trades));
    let of = trades.filter(of_mint(mint));
    assert(series[m].mint == mints[m]);
    assert(is_series(series[m].candles, of, interval));
    let own = bucket_trades(of, interval, start);
    let mine = of.filter(in_bucket(interval, start));
    assert(own.len() > 0 && candle == candle_of(start, own));
    lemma_start_is_multiple(of, interval, start);
    let open = lemma_first_inside(trades, mint, start, interval);
    let close = lemma_last_inside(trades, mint, start, interval);
    law_volume_is_the_sum(start, own);
    lemma_turnover_by_time(mine);
    lemma_value_inside(trades, mint, start, interval);
    (open, close)
}

/// A window that holds a trade starts at a multiple of the interval.
proof fn lemma_start_is_multiple(of: Seq<TradeView>, interval: i64, start: i64)
    requires
        interval > 0,
        bucket_trades(of, interval, start).len() > 0,
    ensures
        start as int % interval as int == 0,
{
    let own = bucket_trades(of, interval, start);
    let mine = of.filter(in_bucket(interval, start));
    law_by_time_sorts_stably(mine, 0);
    vstd::seq_lib::to_multiset_contains(own, own[0]);
    vstd::seq_lib::to_multiset_contains(mine, own[0]);
    assert(own.contains(own[0]));
    of.lemma_filter_pred(in_bucket(interval, start), 0);
    law_bucket_contains_its_times(mine[0].block_time as int, interval as int);
}

/// No price inside a candle is above its high or below its low, and both were
/// paid.
pub proof fn law_high_and_low_are_of_the_trades(
    series: Seq<MintCandlesView>,
    trades: Seq<TradeView>,
    interval: i64,
    m: int,
    c: int,
) -> (at: (int, int))
    requires
        is_candles(series, trades, interval),
        interval > 0,
        valid_prices(trades),
        0 <= m < series.len(),
        0 <= c < series[m].candles.len(),
    ensures
        ({
            let mint = series[m].mint;
            let candle = series[m].candles[c];
            let start = candle.bucket_start;
            let (high, low) = at;
            &&& is_inside(trades, high, mint, start, interval)
            &&& is_inside(trades, low, mint, start, interval)
            &&& candle.high == trades[high].price_in_sol
            &&& candle.low == trades[low].price_in_sol
            &&& forall|i: int| #[trigger]
                is_inside(trades, i, mint, start, interval) ==> {
                    &&& !candle.high.below(trades[i].price_in_sol)
                    &&& !trades[i].price_in_sol.below(candle.low)
                }
        }),
{
    let mint = series[m].mint;
    let candle = series[m].candles[c];
    let start = candle.bucket_start;
    let mints = first_seen(mints_of(trades));
    let of = trades.filter(of_mint(mint));
    assert(series[m].mint == mints[m]);
    assert(is_series(series[m].candles, of, interval));
    let own = bucket_trades(of, interval, start);
    assert(own.len() > 0 && candle == candle_of(start, own));
    lemma_start_is_multiple(of, interval, start);
    assert forall|t: int| 0 <= t < own.len() implies #[trigger] own[t].price_in_sol.valid() by {
        let i = lemma_own_is_inside(trades, mint, start, interval, t);
    }
    law_high_and_low_bound_the_prices(start, own);
    let h = choose|t: int| 0 <= t < own.len() && (#[trigger] own[t]).price_in_sol == candle.high;
    let l = choose|t: int| 0 <= t < own.len() && (#[trigger] own[t]).price_in_sol == candle.low;
    let high = lemma_own_is_inside(trades, mint, start, interval, h);
    let low = lemma_own_is_inside(trades, mint, start, interval, l);
    assert forall|i: int| #[trigger] is_inside(trades, i, mint, start, interval) implies {
        &&& !candle.high.below(trades[i].price_in_sol)
        &&& !trades[i].price_in_sol.below(candle.low)
    } by {
        let t = lemma_inside_is_own(trades, mint, start, interval, i);
        assert(own[t] == trades[i]);
    }
    (high, low)
}

/// A trade of a window is one of the trades inside.
proof fn lemma_own_is_inside(
    trades: Seq<TradeView>,
    mint: Seq<char>,
    start: i64,
    interval: i64,
    t: int,
) -> (i: int)
    requires
        interval > 0,
        start as int % interval as int == 0,
        0 <= t < bucket_trades(trades.filter(of_mint(mint)), interval, start).len(),
    ensures
        is_inside(trades, i, mint, start, interval),
        trades[i] == bucket_trades(trades.filter(of_mint(mint)), interval, start)[t],
{
    let mine = trades.filter(of_mint(mint)).filter(in_bucket(interval, start));
    let own = by_time(mine);
    let src = lemma_window_sources(trades, mint, start, interval);
    law_by_time_sorts_stably(mine, 0);
    assert(own.contains(own[t]));
    vstd::seq_lib::to_multiset_contains(own, own[t]);
    vstd::seq_lib::to_multiset_contains(mine, own[t]);
    assert(mine.contains(own[t]));
    let q = choose|q: int| 0 <= q < mine.len() && mine[q] == own[t];
    assert(src.contains(src[q]));
    assert(is_inside(trades, src[q], mint, start, interval));
    src[q]
}

/// A trade inside is one of the window's.
proof fn lemma_inside_is_own(
    trades: Seq<TradeView>,
    mint: Seq<char>,
    start: i64,
    interval: i64,
    i: int,
) -> (t: int)
    requires
        interval > 0,
        start as int % interval as int == 0,
        is_inside(trades, i, mint, start, interval),
    ensures
        0 <= t < bucket_trades(trades.filter(of_mint(mint)), interval, start).len(),
        trades[i] == bucket_trades(trades.filter(of_mint(mint)), interval, start)[t],
{
    let mine = trades.filter(of_mint(mint)).filter(in_bucket(interval, start));
    let own = by_time(mine);
    let src = lemma_window_sources(trades, mint, start, interval);
    law_by_time_sorts_stably(mine, 0);
    assert(src.contains(i));
    let q = choose|q: int| 0 <= q < src.len() && src[q] == i;
    assert(mine[q] == trades[i]);
    assert(mine.contains(trades[i]));
    vstd::seq_lib::to_multiset_contains(own, trades[i]);
    vstd::seq_lib::to_multiset_contains(mine, trades[i]);
    assert(own.contains(trades[i]));
    choose|t: int| 0 <= t < own.len() && own[t] == trades[i]
}

/// The first trade of a window is the first inside.
proof fn lemma_first_inside(
    trades: Seq<TradeView>,
    mint: Seq<char>,
    start: i64,
    interval: i64,
) -> (first: int)
    requires
        interval > 0,
        start as int % interval as int == 0,
        bucket_trades(trades.filter(of_mint(mint)), interval, start).len() > 0,
    ensures
        is_inside(trades, first, mint, start, interval),
        trades[first] == bucket_trades(trades.filter(of_mint(mint)), interval, start)[0],
        forall|i: int| #[trigger]
            is_inside(trades, i, mint, start, interval) ==> trades[first].block_time
                < trades[i].block_time || (trades[first].block_time == trades[i].block_time
                && first <= i),
{
    let mine = trades.filter(of_mint(mint)).filter(in_bucket(interval, start));
    let own = by_time(mine);
    let time = own[0].block_time;
    let src = lemma_window_sources(trades, mint, start, interval);
    law_by_time_sorts_stably(mine, time);
    let a = lemma_filter_sources(own, at_time(time));
    let b = lemma_filter_sources(mine, at_time(time));
    assert(at_time(time)(own[0]));
    assert(a.contains(0));
    let z = choose|z: int| 0 <= z < a.len() && a[z] == 0;
    if z > 0 {
        assert(a[0] < a[z]);
    }
    let first = src[b[0]];
    assert(mine[b[0]] == own[0]);
    assert(src.contains(first));
    assert(is_inside(trades, first, mint, start, interval));
    assert forall|i: int| #[trigger] is_inside(trades, i, mint, start, interval) implies
        trades[first].block_time < trades[i].block_time || (trades[first].block_time
        == trades[i].block_time && first <= i) by {
        let t = lemma_inside_is_own(trades, mint, start, interval, i);
        assert(own[0].block_time <= own[t].block_time);
        if trades[i].block_time == time {
            assert(src.contains(i));
            let q = choose|q: int| 0 <= q < src.len() && src[q] == i;
            assert(at_time(time)(mine[q]));
            assert(b.contains(q));
            let y = choose|y: int| 0 <= y < b.len() && b[y] == q;
            if y > 0 {
                assert(b[0] < b[y]);
                assert(src[b[0]] < src[q]);
            }
        }
    }
    first
}

/// The last trade of a window is the last inside.
proof fn lemma_last_inside(
    trades: Seq<TradeView>,
    mint: Seq<char>,
    start: i64,
    interval: i64,
) -> (last: int)
    requires
        interval > 0,
        start as int % interval as int == 0,
        bucket_trades(trades.filter(of_mint(mint)), interval, start).len() > 0,
    ensures
        is_inside(trades, last, mint, start, interval),
        trades[last] == bucket_trades(trades.filter(of_mint(mint)), interval, start).last(),
        forall|i: int| #[trigger]
            is_inside(trades, i, mint, start, interval) ==> trades[i].block_time
                < trades[last].block_time || (trades[i].block_time == trades[last].block_time && i
                <= last),
{
    let mine = trades.filter(of_mint(mint)).filter(in_bucket(interval, start));
    let own = by_time(mine);
    let n = own.len() - 1;
    let time = own[n].block_time;
    let src = lemma_window_sources(trades, mint, start, interval);
    law_by_time_sorts_stably(mine, time);
    let a = lemma_filter_sources(own, at_time(time));
    let b = lemma_filter_sources(mine, at_time(time));
    assert(at_time(time)(own[n]));
    assert(a.contains(n));
    let z = choose|z: int| 0 <= z < a.len() && a[z] == n;
    let e = a.len() - 1;
    if z < e {
        assert(a[z] < a[e]);
    }
    let last = src[b[e]];
    assert(mine[b[e]] == own[n]);
    assert(src.contains(last));
    assert(is_inside(trades, last, mint, start, interval));
    assert forall|i: int| #[trigger] is_inside(trades, i, mint, start, interval) implies
        trades[i].block_time < trades[last].block_time || (trades[i].block_time
        == trades[last].block_time && i <= last) by {
        let t = lemma_inside_is_own(trades, mint, start, interval, i);
        assert(own[t].block_time <= own[n].block_time);
        if trades[i].block_time == time {
            assert(src.contains(i));
            let q = choose|q: int| 0 <= q < src.len() && src[q] == i;
            assert(at_time(time)(mine[q]));
            assert(b.contains(q));
            let y = choose|y: int| 0 <= y < b.len() && b[y] == q;
            if y < e {
                assert(b[y] < b[e]);
                assert(src[q] < src[b[e]]);
            }
        }
    }
    last
}

/// Every trade is in a candle of its mint, and in one only.
pub proof fn law_every_trade_is_in_one_candle(
    series: Seq<MintCandlesView>,
    trades: Seq<TradeView>,
    interval: i64,
    i: int,
) -> (at: (int, int))
    requires
        is_candles(series, trades, interval),
        interval > 0,
        0 <= i < trades.len(),
    ensures
        0 <= at.0 < series.len(),
        0 <= at.1 < series[at.0].candles.len(),
        is_inside(
            trades,
            i,
            series[at.0].mint,
            series[at.0].candles[at.1].bucket_start,
            interval,
        ),
        forall|m: int, c: int|
            0 <= m < series.len() && 0 <= c < series[m].candles.len() && is_inside(
                trades,
                i,
                series[m].mint,
                (#[trigger] series[m].candles[c]).bucket_start,
                interval,
            ) ==> m == at.0 && c == at.1,
{
    let keys = mints_of(trades);
    let mints = first_seen(keys);
    lemma_first_seen(keys);
    assert(keys[i] == trades[i].mint);
    assert(mints.contains(keys[i]));
    let m = choose|m: int| 0 <= m < mints.len() && mints[m] == keys[i];
    let mint = mints[m];
    let of = trades.filter(of_mint(mint));
    assert(series[m].mint == mint);
    let a = lemma_filter_sources(trades, of_mint(mint));
    assert(of_mint(mint)(trades[i]));
    assert(a.contains(i));
    let q = choose|q: int| 0 <= q < a.len() && a[q] == i;
    assert(of[q] == trades[i]);
    let candles = series[m].candles;
    let start = bucket_start(of[q].block_time as int, interval as int);
    assert(has_candle(candles, start));
    let c = choose|c: int| 0 <= c < candles.len() && (#[trigger] candles[c]).bucket_start == start;
    law_bucket_contains_its_times(trades[i].block_time as int, interval as int);
    assert forall|x: int, y: int|
        0 <= x < series.len() && 0 <= y < series[x].candles.len() && is_inside(
            trades,
            i,
            series[x].mint,
            (#[trigger] series[x].candles[y]).bucket_start,
            interval,
        ) implies x == m && y == c by {
        assert(series[x].mint == mints[x]);
        assert(x == m);
        let other = candles[y];
        assert(bucket_trades(of, interval, other.bucket_start).len() > 0);
        lemma_start_is_multiple(of, interval, other.bucket_start);
        lemma_window(
            trades[i].block_time as int,
            other.bucket_start as int,
            interval as int,
        );
        assert(other.bucket_start == candles[c].bucket_start);
        if y < c {
            assert(candles[y].bucket_start < candles[c].bucket_start);
        }
        if c < y {
            assert(candles[c].bucket_start < candles[y].bucket_start);
        }
    }
    (m, c)
}

/// There is one series for each mint that was traded, in the order in which the
/// mints were first traded, and its candles are in order of time.
pub proof fn law_series_are_of_the_mints(
    series: Seq<MintCandlesView>,
    trades: Seq<TradeView>,
    interval: i64,
) -> (src: Seq<int>)
    requires
        is_candles(series, trades, interval),
    ensures
        are_indices(src, trades.len() as int),
        src.len() == series.len(),
        forall|m: int| 0 <= m < src.len() ==> series[m].mint == trades[#[trigger] src[m]].mint,
        forall|i: int|
            0 <= i < trades.len() ==> (src.contains(i) <==> #[trigger] is_first_of_mint(trades, i)),
        forall|m: int, c: int, e: int|
            0 <= m < series.len() && 0 <= c < e < series[m].candles.len() ==> (
            #[trigger] series[m].candles[c]).bucket_start < (
            #[trigger] series[m].candles[e]).bucket_start,
{
    let keys = mints_of(trades);
    let mints = first_seen(keys);
    let src = law_first_seen_takes_first_appearances(keys);
    assert forall|m: int| 0 <= m < src.len() implies series[m].mint
        == trades[#[trigger] src[m]].mint by {
        assert(keys[src[m]] == mints[m]);
    }
    assert forall|i: int| 0 <= i < trades.len() implies (src.contains(i)
        <==> #[trigger] is_first_of_mint(trades, i)) by {
        assert(keys[i] == trades[i].mint);
        if is_first_of_mint(trades, i) {
            assert forall|j: int| 0 <= j < i implies #[trigger] keys[j] != keys[i] by {
                assert(trades[j].mint != trades[i].mint);
            }
        }
        if appears_first(keys, i) {
            assert forall|j: int| 0 <= j < i implies (#[trigger] trades[j]).mint
                != trades[i].mint by {
                assert(keys[j] != keys[i]);
            }
        }
        assert(appears_first(keys, i) <==> is_first_of_mint(trades, i));
    }
    assert forall|m: int, c: int, e: int|
        0 <= m < series.len() && 0 <= c < e < series[m].candles.len() implies (
    #[trigger] series[m].candles[c]).bucket_start < (
    #[trigger] series[m].candles[e]).bucket_start by {
        assert(is_series(series[m].candles, trades.filter(of_mint(mints[m])), interval));
    }
    src
}

/// Whether no earlier trade is of trade `i`'s mint.
pub open spec fn is_first_of_mint(trades: Seq<TradeView>, i: int) -> bool {
    forall|j: int| 0 <= j < i ==> (#[trigger] trades[j]).mint != trades[i].mint
}

} // verus!
