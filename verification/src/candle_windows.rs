//! Candles of different windows: a wide candle is made of the narrow ones that
//! lie in its window.

use crate::candles::{
    bucket_start, bucket_trades, by_time, candle_of, has_candle, highest, in_bucket,
    insert_by_time, is_candles, is_series, law_bucket_contains_its_times, law_by_time_sorts_stably,
    law_high_and_low_bound_the_prices, law_volume_is_the_sum, lowest, mints_of, of_mint,
    series_value, turnover, volume_value, CandleView, MintCandlesView,
};
use crate::index::first_seen;
use crate::ohlcv::TradeView;
use crate::price::{law_prices_are_ordered, Price};
use vstd::prelude::*;

verus! {

/// The highest of the highs of candles, of those the first.
pub open spec fn highest_high(candles: Seq<CandleView>) -> Price
    decreases candles.len(),
{
    if candles.len() <= 1 {
        candles[0].high
    } else {
        let before = highest_high(candles.drop_last());
        if before.below(candles.last().high) {
            candles.last().high
        } else {
            before
        }
    }
}

/// The lowest of the lows of candles, of those the first.
pub open spec fn lowest_low(candles: Seq<CandleView>) -> Price
    decreases candles.len(),
{
    if candles.len() <= 1 {
        candles[0].low
    } else {
        let before = lowest_low(candles.drop_last());
        if candles.last().low.below(before) {
            candles.last().low
        } else {
            before
        }
    }
}

/// Whether a candle lies in the window that starts at `start`.
pub open spec fn in_window(interval: i64, start: i64) -> spec_fn(CandleView) -> bool {
    |candle: CandleView| bucket_start(candle.bucket_start as int, interval as int) == start
}

/// The candles that lie in a window.
pub open spec fn window_candles(candles: Seq<CandleView>, interval: i64, start: i64) -> Seq<
    CandleView,
> {
    candles.filter(in_window(interval, start))
}

/// Whether all prices are valid.
pub open spec fn valid_prices(trades: Seq<TradeView>) -> bool {
    forall|i: int| 0 <= i < trades.len() ==> (#[trigger] trades[i]).price_in_sol.valid()
}

/// Whether trades are in order of time.
spec fn is_sorted(trades: Seq<TradeView>) -> bool {
    forall|i: int, j: int|
        0 <= i <= j < trades.len() ==> (#[trigger] trades[i]).block_time <= (
        #[trigger] trades[j]).block_time
}

/// Windows of a time that is not earlier do not start earlier.
proof fn lemma_bucket_monotone(a: int, b: int, interval: int)
    requires
        interval > 0,
        a <= b,
    ensures
        bucket_start(a, interval) <= bucket_start(b, interval),
{
    vstd::arithmetic::div_mod::lemma_div_is_ordered(a, b, interval);
    vstd::arithmetic::div_mod::lemma_fundamental_div_mod(a, interval);
    vstd::arithmetic::div_mod::lemma_fundamental_div_mod(b, interval);
    let (x, y) = (a / interval, b / interval);
    assert(interval * x <= interval * y) by (nonlinear_arith)
        requires
            interval > 0,
            x <= y,
    ;
}

/// Every window lies in one of the wider windows.
pub proof fn law_windows_nest(time: int, short: int, long: int)
    requires
        short > 0,
        long > 0,
        long % short == 0,
    ensures
        bucket_start(bucket_start(time, short), long) == bucket_start(time, long),
{
    let b = bucket_start(time, short);
    let q = bucket_start(time, long);
    law_bucket_contains_its_times(time, short);
    law_bucket_contains_its_times(time, long);
    law_bucket_contains_its_times(b, long);
    let (k, x, y) = (long / short, b / short, q / long);
    vstd::arithmetic::div_mod::lemma_fundamental_div_mod(long, short);
    vstd::arithmetic::div_mod::lemma_fundamental_div_mod(b, short);
    vstd::arithmetic::div_mod::lemma_fundamental_div_mod(q, long);
    assert(q <= b) by (nonlinear_arith)
        requires
            short > 0,
            long == short * k,
            b == short * x,
            q == long * y,
            q <= time < b + short,
    {
        assert(q == short * (k * y)) by (nonlinear_arith)
            requires
                q == long * y,
                long == short * k,
        ;
        assert(k * y <= x) by (nonlinear_arith)
            requires
                short * (k * y) < short * x + short,
                short > 0,
        ;
        assert(short * (k * y) <= short * x) by (nonlinear_arith)
            requires
                k * y <= x,
                short > 0,
        ;
    }
    lemma_bucket_monotone(q, b, long);
    lemma_bucket_monotone(b, time, long);
    law_bucket_contains_its_times(q, long);
}

/// Filtering twice is filtering by the stricter predicate.
proof fn lemma_filter_twice<A>(s: Seq<A>, wide: spec_fn(A) -> bool, narrow: spec_fn(A) -> bool)
    requires
        forall|a: A| #[trigger] narrow(a) ==> wide(a),
    ensures
        s.filter(wide).filter(narrow) == s.filter(narrow),
    decreases s.len(),
{
    if s.len() == 0 {
        assert(s.filter(wide) =~= s);
    } else {
        let d = s.drop_last();
        let x = s.last();
        lemma_filter_twice(d, wide, narrow);
        assert(s =~= d.push(x));
        d.lemma_filter_push(x, wide);
        d.lemma_filter_push(x, narrow);
        d.filter(wide).lemma_filter_push(x, narrow);
    }
}

/// A filtered sequence keeps the order of its elements.
proof fn lemma_filter_sorted(s: Seq<TradeView>, pred: spec_fn(TradeView) -> bool)
    requires
        is_sorted(s),
    ensures
        is_sorted(s.filter(pred)),
        forall|i: int|
            0 <= i < s.filter(pred).len() ==> (#[trigger] s.filter(pred)[i]).block_time
                <= s.last().block_time,
    decreases s.len(),
{
    if s.len() > 0 {
        let d = s.drop_last();
        let x = s.last();
        assert(is_sorted(d)) by {
            assert forall|i: int, j: int| 0 <= i <= j < d.len() implies (
            #[trigger] d[i]).block_time <= (#[trigger] d[j]).block_time by {
                assert(s[i].block_time <= s[j].block_time);
            }
        }
        lemma_filter_sorted(d, pred);
        assert(s =~= d.push(x));
        d.lemma_filter_push(x, pred);
        if d.len() > 0 {
            assert(s[d.len() - 1].block_time <= s[s.len() - 1].block_time);
        } else {
            assert(d.filter(pred) =~= d);
        }
    } else {
        assert(s.filter(pred) =~= s);
    }
}

proof fn lemma_insert_filtered(
    sorted: Seq<TradeView>,
    x: TradeView,
    pred: spec_fn(TradeView) -> bool,
)
    requires
        is_sorted(sorted),
    ensures
        insert_by_time(sorted, x).filter(pred) == if pred(x) {
            insert_by_time(sorted.filter(pred), x)
        } else {
            sorted.filter(pred)
        },
    decreases sorted.len(),
{
    if sorted.len() > 0 && x.block_time < sorted.last().block_time {
        let d = sorted.drop_last();
        let last = sorted.last();
        assert(is_sorted(d)) by {
            assert forall|i: int, j: int| 0 <= i <= j < d.len() implies (
            #[trigger] d[i]).block_time <= (#[trigger] d[j]).block_time by {
                assert(sorted[i].block_time <= sorted[j].block_time);
            }
        }
        lemma_insert_filtered(d, x, pred);
        insert_by_time(d, x).lemma_filter_push(last, pred);
        assert(sorted =~= d.push(last));
        d.lemma_filter_push(last, pred);
        if pred(last) {
            assert(sorted.filter(pred).drop_last() =~= d.filter(pred));
        }
    } else {
        sorted.lemma_filter_push(x, pred);
        lemma_filter_sorted(sorted, pred);
        let kept = sorted.filter(pred);
        if kept.len() > 0 {
            assert(kept[kept.len() - 1].block_time <= sorted.last().block_time);
            if sorted.len() == 0 {
                assert(sorted.filter(pred) =~= sorted);
            }
        }
    }
}

/// Ordering by time and picking trades can be exchanged.
proof fn lemma_by_time_filtered(trades: Seq<TradeView>, pred: spec_fn(TradeView) -> bool)
    ensures
        by_time(trades.filter(pred)) == by_time(trades).filter(pred),
    decreases trades.len(),
{
    if trades.len() == 0 {
        assert(trades.filter(pred) =~= trades);
        assert(by_time(trades).filter(pred) =~= Seq::<TradeView>::empty());
    } else {
        let d = trades.drop_last();
        let x = trades.last();
        lemma_by_time_filtered(d, pred);
        law_by_time_sorts_stably(d, 0);
        assert(is_sorted(by_time(d)));
        lemma_insert_filtered(by_time(d), x, pred);
        assert(trades =~= d.push(x));
        d.lemma_filter_push(x, pred);
        if pred(x) {
            assert(trades.filter(pred).drop_last() =~= d.filter(pred));
        }
    }
}

/// Where the window of a trade starts.
#[verifier::opaque]
spec fn window_of(trade: TradeView, short: i64) -> int {
    bucket_start(trade.block_time as int, short as int)
}

/// Where the trades of the last window begin.
proof fn lemma_cut(own: Seq<TradeView>, short: i64, start: i64) -> (c: int)
    requires
        short > 0,
        is_sorted(own),
        forall|k: int|
            0 <= k < own.len() ==> window_of(#[trigger] own[k], short) <= start,
    ensures
        0 <= c <= own.len(),
        forall|k: int|
            0 <= k < c ==> window_of(#[trigger] own[k], short)
                < start,
        forall|k: int|
            c <= k < own.len() ==> window_of(#[trigger] own[k], short) == start,
    decreases own.len(),
{
    let n = own.len() - 1;
    if own.len() == 0 {
        0
    } else if window_of(own[n], short) < start {
        assert forall|k: int| 0 <= k < own.len() implies window_of(#[trigger] own[k], short) < start by {
            reveal(window_of);
            lemma_bucket_monotone(
                own[k].block_time as int,
                own[n].block_time as int,
                short as int,
            );
        }
        own.len() as int
    } else {
        let d = own.drop_last();
        assert(is_sorted(d)) by {
            assert forall|i: int, j: int| 0 <= i <= j < d.len() implies (
            #[trigger] d[i]).block_time <= (#[trigger] d[j]).block_time by {
                assert(own[i].block_time <= own[j].block_time);
            }
        }
        assert forall|k: int| 0 <= k < d.len() implies window_of(#[trigger] d[k], short) <= start by {
            assert(d[k] == own[k]);
        }
        let c = lemma_cut(d, short, start);
        assert forall|k: int| 0 <= k < c implies window_of(#[trigger] own[k], short) < start by {
            assert(d[k] == own[k]);
        }
        assert forall|k: int| c <= k < own.len() implies window_of(#[trigger] own[k], short) == start by {
            if k < n {
                assert(d[k] == own[k]);
            }
        }
        c
    }
}

/// Where all trades fall into a window, picking those of the window keeps all.
proof fn lemma_all_in_bucket(trades: Seq<TradeView>, short: i64, start: i64)
    requires
        forall|k: int|
            0 <= k < trades.len() ==> window_of(#[trigger] trades[k], short) == start,
    ensures
        trades.filter(in_bucket(short, start)) == trades,
    decreases trades.len(),
{
    let pred = in_bucket(short, start);
    if trades.len() == 0 {
        assert(trades.filter(pred) =~= trades);
    } else {
        let d = trades.drop_last();
        assert forall|k: int| 0 <= k < d.len() implies window_of(#[trigger] d[k], short) == start by {
            assert(d[k] == trades[k]);
        }
        lemma_all_in_bucket(d, short, start);
        assert(trades =~= d.push(trades.last()));
        assert(trades[trades.len() - 1] == trades.last());
        reveal(window_of);
        d.lemma_filter_push(trades.last(), pred);
    }
}

/// Where no trade falls into a window, picking those of the window keeps none.
proof fn lemma_none_in_bucket(trades: Seq<TradeView>, short: i64, start: i64)
    requires
        forall|k: int|
            0 <= k < trades.len() ==> window_of(#[trigger] trades[k], short) != start,
    ensures
        trades.filter(in_bucket(short, start)) == Seq::<TradeView>::empty(),
    decreases trades.len(),
{
    let pred = in_bucket(short, start);
    if trades.len() == 0 {
        assert(trades.filter(pred) =~= Seq::<TradeView>::empty());
    } else {
        let d = trades.drop_last();
        assert forall|k: int| 0 <= k < d.len() implies window_of(#[trigger] d[k], short) != start by {
            assert(d[k] == trades[k]);
        }
        lemma_none_in_bucket(d, short, start);
        assert(trades =~= d.push(trades.last()));
        assert(trades[trades.len() - 1] == trades.last());
        reveal(window_of);
        d.lemma_filter_push(trades.last(), pred);
    }
}

/// The trades before a cut and those after it, by window.
proof fn lemma_cut_filters(own: Seq<TradeView>, c: int, short: i64, start: i64)
    requires
        0 <= c <= own.len(),
        forall|k: int|
            0 <= k < c ==> window_of(#[trigger] own[k], short)
                < start,
        forall|k: int|
            c <= k < own.len() ==> window_of(#[trigger] own[k], short) == start,
    ensures
        own.filter(in_bucket(short, start)) == own.skip(c),
        forall|other: i64|
            other < start ==> #[trigger] own.filter(in_bucket(short, other)) == own.take(c).filter(
                in_bucket(short, other),
            ),
{
    let a = own.take(c);
    let b = own.skip(c);
    assert(own =~= a + b);
    assert forall|k: int| 0 <= k < a.len() implies window_of(#[trigger] a[k], short) != start by {
        assert(a[k] == own[k]);
    }
    assert forall|k: int| 0 <= k < b.len() implies window_of(#[trigger] b[k], short) == start by {
        assert(b[k] == own[c + k]);
    }
    lemma_none_in_bucket(a, short, start);
    lemma_all_in_bucket(b, short, start);
    Seq::filter_distributes_over_add(a, b, in_bucket(short, start));
    assert(Seq::<TradeView>::empty() + b =~= b);
    assert forall|other: i64| other < start implies #[trigger] own.filter(in_bucket(short, other))
        == a.filter(in_bucket(short, other)) by {
        lemma_none_in_bucket(b, short, other);
        Seq::filter_distributes_over_add(a, b, in_bucket(short, other));
        let kept = a.filter(in_bucket(short, other));
        assert(kept + Seq::<TradeView>::empty() =~= kept);
    }
}

proof fn lemma_turnover_joined(a: Seq<TradeView>, b: Seq<TradeView>)
    ensures
        turnover(a + b) == turnover(a) + turnover(b),
    decreases b.len(),
{
    if b.len() == 0 {
        assert(a + b =~= a);
    } else {
        assert((a + b).drop_last() =~= a + b.drop_last());
        lemma_turnover_joined(a, b.drop_last());
    }
}

/// The highest and lowest prices of valid trades are valid.
proof fn lemma_extremes_valid(trades: Seq<TradeView>)
    requires
        trades.len() > 0,
        valid_prices(trades),
    ensures
        highest(trades).valid(),
        lowest(trades).valid(),
{
    law_high_and_low_bound_the_prices(0, trades);
    let h = choose|i: int|
        0 <= i < trades.len() && (#[trigger] trades[i]).price_in_sol == highest(trades);
    let l = choose|i: int|
        0 <= i < trades.len() && (#[trigger] trades[i]).price_in_sol == lowest(trades);
    assert(trades[h].price_in_sol.valid());
    assert(trades[l].price_in_sol.valid());
}

proof fn lemma_extremes_joined(a: Seq<TradeView>, b: Seq<TradeView>)
    requires
        a.len() > 0,
        b.len() > 0,
        valid_prices(a),
        valid_prices(b),
    ensures
        highest(a + b) == if highest(a).below(highest(b)) {
            highest(b)
        } else {
            highest(a)
        },
        lowest(a + b) == if lowest(b).below(lowest(a)) {
            lowest(b)
        } else {
            lowest(a)
        },
    decreases b.len(),
{
    let d = b.drop_last();
    let x = b.last().price_in_sol;
    assert((a + b).drop_last() =~= a + d);
    assert(b[b.len() - 1].price_in_sol.valid());
    lemma_extremes_valid(a);
    if b.len() == 1 {
        assert(a + d =~= a);
    } else {
        assert(valid_prices(d)) by {
            assert forall|i: int| 0 <= i < d.len() implies (
            #[trigger] d[i]).price_in_sol.valid() by {
                assert(b[i].price_in_sol.valid());
            }
        }
        lemma_extremes_joined(a, d);
        lemma_extremes_valid(d);
        law_prices_are_ordered(highest(a), highest(d), x);
        law_prices_are_ordered(x, lowest(d), lowest(a));
    }
}

/// Whether a candle is that of trades.
#[verifier::opaque]
spec fn sums_up(candle: CandleView, part: Seq<TradeView>) -> bool {
    part.len() > 0 && candle == candle_of(candle.bucket_start, part)
}

/// Whether a candle is of the trades of its window.
#[verifier::opaque]
spec fn is_candle_of(candle: CandleView, own: Seq<TradeView>, short: i64) -> bool {
    sums_up(candle, own.filter(in_bucket(short, candle.bucket_start)))
}

/// A candle of the same trades is the same candle.
proof fn lemma_candle_of_same(
    candle: CandleView,
    a: Seq<TradeView>,
    b: Seq<TradeView>,
    short: i64,
)
    requires
        is_candle_of(candle, a, short),
        a.filter(in_bucket(short, candle.bucket_start)) == b.filter(
            in_bucket(short, candle.bucket_start),
        ),
    ensures
        is_candle_of(candle, b, short),
        b.len() > 0,
{
    reveal(is_candle_of);
    reveal(sums_up);
    if b.len() == 0 {
        assert(b.filter(in_bucket(short, candle.bucket_start)) =~= b);
    }
}

/// Whether these are the candles of trades that are in order of time.
spec fn covers(candles: Seq<CandleView>, own: Seq<TradeView>, short: i64) -> bool {
    &&& is_sorted(own)
    &&& valid_prices(own)
    &&& forall|i: int, j: int|
        0 <= i < j < candles.len() ==> (#[trigger] candles[i]).bucket_start < (
        #[trigger] candles[j]).bucket_start
    &&& forall|i: int| 0 <= i < candles.len() ==> is_candle_of(#[trigger] candles[i], own, short)
    &&& forall|k: int|
        0 <= k < own.len() ==> has_candle(
            candles,
            window_of(#[trigger] own[k], short),
        )
}

/// Whether candles add up to the candle of trades.
#[verifier::opaque]
spec fn add_up(candles: Seq<CandleView>, own: Seq<TradeView>) -> bool {
    &&& candles.len() > 0
    &&& own.len() > 0
    &&& own[0].price_in_sol == candles[0].open
    &&& own.last().price_in_sol == candles.last().close
    &&& highest(own) == highest_high(candles)
    &&& lowest(own) == lowest_low(candles)
    &&& turnover(own) == series_value(candles)
}

/// One candle adds up to itself.
proof fn lemma_one_adds_up(candle: CandleView, b: Seq<TradeView>)
    requires
        sums_up(candle, b),
    ensures
        add_up(seq![candle], b),
{
    reveal(add_up);
    reveal(sums_up);
    let one = seq![candle];
    law_volume_is_the_sum(candle.bucket_start, b);
    assert(one.drop_last() =~= Seq::<CandleView>::empty());
    assert(series_value(one.drop_last()) == 0);
}

/// Candles and one more add up to the trades of all.
proof fn lemma_one_more_adds_up(
    d: Seq<CandleView>,
    a: Seq<TradeView>,
    candle: CandleView,
    b: Seq<TradeView>,
)
    requires
        add_up(d, a),
        sums_up(candle, b),
        valid_prices(a),
        valid_prices(b),
    ensures
        add_up(d.push(candle), a + b),
{
    reveal(add_up);
    reveal(sums_up);
    let all = d.push(candle);
    assert(all.drop_last() =~= d);
    law_volume_is_the_sum(candle.bucket_start, b);
    lemma_turnover_joined(a, b);
    lemma_extremes_joined(a, b);
    assert((a + b).last() == b.last());
    assert((a + b)[0] == a[0]);
}

/// Where the trades of the last candle begin.
proof fn lemma_last_window(candles: Seq<CandleView>, own: Seq<TradeView>, short: i64) -> (c: int)
    requires
        short > 0,
        candles.len() > 0,
        covers(candles, own, short),
    ensures
        0 <= c <= own.len(),
        forall|k: int|
            0 <= k < c ==> window_of(#[trigger] own[k], short) < candles.last().bucket_start,
        forall|k: int|
            c <= k < own.len() ==> window_of(#[trigger] own[k], short)
                == candles.last().bucket_start,
        sums_up(candles.last(), own.skip(c)),
        candles.len() == 1 ==> c == 0,
{
    let n = candles.len() - 1;
    let start = candles[n].bucket_start;
    assert forall|k: int| 0 <= k < own.len() implies window_of(#[trigger] own[k], short)
        <= start by {
        let at = window_of(own[k], short);
        assert(has_candle(candles, at));
        let i = choose|i: int| 0 <= i < candles.len() && (#[trigger] candles[i]).bucket_start
            == at;
        if i < n {
            assert(candles[i].bucket_start < candles[n].bucket_start);
        }
    }
    let c = lemma_cut(own, short, start);
    lemma_cut_filters(own, c, short, start);
    assert(is_candle_of(candles[n], own, short));
    reveal(is_candle_of);
    if n == 0 && c > 0 {
        assert(has_candle(candles, window_of(own[0], short)));
    }
    c
}

/// The candles of windows that follow each other and cover trades add up to the
/// trades' own candle.
proof fn lemma_candles_add_up(candles: Seq<CandleView>, own: Seq<TradeView>, short: i64)
    requires
        short > 0,
        own.len() > 0,
        covers(candles, own, short),
    ensures
        add_up(candles, own),
    decreases candles.len(),
{
    assert(candles.len() > 0) by {
        assert(has_candle(candles, window_of(own[0], short)));
    }
    let d = candles.drop_last();
    let last = candles.last();
    let c = lemma_last_window(candles, own, short);
    let a = own.take(c);
    let b = own.skip(c);
    if candles.len() == 1 {
        assert(own =~= b);
        lemma_one_adds_up(last, b);
        assert(candles =~= seq![last]);
    } else {
        lemma_before_cut(candles, own, short, c);
        lemma_candles_add_up(d, a, short);
        assert(valid_prices(b)) by {
            assert forall|i: int| 0 <= i < b.len() implies (
            #[trigger] b[i]).price_in_sol.valid() by {
                assert(b[i] == own[c + i]);
            }
        }
        lemma_one_more_adds_up(d, a, last, b);
        assert(candles =~= d.push(last));
        assert(own =~= a + b);
    }
}

/// What is before the last window has the candles before the last.
proof fn lemma_before_cut(candles: Seq<CandleView>, own: Seq<TradeView>, short: i64, c: int)
    requires
        candles.len() > 1,
        covers(candles, own, short),
        0 <= c <= own.len(),
        forall|k: int|
            0 <= k < c ==> window_of(#[trigger] own[k], short)
                < candles.last().bucket_start,
        forall|k: int|
            c <= k < own.len() ==> window_of(#[trigger] own[k], short) == candles.last().bucket_start,
    ensures
        own.take(c).len() > 0,
        covers(candles.drop_last(), own.take(c), short),
{
    let n = candles.len() - 1;
    let d = candles.drop_last();
    let a = own.take(c);
    let start = candles[n].bucket_start;
    assert(is_sorted(a)) by {
        assert forall|i: int, j: int| 0 <= i <= j < a.len() implies (
        #[trigger] a[i]).block_time <= (#[trigger] a[j]).block_time by {
            assert(own[i].block_time <= own[j].block_time);
        }
    }
    assert(valid_prices(a)) by {
        assert forall|i: int| 0 <= i < a.len() implies (#[trigger] a[i]).price_in_sol.valid() by {
            assert(own[i].price_in_sol.valid());
        }
    }
    assert forall|i: int, j: int| 0 <= i < j < d.len() implies (#[trigger] d[i]).bucket_start < (
    #[trigger] d[j]).bucket_start by {
        assert(candles[i].bucket_start < candles[j].bucket_start);
    }
    assert forall|i: int| 0 <= i < d.len() implies is_candle_of(#[trigger] d[i], a, short) by {
        assert(is_candle_of(candles[i], own, short));
        assert(candles[i].bucket_start < candles[n].bucket_start);
        lemma_candle_before_cut(candles[i], own, short, c, start);
    }
    assert forall|k: int| 0 <= k < a.len() implies has_candle(
        d,
        window_of(#[trigger] a[k], short),
    ) by {
        assert(has_candle(candles, window_of(own[k], short)));
        lemma_earlier_candle(candles, window_of(own[k], short));
    }
    assert(is_candle_of(d[0], a, short));
    lemma_candle_of_same(d[0], a, a, short);
}

/// A candle before the last window is of the trades before it.
proof fn lemma_candle_before_cut(
    candle: CandleView,
    own: Seq<TradeView>,
    short: i64,
    c: int,
    start: i64,
)
    requires
        is_candle_of(candle, own, short),
        candle.bucket_start < start,
        0 <= c <= own.len(),
        forall|k: int| 0 <= k < c ==> window_of(#[trigger] own[k], short) < start,
        forall|k: int| c <= k < own.len() ==> window_of(#[trigger] own[k], short) == start,
    ensures
        is_candle_of(candle, own.take(c), short),
{
    assert(own.filter(in_bucket(short, candle.bucket_start)) == own.take(c).filter(
        in_bucket(short, candle.bucket_start),
    )) by {
        lemma_cut_filters(own, c, short, start);
    }
    lemma_candle_of_same(candle, own, own.take(c), short);
}

/// A candle that starts before the last is not the last.
proof fn lemma_earlier_candle(candles: Seq<CandleView>, at: int)
    requires
        candles.len() > 0,
        has_candle(candles, at),
        at < candles.last().bucket_start,
    ensures
        has_candle(candles.drop_last(), at),
{
    let i = choose|i: int| 0 <= i < candles.len() && (#[trigger] candles[i]).bucket_start == at;
    assert(candles.drop_last()[i].bucket_start == at);
}

/// A filtered series keeps the order of its starts.
proof fn lemma_filter_increasing(candles: Seq<CandleView>, pred: spec_fn(CandleView) -> bool)
    requires
        forall|i: int, j: int|
            0 <= i < j < candles.len() ==> (#[trigger] candles[i]).bucket_start < (
            #[trigger] candles[j]).bucket_start,
    ensures
        forall|i: int, j: int|
            0 <= i < j < candles.filter(pred).len() ==> (
            #[trigger] candles.filter(pred)[i]).bucket_start < (
            #[trigger] candles.filter(pred)[j]).bucket_start,
        forall|i: int|
            0 <= i < candles.filter(pred).len() ==> (
            #[trigger] candles.filter(pred)[i]).bucket_start <= candles.last().bucket_start,
    decreases candles.len(),
{
    if candles.len() == 0 {
        assert(candles.filter(pred) =~= candles);
    } else {
        let d = candles.drop_last();
        let x = candles.last();
        let n = d.len() as int;
        assert forall|i: int, j: int| 0 <= i < j < d.len() implies (
        #[trigger] d[i]).bucket_start < (#[trigger] d[j]).bucket_start by {
            assert(candles[i].bucket_start < candles[j].bucket_start);
        }
        lemma_filter_increasing(d, pred);
        assert(candles =~= d.push(x));
        d.lemma_filter_push(x, pred);
        if n > 0 {
            assert(candles[n - 1].bucket_start < candles[n].bucket_start);
        } else {
            assert(d.filter(pred) =~= d);
        }
    }
}

/// A wide candle is made of the narrow candles that lie in its window: it opens
/// with the first and closes with the last, its high is the highest of theirs,
/// its low the lowest, and its volume is the sum of theirs.
pub proof fn law_wide_candles_are_made_of_narrow_ones(
    narrow: Seq<CandleView>,
    wide: Seq<CandleView>,
    trades: Seq<TradeView>,
    short: i64,
    long: i64,
    w: int,
)
    requires
        short > 0,
        long > 0,
        long as int % short as int == 0,
        is_series(narrow, trades, short),
        is_series(wide, trades, long),
        valid_prices(trades),
        0 <= w < wide.len(),
    ensures
        ({
            let inside = window_candles(narrow, long, wide[w].bucket_start);
            &&& inside.len() > 0
            &&& wide[w].open == inside[0].open
            &&& wide[w].close == inside.last().close
            &&& wide[w].high == highest_high(inside)
            &&& wide[w].low == lowest_low(inside)
            &&& volume_value(wide[w].volume) == series_value(inside)
        }),
{
    let start = wide[w].bucket_start;
    let within = in_window(long, start);
    let inside = window_candles(narrow, long, start);
    let pred = in_bucket(long, start);
    let mine = trades.filter(pred);
    let own = bucket_trades(trades, long, start);
    assert(own.len() > 0 && wide[w] == candle_of(start, own));
    law_by_time_sorts_stably(mine, 0);
    lemma_filter_increasing(narrow, within);
    assert forall|k: int| 0 <= k < own.len() implies {
        &&& (#[trigger] own[k]).price_in_sol.valid()
        &&& has_candle(inside, window_of(own[k], short))
    } by {
        reveal(window_of);
        let trade = own[k];
        vstd::seq_lib::to_multiset_contains(own, trade);
        vstd::seq_lib::to_multiset_contains(mine, trade);
        assert(own.contains(trade));
        assert(mine.contains(trade));
        trades.lemma_filter_contains_rev(pred, trade);
        let i = choose|i: int| 0 <= i < trades.len() && trades[i] == trade;
        let m = choose|m: int| 0 <= m < mine.len() && mine[m] == trade;
        trades.lemma_filter_pred(pred, m);
        assert(trades[i].price_in_sol.valid());
        let s = bucket_start(trade.block_time as int, short as int);
        assert(has_candle(narrow, s));
        let c = choose|c: int| 0 <= c < narrow.len() && (#[trigger] narrow[c]).bucket_start == s;
        law_windows_nest(trade.block_time as int, short as int, long as int);
        assert(within(narrow[c]));
        narrow.lemma_filter_contains(within, c);
        let f = choose|f: int| 0 <= f < inside.len() && inside[f] == narrow[c];
        assert(inside[f].bucket_start == s);
    }
    assert forall|i: int| 0 <= i < inside.len() implies is_candle_of(
        #[trigger] inside[i],
        own,
        short,
    ) by {
        narrow.lemma_filter_pred(within, i);
        assert(inside.contains(inside[i]));
        narrow.lemma_filter_contains_rev(within, inside[i]);
        let c = choose|c: int| 0 <= c < narrow.len() && narrow[c] == inside[i];
        let s = narrow[c].bucket_start;
        let small = in_bucket(short, s);
        assert forall|t: TradeView| #[trigger] small(t) implies pred(t) by {
            law_windows_nest(t.block_time as int, short as int, long as int);
        }
        lemma_by_time_filtered(mine, small);
        lemma_filter_twice(trades, pred, small);
        assert(bucket_trades(trades, short, s) == own.filter(small));
        reveal(is_candle_of);
        reveal(sums_up);
    }
    lemma_candles_add_up(inside, own, short);
    reveal(add_up);
    law_volume_is_the_sum(start, own);
}

/// Every narrow candle lies in the window of exactly one wide candle.
pub proof fn law_narrow_candles_lie_in_one_wide(
    narrow: Seq<CandleView>,
    wide: Seq<CandleView>,
    trades: Seq<TradeView>,
    short: i64,
    long: i64,
    n: int,
) -> (w: int)
    requires
        short > 0,
        long > 0,
        long as int % short as int == 0,
        is_series(narrow, trades, short),
        is_series(wide, trades, long),
        0 <= n < narrow.len(),
    ensures
        0 <= w < wide.len(),
        in_window(long, wide[w].bucket_start)(narrow[n]),
        forall|v: int|
            0 <= v < wide.len() && v != w ==> !in_window(
                long,
                (#[trigger] wide[v]).bucket_start,
            )(narrow[n]),
{
    let s = narrow[n].bucket_start;
    let pred = in_bucket(short, s);
    let own = bucket_trades(trades, short, s);
    let mine = trades.filter(pred);
    assert(own.len() > 0);
    law_by_time_sorts_stably(mine, 0);
    assert(mine.len() > 0) by {
        assert(own.contains(own[0]));
        vstd::seq_lib::to_multiset_contains(own, own[0]);
        vstd::seq_lib::to_multiset_contains(mine, own[0]);
    }
    trades.lemma_filter_pred(pred, 0);
    assert(mine.contains(mine[0]));
    trades.lemma_filter_contains_rev(pred, mine[0]);
    let i = choose|i: int| 0 <= i < trades.len() && trades[i] == mine[0];
    law_windows_nest(trades[i].block_time as int, short as int, long as int);
    let start = bucket_start(trades[i].block_time as int, long as int);
    assert(has_candle(wide, start));
    let w = choose|w: int| 0 <= w < wide.len() && (#[trigger] wide[w]).bucket_start == start;
    assert forall|v: int| 0 <= v < wide.len() && v != w implies !in_window(
        long,
        (#[trigger] wide[v]).bucket_start,
    )(narrow[n]) by {
        if v < w {
            assert(wide[v].bucket_start < wide[w].bucket_start);
        } else {
            assert(wide[w].bucket_start < wide[v].bucket_start);
        }
    }
    w
}

/// The candles of five minutes are made of the candles of a minute, mint by
/// mint.
pub proof fn law_five_minutes_are_made_of_minutes(
    minute: Seq<MintCandlesView>,
    five_minutes: Seq<MintCandlesView>,
    trades: Seq<TradeView>,
    m: int,
    w: int,
)
    requires
        is_candles(minute, trades, 60),
        is_candles(five_minutes, trades, 300),
        valid_prices(trades),
        0 <= m < five_minutes.len(),
        0 <= w < five_minutes[m].candles.len(),
    ensures
        m < minute.len(),
        minute[m].mint == five_minutes[m].mint,
        ({
            let candle = five_minutes[m].candles[w];
            let inside = window_candles(minute[m].candles, 300, candle.bucket_start);
            &&& inside.len() > 0
            &&& candle.open == inside[0].open
            &&& candle.close == inside.last().close
            &&& candle.high == highest_high(inside)
            &&& candle.low == lowest_low(inside)
            &&& volume_value(candle.volume) == series_value(inside)
        }),
{
    let mints = first_seen(mints_of(trades));
    let pred = of_mint(mints[m]);
    let own = trades.filter(pred);
    assert(minute[m].mint == mints[m]);
    assert(five_minutes[m].mint == mints[m]);
    assert(valid_prices(own)) by {
        assert forall|i: int| 0 <= i < own.len() implies (
        #[trigger] own[i]).price_in_sol.valid() by {
            trades.lemma_filter_pred(pred, i);
            assert(own.contains(own[i]));
            trades.lemma_filter_contains_rev(pred, own[i]);
            let k = choose|k: int| 0 <= k < trades.len() && trades[k] == own[i];
            assert(trades[k].price_in_sol.valid());
        }
    }
    law_wide_candles_are_made_of_narrow_ones(
        minute[m].candles,
        five_minutes[m].candles,
        own,
        60,
        300,
        w,
    );
}

} // verus!
