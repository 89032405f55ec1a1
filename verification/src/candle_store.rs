//! Storing candles: one write for each, under its mint, interval and start.

use crate::candles::{
    has_candle, is_candles, is_series, mints_of, of_mint, CandleView, MintCandles, MintCandlesView,
};
use crate::index::{first_seen, lemma_first_seen};
use crate::ohlcv::TradeView;
use crate::pipeline::IntervalCandles;
use crate::storage::{StoreOp, StoreOpView};
use crate::tables::{apply, run_ops, Tables};
use vstd::prelude::*;

verus! {

/// The writes of one mint's candles.
pub open spec fn mint_writes(interval_sec: i32, one: MintCandlesView) -> Seq<StoreOpView> {
    Seq::new(
        one.candles.len(),
        |k: int|
            StoreOpView::UpsertCandle { mint: one.mint, interval_sec, candle: one.candles[k] },
    )
}

/// The writes of the candles of one interval, mint after mint.
pub open spec fn interval_writes(interval_sec: i32, series: Seq<MintCandlesView>) -> Seq<
    StoreOpView,
>
    decreases series.len(),
{
    if series.len() == 0 {
        Seq::empty()
    } else {
        interval_writes(interval_sec, series.drop_last()) + mint_writes(
            interval_sec,
            series.last(),
        )
    }
}

/// The writes of candles, interval after interval.
pub open spec fn candle_writes(intervals: Seq<(i32, Seq<MintCandlesView>)>) -> Seq<StoreOpView>
    decreases intervals.len(),
{
    if intervals.len() == 0 {
        Seq::empty()
    } else {
        candle_writes(intervals.drop_last()) + interval_writes(
            intervals.last().0,
            intervals.last().1,
        )
    }
}

/// Plans the writes of candles.
pub fn candle_ops(intervals: Vec<IntervalCandles>) -> (ops: Vec<StoreOp>)
    ensures
        ops.deep_view() == candle_writes(intervals.deep_view()),
{
    let ghost all = intervals.deep_view();
    let mut ops: Vec<StoreOp> = Vec::new();
    assert(all.take(0) =~= Seq::<(i32, Seq<MintCandlesView>)>::empty());
    assert(ops.deep_view() =~= candle_writes(all.take(0)));
    for interval in it: intervals
        invariant
            all == intervals.deep_view(),
            it.seq() == intervals@,
            ops.deep_view() == candle_writes(all.take(it.index())),
    {
        let ghost n = it.index();
        assert(all[n] == interval.deep_view());
        assert(all.take(n + 1).drop_last() =~= all.take(n));
        push_interval(interval.interval_sec, interval.series, &mut ops);
    }
    assert(all.take(all.len() as int) =~= all);
    ops
}

/// Appends the writes of one interval.
fn push_interval(
    interval_sec: i32,
    series: Vec<MintCandles>,
    ops: &mut Vec<StoreOp>,
)
    ensures
        final(ops).deep_view() == old(ops).deep_view() + interval_writes(
            interval_sec,
            series.deep_view(),
        ),
{
    let ghost first = ops.deep_view();
    let ghost all = series.deep_view();
    assert(all.take(0) =~= Seq::<MintCandlesView>::empty());
    assert(ops.deep_view() =~= first + interval_writes(interval_sec, all.take(0)));
    for one in it: series
        invariant
            all == series.deep_view(),
            it.seq() == series@,
            ops.deep_view() == first + interval_writes(interval_sec, all.take(it.index())),
    {
        let ghost n = it.index();
        assert(all[n] == one.deep_view());
        assert(all.take(n + 1).drop_last() =~= all.take(n));
        push_mint(interval_sec, one, ops);
        assert(ops.deep_view() =~= first + interval_writes(interval_sec, all.take(n + 1)));
    }
    assert(all.take(all.len() as int) =~= all);
}

/// Appends the writes of one mint.
fn push_mint(interval_sec: i32, one: MintCandles, ops: &mut Vec<StoreOp>)
    ensures
        final(ops).deep_view() == old(ops).deep_view() + mint_writes(
            interval_sec,
            one.deep_view(),
        ),
{
    let ghost first = ops.deep_view();
    let ghost all = mint_writes(interval_sec, one.deep_view());
    let mint = one.mint;
    let candles = one.candles;
    assert(ops.deep_view() =~= first + all.take(0));
    for candle in it: candles
        invariant
            all == mint_writes(interval_sec, one.deep_view()),
            mint@ == one.mint@,
            candles == one.candles,
            it.seq() == candles@,
            ops.deep_view() == first + all.take(it.index()),
    {
        let ghost n = it.index();
        let ghost before = ops.deep_view();
        assert(one.deep_view().candles[n] == candle.deep_view());
        let op = StoreOp::UpsertCandle { mint: mint.clone(), interval_sec, candle };
        ops.push(op);
        assert(op.deep_view() == all[n]);
        assert(ops.deep_view() =~= before.push(op.deep_view()));
        assert(ops.deep_view() =~= first + all.take(n + 1));
    }
    assert(all.take(all.len() as int) =~= all);
}

/// Whether a candle is stored for a mint and an interval.
pub open spec fn is_stored(
    t: Tables,
    interval_sec: i32,
    mint: Seq<char>,
    candle: CandleView,
) -> bool {
    t.candles.get((mint, interval_sec, candle.bucket_start)) == Some(candle)
}

/// Whether one of the series has a candle of a mint and a start.
pub open spec fn series_has(series: Seq<MintCandlesView>, mint: Seq<char>, start: i64) -> bool {
    exists|m: int|
        0 <= m < series.len() && (#[trigger] series[m]).mint == mint && has_candle(
            series[m].candles,
            start as int,
        )
}

/// Whether one of the intervals has a candle of a key.
pub open spec fn intervals_have(
    intervals: Seq<(i32, Seq<MintCandlesView>)>,
    key: (Seq<char>, i32, i64),
) -> bool {
    exists|n: int|
        0 <= n < intervals.len() && (#[trigger] intervals[n]).0 == key.1 && series_has(
            intervals[n].1,
            key.0,
            key.2,
        )
}

/// The tables agree in everything but candles.
pub open spec fn same_but_candles(a: Tables, b: Tables) -> bool {
    &&& a.blocks == b.blocks
    &&& a.transactions == b.transactions
    &&& a.steps == b.steps
    &&& a.locks == b.locks
    &&& a.token_changes == b.token_changes
    &&& a.statuses == b.statuses
}

/// Running writes after writes is running them all.
pub proof fn lemma_run_joined(t: Tables, a: Seq<StoreOpView>, b: Seq<StoreOpView>)
    ensures
        run_ops(t, a + b) == match run_ops(t, a) {
            Some(before) => run_ops(before, b),
            None => None,
        },
    decreases b.len(),
{
    if b.len() == 0 {
        assert(a + b =~= a);
    } else {
        assert((a + b).drop_last() =~= a + b.drop_last());
        lemma_run_joined(t, a, b.drop_last());
    }
}

/// Storing one mint's candles.
proof fn lemma_mint_stored(t: Tables, sec: i32, one: MintCandlesView)
    requires
        forall|i: int, j: int|
            0 <= i < j < one.candles.len() ==> (#[trigger] one.candles[i]).bucket_start < (
            #[trigger] one.candles[j]).bucket_start,
    ensures
        match run_ops(t, mint_writes(sec, one)) {
            None => false,
            Some(after) => {
                &&& same_but_candles(after, t)
                &&& forall|k: int|
                    0 <= k < one.candles.len() ==> is_stored(
                        after,
                        sec,
                        one.mint,
                        #[trigger] one.candles[k],
                    )
                &&& forall|key: (Seq<char>, i32, i64)|
                    !(key.0 == one.mint && key.1 == sec && has_candle(one.candles, key.2 as int))
                        ==> #[trigger] after.candles.get(key) == t.candles.get(key)
            },
        },
    decreases one.candles.len(),
{
    let ops = mint_writes(sec, one);
    if one.candles.len() > 0 {
        let n = one.candles.len() - 1;
        let less = MintCandlesView { mint: one.mint, candles: one.candles.drop_last() };
        assert forall|i: int, j: int| 0 <= i < j < less.candles.len() implies (
        #[trigger] less.candles[i]).bucket_start < (#[trigger] less.candles[j]).bucket_start by {
            assert(one.candles[i].bucket_start < one.candles[j].bucket_start);
        }
        lemma_mint_stored(t, sec, less);
        assert(ops.drop_last() =~= mint_writes(sec, less));
        let before = run_ops(t, ops.drop_last())->0;
        let after = run_ops(t, ops)->0;
        assert(apply(before, ops[n]) == Some(after));
        assert forall|k: int| 0 <= k < one.candles.len() implies is_stored(
            after,
            sec,
            one.mint,
            #[trigger] one.candles[k],
        ) by {
            if k < n {
                assert(less.candles[k] == one.candles[k]);
                assert(one.candles[k].bucket_start < one.candles[n].bucket_start);
            }
        }
        assert forall|key: (Seq<char>, i32, i64)|
            !(key.0 == one.mint && key.1 == sec && has_candle(
                one.candles,
                key.2 as int,
            )) implies #[trigger] after.candles.get(key) == t.candles.get(key) by {
            if key.0 == one.mint && key.1 == sec {
                assert(one.candles[n].bucket_start != key.2);
                if has_candle(less.candles, key.2 as int) {
                    let k = choose|k: int|
                        0 <= k < less.candles.len() && (#[trigger] less.candles[k]).bucket_start
                            == key.2;
                    assert(one.candles[k].bucket_start == key.2);
                }
            }
            assert(before.candles.get(key) == t.candles.get(key));
        }
    }
}

/// Whether the mints of series are distinct and each one's candles in order.
pub open spec fn is_keyed(series: Seq<MintCandlesView>) -> bool {
    &&& forall|i: int, j: int|
        0 <= i < j < series.len() ==> (#[trigger] series[i]).mint != (#[trigger] series[j]).mint
    &&& forall|m: int, i: int, j: int|
        0 <= m < series.len() && 0 <= i < j < series[m].candles.len() ==> (
        #[trigger] series[m].candles[i]).bucket_start < (
        #[trigger] series[m].candles[j]).bucket_start
}

/// The candles of trades have distinct keys.
pub proof fn law_candles_are_keyed(
    series: Seq<MintCandlesView>,
    trades: Seq<TradeView>,
    interval: i64,
)
    requires
        is_candles(series, trades, interval),
    ensures
        is_keyed(series),
{
    let mints = first_seen(mints_of(trades));
    lemma_first_seen(mints_of(trades));
    assert forall|i: int, j: int| 0 <= i < j < series.len() implies (#[trigger] series[i]).mint
        != (#[trigger] series[j]).mint by {
        assert(mints[i] != mints[j]);
    }
    assert forall|m: int, i: int, j: int|
        0 <= m < series.len() && 0 <= i < j < series[m].candles.len() implies (
    #[trigger] series[m].candles[i]).bucket_start < (
    #[trigger] series[m].candles[j]).bucket_start by {
        assert(is_series(
            series[m].candles,
            trades.filter(of_mint(mints[m])),
            interval,
        ));
    }
}

/// Storing the candles of one interval.
proof fn lemma_interval_stored(t: Tables, sec: i32, series: Seq<MintCandlesView>)
    requires
        is_keyed(series),
    ensures
        match run_ops(t, interval_writes(sec, series)) {
            None => false,
            Some(after) => {
                &&& same_but_candles(after, t)
                &&& forall|m: int, k: int|
                    0 <= m < series.len() && 0 <= k < series[m].candles.len() ==> is_stored(
                        after,
                        sec,
                        series[m].mint,
                        #[trigger] series[m].candles[k],
                    )
                &&& forall|key: (Seq<char>, i32, i64)|
                    !(key.1 == sec && series_has(series, key.0, key.2))
                        ==> #[trigger] after.candles.get(key) == t.candles.get(key)
            },
        },
    decreases series.len(),
{
    if series.len() > 0 {
        let d = series.drop_last();
        let n = series.len() - 1;
        let last = series.last();
        assert forall|i: int, j: int| 0 <= i < j < d.len() implies (#[trigger] d[i]).mint != (
        #[trigger] d[j]).mint by {
            assert(series[i].mint != series[j].mint);
        }
        assert forall|m: int, i: int, j: int|
            0 <= m < d.len() && 0 <= i < j < d[m].candles.len() implies (
        #[trigger] d[m].candles[i]).bucket_start < (#[trigger] d[m].candles[j]).bucket_start by {
            assert(series[m].candles[i].bucket_start < series[m].candles[j].bucket_start);
        }
        lemma_interval_stored(t, sec, d);
        lemma_run_joined(t, interval_writes(sec, d), mint_writes(sec, last));
        let before = run_ops(t, interval_writes(sec, d))->0;
        assert forall|i: int, j: int| 0 <= i < j < last.candles.len() implies (
        #[trigger] last.candles[i]).bucket_start < (#[trigger] last.candles[j]).bucket_start by {
            assert(series[n].candles[i].bucket_start < series[n].candles[j].bucket_start);
        }
        lemma_mint_stored(before, sec, last);
        let after = run_ops(t, interval_writes(sec, series))->0;
        assert forall|m: int, k: int|
            0 <= m < series.len() && 0 <= k < series[m].candles.len() implies is_stored(
            after,
            sec,
            series[m].mint,
            #[trigger] series[m].candles[k],
        ) by {
            if m < n {
                assert(d[m] == series[m]);
                assert(is_stored(before, sec, d[m].mint, d[m].candles[k]));
                assert(series[m].mint != series[n].mint);
            } else {
                assert(is_stored(after, sec, last.mint, last.candles[k]));
            }
        }
        assert forall|key: (Seq<char>, i32, i64)|
            !(key.1 == sec && series_has(series, key.0, key.2)) implies #[trigger] after.candles.get(
            key,
        ) == t.candles.get(key) by {
            if key.1 == sec {
                if series_has(d, key.0, key.2) {
                    let m = choose|m: int|
                        0 <= m < d.len() && (#[trigger] d[m]).mint == key.0 && has_candle(
                            d[m].candles,
                            key.2 as int,
                        );
                    assert(series[m].mint == key.0);
                }
                assert(!(series[n].mint == key.0 && has_candle(last.candles, key.2 as int)));
            }
            assert(before.candles.get(key) == t.candles.get(key));
        }
    }
}

/// Storing candles puts each under its mint, interval and start, replaces what
/// was there under that key, and touches nothing else: no other key, and no
/// other table.
pub proof fn law_candles_are_stored(t: Tables, intervals: Seq<(i32, Seq<MintCandlesView>)>)
    requires
        forall|i: int, j: int|
            0 <= i < j < intervals.len() ==> (#[trigger] intervals[i]).0 != (
            #[trigger] intervals[j]).0,
        forall|n: int| 0 <= n < intervals.len() ==> is_keyed((#[trigger] intervals[n]).1),
    ensures
        match run_ops(t, candle_writes(intervals)) {
            None => false,
            Some(after) => {
                &&& same_but_candles(after, t)
                &&& forall|n: int, m: int, k: int|
                    0 <= n < intervals.len() && 0 <= m < intervals[n].1.len() && 0 <= k
                        < intervals[n].1[m].candles.len() ==> is_stored(
                        after,
                        intervals[n].0,
                        intervals[n].1[m].mint,
                        #[trigger] intervals[n].1[m].candles[k],
                    )
                &&& forall|key: (Seq<char>, i32, i64)|
                    !intervals_have(intervals, key) ==> #[trigger] after.candles.get(key)
                        == t.candles.get(key)
            },
        },
    decreases intervals.len(),
{
    if intervals.len() > 0 {
        let d = intervals.drop_last();
        let n = intervals.len() - 1;
        let last = intervals.last();
        assert(intervals[n] == last);
        assert forall|i: int, j: int| 0 <= i < j < d.len() implies (#[trigger] d[i]).0 != (
        #[trigger] d[j]).0 by {
            assert(intervals[i].0 != intervals[j].0);
        }
        assert forall|i: int| 0 <= i < d.len() implies is_keyed((#[trigger] d[i]).1) by {
            assert(d[i] == intervals[i]);
        }
        law_candles_are_stored(t, d);
        lemma_run_joined(t, candle_writes(d), interval_writes(last.0, last.1));
        let before = run_ops(t, candle_writes(d))->0;
        lemma_interval_stored(before, last.0, last.1);
        let after = run_ops(t, candle_writes(intervals))->0;
        assert forall|i: int, m: int, k: int|
            0 <= i < intervals.len() && 0 <= m < intervals[i].1.len() && 0 <= k
                < intervals[i].1[m].candles.len() implies is_stored(
            after,
            intervals[i].0,
            intervals[i].1[m].mint,
            #[trigger] intervals[i].1[m].candles[k],
        ) by {
            if i < n {
                assert(d[i] == intervals[i]);
                assert(is_stored(before, d[i].0, d[i].1[m].mint, d[i].1[m].candles[k]));
                assert(intervals[i].0 != intervals[n].0);
            } else {
                assert(is_stored(after, last.0, last.1[m].mint, last.1[m].candles[k]));
            }
        }
        assert forall|key: (Seq<char>, i32, i64)|
            !intervals_have(intervals, key) implies #[trigger] after.candles.get(key)
            == t.candles.get(key) by {
            if intervals_have(d, key) {
                let i = choose|i: int|
                    0 <= i < d.len() && (#[trigger] d[i]).0 == key.1 && series_has(
                        d[i].1,
                        key.0,
                        key.2,
                    );
                assert(intervals[i].0 == key.1);
            }
            assert(!(intervals[n].0 == key.1 && series_has(last.1, key.0, key.2)));
            assert(before.candles.get(key) == t.candles.get(key));
        }
    }
}

/// The candles of a minute and of five minutes, of every mint, are all stored.
pub proof fn law_both_intervals_are_stored(
    t: Tables,
    trades: Seq<TradeView>,
    minute: Seq<MintCandlesView>,
    five_minutes: Seq<MintCandlesView>,
)
    requires
        is_candles(minute, trades, 60),
        is_candles(five_minutes, trades, 300),
    ensures
        match run_ops(t, candle_writes(seq![(60i32, minute), (300i32, five_minutes)])) {
            None => false,
            Some(after) => {
                &&& same_but_candles(after, t)
                &&& forall|m: int, k: int|
                    0 <= m < minute.len() && 0 <= k < minute[m].candles.len() ==> is_stored(
                        after,
                        60,
                        minute[m].mint,
                        #[trigger] minute[m].candles[k],
                    )
                &&& forall|m: int, k: int|
                    0 <= m < five_minutes.len() && 0 <= k < five_minutes[m].candles.len()
                        ==> is_stored(
                        after,
                        300,
                        five_minutes[m].mint,
                        #[trigger] five_minutes[m].candles[k],
                    )
                &&& forall|key: (Seq<char>, i32, i64)|
                    !(key.1 == 60 && series_has(minute, key.0, key.2)) && !(key.1 == 300
                        && series_has(five_minutes, key.0, key.2))
                        ==> #[trigger] after.candles.get(key) == t.candles.get(key)
            },
        },
{
    let intervals = seq![(60i32, minute), (300i32, five_minutes)];
    law_candles_are_keyed(minute, trades, 60);
    law_candles_are_keyed(five_minutes, trades, 300);
    law_candles_are_stored(t, intervals);
    let after = run_ops(t, candle_writes(intervals))->0;
    assert forall|m: int, k: int|
        0 <= m < minute.len() && 0 <= k < minute[m].candles.len() implies is_stored(
        after,
        60,
        minute[m].mint,
        #[trigger] minute[m].candles[k],
    ) by {
        assert(intervals[0].1[m].candles[k] == minute[m].candles[k]);
    }
    assert forall|m: int, k: int|
        0 <= m < five_minutes.len() && 0 <= k < five_minutes[m].candles.len() implies is_stored(
        after,
        300,
        five_minutes[m].mint,
        #[trigger] five_minutes[m].candles[k],
    ) by {
        assert(intervals[1].1[m].candles[k] == five_minutes[m].candles[k]);
    }
    assert forall|key: (Seq<char>, i32, i64)|
        !(key.1 == 60 && series_has(minute, key.0, key.2)) && !(key.1 == 300 && series_has(
            five_minutes,
            key.0,
            key.2,
        )) implies #[trigger] after.candles.get(key) == t.candles.get(key) by {
        assert(!intervals_have(intervals, key));
    }
}

} // verus!
