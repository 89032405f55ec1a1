//! Candles: the inferred trades of a mint, summed up over windows of time.

use crate::index::{first_seen, lemma_first_seen, lemma_first_seen_push, KeyIndex};
use crate::ohlcv::{InferredTrade, TradeView};
use crate::price::{law_prices_are_ordered, pow10, price_is_below, Amount, Price};
use vstd::prelude::*;

verus! {

/// The start of the window that a time falls into: the greatest multiple of
/// the interval that is not after it.
pub open spec fn bucket_start(time: int, interval: int) -> int {
    time - time % interval
}

/// Whether the window of a time can be computed.
pub open spec fn bucketable(time: i64, interval: i64) -> bool {
    interval != 0 && !(time == i64::MIN && interval == -1) && bucket_start(
        time as int,
        interval as int,
    ) >= i64::MIN
}

/// The start of the window that a time falls into.
pub fn bucket_of(time: i64, interval: i64) -> (start: i64)
    requires
        bucketable(time, interval),
    ensures
        start == bucket_start(time as int, interval as int),
{
    match time.checked_rem_euclid(interval) {
        Some(rest) => time - rest,
        None => time,
    }
}

/// Whether the window of a time can be computed.
pub fn is_bucketable(time: i64, interval: i64) -> (possible: bool)
    ensures
        possible == bucketable(time, interval),
{
    match time.checked_rem_euclid(interval) {
        Some(rest) => time.checked_sub(rest).is_some(),
        None => false,
    }
}

/// A window contains the times it is the window of, and starts at a multiple
/// of the interval.
pub proof fn law_bucket_contains_its_times(time: int, interval: int)
    requires
        interval > 0,
    ensures
        bucket_start(time, interval) <= time < bucket_start(time, interval) + interval,
        bucket_start(time, interval) % interval == 0,
        bucket_start(bucket_start(time, interval), interval) == bucket_start(time, interval),
{
    let b = bucket_start(time, interval);
    let q = time / interval;
    assert(time == interval * q + time % interval && 0 <= time % interval < interval)
        by (nonlinear_arith)
        requires
            interval > 0,
            q == time / interval,
    ;
    assert(b == interval * q);
    vstd::arithmetic::div_mod::lemma_mod_multiples_basic(q, interval);
    assert(q * interval == interval * q) by (nonlinear_arith);
}


/// Part of a volume: the sum of the amounts with one number of decimals.
#[derive(Debug, Clone, Copy, PartialEq, Eq, Structural)]
pub struct VolumePart {
    pub units: u128,
    pub decimals: u8,
}

/// The mathematical content of a [`VolumePart`].
pub struct VolumePartView {
    pub units: nat,
    pub decimals: u8,
}

impl DeepView for VolumePart {
    type V = VolumePartView;

    open spec fn deep_view(&self) -> VolumePartView {
        VolumePartView { units: self.units as nat, decimals: self.decimals }
    }
}

/// One candle: the trades of one mint in one window of time.
#[derive(Debug, Clone)]
pub struct Candle {
    pub bucket_start: i64,
    pub open: Price,
    pub high: Price,
    pub low: Price,
    pub close: Price,
    /// The sum of the volumes, one part for each number of decimals that occurs.
    pub volume: Vec<VolumePart>,
}

/// The mathematical content of a [`Candle`].
pub struct CandleView {
    pub bucket_start: i64,
    pub open: Price,
    pub high: Price,
    pub low: Price,
    pub close: Price,
    pub volume: Seq<VolumePartView>,
}

impl DeepView for Candle {
    type V = CandleView;

    open spec fn deep_view(&self) -> CandleView {
        CandleView {
            bucket_start: self.bucket_start,
            open: self.open,
            high: self.high,
            low: self.low,
            close: self.close,
            volume: self.volume.deep_view(),
        }
    }
}

/// The candles of one mint, in order of time.
#[derive(Debug, Clone)]
pub struct MintCandles {
    pub mint: String,
    pub candles: Vec<Candle>,
}

/// The mathematical content of [`MintCandles`].
pub struct MintCandlesView {
    pub mint: Seq<char>,
    pub candles: Seq<CandleView>,
}

impl DeepView for MintCandles {
    type V = MintCandlesView;

    open spec fn deep_view(&self) -> MintCandlesView {
        MintCandlesView { mint: self.mint@, candles: self.candles.deep_view() }
    }
}

/// Adds an amount to the part with its number of decimals, or as a new part.
pub open spec fn add_volume(parts: Seq<VolumePartView>, amount: Amount) -> Seq<VolumePartView>
    decreases parts.len(),
{
    if parts.len() == 0 {
        seq![VolumePartView { units: amount.units as nat, decimals: amount.decimals }]
    } else if parts[0].decimals == amount.decimals {
        parts.update(
            0,
            VolumePartView {
                units: parts[0].units + amount.units as nat,
                decimals: amount.decimals,
            },
        )
    } else {
        seq![parts[0]] + add_volume(parts.skip(1), amount)
    }
}

/// The sum of the volumes of trades.
pub open spec fn volume_of(trades: Seq<TradeView>) -> Seq<VolumePartView>
    decreases trades.len(),
{
    if trades.len() == 0 {
        Seq::empty()
    } else {
        add_volume(volume_of(trades.drop_last()), trades.last().volume_sol)
    }
}

/// The highest price of trades, of those the first.
pub open spec fn highest(trades: Seq<TradeView>) -> Price
    decreases trades.len(),
{
    if trades.len() <= 1 {
        trades[0].price_in_sol
    } else {
        let before = highest(trades.drop_last());
        if before.below(trades.last().price_in_sol) {
            trades.last().price_in_sol
        } else {
            before
        }
    }
}

/// The lowest price of trades, of those the first.
pub open spec fn lowest(trades: Seq<TradeView>) -> Price
    decreases trades.len(),
{
    if trades.len() <= 1 {
        trades[0].price_in_sol
    } else {
        let before = lowest(trades.drop_last());
        if trades.last().price_in_sol.below(before) {
            trades.last().price_in_sol
        } else {
            before
        }
    }
}

/// The candle of a window's trades, which are in order of time.
pub open spec fn candle_of(start: i64, trades: Seq<TradeView>) -> CandleView {
    CandleView {
        bucket_start: start,
        open: trades[0].price_in_sol,
        high: highest(trades),
        low: lowest(trades),
        close: trades.last().price_in_sol,
        volume: volume_of(trades),
    }
}

/// Puts a trade behind all that are not later.
pub open spec fn insert_by_time(sorted: Seq<TradeView>, trade: TradeView) -> Seq<TradeView>
    decreases sorted.len(),
{
    if sorted.len() > 0 && trade.block_time < sorted.last().block_time {
        insert_by_time(sorted.drop_last(), trade).push(sorted.last())
    } else {
        sorted.push(trade)
    }
}

/// Trades in order of time; those of one time keep their order.
pub open spec fn by_time(trades: Seq<TradeView>) -> Seq<TradeView>
    decreases trades.len(),
{
    if trades.len() == 0 {
        Seq::empty()
    } else {
        insert_by_time(by_time(trades.drop_last()), trades.last())
    }
}

/// Whether a trade is in a mint.
pub open spec fn of_mint(mint: Seq<char>) -> spec_fn(TradeView) -> bool {
    |trade: TradeView| trade.mint == mint
}

/// Whether a trade falls into the window that starts at `start`.
pub open spec fn in_bucket(interval: i64, start: i64) -> spec_fn(TradeView) -> bool {
    |trade: TradeView| bucket_start(trade.block_time as int, interval as int) == start
}

/// The trades of a window, in order of time.
pub open spec fn bucket_trades(trades: Seq<TradeView>, interval: i64, start: i64) -> Seq<
    TradeView,
> {
    by_time(trades.filter(in_bucket(interval, start)))
}

/// Whether one of the candles is of the window that starts at `start`.
pub open spec fn has_candle(candles: Seq<CandleView>, start: int) -> bool {
    exists|i: int| 0 <= i < candles.len() && (#[trigger] candles[i]).bucket_start == start
}

/// Whether these are the candles of one mint's trades: one for each window
/// that holds a trade, in order of time.
pub open spec fn is_series(candles: Seq<CandleView>, trades: Seq<TradeView>, interval: i64) -> bool {
    &&& forall|i: int, j: int|
        0 <= i < j < candles.len() ==> (#[trigger] candles[i]).bucket_start < (
        #[trigger] candles[j]).bucket_start
    &&& forall|i: int|
        0 <= i < candles.len() ==> {
            let own = bucket_trades(trades, interval, (#[trigger] candles[i]).bucket_start);
            own.len() > 0 && candles[i] == candle_of(candles[i].bucket_start, own)
        }
    &&& forall|k: int|
        0 <= k < trades.len() ==> has_candle(
            candles,
            bucket_start((#[trigger] trades[k]).block_time as int, interval as int),
        )
}

/// The mints of trades.
pub open spec fn mints_of(trades: Seq<TradeView>) -> Seq<Seq<char>> {
    Seq::new(trades.len(), |i: int| trades[i].mint)
}

/// Whether these are the candles of all trades: a series for each mint, the
/// mints in the order in which they first occur.
pub open spec fn is_candles(
    series: Seq<MintCandlesView>,
    trades: Seq<TradeView>,
    interval: i64,
) -> bool {
    let mints = first_seen(mints_of(trades));
    &&& series.len() == mints.len()
    &&& forall|m: int|
        0 <= m < mints.len() ==> {
            &&& (#[trigger] series[m]).mint == mints[m]
            &&& is_series(series[m].candles, trades.filter(of_mint(mints[m])), interval)
        }
}

proof fn lemma_add_volume_at(parts: Seq<VolumePartView>, amount: Amount, k: int)
    requires
        0 <= k <= parts.len(),
        forall|j: int| 0 <= j < k ==> (#[trigger] parts[j]).decimals != amount.decimals,
    ensures
        add_volume(parts, amount) == parts.take(k) + add_volume(parts.skip(k), amount),
    decreases k,
{
    if k == 0 {
        assert(parts.skip(0) =~= parts);
        assert(parts.take(0) + add_volume(parts, amount) =~= add_volume(parts, amount));
    } else {
        let rest = parts.skip(1);
        assert forall|j: int| 0 <= j < k - 1 implies (#[trigger] rest[j]).decimals
            != amount.decimals by {
            assert(rest[j] == parts[j + 1]);
        }
        lemma_add_volume_at(rest, amount, k - 1);
        assert(rest.skip(k - 1) =~= parts.skip(k));
        assert(seq![parts[0]] + rest.take(k - 1) =~= parts.take(k));
        assert(add_volume(parts, amount) =~= parts.take(k) + add_volume(parts.skip(k), amount));
    }
}

/// Adds the volume of one more trade; `count` bounds how many were added.
fn add_to_volume(parts: &mut Vec<VolumePart>, amount: Amount, Ghost(count): Ghost<int>)
    requires
        0 <= count < u64::MAX,
        forall|j: int|
            0 <= j < old(parts)@.len() ==> (#[trigger] old(parts)@[j]).units <= count * u64::MAX,
    ensures
        final(parts).deep_view() == add_volume(old(parts).deep_view(), amount),
        forall|j: int|
            0 <= j < final(parts)@.len() ==> (#[trigger] final(parts)@[j]).units <= (count + 1)
                * u64::MAX,
{
    let ghost before = parts.deep_view();
    assert((count + 1) * u64::MAX == count * u64::MAX + u64::MAX) by (nonlinear_arith);
    assert((count + 1) * u64::MAX <= u128::MAX) by (nonlinear_arith)
        requires
            0 <= count < u64::MAX,
    ;
    let mut k: usize = 0;
    while k < parts.len() && parts[k].decimals != amount.decimals
        invariant
            k <= parts@.len(),
            before == parts.deep_view(),
            forall|j: int| 0 <= j < k ==> (#[trigger] before[j]).decimals != amount.decimals,
        decreases parts@.len() - k,
    {
        assert(before[k as int] == parts@[k as int].deep_view());
        k += 1;
    }
    proof {
        lemma_add_volume_at(before, amount, k as int);
    }
    if k < parts.len() {
        assert(before.skip(k as int)[0] == parts@[k as int].deep_view());
        let units: u128 = parts[k].units + amount.units as u128;
        parts.set(k, VolumePart { units, decimals: amount.decimals });
        assert(parts.deep_view() =~= add_volume(before, amount));
    } else {
        assert(before.take(k as int) =~= before);
        assert(before.skip(k as int) =~= Seq::<VolumePartView>::empty());
        parts.push(VolumePart { units: amount.units as u128, decimals: amount.decimals });
        assert(parts.deep_view() =~= add_volume(before, amount));
    }
}

/// Sums up the trades of one window.
fn build_candle(start: i64, trades: &Vec<&InferredTrade>) -> (candle: Candle)
    requires
        trades@.len() > 0,
    ensures
        candle.deep_view() == candle_of(start, trades.deep_view()),
{
    let ghost all = trades.deep_view();
    let mut high: Price = trades[0].price_in_sol;
    let mut low: Price = trades[0].price_in_sol;
    let mut volume: Vec<VolumePart> = Vec::new();
    assert(all.take(0) =~= Seq::<TradeView>::empty());
    assert(volume.deep_view() =~= volume_of(all.take(0)));
    let mut i: usize = 0;
    while i < trades.len()
        invariant
            i <= trades@.len(),
            trades@.len() > 0,
            all == trades.deep_view(),
            i == 0 ==> high == all[0].price_in_sol && low == all[0].price_in_sol,
            i > 0 ==> high == highest(all.take(i as int)) && low == lowest(all.take(i as int)),
            volume.deep_view() == volume_of(all.take(i as int)),
            forall|j: int|
                0 <= j < volume@.len() ==> (#[trigger] volume@[j]).units <= i * u64::MAX,
        decreases trades@.len() - i,
    {
        let trade = trades[i];
        assert(trade.deep_view() == all[i as int]);
        assert(all.take(i + 1).drop_last() =~= all.take(i as int));
        if i > 0 {
            if price_is_below(&high, &trade.price_in_sol) {
                high = trade.price_in_sol;
            }
            if price_is_below(&trade.price_in_sol, &low) {
                low = trade.price_in_sol;
            }
        }
        add_to_volume(&mut volume, trade.volume_sol, Ghost(i as int));
        i += 1;
    }
    assert(all.take(i as int) =~= all);
    let last: usize = trades.len() - 1;
    Candle {
        bucket_start: start,
        open: trades[0].price_in_sol,
        high,
        low,
        close: trades[last].price_in_sol,
        volume,
    }
}

/// The trades of one window, in order of time.
struct Bucket<'a> {
    start: i64,
    trades: Vec<&'a InferredTrade>,
}

/// What a [`Bucket`] stands for.
#[verifier::ext_equal]
struct BucketView {
    start: i64,
    trades: Seq<TradeView>,
}

impl<'a> DeepView for Bucket<'a> {
    type V = BucketView;

    closed spec fn deep_view(&self) -> BucketView {
        BucketView { start: self.start, trades: self.trades.deep_view() }
    }
}

spec fn has_bucket(buckets: Seq<BucketView>, start: int) -> bool {
    exists|i: int| 0 <= i < buckets.len() && (#[trigger] buckets[i]).start == start
}

/// Whether these are the windows that hold the trades, in order of time.
spec fn is_bucketing(buckets: Seq<BucketView>, trades: Seq<TradeView>, interval: i64) -> bool {
    &&& forall|i: int, j: int|
        0 <= i < j < buckets.len() ==> (#[trigger] buckets[i]).start < (
        #[trigger] buckets[j]).start
    &&& forall|i: int|
        0 <= i < buckets.len() ==> {
            &&& (#[trigger] buckets[i]).trades == bucket_trades(trades, interval, buckets[i].start)
            &&& buckets[i].trades.len() > 0
        }
    &&& forall|k: int|
        0 <= k < trades.len() ==> has_bucket(
            buckets,
            bucket_start((#[trigger] trades[k]).block_time as int, interval as int),
        )
}

/// Everything from `k` on is later than the trade, which is put before it.
proof fn lemma_insert_by_time_tail(sorted: Seq<TradeView>, trade: TradeView, k: int)
    requires
        0 <= k <= sorted.len(),
        forall|j: int|
            k <= j < sorted.len() ==> trade.block_time < (#[trigger] sorted[j]).block_time,
    ensures
        insert_by_time(sorted, trade) == insert_by_time(sorted.take(k), trade) + sorted.skip(k),
    decreases sorted.len() - k,
{
    if k == sorted.len() {
        assert(sorted.take(k) =~= sorted);
        assert(insert_by_time(sorted, trade) =~= insert_by_time(sorted.take(k), trade)
            + sorted.skip(k));
    } else {
        let d = sorted.drop_last();
        assert forall|j: int| k <= j < d.len() implies trade.block_time < (
        #[trigger] d[j]).block_time by {
            assert(d[j] == sorted[j]);
        }
        lemma_insert_by_time_tail(d, trade, k);
        assert(trade.block_time < sorted[sorted.len() - 1].block_time);
        assert(d.take(k) =~= sorted.take(k));
        assert(insert_by_time(sorted, trade) =~= insert_by_time(sorted.take(k), trade)
            + sorted.skip(k));
    }
}

/// Inserts a trade in order of time.
fn insert_trade<'a>(trades: &mut Vec<&'a InferredTrade>, trade: &'a InferredTrade)
    ensures
        final(trades).deep_view() == insert_by_time(old(trades).deep_view(), trade.deep_view()),
{
    let ghost before = trades.deep_view();
    let mut p: usize = trades.len();
    while p > 0 && trade.block_time < trades[p - 1].block_time
        invariant
            p <= trades@.len(),
            before == trades.deep_view(),
            forall|j: int|
                p <= j < before.len() ==> trade.block_time < (#[trigger] before[j]).block_time,
        decreases p,
    {
        assert(before[p - 1] == trades@[p - 1].deep_view());
        p -= 1;
    }
    proof {
        lemma_insert_by_time_tail(before, trade.deep_view(), p as int);
        if p > 0 {
            assert(before.take(p as int).last() == trades@[p - 1].deep_view());
        }
    }
    trades.insert(p, trade);
    assert(trades.deep_view() =~= before.take(p as int).push(trade.deep_view()) + before.skip(
        p as int,
    ));
}

proof fn lemma_insert_by_time_len(sorted: Seq<TradeView>, trade: TradeView)
    ensures
        insert_by_time(sorted, trade).len() == sorted.len() + 1,
    decreases sorted.len(),
{
    if sorted.len() > 0 && trade.block_time < sorted.last().block_time {
        lemma_insert_by_time_len(sorted.drop_last(), trade);
    }
}

/// One more trade changes its own window only.
proof fn lemma_bucket_push(trades: Seq<TradeView>, trade: TradeView, interval: i64, start: i64)
    ensures
        bucket_trades(trades.push(trade), interval, start) == if bucket_start(
            trade.block_time as int,
            interval as int,
        ) == start {
            insert_by_time(bucket_trades(trades, interval, start), trade)
        } else {
            bucket_trades(trades, interval, start)
        },
{
    trades.lemma_filter_push(trade, in_bucket(interval, start));
    let own = trades.filter(in_bucket(interval, start));
    assert(own.push(trade).drop_last() =~= own);
}

/// A window that no trade falls into is empty.
proof fn lemma_bucket_empty(trades: Seq<TradeView>, interval: i64, start: i64)
    requires
        forall|k: int|
            0 <= k < trades.len() ==> bucket_start(
                (#[trigger] trades[k]).block_time as int,
                interval as int,
            ) != start,
    ensures
        bucket_trades(trades, interval, start) == Seq::<TradeView>::empty(),
{
    trades.lemma_all_neg_filter_empty(in_bucket(interval, start));
}

/// Puts a trade into its window.
fn add_to_buckets<'a>(
    buckets: &mut Vec<Bucket<'a>>,
    trade: &'a InferredTrade,
    start: i64,
    Ghost(trades): Ghost<Seq<TradeView>>,
    Ghost(interval): Ghost<i64>,
)
    requires
        is_bucketing(old(buckets).deep_view(), trades, interval),
        start == bucket_start(trade.block_time as int, interval as int),
    ensures
        is_bucketing(final(buckets).deep_view(), trades.push(trade.deep_view()), interval),
{
    let ghost before = buckets.deep_view();
    let ghost tv = trade.deep_view();
    let ghost after = trades.push(tv);
    let mut p: usize = buckets.len();
    while p > 0 && start < buckets[p - 1].start
        invariant
            p <= buckets@.len(),
            before == buckets.deep_view(),
            forall|j: int| p <= j < before.len() ==> start < (#[trigger] before[j]).start,
        decreases p,
    {
        assert(before[p - 1] == buckets@[p - 1].deep_view());
        p -= 1;
    }
    if p > 0 {
        assert(before[p - 1] == buckets@[p - 1].deep_view());
    }
    if p > 0 && buckets[p - 1].start == start {
        insert_trade(&mut buckets[p - 1].trades, trade);
        let ghost now = buckets.deep_view();
        proof {
            lemma_insert_by_time_len(before[p - 1].trades, tv);
            assert(now =~= before.update(
                p - 1,
                BucketView { start, trades: insert_by_time(before[p - 1].trades, tv) },
            ));
            assert forall|i: int, j: int| 0 <= i < j < now.len() implies (
            #[trigger] now[i]).start < (#[trigger] now[j]).start by {
                assert(before[i].start == now[i].start && before[j].start == now[j].start);
            }
            assert forall|i: int| 0 <= i < now.len() implies {
                &&& (#[trigger] now[i]).trades == bucket_trades(after, interval, now[i].start)
                &&& now[i].trades.len() > 0
            } by {
                lemma_bucket_push(trades, tv, interval, now[i].start);
                assert(before[i].start == now[i].start);
            }
            assert forall|k: int| 0 <= k < after.len() implies has_bucket(
                now,
                bucket_start((#[trigger] after[k]).block_time as int, interval as int),
            ) by {
                if k < trades.len() {
                    assert(after[k] == trades[k]);
                    assert(has_bucket(
                        before,
                        bucket_start(trades[k].block_time as int, interval as int),
                    ));
                    let i = choose|i: int|
                        0 <= i < before.len() && (#[trigger] before[i]).start == bucket_start(
                            trades[k].block_time as int,
                            interval as int,
                        );
                    assert(now[i].start == before[i].start);
                } else {
                    assert(now[p - 1].start == start);
                }
            }
        }
    } else {
        let mut own: Vec<&'a InferredTrade> = Vec::new();
        own.push(trade);
        assert(own.deep_view() =~= seq![tv]);
        buckets.insert(p, Bucket { start, trades: own });
        let ghost now = buckets.deep_view();
        proof {
            assert(now =~= before.insert(p as int, BucketView { start, trades: seq![tv] }));
            assert forall|k: int| 0 <= k < trades.len() implies bucket_start(
                (#[trigger] trades[k]).block_time as int,
                interval as int,
            ) != start by {
                let i = choose|i: int|
                    0 <= i < before.len() && (#[trigger] before[i]).start == bucket_start(
                        trades[k].block_time as int,
                        interval as int,
                    );
                if i < p - 1 {
                    assert(before[i].start < before[p - 1].start);
                }
            }
            lemma_bucket_empty(trades, interval, start);
            lemma_bucket_push(trades, tv, interval, start);
            assert(insert_by_time(Seq::empty(), tv) =~= seq![tv]);
            assert forall|i: int, j: int| 0 <= i < j < now.len() implies (
            #[trigger] now[i]).start < (#[trigger] now[j]).start by {
                if i < p {
                    assert(now[i] == before[i]);
                    if i < p - 1 {
                        assert(before[i].start < before[p - 1].start);
                    }
                } else if i > p {
                    assert(now[i] == before[i - 1]);
                }
                if j > p {
                    assert(now[j] == before[j - 1]);
                } else if j < p {
                    assert(now[j] == before[j]);
                }
            }
            assert forall|i: int| 0 <= i < now.len() implies {
                &&& (#[trigger] now[i]).trades == bucket_trades(after, interval, now[i].start)
                &&& now[i].trades.len() > 0
            } by {
                lemma_bucket_push(trades, tv, interval, now[i].start);
                if i < p {
                    assert(now[i] == before[i]);
                    if i < p - 1 {
                        assert(before[i].start < before[p - 1].start);
                    }
                } else if i > p {
                    assert(now[i] == before[i - 1]);
                }
            }
            assert forall|k: int| 0 <= k < after.len() implies has_bucket(
                now,
                bucket_start((#[trigger] after[k]).block_time as int, interval as int),
            ) by {
                if k < trades.len() {
                    assert(after[k] == trades[k]);
                    assert(has_bucket(
                        before,
                        bucket_start(trades[k].block_time as int, interval as int),
                    ));
                    let i = choose|i: int|
                        0 <= i < before.len() && (#[trigger] before[i]).start == bucket_start(
                            trades[k].block_time as int,
                            interval as int,
                        );
                    if i < p {
                        assert(now[i].start == before[i].start);
                    } else {
                        assert(now[i + 1].start == before[i].start);
                    }
                } else {
                    assert(now[p as int].start == start);
                }
            }
        }
    }
}

/// Sums up every window of one mint.
fn build_series<'a>(
    buckets: &Vec<Bucket<'a>>,
    Ghost(trades): Ghost<Seq<TradeView>>,
    Ghost(interval): Ghost<i64>,
) -> (candles: Vec<Candle>)
    requires
        is_bucketing(buckets.deep_view(), trades, interval),
    ensures
        is_series(candles.deep_view(), trades, interval),
{
    let ghost all = buckets.deep_view();
    let mut candles: Vec<Candle> = Vec::new();
    let mut i: usize = 0;
    while i < buckets.len()
        invariant
            i <= buckets@.len(),
            all == buckets.deep_view(),
            is_bucketing(all, trades, interval),
            candles@.len() == i,
            forall|j: int|
                0 <= j < i ==> (#[trigger] candles.deep_view()[j]) == candle_of(
                    all[j].start,
                    all[j].trades,
                ),
        decreases buckets@.len() - i,
    {
        let ghost before = candles.deep_view();
        assert(all[i as int] == buckets@[i as int].deep_view());
        let candle = build_candle(buckets[i].start, &buckets[i].trades);
        candles.push(candle);
        assert(candles.deep_view() =~= before.push(candle.deep_view()));
        i += 1;
    }
    let ghost cs = candles.deep_view();
    assert forall|i: int, j: int| 0 <= i < j < cs.len() implies (#[trigger] cs[i]).bucket_start < (
    #[trigger] cs[j]).bucket_start by {
        assert(all[i].start < all[j].start);
    }
    assert forall|i: int| 0 <= i < cs.len() implies {
        let own = bucket_trades(trades, interval, (#[trigger] cs[i]).bucket_start);
        own.len() > 0 && cs[i] == candle_of(cs[i].bucket_start, own)
    } by {
        assert(all[i].trades == bucket_trades(trades, interval, all[i].start));
    }
    assert forall|k: int| 0 <= k < trades.len() implies has_candle(
        cs,
        bucket_start((#[trigger] trades[k]).block_time as int, interval as int),
    ) by {
        let i = choose|i: int|
            0 <= i < all.len() && (#[trigger] all[i]).start == bucket_start(
                trades[k].block_time as int,
                interval as int,
            );
        assert(cs[i].bucket_start == all[i].start);
    }
    candles
}

/// Sums up trades into candles of a fixed interval in seconds, 60 for a minute.
pub fn build_candles(trades: &[InferredTrade], interval_seconds: i64) -> (series: Vec<MintCandles>)
    requires
        forall|k: int|
            0 <= k < trades@.len() ==> bucketable(
                (#[trigger] trades@[k]).block_time,
                interval_seconds,
            ),
    ensures
        is_candles(series.deep_view(), trades.deep_view(), interval_seconds),
{
    let ghost all = trades.deep_view();
    let mut mints = KeyIndex::new();
    let mut books: Vec<Vec<Bucket<'_>>> = Vec::new();
    let mut i: usize = 0;
    assert(mints_of(all.take(0)) =~= Seq::<Seq<char>>::empty());
    while i < trades.len()
        invariant
            i <= trades@.len(),
            all == trades.deep_view(),
            forall|k: int|
                0 <= k < trades@.len() ==> bucketable(
                    (#[trigger] trades@[k]).block_time,
                    interval_seconds,
                ),
            mints.wf(),
            mints@ == first_seen(mints_of(all.take(i as int))),
            books@.len() == mints@.len(),
            forall|m: int|
                0 <= m < books@.len() ==> is_bucketing(
                    (#[trigger] books@[m]).deep_view(),
                    all.take(i as int).filter(of_mint(mints@[m])),
                    interval_seconds,
                ),
        decreases trades@.len() - i,
    {
        let trade = &trades[i];
        let ghost tv = trade.deep_view();
        let ghost prior = all.take(i as int);
        let ghost old_mints = mints@;
        let ghost old_books = books@;
        assert(all.take(i + 1) =~= prior.push(tv));
        proof {
            assert(mints_of(prior.push(tv)) =~= mints_of(prior).push(tv.mint));
            lemma_first_seen_push(mints_of(prior), tv.mint);
            lemma_first_seen(mints_of(prior));
        }
        let pos: usize = mints.find_or_add(trade.mint.as_str());
        proof {
            mints.lemma_no_duplicates();
        }
        if pos == books.len() {
            books.push(Vec::new());
            proof {
                assert(!old_mints.contains(tv.mint)) by {
                    if old_mints.contains(tv.mint) {
                        assert(mints@ == old_mints);
                    }
                }
                assert(!mints_of(prior).contains(tv.mint));
                assert forall|k: int| 0 <= k < prior.len() implies !of_mint(tv.mint)(
                    #[trigger] prior[k],
                ) by {
                    assert(mints_of(prior)[k] == prior[k].mint);
                }
                prior.lemma_all_neg_filter_empty(of_mint(tv.mint));
                assert(books@[pos as int].deep_view() =~= Seq::<BucketView>::empty());
            }
        } else {
            assert(old_mints.contains(tv.mint)) by {
                if !old_mints.contains(tv.mint) {
                    assert(mints@[pos as int] == old_mints[pos as int]);
                    assert(old_mints.contains(old_mints[pos as int]));
                }
            }
        }
        assert forall|m: int| 0 <= m < books@.len() implies is_bucketing(
            (#[trigger] books@[m]).deep_view(),
            prior.filter(of_mint(mints@[m])),
            interval_seconds,
        ) by {
            if m < old_books.len() {
                assert(books@[m] == old_books[m]);
                assert(mints@[m] == old_mints[m]);
            }
        }
        let start: i64 = bucket_of(trade.block_time, interval_seconds);
        add_to_buckets(
            &mut books[pos],
            trade,
            start,
            Ghost(prior.filter(of_mint(tv.mint))),
            Ghost(interval_seconds),
        );
        assert forall|m: int| 0 <= m < books@.len() implies is_bucketing(
            (#[trigger] books@[m]).deep_view(),
            all.take(i + 1).filter(of_mint(mints@[m])),
            interval_seconds,
        ) by {
            prior.lemma_filter_push(tv, of_mint(mints@[m]));
            if m != pos {
                assert(mints@[m] != mints@[pos as int]);
            }
        }
        i += 1;
    }
    assert(all.take(i as int) =~= all);
    let mut series: Vec<MintCandles> = Vec::new();
    let mut m: usize = 0;
    while m < books.len()
        invariant
            m <= books@.len(),
            mints@ == first_seen(mints_of(all)),
            books@.len() == mints@.len(),
            forall|m: int|
                0 <= m < books@.len() ==> is_bucketing(
                    (#[trigger] books@[m]).deep_view(),
                    all.filter(of_mint(mints@[m])),
                    interval_seconds,
                ),
            series@.len() == m,
            forall|j: int|
                0 <= j < m ==> {
                    &&& (#[trigger] series.deep_view()[j]).mint == mints@[j]
                    &&& is_series(
                        series.deep_view()[j].candles,
                        all.filter(of_mint(mints@[j])),
                        interval_seconds,
                    )
                },
        decreases books@.len() - m,
    {
        let ghost before = series.deep_view();
        let candles = build_series(
            &books[m],
            Ghost(all.filter(of_mint(mints@[m as int]))),
            Ghost(interval_seconds),
        );
        let one = MintCandles { mint: mints.key(m).clone(), candles };
        series.push(one);
        assert(series.deep_view() =~= before.push(one.deep_view()));
        m += 1;
    }
    series
}

/// A candle's high is one of its prices, and no price is above it; its low is
/// one of its prices, and no price is below it.
pub proof fn law_high_and_low_bound_the_prices(start: i64, trades: Seq<TradeView>)
    requires
        trades.len() > 0,
        forall|i: int| 0 <= i < trades.len() ==> (#[trigger] trades[i]).price_in_sol.valid(),
    ensures
        ({
            let candle = candle_of(start, trades);
            &&& forall|i: int|
                0 <= i < trades.len() ==> {
                    &&& !candle.high.below((#[trigger] trades[i]).price_in_sol)
                    &&& !trades[i].price_in_sol.below(candle.low)
                }
            &&& exists|i: int|
                0 <= i < trades.len() && (#[trigger] trades[i]).price_in_sol == candle.high
            &&& exists|i: int|
                0 <= i < trades.len() && (#[trigger] trades[i]).price_in_sol == candle.low
        }),
    decreases trades.len(),
{
    let high = highest(trades);
    let low = lowest(trades);
    if trades.len() == 1 {
        let p = trades[0].price_in_sol;
        law_prices_are_ordered(p, p, p);
    } else {
        let d = trades.drop_last();
        let last = trades.last().price_in_sol;
        assert forall|i: int| 0 <= i < d.len() implies (#[trigger] d[i]).price_in_sol.valid() by {
            assert(d[i] == trades[i]);
        }
        law_high_and_low_bound_the_prices(start, d);
        let h = choose|i: int| 0 <= i < d.len() && (#[trigger] d[i]).price_in_sol == highest(d);
        let l = choose|i: int| 0 <= i < d.len() && (#[trigger] d[i]).price_in_sol == lowest(d);
        assert(trades[h].price_in_sol == highest(d) && trades[l].price_in_sol == lowest(d));
        assert(trades[trades.len() - 1].price_in_sol == last);
        law_prices_are_ordered(last, last, last);
        assert forall|i: int| 0 <= i < trades.len() implies {
            &&& !high.below((#[trigger] trades[i]).price_in_sol)
            &&& !trades[i].price_in_sol.below(low)
        } by {
            let p = trades[i].price_in_sol;
            if i < d.len() {
                assert(d[i] == trades[i]);
                law_prices_are_ordered(highest(d), last, p);
                law_prices_are_ordered(p, last, lowest(d));
            }
        }
    }
}

/// Where each trade of [`by_time`] comes from.
spec fn insert_position(sorted: Seq<TradeView>, trade: TradeView) -> int
    decreases sorted.len(),
{
    if sorted.len() > 0 && trade.block_time < sorted.last().block_time {
        insert_position(sorted.drop_last(), trade)
    } else {
        sorted.len() as int
    }
}

proof fn lemma_insert_position(sorted: Seq<TradeView>, trade: TradeView)
    ensures
        0 <= insert_position(sorted, trade) <= sorted.len(),
        insert_by_time(sorted, trade) == sorted.insert(insert_position(sorted, trade), trade),
        forall|j: int|
            insert_position(sorted, trade) <= j < sorted.len() ==> trade.block_time < (
            #[trigger] sorted[j]).block_time,
        insert_position(sorted, trade) > 0 ==> sorted[insert_position(sorted, trade)
            - 1].block_time <= trade.block_time,
    decreases sorted.len(),
{
    if sorted.len() > 0 && trade.block_time < sorted.last().block_time {
        let d = sorted.drop_last();
        lemma_insert_position(d, trade);
        let p = insert_position(d, trade);
        assert forall|j: int| p <= j < sorted.len() implies trade.block_time < (
        #[trigger] sorted[j]).block_time by {
            if j < d.len() {
                assert(d[j] == sorted[j]);
            }
        }
        assert(insert_by_time(sorted, trade) =~= sorted.insert(p, trade));
    } else {
        assert(insert_by_time(sorted, trade) =~= sorted.insert(sorted.len() as int, trade));
    }
}

/// Ordering by time keeps every trade, puts none before an earlier one, and
/// keeps the order of those of one time.
pub proof fn law_by_time_sorts_stably(trades: Seq<TradeView>, time: i64)
    ensures
        forall|i: int, j: int|
            0 <= i <= j < by_time(trades).len() ==> (#[trigger] by_time(trades)[i]).block_time <= (
            #[trigger] by_time(trades)[j]).block_time,
        by_time(trades).to_multiset() == trades.to_multiset(),
        by_time(trades).filter(at_time(time)) == trades.filter(at_time(time)),
    decreases trades.len(),
{
    if trades.len() > 0 {
        let d = trades.drop_last();
        let x = trades.last();
        law_by_time_sorts_stably(d, time);
        let before = by_time(d);
        let now = by_time(trades);
        lemma_insert_position(before, x);
        let p = insert_position(before, x);
        assert forall|i: int, j: int| 0 <= i <= j < now.len() implies (
        #[trigger] now[i]).block_time <= (#[trigger] now[j]).block_time by {
            if i < p - 1 {
                assert(before[i].block_time <= before[p - 1].block_time);
            }
            if i < p && j < p {
                assert(before[i].block_time <= before[j].block_time);
            } else if i < p && j > p {
                assert(before[i].block_time <= before[j - 1].block_time);
            } else if i > p {
                assert(before[i - 1].block_time <= before[j - 1].block_time);
            } else if i == p && j > p {
                assert(x.block_time < before[j - 1].block_time);
            }
        }
        vstd::seq_lib::to_multiset_insert(before, p, x);
        vstd::seq_lib::to_multiset_build(d, x);
        assert(trades =~= d.push(x));
        lemma_stable(before, x, p, time);
        d.lemma_filter_push(x, at_time(time));
    } else {
        assert(by_time(trades) =~= trades);
    }
}

/// Whether a trade is of a time.
pub open spec fn at_time(time: i64) -> spec_fn(TradeView) -> bool {
    |trade: TradeView| trade.block_time == time
}

proof fn lemma_stable(sorted: Seq<TradeView>, x: TradeView, p: int, time: i64)
    requires
        0 <= p <= sorted.len(),
        forall|j: int| p <= j < sorted.len() ==> x.block_time < (#[trigger] sorted[j]).block_time,
    ensures
        sorted.insert(p, x).filter(at_time(time)) == if x.block_time == time {
            sorted.filter(at_time(time)).push(x)
        } else {
            sorted.filter(at_time(time))
        },
{
    let head = sorted.take(p);
    let tail = sorted.skip(p);
    let pred = at_time(time);
    assert(sorted =~= head + tail);
    assert(sorted.insert(p, x) =~= head.push(x) + tail);
    Seq::filter_distributes_over_add(head, tail, pred);
    Seq::filter_distributes_over_add(head.push(x), tail, pred);
    head.lemma_filter_push(x, pred);
    if x.block_time == time {
        assert forall|j: int| 0 <= j < tail.len() implies !pred(#[trigger] tail[j]) by {
            assert(tail[j] == sorted[p + j]);
        }
        tail.lemma_all_neg_filter_empty(pred);
        assert(head.filter(pred).push(x) + tail.filter(pred) =~= (head.filter(pred) + tail.filter(
            pred,
        )).push(x));
    }
}

/// Trades have only one series of candles.
pub proof fn law_series_is_unique(
    a: Seq<CandleView>,
    b: Seq<CandleView>,
    trades: Seq<TradeView>,
    interval: i64,
)
    requires
        is_series(a, trades, interval),
        is_series(b, trades, interval),
    ensures
        a == b,
{
    lemma_series_within(a, b, trades, interval);
    lemma_series_within(b, a, trades, interval);
    if a.len() == b.len() {
        lemma_series_prefix(a, b, trades, interval, a.len() as int);
    }
    if a.len() < b.len() {
        lemma_series_prefix(a, b, trades, interval, a.len() as int);
        let j = choose|j: int|
            0 <= j < a.len() && (#[trigger] a[j]).bucket_start == b[a.len() as int].bucket_start;
        assert(a.take(a.len() as int)[j] == b.take(a.len() as int)[j]);
        assert(b[j].bucket_start < b[a.len() as int].bucket_start);
    }
    if b.len() < a.len() {
        lemma_series_prefix(a, b, trades, interval, b.len() as int);
        let j = choose|j: int|
            0 <= j < b.len() && (#[trigger] b[j]).bucket_start == a[b.len() as int].bucket_start;
        assert(a.take(b.len() as int)[j] == b.take(b.len() as int)[j]);
        assert(a[j].bucket_start < a[b.len() as int].bucket_start);
    }
    assert(a.take(a.len() as int) =~= a);
    assert(b.take(b.len() as int) =~= b);
}

/// Each window of one series is a window of the other.
proof fn lemma_series_within(
    a: Seq<CandleView>,
    b: Seq<CandleView>,
    trades: Seq<TradeView>,
    interval: i64,
)
    requires
        is_series(a, trades, interval),
        is_series(b, trades, interval),
    ensures
        forall|i: int|
            0 <= i < a.len() ==> has_candle(b, (#[trigger] a[i]).bucket_start as int),
{
    assert forall|i: int| 0 <= i < a.len() implies has_candle(
        b,
        (#[trigger] a[i]).bucket_start as int,
    ) by {
        let start = a[i].bucket_start;
        if !has_candle(b, start as int) {
            assert forall|k: int| 0 <= k < trades.len() implies bucket_start(
                (#[trigger] trades[k]).block_time as int,
                interval as int,
            ) != start by {}
            lemma_bucket_empty(trades, interval, start);
        }
    }
}

proof fn lemma_series_prefix(
    a: Seq<CandleView>,
    b: Seq<CandleView>,
    trades: Seq<TradeView>,
    interval: i64,
    n: int,
)
    requires
        is_series(a, trades, interval),
        is_series(b, trades, interval),
        0 <= n <= a.len(),
        n <= b.len(),
    ensures
        a.take(n) == b.take(n),
    decreases n,
{
    if n > 0 {
        lemma_series_prefix(a, b, trades, interval, n - 1);
        lemma_series_within(a, b, trades, interval);
        lemma_series_within(b, a, trades, interval);
        let x = a[n - 1].bucket_start;
        let y = b[n - 1].bucket_start;
        assert(has_candle(b, x as int) && has_candle(a, y as int));
        let i = choose|i: int| 0 <= i < b.len() && (#[trigger] b[i]).bucket_start == x;
        let j = choose|j: int| 0 <= j < a.len() && (#[trigger] a[j]).bucket_start == y;
        if i < n - 1 {
            assert(a.take(n - 1)[i] == b.take(n - 1)[i]);
            assert(a[i].bucket_start < a[n - 1].bucket_start);
        }
        if j < n - 1 {
            assert(a.take(n - 1)[j] == b.take(n - 1)[j]);
            assert(b[j].bucket_start < b[n - 1].bucket_start);
        }
        assert(x == y);
        assert(a[n - 1] == b[n - 1]);
        assert forall|k: int| 0 <= k < n implies a.take(n)[k] == b.take(n)[k] by {
            if k < n - 1 {
                assert(a.take(n - 1)[k] == b.take(n - 1)[k]);
            }
        }
        assert(a.take(n) =~= b.take(n));
    }
}

/// The value of an amount, in units of the smallest decimal that there is.
pub open spec fn amount_value(units: nat, decimals: u8) -> nat {
    units * pow10((255 - decimals) as nat)
}

/// The value of a volume.
pub open spec fn volume_value(parts: Seq<VolumePartView>) -> nat
    decreases parts.len(),
{
    if parts.len() == 0 {
        0
    } else {
        amount_value(parts[0].units, parts[0].decimals) + volume_value(parts.skip(1))
    }
}

/// The value that trades turned over.
pub open spec fn turnover(trades: Seq<TradeView>) -> nat
    decreases trades.len(),
{
    if trades.len() == 0 {
        0
    } else {
        let volume = trades.last().volume_sol;
        turnover(trades.drop_last()) + amount_value(volume.units as nat, volume.decimals)
    }
}

proof fn lemma_add_volume_value(parts: Seq<VolumePartView>, amount: Amount)
    ensures
        volume_value(add_volume(parts, amount)) == volume_value(parts) + amount_value(
            amount.units as nat,
            amount.decimals,
        ),
    decreases parts.len(),
{
    let sum = add_volume(parts, amount);
    if parts.len() == 0 {
        assert(sum.skip(1) =~= Seq::<VolumePartView>::empty());
        assert(volume_value(sum.skip(1)) == 0);
    } else if parts[0].decimals == amount.decimals {
        assert(sum.skip(1) =~= parts.skip(1));
        let p = pow10((255 - amount.decimals) as nat);
        assert((parts[0].units + amount.units as nat) * p == parts[0].units * p + amount.units as nat
            * p) by (nonlinear_arith);
    } else {
        lemma_add_volume_value(parts.skip(1), amount);
        assert(sum.skip(1) =~= add_volume(parts.skip(1), amount));
    }
}

/// A candle's volume is the sum of its trades' volumes.
pub proof fn law_volume_is_the_sum(start: i64, trades: Seq<TradeView>)
    ensures
        volume_value(candle_of(start, trades).volume) == turnover(trades),
    decreases trades.len(),
{
    if trades.len() > 0 {
        law_volume_is_the_sum(start, trades.drop_last());
        lemma_add_volume_value(volume_of(trades.drop_last()), trades.last().volume_sol);
    }
}

/// Where a trade is put does not change the turnover.
pub proof fn lemma_turnover_insert(sorted: Seq<TradeView>, trade: TradeView)
    ensures
        turnover(insert_by_time(sorted, trade)) == turnover(sorted) + amount_value(
            trade.volume_sol.units as nat,
            trade.volume_sol.decimals,
        ),
    decreases sorted.len(),
{
    let now = insert_by_time(sorted, trade);
    if sorted.len() > 0 && trade.block_time < sorted.last().block_time {
        lemma_turnover_insert(sorted.drop_last(), trade);
        assert(now.drop_last() =~= insert_by_time(sorted.drop_last(), trade));
    } else {
        assert(now.drop_last() =~= sorted);
    }
}

/// The value of the volumes of candles.
pub open spec fn series_value(candles: Seq<CandleView>) -> nat
    decreases candles.len(),
{
    if candles.len() == 0 {
        0
    } else {
        series_value(candles.drop_last()) + volume_value(candles.last().volume)
    }
}

/// The value of the trades in the windows of candles.
spec fn windows_value(candles: Seq<CandleView>, trades: Seq<TradeView>, interval: i64) -> nat
    decreases candles.len(),
{
    if candles.len() == 0 {
        0
    } else {
        windows_value(candles.drop_last(), trades, interval) + turnover(
            bucket_trades(trades, interval, candles.last().bucket_start),
        )
    }
}

proof fn lemma_windows_push(
    candles: Seq<CandleView>,
    trades: Seq<TradeView>,
    trade: TradeView,
    interval: i64,
)
    requires
        forall|i: int, j: int|
            0 <= i < j < candles.len() ==> (#[trigger] candles[i]).bucket_start < (
            #[trigger] candles[j]).bucket_start,
    ensures
        windows_value(candles, trades.push(trade), interval) == windows_value(
            candles,
            trades,
            interval,
        ) + if has_candle(candles, bucket_start(trade.block_time as int, interval as int)) {
            amount_value(trade.volume_sol.units as nat, trade.volume_sol.decimals)
        } else {
            0
        },
    decreases candles.len(),
{
    let b = bucket_start(trade.block_time as int, interval as int);
    if candles.len() > 0 {
        let d = candles.drop_last();
        let start = candles.last().bucket_start;
        assert forall|i: int, j: int| 0 <= i < j < d.len() implies (
        #[trigger] d[i]).bucket_start < (#[trigger] d[j]).bucket_start by {
            assert(candles[i].bucket_start < candles[j].bucket_start);
        }
        lemma_windows_push(d, trades, trade, interval);
        lemma_bucket_push(trades, trade, interval, start);
        lemma_turnover_insert(bucket_trades(trades, interval, start), trade);
        assert(candles[candles.len() - 1].bucket_start == start);
        if has_candle(d, b) {
            let i = choose|i: int| 0 <= i < d.len() && (#[trigger] d[i]).bucket_start == b;
            assert(candles[i].bucket_start == b);
            assert(candles[i].bucket_start < candles[candles.len() - 1].bucket_start);
            assert(has_candle(candles, b));
        } else if has_candle(candles, b) {
            let i = choose|i: int|
                0 <= i < candles.len() && (#[trigger] candles[i]).bucket_start == b;
            if i < d.len() {
                assert(d[i].bucket_start == b);
            }
        }
    }
}

proof fn lemma_windows_value(candles: Seq<CandleView>, trades: Seq<TradeView>, interval: i64)
    requires
        forall|i: int, j: int|
            0 <= i < j < candles.len() ==> (#[trigger] candles[i]).bucket_start < (
            #[trigger] candles[j]).bucket_start,
        forall|k: int|
            0 <= k < trades.len() ==> has_candle(
                candles,
                bucket_start((#[trigger] trades[k]).block_time as int, interval as int),
            ),
    ensures
        windows_value(candles, trades, interval) == turnover(trades),
    decreases trades.len(),
{
    if trades.len() > 0 {
        let d = trades.drop_last();
        assert forall|k: int| 0 <= k < d.len() implies has_candle(
            candles,
            bucket_start((#[trigger] d[k]).block_time as int, interval as int),
        ) by {
            assert(d[k] == trades[k]);
        }
        lemma_windows_value(candles, d, interval);
        lemma_windows_push(candles, d, trades.last(), interval);
        assert(d.push(trades.last()) =~= trades);
        assert(trades[trades.len() - 1] == trades.last());
    } else {
        lemma_windows_empty(candles, trades, interval);
    }
}

proof fn lemma_windows_empty(candles: Seq<CandleView>, trades: Seq<TradeView>, interval: i64)
    requires
        trades.len() == 0,
    ensures
        windows_value(candles, trades, interval) == 0,
    decreases candles.len(),
{
    if candles.len() > 0 {
        lemma_windows_empty(candles.drop_last(), trades, interval);
        lemma_bucket_empty(trades, interval, candles.last().bucket_start);
    }
}

/// No trade is lost and none is counted twice: the volumes of a series add up
/// to what its trades turned over.
pub proof fn law_series_counts_every_trade_once(
    candles: Seq<CandleView>,
    trades: Seq<TradeView>,
    interval: i64,
)
    requires
        is_series(candles, trades, interval),
    ensures
        series_value(candles) == turnover(trades),
{
    lemma_windows_value(candles, trades, interval);
    lemma_series_value(candles, candles.len() as int, trades, interval);
    assert(candles.take(candles.len() as int) =~= candles);
}

proof fn lemma_series_value(
    candles: Seq<CandleView>,
    n: int,
    trades: Seq<TradeView>,
    interval: i64,
)
    requires
        is_series(candles, trades, interval),
        0 <= n <= candles.len(),
    ensures
        series_value(candles.take(n)) == windows_value(candles.take(n), trades, interval),
    decreases n,
{
    if n > 0 {
        lemma_series_value(candles, n - 1, trades, interval);
        assert(candles.take(n).drop_last() =~= candles.take(n - 1));
        let c = candles[n - 1];
        law_volume_is_the_sum(
            c.bucket_start,
            bucket_trades(trades, interval, c.bucket_start),
        );
    }
}

/// How many units trades turned over in amounts with a number of decimals.
pub open spec fn units_with(trades: Seq<TradeView>, decimals: u8) -> nat
    decreases trades.len(),
{
    if trades.len() == 0 {
        0
    } else if trades.last().volume_sol.decimals == decimals {
        units_with(trades.drop_last(), decimals) + trades.last().volume_sol.units as nat
    } else {
        units_with(trades.drop_last(), decimals)
    }
}

/// Whether some amount has a number of decimals.
pub open spec fn has_decimals(trades: Seq<TradeView>, decimals: u8) -> bool {
    exists|i: int|
        0 <= i < trades.len() && (#[trigger] trades[i]).volume_sol.decimals == decimals
}

/// Whether the volume of trades has a part with a number of decimals.
pub open spec fn has_part(parts: Seq<VolumePartView>, decimals: u8) -> bool {
    exists|p: int| 0 <= p < parts.len() && (#[trigger] parts[p]).decimals == decimals
}

proof fn lemma_add_volume_parts(parts: Seq<VolumePartView>, amount: Amount)
    requires
        forall|p: int, q: int|
            0 <= p < q < parts.len() ==> (#[trigger] parts[p]).decimals != (
            #[trigger] parts[q]).decimals,
    ensures
        ({
            let sum = add_volume(parts, amount);
            &&& forall|p: int, q: int|
                0 <= p < q < sum.len() ==> (#[trigger] sum[p]).decimals != (
                #[trigger] sum[q]).decimals
            &&& forall|d: u8| #[trigger]
                has_part(sum, d) <==> has_part(parts, d) || d == amount.decimals
            &&& forall|p: int|
                0 <= p < sum.len() && (#[trigger] sum[p]).decimals != amount.decimals
                    ==> parts.contains(sum[p])
            &&& forall|p: int|
                0 <= p < sum.len() && (#[trigger] sum[p]).decimals == amount.decimals ==> {
                    ||| !has_part(parts, amount.decimals) && sum[p].units == amount.units
                    ||| exists|q: int|
                        0 <= q < parts.len() && (#[trigger] parts[q]).decimals == amount.decimals
                            && sum[p].units == parts[q].units + amount.units
                }
        }),
{
    if has_part(parts, amount.decimals) {
        let k = choose|k: int|
            0 <= k < parts.len() && (#[trigger] parts[k]).decimals == amount.decimals;
        assert forall|j: int| 0 <= j < k implies (#[trigger] parts[j]).decimals
            != amount.decimals by {
            assert(parts[j].decimals != parts[k].decimals);
        }
        lemma_add_volume_at(parts, amount, k);
        let sum = add_volume(parts, amount);
        let made = VolumePartView {
            units: parts[k].units + amount.units as nat,
            decimals: amount.decimals,
        };
        assert(parts.skip(k)[0] == parts[k]);
        assert(sum =~= parts.update(k, made));
        assert forall|p: int|
            0 <= p < sum.len() && (#[trigger] sum[p]).decimals
                != amount.decimals implies parts.contains(sum[p]) by {
            assert(parts[p] == sum[p]);
        }
        assert forall|p: int, q: int| 0 <= p < q < sum.len() implies (#[trigger] sum[p]).decimals
            != (#[trigger] sum[q]).decimals by {
            assert(parts[p].decimals != parts[q].decimals);
        }
        assert forall|d: u8| #[trigger] has_part(sum, d) <==> has_part(parts, d) || d
            == amount.decimals by {
            if has_part(sum, d) {
                let p = choose|p: int| 0 <= p < sum.len() && (#[trigger] sum[p]).decimals == d;
                assert(parts[p].decimals == d);
            }
            if has_part(parts, d) {
                let p = choose|p: int| 0 <= p < parts.len() && (#[trigger] parts[p]).decimals == d;
                assert(sum[p].decimals == d);
            }
        }
        assert forall|p: int|
            0 <= p < sum.len() && (#[trigger] sum[p]).decimals == amount.decimals implies exists|
            q: int,
        |
            0 <= q < parts.len() && (#[trigger] parts[q]).decimals == amount.decimals
                && sum[p].units == parts[q].units + amount.units by {
            assert(parts[p].decimals == amount.decimals);
            if p < k {
                assert(parts[p].decimals != parts[k].decimals);
            }
            if k < p {
                assert(parts[k].decimals != parts[p].decimals);
            }
            assert(parts[k].decimals == amount.decimals);
        }
    } else {
        let n = parts.len() as int;
        lemma_add_volume_at(parts, amount, n);
        let sum = add_volume(parts, amount);
        let made = VolumePartView { units: amount.units as nat, decimals: amount.decimals };
        assert(parts.skip(n) =~= Seq::<VolumePartView>::empty());
        assert(sum =~= parts.push(made));
        assert forall|p: int|
            0 <= p < sum.len() && (#[trigger] sum[p]).decimals
                != amount.decimals implies parts.contains(sum[p]) by {
            assert(parts[p] == sum[p]);
        }
        assert forall|p: int, q: int| 0 <= p < q < sum.len() implies (#[trigger] sum[p]).decimals
            != (#[trigger] sum[q]).decimals by {
            if q < n {
                assert(parts[p].decimals != parts[q].decimals);
            } else {
                assert(parts[p] == sum[p]);
            }
        }
        assert forall|d: u8| #[trigger] has_part(sum, d) <==> has_part(parts, d) || d
            == amount.decimals by {
            if has_part(sum, d) {
                let p = choose|p: int| 0 <= p < sum.len() && (#[trigger] sum[p]).decimals == d;
                if p < n {
                    assert(parts[p].decimals == d);
                }
            }
            if has_part(parts, d) {
                let p = choose|p: int| 0 <= p < parts.len() && (#[trigger] parts[p]).decimals == d;
                assert(sum[p].decimals == d);
            }
            assert(sum[n].decimals == amount.decimals);
        }
        assert forall|p: int|
            0 <= p < sum.len() && (#[trigger] sum[p]).decimals
                == amount.decimals implies sum[p].units == amount.units by {
            if p < n {
                assert(parts[p].decimals == amount.decimals);
            }
        }
    }
}

/// A volume has one part for each number of decimals that occurs, with the sum
/// of the units that were turned over with it.
pub proof fn law_volume_has_one_part_for_each_decimals(trades: Seq<TradeView>)
    ensures
        forall|p: int, q: int|
            0 <= p < q < volume_of(trades).len() ==> (#[trigger] volume_of(trades)[p]).decimals != (
            #[trigger] volume_of(trades)[q]).decimals,
        forall|d: u8| #[trigger] has_part(volume_of(trades), d) <==> has_decimals(trades, d),
        forall|p: int|
            0 <= p < volume_of(trades).len() ==> (#[trigger] volume_of(trades)[p]).units
                == units_with(trades, volume_of(trades)[p].decimals),
    decreases trades.len(),
{
    let parts = volume_of(trades);
    if trades.len() == 0 {
        assert forall|d: u8| #[trigger] has_part(parts, d) <==> has_decimals(trades, d) by {}
    } else {
        let d = trades.drop_last();
        let last = trades.last().volume_sol;
        let before = volume_of(d);
        law_volume_has_one_part_for_each_decimals(d);
        lemma_add_volume_parts(before, last);
        assert forall|x: u8| #[trigger] has_part(parts, x) <==> has_decimals(trades, x) by {
            assert(has_part(before, x) <==> has_decimals(d, x));
            if has_decimals(d, x) {
                let i = choose|i: int|
                    0 <= i < d.len() && (#[trigger] d[i]).volume_sol.decimals == x;
                assert(trades[i].volume_sol.decimals == x);
            }
            if has_decimals(trades, x) && x != last.decimals {
                let i = choose|i: int|
                    0 <= i < trades.len() && (#[trigger] trades[i]).volume_sol.decimals == x;
                assert(d[i].volume_sol.decimals == x);
            }
            assert(trades[trades.len() - 1].volume_sol.decimals == last.decimals);
        }
        assert forall|p: int| 0 <= p < parts.len() implies (#[trigger] parts[p]).units
            == units_with(trades, parts[p].decimals) by {
            if parts[p].decimals != last.decimals {
                assert(before.contains(parts[p]));
                let q = choose|q: int| 0 <= q < before.len() && before[q] == parts[p];
                assert(before[q].units == units_with(d, before[q].decimals));
            } else if has_part(before, last.decimals) {
                let q = choose|q: int|
                    0 <= q < before.len() && (#[trigger] before[q]).decimals == last.decimals
                        && parts[p].units == before[q].units + last.units;
                assert(before[q].units == units_with(d, before[q].decimals));
            } else {
                assert(!has_decimals(d, last.decimals));
                lemma_units_without(d, last.decimals);
            }
        }
    }
}

proof fn lemma_units_without(trades: Seq<TradeView>, decimals: u8)
    requires
        !has_decimals(trades, decimals),
    ensures
        units_with(trades, decimals) == 0,
    decreases trades.len(),
{
    if trades.len() > 0 {
        let d = trades.drop_last();
        assert(!has_decimals(d, decimals)) by {
            if has_decimals(d, decimals) {
                let i = choose|i: int|
                    0 <= i < d.len() && (#[trigger] d[i]).volume_sol.decimals == decimals;
                assert(trades[i].volume_sol.decimals == decimals);
            }
        }
        assert(trades[trades.len() - 1].volume_sol.decimals != decimals);
        lemma_units_without(d, decimals);
    }
}

/// Windows can be computed of every time that is one interval or more above the
/// least, and of none without an interval.
pub proof fn law_ordinary_times_have_windows(time: i64, interval: i64)
    ensures
        interval > 0 && time - interval >= i64::MIN ==> bucketable(time, interval),
        interval > 0 && time >= 0 ==> bucketable(time, interval),
        interval == 0 ==> !bucketable(time, interval),
{
    if interval > 0 {
        law_bucket_contains_its_times(time as int, interval as int);
        if time >= 0 {
            assert(time as int % interval as int <= time) by (nonlinear_arith)
                requires
                    time >= 0,
                    interval > 0,
            ;
        }
    }
}

/// The content of candles is all that they hold.
pub proof fn law_candle_views_hold_every_field(candle: Candle, series: MintCandles)
    ensures
        candle.deep_view().bucket_start == candle.bucket_start,
        candle.deep_view().open == candle.open,
        candle.deep_view().high == candle.high,
        candle.deep_view().low == candle.low,
        candle.deep_view().close == candle.close,
        candle.deep_view().volume.len() == candle.volume@.len(),
        forall|i: int|
            0 <= i < candle.volume@.len() ==> (#[trigger] candle.deep_view().volume[i]).units
                == candle.volume@[i].units && candle.deep_view().volume[i].decimals
                == candle.volume@[i].decimals,
        series.deep_view().mint == series.mint@,
        series.deep_view().candles == series.candles.deep_view(),
{
}

/// Only the length of an interval matters, not its sign.
pub proof fn law_windows_do_not_depend_on_the_sign(time: int, interval: int)
    requires
        interval > 0,
    ensures
        bucket_start(time, -interval) == bucket_start(time, interval),
{
    let (q, r) = (time / interval, time % interval);
    vstd::arithmetic::div_mod::lemma_fundamental_div_mod(time, interval);
    assert(time % (-interval) == r) by (nonlinear_arith)
        requires
            interval > 0,
            r == time % interval,
    ;
}

} // verus!
