use block_analysis::candle_store::candle_ops;
use block_analysis::candles::{
    bucket_of, build_candles, is_bucketable, Candle, MintCandles, VolumePart,
};
use block_analysis::ohlcv::{
    infer_trades, InferredTrade, TokenDelta, TxSnapshot, DUST_THRESHOLD_DECIMALS,
    DUST_THRESHOLD_UNITS, WSOL_MINT,
};
use block_analysis::pipeline::IntervalCandles;
use block_analysis::price::{price_is_below, scaled_is_below, Amount, Price};
use block_analysis::storage::StoreOp;
use std::collections::BTreeMap;

fn approx(a: f64, b: f64) -> bool {
    (a - b).abs() < 1e-9
}

fn amount_f64(a: Amount) -> f64 {
    a.units as f64 / 10f64.powi(a.decimals as i32)
}

fn price_f64(p: Price) -> f64 {
    amount_f64(p.sol) / amount_f64(p.tokens)
}

fn volume_f64(parts: &[VolumePart]) -> f64 {
    parts.iter().map(|p| p.units as f64 / 10f64.powi(p.decimals as i32)).sum()
}

fn amount(units: u64, decimals: u8) -> Amount {
    Amount { units, decimals }
}

/// A price in thousandths of a SOL for one token.
fn price(thousandths: u64) -> Price {
    Price { sol: amount(thousandths, 3), tokens: amount(1, 0) }
}

fn delta(mint: &str, pre_amount: u64, post_amount: u64, decimals: u8) -> TokenDelta {
    TokenDelta { mint: mint.to_string(), pre_amount, post_amount, decimals }
}

fn snapshot(signature: &str, token_deltas: Vec<TokenDelta>) -> TxSnapshot {
    TxSnapshot { signature: signature.to_string(), block_time: 1000, token_deltas }
}

fn trade(signature: &str, block_time: i64, mint: &str, price: Price, volume: Amount) -> InferredTrade {
    InferredTrade {
        signature: signature.to_string(),
        block_time,
        mint: mint.to_string(),
        price_in_sol: price,
        volume_sol: volume,
    }
}

fn candles_of<'a>(series: &'a [MintCandles], mint: &str) -> &'a Vec<Candle> {
    &series.iter().find(|s| s.mint == mint).unwrap().candles
}

#[test]
fn simple_swap_infers_one_trade() {
    let tx = snapshot(
        "sig1",
        vec![delta("TOKENMINT", 100_000000, 0, 6), delta(WSOL_MINT, 0, 1_000000000, 9)],
    );
    let trades = infer_trades(&tx);
    assert_eq!(trades.len(), 1);
    assert!(approx(price_f64(trades[0].price_in_sol), 0.01));
    assert!(approx(amount_f64(trades[0].volume_sol), 1.0));
}

#[test]
fn wrap_only_excluded() {
    let tx = snapshot("sig2", vec![delta(WSOL_MINT, 0, 5_000000000, 9)]);
    assert!(infer_trades(&tx).is_empty());
}

#[test]
fn dust_trade_excluded() {
    let tx = snapshot(
        "sig3",
        vec![
            delta("TOKENMINT", 10_000000, 0, 6),
            delta(WSOL_MINT, 0, 100_000, 9), // 0.0001 SOL
        ],
    );
    assert!(infer_trades(&tx).is_empty());
}

#[test]
fn same_direction_deltas_excluded() {
    // Both legs increase together: liquidity is added, nothing is swapped.
    let tx = snapshot(
        "sig4",
        vec![delta("TOKENMINT", 0, 100_000000, 6), delta(WSOL_MINT, 0, 1_000000000, 9)],
    );
    assert!(infer_trades(&tx).is_empty());
}

#[test]
fn no_wsol_leg_excluded() {
    let tx = snapshot(
        "sig5",
        vec![delta("TOKENMINT_A", 100_000000, 0, 6), delta("TOKENMINT_B", 0, 50_000000, 6)],
    );
    assert!(infer_trades(&tx).is_empty());
}

#[test]
fn candle_bucketing_and_aggregation() {
    let mint = "TOKENMINT";
    let trades = vec![
        trade("s1", 960, mint, price(10), amount(10, 1)),
        trade("s2", 980, mint, price(12), amount(20, 1)),
        trade("s3", 1010, mint, price(9), amount(5, 1)),
        trade("s4", 1090, mint, price(11), amount(15, 1)),
    ];
    let candles = build_candles(&trades, 60);
    let c = candles_of(&candles, mint);
    assert_eq!(c.len(), 2);
    assert!(approx(price_f64(c[0].open), 0.01));
    assert!(approx(price_f64(c[0].close), 0.009));
    assert!(approx(price_f64(c[0].high), 0.012));
    assert!(approx(price_f64(c[0].low), 0.009));
    assert!(approx(volume_f64(&c[0].volume), 3.5));
    assert_eq!(c[1].bucket_start, 1080);
}

#[test]
fn empty_trades_produce_no_candles() {
    let candles = build_candles(&[], 60);
    assert!(candles.is_empty());
}

#[test]
fn deltas_are_signed_and_exact() {
    let bought = delta("M", 1, u64::MAX, 3).delta_ui();
    assert_eq!((bought.units, bought.decimals), (u64::MAX as i128 - 1, 3));
    assert_eq!(delta("M", 7, 5, 0).delta_ui().units, -2);
    assert_eq!(delta("M", 7, 7, 0).delta_ui().units, 0);
}

#[test]
fn the_dust_threshold_itself_counts() {
    assert_eq!((DUST_THRESHOLD_UNITS, DUST_THRESHOLD_DECIMALS), (5, 4));
    let swap = |lamports| {
        snapshot("s", vec![delta("M", 10, 0, 0), delta(WSOL_MINT, 0, lamports, 9)])
    };
    assert_eq!(infer_trades(&swap(500_000)).len(), 1);
    assert!(infer_trades(&swap(499_999)).is_empty());
}

#[test]
fn each_token_trades_against_the_first_sol_leg() {
    let tx = snapshot(
        "s",
        vec![
            delta("A", 4, 0, 0),
            delta(WSOL_MINT, 0, 2_000000000, 9),
            delta("B", 0, 9, 0),
            delta(WSOL_MINT, 5_000000000, 0, 9),
            delta("C", 1, 0, 1),
            delta("D", 3, 3, 0),
        ],
    );
    let trades = infer_trades(&tx);
    let seen: Vec<(&str, Price)> =
        trades.iter().map(|t| (t.mint.as_str(), t.price_in_sol)).collect();
    let sol = amount(2_000000000, 9);
    assert_eq!(
        seen,
        vec![
            ("A", Price { sol, tokens: amount(4, 0) }),
            ("C", Price { sol, tokens: amount(1, 1) }),
        ]
    );
    assert!(trades.iter().all(|t| t.signature == "s" && t.block_time == 1000));
    assert!(trades.iter().all(|t| t.volume_sol == sol));
}

#[test]
fn an_unmoved_sol_leg_prices_nothing() {
    let tx = snapshot(
        "s",
        vec![delta(WSOL_MINT, 5, 5, 9), delta("A", 4, 0, 0), delta(WSOL_MINT, 0, 5_000000000, 9)],
    );
    assert!(infer_trades(&tx).is_empty());
}

#[test]
fn prices_compare_without_rounding() {
    let half = Price { sol: amount(5, 1), tokens: amount(1, 0) };
    let same = Price { sol: amount(1, 0), tokens: amount(20, 1) };
    let more = Price { sol: amount(5_000_000_000_000_000_001, 19), tokens: amount(1, 0) };
    assert!(!price_is_below(&half, &same) && !price_is_below(&same, &half));
    assert!(price_is_below(&half, &more) && !price_is_below(&more, &half));
    let tiny = Price { sol: amount(1, 255), tokens: amount(u64::MAX, 0) };
    let huge = Price { sol: amount(u64::MAX, 0), tokens: amount(1, 255) };
    assert!(price_is_below(&tiny, &huge) && !price_is_below(&huge, &tiny));
    assert!(scaled_is_below(0, 500, 1, 0) && !scaled_is_below(1, 0, 0, 500));
    assert!(scaled_is_below(u128::MAX, 0, 1, 39) && !scaled_is_below(1, 39, u128::MAX, 0));
}

#[test]
fn windows_hold_their_times() {
    assert_eq!(bucket_of(1010, 60), 960);
    assert_eq!(bucket_of(960, 60), 960);
    assert_eq!(bucket_of(-1, 60), -60);
    assert_eq!(bucket_of(1010, 300), 900);
    assert_eq!(bucket_of(1010, -60), 960);
    assert!(is_bucketable(i64::MAX, 60) && is_bucketable(0, i64::MAX));
    assert!(!is_bucketable(5, 0) && !is_bucketable(i64::MIN, 60));
    assert!(!is_bucketable(i64::MIN, -1));
}

#[test]
fn trades_of_one_time_keep_their_order() {
    let trades = vec![
        trade("late", 119, "M", price(4), amount(1, 0)),
        trade("first", 60, "M", price(2), amount(1, 0)),
        trade("second", 60, "M", price(3), amount(1, 0)),
    ];
    let candles = build_candles(&trades, 60);
    let c = candles_of(&candles, "M");
    assert_eq!(c.len(), 1);
    assert_eq!(c[0].open, price(2));
    assert_eq!(c[0].close, price(4));
    assert_eq!((c[0].low, c[0].high), (price(2), price(4)));
}

#[test]
fn candles_are_kept_apart_by_mint_and_in_order_of_time() {
    let trades = vec![
        trade("1", 700, "B", price(1), amount(1, 0)),
        trade("2", 100, "A", price(1), amount(2, 0)),
        trade("3", 10, "B", price(5), amount(4, 0)),
        trade("4", -10, "B", price(6), amount(8, 0)),
        trade("5", 640, "B", price(7), amount(16, 3)),
        trade("6", 650, "B", price(7), amount(32, 3)),
        trade("7", 659, "B", price(7), amount(64, 0)),
    ];
    let series = build_candles(&trades, 60);
    let mints: Vec<&str> = series.iter().map(|s| s.mint.as_str()).collect();
    assert_eq!(mints, vec!["B", "A"]);
    let b = candles_of(&series, "B");
    let starts: Vec<i64> = b.iter().map(|c| c.bucket_start).collect();
    assert_eq!(starts, vec![-60, 0, 600, 660]);
    assert_eq!(
        b[2].volume,
        vec![VolumePart { units: 48, decimals: 3 }, VolumePart { units: 64, decimals: 0 }]
    );
    assert_eq!(candles_of(&series, "A").len(), 1);
}

#[test]
fn volumes_of_a_series_add_up() {
    let trades: Vec<InferredTrade> =
        (0..50).map(|i| trade("t", i * 17 % 400, "M", price(1), amount(i as u64, 0))).collect();
    let series = build_candles(&trades, 60);
    let total: u128 = candles_of(&series, "M")
        .iter()
        .flat_map(|c| c.volume.iter())
        .map(|part| part.units)
        .sum();
    assert_eq!(total, (0..50).sum::<u128>());
}

#[test]
fn five_minutes_are_made_of_their_minutes() {
    let trades: Vec<InferredTrade> = (0..80)
        .map(|i| {
            let price = price(((i * 37) % 101 + 1) as u64);
            trade("t", i * 131 % 1_500, "M", price, amount(i as u64 + 1, 0))
        })
        .collect();
    let minute = build_candles(&trades, 60);
    let five_minutes = build_candles(&trades, 300);
    let narrow = candles_of(&minute, "M");
    let wide = candles_of(&five_minutes, "M");
    assert_eq!(wide.len(), 5);
    let mut seen = 0;
    for candle in wide {
        let inside: Vec<&Candle> =
            narrow.iter().filter(|c| bucket_of(c.bucket_start, 300) == candle.bucket_start).collect();
        seen += inside.len();
        assert_eq!(candle.open, inside[0].open);
        assert_eq!(candle.close, inside[inside.len() - 1].close);
        assert!(inside.iter().any(|c| c.high == candle.high));
        assert!(inside.iter().all(|c| !price_is_below(&candle.high, &c.high)));
        assert!(inside.iter().any(|c| c.low == candle.low));
        assert!(inside.iter().all(|c| !price_is_below(&c.low, &candle.low)));
        let sum: u128 = inside.iter().flat_map(|c| c.volume.iter()).map(|p| p.units).sum();
        assert_eq!(candle.volume, vec![VolumePart { units: sum, decimals: 0 }]);
    }
    assert_eq!(seen, narrow.len());
}

#[test]
fn candles_are_stored_under_their_keys() {
    let trades = vec![
        trade("a", 30, "M", price(5), amount(1, 0)),
        trade("b", 90, "M", price(7), amount(2, 0)),
        trade("c", 95, "N", price(9), amount(3, 0)),
    ];
    let intervals = vec![
        IntervalCandles { interval_sec: 60, series: build_candles(&trades, 60) },
        IntervalCandles { interval_sec: 300, series: build_candles(&trades, 300) },
    ];
    let mut stored: BTreeMap<(String, i32, i64), Candle> = BTreeMap::new();
    let kept = build_candles(&trades, 60).remove(0).candles.remove(0);
    stored.insert(("M".to_string(), 60, 600), kept);
    let ops = candle_ops(intervals);
    assert_eq!(ops.len(), 5);
    for op in ops {
        match op {
            StoreOp::UpsertCandle { mint, interval_sec, candle } => {
                stored.insert((mint, interval_sec, candle.bucket_start), candle);
            }
            _ => panic!("only candles are stored"),
        }
    }
    let keys: Vec<(&str, i32, i64)> = stored.keys().map(|k| (k.0.as_str(), k.1, k.2)).collect();
    assert_eq!(
        keys,
        vec![
            ("M", 60, 0),
            ("M", 60, 60),
            ("M", 60, 600),
            ("M", 300, 0),
            ("N", 60, 60),
            ("N", 300, 0),
        ]
    );
    let wide = &stored[&("M".to_string(), 300, 0)];
    assert_eq!((wide.open, wide.close), (price(5), price(7)));
    assert_eq!(wide.volume, vec![VolumePart { units: 3, decimals: 0 }]);
}
