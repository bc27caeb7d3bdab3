use coin_broker::candles::{bucket_count, get_candle_sticks, ntile, select_window};
use coin_broker::numeric::Numeric;
use coin_broker::types::{BrokerError, CandleStickData, GraphGranularity, TimeSeriesData};

const HOUR: i64 = 3600;
const DAY: i64 = 86400;

fn tick(as_of: i64, price: i64) -> TimeSeriesData {
    TimeSeriesData { as_of, price: Numeric::from_int(price) }
}

fn same(a: &Numeric, b: &Numeric) -> bool {
    a.le(b) && b.le(a)
}

fn is_price(a: &Numeric, p: i64) -> bool {
    same(a, &Numeric::from_int(p))
}

fn consistent(c: &CandleStickData) -> bool {
    c.low.le(&c.open) && c.open.le(&c.high) && c.low.le(&c.close) && c.close.le(&c.high)
}

#[test]
fn intraday_over_four_hours_gives_two_buckets() {
    let start: i64 = 1_600_000_000;
    assert_eq!(bucket_count(start, start + 4 * HOUR, GraphGranularity::IntraDay).unwrap(), 2);
}

#[test]
fn daily_over_ten_days_gives_ten_buckets() {
    let start: i64 = 1_600_000_000;
    assert_eq!(bucket_count(start, start + 10 * DAY, GraphGranularity::Daily).unwrap(), 10);
}

#[test]
fn bucket_formulas_truncate() {
    assert_eq!(bucket_count(0, 28 * DAY, GraphGranularity::Weekly).unwrap(), 4);
    assert_eq!(bucket_count(0, 27 * DAY, GraphGranularity::Weekly).unwrap(), 3);
    assert_eq!(bucket_count(0, 8 * 7 * DAY, GraphGranularity::Monthly).unwrap(), 2);
    assert_eq!(bucket_count(0, 7 * 7 * DAY, GraphGranularity::Monthly).unwrap(), 1);
    assert_eq!(bucket_count(0, 182 * DAY, GraphGranularity::Quarterly).unwrap(), 2);
    assert_eq!(bucket_count(0, 730 * DAY, GraphGranularity::Anually).unwrap(), 2);
    assert_eq!(bucket_count(0, 364 * DAY, GraphGranularity::Anually).unwrap(), 0);
    assert_eq!(bucket_count(0, 2 * HOUR - 1, GraphGranularity::IntraDay).unwrap(), 0);
    assert_eq!(bucket_count(i64::MIN, i64::MAX, GraphGranularity::Daily).unwrap(), 213_503_982_334_601);
}

#[test]
fn empty_or_reversed_range_is_invalid() {
    assert!(matches!(bucket_count(5, 5, GraphGranularity::Daily), Err(BrokerError::InvalidRange)));
    assert!(matches!(bucket_count(6, 5, GraphGranularity::Daily), Err(BrokerError::InvalidRange)));
    assert!(matches!(
        get_candle_sticks(&vec![tick(5, 1)], 10, 0, GraphGranularity::Daily),
        Err(BrokerError::InvalidRange)
    ));
}

#[test]
fn twelve_ticks_over_four_hours_make_two_candles() {
    let start: i64 = 1_600_000_000;
    let prices: [i64; 12] = [100, 104, 98, 101, 99, 103, 110, 95, 97, 120, 115, 111];
    let mut ticks: Vec<TimeSeriesData> = Vec::new();
    for (i, p) in prices.iter().enumerate() {
        ticks.push(tick(start + (i as i64) * 20 * 60, *p));
    }
    let candles = get_candle_sticks(&ticks, start, start + 4 * HOUR, GraphGranularity::IntraDay).unwrap();
    assert_eq!(candles.len(), 2);
    let first = &candles[0];
    assert_eq!(first.open_date_time, start);
    assert!(is_price(&first.open, 100));
    assert!(is_price(&first.close, 103));
    assert!(is_price(&first.low, 98));
    assert!(is_price(&first.high, 104));
    let second = &candles[1];
    assert_eq!(second.open_date_time, start + 6 * 20 * 60);
    assert!(is_price(&second.open, 110));
    assert!(is_price(&second.close, 111));
    assert!(is_price(&second.low, 95));
    assert!(is_price(&second.high, 120));
}

#[test]
fn longer_buckets_come_first() {
    let ticks: Vec<TimeSeriesData> = (0..7).map(|i: i64| tick(i, 10 + i)).collect();
    let candles = ntile(&ticks, 3);
    assert_eq!(candles.len(), 3);
    // sizes 3, 2, 2
    assert!(is_price(&candles[0].open, 10) && is_price(&candles[0].close, 12));
    assert!(is_price(&candles[1].open, 13) && is_price(&candles[1].close, 14));
    assert!(is_price(&candles[2].open, 15) && is_price(&candles[2].close, 16));
    assert_eq!(candles[2].open_date_time, 5);
}

#[test]
fn more_buckets_than_ticks_omits_empty_ones() {
    let ticks = vec![tick(1, 5), tick(2, 6)];
    let candles = ntile(&ticks, 5);
    assert_eq!(candles.len(), 2);
    assert!(is_price(&candles[0].low, 5) && is_price(&candles[0].high, 5));
    assert!(is_price(&candles[1].open, 6));
    assert_eq!(ntile(&Vec::new(), 3).len(), 0);
}

#[test]
fn candles_are_ordered_and_consistent() {
    let prices: [i64; 10] = [5, 9, 1, 7, 7, 3, 8, 2, 6, 4];
    let ticks: Vec<TimeSeriesData> = prices.iter().enumerate().map(|(i, p)| tick(i as i64 * 10, *p)).collect();
    let candles = get_candle_sticks(&ticks, 0, 4 * DAY, GraphGranularity::Daily).unwrap();
    assert!(candles.len() <= 4);
    assert_eq!(candles.len(), 4);
    for w in candles.windows(2) {
        assert!(w[0].open_date_time <= w[1].open_date_time);
    }
    for c in candles.iter() {
        assert!(consistent(c));
    }
}

#[test]
fn short_range_uses_one_bucket() {
    let ticks = vec![tick(0, 3), tick(60, 1), tick(120, 2)];
    let candles = get_candle_sticks(&ticks, 0, HOUR, GraphGranularity::IntraDay).unwrap();
    assert_eq!(candles.len(), 1);
    assert!(is_price(&candles[0].open, 3));
    assert!(is_price(&candles[0].close, 2));
    assert!(is_price(&candles[0].low, 1));
    assert!(is_price(&candles[0].high, 3));
}

#[test]
fn ticks_outside_the_range_are_left_out() {
    let ticks = vec![tick(-5, 50), tick(0, 1), tick(10, 2), tick(20, 3), tick(21, 99)];
    let w = select_window(&ticks, 0, 20);
    assert_eq!(w.len(), 3);
    assert_eq!(w[0].as_of, 0);
    assert_eq!(w[2].as_of, 20);
    let candles = get_candle_sticks(&ticks, 0, 20, GraphGranularity::Daily).unwrap();
    assert_eq!(candles.len(), 1);
    assert!(is_price(&candles[0].high, 3));
}

#[test]
fn prices_at_different_scales_compare_by_value() {
    let ticks = vec![
        TimeSeriesData { as_of: 0, price: Numeric::new(150, 2) },
        TimeSeriesData { as_of: 1, price: Numeric::new(2, 0) },
        TimeSeriesData { as_of: 2, price: Numeric::new(1499, 3) },
    ];
    let c = ntile(&ticks, 1);
    assert_eq!(c[0].low.mantissa, 1499);
    assert_eq!(c[0].low.scale, 3);
    assert_eq!(c[0].high.mantissa, 2);
}
