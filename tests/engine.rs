use spreadget::{
    decode_book, merge_side, AnonymousLevel, Level, LevelField, OrderbookAggregator, Side,
    SimpleOrderBook, SUMMARY_DEPTH,
};

fn side(levels: &[(&str, &str)]) -> Vec<Vec<LevelField>> {
    levels
        .iter()
        .map(|(p, a)| vec![LevelField::Text(p.to_string()), LevelField::Text(a.to_string())])
        .collect()
}

fn book(bids: &[(&str, &str)], asks: &[(&str, &str)]) -> SimpleOrderBook {
    decode_book(&side(bids), &side(asks)).unwrap()
}

fn names(levels: &[Level]) -> Vec<&str> {
    levels.iter().map(|l| l.exchange.as_str()).collect()
}

fn binance() -> String {
    "binance".to_string()
}

fn bitstamp() -> String {
    "bitstamp".to_string()
}

fn s1_book() -> SimpleOrderBook {
    book(&[("0.07036500", "13.0131")], &[("0.07036600", "6.7725")])
}

#[test]
fn single_exchange_one_update() {
    let mut agg = OrderbookAggregator::new();
    agg.update(&binance(), s1_book());
    let s = agg.summary();
    assert_eq!(s.spread, 100);
    assert_eq!(s.bids.len(), 1);
    assert_eq!(s.bids[0].exchange, "binance");
    assert_eq!(s.bids[0].price, 7_036_500);
    assert_eq!(s.bids[0].amount, 1_301_310_000);
    assert_eq!(s.asks.len(), 1);
    assert_eq!(s.asks[0].exchange, "binance");
    assert_eq!(s.asks[0].price, 7_036_600);
    assert_eq!(s.asks[0].amount, 677_250_000);
}

#[test]
fn two_exchanges_interleaved() {
    let mut agg = OrderbookAggregator::new();
    agg.update(&binance(), s1_book());
    agg.update(&bitstamp(), book(&[("0.07010000", "6.0")], &[("0.07015000", "0.05")]));
    let s = agg.summary();
    assert_eq!(names(&s.bids), vec!["binance", "bitstamp"]);
    assert_eq!(s.bids[1].price, 7_010_000);
    assert_eq!(names(&s.asks), vec!["bitstamp", "binance"]);
    assert_eq!(s.asks[0].price, 7_015_000);
    assert_eq!(s.asks[1].price, 7_036_600);
    // A crossed book gives a negative spread, reported as it is.
    assert_eq!(s.spread, 7_015_000 - 7_036_500);
}

#[test]
fn new_snapshot_supersedes_the_old() {
    let mut agg = OrderbookAggregator::new();
    agg.update(&binance(), s1_book());
    agg.update(&bitstamp(), book(&[("0.07010000", "6.0")], &[("0.07015000", "0.05")]));
    agg.update(&binance(), book(&[("0.07100", "1.0")], &[("0.07036600", "6.7725")]));
    let s = agg.summary();
    let binance_bids: Vec<&Level> = s.bids.iter().filter(|l| l.exchange == "binance").collect();
    assert_eq!(binance_bids.len(), 1);
    assert_eq!(binance_bids[0].price, 7_100_000);
    assert_eq!(names(&s.bids), vec!["binance", "bitstamp"]);
    assert_eq!(s.bids[0].price, 7_100_000);
}

fn ladder(start: u64, step: i64, n: usize) -> Vec<(String, String)> {
    (0..n)
        .map(|i| {
            let price = (start as i64 + step * i as i64) as u64;
            (spreadget::format_units(price, 8), format!("{}", i + 1))
        })
        .collect()
}

fn owned_book(bids: &[(String, String)], asks: &[(String, String)]) -> SimpleOrderBook {
    let b: Vec<(&str, &str)> = bids.iter().map(|(p, a)| (p.as_str(), a.as_str())).collect();
    let a: Vec<(&str, &str)> = asks.iter().map(|(p, a)| (p.as_str(), a.as_str())).collect();
    book(&b, &a)
}

#[test]
fn truncation_keeps_the_best_ten_of_forty() {
    let mut agg = OrderbookAggregator::new();
    // Binance bids 7_000_000, 6_999_990, ...; Bitstamp bids 7_000_005, 6_999_995, ...
    agg.update(&binance(), owned_book(&ladder(7_000_000, -10, 20), &ladder(7_001_000, 10, 20)));
    agg.update(&bitstamp(), owned_book(&ladder(7_000_005, -10, 20), &ladder(7_001_005, 10, 20)));
    let s = agg.summary();
    assert_eq!(s.bids.len(), SUMMARY_DEPTH);
    assert_eq!(s.asks.len(), SUMMARY_DEPTH);
    let mut all_bids: Vec<u64> = (0..20).map(|i| 7_000_000 - 10 * i).collect();
    all_bids.extend((0..20).map(|i| 7_000_005 - 10 * i));
    all_bids.sort_unstable_by(|a, b| b.cmp(a));
    let got: Vec<u64> = s.bids.iter().map(|l| l.price).collect();
    assert_eq!(got, all_bids[..10].to_vec());
    let mut all_asks: Vec<u64> = (0..20).map(|i| 7_001_000 + 10 * i).collect();
    all_asks.extend((0..20).map(|i| 7_001_005 + 10 * i));
    all_asks.sort_unstable();
    let got: Vec<u64> = s.asks.iter().map(|l| l.price).collect();
    assert_eq!(got, all_asks[..10].to_vec());
    assert_eq!(s.spread, 7_001_000 - 7_000_005);
}

#[test]
fn empty_side_empties_the_exchange_contribution() {
    let mut agg = OrderbookAggregator::new();
    agg.update(&binance(), s1_book());
    agg.update(&binance(), book(&[], &[("0.07036600", "6.7725")]));
    let s = agg.summary();
    assert!(s.bids.is_empty());
    assert_eq!(s.asks.len(), 1);
    assert_eq!(s.spread, 0);
}

#[test]
fn equal_prices_put_the_larger_amount_first() {
    let mut agg = OrderbookAggregator::new();
    agg.update(&binance(), book(&[("1.0", "1.0")], &[("2.0", "1.0")]));
    agg.update(&bitstamp(), book(&[("1.0", "3.0")], &[("2.0", "3.0")]));
    let s = agg.summary();
    assert_eq!(names(&s.bids), vec!["bitstamp", "binance"]);
    assert_eq!(names(&s.asks), vec!["bitstamp", "binance"]);
    assert_eq!(s.spread, 100_000_000);
}

#[test]
fn merge_does_not_trust_the_input_order() {
    let current: Vec<Level> = Vec::new();
    let levels = vec![
        AnonymousLevel { price: 5, amount: 1 },
        AnonymousLevel { price: 9, amount: 1 },
        AnonymousLevel { price: 7, amount: 2 },
        AnonymousLevel { price: 7, amount: 4 },
    ];
    let bids = merge_side(Side::Bids, &current, &binance(), &levels);
    let got: Vec<(u64, u64)> = bids.iter().map(|l| (l.price, l.amount)).collect();
    assert_eq!(got, vec![(9, 1), (7, 4), (7, 2), (5, 1)]);
    let asks = merge_side(Side::Asks, &current, &binance(), &levels);
    let got: Vec<(u64, u64)> = asks.iter().map(|l| (l.price, l.amount)).collect();
    assert_eq!(got, vec![(5, 1), (7, 4), (7, 2), (9, 1)]);
}

#[test]
fn every_published_summary_is_bounded_and_sorted() {
    let mut agg = OrderbookAggregator::new();
    for round in 0..5u64 {
        let name = if round % 2 == 0 { binance() } else { bitstamp() };
        agg.update(
            &name,
            owned_book(&ladder(7_000_000 + round * 3, -7, 20), &ladder(7_000_500 - round, 7, 20)),
        );
        let s = agg.summary();
        assert!(s.bids.len() <= SUMMARY_DEPTH && s.asks.len() <= SUMMARY_DEPTH);
        assert!(s.bids.windows(2).all(|w| w[0].price >= w[1].price));
        assert!(s.asks.windows(2).all(|w| w[0].price <= w[1].price));
        assert_eq!(s.spread, s.asks[0].price as i128 - s.bids[0].price as i128);
    }
}

#[test]
fn levels_come_from_the_latest_snapshot() {
    let mut agg = OrderbookAggregator::new();
    agg.update(&binance(), book(&[("1.0", "1.0"), ("0.9", "2.0")], &[("1.1", "1.0")]));
    agg.update(&binance(), book(&[("0.8", "5.0")], &[("1.2", "1.0")]));
    let s = agg.summary();
    let pairs: Vec<(u64, u64)> = s.bids.iter().map(|l| (l.price, l.amount)).collect();
    assert_eq!(pairs, vec![(80_000_000, 500_000_000)]);
}

#[test]
fn unsorted_snapshot_still_gives_its_best_levels() {
    let mut bids = ladder(7_000_000, -10, 25);
    bids.reverse();
    let mut asks = ladder(7_001_000, 10, 25);
    asks.reverse();
    let mut agg = OrderbookAggregator::new();
    agg.update(&binance(), owned_book(&bids, &asks));
    let s = agg.summary();
    let got: Vec<u64> = s.bids.iter().map(|l| l.price).collect();
    let want: Vec<u64> = (0..10).map(|i| 7_000_000 - 10 * i).collect();
    assert_eq!(got, want);
    let got: Vec<u64> = s.asks.iter().map(|l| l.price).collect();
    let want: Vec<u64> = (0..10).map(|i| 7_001_000 + 10 * i).collect();
    assert_eq!(got, want);
}
