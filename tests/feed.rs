use spreadget::{
    copy_summary, levels_as_table, App, FeedPoll, Level, Summary, SummaryFeed, TableRow,
};

fn summary_with_spread(spread: i128) -> Summary {
    Summary { spread, bids: Vec::new(), asks: Vec::new() }
}

#[test]
fn nothing_before_the_first_publication() {
    let feed = SummaryFeed::new(Summary::empty());
    let mut cursor = feed.subscribe();
    assert!(matches!(feed.poll(&mut cursor), FeedPoll::Unchanged));
}

#[test]
fn late_subscriber_gets_the_latest_summary() {
    let mut feed = SummaryFeed::new(Summary::empty());
    feed.publish(summary_with_spread(1));
    feed.publish(summary_with_spread(2));
    let mut cursor = feed.subscribe();
    match feed.poll(&mut cursor) {
        FeedPoll::Changed(s) => assert_eq!(s.spread, 2),
        _ => panic!("expected a summary"),
    }
    assert!(matches!(feed.poll(&mut cursor), FeedPoll::Unchanged));
}

#[test]
fn slow_subscriber_sees_coalesced_values_and_the_last() {
    let mut feed = SummaryFeed::new(Summary::empty());
    let mut cursor = feed.subscribe();
    let mut seen: Vec<i128> = Vec::new();
    for i in 1..=100 {
        feed.publish(summary_with_spread(i));
        if i % 7 == 0 {
            if let FeedPoll::Changed(s) = feed.poll(&mut cursor) {
                seen.push(s.spread);
            }
        }
    }
    feed.close();
    loop {
        match feed.poll(&mut cursor) {
            FeedPoll::Changed(s) => seen.push(s.spread),
            FeedPoll::Unchanged => panic!("a closed feed never leaves a poll waiting"),
            FeedPoll::Closed => break,
        }
    }
    assert!(!seen.is_empty() && seen.len() <= 100);
    assert_eq!(*seen.last().unwrap(), 100);
    assert_eq!(feed.publications(), 100);
}

#[test]
fn closed_feed_ends_the_stream() {
    let mut feed = SummaryFeed::new(Summary::empty());
    let mut cursor = feed.subscribe();
    feed.close();
    assert!(matches!(feed.poll(&mut cursor), FeedPoll::Closed));
}

fn level(exchange: &str, price: u64, amount: u64) -> Level {
    Level { exchange: exchange.to_string(), price, amount }
}

#[test]
fn copy_keeps_levels() {
    let s = Summary { spread: -5, bids: vec![level("a", 3, 4)], asks: vec![level("b", 5, 6)] };
    let c = copy_summary(&s);
    assert_eq!(c.spread, -5);
    assert_eq!(c.bids[0].exchange, "a");
    assert_eq!(c.asks[0].price, 5);
}

#[test]
fn table_rows_show_each_level() {
    let levels = vec![level("binance", 7_036_500, 1_301_310_000), level("bitstamp", 7_010_000, 600_000_000)];
    let table = levels_as_table("Bids", &levels);
    assert_eq!(table.title, "Bids");
    assert_eq!(
        table.rows,
        vec![
            TableRow {
                amount: "13.01310".to_string(),
                price: "0.0703650000".to_string(),
                exchange: "(binance)".to_string(),
            },
            TableRow {
                amount: "6.00000".to_string(),
                price: "0.0701000000".to_string(),
                exchange: "(bitstamp)".to_string(),
            },
        ]
    );
}

#[test]
fn dashboard_state() {
    let mut app = App::new("ethbtc".to_string(), "[::1]:54321".to_string());
    assert!(!app.should_quit);
    assert!(app.summary.bids.is_empty());
    app.on_new_summary(summary_with_spread(7));
    assert_eq!(app.summary.spread, 7);
    app.on_quit_key();
    assert!(app.should_quit);
    assert_eq!(app.symbol, "ethbtc");
}
