use triarb::book::{apply_book_update, apply_book_update_at, apply_trade, BookAction, BookLevel, BookMap, BookUpdate, Side, TradePrint};
use triarb::currency::parse_currency;
use triarb::enrich::{enrich_opportunity, has_unpriced_leg};
use triarb::feed::{reconnect_delay_ms, FeedConfig, FeedEvent, FeedState};
use triarb::graph::{EdgeRate, ExchangeRateGraph, RateEdge};
use triarb::price_check::{leg_top_price, missing_book};
use triarb::sim::{RawTick, SimulatedExchange, Tick};
use triarb::types::{ArbitrageOpportunity, OrderSide, RouteLeg, SymbolId, Triangle};

fn sym(s: &str) -> SymbolId {
    SymbolId { venue: "BINANCE".into(), symbol: s.into() }
}

fn update(s: &str, side: Side, level: u16, price: i64, action: BookAction, seq: u64) -> BookUpdate {
    BookUpdate {
        symbol: sym(s),
        side,
        level,
        price,
        size: 100,
        action,
        sequence: seq,
        ts_exchange_ns: seq,
        ts_recv_ns: seq + 1,
    }
}

#[test]
fn test_parse_currency() {
    let (base, quote) = parse_currency(&sym("BTCUSDT"));
    assert_eq!(base, "BTC");
    assert_eq!(quote, "USDT");
}

#[test]
fn parse_currency_suffixes() {
    assert_eq!(parse_currency(&sym("ETHBTC")), ("ETH".to_string(), "BTC".to_string()));
    assert_eq!(parse_currency(&sym("ADAFDUSD")), ("ADA".to_string(), "FDUSD".to_string()));
    assert_eq!(parse_currency(&sym("XRPBNB")), ("XRP".to_string(), "BNB".to_string()));
    assert_eq!(parse_currency(&sym("USDTUSDT")), ("".to_string(), "USDT".to_string()));
    assert_eq!(parse_currency(&sym("DOGE")), ("DOGE".to_string(), "USDT".to_string()));
}

#[test]
fn test_book_update() {
    let mut books = BookMap::new();
    let mut graph = ExchangeRateGraph::new();
    let symbol = sym("BTCUSDT");
    apply_book_update(
        &mut books,
        BookUpdate {
            symbol: symbol.clone(),
            side: Side::Bid,
            level: 0,
            price: 50000_00_000_000,
            size: 100,
            action: BookAction::Upsert,
            sequence: 1,
            ts_exchange_ns: 1,
            ts_recv_ns: 2,
        },
        &mut graph,
    );
    apply_book_update(
        &mut books,
        BookUpdate {
            symbol: symbol.clone(),
            side: Side::Ask,
            level: 0,
            price: 50001_00_000_000,
            size: 100,
            action: BookAction::Upsert,
            sequence: 2,
            ts_exchange_ns: 3,
            ts_recv_ns: 4,
        },
        &mut graph,
    );
    let snap = books.get(&symbol).unwrap();
    assert_eq!(snap.bids.len(), 1);
    assert_eq!(snap.asks.len(), 1);
    assert_eq!(snap.bids[0].price, 50000_00_000_000);
}

#[test]
fn book_levels_stay_ordered_and_feed_the_graph() {
    let mut books = BookMap::new();
    let mut graph = ExchangeRateGraph::new();
    apply_book_update(&mut books, update("ETHBTC", Side::Bid, 2, 70, BookAction::Upsert, 1), &mut graph);
    assert_eq!(graph.currencies(), &["ETH".to_string(), "BTC".to_string()]);
    assert_eq!(graph.edges_from(0).len(), 0);
    apply_book_update(&mut books, update("ETHBTC", Side::Bid, 0, 80, BookAction::Upsert, 2), &mut graph);
    apply_book_update(&mut books, update("ETHBTC", Side::Bid, 1, 75, BookAction::Upsert, 3), &mut graph);
    apply_book_update(&mut books, update("ETHBTC", Side::Bid, 1, 76, BookAction::Upsert, 4), &mut graph);
    let levels: Vec<(u16, i64)> = books.get(&sym("ETHBTC")).unwrap().bids.iter().map(|l| (l.level, l.price)).collect();
    assert_eq!(levels, vec![(0, 80), (1, 76), (2, 70)]);
    apply_book_update(&mut books, update("ETHBTC", Side::Ask, 0, 90, BookAction::Upsert, 5), &mut graph);
    assert_eq!(graph.edges_from(0), &[RateEdge { to: 1, rate: EdgeRate::Bid(80) }]);
    assert_eq!(graph.edges_from(1), &[RateEdge { to: 0, rate: EdgeRate::Ask(90) }]);
    assert_eq!(graph.get_symbol_for(&"ETH".into(), &"BTC".into()).unwrap().symbol, "ETHBTC");
    apply_book_update(&mut books, update("ETHBTC", Side::Bid, 0, 0, BookAction::Delete, 6), &mut graph);
    let b = books.get(&sym("ETHBTC")).unwrap();
    assert_eq!(b.bids[0], BookLevel { level: 1, price: 76, size: 100 });
    assert_eq!(b.last_sequence, 6);
    assert_eq!(graph.edges_from(0), &[RateEdge { to: 1, rate: EdgeRate::Bid(76) }]);
    apply_trade(
        &mut books,
        TradePrint {
            symbol: sym("ETHBTC"),
            price: 77,
            size: 1,
            aggressor_side: Side::Bid,
            sequence: 7,
            ts_exchange_ns: 70,
            ts_recv_ns: 71,
        },
    );
    let b = books.get(&sym("ETHBTC")).unwrap();
    assert_eq!((b.ts_exchange_ns, b.ts_recv_ns, b.last_sequence), (70, 71, 6));
    assert_eq!(books.len(), 1);
}

#[test]
fn test_feed_health_initial() {
    let feed = FeedState::new(&FeedConfig::default());
    let health = feed.health_at(1_000);
    assert!(!health.connected);
    assert!(health.last_message_at.is_none());
    assert_eq!(health.consecutive_errors, 0);
    assert!(health.degraded);
}

#[test]
fn feed_reconnect_backoff_and_recovery() {
    let mut feed = FeedState::new(&FeedConfig::default());
    feed.on_subscribe(sym("BTCUSDT"), true);
    feed.on_subscribe(sym("BAD"), false);
    feed.on_connect(false, 0);
    assert!(!feed.reconnect_due(100_000_000));
    assert!(feed.reconnect_due(500_000_000));
    let again = feed.on_reconnect(false, 500_000_000);
    assert!(again.is_empty());
    assert!(!feed.reconnect_due(1_000_000_000));
    assert!(feed.reconnect_due(1_500_000_000));
    let again = feed.on_reconnect(true, 1_500_000_000);
    assert_eq!(again.len(), 1);
    assert_eq!(again[0].symbol, "BTCUSDT");
    let h = feed.health_at(1_500_000_000);
    assert!(h.connected && h.consecutive_errors == 0 && h.degraded); // no message yet
    let mut books = BookMap::new();
    let mut graph = ExchangeRateGraph::new();
    feed.on_poll_events(vec![FeedEvent::Book(update("BTCUSDT", Side::Bid, 0, 1, BookAction::Upsert, 1))], &mut books, &mut graph, 2_000_000_000);
    assert!(!feed.health_at(2_000_000_001).degraded);
    assert!(feed.health_at(13_000_000_000).degraded);
    assert_eq!(feed.counters().books, 1);
    for _ in 0..5 {
        feed.on_poll_error(3_000_000_000);
    }
    assert!(!feed.is_connected());
}

#[test]
fn reconnect_delays() {
    assert_eq!(reconnect_delay_ms(0), 250);
    assert_eq!(reconnect_delay_ms(1), 500);
    assert_eq!(reconnect_delay_ms(6), 16_000);
    assert_eq!(reconnect_delay_ms(7), 30_000);
    assert_eq!(reconnect_delay_ms(100), 30_000);
}

fn tick(ts: u64, symbol: &SymbolId, bid: i64, ask: i64, size: i64) -> Tick {
    Tick { ts_ns: ts, symbol: symbol.clone(), bid, ask, last_price: bid, last_size: size }
}

#[test]
fn test_tick_advance() {
    let symbol = sym("BTCUSDT");
    let ticks = vec![
        tick(1, &symbol, 50000_00_000_000, 50001_00_000_000, 100),
        tick(2, &symbol, 50001_00_000_000, 50002_00_000_000, 200),
    ];
    let mut sim = SimulatedExchange::new(ticks);
    assert_eq!(sim.len(), 2);
    let t1 = sim.advance().unwrap();
    assert_eq!(t1.ts_ns, 1);
    let t2 = sim.advance().unwrap();
    assert_eq!(t2.ts_ns, 2);
    assert!(sim.advance().is_none());
    let book = sim.book(&symbol).unwrap();
    assert_eq!(book.bids[0].price, 50001_00_000_000);
    assert_eq!(book.last_sequence, 2);
}

#[test]
fn test_reset() {
    let symbol = sym("ETHUSDT");
    let mut sim = SimulatedExchange::new(vec![tick(1, &symbol, 3000_00_000_000, 3001_00_000_000, 10)]);
    assert_eq!(sim.position(), 0);
    sim.advance();
    assert_eq!(sim.position(), 1);
    sim.reset();
    assert_eq!(sim.position(), 0);
    assert!(sim.book(&symbol).is_none());
}

#[test]
fn raw_tick_conversion() {
    let raw = RawTick { ts_ns: 9, venue: "BINANCE".into(), symbol: "ETHBTC".into(), bid: 1, ask: 2, last_price: 3, last_size: 4 };
    let t = raw.into_tick();
    assert_eq!((t.ts_ns, t.bid, t.ask, t.last_price, t.last_size), (9, 1, 2, 3, 4));
    assert_eq!((t.symbol.venue.as_str(), t.symbol.symbol.as_str()), ("BINANCE", "ETHBTC"));
}

#[test]
fn price_check_top_of_book() {
    let mut books = BookMap::new();
    let mut graph = ExchangeRateGraph::new();
    apply_book_update(&mut books, update("BTCUSDT", Side::Ask, 0, 101, BookAction::Upsert, 1), &mut graph);
    let book = books.get(&sym("BTCUSDT")).unwrap();
    let buy = RouteLeg { symbol: sym("BTCUSDT"), side: OrderSide::Buy, price: 100, size: 1 };
    let sell = RouteLeg { symbol: sym("BTCUSDT"), side: OrderSide::Sell, price: 100, size: 1 };
    assert_eq!(leg_top_price(&buy, book).ok(), Some(101));
    let f = leg_top_price(&sell, book).err().unwrap();
    assert_eq!(f.reason, "no bid side liquidity for BTCUSDT");
    assert_eq!(f.message(), "price check failed: no bid side liquidity for BTCUSDT");
    assert_eq!(missing_book(&buy).reason, "no book data for BTCUSDT");
}

#[test]
fn enrich_prices_legs_from_books() {
    let mut books = BookMap::new();
    let mut graph = ExchangeRateGraph::new();
    apply_book_update(&mut books, BookUpdate { size: 5_000_000, ..update("BTCUSDT", Side::Ask, 0, 101, BookAction::Upsert, 1) }, &mut graph);
    apply_book_update(&mut books, update("BTCUSDT", Side::Bid, 0, 99, BookAction::Upsert, 2), &mut graph);
    let opp = ArbitrageOpportunity {
        triangle: Triangle {
            leg_a: ("USDT".into(), "BTC".into()),
            leg_b: ("BTC".into(), "USDT".into()),
            leg_c: ("USDT".into(), "ETH".into()),
        },
        routes: vec![
            RouteLeg { symbol: sym("BTCUSDT"), side: OrderSide::Buy, price: 0, size: 0 },
            RouteLeg { symbol: sym("BTCUSDT"), side: OrderSide::Sell, price: 0, size: 0 },
            RouteLeg { symbol: sym("ETHUSDT"), side: OrderSide::Sell, price: 0, size: 0 },
        ],
        ts_ns: 0,
    };
    assert!(has_unpriced_leg(&opp));
    let e = enrich_opportunity(&opp, &books, 1_000_000);
    assert_eq!((e.routes[0].price, e.routes[0].size), (101, 1_000_000));
    assert_eq!((e.routes[1].price, e.routes[1].size), (99, 100));
    assert_eq!((e.routes[2].price, e.routes[2].size), (0, 0));
    assert!(has_unpriced_leg(&e));
}

#[test]
fn rate_refresh_time_follows_the_book() {
    let mut books = BookMap::new();
    let mut graph = ExchangeRateGraph::new();
    let t0 = graph.last_updated_at();
    // One-sided book: no rate yet, the graph's update time stays.
    apply_book_update_at(&mut books, update("BTCUSDT", Side::Bid, 0, 99, BookAction::Upsert, 1), &mut graph, t0 + 10);
    assert_eq!(graph.last_updated_at(), t0);
    // Both sides priced: the rate is set at the given time.
    apply_book_update_at(&mut books, update("BTCUSDT", Side::Ask, 0, 101, BookAction::Upsert, 2), &mut graph, t0 + 20);
    assert_eq!(graph.last_updated_at(), t0 + 20);
    assert!(graph.is_fresh_at(t0 + 25, 5));
    assert!(!graph.is_fresh_at(t0 + 26, 5));
}

#[test]
fn replayed_tick_tops_its_book() {
    let t = |ts: u64, bid: i64, ask: i64| Tick { ts_ns: ts, symbol: sym("ETHUSDT"), bid, ask, last_price: bid, last_size: 1 };
    let mut sim = SimulatedExchange::new(vec![t(10, 100, 101), t(20, 102, 103)]);
    sim.advance();
    sim.advance();
    let b = sim.book(&sym("ETHUSDT")).unwrap();
    assert_eq!((b.bids[0].price, b.asks[0].price), (102, 103));
    assert_eq!((b.last_sequence, b.ts_exchange_ns, b.ts_recv_ns), (2, 20, 20));
    assert!(sim.advance().is_none());
    assert_eq!(sim.position(), 2);
}
