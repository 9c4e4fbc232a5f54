use triarb::cycle::reconstruct_cycle;
use triarb::detect::{cycle_legs, opportunity_from_cycle};
use triarb::graph::{EdgeRate, ExchangeRateGraph, RateEdge};
use triarb::types::{OrderSide, SymbolId};

fn sym(s: &str) -> SymbolId {
    SymbolId { venue: "BINANCE".into(), symbol: s.into() }
}

fn triangle_graph() -> ExchangeRateGraph {
    let mut graph = ExchangeRateGraph::new();
    graph.set_rate(&"BTC".into(), &"USDT".into(), 50000, 50100);
    graph.set_symbol_for(&"BTC".into(), &"USDT".into(), sym("BTCUSDT"));
    graph.set_rate(&"ETH".into(), &"BTC".into(), 80, 90);
    graph.set_symbol_for(&"ETH".into(), &"BTC".into(), sym("ETHBTC"));
    graph.set_rate(&"ETH".into(), &"USDT".into(), 4000, 4100);
    graph.set_symbol_for(&"ETH".into(), &"USDT".into(), sym("ETHUSDT"));
    graph
}

#[test]
fn test_symbol_and_side_correctness() {
    let graph = triangle_graph();

    let (s, side) = graph.symbol_and_side_for(&"USDT".into(), &"BTC".into()).unwrap();
    assert_eq!(s.symbol, "BTCUSDT");
    assert_eq!(side, OrderSide::Buy);

    let (s, side) = graph.symbol_and_side_for(&"BTC".into(), &"USDT".into()).unwrap();
    assert_eq!(s.symbol, "BTCUSDT");
    assert_eq!(side, OrderSide::Sell);

    let (s, side) = graph.symbol_and_side_for(&"USDT".into(), &"ETH".into()).unwrap();
    assert_eq!(s.symbol, "ETHUSDT");
    assert_eq!(side, OrderSide::Buy);

    let (s, side) = graph.symbol_and_side_for(&"ETH".into(), &"USDT".into()).unwrap();
    assert_eq!(s.symbol, "ETHUSDT");
    assert_eq!(side, OrderSide::Sell);

    let (s, side) = graph.symbol_and_side_for(&"BTC".into(), &"ETH".into()).unwrap();
    assert_eq!(s.symbol, "ETHBTC");
    assert_eq!(side, OrderSide::Buy);

    let (s, side) = graph.symbol_and_side_for(&"ETH".into(), &"BTC".into()).unwrap();
    assert_eq!(s.symbol, "ETHBTC");
    assert_eq!(side, OrderSide::Sell);
}

#[test]
fn add_currency_is_idempotent() {
    let mut g = ExchangeRateGraph::new();
    let a = g.add_currency("BTC".into());
    let b = g.add_currency("ETH".into());
    assert_eq!(g.add_currency("BTC".into()), a);
    assert_eq!((a, b), (0, 1));
    assert_eq!(g.currencies(), &["BTC".to_string(), "ETH".to_string()]);
}

#[test]
fn set_rate_upserts_edges() {
    let mut g = ExchangeRateGraph::new();
    g.set_rate(&"BTC".into(), &"USDT".into(), 100, 101);
    assert_eq!(g.edges_from(0), &[RateEdge { to: 1, rate: EdgeRate::Bid(100) }]);
    assert_eq!(g.edges_from(1), &[RateEdge { to: 0, rate: EdgeRate::Ask(101) }]);
    g.set_rate(&"BTC".into(), &"USDT".into(), 102, 0);
    assert_eq!(g.edges_from(0), &[RateEdge { to: 1, rate: EdgeRate::Bid(102) }]);
    assert_eq!(g.edges_from(1), &[RateEdge { to: 0, rate: EdgeRate::Ask(101) }]);
    g.set_rate(&"USDT".into(), &"BTC".into(), 0, 7);
    assert_eq!(g.edges_from(0), &[RateEdge { to: 1, rate: EdgeRate::Ask(7) }]);
}

#[test]
fn first_symbol_registration_wins() {
    let mut g = ExchangeRateGraph::new();
    g.set_symbol_for(&"BTC".into(), &"USDT".into(), sym("IGNORED"));
    assert!(g.get_symbol_for(&"BTC".into(), &"USDT".into()).is_none());
    g.set_rate(&"BTC".into(), &"USDT".into(), 100, 101);
    g.set_symbol_for(&"BTC".into(), &"USDT".into(), sym("BTCUSDT"));
    g.set_symbol_for(&"BTC".into(), &"USDT".into(), sym("OTHER"));
    assert_eq!(g.get_symbol_for(&"BTC".into(), &"USDT".into()).unwrap().symbol, "BTCUSDT");
    assert!(g.symbol_and_side_for(&"BTC".into(), &"EUR".into()).is_none());
}

#[test]
fn reconstruct_cycle_closes_at_v() {
    // pred: 0 <- 0 (source), 1 <- 0, 2 <- 1, 0 <- 2 would loop
    let pred = vec![2usize, 0, 1];
    // relaxing edge 2 -> 0 : walk from 2: 2,1,0,2 (repeat) ; v=0 last at index 2
    let c = reconstruct_cycle(&pred, 2, 0);
    assert_eq!(c, vec![0, 1, 2, 0]);
    // source self-loop, v not on the walk: no cycle
    let pred = vec![0usize, 0, 1];
    let c = reconstruct_cycle(&pred, 2, 3);
    assert!(c.is_empty());
    // v not on the walk, the walk runs into a predecessor cycle 1 <- 2 <- 1
    let pred = vec![0usize, 2, 1];
    let c = reconstruct_cycle(&pred, 1, 0);
    assert_eq!(c, vec![1, 2, 1]);
    assert_eq!(c.first(), c.last());
}

#[test]
fn opportunity_from_cycle_resolves_routes() {
    let g = triangle_graph();
    // currencies: BTC=0, USDT=1, ETH=2
    let cycle = vec![1usize, 0, 2, 1];
    let legs = cycle_legs(&g, &cycle);
    assert_eq!(legs[0], ("USDT".to_string(), "BTC".to_string()));
    let opp = opportunity_from_cycle(&g, &cycle, 3).unwrap();
    assert_eq!(opp.routes.len(), 3);
    assert_eq!(opp.routes[0].symbol.symbol, "BTCUSDT");
    assert_eq!(opp.routes[0].side, OrderSide::Buy);
    assert_eq!(opp.routes[1].symbol.symbol, "ETHBTC");
    assert_eq!(opp.routes[1].side, OrderSide::Buy);
    assert_eq!(opp.routes[2].symbol.symbol, "ETHUSDT");
    assert_eq!(opp.routes[2].side, OrderSide::Sell);
    assert_eq!(opp.triangle.leg_c, ("ETH".to_string(), "USDT".to_string()));
    assert!(opportunity_from_cycle(&g, &cycle, 2).is_none());
    assert!(opportunity_from_cycle(&g, &vec![1usize, 0, 1], 3).is_none());
}

#[test]
fn rate_update_time_sets_freshness() {
    let mut g = ExchangeRateGraph::new();
    g.set_rate_at(&"A".into(), &"B".into(), 100, 101, 1_000);
    assert_eq!(g.last_updated_at(), 1_000);
    assert!(g.is_fresh_at(1_500, 500));
    assert!(!g.is_fresh_at(1_501, 500));
    assert!(g.is_fresh_at(900, 0));
    assert_eq!(g.currencies().len(), 2);
}
