use sha2::{Digest, Sha256};
use triarb::fill::FillState;
use triarb::graph::ExchangeRateGraph;
use triarb::opportunity::{DedupTable, OpportunityId};
use triarb::settings::{FeedCfg, LoggingCfg, SymbolToml};
use triarb::types::{ArbitrageOpportunity, Triangle};

fn opportunity(a: &str, b: &str, c: &str) -> ArbitrageOpportunity {
    ArbitrageOpportunity {
        triangle: Triangle {
            leg_a: (a.into(), b.into()),
            leg_b: (b.into(), c.into()),
            leg_c: (c.into(), a.into()),
        },
        routes: Vec::new(),
        ts_ns: 0,
    }
}

#[test]
fn test_opportunity_id_deterministic() {
    let opp = ArbitrageOpportunity {
        triangle: Triangle {
            leg_a: ("USDT".into(), "BTC".into()),
            leg_b: ("BTC".into(), "ETH".into()),
            leg_c: ("ETH".into(), "USDT".into()),
        },
        routes: Vec::new(),
        ts_ns: 0,
    };
    let id1 = OpportunityId::from_opportunity(&opp);
    let id2 = OpportunityId::from_opportunity(&opp);
    assert_eq!(id1, id2);
}

#[test]
fn test_dedup_table() {
    let mut table = DedupTable::new(60_000_000_000);
    let id = OpportunityId::from_opportunity(&opportunity("A", "B", "C"));
    assert!(table.check_and_insert(id));
    assert!(!table.check_and_insert(id));
    assert_eq!(table.len(), 1);
}

#[test]
fn test_fill_state() {
    let id = OpportunityId::from_opportunity(&opportunity("A", "B", "C"));
    let mut state = FillState::new(id);
    assert!(!state.needs_rollback());
    state.fill_leg(0);
    assert!(state.needs_rollback());
    state.fill_leg(1);
    state.fill_leg(2);
    assert!(!state.needs_rollback());
    assert!(state.is_fully_filled());
}

#[test]
fn test_graph_freshness() {
    let mut g = ExchangeRateGraph::new();
    assert!(!g.is_fresh(1)); // never updated
    g.set_rate(&"A".into(), &"B".into(), 100, 101);
    assert!(g.is_fresh(60_000_000_000));
}

#[test]
fn opportunity_id_is_sha256_of_currency_codes() {
    let id = OpportunityId::from_opportunity(&opportunity("USDT", "BTC", "ETH"));
    let mut key = Vec::new();
    for code in ["USDT", "BTC", "BTC", "ETH", "ETH", "USDT"] {
        key.extend_from_slice(&(code.len() as u64).to_be_bytes());
        key.extend_from_slice(code.as_bytes());
    }
    let expected: [u8; 32] = Sha256::digest(&key).into();
    assert_eq!(id.0, expected);
    assert_ne!(id, OpportunityId::from_opportunity(&opportunity("BTC", "ETH", "USDT")));
}

#[test]
fn ids_tell_split_codes_apart() {
    let mut a = opportunity("AB", "C", "D");
    let mut b = opportunity("A", "BC", "D");
    a.triangle.leg_a = ("AB".into(), "C".into());
    b.triangle.leg_a = ("A".into(), "BC".into());
    a.triangle.leg_b = ("X".into(), "Y".into());
    b.triangle.leg_b = ("X".into(), "Y".into());
    a.triangle.leg_c = ("Y".into(), "Z".into());
    b.triangle.leg_c = ("Y".into(), "Z".into());
    assert_ne!(OpportunityId::from_opportunity(&a), OpportunityId::from_opportunity(&b));
}

#[test]
fn opportunity_id_debug_string_shows_both_ends() {
    let mut bytes = [0u8; 32];
    bytes[0] = 0xab;
    bytes[3] = 0x01;
    bytes[28] = 0xff;
    bytes[31] = 0x10;
    let id = OpportunityId(bytes);
    assert_eq!(id.debug_string(), "ab000001..ff000010");
}

#[test]
fn dedup_gc_drops_expired_entries() {
    let mut table = DedupTable::new(100);
    let a = OpportunityId::from_opportunity(&opportunity("A", "B", "C"));
    let b = OpportunityId::from_opportunity(&opportunity("X", "Y", "Z"));
    assert!(table.check_and_insert_at(a, 1_000));
    assert!(table.check_and_insert_at(b, 1_050));
    table.gc_at(1_120);
    assert_eq!(table.len(), 1);
    assert!(table.check_and_insert_at(a, 1_130));
    assert!(!table.check_and_insert_at(b, 1_130));
    table.gc_at(10_000);
    assert!(table.is_empty());
}

#[test]
fn fill_state_failure_and_out_of_range() {
    let id = OpportunityId::from_opportunity(&opportunity("A", "B", "C"));
    let mut state = FillState::new(id);
    state.fill_leg(7);
    state.fail_leg(9);
    assert!(!state.has_failure());
    assert!(!state.has_partial_fill());
    state.fill_leg(0);
    state.fail_leg(1);
    assert!(state.has_failure());
    assert!(state.has_partial_fill());
    assert!(state.needs_rollback());
    assert!(!state.is_fully_filled());
}

#[test]
fn settings_defaults_and_durations() {
    let feed = FeedCfg::default();
    assert_eq!(feed.message_timeout_secs, 10);
    assert_eq!(feed.poll_interval_ms, 50);
    assert_eq!(feed.reconnect_base_ms, 250);
    assert_eq!(feed.reconnect_max_ms, 30_000);
    assert_eq!(feed.message_timeout_ns(), 10_000_000_000);
    assert_eq!(feed.poll_interval_ns(), 50_000_000);

    let huge = FeedCfg { message_timeout_secs: u64::MAX / 2, poll_interval_ms: u64::MAX, ..FeedCfg::default() };
    assert_eq!(huge.message_timeout_ns(), u64::MAX);
    assert_eq!(huge.poll_interval_ns(), u64::MAX);

    let logging = LoggingCfg::default();
    assert!(logging.directory.is_none());
    assert_eq!(logging.level, "info");
    assert_eq!(logging.format, "json");

    let sym = SymbolToml { venue: "BINANCE".to_string(), base: "BTC".to_string(), quote: "USDT".to_string() };
    assert_eq!(sym.base, "BTC");
}
