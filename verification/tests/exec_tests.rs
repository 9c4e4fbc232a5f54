use triarb::clock_skew::{ntp_from_unix_nanos, ntp_now, ntp_to_nanos, skew_from_exchange, ClockSkew};
use triarb::exec::{ExecAction, ExecConfig, ExecEngine, ExecError, OpportunityResult};
use triarb::hedge::hedge_spec;
use triarb::journal::{JournalEntry, OrderJournal};
use triarb::opportunity::OpportunityId;
use triarb::timeout::{OrderTimeoutConfig, OrderTimeoutTracker};
use triarb::types::{ArbitrageOpportunity, OrderSide, RouteLeg, SymbolId, Triangle};

fn sym(s: &str) -> SymbolId {
    SymbolId { venue: "BINANCE".into(), symbol: s.into() }
}

fn dummy_opportunity() -> ArbitrageOpportunity {
    ArbitrageOpportunity {
        triangle: Triangle {
            leg_a: ("USDT".into(), "BTC".into()),
            leg_b: ("BTC".into(), "ETH".into()),
            leg_c: ("ETH".into(), "USDT".into()),
        },
        routes: vec![
            RouteLeg { symbol: sym("BTCUSDT"), side: OrderSide::Buy, price: 50000_00_000_000, size: 100 },
            RouteLeg { symbol: sym("ETHBTC"), side: OrderSide::Sell, price: 5000_00_000_000, size: 100 },
            RouteLeg { symbol: sym("ETHUSDT"), side: OrderSide::Sell, price: 3000_00_000_000, size: 100 },
        ],
        ts_ns: 0,
    }
}

fn hedge_opp() -> ArbitrageOpportunity {
    ArbitrageOpportunity {
        triangle: Triangle {
            leg_a: ("USDT".into(), "BTC".into()),
            leg_b: ("BTC".into(), "ETH".into()),
            leg_c: ("ETH".into(), "USDT".into()),
        },
        routes: vec![
            RouteLeg { symbol: sym("BTCUSDT"), side: OrderSide::Buy, price: 50000_00_000_000, size: 100 },
            RouteLeg { symbol: sym("ETHBTC"), side: OrderSide::Sell, price: 5000_00_000_000, size: 50 },
        ],
        ts_ns: 0,
    }
}

/// Drives one opportunity through the engine; `fails` lists legs whose submission fails.
fn run(engine: &mut ExecEngine, opp: &ArbitrageOpportunity, fails: &[usize]) -> (OpportunityResult, Vec<usize>, Vec<usize>) {
    let mut submitted = Vec::new();
    let mut hedged = Vec::new();
    let Some(mut r) = engine.begin_opportunity(opp, 1_000) else {
        return (OpportunityResult::Duplicate, submitted, hedged);
    };
    loop {
        match engine.next_action(&mut r, opp, 2_000) {
            ExecAction::SubmitLeg { leg, order } => {
                assert_eq!(order.side, opp.routes[leg].side);
                submitted.push(leg);
                let outcome = if fails.contains(&leg) {
                    Err(ExecError::SubmissionFailed("rejected".into()))
                } else {
                    Ok(())
                };
                engine.on_leg_submitted(&mut r, opp, &outcome, 3_000);
            }
            ExecAction::SubmitHedge { leg, order } => {
                assert_eq!(order.side, opp.routes[leg].side.opposite());
                assert_eq!(order.limit_price, 0);
                hedged.push(leg);
                engine.on_hedge_submitted(&mut r, opp, 4_000);
            }
            ExecAction::Finished(res) => return (res, submitted, hedged),
        }
    }
}

#[test]
fn test_dedup_rejects_duplicate() {
    let mut engine = ExecEngine::new(ExecConfig::default(), None);
    let opp = dummy_opportunity();
    let (r1, _, _) = run(&mut engine, &opp, &[]);
    let (r2, _, _) = run(&mut engine, &opp, &[]);
    assert!(matches!(r1, OpportunityResult::Filled(_)));
    assert!(matches!(r2, OpportunityResult::Duplicate));
}

#[test]
fn test_exec_engine_creation() {
    let mut engine = ExecEngine::new(ExecConfig::default(), None);
    let opp = dummy_opportunity();
    let (result, submitted, hedged) = run(&mut engine, &opp, &[]);
    assert!(matches!(result, OpportunityResult::Filled(_)));
    assert_eq!(submitted, vec![0, 1, 2]);
    assert!(hedged.is_empty());
}

#[test]
fn partial_fill_is_rolled_back() {
    let mut engine = ExecEngine::new(ExecConfig::default(), Some(OrderJournal::new()));
    let opp = dummy_opportunity();
    let (result, submitted, hedged) = run(&mut engine, &opp, &[2]);
    assert_eq!(submitted, vec![0, 1, 2]);
    assert_eq!(hedged, vec![0, 1]);
    match result {
        OpportunityResult::RolledBack(s) => {
            assert!(s.needs_rollback());
            assert!(s.has_failure());
        }
        _ => panic!("expected a rollback"),
    }
    let journal = engine.journal().unwrap();
    let kinds: Vec<&str> = journal
        .entries()
        .iter()
        .map(|e| match e {
            JournalEntry::Intent { .. } => "intent",
            JournalEntry::Fill { .. } => "fill",
            JournalEntry::Fail { .. } => "fail",
            JournalEntry::Hedge { .. } => "hedge",
        })
        .collect();
    assert_eq!(kinds, vec!["intent", "fill", "intent", "fill", "intent", "fail", "hedge", "hedge"]);
    match &journal.entries()[5] {
        JournalEntry::Fail { reason, leg, .. } => {
            assert_eq!(reason, "submission failed: rejected");
            assert_eq!(*leg, 2);
        }
        _ => panic!("expected a failure entry"),
    }
    assert!(journal.find_unacknowledged().is_empty());
}

#[test]
fn first_leg_failure_is_failed() {
    let mut engine = ExecEngine::new(ExecConfig::default(), None);
    let opp = dummy_opportunity();
    let (result, submitted, hedged) = run(&mut engine, &opp, &[0]);
    assert!(matches!(result, OpportunityResult::Failed));
    assert_eq!(submitted, vec![0]);
    assert!(hedged.is_empty());
}

#[test]
fn two_leg_route_rolls_back_after_filling() {
    let mut engine = ExecEngine::new(ExecConfig::default(), None);
    let opp = hedge_opp();
    let (result, submitted, hedged) = run(&mut engine, &opp, &[]);
    assert!(matches!(result, OpportunityResult::RolledBack(_)));
    assert_eq!(submitted, vec![0, 1]);
    assert_eq!(hedged, vec![0, 1]);
}

#[test]
fn client_order_ids_count_up_in_hex() {
    let mut engine = ExecEngine::new(ExecConfig::default(), None);
    assert_eq!(engine.next_client_order_id(), "TA0000000000000001");
    assert_eq!(engine.next_client_order_id(), "TA0000000000000002");
    for _ in 0..8 {
        engine.next_client_order_id();
    }
    assert_eq!(engine.next_client_order_id(), "TA000000000000000B");
}

#[test]
fn exec_error_message() {
    let e = ExecError::SubmissionFailed("boom".into());
    assert_eq!(e.message(), "submission failed: boom");
}

#[test]
fn test_hedge_spec_for_buy_leg() {
    let opp = hedge_opp();
    let spec = hedge_spec(&opp, 0).unwrap();
    assert_eq!(spec.symbol.symbol, "BTCUSDT");
    assert!(matches!(spec.side, OrderSide::Sell));
    assert_eq!(spec.size, 100);
}

#[test]
fn test_hedge_spec_for_sell_leg() {
    let opp = hedge_opp();
    let spec = hedge_spec(&opp, 1).unwrap();
    assert_eq!(spec.symbol.symbol, "ETHBTC");
    assert!(matches!(spec.side, OrderSide::Buy));
    assert_eq!(spec.size, 50);
}

#[test]
fn test_hedge_spec_out_of_range() {
    let opp = hedge_opp();
    assert!(hedge_spec(&opp, 5).is_none());
}

fn dummy_id(n: u8) -> OpportunityId {
    let opp = ArbitrageOpportunity {
        triangle: Triangle {
            leg_a: (format!("A{n}"), "B".into()),
            leg_b: ("B".into(), "C".into()),
            leg_c: ("C".into(), "A".into()),
        },
        routes: Vec::new(),
        ts_ns: 0,
    };
    OpportunityId::from_opportunity(&opp)
}

#[test]
fn test_record_and_resolve() {
    let cfg = OrderTimeoutConfig { submission_timeout_ns: 60_000_000_000 };
    let mut tracker = OrderTimeoutTracker::new(cfg);
    let id = dummy_id(1);
    tracker.record_submission(id, 0);
    assert_eq!(tracker.pending_count(), 1);
    tracker.resolve_leg(&id, 0);
    assert!(tracker.is_empty());
}

#[test]
fn test_timeout_detected() {
    let cfg = OrderTimeoutConfig { submission_timeout_ns: 1 };
    let mut tracker = OrderTimeoutTracker::new(cfg);
    let id = dummy_id(1);
    tracker.record_submission_at(id, 0, 1_000);
    let timeouts = tracker.check_timeouts_at(1_010);
    assert_eq!(timeouts.len(), 1);
    assert_eq!(timeouts[0], (id, 0));
}

#[test]
fn test_no_timeout_within_duration() {
    let cfg = OrderTimeoutConfig { submission_timeout_ns: 60_000_000_000 };
    let tracker = OrderTimeoutTracker::new(cfg);
    assert!(tracker.check_timeouts().is_empty());
}

#[test]
fn test_resolve_opportunity_clears_all() {
    let cfg = OrderTimeoutConfig { submission_timeout_ns: 60_000_000_000 };
    let mut tracker = OrderTimeoutTracker::new(cfg);
    let id = dummy_id(1);
    tracker.record_submission(id, 0);
    tracker.record_submission(id, 1);
    tracker.resolve_opportunity(&id);
    assert!(tracker.is_empty());
}

#[test]
fn timeouts_only_for_old_legs() {
    let mut tracker = OrderTimeoutTracker::new(OrderTimeoutConfig { submission_timeout_ns: 100 });
    let a = dummy_id(1);
    let b = dummy_id(2);
    tracker.record_submission_at(a, 0, 1_000);
    tracker.record_submission_at(a, 1, 1_090);
    tracker.record_submission_at(b, 2, 1_050);
    assert_eq!(tracker.check_timeouts_at(1_150), vec![(a, 0)]);
    assert_eq!(tracker.check_timeouts_at(1_200), vec![(a, 0), (a, 1), (b, 2)]);
    tracker.resolve_leg(&a, 0);
    assert_eq!(tracker.pending_count(), 2);
    tracker.resolve_leg(&a, 1);
    assert_eq!(tracker.pending_count(), 1);
}

#[test]
fn engine_timeouts_are_resolved() {
    let mut engine = ExecEngine::new(ExecConfig { dedup_ttl_ns: 60_000_000_000, order_timeout_ns: 10 }, None);
    let opp = dummy_opportunity();
    let mut r = engine.begin_opportunity(&opp, 100).unwrap();
    assert!(matches!(engine.next_action(&mut r, &opp, 100), ExecAction::SubmitLeg { leg: 0, .. }));
    let t = engine.check_order_timeouts_at(200);
    assert_eq!(t, vec![(r.opp_id(), 0)]);
    assert!(engine.check_order_timeouts_at(300).is_empty());
}

#[test]
fn test_unacknowledged_detected() {
    let mut log = OrderJournal::new();
    let id1 = dummy_id(1);
    let id2 = dummy_id(2);
    log.record_intent(&id1, "BINANCE", "BTCUSDT", "Buy", 1);
    log.record_fill(&id1, 0, "BINANCE", "BTCUSDT", 50000, 100, 2);
    log.record_intent(&id2, "BINANCE", "ETHBTC", "Sell", 3); // no fill/fail
    let unacked = log.find_unacknowledged();
    assert_eq!(unacked.len(), 1);
    assert!(matches!(unacked[0], JournalEntry::Intent { .. }));
}

#[test]
fn test_journal_create_replay() {
    let mut log = OrderJournal::new();
    assert_eq!(log.entries().len(), 0);
    let id = dummy_id(1);
    log.record_intent(&id, "BINANCE", "BTCUSDT", "Buy", 1);
    log.record_fill(&id, 0, "BINANCE", "BTCUSDT", 50000, 100, 2);
    let replay: Vec<JournalEntry> = log.entries().iter().map(|e| e.clone_entry()).collect();
    let log2 = OrderJournal::from_entries(replay);
    assert_eq!(log2.entries().len(), 2);
    assert!(log2.find_unacknowledged().is_empty());
}

#[test]
fn journal_ids_are_short_hex() {
    let mut log = OrderJournal::new();
    let id = dummy_id(3);
    log.record_fail(&id, 1, "nope", 5);
    log.record_hedge(&id, 0, "BINANCE", "BTCUSDT", 0, 6);
    match &log.entries()[0] {
        JournalEntry::Fail { opp_id, ts_ns, .. } => {
            assert_eq!(opp_id, &id.debug_string());
            assert_eq!(opp_id.len(), 18);
            assert_eq!(*ts_ns, 5);
        }
        _ => panic!("expected a failure"),
    }
}

fn nanos() -> u64 {
    std::time::SystemTime::now()
        .duration_since(std::time::UNIX_EPOCH)
        .unwrap_or_default()
        .as_nanos() as u64
}

#[test]
fn test_ntp_now_roundtrip() {
    let now = ntp_now();
    let back = ntp_to_nanos(now);
    let sys = nanos();
    let diff = back.abs_diff(sys);
    assert!(diff < 10_000_000, "NTP conversion off by {diff}ns");
}

#[test]
fn ntp_conversion_exact_values() {
    // 1970-01-01T00:00:01.5 UTC
    let raw = ntp_from_unix_nanos(1_500_000_000);
    assert_eq!(raw >> 32, 2_208_988_801);
    assert_eq!(raw & 0xFFFF_FFFF, 0x8000_0000);
    assert_eq!(ntp_to_nanos(raw), 1_500_000_000);
    // before 1970 reads as zero seconds
    assert_eq!(ntp_to_nanos(5u64 << 32), 0);
}

#[test]
fn skew_from_symmetric_exchange() {
    let base = 1_000_000_000_000u64;
    let t1 = base;
    let t2 = ntp_from_unix_nanos(base + 2_250_000_000);
    let t3 = ntp_from_unix_nanos(base + 2_500_000_000);
    let t4 = base + 1_000_000_000;
    let s = skew_from_exchange(t1, t2, t3, t4);
    assert_eq!(s.offset_ms, 1875);
    assert_eq!(s.delay_ms, 750);
    assert!(!s.is_safe());
    assert!(ClockSkew { offset_ms: -1000, delay_ms: 0 }.is_safe());
    assert!(!ClockSkew { offset_ms: -1001, delay_ms: 0 }.is_safe());
}

#[test]
fn intent_is_journaled_before_the_order_goes_out() {
    let mut engine = ExecEngine::new(ExecConfig::default(), Some(OrderJournal::new()));
    let opp = dummy_opportunity();
    let mut r = engine.begin_opportunity(&opp, 1_000).unwrap();
    match engine.next_action(&mut r, &opp, 2_000) {
        ExecAction::SubmitLeg { leg: 0, .. } => {}
        _ => panic!("expected the first leg"),
    }
    {
        let journal = engine.journal().unwrap();
        assert_eq!(journal.len(), 1);
        let unacked = journal.find_unacknowledged();
        assert_eq!(unacked.len(), 1);
        match unacked[0] {
            JournalEntry::Intent { ts_ns, venue, symbol, side, .. } => {
                assert_eq!(*ts_ns, 2_000);
                assert_eq!(venue, "BINANCE");
                assert_eq!(symbol, "BTCUSDT");
                assert_eq!(side, "Buy");
            }
            _ => panic!("expected an intent"),
        }
    }
    engine.on_leg_submitted(&mut r, &opp, &Ok(()), 3_000);
    let journal = engine.journal().unwrap();
    assert_eq!(journal.len(), 2);
    assert!(journal.find_unacknowledged().is_empty());
}

#[test]
fn abandoned_opportunity_is_still_a_duplicate() {
    let mut engine = ExecEngine::new(ExecConfig::default(), None);
    let opp = dummy_opportunity();
    // Admitted, then dropped before any leg (as after a failed price check).
    assert!(engine.begin_opportunity(&opp, 1_000).is_some());
    assert!(engine.begin_opportunity(&opp, 2_000).is_none());
}
