use triarb::risk::{RiskConfig, RiskController, RiskRejection};
use triarb::types::SymbolId;

fn btc() -> SymbolId {
    SymbolId { venue: "BINANCE".into(), symbol: "BTCUSDT".into() }
}

#[test]
fn test_risk_controller_allows_normal() {
    let rc = RiskController::new(RiskConfig::default());
    assert!(rc.check().is_ok());
}

#[test]
fn test_circuit_breaker_trips_after_n_failures() {
    let mut rc = RiskController::new(RiskConfig {
        max_consecutive_failures: 3,
        circuit_breaker_cooldown_ns: 10_000_000_000,
        ..Default::default()
    });
    for _ in 0..3 {
        rc.record_failure();
    }
    assert!(rc.check().is_err());
    assert!(matches!(rc.check(), Err(RiskRejection::CircuitBreakerActive { .. })));
}

#[test]
fn test_circuit_breaker_resets_after_success() {
    let mut rc = RiskController::new(RiskConfig { max_consecutive_failures: 3, ..Default::default() });
    rc.record_failure();
    rc.record_failure();
    rc.record_success(100, &btc());
    assert!(rc.check().is_ok(), "success should reset consecutive failures");
}

#[test]
fn test_daily_trade_cap() {
    let mut rc = RiskController::new(RiskConfig {
        max_trades_per_window: 5,
        trade_window_ns: 3_600_000_000_000,
        ..Default::default()
    });
    for _ in 0..5 {
        rc.record_success(100, &btc());
    }
    assert!(rc.check().is_err());
    assert!(matches!(rc.check(), Err(RiskRejection::DailyTradeCapExceeded { .. })));
}

#[test]
fn test_symbol_notional_limit() {
    let mut rc = RiskController::new(RiskConfig { max_notional_per_symbol: 1000, ..Default::default() });
    let sym = btc();
    assert!(rc.check_symbol_notional(&sym, 500).is_ok());
    rc.record_success(500, &sym);
    // Now the running total is 500, so 600 would exceed the 1000 limit
    assert!(rc.check_symbol_notional(&sym, 600).is_err());
    // But 400 would still be within the budget (500+400=900 < 1000)
    assert!(rc.check_symbol_notional(&sym, 400).is_ok());
}

#[test]
fn breaker_reports_remaining_seconds_and_expires() {
    let mut rc = RiskController::new(RiskConfig {
        max_consecutive_failures: 2,
        circuit_breaker_cooldown_ns: 10_000_000_000,
        ..Default::default()
    });
    rc.record_failure_at(1_000_000_000);
    assert!(rc.check_at(1_000_000_000).is_ok());
    rc.record_failure_at(1_000_000_000);
    match rc.check_at(4_500_000_000) {
        Err(RiskRejection::CircuitBreakerActive { remaining_secs }) => assert_eq!(remaining_secs, 6),
        _ => panic!("breaker should be open"),
    }
    assert!(rc.check_at(11_000_000_000).is_ok());
    assert_eq!(rc.consecutive_failures(), 2);
}

#[test]
fn trades_leave_the_window() {
    let mut rc = RiskController::new(RiskConfig {
        max_trades_per_window: 2,
        trade_window_ns: 100,
        ..Default::default()
    });
    rc.record_success_at(1, &btc(), 1_000);
    rc.record_success_at(1, &btc(), 1_050);
    match rc.check_at(1_060) {
        Err(RiskRejection::DailyTradeCapExceeded { trades, max }) => assert_eq!((trades, max), (2, 2)),
        _ => panic!("cap should be reached"),
    }
    assert!(rc.check_at(1_120).is_ok());
    assert_eq!(rc.symbol_notional(&btc()), 2);
    match rc.check_symbol_notional(&btc(), i64::MAX - 2) {
        Err(RiskRejection::MaxNotionalExceeded { current, max, .. }) => {
            assert_eq!(current, i64::MAX);
            assert_eq!(max, 10_000_000_000_000_000);
        }
        _ => panic!("notional cap should be exceeded"),
    }
}

#[test]
fn rejection_messages() {
    let breaker = RiskRejection::CircuitBreakerActive { remaining_secs: 42 };
    assert_eq!(breaker.message(), "circuit breaker active for 42s");
    let cap = RiskRejection::DailyTradeCapExceeded { trades: 1000, max: 1000 };
    assert_eq!(cap.message(), "daily trade cap exceeded: 1000/1000");
    let notional = RiskRejection::MaxNotionalExceeded {
        symbol: SymbolId { venue: "BINANCE".into(), symbol: "BTCUSDT".into() },
        current: -1_500,
        max: 1_000,
    };
    assert_eq!(
        notional.message(),
        "max notional exceeded for SymbolId { venue: \"BINANCE\", symbol: \"BTCUSDT\" }: -1500/1000"
    );
    let extreme = RiskRejection::MaxNotionalExceeded {
        symbol: SymbolId { venue: "V".into(), symbol: "S".into() },
        current: i64::MIN,
        max: 0,
    };
    assert_eq!(extreme.message(), format!("max notional exceeded for SymbolId {{ venue: \"V\", symbol: \"S\" }}: {}/0", i64::MIN));
}
