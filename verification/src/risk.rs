use vstd::prelude::*;
use vstd::string::*;

use crate::clock::nanos;
use crate::text::{dec_digits, dec_int, push_decimal, push_signed_decimal};
use crate::types::SymbolId;

verus! {

/// Limits of the risk controller.
#[derive(Debug, Clone, Copy)]
pub struct RiskConfig {
    /// Consecutive execution failures that trip the circuit breaker.
    pub max_consecutive_failures: u32,
    /// How long a tripped circuit breaker stays open, in nanoseconds.
    pub circuit_breaker_cooldown_ns: u64,
    /// Trades allowed within the rolling window.
    pub max_trades_per_window: u32,
    /// Length of the rolling trade window, in nanoseconds.
    pub trade_window_ns: u64,
    /// Cap on the running notional of one symbol.
    pub max_notional_per_symbol: i64,
}

impl Default for RiskConfig {
    /// Five failures, a one-minute cooldown, a thousand trades per day, and
    /// a notional cap of 10^16.
    fn default() -> (c: RiskConfig)
        ensures
            c.max_consecutive_failures == 5,
            c.circuit_breaker_cooldown_ns == 60_000_000_000,
            c.max_trades_per_window == 1000,
            c.trade_window_ns == 86_400_000_000_000,
            c.max_notional_per_symbol == 10_000_000_000_000_000,
    {
        RiskConfig {
            max_consecutive_failures: 5,
            circuit_breaker_cooldown_ns: 60_000_000_000,
            max_trades_per_window: 1000,
            trade_window_ns: 86_400_000_000_000,
            max_notional_per_symbol: 10_000_000_000_000_000,
        }
    }
}

/// Why the risk controller refuses a trade.
#[allow(inconsistent_fields)]
pub enum RiskRejection {
    CircuitBreakerActive { remaining_secs: u64 },
    DailyTradeCapExceeded { trades: u32, max: u32 },
    MaxNotionalExceeded { symbol: SymbolId, current: i64, max: i64 },
}

/// How a symbol identity reads in a refusal: its two fields between quotes,
/// written as they are.
pub open spec fn symbol_text(key: (Seq<char>, Seq<char>)) -> Seq<char> {
    "SymbolId { venue: \""@ + key.0 + "\", symbol: \""@ + key.1 + "\" }"@
}

impl RiskRejection {
    /// Text of the refusal: the breaker's remaining seconds, the trades
    /// against the cap, or the symbol with its notional against the cap.
    pub fn message(&self) -> (s: String)
        ensures
            s@ == match self {
                RiskRejection::CircuitBreakerActive { remaining_secs } => "circuit breaker active for "@
                    + dec_digits(*remaining_secs as nat) + "s"@,
                RiskRejection::DailyTradeCapExceeded { trades, max } => "daily trade cap exceeded: "@ + dec_digits(
                    *trades as nat,
                ) + "/"@ + dec_digits(*max as nat),
                RiskRejection::MaxNotionalExceeded { symbol, current, max } => "max notional exceeded for "@
                    + symbol_text(symbol@) + ": "@ + dec_int(*current as int) + "/"@ + dec_int(*max as int),
            },
    {
        let mut s = String::new();
        match self {
            RiskRejection::CircuitBreakerActive { remaining_secs } => {
                s.append("circuit breaker active for ");
                push_decimal(&mut s, *remaining_secs);
                s.append("s");
            },
            RiskRejection::DailyTradeCapExceeded { trades, max } => {
                s.append("daily trade cap exceeded: ");
                push_decimal(&mut s, *trades as u64);
                s.append("/");
                push_decimal(&mut s, *max as u64);
            },
            RiskRejection::MaxNotionalExceeded { symbol, current, max } => {
                s.append("max notional exceeded for ");
                s.append("SymbolId { venue: \"");
                s.append(symbol.venue.as_str());
                s.append("\", symbol: \"");
                s.append(symbol.symbol.as_str());
                s.append("\" }");
                s.append(": ");
                push_signed_decimal(&mut s, *current);
                s.append("/");
                push_signed_decimal(&mut s, *max);
            },
        }
        s
    }
}

/// A trade at `t` counts in the window ending at `now`.
pub open spec fn in_window(t: u64, now: u64, window: u64) -> bool {
    t > now - window
}

/// Number of trades among `ts[0..k]` inside the window ending at `now`.
pub open spec fn recent_count(ts: Seq<u64>, now: u64, window: u64, k: int) -> nat
    decreases k,
{
    if k <= 0 {
        0
    } else {
        recent_count(ts, now, window, k - 1) + if in_window(ts[k - 1], now, window) {
            1nat
        } else {
            0nat
        }
    }
}

/// Running notional of a symbol; 0 when none was recorded.
pub open spec fn notional_of(m: Seq<((Seq<char>, Seq<char>), i64)>, key: (Seq<char>, Seq<char>)) -> int {
    if exists|p: int| 0 <= p < m.len() && m[p].0 == key {
        m[choose|p: int| 0 <= p < m.len() && m[p].0 == key].1 as int
    } else {
        0
    }
}

pub open spec fn window_filter(now: u64, window: u64) -> spec_fn(u64) -> bool {
    |t: u64| in_window(t, now, window)
}

/// Circuit breaker, rolling trade cap and per-symbol notional limits.
pub struct RiskController {
    config: RiskConfig,
    consecutive_failures: u32,
    circuit_breaker_until: Option<u64>,
    trade_timestamps: Vec<u64>,
    symbol_notional: Vec<(SymbolId, i64)>,
}

impl RiskController {
    pub closed spec fn cfg(&self) -> RiskConfig {
        self.config
    }

    pub closed spec fn failures(&self) -> u32 {
        self.consecutive_failures
    }

    pub closed spec fn breaker_until(&self) -> Option<u64> {
        self.circuit_breaker_until
    }

    pub closed spec fn trades(&self) -> Seq<u64> {
        self.trade_timestamps@
    }

    pub closed spec fn notionals(&self) -> Seq<((Seq<char>, Seq<char>), i64)> {
        self.symbol_notional@.map_values(|e: (SymbolId, i64)| (e.0@, e.1))
    }

    pub closed spec fn wf(&self) -> bool {
        forall|p: int, q: int|
            0 <= p < self.notionals().len() && 0 <= q < self.notionals().len() && p != q ==> (
            #[trigger] self.notionals()[p]).0 != (#[trigger] self.notionals()[q]).0
    }

    pub fn new(config: RiskConfig) -> (r: RiskController)
        ensures
            r.wf(),
            r.cfg() == config,
            r.failures() == 0,
            r.breaker_until() is None,
            r.trades().len() == 0,
            r.notionals().len() == 0,
    {
        let r = RiskController {
            config,
            consecutive_failures: 0,
            circuit_breaker_until: None,
            trade_timestamps: Vec::new(),
            symbol_notional: Vec::new(),
        };
        assert(r.notionals() =~= Seq::<((Seq<char>, Seq<char>), i64)>::empty());
        r
    }

    fn count_recent(&self, now_ns: u64) -> (n: usize)
        ensures
            n == recent_count(self.trades(), now_ns, self.cfg().trade_window_ns, self.trades().len() as int),
    {
        let window = self.config.trade_window_ns;
        let mut n: usize = 0;
        let mut k: usize = 0;
        while k < self.trade_timestamps.len()
            invariant
                k <= self.trade_timestamps.len(),
                window == self.cfg().trade_window_ns,
                n == recent_count(self.trades(), now_ns, window, k as int),
                n <= k,
            decreases self.trade_timestamps.len() - k,
        {
            let t = self.trade_timestamps[k];
            if now_ns < window || t > now_ns - window {
                n = n + 1;
            }
            k = k + 1;
        }
        n
    }

    /// Whether a trade may go ahead at `now_ns`.
    ///
    /// Refused while the circuit breaker is open (with the whole seconds it
    /// stays open), then when the trades inside the rolling window reach the cap.
    pub fn check_at(&self, now_ns: u64) -> (r: Result<(), RiskRejection>)
        ensures
            match self.breaker_until() {
                Some(until) if now_ns < until => r matches Err(RiskRejection::CircuitBreakerActive { remaining_secs })
                    && remaining_secs == (until - now_ns) / 1_000_000_000,
                _ => {
                    let recent = recent_count(self.trades(), now_ns, self.cfg().trade_window_ns, self.trades().len() as int);
                    if recent as u32 >= self.cfg().max_trades_per_window {
                        r matches Err(RiskRejection::DailyTradeCapExceeded { trades, max }) && trades == recent as u32
                            && max == self.cfg().max_trades_per_window
                    } else {
                        r is Ok
                    }
                },
            },
    {
        if let Some(until) = self.circuit_breaker_until {
            if now_ns < until {
                return Err(RiskRejection::CircuitBreakerActive { remaining_secs: (until - now_ns) / 1_000_000_000 });
            }
        }
        let recent = self.count_recent(now_ns) as u32;
        if recent >= self.config.max_trades_per_window {
            return Err(RiskRejection::DailyTradeCapExceeded { trades: recent, max: self.config.max_trades_per_window });
        }
        Ok(())
    }

    /// Whether a trade may go ahead now.
    pub fn check(&self) -> (r: Result<(), RiskRejection>)
        ensures
            exists|now: u64| #[trigger] self.check_result_at(r, now),
    {
        let now = nanos();
        let r = self.check_at(now);
        assert(self.check_result_at(r, now));
        r
    }

    /// `r` is what `check_at(now)` returns.
    pub open spec fn check_result_at(&self, r: Result<(), RiskRejection>, now: u64) -> bool {
        match self.breaker_until() {
            Some(until) if now < until => r matches Err(RiskRejection::CircuitBreakerActive { remaining_secs })
                && remaining_secs == (until - now) / 1_000_000_000,
            _ => {
                let recent = recent_count(self.trades(), now, self.cfg().trade_window_ns, self.trades().len() as int);
                if recent as u32 >= self.cfg().max_trades_per_window {
                    r matches Err(RiskRejection::DailyTradeCapExceeded { trades, max }) && trades == recent as u32
                        && max == self.cfg().max_trades_per_window
                } else {
                    r is Ok
                }
            },
        }
    }

    fn find_symbol(&self, symbol: &SymbolId) -> (r: Option<usize>)
        requires
            self.wf(),
        ensures
            match r {
                Some(p) => p < self.notionals().len() && self.notionals()[p as int].0 == symbol@
                    && notional_of(self.notionals(), symbol@) == self.notionals()[p as int].1,
                None => notional_of(self.notionals(), symbol@) == 0 && !(exists|p: int|
                    0 <= p < self.notionals().len() && self.notionals()[p].0 == symbol@),
            },
    {
        let mut k: usize = 0;
        while k < self.symbol_notional.len()
            invariant
                self.wf(),
                k <= self.symbol_notional.len(),
                forall|q: int| 0 <= q < k ==> self.notionals()[q].0 != symbol@,
            decreases self.symbol_notional.len() - k,
        {
            if self.symbol_notional[k].0.same_as(symbol) {
                proof {
                    let m = self.notionals();
                    assert(m[k as int].0 == symbol@);
                    let c = choose|p: int| 0 <= p < m.len() && m[p].0 == symbol@;
                    assert(m[c].0 == symbol@);
                    assert(c == k as int);
                }
                return Some(k);
            }
            k = k + 1;
        }
        None
    }

    /// Running notional recorded for a symbol (0 when none).
    pub fn symbol_notional(&self, symbol: &SymbolId) -> (r: i64)
        requires
            self.wf(),
        ensures
            r == notional_of(self.notionals(), symbol@),
    {
        match self.find_symbol(symbol) {
            Some(p) => self.symbol_notional[p].1,
            None => 0,
        }
    }

    /// Consecutive failures since the last success.
    pub fn consecutive_failures(&self) -> (r: u32)
        ensures
            r == self.failures(),
    {
        self.consecutive_failures
    }

    /// Whether adding `additional` keeps the symbol's notional within the cap.
    pub fn check_symbol_notional(&self, symbol: &SymbolId, additional: i64) -> (r: Result<(), RiskRejection>)
        requires
            self.wf(),
            i64::MIN <= notional_of(self.notionals(), symbol@) + additional <= i64::MAX,
        ensures
            notional_of(self.notionals(), symbol@) + additional > self.cfg().max_notional_per_symbol ==> (r matches Err(
                RiskRejection::MaxNotionalExceeded { symbol: s, current, max },
            ) && s@ == symbol@ && current == notional_of(self.notionals(), symbol@) + additional && max
                == self.cfg().max_notional_per_symbol),
            notional_of(self.notionals(), symbol@) + additional <= self.cfg().max_notional_per_symbol ==> r is Ok,
    {
        let current = self.symbol_notional(symbol);
        if current + additional > self.config.max_notional_per_symbol {
            return Err(
                RiskRejection::MaxNotionalExceeded {
                    symbol: symbol.clone_id(),
                    current: current + additional,
                    max: self.config.max_notional_per_symbol,
                },
            );
        }
        Ok(())
    }

    /// Records a successful trade at `now_ns`: failures reset, the trade
    /// counts in the window, and its size adds to the symbol's notional.
    /// Trades outside the window are then dropped; when more than twice the
    /// cap remain, all notionals reset.
    pub fn record_success_at(&mut self, trade_size: i64, symbol: &SymbolId, now_ns: u64)
        requires
            old(self).wf(),
            i64::MIN <= notional_of(old(self).notionals(), symbol@) + trade_size <= i64::MAX,
        ensures
            final(self).wf(),
            success_recorded(*old(self), *final(self), symbol@, trade_size, now_ns),
    {
        self.consecutive_failures = 0;
        self.trade_timestamps.push(now_ns);
        let ghost m0 = self.notionals();
        match self.find_symbol(symbol) {
            Some(p) => {
                let (s, v) = self.symbol_notional.remove(p);
                self.symbol_notional.insert(p, (s, v + trade_size));
                proof {
                    let m1 = self.notionals();
                    assert(m1 =~= m0.update(p as int, (symbol@, (v + trade_size) as i64)));
                    assert forall|x: int, y: int| 0 <= x < m1.len() && 0 <= y < m1.len() && x != y implies (
                    #[trigger] m1[x]).0 != (#[trigger] m1[y]).0 by {
                        assert(m1[x].0 == m0[x].0 && m1[y].0 == m0[y].0);
                    }
                    assert(m1[p as int].0 == symbol@);
                    assert forall|k: (Seq<char>, Seq<char>)| k != symbol@ implies #[trigger] notional_of(m1, k) == notional_of(m0, k) by {
                        if exists|q: int| 0 <= q < m0.len() && m0[q].0 == k {
                            let q = choose|q: int| 0 <= q < m0.len() && m0[q].0 == k;
                            assert(m1[q].0 == k);
                            let c1 = choose|q: int| 0 <= q < m1.len() && m1[q].0 == k;
                            assert(c1 == q);
                        }
                        if exists|q: int| 0 <= q < m1.len() && m1[q].0 == k {
                            let q = choose|q: int| 0 <= q < m1.len() && m1[q].0 == k;
                            assert(m0[q].0 == k);
                        }
                    }
                    let c = choose|q: int| 0 <= q < m1.len() && m1[q].0 == symbol@;
                    assert(m1[c].0 == symbol@);
                    assert(c == p as int);
                }
            },
            None => {
                self.symbol_notional.push((symbol.clone_id(), trade_size));
                proof {
                    let m1 = self.notionals();
                    assert(m1 =~= m0.push((symbol@, trade_size)));
                    assert forall|x: int, y: int| 0 <= x < m1.len() && 0 <= y < m1.len() && x != y implies (
                    #[trigger] m1[x]).0 != (#[trigger] m1[y]).0 by {
                        if x == m0.len() {
                            assert(m0[y].0 != symbol@);
                        } else if y == m0.len() {
                            assert(m0[x].0 != symbol@);
                        }
                    }
                    assert forall|k: (Seq<char>, Seq<char>)| k != symbol@ implies #[trigger] notional_of(m1, k) == notional_of(m0, k) by {
                        if exists|q: int| 0 <= q < m0.len() && m0[q].0 == k {
                            let q = choose|q: int| 0 <= q < m0.len() && m0[q].0 == k;
                            assert(m1[q].0 == k);
                            let c1 = choose|q: int| 0 <= q < m1.len() && m1[q].0 == k;
                            if c1 != q {
                                assert(c1 < m0.len());
                            }
                        }
                        if exists|q: int| 0 <= q < m1.len() && m1[q].0 == k {
                            let q = choose|q: int| 0 <= q < m1.len() && m1[q].0 == k;
                            assert(q < m0.len());
                            assert(m0[q].0 == k);
                        }
                    }
                    let last = m0.len() as int;
                    assert(m1[last].0 == symbol@);
                    let c = choose|q: int| 0 <= q < m1.len() && m1[q].0 == symbol@;
                    assert(m1[c].0 == symbol@);
                    if c != last {
                        assert(m0[c].0 == symbol@);
                    }
                }
            },
        }
        self.gc_at(now_ns);
    }

    /// Records a successful trade now.
    pub fn record_success(&mut self, trade_size: i64, symbol: &SymbolId)
        requires
            old(self).wf(),
            i64::MIN <= notional_of(old(self).notionals(), symbol@) + trade_size <= i64::MAX,
        ensures
            final(self).wf(),
            exists|now: u64| #[trigger] success_recorded(*old(self), *final(self), symbol@, trade_size, now),
    {
        let now = nanos();
        self.record_success_at(trade_size, symbol, now);
    }

    fn gc_at(&mut self, now_ns: u64)
        requires
            old(self).wf(),
        ensures
            final(self).wf(),
            final(self).cfg() == old(self).cfg(),
            final(self).failures() == old(self).failures(),
            final(self).breaker_until() == old(self).breaker_until(),
            final(self).trades() == old(self).trades().filter(window_filter(now_ns, old(self).cfg().trade_window_ns)),
            final(self).trades().len() > 2 * old(self).cfg().max_trades_per_window ==> final(self).notionals().len() == 0,
            final(self).trades().len() <= 2 * old(self).cfg().max_trades_per_window ==> final(self).notionals() == old(self).notionals(),
    {
        let window = self.config.trade_window_ns;
        let ghost t0 = self.trades();
        let ghost pred = window_filter(now_ns, window);
        let mut kept: Vec<u64> = Vec::new();
        let mut k: usize = 0;
        while k < self.trade_timestamps.len()
            invariant
                *self == *old(self),
                self.wf(),
                k <= self.trade_timestamps.len(),
                t0 == self.trades(),
                window == self.cfg().trade_window_ns,
                pred == window_filter(now_ns, window),
                kept@ == t0.take(k as int).filter(pred),
            decreases self.trade_timestamps.len() - k,
        {
            let t = self.trade_timestamps[k];
            proof {
                t0.take(k as int).lemma_filter_push(t0[k as int], pred);
                assert(t0.take(k + 1) =~= t0.take(k as int).push(t0[k as int]));
            }
            if now_ns < window || t > now_ns - window {
                kept.push(t);
            }
            k = k + 1;
        }
        proof {
            assert(t0.take(t0.len() as int) =~= t0);
        }
        self.trade_timestamps = kept;
        assert(self.notionals() == old(self).notionals());
        if (self.trade_timestamps.len() as u64) > (self.config.max_trades_per_window as u64) * 2 {
            self.symbol_notional.clear();
            assert(self.notionals() =~= Seq::<((Seq<char>, Seq<char>), i64)>::empty());
        }
    }

    /// Records an execution failure at `now_ns`; reaching the failure limit
    /// opens the circuit breaker for the cooldown (saturating at the end of time).
    pub fn record_failure_at(&mut self, now_ns: u64)
        requires
            old(self).wf(),
            old(self).failures() < u32::MAX,
        ensures
            failure_recorded(*old(self), *final(self), now_ns),
            final(self).wf(),
    {
        self.consecutive_failures = self.consecutive_failures + 1;
        if self.consecutive_failures >= self.config.max_consecutive_failures {
            self.circuit_breaker_until = Some(now_ns.saturating_add(self.config.circuit_breaker_cooldown_ns));
        }
    }

    /// Records an execution failure now.
    pub fn record_failure(&mut self)
        requires
            old(self).wf(),
            old(self).failures() < u32::MAX,
        ensures
            final(self).wf(),
            exists|now: u64| #[trigger] failure_recorded(*old(self), *final(self), now),
    {
        let now = nanos();
        self.record_failure_at(now);
    }
}

/// `after` is `before` with a successful trade of `size` on `symbol` recorded
/// at `t`: failures reset; the trade joins the window and trades outside it
/// are dropped; the size adds to the symbol's notional, unless more than
/// twice the trade cap remain in the window, in which case all notionals reset.
pub open spec fn success_recorded(
    before: RiskController,
    after: RiskController,
    symbol: (Seq<char>, Seq<char>),
    size: i64,
    t: u64,
) -> bool {
    &&& after.cfg() == before.cfg()
    &&& after.failures() == 0
    &&& after.breaker_until() == before.breaker_until()
    &&& after.trades() == before.trades().push(t).filter(window_filter(t, before.cfg().trade_window_ns))
    &&& after.trades().len() > 2 * before.cfg().max_trades_per_window ==> after.notionals().len() == 0
    &&& after.trades().len() <= 2 * before.cfg().max_trades_per_window ==> notional_of(after.notionals(), symbol)
        == notional_of(before.notionals(), symbol) + size
    &&& after.trades().len() <= 2 * before.cfg().max_trades_per_window ==> forall|k: (Seq<char>, Seq<char>)|
        k != symbol ==> #[trigger] notional_of(after.notionals(), k) == notional_of(before.notionals(), k)
}

/// `after` is `before` with one more failure recorded at `t`: the failure
/// that reaches the limit opens the breaker until `t` plus the cooldown
/// (saturating at the end of time).
pub open spec fn failure_recorded(before: RiskController, after: RiskController, t: u64) -> bool {
    &&& after.failures() == before.failures() + 1
    &&& after.cfg() == before.cfg()
    &&& after.trades() == before.trades()
    &&& after.notionals() == before.notionals()
    &&& after.breaker_until() == if after.failures() >= before.cfg().max_consecutive_failures {
        Some(t.saturating_add(before.cfg().circuit_breaker_cooldown_ns))
    } else {
        before.breaker_until()
    }
}

/// The failure that reaches the limit trips the breaker: every check from
/// then until the cooldown has passed is refused, reporting the whole seconds
/// left.
pub proof fn lemma_breaker_trips(
    before: RiskController,
    after: RiskController,
    t: u64,
    now: u64,
    res: Result<(), RiskRejection>,
)
    requires
        failure_recorded(before, after, t),
        after.failures() >= after.cfg().max_consecutive_failures,
        t <= now < t + after.cfg().circuit_breaker_cooldown_ns,
        t + after.cfg().circuit_breaker_cooldown_ns <= u64::MAX,
        after.check_result_at(res, now),
    ensures
        res matches Err(RiskRejection::CircuitBreakerActive { remaining_secs }) && remaining_secs == (t
            + after.cfg().circuit_breaker_cooldown_ns - now) / 1_000_000_000,
{
}

/// The circuit breaker refuses every trade from the failure that trips it
/// until its cooldown has passed.
pub proof fn lemma_breaker_refuses(r: RiskController, res: Result<(), RiskRejection>, now: u64)
    requires
        r.breaker_until() matches Some(until) && now < until,
        r.check_result_at(res, now),
    ensures
        res matches Err(RiskRejection::CircuitBreakerActive { .. }),
{
}

/// With the breaker closed and fewer recent trades than the cap, a check passes.
pub proof fn lemma_check_passes(r: RiskController, res: Result<(), RiskRejection>, now: u64)
    requires
        r.breaker_until() is None,
        recent_count(r.trades(), now, r.cfg().trade_window_ns, r.trades().len() as int) < r.cfg().max_trades_per_window,
        r.check_result_at(res, now),
    ensures
        res is Ok,
{
}

/// The trades counted against the cap are exactly those made less than one
/// window before `now`: `t + window > now`.
pub proof fn lemma_recent_count_is_window_filter(ts: Seq<u64>, now: u64, window: u64, k: int)
    requires
        0 <= k <= ts.len(),
    ensures
        recent_count(ts, now, window, k) == ts.take(k).filter(|t: u64| t + window > now).len(),
    decreases k,
{
    reveal(Seq::filter);
    if k > 0 {
        lemma_recent_count_is_window_filter(ts, now, window, k - 1);
        assert(ts.take(k).drop_last() == ts.take(k - 1));
        assert(ts.take(k).last() == ts[k - 1]);
    } else {
        assert(ts.take(k).len() == 0);
    }
}

/// After a success at `t`, the trade history holds exactly the earlier trades
/// and `t` itself that lie less than one window before `t`: each kept trade
/// `x` has `x + window > t`, and each such trade is kept.
pub proof fn lemma_success_keeps_window(
    before: RiskController,
    after: RiskController,
    symbol: (Seq<char>, Seq<char>),
    size: i64,
    t: u64,
)
    requires
        success_recorded(before, after, symbol, size, t),
    ensures
        forall|i: int| 0 <= i < after.trades().len() ==> (#[trigger] after.trades()[i]) + before.cfg().trade_window_ns > t,
        forall|i: int|
            0 <= i < before.trades().len() && (#[trigger] before.trades()[i]) + before.cfg().trade_window_ns > t
                ==> after.trades().contains(before.trades()[i]),
        before.cfg().trade_window_ns > 0 ==> after.trades().contains(t),
{
    let w = before.cfg().trade_window_ns;
    let all = before.trades().push(t);
    let f = window_filter(t, w);
    assert forall|i: int| 0 <= i < after.trades().len() implies (#[trigger] after.trades()[i]) + w > t by {
        all.lemma_filter_pred(f, i);
    }
    assert forall|i: int| 0 <= i < before.trades().len() && (#[trigger] before.trades()[i]) + w > t implies after.trades().contains(
        before.trades()[i],
    ) by {
        assert(all[i] == before.trades()[i]);
        all.lemma_filter_contains(f, i);
    }
    if w > 0 {
        assert(all[all.len() - 1] == t);
        all.lemma_filter_contains(f, all.len() - 1);
    }
}

} // verus!
