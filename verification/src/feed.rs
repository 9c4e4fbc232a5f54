use vstd::prelude::*;

use crate::book::{
    apply_book_update_at, apply_trade, books_after, rate_refreshed, books_after_trade, graph_after, same_rates, BookMap, BookUpdate,
    BookView, TradePrint,
};
use crate::graph::{ExchangeRateGraph, GraphView};
use crate::types::SymbolId;

verus! {

/// Book depth requested per subscription.
pub const TOP_DEPTH: u16 = 10;

/// First reconnect delay, in milliseconds.
pub const RECONNECT_BASE_MS: u64 = 250;

/// Longest reconnect delay, in milliseconds.
pub const RECONNECT_MAX_MS: u64 = 30_000;

/// Consecutive errors after which the feed counts as degraded.
pub const DEGRADED_ERRORS: u32 = 5;

/// Settings of a market-data feed.
pub struct FeedConfig {
    /// Optional WebSocket endpoint override.
    pub endpoint: Option<String>,
    /// Silence after which the feed counts as stale, in nanoseconds.
    pub message_timeout_ns: u64,
}

impl Default for FeedConfig {
    /// No endpoint override and a ten-second message timeout.
    fn default() -> (c: FeedConfig)
        ensures
            c.endpoint is None,
            c.message_timeout_ns == 10_000_000_000,
    {
        FeedConfig { endpoint: None, message_timeout_ns: 10_000_000_000 }
    }
}

/// Connection health snapshot of a feed.
#[derive(Debug, Clone, Copy)]
pub struct FeedHealth {
    pub connected: bool,
    /// Time of the last message, in nanoseconds.
    pub last_message_at: Option<u64>,
    pub consecutive_errors: u32,
    pub degraded: bool,
}

/// No message within `max_age` of `now`, or no message at all.
pub open spec fn stale_at(last: Option<u64>, now: u64, max_age: u64) -> bool {
    match last {
        Some(t) => now > t && now - t > max_age,
        None => true,
    }
}

impl FeedHealth {
    /// Whether no message arrived within `max_age_ns` before `now_ns`.
    pub fn is_stale_at(&self, now_ns: u64, max_age_ns: u64) -> (r: bool)
        ensures
            r == stale_at(self.last_message_at, now_ns, max_age_ns),
    {
        match self.last_message_at {
            Some(t) => now_ns > t && now_ns - t > max_age_ns,
            None => true,
        }
    }

    /// Whether no message arrived within the last `max_age_ns`.
    pub fn is_stale(&self, max_age_ns: u64) -> (r: bool)
        ensures
            exists|now: u64| r == #[trigger] stale_at(self.last_message_at, now, max_age_ns),
            self.last_message_at is None ==> r,
    {
        let now = crate::clock::nanos();
        self.is_stale_at(now, max_age_ns)
    }
}

/// Counts of processed market-data messages.
#[derive(Debug, Clone, Copy)]
pub struct FeedCounters {
    pub books: u64,
    pub trades: u64,
}

impl Default for FeedCounters {
    fn default() -> (c: FeedCounters)
        ensures
            c.books == 0,
            c.trades == 0,
    {
        FeedCounters { books: 0, trades: 0 }
    }
}

/// A market-data message.
pub enum FeedEvent {
    Book(BookUpdate),
    Trade(TradePrint),
}

pub open spec fn pow2(e: nat) -> nat
    decreases e,
{
    if e == 0 {
        1
    } else {
        2 * pow2((e - 1) as nat)
    }
}

/// Delay before reconnect attempt `attempt`: the base doubled per attempt
/// (at most seven doublings), capped at the maximum.
pub open spec fn spec_reconnect_delay_ms(attempt: u32) -> int {
    let e: nat = if attempt < 7 { attempt as nat } else { 7 };
    let d = RECONNECT_BASE_MS * pow2(e);
    if d < RECONNECT_MAX_MS {
        d
    } else {
        RECONNECT_MAX_MS as int
    }
}

/// Reconnect delay in milliseconds for attempt number `attempt`.
pub fn reconnect_delay_ms(attempt: u32) -> (d: u64)
    ensures
        d == spec_reconnect_delay_ms(attempt),
{
    let e: u32 = if attempt < 7 { attempt } else { 7 };
    let mut f: u64 = 1;
    let mut k: u32 = 0;
    while k < e
        invariant
            k <= e <= 7,
            f == pow2(k as nat),
            f <= 128,
        decreases e - k,
    {
        proof {
            lemma_pow2_monotone((k + 1) as nat, 7);
            assert(pow2(7) == 128) by {
                reveal_with_fuel(pow2, 8);
            }
        }
        f = f * 2;
        k = k + 1;
    }
    let d = RECONNECT_BASE_MS * f;
    if d < RECONNECT_MAX_MS {
        d
    } else {
        RECONNECT_MAX_MS
    }
}

/// Decision state of a market-data feed: connection, reconnect backoff,
/// error counts and subscriptions. The caller performs the network work and
/// reports each outcome.
pub struct FeedState {
    subscribed: Vec<SymbolId>,
    connected: bool,
    last_message_at: Option<u64>,
    consecutive_errors: u32,
    message_timeout_ns: u64,
    reconnect_attempt: u32,
    next_reconnect_at: Option<u64>,
    counters: FeedCounters,
}

impl FeedState {
    pub closed spec fn is_connected_spec(&self) -> bool {
        self.connected
    }

    pub closed spec fn errors(&self) -> u32 {
        self.consecutive_errors
    }

    pub closed spec fn attempt(&self) -> u32 {
        self.reconnect_attempt
    }

    pub closed spec fn next_reconnect(&self) -> Option<u64> {
        self.next_reconnect_at
    }

    pub closed spec fn last_message(&self) -> Option<u64> {
        self.last_message_at
    }

    pub closed spec fn timeout(&self) -> u64 {
        self.message_timeout_ns
    }

    pub closed spec fn subscriptions(&self) -> Seq<(Seq<char>, Seq<char>)> {
        self.subscribed@.map_values(|s: SymbolId| s@)
    }

    pub closed spec fn counts(&self) -> FeedCounters {
        self.counters
    }

    /// A disconnected feed with nothing subscribed.
    pub fn new(config: &FeedConfig) -> (f: FeedState)
        ensures
            !f.is_connected_spec(),
            f.errors() == 0,
            f.attempt() == 0,
            f.next_reconnect() is None,
            f.last_message() is None,
            f.timeout() == config.message_timeout_ns,
            f.subscriptions().len() == 0,
            f.counts().books == 0 && f.counts().trades == 0,
    {
        let f = FeedState {
            subscribed: Vec::new(),
            connected: false,
            last_message_at: None,
            consecutive_errors: 0,
            message_timeout_ns: config.message_timeout_ns,
            reconnect_attempt: 0,
            next_reconnect_at: None,
            counters: FeedCounters { books: 0, trades: 0 },
        };
        assert(f.subscriptions() =~= Seq::<(Seq<char>, Seq<char>)>::empty());
        f
    }

    pub fn is_connected(&self) -> (r: bool)
        ensures
            r == self.is_connected_spec(),
    {
        self.connected
    }

    pub fn counters(&self) -> (r: &FeedCounters)
        ensures
            *r == self.counts(),
    {
        &self.counters
    }

    /// The symbols subscribed so far.
    pub fn subscribed(&self) -> (r: &[SymbolId])
        ensures
            r@.map_values(|s: SymbolId| s@) == self.subscriptions(),
    {
        self.subscribed.as_slice()
    }

    /// Health at `now_ns`: degraded when disconnected, after five
    /// consecutive errors, or when no message came within the timeout.
    pub fn health_at(&self, now_ns: u64) -> (h: FeedHealth)
        ensures
            h.connected == self.is_connected_spec(),
            h.last_message_at == self.last_message(),
            h.consecutive_errors == self.errors(),
            h.degraded == (!self.is_connected_spec() || self.errors() >= DEGRADED_ERRORS || stale_at(
                self.last_message(),
                now_ns,
                self.timeout(),
            )),
    {
        let stale = match self.last_message_at {
            Some(t) => now_ns > t && now_ns - t > self.message_timeout_ns,
            None => true,
        };
        FeedHealth {
            connected: self.connected,
            last_message_at: self.last_message_at,
            consecutive_errors: self.consecutive_errors,
            degraded: !self.connected || self.consecutive_errors >= DEGRADED_ERRORS || stale,
        }
    }

    fn schedule_reconnect(&mut self, now_ns: u64)
        ensures
            final(self).attempt() == old(self).attempt().saturating_add(1),
            final(self).next_reconnect() == Some(
                now_ns.saturating_add((spec_reconnect_delay_ms(final(self).attempt()) * 1_000_000) as u64),
            ),
            final(self).is_connected_spec() == old(self).is_connected_spec(),
            final(self).errors() == old(self).errors(),
            final(self).last_message() == old(self).last_message(),
            final(self).timeout() == old(self).timeout(),
            final(self).subscriptions() == old(self).subscriptions(),
            final(self).counts() == old(self).counts(),
    {
        self.reconnect_attempt = self.reconnect_attempt.saturating_add(1);
        let delay = reconnect_delay_ms(self.reconnect_attempt);
        self.next_reconnect_at = Some(now_ns.saturating_add(delay * 1_000_000));
    }

    /// Reports the outcome of a connect attempt made at `now_ns`.
    ///
    /// Success clears errors and backoff; failure counts an error and
    /// schedules a reconnect.
    pub fn on_connect(&mut self, ok: bool, now_ns: u64)
        ensures
            final(self).is_connected_spec() == ok,
            ok ==> final(self).errors() == 0 && final(self).attempt() == 0 && final(self).next_reconnect() is None,
            !ok ==> final(self).errors() == old(self).errors().wrapping_add(1) && final(self).attempt()
                == old(self).attempt().saturating_add(1) && final(self).next_reconnect() == Some(
                now_ns.saturating_add((spec_reconnect_delay_ms(final(self).attempt()) * 1_000_000) as u64),
            ),
            final(self).last_message() == old(self).last_message(),
            final(self).timeout() == old(self).timeout(),
            final(self).subscriptions() == old(self).subscriptions(),
            final(self).counts() == old(self).counts(),
    {
        if ok {
            self.connected = true;
            self.consecutive_errors = 0;
            self.reconnect_attempt = 0;
            self.next_reconnect_at = None;
        } else {
            self.connected = false;
            self.consecutive_errors = self.consecutive_errors.wrapping_add(1);
            self.schedule_reconnect(now_ns);
        }
    }

    /// Whether a reconnect should be attempted at `now_ns`: the feed is
    /// disconnected and no reconnect is scheduled later than now.
    pub fn reconnect_due(&self, now_ns: u64) -> (r: bool)
        ensures
            r == (!self.is_connected_spec() && match self.next_reconnect() {
                Some(t) => now_ns >= t,
                None => true,
            }),
    {
        if self.connected {
            return false;
        }
        match self.next_reconnect_at {
            Some(t) => now_ns >= t,
            None => true,
        }
    }

    /// Reports the outcome of a reconnect attempt made at `now_ns`; on
    /// success, returns the symbols to subscribe again.
    pub fn on_reconnect(&mut self, ok: bool, now_ns: u64) -> (resubscribe: Vec<SymbolId>)
        ensures
            ok ==> final(self).is_connected_spec() && final(self).errors() == 0 && final(self).attempt() == 0
                && final(self).next_reconnect() is None && resubscribe@.map_values(|s: SymbolId| s@)
                == old(self).subscriptions(),
            !ok ==> final(self).is_connected_spec() == old(self).is_connected_spec() && final(self).errors()
                == old(self).errors().wrapping_add(1) && final(self).attempt() == old(self).attempt().saturating_add(1)
                && final(self).next_reconnect() == Some(
                now_ns.saturating_add((spec_reconnect_delay_ms(final(self).attempt()) * 1_000_000) as u64),
            ) && resubscribe@.len() == 0,
            final(self).last_message() == old(self).last_message(),
            final(self).timeout() == old(self).timeout(),
            final(self).subscriptions() == old(self).subscriptions(),
            final(self).counts() == old(self).counts(),
    {
        let mut out: Vec<SymbolId> = Vec::new();
        if ok {
            self.connected = true;
            self.consecutive_errors = 0;
            self.reconnect_attempt = 0;
            self.next_reconnect_at = None;
            let mut k: usize = 0;
            while k < self.subscribed.len()
                invariant
                    k <= self.subscribed.len(),
                    out@.map_values(|s: SymbolId| s@) == self.subscriptions().take(k as int),
                decreases self.subscribed.len() - k,
            {
                let ghost prev = out@;
                let x = self.subscribed[k].clone_id();
                out.push(x);
                assert(out@ == prev.push(x));
                assert(out@.map_values(|s: SymbolId| s@) =~= prev.map_values(|s: SymbolId| s@).push(x@));
                k = k + 1;
                assert(out@.map_values(|s: SymbolId| s@) =~= self.subscriptions().take(k as int));
            }
            assert(self.subscriptions().take(self.subscribed.len() as int) =~= self.subscriptions());
        } else {
            self.consecutive_errors = self.consecutive_errors.wrapping_add(1);
            self.schedule_reconnect(now_ns);
        }
        out
    }

    /// Reports the outcome of a subscription request: success records the
    /// symbol, failure counts an error.
    pub fn on_subscribe(&mut self, symbol: SymbolId, ok: bool)
        ensures
            ok ==> final(self).subscriptions() == old(self).subscriptions().push(symbol@) && final(self).errors()
                == old(self).errors(),
            !ok ==> final(self).subscriptions() == old(self).subscriptions() && final(self).errors()
                == old(self).errors().wrapping_add(1),
            final(self).is_connected_spec() == old(self).is_connected_spec(),
            final(self).attempt() == old(self).attempt(),
            final(self).next_reconnect() == old(self).next_reconnect(),
            final(self).last_message() == old(self).last_message(),
            final(self).timeout() == old(self).timeout(),
            final(self).counts() == old(self).counts(),
    {
        if ok {
            let ghost s0 = self.subscriptions();
            let ghost sv = symbol@;
            self.subscribed.push(symbol);
            assert(self.subscriptions() =~= s0.push(sv));
        } else {
            self.consecutive_errors = self.consecutive_errors.wrapping_add(1);
        }
    }

    /// Reports a failed poll at `now_ns`; the fifth consecutive error drops
    /// the connection and schedules a reconnect.
    pub fn on_poll_error(&mut self, now_ns: u64)
        ensures
            final(self).errors() == old(self).errors().wrapping_add(1),
            final(self).errors() >= DEGRADED_ERRORS ==> !final(self).is_connected_spec() && final(self).attempt()
                == old(self).attempt().saturating_add(1) && final(self).next_reconnect() == Some(
                now_ns.saturating_add((spec_reconnect_delay_ms(final(self).attempt()) * 1_000_000) as u64),
            ),
            final(self).errors() < DEGRADED_ERRORS ==> final(self).is_connected_spec() == old(self).is_connected_spec()
                && final(self).attempt() == old(self).attempt() && final(self).next_reconnect() == old(self).next_reconnect(),
            final(self).last_message() == old(self).last_message(),
            final(self).timeout() == old(self).timeout(),
            final(self).subscriptions() == old(self).subscriptions(),
            final(self).counts() == old(self).counts(),
    {
        self.consecutive_errors = self.consecutive_errors.wrapping_add(1);
        if self.consecutive_errors >= DEGRADED_ERRORS {
            self.connected = false;
            self.schedule_reconnect(now_ns);
        }
    }

    /// Reports a successful poll at `now_ns` that returned `events`: errors
    /// clear; if anything arrived, the message time advances and every event
    /// is applied in order to the books and the rate graph.
    pub fn on_poll_events(
        &mut self,
        events: Vec<FeedEvent>,
        books: &mut BookMap,
        graph: &mut ExchangeRateGraph,
        now_ns: u64,
    )
        requires
            old(books).wf(),
            old(graph).wf(),
        ensures
            final(books).wf(),
            final(graph).wf(),
            final(self).errors() == 0,
            events@.len() > 0 ==> final(self).last_message() == Some(now_ns),
            events@.len() == 0 ==> final(self).last_message() == old(self).last_message() && final(books)@ == old(
                books,
            )@ && final(graph)@ == old(graph)@,
            final(self).is_connected_spec() == old(self).is_connected_spec(),
            final(self).attempt() == old(self).attempt(),
            final(self).next_reconnect() == old(self).next_reconnect(),
            final(self).timeout() == old(self).timeout(),
            final(self).subscriptions() == old(self).subscriptions(),
            final(self).counts().books == (old(self).counts().books + book_events(events@, events@.len() as int))
                % counter_range(),
            final(self).counts().trades == (old(self).counts().trades + (events@.len() - book_events(
                events@,
                events@.len() as int,
            ))) % counter_range(),
            final(books)@ == books_after_events(old(books)@, events@, events@.len() as int),
            same_rates(final(graph)@, graph_after_events(old(graph)@, old(books)@, events@, events@.len() as int)),
            final(graph)@.last_updated_at == if rates_refreshed(old(books)@, events@, events@.len() as int) {
                now_ns
            } else {
                old(graph)@.last_updated_at
            },
    {
        self.consecutive_errors = 0;
        if events.len() == 0 {
            return;
        }
        self.last_message_at = Some(now_ns);
        assert(self.counters.books == (self.counters.books + 0) % counter_range());
        assert(self.counters.trades == (self.counters.trades + 0) % counter_range());
        let mut events = events;
        let ghost all = events@;
        let ghost m0 = books@;
        let ghost g0 = graph@;
        let ghost c0 = self.counters;
        let ghost mut i: int = 0;
        while events.len() > 0
            invariant
                books.wf(),
                graph.wf(),
                0 <= i <= all.len(),
                events@ == all.subrange(i, all.len() as int),
                books@ == books_after_events(m0, all, i),
                same_rates(graph@, graph_after_events(g0, m0, all, i)),
                graph@.last_updated_at == if rates_refreshed(m0, all, i) { now_ns } else { g0.last_updated_at },
                self.counters.books == (c0.books + book_events(all, i)) % counter_range(),
                self.counters.trades == (c0.trades + (i - book_events(all, i))) % counter_range(),
                0 <= book_events(all, i) <= i,
                self.connected == old(self).connected,
                self.reconnect_attempt == old(self).reconnect_attempt,
                self.next_reconnect_at == old(self).next_reconnect_at,
                self.message_timeout_ns == old(self).message_timeout_ns,
                self.subscribed == old(self).subscribed,
                self.consecutive_errors == 0,
                self.last_message_at == Some(now_ns),
                c0 == old(self).counters,
                m0 == old(books)@,
                g0 == old(graph)@,
            decreases events.len(),
        {
            let e = events.remove(0);
            let ghost gb = graph@;
            let ghost mb = books@;
            proof {
                assert(e == all[i]);
            }
            match e {
                FeedEvent::Book(u) => {
                    proof {
                        lemma_wrapping_step(self.counters.books, c0.books + book_events(all, i));
                    }
                    self.counters.books = self.counters.books.wrapping_add(1);
                    apply_book_update_at(books, u, graph, now_ns);
                    proof {
                        lemma_graph_after_congruent(gb, graph_after_events(g0, m0, all, i), mb, u);
                    }
                },
                FeedEvent::Trade(t) => {
                    proof {
                        lemma_wrapping_step(self.counters.trades, c0.trades + (i - book_events(all, i)));
                    }
                    self.counters.trades = self.counters.trades.wrapping_add(1);
                    apply_trade(books, t);
                },
            }
            proof {
                i = i + 1;
                assert(events@ =~= all.subrange(i, all.len() as int));
            }
        }
        proof {
            assert(i == all.len());
        }
    }
}

/// The books after applying `events[0..k]` in order.
pub open spec fn books_after_events(m: Seq<BookView>, events: Seq<FeedEvent>, k: int) -> Seq<BookView>
    decreases k,
{
    if k <= 0 {
        m
    } else {
        let prev = books_after_events(m, events, k - 1);
        match events[k - 1] {
            FeedEvent::Book(u) => books_after(prev, u),
            FeedEvent::Trade(t) => books_after_trade(prev, t),
        }
    }
}

/// Whether one of `events[0..k]`, applied in order, sets a rate.
pub open spec fn rates_refreshed(m: Seq<BookView>, events: Seq<FeedEvent>, k: int) -> bool
    decreases k,
{
    if k <= 0 {
        false
    } else {
        rates_refreshed(m, events, k - 1) || match events[k - 1] {
            FeedEvent::Book(u) => rate_refreshed(books_after_events(m, events, k - 1), u),
            FeedEvent::Trade(t) => false,
        }
    }
}

/// The rate graph after applying `events[0..k]` in order.
pub open spec fn graph_after_events(g: GraphView, m: Seq<BookView>, events: Seq<FeedEvent>, k: int) -> GraphView
    decreases k,
{
    if k <= 0 {
        g
    } else {
        let prev = graph_after_events(g, m, events, k - 1);
        match events[k - 1] {
            FeedEvent::Book(u) => graph_after(prev, books_after_events(m, events, k - 1), u),
            FeedEvent::Trade(t) => prev,
        }
    }
}

/// The graph after a book update depends only on currencies, edges and symbols.
pub proof fn lemma_graph_after_congruent(g: GraphView, h: GraphView, m: Seq<BookView>, u: BookUpdate)
    requires
        same_rates(g, h),
    ensures
        same_rates(graph_after(g, m, u), graph_after(h, m, u)),
{
    let h2 = GraphView { last_updated_at: g.last_updated_at, ..h };
    assert(h2 == g);
}

/// Counters wrap around at 2^64.
pub open spec fn counter_range() -> int {
    0x1_0000_0000_0000_0000
}

/// Adding one to a wrapped count wraps the sum.
pub proof fn lemma_wrapping_step(c: u64, x: int)
    requires
        x >= 0,
        c == x % counter_range(),
    ensures
        c.wrapping_add(1) == (x + 1) % counter_range(),
{
}

/// Number of book events among `events[0..k]`.
pub open spec fn book_events(events: Seq<FeedEvent>, k: int) -> int
    decreases k,
{
    if k <= 0 {
        0
    } else {
        book_events(events, k - 1) + if events[k - 1] is Book {
            1int
        } else {
            0int
        }
    }
}

/// The reconnect backoff never shrinks from one attempt to the next and
/// never exceeds the maximum delay.
pub proof fn lemma_backoff_monotone(a: u32, b: u32)
    requires
        a <= b,
    ensures
        spec_reconnect_delay_ms(a) <= spec_reconnect_delay_ms(b),
        spec_reconnect_delay_ms(b) <= RECONNECT_MAX_MS,
        spec_reconnect_delay_ms(a) >= RECONNECT_BASE_MS,
{
    let ea: nat = if a < 7 { a as nat } else { 7 };
    let eb: nat = if b < 7 { b as nat } else { 7 };
    lemma_pow2_monotone(ea, eb);
    lemma_pow2_positive(ea);
}

/// The reconnect backoff starts at the base delay and doubles with each
/// attempt, up to seven doublings, never exceeding the maximum delay.
pub proof fn lemma_backoff_doubles(a: u32)
    ensures
        spec_reconnect_delay_ms(0) == RECONNECT_BASE_MS,
        a < 7 ==> spec_reconnect_delay_ms((a + 1) as u32) == if 2 * spec_reconnect_delay_ms(a) < RECONNECT_MAX_MS {
            2 * spec_reconnect_delay_ms(a)
        } else {
            RECONNECT_MAX_MS as int
        },
        a >= 7 ==> spec_reconnect_delay_ms(a) == spec_reconnect_delay_ms(7),
{
    assert(pow2(0) == 1);
    if a < 7 {
        assert(pow2((a + 1) as nat) == 2 * pow2(a as nat));
        lemma_pow2_positive(a as nat);
    }
}

proof fn lemma_pow2_positive(e: nat)
    ensures
        pow2(e) >= 1,
    decreases e,
{
    if e > 0 {
        lemma_pow2_positive((e - 1) as nat);
    }
}

proof fn lemma_pow2_monotone(a: nat, b: nat)
    requires
        a <= b,
    ensures
        pow2(a) <= pow2(b),
    decreases b,
{
    if a < b {
        lemma_pow2_monotone(a, (b - 1) as nat);
        lemma_pow2_positive((b - 1) as nat);
    }
}

} // verus!
