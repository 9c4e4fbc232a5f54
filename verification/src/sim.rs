use vstd::prelude::*;

use crate::book::{book_of, books_after_quote, lemma_quote_tops, quoted_books, BookMap, BookSnapshot, BookView};
use crate::types::SymbolId;

verus! {

/// A recorded market tick as read from a data file.
pub struct RawTick {
    pub ts_ns: u64,
    pub venue: String,
    pub symbol: String,
    pub bid: i64,
    pub ask: i64,
    pub last_price: i64,
    pub last_size: i64,
}

/// A market tick of one symbol.
pub struct Tick {
    pub ts_ns: u64,
    pub symbol: SymbolId,
    pub bid: i64,
    pub ask: i64,
    pub last_price: i64,
    pub last_size: i64,
}

impl RawTick {
    /// The tick, with venue and symbol joined into a symbol identity.
    pub fn into_tick(self) -> (t: Tick)
        ensures
            t.ts_ns == self.ts_ns,
            t.symbol.venue@ == self.venue@,
            t.symbol.symbol@ == self.symbol@,
            t.bid == self.bid,
            t.ask == self.ask,
            t.last_price == self.last_price,
            t.last_size == self.last_size,
    {
        Tick {
            ts_ns: self.ts_ns,
            symbol: SymbolId { venue: self.venue, symbol: self.symbol },
            bid: self.bid,
            ask: self.ask,
            last_price: self.last_price,
            last_size: self.last_size,
        }
    }
}

/// Replays recorded ticks as an exchange: each step publishes the next
/// tick's quote into the books.
pub struct SimulatedExchange {
    ticks: Vec<Tick>,
    current_idx: usize,
    books: BookMap,
}

impl SimulatedExchange {
    pub closed spec fn tick_count(&self) -> nat {
        self.ticks@.len()
    }

    pub closed spec fn tick_at(&self, k: int) -> Tick {
        self.ticks@[k]
    }

    pub closed spec fn pos(&self) -> usize {
        self.current_idx
    }

    pub closed spec fn book_views(&self) -> Seq<BookView> {
        self.books@
    }

    pub closed spec fn wf(&self) -> bool {
        &&& self.books.wf()
        &&& quoted_books(self.books@)
        &&& self.current_idx <= self.ticks@.len()
    }

    pub fn new(ticks: Vec<Tick>) -> (s: SimulatedExchange)
        ensures
            s.wf(),
            s.tick_count() == ticks@.len(),
            forall|k: int| 0 <= k < ticks@.len() ==> s.tick_at(k) == ticks@[k],
            s.pos() == 0,
            s.book_views().len() == 0,
    {
        SimulatedExchange { ticks, current_idx: 0, books: BookMap::new() }
    }

    /// Publishes the next tick and returns it; `None` once every tick is out.
    ///
    /// The tick's symbol gets its bid and ask as top-of-book prices, the
    /// new position as sequence, and the tick time as both timestamps.
    pub fn advance(&mut self) -> (r: Option<&Tick>)
        requires
            old(self).wf(),
        ensures
            final(self).wf(),
            final(self).tick_count() == old(self).tick_count(),
            forall|k: int| 0 <= k < old(self).tick_count() ==> final(self).tick_at(k) == old(self).tick_at(k),
            old(self).pos() >= old(self).tick_count() ==> r is None && final(self).pos() == old(self).pos()
                && final(self).book_views() == old(self).book_views(),
            old(self).pos() < old(self).tick_count() ==> {
                let t = old(self).tick_at(old(self).pos() as int);
                &&& r == Some(&t)
                &&& final(self).pos() == old(self).pos() + 1
                &&& final(self).book_views() == books_after_quote(
                    old(self).book_views(),
                    t.symbol@,
                    t.bid,
                    t.ask,
                    final(self).pos() as u64,
                    t.ts_ns,
                )
                &&& book_of(final(self).book_views(), t.symbol@) matches Some(b) && b.bids.len() > 0 && b.asks.len()
                    > 0 && b.bids[0].price == t.bid && b.asks[0].price == t.ask && b.last_sequence == final(self).pos()
                    && b.ts_exchange_ns == t.ts_ns && b.ts_recv_ns == t.ts_ns
            },
    {
        if self.current_idx >= self.ticks.len() {
            return None;
        }
        let idx = self.current_idx;
        self.current_idx = idx + 1;
        let seq = self.current_idx as u64;
        let tick = &self.ticks[idx];
        proof {
            lemma_quote_tops(self.books, tick.symbol@, tick.bid, tick.ask, seq, tick.ts_ns);
        }
        self.books.apply_quote(&tick.symbol, tick.bid, tick.ask, seq, tick.ts_ns);
        Some(&self.ticks[idx])
    }

    /// Rewinds to the first tick and clears the books.
    pub fn reset(&mut self)
        requires
            old(self).wf(),
        ensures
            final(self).wf(),
            final(self).pos() == 0,
            final(self).book_views().len() == 0,
            final(self).tick_count() == old(self).tick_count(),
            forall|k: int| 0 <= k < old(self).tick_count() ==> final(self).tick_at(k) == old(self).tick_at(k),
    {
        self.current_idx = 0;
        self.books.clear();
    }

    /// Number of ticks.
    pub fn len(&self) -> (r: usize)
        ensures
            r == self.tick_count(),
    {
        self.ticks.len()
    }

    /// Number of ticks published so far.
    pub fn position(&self) -> (r: usize)
        ensures
            r == self.pos(),
    {
        self.current_idx
    }

    /// The book of a symbol, if a tick of it was published.
    pub fn book(&self, symbol: &SymbolId) -> (r: Option<&BookSnapshot>)
        requires
            self.wf(),
        ensures
            match r {
                Some(b) => book_of(self.book_views(), symbol@) == Some(b@),
                None => book_of(self.book_views(), symbol@) is None,
            },
    {
        self.books.get(symbol)
    }
}

} // verus!
