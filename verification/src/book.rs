use vstd::prelude::*;

use crate::clock::nanos;
use crate::currency::{parse_currency, spec_parse_currency};
use crate::graph::{ExchangeRateGraph, GraphView};
use crate::types::SymbolId;

verus! {

/// Book side.
#[derive(Debug, Clone, Copy, PartialEq, Eq, Structural)]
pub enum Side {
    Bid,
    Ask,
}

/// Book mutation kind.
#[derive(Debug, Clone, Copy, PartialEq, Eq, Structural)]
pub enum BookAction {
    /// Insert or update a price level.
    Upsert,
    /// Remove a price level.
    Delete,
}

/// One price level of a book side; `level` counts from the top of book.
#[derive(Debug, Clone, Copy, PartialEq, Eq, Structural)]
pub struct BookLevel {
    pub level: u16,
    pub price: i64,
    pub size: i64,
}

/// Materialized order book of one symbol; each side ordered by `level`.
pub struct BookSnapshot {
    pub symbol: SymbolId,
    pub bids: Vec<BookLevel>,
    pub asks: Vec<BookLevel>,
    pub last_sequence: u64,
    pub ts_exchange_ns: u64,
    pub ts_recv_ns: u64,
}

/// A level-2 book update.
pub struct BookUpdate {
    pub symbol: SymbolId,
    pub side: Side,
    pub level: u16,
    pub price: i64,
    pub size: i64,
    pub action: BookAction,
    pub sequence: u64,
    pub ts_exchange_ns: u64,
    pub ts_recv_ns: u64,
}

/// A last-trade print.
pub struct TradePrint {
    pub symbol: SymbolId,
    pub price: i64,
    pub size: i64,
    pub aggressor_side: Side,
    pub sequence: u64,
    pub ts_exchange_ns: u64,
    pub ts_recv_ns: u64,
}

/// Mathematical model of a [`BookSnapshot`].
pub struct BookView {
    pub symbol: (Seq<char>, Seq<char>),
    pub bids: Seq<BookLevel>,
    pub asks: Seq<BookLevel>,
    pub last_sequence: u64,
    pub ts_exchange_ns: u64,
    pub ts_recv_ns: u64,
}

impl View for BookSnapshot {
    type V = BookView;

    open spec fn view(&self) -> BookView {
        BookView {
            symbol: self.symbol@,
            bids: self.bids@,
            asks: self.asks@,
            last_sequence: self.last_sequence,
            ts_exchange_ns: self.ts_exchange_ns,
            ts_recv_ns: self.ts_recv_ns,
        }
    }
}

/// Levels strictly increasing by level index.
pub open spec fn levels_sorted(ls: Seq<BookLevel>) -> bool {
    forall|p: int, q: int| 0 <= p < q < ls.len() ==> (#[trigger] ls[p]).level < (#[trigger] ls[q]).level
}

pub open spec fn has_level(ls: Seq<BookLevel>, lvl: u16) -> bool {
    exists|p: int| 0 <= p < ls.len() && ls[p].level == lvl
}

pub open spec fn level_index(ls: Seq<BookLevel>, lvl: u16) -> int {
    choose|p: int| 0 <= p < ls.len() && ls[p].level == lvl
}

/// Where a level absent from a sorted side is inserted.
pub open spec fn is_insertion_point(ls: Seq<BookLevel>, lvl: u16, p: int) -> bool {
    &&& 0 <= p <= ls.len()
    &&& forall|q: int| 0 <= q < p ==> (#[trigger] ls[q]).level < lvl
    &&& forall|q: int| p <= q < ls.len() ==> (#[trigger] ls[q]).level > lvl
}

pub open spec fn insertion_point(ls: Seq<BookLevel>, lvl: u16) -> int {
    choose|p: int| is_insertion_point(ls, lvl, p)
}

/// The side after an upsert: the level is replaced in place, or inserted so
/// that the side stays ordered by level.
pub open spec fn upsert_level(ls: Seq<BookLevel>, x: BookLevel) -> Seq<BookLevel> {
    if has_level(ls, x.level) {
        ls.update(level_index(ls, x.level), x)
    } else {
        ls.insert(insertion_point(ls, x.level), x)
    }
}

/// The side after deleting a level.
pub open spec fn delete_level(ls: Seq<BookLevel>, lvl: u16) -> Seq<BookLevel> {
    if has_level(ls, lvl) {
        ls.remove(level_index(ls, lvl))
    } else {
        ls
    }
}

/// The side after applying an update's action to it.
pub open spec fn apply_to_levels(ls: Seq<BookLevel>, u: BookUpdate) -> Seq<BookLevel> {
    match u.action {
        BookAction::Upsert => upsert_level(ls, BookLevel { level: u.level, price: u.price, size: u.size }),
        BookAction::Delete => delete_level(ls, u.level),
    }
}

/// An empty book for a symbol.
pub open spec fn empty_book(symbol: (Seq<char>, Seq<char>)) -> BookView {
    BookView { symbol, bids: Seq::empty(), asks: Seq::empty(), last_sequence: 0, ts_exchange_ns: 0, ts_recv_ns: 0 }
}

/// A book after applying an update to it.
pub open spec fn updated_book(b: BookView, u: BookUpdate) -> BookView {
    let b1 = match u.side {
        Side::Bid => BookView { bids: apply_to_levels(b.bids, u), ..b },
        Side::Ask => BookView { asks: apply_to_levels(b.asks, u), ..b },
    };
    BookView {
        last_sequence: u.sequence,
        ts_exchange_ns: u.ts_exchange_ns,
        ts_recv_ns: u.ts_recv_ns,
        ..b1
    }
}

pub open spec fn book_wf(b: BookView) -> bool {
    levels_sorted(b.bids) && levels_sorted(b.asks)
}

pub open spec fn has_book(m: Seq<BookView>, key: (Seq<char>, Seq<char>)) -> bool {
    exists|p: int| 0 <= p < m.len() && m[p].symbol == key
}

pub open spec fn book_index(m: Seq<BookView>, key: (Seq<char>, Seq<char>)) -> int {
    choose|p: int| 0 <= p < m.len() && m[p].symbol == key
}

/// The book of `key`, if there is one.
pub open spec fn book_of(m: Seq<BookView>, key: (Seq<char>, Seq<char>)) -> Option<BookView> {
    if has_book(m, key) {
        Some(m[book_index(m, key)])
    } else {
        None
    }
}

/// The books after an update: the symbol's book changes, created empty first if absent.
pub open spec fn books_after(m: Seq<BookView>, u: BookUpdate) -> Seq<BookView> {
    if has_book(m, u.symbol@) {
        let p = book_index(m, u.symbol@);
        m.update(p, updated_book(m[p], u))
    } else {
        m.push(updated_book(empty_book(u.symbol@), u))
    }
}

/// Whether two graphs agree on currencies, edges and symbols.
pub open spec fn same_rates(g: GraphView, h: GraphView) -> bool {
    &&& g.currencies == h.currencies
    &&& g.edges == h.edges
    &&& g.symbols == h.symbols
}

/// The graph after a book update: a new symbol registers its base and quote
/// currencies; a book with both sides priced sets the pair's rate from the
/// top levels and registers the symbol for the pair.
pub open spec fn graph_after(g: GraphView, m: Seq<BookView>, u: BookUpdate) -> GraphView {
    let key = u.symbol@;
    let (base, quote) = spec_parse_currency(key.1);
    let g1 = if has_book(m, key) {
        g
    } else {
        g.with_currency(base).with_currency(quote)
    };
    let nb = book_of(books_after(m, u), key).unwrap();
    if nb.bids.len() > 0 && nb.asks.len() > 0 {
        g1.with_rate(base, quote, nb.bids[0].price, nb.asks[0].price).with_symbol(base, quote, key)
    } else {
        g1
    }
}

/// Order books by symbol.
pub struct BookMap {
    books: Vec<BookSnapshot>,
}

impl View for BookMap {
    type V = Seq<BookView>;

    closed spec fn view(&self) -> Seq<BookView> {
        self.books@.map_values(|b: BookSnapshot| b@)
    }
}

pub proof fn lemma_index_choose_books(m: Seq<BookView>, p: int)
    requires
        0 <= p < m.len(),
        forall|x: int, y: int| 0 <= x < m.len() && 0 <= y < m.len() && x != y ==> (#[trigger] m[x]).symbol != (#[trigger] m[y]).symbol,
    ensures
        has_book(m, m[p].symbol),
        book_index(m, m[p].symbol) == p,
{
    assert(0 <= p < m.len() && m[p].symbol == m[p].symbol);
    let c = book_index(m, m[p].symbol);
    assert(m[c].symbol == m[p].symbol);
}

proof fn lemma_level_index(ls: Seq<BookLevel>, p: int)
    requires
        levels_sorted(ls),
        0 <= p < ls.len(),
    ensures
        has_level(ls, ls[p].level),
        level_index(ls, ls[p].level) == p,
{
    assert(0 <= p < ls.len() && ls[p].level == ls[p].level);
    let c = level_index(ls, ls[p].level);
    assert(ls[c].level == ls[p].level);
    if c < p {
        assert(ls[c].level < ls[p].level);
    } else if c > p {
        assert(ls[p].level < ls[c].level);
    }
}

fn upsert_level_exec(ls: &mut Vec<BookLevel>, x: BookLevel)
    requires
        levels_sorted(old(ls)@),
    ensures
        final(ls)@ == upsert_level(old(ls)@, x),
        levels_sorted(final(ls)@),
{
    let ghost l0 = ls@;
    let mut k: usize = 0;
    while k < ls.len() && ls[k].level < x.level
        invariant
            ls@ == l0,
            levels_sorted(l0),
            k <= ls.len(),
            forall|q: int| 0 <= q < k ==> (#[trigger] l0[q]).level < x.level,
        decreases ls.len() - k,
    {
        k = k + 1;
    }
    if k < ls.len() && ls[k].level == x.level {
        proof {
            lemma_level_index(l0, k as int);
        }
        ls.set(k, x);
        proof {
            assert forall|p: int, q: int| 0 <= p < q < ls@.len() implies (#[trigger] ls@[p]).level < (
            #[trigger] ls@[q]).level by {
                if p == k {
                    assert(l0[p].level == x.level);
                } else if q == k {
                    assert(l0[q].level == x.level);
                }
            }
        }
    } else {
        proof {
            assert(is_insertion_point(l0, x.level, k as int)) by {
                assert forall|q: int| k <= q < l0.len() implies (#[trigger] l0[q]).level > x.level by {
                    if q > k {
                        assert(l0[k as int].level < l0[q].level);
                    }
                }
            }
            assert(!has_level(l0, x.level)) by {
                if has_level(l0, x.level) {
                    let p = choose|p: int| 0 <= p < l0.len() && l0[p].level == x.level;
                    if p >= k {
                        assert(l0[p].level > x.level);
                    }
                }
            }
            let c = insertion_point(l0, x.level);
            assert(is_insertion_point(l0, x.level, c));
            if c < k {
                assert(l0[c].level > x.level);
            } else if c > k {
                assert(l0[k as int].level < x.level);
            }
            assert(c == k);
        }
        ls.insert(k, x);
        proof {
            assert forall|p: int, q: int| 0 <= p < q < ls@.len() implies (#[trigger] ls@[p]).level < (
            #[trigger] ls@[q]).level by {
                if q < k {
                } else if q == k {
                    assert(ls@[p] == l0[p]);
                } else if p == k {
                    assert(ls@[q] == l0[q - 1]);
                    assert(l0[q - 1].level > x.level);
                } else if p < k {
                    assert(ls@[q] == l0[q - 1]);
                } else {
                    assert(ls@[q] == l0[q - 1] && ls@[p] == l0[p - 1]);
                }
            }
        }
    }
}

fn delete_level_exec(ls: &mut Vec<BookLevel>, lvl: u16)
    requires
        levels_sorted(old(ls)@),
    ensures
        final(ls)@ == delete_level(old(ls)@, lvl),
        levels_sorted(final(ls)@),
{
    let ghost l0 = ls@;
    let mut k: usize = 0;
    while k < ls.len()
        invariant
            ls@ == l0,
            l0 == old(ls)@,
            levels_sorted(l0),
            k <= ls.len(),
            forall|q: int| 0 <= q < k ==> (#[trigger] l0[q]).level != lvl,
        decreases ls.len() - k,
    {
        if ls[k].level == lvl {
            proof {
                lemma_level_index(l0, k as int);
            }
            ls.remove(k);
            proof {
                assert forall|p: int, q: int| 0 <= p < q < ls@.len() implies (#[trigger] ls@[p]).level < (
                #[trigger] ls@[q]).level by {
                    if p < k && q >= k {
                        assert(ls@[q] == l0[q + 1]);
                    } else if p >= k {
                        assert(ls@[q] == l0[q + 1] && ls@[p] == l0[p + 1]);
                    }
                }
            }
            return;
        }
        k = k + 1;
    }
    proof {
        assert(!has_level(l0, lvl));
    }
}

impl BookMap {
    pub closed spec fn wf(&self) -> bool {
        &&& forall|x: int, y: int|
            0 <= x < self@.len() && 0 <= y < self@.len() && x != y ==> (#[trigger] self@[x]).symbol != (
            #[trigger] self@[y]).symbol
        &&& forall|x: int| 0 <= x < self@.len() ==> book_wf(#[trigger] self@[x])
    }

    pub fn new() -> (m: BookMap)
        ensures
            m.wf(),
            m@.len() == 0,
    {
        let m = BookMap { books: Vec::new() };
        assert(m@ =~= Seq::<BookView>::empty());
        m
    }

    /// Number of books.
    pub fn len(&self) -> (r: usize)
        ensures
            r == self@.len(),
    {
        self.books.len()
    }

    fn find(&self, symbol: &SymbolId) -> (r: Option<usize>)
        requires
            self.wf(),
        ensures
            match r {
                Some(p) => p < self@.len() && self@[p as int].symbol == symbol@ && has_book(self@, symbol@)
                    && book_index(self@, symbol@) == p,
                None => !has_book(self@, symbol@),
            },
    {
        let mut p: usize = 0;
        while p < self.books.len()
            invariant
                self.wf(),
                p <= self.books.len(),
                forall|q: int| 0 <= q < p ==> self@[q].symbol != symbol@,
            decreases self.books.len() - p,
        {
            if self.books[p].symbol.same_as(symbol) {
                proof {
                    lemma_index_choose_books(self@, p as int);
                }
                return Some(p);
            }
            p = p + 1;
        }
        None
    }

    /// The book of a symbol.
    pub fn get(&self, symbol: &SymbolId) -> (r: Option<&BookSnapshot>)
        requires
            self.wf(),
        ensures
            match r {
                Some(b) => book_of(self@, symbol@) == Some(b@),
                None => book_of(self@, symbol@) is None,
            },
    {
        match self.find(symbol) {
            Some(p) => Some(&self.books[p]),
            None => None,
        }
    }
}

fn empty_snapshot(symbol: SymbolId) -> (b: BookSnapshot)
    ensures
        b@ == empty_book(symbol@),
{
    let b = BookSnapshot {
        symbol,
        bids: Vec::new(),
        asks: Vec::new(),
        last_sequence: 0,
        ts_exchange_ns: 0,
        ts_recv_ns: 0,
    };
    assert(b@ =~= empty_book(b.symbol@));
    b
}

fn apply_to_snapshot(b: &mut BookSnapshot, u: &BookUpdate)
    requires
        book_wf(old(b)@),
    ensures
        final(b)@ == updated_book(old(b)@, *u),
        book_wf(final(b)@),
{
    let side_levels = match u.side {
        Side::Bid => &mut b.bids,
        Side::Ask => &mut b.asks,
    };
    match u.action {
        BookAction::Upsert => {
            upsert_level_exec(side_levels, BookLevel { level: u.level, price: u.price, size: u.size });
        },
        BookAction::Delete => {
            delete_level_exec(side_levels, u.level);
        },
    }
    b.last_sequence = u.sequence;
    b.ts_exchange_ns = u.ts_exchange_ns;
    b.ts_recv_ns = u.ts_recv_ns;
}

/// Applies one book update to the books and keeps the rate graph in step.
///
/// A symbol seen for the first time gets an empty book, and its base and
/// quote currencies are registered in the graph. Once both sides of the book
/// hold a level, the top bid and ask become the pair's rate and the symbol is
/// registered for the pair.
pub fn apply_book_update(books: &mut BookMap, update: BookUpdate, graph: &mut ExchangeRateGraph)
    requires
        old(books).wf(),
        old(graph).wf(),
    ensures
        final(books).wf(),
        final(graph).wf(),
        final(books)@ == books_after(old(books)@, update),
        same_rates(final(graph)@, graph_after(old(graph)@, old(books)@, update)),
        !rate_refreshed(old(books)@, update) ==> final(graph)@.last_updated_at == old(graph)@.last_updated_at,
{
    apply_book_update_at(books, update, graph, nanos());
}

/// Whether a book update leaves its book with both sides priced, so that
/// the pair's rate is set from it.
pub open spec fn rate_refreshed(m: Seq<BookView>, u: BookUpdate) -> bool {
    let nb = book_of(books_after(m, u), u.symbol@).unwrap();
    nb.bids.len() > 0 && nb.asks.len() > 0
}

/// `apply_book_update` at time `now_ns`: a rate set from the book takes
/// `now_ns` as the graph's last-update time.
pub fn apply_book_update_at(books: &mut BookMap, update: BookUpdate, graph: &mut ExchangeRateGraph, now_ns: u64)
    requires
        old(books).wf(),
        old(graph).wf(),
    ensures
        final(books).wf(),
        final(graph).wf(),
        final(books)@ == books_after(old(books)@, update),
        same_rates(final(graph)@, graph_after(old(graph)@, old(books)@, update)),
        final(graph)@.last_updated_at == if rate_refreshed(old(books)@, update) {
            now_ns
        } else {
            old(graph)@.last_updated_at
        },
{
    let ghost m0 = books@;
    let ghost g0 = graph@;
    let ghost key = update.symbol@;
    let pos = match books.find(&update.symbol) {
        Some(p) => p,
        None => {
            let (base, quote) = parse_currency(&update.symbol);
            graph.add_currency(base);
            graph.add_currency(quote);
            let snap = empty_snapshot(update.symbol.clone_id());
            books.books.push(snap);
            proof {
                assert(books@ =~= m0.push(empty_book(key)));
                assert(books.wf()) by {
                    assert forall|x: int, y: int|
                        0 <= x < books@.len() && 0 <= y < books@.len() && x != y implies (
                        #[trigger] books@[x]).symbol != (#[trigger] books@[y]).symbol by {
                        if x == m0.len() {
                            assert(!(0 <= y < m0.len() && m0[y].symbol == key));
                        } else if y == m0.len() {
                            assert(!(0 <= x < m0.len() && m0[x].symbol == key));
                        }
                    }
                }
            }
            books.books.len() - 1
        },
    };
    let ghost m1 = books@;
    let ghost g1 = graph@;
    proof {
        assert(m1[pos as int].symbol == key);
        assert(book_wf(m1[pos as int]));
    }
    let mut snap = empty_snapshot(SymbolId { venue: String::new(), symbol: String::new() });
    books.books.set_and_swap(pos, &mut snap);
    apply_to_snapshot(&mut snap, &update);
    let ghost nb = snap@;
    if snap.bids.len() > 0 && snap.asks.len() > 0 {
        let (base, quote) = parse_currency(&snap.symbol);
        graph.set_rate_at(&base, &quote, snap.bids[0].price, snap.asks[0].price, now_ns);
        graph.set_symbol_for(&base, &quote, snap.symbol.clone_id());
    }
    books.books.set(pos, snap);
    proof {
        assert(books@ =~= m1.update(pos as int, nb));
        lemma_index_choose_books(books@, pos as int);
        assert(books.wf()) by {
            assert forall|x: int, y: int|
                0 <= x < books@.len() && 0 <= y < books@.len() && x != y implies (#[trigger] books@[x]).symbol
                != (#[trigger] books@[y]).symbol by {
                assert(m1[x].symbol == books@[x].symbol);
                assert(m1[y].symbol == books@[y].symbol);
            }
            assert forall|x: int| 0 <= x < books@.len() implies book_wf(#[trigger] books@[x]) by {
                if x != pos {
                    assert(books@[x] == m1[x]);
                }
            }
        }
        if has_book(m0, key) {
            assert(m1 == m0);
            assert(books@ =~= books_after(m0, update));
        } else {
            assert(m1[pos as int] == empty_book(key));
            assert(books@ =~= books_after(m0, update));
        }
        lemma_index_choose_books(books@, pos as int);
        assert(book_of(books_after(m0, update), key) == Some(nb));
    }
}

/// The books after a trade: the traded symbol's book takes the trade's timestamps.
pub open spec fn books_after_trade(m: Seq<BookView>, t: TradePrint) -> Seq<BookView> {
    match book_of(m, t.symbol@) {
        Some(b) => m.update(
            book_index(m, t.symbol@),
            BookView { ts_exchange_ns: t.ts_exchange_ns, ts_recv_ns: t.ts_recv_ns, ..b },
        ),
        None => m,
    }
}

/// Stamps a trade's timestamps onto the traded symbol's book, if there is one.
pub fn apply_trade(books: &mut BookMap, trade: TradePrint)
    requires
        old(books).wf(),
    ensures
        final(books).wf(),
        final(books)@ == books_after_trade(old(books)@, trade),
{
    let ghost m0 = books@;
    if let Some(pos) = books.find(&trade.symbol) {
        let mut snap = empty_snapshot(SymbolId { venue: String::new(), symbol: String::new() });
        books.books.set_and_swap(pos, &mut snap);
        snap.ts_exchange_ns = trade.ts_exchange_ns;
        snap.ts_recv_ns = trade.ts_recv_ns;
        let ghost nb = snap@;
        books.books.set(pos, snap);
        proof {
            assert(books@ =~= m0.update(pos as int, nb));
            assert(books.wf()) by {
                assert forall|x: int, y: int|
                    0 <= x < books@.len() && 0 <= y < books@.len() && x != y implies (
                    #[trigger] books@[x]).symbol != (#[trigger] books@[y]).symbol by {
                    assert(m0[x].symbol == books@[x].symbol);
                    assert(m0[y].symbol == books@[y].symbol);
                }
                assert forall|x: int| 0 <= x < books@.len() implies book_wf(#[trigger] books@[x]) by {
                    if x != pos {
                        assert(books@[x] == m0[x]);
                    }
                }
            }
        }
    }
}

/// A book after a quote tick: a new book starts with one zero-size level on
/// each side; the top bid and ask prices become the quote, and the sequence
/// and both timestamps are set.
pub open spec fn book_after_quote(b: Option<BookView>, symbol: (Seq<char>, Seq<char>), bid: i64, ask: i64, sequence: u64, ts: u64) -> BookView {
    let b0 = match b {
        Some(b) => b,
        None => BookView {
            symbol,
            bids: seq![BookLevel { level: 0, price: bid, size: 0 }],
            asks: seq![BookLevel { level: 0, price: ask, size: 0 }],
            last_sequence: sequence,
            ts_exchange_ns: ts,
            ts_recv_ns: ts,
        },
    };
    BookView {
        bids: if b0.bids.len() > 0 { b0.bids.update(0, BookLevel { price: bid, ..b0.bids[0] }) } else { b0.bids },
        asks: if b0.asks.len() > 0 { b0.asks.update(0, BookLevel { price: ask, ..b0.asks[0] }) } else { b0.asks },
        last_sequence: sequence,
        ts_exchange_ns: ts,
        ts_recv_ns: ts,
        ..b0
    }
}

/// The books after a quote tick for `symbol`.
pub open spec fn books_after_quote(m: Seq<BookView>, symbol: (Seq<char>, Seq<char>), bid: i64, ask: i64, sequence: u64, ts: u64) -> Seq<BookView> {
    if has_book(m, symbol) {
        let p = book_index(m, symbol);
        m.update(p, book_after_quote(Some(m[p]), symbol, bid, ask, sequence, ts))
    } else {
        m.push(book_after_quote(None, symbol, bid, ask, sequence, ts))
    }
}

/// Books in which every side holds a level.
pub open spec fn quoted_books(m: Seq<BookView>) -> bool {
    forall|x: int| 0 <= x < m.len() ==> (#[trigger] m[x]).bids.len() > 0 && m[x].asks.len() > 0
}

/// A quote tick on books whose sides all hold a level keeps them so, and
/// leaves the ticked symbol's book with the quoted bid and ask on top, the
/// tick's sequence, and its time as both timestamps.
pub proof fn lemma_quote_tops(m: BookMap, key: (Seq<char>, Seq<char>), bid: i64, ask: i64, sequence: u64, ts: u64)
    requires
        m.wf(),
        quoted_books(m@),
    ensures
        quoted_books(books_after_quote(m@, key, bid, ask, sequence, ts)),
        book_of(books_after_quote(m@, key, bid, ask, sequence, ts), key) matches Some(b) && b.bids.len() > 0
            && b.asks.len() > 0 && b.bids[0].price == bid && b.asks[0].price == ask && b.last_sequence == sequence
            && b.ts_exchange_ns == ts && b.ts_recv_ns == ts,
{
    let v = m@;
    let after = books_after_quote(v, key, bid, ask, sequence, ts);
    if has_book(v, key) {
        let p = book_index(v, key);
        assert(v[p].symbol == key);
        let nb = book_after_quote(Some(v[p]), key, bid, ask, sequence, ts);
        assert(after == v.update(p, nb));
        assert forall|x: int, y: int|
            0 <= x < after.len() && 0 <= y < after.len() && x != y implies (#[trigger] after[x]).symbol != (
            #[trigger] after[y]).symbol by {
            assert(after[x].symbol == v[x].symbol && after[y].symbol == v[y].symbol);
        }
        lemma_index_choose_books(after, p);
        assert forall|x: int| 0 <= x < after.len() implies (#[trigger] after[x]).bids.len() > 0 && after[x].asks.len()
            > 0 by {
            if x != p {
                assert(after[x] == v[x]);
            }
        }
    } else {
        let nb = book_after_quote(None, key, bid, ask, sequence, ts);
        assert(after == v.push(nb));
        let p = v.len() as int;
        assert forall|x: int, y: int|
            0 <= x < after.len() && 0 <= y < after.len() && x != y implies (#[trigger] after[x]).symbol != (
            #[trigger] after[y]).symbol by {
            if x == p {
                assert(!(0 <= y < v.len() && v[y].symbol == key));
            } else if y == p {
                assert(!(0 <= x < v.len() && v[x].symbol == key));
            }
        }
        lemma_index_choose_books(after, p);
        assert forall|x: int| 0 <= x < after.len() implies (#[trigger] after[x]).bids.len() > 0 && after[x].asks.len()
            > 0 by {
            if x != p {
                assert(after[x] == v[x]);
            }
        }
    }
}

fn set_first_price(ls: &mut Vec<BookLevel>, price: i64)
    requires
        levels_sorted(old(ls)@),
    ensures
        final(ls)@ == if old(ls)@.len() > 0 {
            old(ls)@.update(0, BookLevel { price, ..old(ls)@[0] })
        } else {
            old(ls)@
        },
        levels_sorted(final(ls)@),
{
    if ls.len() > 0 {
        let l = ls[0];
        ls.set(0, BookLevel { price, ..l });
        assert forall|p: int, q: int| 0 <= p < q < ls@.len() implies (#[trigger] ls@[p]).level < (#[trigger] ls@[q]).level by {
            assert(ls@[p].level == old(ls)@[p].level && ls@[q].level == old(ls)@[q].level);
        }
    }
}

impl BookMap {
    /// Records a quote tick for `symbol` (see `book_after_quote`).
    pub fn apply_quote(&mut self, symbol: &SymbolId, bid: i64, ask: i64, sequence: u64, ts: u64)
        requires
            old(self).wf(),
        ensures
            final(self).wf(),
            final(self)@ == books_after_quote(old(self)@, symbol@, bid, ask, sequence, ts),
    {
        let ghost m0 = self@;
        let pos = match self.find(symbol) {
            Some(p) => p,
            None => {
                let mut bids: Vec<BookLevel> = Vec::new();
                bids.push(BookLevel { level: 0, price: bid, size: 0 });
                let mut asks: Vec<BookLevel> = Vec::new();
                asks.push(BookLevel { level: 0, price: ask, size: 0 });
                let snap = BookSnapshot {
                    symbol: symbol.clone_id(),
                    bids,
                    asks,
                    last_sequence: sequence,
                    ts_exchange_ns: ts,
                    ts_recv_ns: ts,
                };
                let ghost sv = snap@;
                self.books.push(snap);
                proof {
                    assert(self@ =~= m0.push(sv));
                    assert(sv.bids =~= seq![BookLevel { level: 0, price: bid, size: 0 }]);
                    assert(sv.asks =~= seq![BookLevel { level: 0, price: ask, size: 0 }]);
                    assert forall|x: int, y: int|
                        0 <= x < self@.len() && 0 <= y < self@.len() && x != y implies (#[trigger] self@[x]).symbol
                        != (#[trigger] self@[y]).symbol by {
                        if x == m0.len() {
                            assert(!(0 <= y < m0.len() && m0[y].symbol == symbol@));
                        } else if y == m0.len() {
                            assert(!(0 <= x < m0.len() && m0[x].symbol == symbol@));
                        }
                    }
                }
                self.books.len() - 1
            },
        };
        let ghost m1 = self@;
        let mut snap = empty_snapshot(SymbolId { venue: String::new(), symbol: String::new() });
        self.books.set_and_swap(pos, &mut snap);
        let ghost b1 = snap@;
        set_first_price(&mut snap.bids, bid);
        set_first_price(&mut snap.asks, ask);
        snap.last_sequence = sequence;
        snap.ts_exchange_ns = ts;
        snap.ts_recv_ns = ts;
        let ghost nb = snap@;
        self.books.set(pos, snap);
        proof {
            assert(self@ =~= m1.update(pos as int, nb));
            assert(book_wf(m1[pos as int]));
            assert forall|x: int, y: int|
                0 <= x < self@.len() && 0 <= y < self@.len() && x != y implies (#[trigger] self@[x]).symbol
                != (#[trigger] self@[y]).symbol by {
                assert(m1[x].symbol == self@[x].symbol);
                assert(m1[y].symbol == self@[y].symbol);
            }
            assert forall|x: int| 0 <= x < self@.len() implies book_wf(#[trigger] self@[x]) by {
                if x != pos {
                    assert(self@[x] == m1[x]);
                }
            }
            if has_book(m0, symbol@) {
                assert(nb == book_after_quote(Some(m0[pos as int]), symbol@, bid, ask, sequence, ts));
            } else {
                assert(nb == book_after_quote(None, symbol@, bid, ask, sequence, ts));
            }
            assert(self@ =~= books_after_quote(m0, symbol@, bid, ask, sequence, ts));
        }
    }

    /// Removes every book.
    pub fn clear(&mut self)
        ensures
            final(self).wf(),
            final(self)@.len() == 0,
    {
        self.books.clear();
        assert(self@ =~= Seq::<BookView>::empty());
    }
}

proof fn lemma_insertion_point_exists(ls: Seq<BookLevel>, lvl: u16)
    requires
        levels_sorted(ls),
        !has_level(ls, lvl),
    ensures
        is_insertion_point(ls, lvl, insertion_point(ls, lvl)),
    decreases ls.len(),
{
    if ls.len() == 0 {
        assert(is_insertion_point(ls, lvl, 0));
    } else {
        let init = ls.drop_last();
        let n = ls.len() - 1;
        assert forall|p: int, q: int| 0 <= p < q < init.len() implies (#[trigger] init[p]).level < (
        #[trigger] init[q]).level by {
            assert(init[p] == ls[p] && init[q] == ls[q]);
        }
        assert(!has_level(init, lvl)) by {
            if has_level(init, lvl) {
                let p = choose|p: int| 0 <= p < init.len() && init[p].level == lvl;
                assert(ls[p].level == lvl);
            }
        }
        lemma_insertion_point_exists(init, lvl);
        let c = insertion_point(init, lvl);
        if ls[n].level < lvl {
            assert forall|q: int| 0 <= q < ls.len() implies (#[trigger] ls[q]).level < lvl by {
                if q < n {
                    assert(ls[q].level < ls[n].level);
                }
            }
            assert(is_insertion_point(ls, lvl, ls.len() as int));
        } else {
            assert(ls[n].level != lvl);
            assert forall|q: int| 0 <= q < c implies (#[trigger] ls[q]).level < lvl by {
                assert(init[q] == ls[q]);
            }
            assert forall|q: int| c <= q < ls.len() implies (#[trigger] ls[q]).level > lvl by {
                if q < n {
                    assert(init[q] == ls[q]);
                }
            }
            assert(is_insertion_point(ls, lvl, c));
        }
    }
}

/// Upserting level `x.level` into an ordered side leaves exactly one level
/// there, equal to `x`, and keeps every other level: one more level when
/// `x.level` was absent, as many as before when it was present.
pub proof fn lemma_upsert_level_content(ls: Seq<BookLevel>, x: BookLevel)
    requires
        levels_sorted(ls),
    ensures
        upsert_level(ls, x).contains(x),
        forall|p: int|
            0 <= p < upsert_level(ls, x).len() && (#[trigger] upsert_level(ls, x)[p]).level == x.level ==> upsert_level(
                ls,
                x,
            )[p] == x,
        forall|p: int| 0 <= p < ls.len() && (#[trigger] ls[p]).level != x.level ==> upsert_level(ls, x).contains(ls[p]),
        forall|p: int|
            0 <= p < upsert_level(ls, x).len() && (#[trigger] upsert_level(ls, x)[p]).level != x.level ==> ls.contains(
                upsert_level(ls, x)[p],
            ),
        upsert_level(ls, x).len() == if has_level(ls, x.level) {
            ls.len()
        } else {
            ls.len() + 1
        },
{
    let r = upsert_level(ls, x);
    if has_level(ls, x.level) {
        let i = level_index(ls, x.level);
        assert(0 <= i < ls.len() && ls[i].level == x.level);
        assert(r == ls.update(i, x));
        assert(r[i] == x);
        assert forall|p: int| 0 <= p < r.len() && (#[trigger] r[p]).level == x.level implies r[p] == x by {
            if p != i {
                assert(r[p] == ls[p]);
                if p < i {
                    assert(ls[p].level < ls[i].level);
                } else {
                    assert(ls[i].level < ls[p].level);
                }
            }
        }
        assert forall|p: int| 0 <= p < ls.len() && (#[trigger] ls[p]).level != x.level implies r.contains(ls[p]) by {
            assert(r[p] == ls[p]);
        }
        assert forall|p: int| 0 <= p < r.len() && (#[trigger] r[p]).level != x.level implies ls.contains(r[p]) by {
            assert(r[p] == ls[p]);
        }
    } else {
        lemma_insertion_point_exists(ls, x.level);
        let c = insertion_point(ls, x.level);
        assert(r == ls.insert(c, x));
        assert(r[c] == x);
        assert forall|p: int| 0 <= p < r.len() && (#[trigger] r[p]).level == x.level implies r[p] == x by {
            if p < c {
                assert(r[p] == ls[p]);
            } else if p > c {
                assert(r[p] == ls[p - 1]);
            }
        }
        assert forall|p: int| 0 <= p < ls.len() && (#[trigger] ls[p]).level != x.level implies r.contains(ls[p]) by {
            if p < c {
                assert(r[p] == ls[p]);
            } else {
                assert(r[p + 1] == ls[p]);
            }
        }
        assert forall|p: int| 0 <= p < r.len() && (#[trigger] r[p]).level != x.level implies ls.contains(r[p]) by {
            if p < c {
                assert(r[p] == ls[p]);
            } else {
                assert(r[p] == ls[p - 1]);
            }
        }
    }
}

/// Deleting level `lvl` from an ordered side leaves no level `lvl` and keeps
/// every other level: one fewer when `lvl` was present, the side unchanged
/// when it was absent.
pub proof fn lemma_delete_level_content(ls: Seq<BookLevel>, lvl: u16)
    requires
        levels_sorted(ls),
    ensures
        !has_level(delete_level(ls, lvl), lvl),
        forall|p: int| 0 <= p < ls.len() && (#[trigger] ls[p]).level != lvl ==> delete_level(ls, lvl).contains(ls[p]),
        forall|p: int| 0 <= p < delete_level(ls, lvl).len() ==> ls.contains(#[trigger] delete_level(ls, lvl)[p]),
        delete_level(ls, lvl).len() == if has_level(ls, lvl) {
            ls.len() - 1
        } else {
            ls.len() as int
        },
        !has_level(ls, lvl) ==> delete_level(ls, lvl) == ls,
{
    let r = delete_level(ls, lvl);
    if has_level(ls, lvl) {
        let i = level_index(ls, lvl);
        assert(0 <= i < ls.len() && ls[i].level == lvl);
        assert(r == ls.remove(i));
        assert(!has_level(r, lvl)) by {
            if has_level(r, lvl) {
                let p = choose|p: int| 0 <= p < r.len() && r[p].level == lvl;
                if p < i {
                    assert(r[p] == ls[p]);
                    assert(ls[p].level < ls[i].level);
                } else {
                    assert(r[p] == ls[p + 1]);
                    assert(ls[i].level < ls[p + 1].level);
                }
            }
        }
        assert forall|p: int| 0 <= p < ls.len() && (#[trigger] ls[p]).level != lvl implies r.contains(ls[p]) by {
            if p < i {
                assert(r[p] == ls[p]);
            } else {
                assert(p != i);
                assert(r[p - 1] == ls[p]);
            }
        }
        assert forall|p: int| 0 <= p < r.len() implies ls.contains(#[trigger] r[p]) by {
            if p < i {
                assert(r[p] == ls[p]);
            } else {
                assert(r[p] == ls[p + 1]);
            }
        }
    } else {
        assert forall|p: int| 0 <= p < r.len() implies ls.contains(#[trigger] r[p]) by {
            assert(r[p] == ls[p]);
        }
        assert forall|p: int| 0 <= p < ls.len() && (#[trigger] ls[p]).level != lvl implies r.contains(ls[p]) by {
            assert(r[p] == ls[p]);
        }
    }
}

/// Reading a book after an update: the updated symbol's book is its earlier
/// book, or an empty one for a new symbol, with the update applied; every
/// other symbol's book reads as before.
pub proof fn lemma_book_update_read(m: BookMap, u: BookUpdate, key: (Seq<char>, Seq<char>))
    requires
        m.wf(),
    ensures
        book_of(books_after(m@, u), u.symbol@) == Some(
            updated_book(
                match book_of(m@, u.symbol@) {
                    Some(b) => b,
                    None => empty_book(u.symbol@),
                },
                u,
            ),
        ),
        key != u.symbol@ ==> book_of(books_after(m@, u), key) == book_of(m@, key),
{
    let v = m@;
    let k = u.symbol@;
    let after = books_after(v, u);
    let p = if has_book(v, k) {
        book_index(v, k)
    } else {
        v.len() as int
    };
    if has_book(v, k) {
        assert(v[p].symbol == k);
        assert(after == v.update(p, updated_book(v[p], u)));
    } else {
        assert(after == v.push(updated_book(empty_book(k), u)));
    }
    assert(after[p].symbol == k);
    assert forall|x: int, y: int|
        0 <= x < after.len() && 0 <= y < after.len() && x != y implies (#[trigger] after[x]).symbol != (
        #[trigger] after[y]).symbol by {
        if x != p && y != p {
            assert(after[x] == v[x] && after[y] == v[y]);
        } else if x == p {
            assert(after[y] == v[y]);
            if has_book(v, k) {
                assert(v[y].symbol != v[p].symbol);
            } else {
                assert(!(0 <= y < v.len() && v[y].symbol == k));
            }
        } else {
            assert(after[x] == v[x]);
            if has_book(v, k) {
                assert(v[x].symbol != v[p].symbol);
            } else {
                assert(!(0 <= x < v.len() && v[x].symbol == k));
            }
        }
    }
    lemma_index_choose_books(after, p);
    if key != k {
        if has_book(v, key) {
            let q = book_index(v, key);
            assert(v[q].symbol == key);
            lemma_index_choose_books(v, q);
            assert(after[q] == v[q]);
            lemma_index_choose_books(after, q);
        } else {
            assert(!has_book(after, key)) by {
                if has_book(after, key) {
                    let q = choose|q: int| 0 <= q < after.len() && after[q].symbol == key;
                    assert(q != p);
                    assert(after[q] == v[q]);
                }
            }
        }
    }
}

} // verus!
