use vstd::prelude::*;

use crate::clock::nanos;
use crate::types::{Currency, OrderSide, SymbolId};

verus! {

/// The quote a directed edge of the rate graph was priced from.
#[derive(Debug, Clone, Copy, PartialEq, Eq, Structural)]
pub enum EdgeRate {
    /// Selling the base currency for the quote currency: the best bid.
    Bid(i64),
    /// Buying the base currency with the quote currency: the best ask.
    Ask(i64),
}

/// A directed edge `from -> to` of the rate graph.
#[derive(Debug, Clone, Copy, PartialEq, Eq, Structural)]
pub struct RateEdge {
    pub to: usize,
    pub rate: EdgeRate,
}

/// Mathematical model of an [`ExchangeRateGraph`].
pub struct GraphView {
    /// Currency codes; a currency's index is its position here.
    pub currencies: Seq<Seq<char>>,
    /// Outgoing edges of each currency, in insertion order.
    pub edges: Seq<Seq<RateEdge>>,
    /// Exchange symbol registered for an ordered pair of currency indices.
    pub symbols: Seq<((usize, usize), (Seq<char>, Seq<char>))>,
    /// Time of the last rate update, in nanoseconds.
    pub last_updated_at: u64,
}

/// Replaces the edge to `e.to` if there is one, else appends `e`.
pub open spec fn upsert_edge(adj: Seq<RateEdge>, e: RateEdge) -> Seq<RateEdge> {
    if exists|p: int| 0 <= p < adj.len() && adj[p].to == e.to {
        adj.update(choose|p: int| 0 <= p < adj.len() && adj[p].to == e.to, e)
    } else {
        adj.push(e)
    }
}

/// The symbol registered under `key`, if any.
pub open spec fn lookup_symbol(
    syms: Seq<((usize, usize), (Seq<char>, Seq<char>))>,
    key: (usize, usize),
) -> Option<(Seq<char>, Seq<char>)> {
    if exists|p: int| 0 <= p < syms.len() && syms[p].0 == key {
        Some(syms[choose|p: int| 0 <= p < syms.len() && syms[p].0 == key].1)
    } else {
        None
    }
}

impl GraphView {
    pub open spec fn n(self) -> nat {
        self.currencies.len()
    }

    pub open spec fn wf(self) -> bool {
        &&& self.currencies.no_duplicates()
        &&& self.edges.len() == self.currencies.len()
        &&& forall|i: int, p: int|
            0 <= i < self.edges.len() && 0 <= p < self.edges[i].len() ==> #[trigger] self.edges[i][p].to
                < self.currencies.len()
        &&& forall|i: int, p: int, q: int|
            0 <= i < self.edges.len() && 0 <= p < self.edges[i].len() && 0 <= q < self.edges[i].len()
                && p != q ==> #[trigger] self.edges[i][p].to != #[trigger] self.edges[i][q].to
        &&& forall|p: int|
            0 <= p < self.symbols.len() ==> (#[trigger] self.symbols[p]).0.0 < self.currencies.len()
                && self.symbols[p].0.1 < self.currencies.len()
        &&& forall|p: int, q: int|
            0 <= p < self.symbols.len() && 0 <= q < self.symbols.len() && p != q ==> (
            #[trigger] self.symbols[p]).0 != (#[trigger] self.symbols[q]).0
    }

    /// Index of a known currency.
    pub open spec fn index_of(self, c: Seq<char>) -> int {
        self.currencies.index_of(c)
    }

    /// The graph after registering currency `c` (no change if it is known).
    pub open spec fn with_currency(self, c: Seq<char>) -> GraphView {
        if self.currencies.contains(c) {
            self
        } else {
            GraphView {
                currencies: self.currencies.push(c),
                edges: self.edges.push(Seq::empty()),
                ..self
            }
        }
    }

    /// The graph after upserting edge `e` out of currency `i`.
    pub open spec fn with_edge(self, i: int, e: RateEdge) -> GraphView {
        GraphView { edges: self.edges.update(i, upsert_edge(self.edges[i], e)), ..self }
    }

    /// The graph after `set_rate(from, to, bid, ask)`, apart from the timestamp.
    pub open spec fn with_rate(self, from: Seq<char>, to: Seq<char>, bid: i64, ask: i64) -> GraphView {
        let g1 = self.with_currency(from).with_currency(to);
        let i = g1.index_of(from);
        let j = g1.index_of(to);
        let g2 = if bid > 0 {
            g1.with_edge(i, RateEdge { to: j as usize, rate: EdgeRate::Bid(bid) })
        } else {
            g1
        };
        if ask > 0 {
            g2.with_edge(j, RateEdge { to: i as usize, rate: EdgeRate::Ask(ask) })
        } else {
            g2
        }
    }

    /// The symbol registered for the directed pair `from -> to`.
    pub open spec fn symbol_for(self, from: Seq<char>, to: Seq<char>) -> Option<(Seq<char>, Seq<char>)> {
        if self.currencies.contains(from) && self.currencies.contains(to) {
            lookup_symbol(self.symbols, (self.index_of(from) as usize, self.index_of(to) as usize))
        } else {
            None
        }
    }

    /// The graph after `set_symbol_for(from, to, sym)`: the first registration wins.
    pub open spec fn with_symbol(self, from: Seq<char>, to: Seq<char>, sym: (Seq<char>, Seq<char>)) -> GraphView {
        if self.currencies.contains(from) && self.currencies.contains(to) && self.symbol_for(
            from,
            to,
        ) is None {
            GraphView {
                symbols: self.symbols.push(
                    ((self.index_of(from) as usize, self.index_of(to) as usize), sym),
                ),
                ..self
            }
        } else {
            self
        }
    }

    /// Whether an update at `last_updated_at` is at most `max_age_ns` old at `now_ns`.
    pub open spec fn fresh_at(self, now_ns: u64, max_age_ns: u64) -> bool {
        now_ns <= self.last_updated_at || now_ns - self.last_updated_at <= max_age_ns
    }

    /// Symbol and order side that execute the leg `from -> to`: the pair's own
    /// symbol sells `from`; the reversed pair's symbol buys `to`.
    pub open spec fn symbol_and_side(self, from: Seq<char>, to: Seq<char>) -> Option<
        ((Seq<char>, Seq<char>), OrderSide),
    > {
        match self.symbol_for(from, to) {
            Some(s) => Some((s, OrderSide::Sell)),
            None => match self.symbol_for(to, from) {
                Some(s) => Some((s, OrderSide::Buy)),
                None => None,
            },
        }
    }
}

/// If `x` occurs at `k` in a sequence without duplicates, `k` is its index.
pub proof fn lemma_index_of_unique<A>(s: Seq<A>, k: int)
    requires
        s.no_duplicates(),
        0 <= k < s.len(),
    ensures
        s.index_of(s[k]) == k,
        s.contains(s[k]),
{
    assert(s.contains(s[k]));
    let c = s.index_of(s[k]);
    assert(0 <= c < s.len() && s[c] == s[k]);
}

/// Directed graph of exchange rates between currencies.
///
/// Each directed edge records the integer quote it was priced from; a
/// negative-cycle search over log-weights of these quotes finds arbitrage.
pub struct ExchangeRateGraph {
    currencies: Vec<Currency>,
    adjacency: Vec<Vec<RateEdge>>,
    last_updated_at: u64,
    symbol_map: Vec<((usize, usize), SymbolId)>,
}

impl View for ExchangeRateGraph {
    type V = GraphView;

    closed spec fn view(&self) -> GraphView {
        GraphView {
            currencies: self.currencies@.map_values(|c: Currency| c@),
            edges: self.adjacency@.map_values(|a: Vec<RateEdge>| a@),
            symbols: self.symbol_map@.map_values(
                |e: ((usize, usize), SymbolId)| (e.0, e.1@),
            ),
            last_updated_at: self.last_updated_at,
        }
    }
}

fn upsert_edge_exec(adj: &mut Vec<RateEdge>, e: RateEdge)
    requires
        forall|p: int, q: int|
            0 <= p < old(adj).len() && 0 <= q < old(adj).len() && p != q ==> #[trigger] old(
                adj,
            )@[p].to != #[trigger] old(adj)@[q].to,
    ensures
        final(adj)@ == upsert_edge(old(adj)@, e),
{
    let ghost a0 = adj@;
    let mut p: usize = 0;
    while p < adj.len()
        invariant
            adj@ == a0,
            a0 == old(adj)@,
            p <= adj.len(),
            forall|q: int| 0 <= q < p ==> adj@[q].to != e.to,
            forall|x: int, y: int|
                0 <= x < a0.len() && 0 <= y < a0.len() && x != y ==> #[trigger] a0[x].to
                    != #[trigger] a0[y].to,
        decreases adj.len() - p,
    {
        if adj[p].to == e.to {
            proof {
                assert(0 <= p < a0.len() && a0[p as int].to == e.to);
                let c = choose|q: int| 0 <= q < a0.len() && a0[q].to == e.to;
                assert(a0[c].to == e.to);
                assert(c == p as int);
            }
            adj.set(p, e);
            assert(adj@ == upsert_edge(a0, e));
            return;
        }
        p = p + 1;
    }
    adj.push(e);
}

impl ExchangeRateGraph {
    pub closed spec fn wf(&self) -> bool {
        &&& self@.wf()
        &&& self.currencies@.len() == self.adjacency@.len()
    }

    /// An empty graph: no currencies, edges or symbols; its last-update time
    /// is the clock's reading.
    pub fn new() -> (g: ExchangeRateGraph)
        ensures
            g.wf(),
            g@.currencies.len() == 0,
            g@.edges.len() == 0,
            g@.symbols.len() == 0,
    {
        let g = ExchangeRateGraph {
            currencies: Vec::new(),
            adjacency: Vec::new(),
            last_updated_at: nanos(),
            symbol_map: Vec::new(),
        };
        proof {
            assert(g@.currencies =~= Seq::<Seq<char>>::empty());
        }
        g
    }

    /// An empty graph; `n` is a hint for how many currencies will be added.
    pub fn with_capacity(n: usize) -> (g: ExchangeRateGraph)
        ensures
            g.wf(),
            g@.currencies.len() == 0,
            g@.edges.len() == 0,
            g@.symbols.len() == 0,
    {
        let g = ExchangeRateGraph {
            currencies: Vec::with_capacity(n),
            adjacency: Vec::with_capacity(n),
            last_updated_at: nanos(),
            symbol_map: Vec::new(),
        };
        proof {
            assert(g@.currencies =~= Seq::<Seq<char>>::empty());
        }
        g
    }

    /// Index of a known currency, or `None`.
    fn find_currency(&self, c: &Currency) -> (r: Option<usize>)
        requires
            self.wf(),
        ensures
            match r {
                Some(k) => k < self@.n() && self@.currencies[k as int] == c@ && self@.index_of(c@)
                    == k,
                None => !self@.currencies.contains(c@),
            },
    {
        let mut k: usize = 0;
        while k < self.currencies.len()
            invariant
                self.wf(),
                k <= self.currencies.len(),
                forall|q: int| 0 <= q < k ==> self@.currencies[q] != c@,
            decreases self.currencies.len() - k,
        {
            if self.currencies[k] == *c {
                proof {
                    lemma_index_of_unique(self@.currencies, k as int);
                }
                return Some(k);
            }
            k = k + 1;
        }
        None
    }

    /// Registers a currency and returns its index; a known currency keeps its index.
    pub fn add_currency(&mut self, currency: Currency) -> (idx: usize)
        requires
            old(self).wf(),
        ensures
            final(self).wf(),
            final(self)@ == old(self)@.with_currency(currency@),
            idx < final(self)@.n(),
            final(self)@.currencies[idx as int] == currency@,
            idx == final(self)@.index_of(currency@),
    {
        match self.find_currency(&currency) {
            Some(k) => k,
            None => {
                let ghost g0 = self@;
                let idx = self.currencies.len();
                self.currencies.push(currency);
                self.adjacency.push(Vec::new());
                proof {
                    let g1 = self@;
                    assert(g1.currencies =~= g0.currencies.push(g1.currencies[idx as int]));
                    assert(g1.edges =~= g0.edges.push(Seq::empty()));
                    assert(g1.symbols =~= g0.symbols);
                    assert(g1 == g0.with_currency(g1.currencies[idx as int]));
                    assert(g1.currencies.no_duplicates());
                    lemma_index_of_unique(g1.currencies, idx as int);
                }
                idx
            }
        }
    }

    fn upsert_at(&mut self, i: usize, e: RateEdge)
        requires
            old(self).wf(),
            i < old(self)@.n(),
            e.to < old(self)@.n(),
        ensures
            final(self).wf(),
            final(self)@ == old(self)@.with_edge(i as int, e),
    {
        let ghost g0 = self@;
        let mut inner: Vec<RateEdge> = Vec::new();
        self.adjacency.set_and_swap(i, &mut inner);
        proof {
            assert(inner@ == g0.edges[i as int]);
        }
        upsert_edge_exec(&mut inner, e);
        let ghost new_adj = inner@;
        self.adjacency.set(i, inner);
        proof {
            let g1 = self@;
            assert(g1.edges =~= g0.edges.update(i as int, new_adj));
            assert(g1.currencies =~= g0.currencies);
            assert(g1.symbols =~= g0.symbols);
            let old_adj = g0.edges[i as int];
            if exists|p: int| 0 <= p < old_adj.len() && old_adj[p].to == e.to {
                let c = choose|p: int| 0 <= p < old_adj.len() && old_adj[p].to == e.to;
                assert(new_adj =~= old_adj.update(c, e));
                assert forall|p: int, q: int|
                    0 <= p < new_adj.len() && 0 <= q < new_adj.len() && p != q implies #[trigger] new_adj[p].to
                    != #[trigger] new_adj[q].to by {
                    if p == c {
                        assert(new_adj[q].to == old_adj[q].to);
                    } else if q == c {
                        assert(new_adj[p].to == old_adj[p].to);
                    }
                }
            } else {
                assert(new_adj =~= old_adj.push(e));
            }
            assert(g1 == g0.with_edge(i as int, e));
        }
    }

    /// Records the best bid and ask of the pair `from`/`to` (base/quote).
    ///
    /// A positive bid prices the edge `from -> to` (selling `from`); a
    /// positive ask prices the edge `to -> from` (buying `from`).
    pub fn set_rate(&mut self, from: &Currency, to: &Currency, bid: i64, ask: i64)
        requires
            old(self).wf(),
        ensures
            final(self).wf(),
            final(self)@.currencies == old(self)@.with_rate(from@, to@, bid, ask).currencies,
            final(self)@.edges == old(self)@.with_rate(from@, to@, bid, ask).edges,
            final(self)@.symbols == old(self)@.symbols,
    {
        self.set_rate_at(from, to, bid, ask, nanos());
    }

    /// `set_rate` at time `now_ns`, which becomes the last-update time.
    pub fn set_rate_at(&mut self, from: &Currency, to: &Currency, bid: i64, ask: i64, now_ns: u64)
        requires
            old(self).wf(),
        ensures
            final(self).wf(),
            final(self)@ == (GraphView { last_updated_at: now_ns, ..old(self)@.with_rate(from@, to@, bid, ask) }),
    {
        let i = self.add_currency(from.clone());
        let j = self.add_currency(to.clone());
        proof {
            let g = old(self)@.with_currency(from@);
            assert(g.currencies.contains(from@));
            if !g.currencies.contains(to@) {
                assert(g.currencies.push(to@)[i as int] == from@);
            }
        }
        if bid > 0 {
            self.upsert_at(i, RateEdge { to: j, rate: EdgeRate::Bid(bid) });
        }
        if ask > 0 {
            self.upsert_at(j, RateEdge { to: i, rate: EdgeRate::Ask(ask) });
        }
        self.last_updated_at = now_ns;
    }

    /// The known currencies in index order.
    pub fn currencies(&self) -> (r: &[Currency])
        ensures
            r@.map_values(|c: Currency| c@) == self@.currencies,
    {
        self.currencies.as_slice()
    }

    /// Outgoing edges of currency `i`.
    pub fn edges_from(&self, i: usize) -> (r: &[RateEdge])
        requires
            self.wf(),
            i < self@.n(),
        ensures
            r@ == self@.edges[i as int],
    {
        self.adjacency[i].as_slice()
    }

    /// Number of known currencies.
    pub fn len(&self) -> (r: usize)
        requires
            self.wf(),
        ensures
            r == self@.n(),
    {
        self.currencies.len()
    }

    /// Time of the last `set_rate`, in nanoseconds.
    pub fn last_updated_at(&self) -> (r: u64)
        ensures
            r == self@.last_updated_at,
    {
        self.last_updated_at
    }

    /// Whether the last update lies at most `max_age_ns` before `now_ns`.
    pub fn is_fresh_at(&self, now_ns: u64, max_age_ns: u64) -> (r: bool)
        ensures
            r == self@.fresh_at(now_ns, max_age_ns),
    {
        now_ns <= self.last_updated_at || now_ns - self.last_updated_at <= max_age_ns
    }

    /// Whether the graph was updated within the last `max_age_ns` nanoseconds.
    pub fn is_fresh(&self, max_age_ns: u64) -> (r: bool)
        ensures
            exists|now: u64| r == #[trigger] self@.fresh_at(now, max_age_ns),
    {
        let now = nanos();
        self.is_fresh_at(now, max_age_ns)
    }
    /// Position of `key` in the symbol table, or `None`.
    fn find_symbol(&self, key: (usize, usize)) -> (r: Option<usize>)
        requires
            self.wf(),
        ensures
            match r {
                Some(p) => p < self@.symbols.len() && self@.symbols[p as int].0 == key
                    && lookup_symbol(self@.symbols, key) == Some(self@.symbols[p as int].1),
                None => lookup_symbol(self@.symbols, key) is None,
            },
    {
        let mut p: usize = 0;
        while p < self.symbol_map.len()
            invariant
                self.wf(),
                p <= self.symbol_map.len(),
                forall|q: int| 0 <= q < p ==> self@.symbols[q].0 != key,
            decreases self.symbol_map.len() - p,
        {
            let k = self.symbol_map[p].0;
            if k.0 == key.0 && k.1 == key.1 {
                proof {
                    let syms = self@.symbols;
                    assert(syms[p as int].0 == key);
                    let c = choose|q: int| 0 <= q < syms.len() && syms[q].0 == key;
                    assert(syms[c].0 == key);
                    assert(c == p as int);
                }
                return Some(p);
            }
            p = p + 1;
        }
        None
    }

    /// Records which exchange symbol prices the ordered pair `from -> to`.
    /// Both currencies must already be known; an existing entry is kept.
    pub fn set_symbol_for(&mut self, from: &Currency, to: &Currency, symbol: SymbolId)
        requires
            old(self).wf(),
        ensures
            final(self).wf(),
            final(self)@ == old(self)@.with_symbol(from@, to@, symbol@),
    {
        let i = self.find_currency(from);
        let j = self.find_currency(to);
        match (i, j) {
            (Some(i), Some(j)) => {
                if self.find_symbol((i, j)).is_none() {
                    let ghost g0 = self@;
                    let ghost sv = symbol@;
                    self.symbol_map.push(((i, j), symbol));
                    proof {
                        let g1 = self@;
                        assert(g1.symbols =~= g0.symbols.push(((i, j), sv)));
                        assert(g1.currencies =~= g0.currencies);
                        assert(g1.edges =~= g0.edges);
                        assert forall|p: int, q: int|
                            0 <= p < g1.symbols.len() && 0 <= q < g1.symbols.len() && p != q implies (
                            #[trigger] g1.symbols[p]).0 != (#[trigger] g1.symbols[q]).0 by {
                            if p == g0.symbols.len() {
                                assert(g0.symbols[q].0 != (i, j));
                            } else if q == g0.symbols.len() {
                                assert(g0.symbols[p].0 != (i, j));
                            }
                        }
                    }
                }
            },
            _ => {},
        }
    }

    /// The exchange symbol registered for the directed pair `from -> to`.
    pub fn get_symbol_for(&self, from: &Currency, to: &Currency) -> (r: Option<&SymbolId>)
        requires
            self.wf(),
        ensures
            match r {
                Some(s) => self@.symbol_for(from@, to@) == Some(s@),
                None => self@.symbol_for(from@, to@) is None,
            },
    {
        let i = self.find_currency(from);
        let j = self.find_currency(to);
        match (i, j) {
            (Some(i), Some(j)) => match self.find_symbol((i, j)) {
                Some(p) => Some(&self.symbol_map[p].1),
                None => None,
            },
            _ => None,
        }
    }

    /// Symbol and order side that execute the directed leg `from -> to`.
    ///
    /// Symbols are stored in base/quote order: a leg in that direction sells
    /// the base (`Sell`); a leg against it buys the base (`Buy`).
    pub fn symbol_and_side_for(&self, from: &Currency, to: &Currency) -> (r: Option<(&SymbolId, OrderSide)>)
        requires
            self.wf(),
        ensures
            match r {
                Some((s, side)) => self@.symbol_and_side(from@, to@) == Some((s@, side)),
                None => self@.symbol_and_side(from@, to@) is None,
            },
    {
        if let Some(sym) = self.get_symbol_for(from, to) {
            return Some((sym, OrderSide::Sell));
        }
        if let Some(sym) = self.get_symbol_for(to, from) {
            return Some((sym, OrderSide::Buy));
        }
        None
    }
}

/// A rate update at `t` keeps the graph fresh for `max_age_ns`: at any time
/// up to `t + max_age_ns` it counts as fresh, and after that it does not.
pub proof fn lemma_fresh_after_update(
    g: GraphView,
    from: Seq<char>,
    to: Seq<char>,
    bid: i64,
    ask: i64,
    t: u64,
    now: u64,
    max_age_ns: u64,
)
    ensures
        (GraphView { last_updated_at: t, ..g.with_rate(from, to, bid, ask) }).fresh_at(now, max_age_ns) <==> now
            <= t + max_age_ns,
{
}

/// Registering a currency twice is the same as registering it once, and a
/// registered currency keeps its index as more currencies are added.
pub proof fn lemma_add_currency_idempotent(g: GraphView, c: Seq<char>, d: Seq<char>)
    requires
        g.wf(),
    ensures
        g.with_currency(c).with_currency(c) == g.with_currency(c),
        g.with_currency(c).currencies.contains(c),
        g.with_currency(c).with_currency(d).index_of(c) == g.with_currency(c).index_of(c),
{
    let g1 = g.with_currency(c);
    if !g.currencies.contains(c) {
        assert(g1.currencies[g.currencies.len() as int] == c);
    }
    assert(g1.currencies.contains(c));
    let k = g1.index_of(c);
    assert(0 <= k < g1.currencies.len() && g1.currencies[k] == c);
    let g2 = g1.with_currency(d);
    assert(g2.currencies[k] == c);
    assert(g2.currencies.no_duplicates()) by {
        if !g1.currencies.contains(d) {
            assert forall|i: int, j: int| 0 <= i < g2.currencies.len() && 0 <= j < g2.currencies.len() && i != j implies g2.currencies[i] != g2.currencies[j] by {
                if i == g1.currencies.len() {
                    assert(!g1.currencies.contains(g1.currencies[j]) || g1.currencies[j] != d);
                } else if j == g1.currencies.len() {
                    assert(g1.currencies[i] != d);
                }
            }
        }
    }
    lemma_index_of_unique(g2.currencies, k);
}

/// After `set_rate(from, to, ..)` both currencies are known; the pair is
/// priced in both directions when both quotes are positive.
pub proof fn lemma_set_rate_registers_pair(g: GraphView, from: Seq<char>, to: Seq<char>, bid: i64, ask: i64)
    requires
        g.wf(),
    ensures
        g.with_rate(from, to, bid, ask).currencies.contains(from),
        g.with_rate(from, to, bid, ask).currencies.contains(to),
{
    let g1 = g.with_currency(from);
    lemma_add_currency_idempotent(g, from, to);
    let g2 = g1.with_currency(to);
    assert(g1.currencies.contains(from));
    let k = g1.index_of(from);
    assert(g2.currencies[k] == from);
    if !g1.currencies.contains(to) {
        assert(g2.currencies[g1.currencies.len() as int] == to);
    }
}

/// The first symbol registered for a pair of known currencies is the one
/// found afterwards; later registrations do not replace it.
pub proof fn lemma_first_symbol_wins(
    g: GraphView,
    from: Seq<char>,
    to: Seq<char>,
    s1: (Seq<char>, Seq<char>),
    s2: (Seq<char>, Seq<char>),
)
    requires
        g.wf(),
        g.currencies.contains(from),
        g.currencies.contains(to),
        g.symbol_for(from, to) is None,
    ensures
        g.with_symbol(from, to, s1).symbol_for(from, to) == Some(s1),
        g.with_symbol(from, to, s1).with_symbol(from, to, s2).symbol_for(from, to) == Some(s1),
{
    let key = (g.index_of(from) as usize, g.index_of(to) as usize);
    let g1 = g.with_symbol(from, to, s1);
    let last = g.symbols.len() as int;
    assert(g1.symbols[last].0 == key);
    let c = choose|p: int| 0 <= p < g1.symbols.len() && g1.symbols[p].0 == key;
    assert(g1.symbols[c].0 == key);
    if c != last {
        assert(g.symbols[c].0 == key);
    }
    assert(g1.with_symbol(from, to, s2) == g1);
}

/// A leg along a registered pair sells its base; a leg against it buys.
pub proof fn lemma_side_follows_direction(g: GraphView, base: Seq<char>, quote: Seq<char>)
    requires
        g.symbol_for(base, quote) matches Some(s) && g.symbol_for(quote, base) is None,
    ensures
        g.symbol_and_side(base, quote) == Some((g.symbol_for(base, quote).unwrap(), OrderSide::Sell)),
        g.symbol_and_side(quote, base) == Some((g.symbol_for(base, quote).unwrap(), OrderSide::Buy)),
{
}

/// Upserting an edge leaves it among the edges.
proof fn lemma_upsert_edge_contains(adj: Seq<RateEdge>, e: RateEdge)
    ensures
        upsert_edge(adj, e).contains(e),
{
    if exists|p: int| 0 <= p < adj.len() && adj[p].to == e.to {
        let c = choose|p: int| 0 <= p < adj.len() && adj[p].to == e.to;
        assert(upsert_edge(adj, e)[c] == e);
    } else {
        assert(upsert_edge(adj, e)[adj.len() as int] == e);
    }
}

/// A rate update between two different currencies prices the pair in the
/// right directions: a positive bid gives the edge from the base to the
/// quote, priced by the bid; a positive ask gives the edge from the quote
/// back to the base, priced by the ask.
pub proof fn lemma_set_rate_directions(g: GraphView, from: Seq<char>, to: Seq<char>, bid: i64, ask: i64)
    requires
        g.wf(),
        from != to,
    ensures
        ({
            let h = g.with_rate(from, to, bid, ask);
            let i = h.index_of(from);
            let j = h.index_of(to);
            &&& 0 <= i < h.edges.len() && 0 <= j < h.edges.len() && i != j
            &&& h.currencies[i] == from && h.currencies[j] == to
            &&& bid > 0 ==> h.edges[i].contains(RateEdge { to: j as usize, rate: EdgeRate::Bid(bid) })
            &&& ask > 0 ==> h.edges[j].contains(RateEdge { to: i as usize, rate: EdgeRate::Ask(ask) })
        }),
{
    let g1 = g.with_currency(from).with_currency(to);
    lemma_set_rate_registers_pair(g, from, to, bid, ask);
    lemma_add_currency_idempotent(g, from, to);
    let ga = g.with_currency(from);
    let k = ga.index_of(from);
    assert(ga.currencies.contains(from));
    assert(g1.currencies.contains(to)) by {
        if !ga.currencies.contains(to) {
            assert(g1.currencies[ga.currencies.len() as int] == to);
        }
    }
    assert(g1.edges.len() == g1.currencies.len());
    let i = g1.index_of(from);
    let j = g1.index_of(to);
    assert(g1.currencies[i] == from && g1.currencies[j] == to);
    let g2 = if bid > 0 {
        g1.with_edge(i, RateEdge { to: j as usize, rate: EdgeRate::Bid(bid) })
    } else {
        g1
    };
    if bid > 0 {
        lemma_upsert_edge_contains(g1.edges[i], RateEdge { to: j as usize, rate: EdgeRate::Bid(bid) });
    }
    if ask > 0 {
        lemma_upsert_edge_contains(g2.edges[j], RateEdge { to: i as usize, rate: EdgeRate::Ask(ask) });
    }
}

} // verus!
