use vstd::prelude::*;

verus! {

/// A currency code such as `BTC` or `USDT`.
pub type Currency = String;

/// Identity of a tradable instrument on a venue.
pub struct SymbolId {
    pub venue: String,
    pub symbol: String,
}

impl View for SymbolId {
    type V = (Seq<char>, Seq<char>);

    open spec fn view(&self) -> (Seq<char>, Seq<char>) {
        (self.venue@, self.symbol@)
    }
}

impl SymbolId {
    /// Field-wise equality of two symbol identities.
    pub fn same_as(&self, other: &SymbolId) -> (r: bool)
        ensures
            r == (self@ == other@),
    {
        self.venue == other.venue && self.symbol == other.symbol
    }

    pub fn clone_id(&self) -> (r: SymbolId)
        ensures
            r@ == self@,
    {
        SymbolId { venue: self.venue.clone(), symbol: self.symbol.clone() }
    }
}

impl Clone for SymbolId {
    fn clone(&self) -> (r: SymbolId)
        ensures
            r@ == self@,
    {
        self.clone_id()
    }
}

} // verus!

verus! {

/// Direction of an order.
#[derive(Debug, Clone, Copy, PartialEq, Eq, Structural)]
pub enum OrderSide {
    Buy,
    Sell,
}

impl OrderSide {
    /// The side that undoes an order of this side.
    pub open spec fn spec_opposite(self) -> OrderSide {
        match self {
            OrderSide::Buy => OrderSide::Sell,
            OrderSide::Sell => OrderSide::Buy,
        }
    }

    #[verifier::when_used_as_spec(spec_opposite)]
    pub fn opposite(self) -> (r: OrderSide)
        ensures
            r == self.spec_opposite(),
    {
        match self {
            OrderSide::Buy => OrderSide::Sell,
            OrderSide::Sell => OrderSide::Buy,
        }
    }
}

/// Best bid and ask of a base/quote pair, in integer price units.
pub struct RateTriple {
    pub base: Currency,
    pub quote: Currency,
    pub best_bid: i64,
    pub best_ask: i64,
}

/// One executable leg of an arbitrage route.
pub struct RouteLeg {
    pub symbol: SymbolId,
    pub side: OrderSide,
    pub price: i64,
    pub size: i64,
}

impl RouteLeg {
    pub open spec fn view_eq(self, other: RouteLeg) -> bool {
        &&& self.symbol@ == other.symbol@
        &&& self.side == other.side
        &&& self.price == other.price
        &&& self.size == other.size
    }
}

impl Clone for RouteLeg {
    fn clone(&self) -> (r: RouteLeg)
        ensures
            r.view_eq(*self),
    {
        RouteLeg { symbol: self.symbol.clone_id(), side: self.side, price: self.price, size: self.size }
    }
}

/// The three directed currency legs of a triangular cycle.
pub struct Triangle {
    pub leg_a: (Currency, Currency),
    pub leg_b: (Currency, Currency),
    pub leg_c: (Currency, Currency),
}

/// A detected triangular arbitrage together with its executable legs.
///
/// The profit figures of a detection are floating-point numbers and are
/// carried beside this value by the caller.
pub struct ArbitrageOpportunity {
    pub triangle: Triangle,
    pub routes: Vec<RouteLeg>,
    pub ts_ns: u64,
}

} // verus!
