use vstd::prelude::*;
use vstd::string::*;

use crate::book::BookSnapshot;
use crate::types::{OrderSide, RouteLeg};

verus! {

/// Why a leg's price could not be confirmed.
pub struct PriceCheckFailure {
    pub reason: String,
}

impl PriceCheckFailure {
    /// Text `price check failed: <reason>`.
    pub fn message(&self) -> (s: String)
        ensures
            s@ == "price check failed: "@ + self.reason@,
    {
        let mut s = String::new();
        s.append("price check failed: ");
        s.append(self.reason.as_str());
        s
    }
}

/// The book side a leg trades against: asks for a buy, bids for a sell.
pub open spec fn side_name(side: OrderSide) -> Seq<char> {
    match side {
        OrderSide::Buy => "ask"@,
        OrderSide::Sell => "bid"@,
    }
}

/// The failure for a leg whose symbol has no book.
pub fn missing_book(leg: &RouteLeg) -> (f: PriceCheckFailure)
    ensures
        f.reason@ == "no book data for "@ + leg.symbol.symbol@,
{
    let mut reason = String::new();
    reason.append("no book data for ");
    reason.append(leg.symbol.symbol.as_str());
    PriceCheckFailure { reason }
}

/// Current top-of-book price the leg would trade at: the best ask for a
/// buy, the best bid for a sell; a failure naming the side when it is empty.
pub fn leg_top_price(leg: &RouteLeg, book: &BookSnapshot) -> (r: Result<i64, PriceCheckFailure>)
    ensures
        ({
            let levels = match leg.side {
                OrderSide::Buy => book.asks@,
                OrderSide::Sell => book.bids@,
            };
            if levels.len() > 0 {
                r == Ok::<i64, PriceCheckFailure>(levels[0].price)
            } else {
                r matches Err(f) && f.reason@ == "no "@ + side_name(leg.side) + " side liquidity for "@
                    + leg.symbol.symbol@
            }
        }),
        leg.side == OrderSide::Buy ==> (r is Ok <==> book.asks@.len() > 0),
        leg.side == OrderSide::Sell ==> (r is Ok <==> book.bids@.len() > 0),
        r matches Ok(p) ==> (leg.side == OrderSide::Buy ==> p == book.asks@[0].price) && (leg.side
            == OrderSide::Sell ==> p == book.bids@[0].price),
        r matches Err(f) ==> f.reason@ == "no "@ + (if leg.side == OrderSide::Buy {
            "ask"@
        } else {
            "bid"@
        }) + " side liquidity for "@ + leg.symbol.symbol@,
{
    let levels = match leg.side {
        OrderSide::Buy => &book.asks,
        OrderSide::Sell => &book.bids,
    };
    if levels.len() > 0 {
        return Ok(levels[0].price);
    }
    let mut reason = String::new();
    reason.append("no ");
    match leg.side {
        OrderSide::Buy => reason.append("ask"),
        OrderSide::Sell => reason.append("bid"),
    }
    reason.append(" side liquidity for ");
    reason.append(leg.symbol.symbol.as_str());
    Err(PriceCheckFailure { reason })
}

} // verus!
