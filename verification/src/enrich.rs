use vstd::prelude::*;

use crate::book::{book_of, BookMap, BookView};
use crate::types::{ArbitrageOpportunity, OrderSide, RouteLeg, Triangle};

verus! {

/// A route leg priced from its symbol's book: a buy takes the best ask, a
/// sell the best bid, with the size capped at `max_size`; a leg whose book
/// or book side is missing stays as it was.
pub open spec fn priced_leg(leg: RouteLeg, b: Option<BookView>, max_size: i64) -> (i64, i64) {
    match b {
        Some(book) => {
            let levels = match leg.side {
                OrderSide::Buy => book.asks,
                OrderSide::Sell => book.bids,
            };
            if levels.len() > 0 {
                (levels[0].price, if levels[0].size < max_size { levels[0].size } else { max_size })
            } else {
                (leg.price, leg.size)
            }
        },
        None => (leg.price, leg.size),
    }
}

impl Triangle {
    pub fn clone_triangle(&self) -> (t: Triangle)
        ensures
            t.leg_a.0@ == self.leg_a.0@ && t.leg_a.1@ == self.leg_a.1@,
            t.leg_b.0@ == self.leg_b.0@ && t.leg_b.1@ == self.leg_b.1@,
            t.leg_c.0@ == self.leg_c.0@ && t.leg_c.1@ == self.leg_c.1@,
    {
        Triangle {
            leg_a: (self.leg_a.0.clone(), self.leg_a.1.clone()),
            leg_b: (self.leg_b.0.clone(), self.leg_b.1.clone()),
            leg_c: (self.leg_c.0.clone(), self.leg_c.1.clone()),
        }
    }
}

/// The opportunity with every route leg priced from the current books.
pub fn enrich_opportunity(opp: &ArbitrageOpportunity, books: &BookMap, max_size: i64) -> (r: ArbitrageOpportunity)
    requires
        books.wf(),
    ensures
        r.triangle.leg_a.0@ == opp.triangle.leg_a.0@ && r.triangle.leg_a.1@ == opp.triangle.leg_a.1@,
        r.triangle.leg_b.0@ == opp.triangle.leg_b.0@ && r.triangle.leg_b.1@ == opp.triangle.leg_b.1@,
        r.triangle.leg_c.0@ == opp.triangle.leg_c.0@ && r.triangle.leg_c.1@ == opp.triangle.leg_c.1@,
        r.ts_ns == opp.ts_ns,
        r.routes.len() == opp.routes.len(),
        forall|k: int|
            0 <= k < opp.routes.len() ==> {
                let leg = opp.routes@[k];
                let p = priced_leg(leg, book_of(books@, leg.symbol@), max_size);
                &&& (#[trigger] r.routes@[k]).symbol@ == leg.symbol@
                &&& r.routes@[k].side == leg.side
                &&& r.routes@[k].price == p.0
                &&& r.routes@[k].size == p.1
            },
        forall|k: int|
            0 <= k < opp.routes.len() && (#[trigger] opp.routes@[k]).side == OrderSide::Buy && book_of(
                books@,
                opp.routes@[k].symbol@,
            ) is Some && book_of(books@, opp.routes@[k].symbol@).unwrap().asks.len() > 0 ==> {
                let b = book_of(books@, opp.routes@[k].symbol@).unwrap();
                &&& r.routes@[k].price == b.asks[0].price
                &&& r.routes@[k].size <= b.asks[0].size && r.routes@[k].size <= max_size
                &&& (r.routes@[k].size == b.asks[0].size || r.routes@[k].size == max_size)
            },
        forall|k: int|
            0 <= k < opp.routes.len() && (#[trigger] opp.routes@[k]).side == OrderSide::Sell && book_of(
                books@,
                opp.routes@[k].symbol@,
            ) is Some && book_of(books@, opp.routes@[k].symbol@).unwrap().bids.len() > 0 ==> {
                let b = book_of(books@, opp.routes@[k].symbol@).unwrap();
                &&& r.routes@[k].price == b.bids[0].price
                &&& r.routes@[k].size <= b.bids[0].size && r.routes@[k].size <= max_size
                &&& (r.routes@[k].size == b.bids[0].size || r.routes@[k].size == max_size)
            },
{
    let mut routes: Vec<RouteLeg> = Vec::new();
    let mut k: usize = 0;
    while k < opp.routes.len()
        invariant
            books.wf(),
            k <= opp.routes.len(),
            routes.len() == k,
            forall|q: int|
                0 <= q < k ==> {
                    let leg = opp.routes@[q];
                    let p = priced_leg(leg, book_of(books@, leg.symbol@), max_size);
                    &&& (#[trigger] routes@[q]).symbol@ == leg.symbol@
                    &&& routes@[q].side == leg.side
                    &&& routes@[q].price == p.0
                    &&& routes@[q].size == p.1
                },
        decreases opp.routes.len() - k,
    {
        let leg = &opp.routes[k];
        let mut price = leg.price;
        let mut size = leg.size;
        if let Some(book) = books.get(&leg.symbol) {
            let levels = match leg.side {
                OrderSide::Buy => &book.asks,
                OrderSide::Sell => &book.bids,
            };
            if levels.len() > 0 {
                price = levels[0].price;
                size = if levels[0].size < max_size { levels[0].size } else { max_size };
            }
        }
        routes.push(RouteLeg { symbol: leg.symbol.clone_id(), side: leg.side, price, size });
        k = k + 1;
    }
    ArbitrageOpportunity { triangle: opp.triangle.clone_triangle(), routes, ts_ns: opp.ts_ns }
}

/// Whether some route leg still lacks a price or a size.
pub fn has_unpriced_leg(opp: &ArbitrageOpportunity) -> (r: bool)
    ensures
        r == exists|k: int| 0 <= k < opp.routes.len() && (opp.routes@[k].price == 0 || opp.routes@[k].size == 0),
{
    let mut k: usize = 0;
    while k < opp.routes.len()
        invariant
            k <= opp.routes.len(),
            forall|q: int| 0 <= q < k ==> !(opp.routes@[q].price == 0 || opp.routes@[q].size == 0),
        decreases opp.routes.len() - k,
    {
        if opp.routes[k].price == 0 || opp.routes[k].size == 0 {
            return true;
        }
        k = k + 1;
    }
    false
}

/// A leg priced from a book takes the top of the side it trades against: a
/// buy the best ask, a sell the best bid, with the size the smaller of that
/// level's size and `max_size`.
pub proof fn lemma_priced_leg_takes_top(leg: RouteLeg, b: BookView, max_size: i64)
    ensures
        leg.side == OrderSide::Buy && b.asks.len() > 0 ==> {
            let p = priced_leg(leg, Some(b), max_size);
            &&& p.0 == b.asks[0].price
            &&& p.1 <= b.asks[0].size && p.1 <= max_size
            &&& (p.1 == b.asks[0].size || p.1 == max_size)
        },
        leg.side == OrderSide::Sell && b.bids.len() > 0 ==> {
            let p = priced_leg(leg, Some(b), max_size);
            &&& p.0 == b.bids[0].price
            &&& p.1 <= b.bids[0].size && p.1 <= max_size
            &&& (p.1 == b.bids[0].size || p.1 == max_size)
        },
        priced_leg(leg, None, max_size) == (leg.price, leg.size),
{
}

} // verus!
