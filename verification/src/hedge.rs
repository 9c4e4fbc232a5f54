use vstd::prelude::*;

use crate::types::{ArbitrageOpportunity, OrderSide, SymbolId};

verus! {

/// The order that neutralizes a filled leg.
pub struct HedgeSpec {
    pub symbol: SymbolId,
    pub side: OrderSide,
    pub size: i64,
    pub leg_idx: usize,
}

/// The reverse order of leg `leg_idx`: same symbol and size, opposite side;
/// `None` when the opportunity has no such leg.
pub fn hedge_spec(opp: &ArbitrageOpportunity, leg_idx: usize) -> (r: Option<HedgeSpec>)
    ensures
        r is Some <==> leg_idx < opp.routes.len(),
        r matches Some(h) ==> {
            &&& h.symbol@ == opp.routes@[leg_idx as int].symbol@
            &&& h.side == opp.routes@[leg_idx as int].side.spec_opposite()
            &&& h.size == opp.routes@[leg_idx as int].size
            &&& h.leg_idx == leg_idx
        },
{
    if leg_idx >= opp.routes.len() {
        return None;
    }
    let leg = &opp.routes[leg_idx];
    Some(HedgeSpec { symbol: leg.symbol.clone_id(), side: leg.side.opposite(), size: leg.size, leg_idx })
}

/// Hedging a hedge gives back the side of the leg itself.
pub proof fn lemma_hedge_side_involution(side: OrderSide)
    ensures
        side.spec_opposite().spec_opposite() == side,
        side.spec_opposite() != side,
{
}

} // verus!
