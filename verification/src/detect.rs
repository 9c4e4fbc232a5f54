use vstd::prelude::*;

use crate::cycle::{all_below, lemma_cycle_follows_predecessors, spec_cycle};
use crate::graph::{ExchangeRateGraph, GraphView};
use crate::types::{ArbitrageOpportunity, Currency, OrderSide, RouteLeg, Triangle};

verus! {

/// The directed currency legs `(cycle[k], cycle[k + 1])` of a cycle of indices.
pub open spec fn spec_cycle_legs(g: GraphView, cycle: Seq<usize>) -> Seq<(Seq<char>, Seq<char>)> {
    Seq::new(
        if cycle.len() == 0 { 0 } else { (cycle.len() - 1) as nat },
        |k: int| (g.currencies[cycle[k] as int], g.currencies[cycle[k + 1] as int]),
    )
}

/// Whether every leg of the cycle has a registered symbol in one direction or the other.
pub open spec fn legs_resolvable(g: GraphView, legs: Seq<(Seq<char>, Seq<char>)>) -> bool {
    forall|k: int| 0 <= k < legs.len() ==> (#[trigger] g.symbol_and_side(legs[k].0, legs[k].1)) is Some
}

/// Whether a cycle becomes an opportunity: at most `max_legs` legs, exactly
/// three of them, and a symbol for each.
pub open spec fn cycle_accepted(g: GraphView, cycle: Seq<usize>, max_legs: usize) -> bool {
    &&& cycle.len() <= max_legs + 1
    &&& cycle.len() == 4
    &&& legs_resolvable(g, spec_cycle_legs(g, cycle))
}

/// How a route leg stands for a directed currency leg of the graph.
pub open spec fn route_matches(g: GraphView, leg: (Seq<char>, Seq<char>), r: RouteLeg) -> bool {
    &&& g.symbol_and_side(leg.0, leg.1) == Some((r.symbol@, r.side))
    &&& r.price == 0
    &&& r.size == 0
}

/// The currency legs of `cycle`, one per consecutive pair of indices.
pub fn cycle_legs(graph: &ExchangeRateGraph, cycle: &Vec<usize>) -> (legs: Vec<(Currency, Currency)>)
    requires
        graph.wf(),
        all_below(cycle@, graph@.n() as int),
    ensures
        legs@.map_values(|l: (Currency, Currency)| (l.0@, l.1@)) == spec_cycle_legs(graph@, cycle@),
{
    let currencies = graph.currencies();
    let mut legs: Vec<(Currency, Currency)> = Vec::new();
    if cycle.len() == 0 {
        proof {
            assert(legs@.map_values(|l: (Currency, Currency)| (l.0@, l.1@)) =~= spec_cycle_legs(
                graph@,
                cycle@,
            ));
        }
        return legs;
    }
    let mut k: usize = 0;
    while k + 1 < cycle.len()
        invariant
            graph.wf(),
            all_below(cycle@, graph@.n() as int),
            currencies@.map_values(|c: Currency| c@) == graph@.currencies,
            cycle.len() >= 1,
            k + 1 <= cycle.len(),
            legs.len() == k,
            forall|q: int|
                0 <= q < k ==> (#[trigger] legs@[q]).0@ == graph@.currencies[cycle@[q] as int]
                    && legs@[q].1@ == graph@.currencies[cycle@[q + 1] as int],
        decreases cycle.len() - k,
    {
        let a = cycle[k];
        let b = cycle[k + 1];
        assert(currencies@.map_values(|c: Currency| c@)[a as int] == currencies@[a as int]@);
        assert(currencies@.map_values(|c: Currency| c@)[b as int] == currencies@[b as int]@);
        legs.push((currencies[a].clone(), currencies[b].clone()));
        k = k + 1;
    }
    proof {
        assert(legs@.map_values(|l: (Currency, Currency)| (l.0@, l.1@)) =~= spec_cycle_legs(
            graph@,
            cycle@,
        ));
    }
    legs
}

/// Builds the three-legged opportunity for a cycle of currency indices.
///
/// `None` when the cycle has more than `max_legs` legs, does not have exactly
/// three legs, or some leg has no registered symbol. Each route leg carries
/// the symbol and side that execute it; price and size are left at 0.
pub fn opportunity_from_cycle(graph: &ExchangeRateGraph, cycle: &Vec<usize>, max_legs: usize) -> (r:
    Option<ArbitrageOpportunity>)
    requires
        graph.wf(),
        all_below(cycle@, graph@.n() as int),
    ensures
        r is Some <==> cycle_accepted(graph@, cycle@, max_legs),
        r matches Some(opp) ==> {
            let legs = spec_cycle_legs(graph@, cycle@);
            &&& (opp.triangle.leg_a.0@, opp.triangle.leg_a.1@) == legs[0]
            &&& (opp.triangle.leg_b.0@, opp.triangle.leg_b.1@) == legs[1]
            &&& (opp.triangle.leg_c.0@, opp.triangle.leg_c.1@) == legs[2]
            &&& opp.routes.len() == 3
            &&& forall|k: int| 0 <= k < 3 ==> route_matches(graph@, legs[k], #[trigger] opp.routes@[k])
            &&& opp.ts_ns == 0
        },
{
    if cycle.len() > 0 && cycle.len() - 1 > max_legs {
        return None;
    }
    let legs = cycle_legs(graph, cycle);
    let ghost lv = spec_cycle_legs(graph@, cycle@);
    proof {
        assert(legs@.len() == lv.len());
    }
    if legs.len() != 3 {
        return None;
    }
    let mut routes: Vec<RouteLeg> = Vec::new();
    let mut k: usize = 0;
    while k < 3
        invariant
            graph.wf(),
            legs.len() == 3,
            lv == spec_cycle_legs(graph@, cycle@),
            legs@.map_values(|l: (Currency, Currency)| (l.0@, l.1@)) == lv,
            k <= 3,
            routes.len() == k,
            forall|q: int| 0 <= q < k ==> route_matches(graph@, lv[q], #[trigger] routes@[q]),
            forall|q: int| 0 <= q < k ==> (#[trigger] graph@.symbol_and_side(lv[q].0, lv[q].1)) is Some,
        decreases 3 - k,
    {
        assert(legs@.map_values(|l: (Currency, Currency)| (l.0@, l.1@))[k as int] == (
        legs@[k as int].0@, legs@[k as int].1@));
        match graph.symbol_and_side_for(&legs[k].0, &legs[k].1) {
            Some((sym, side)) => {
                routes.push(RouteLeg { symbol: sym.clone_id(), side, price: 0, size: 0 });
            },
            None => {
                assert(graph@.symbol_and_side(lv[k as int].0, lv[k as int].1) is None);
                assert(!legs_resolvable(graph@, lv));
                return None;
            },
        }
        k = k + 1;
    }
    let l0 = (legs[0].0.clone(), legs[0].1.clone());
    let l1 = (legs[1].0.clone(), legs[1].1.clone());
    let l2 = (legs[2].0.clone(), legs[2].1.clone());
    proof {
        assert(legs@.map_values(|l: (Currency, Currency)| (l.0@, l.1@))[0] == (legs@[0].0@, legs@[0].1@));
        assert(legs@.map_values(|l: (Currency, Currency)| (l.0@, l.1@))[1] == (legs@[1].0@, legs@[1].1@));
        assert(legs@.map_values(|l: (Currency, Currency)| (l.0@, l.1@))[2] == (legs@[2].0@, legs@[2].1@));
        assert(legs_resolvable(graph@, lv));
    }
    Some(
        ArbitrageOpportunity {
            triangle: Triangle { leg_a: l0, leg_b: l1, leg_c: l2 },
            routes,
            ts_ns: 0,
        },
    )
}

/// Every opportunity built from a reconstructed cycle is a closed triangle:
/// each leg starts where the previous one ends, and the last leg returns to
/// the first currency.
pub proof fn lemma_detected_triangle_closed(g: GraphView, pred: Seq<usize>, u: usize, v: usize, max_legs: usize)
    requires
        u < pred.len(),
        all_below(pred, pred.len() as int),
        cycle_accepted(g, spec_cycle(pred, u, v), max_legs),
    ensures
        ({
            let legs = spec_cycle_legs(g, spec_cycle(pred, u, v));
            &&& legs.len() == 3
            &&& legs[0].1 == legs[1].0
            &&& legs[1].1 == legs[2].0
            &&& legs[2].1 == legs[0].0
        }),
{
    lemma_cycle_follows_predecessors(pred, u, v);
}

} // verus!
