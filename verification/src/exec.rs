use vstd::prelude::*;
use vstd::string::*;

use crate::clock::nanos;
use crate::fill::{all_filled, rollback_needed, set_leg, FillState, LegFillStatus};
use crate::hedge::hedge_spec;
use crate::journal::{journal_id, lemma_confirmation_acknowledges, unacked_prefix, JournalEntry, OrderJournal};
use crate::opportunity::{opportunity_key, sha256, DedupTable, OpportunityId};
use crate::timeout::{
    lemma_expired_are_tracked, lemma_resolve_leg_untracks, still_pending,
    after_resolve_leg, after_resolve_opportunity, after_submission, OrderTimeoutConfig,
    OrderTimeoutTracker,
};
use crate::types::{ArbitrageOpportunity, OrderSide, RouteLeg, SymbolId};

verus! {

/// Error of a leg submission.
pub enum ExecError {
    SubmissionFailed(String),
}

impl ExecError {
    /// Human-readable text: `submission failed: <reason>`.
    pub fn message(&self) -> (s: String)
        ensures
            match self {
                ExecError::SubmissionFailed(m) => s@ == "submission failed: "@ + m@,
            },
    {
        match self {
            ExecError::SubmissionFailed(m) => {
                let mut s = String::new();
                s.append("submission failed: ");
                s.append(m.as_str());
                s
            },
        }
    }
}

/// Outcome of executing an opportunity.
pub enum OpportunityResult {
    Duplicate,
    Filled(FillState),
    RolledBack(FillState),
    TimedOut(FillState),
    Failed,
    PriceCheckFailed(String),
}

/// An order to send to the execution venue.
pub struct OrderSpec {
    pub symbol: SymbolId,
    pub side: OrderSide,
    pub quantity: i64,
    pub limit_price: i64,
}

impl OrderSpec {
    /// The order that executes a route leg: its side, size and price.
    pub open spec fn executes(self, leg: RouteLeg) -> bool {
        &&& self.symbol@ == leg.symbol@
        &&& self.side == leg.side
        &&& self.quantity == leg.size
        &&& self.limit_price == leg.price
    }

    /// The market order that reverses a route leg.
    pub open spec fn reverses(self, leg: RouteLeg) -> bool {
        &&& self.symbol@ == leg.symbol@
        &&& self.side == leg.side.spec_opposite()
        &&& self.quantity == leg.size
        &&& self.limit_price == 0
    }
}

/// What the caller does next for an opportunity in flight.
pub enum ExecAction {
    /// Submit the order of leg `leg`, then report with `on_leg_submitted`.
    SubmitLeg { leg: usize, order: OrderSpec },
    /// Submit the hedge of filled leg `leg`, then report with `on_hedge_submitted`.
    SubmitHedge { leg: usize, order: OrderSpec },
    /// The opportunity is settled.
    Finished(OpportunityResult),
}

/// Where an opportunity's execution stands.
#[derive(Debug, Clone, Copy, PartialEq, Eq, Structural)]
pub enum RunPhase {
    /// Legs before this index filled; this one is next.
    Legs(usize),
    /// This leg was handed out for submission.
    AwaitLeg(usize),
    /// A leg failed; no more legs are submitted.
    Settle,
    /// Filled legs from this index on still need a hedge.
    Hedging(usize),
    /// The hedge of this leg was handed out.
    AwaitHedge(usize),
    Done,
}

/// Execution state of one opportunity.
pub struct OpportunityRun {
    opp_id: OpportunityId,
    state: FillState,
    leg_count: usize,
    phase: RunPhase,
    journal_start: Ghost<int>,
}

impl OpportunityRun {
    /// Length of the journal when the run began: its own entries come after.
    pub closed spec fn journal_from(&self) -> int {
        self.journal_start@
    }

    pub closed spec fn phase(&self) -> RunPhase {
        self.phase
    }

    pub closed spec fn id(&self) -> OpportunityId {
        self.opp_id
    }

    pub closed spec fn fill(&self) -> FillState {
        self.state
    }

    pub closed spec fn count(&self) -> usize {
        self.leg_count
    }

    pub fn opp_id(&self) -> (r: OpportunityId)
        ensures
            r == self.id(),
    {
        self.opp_id
    }

    pub fn state(&self) -> (r: FillState)
        ensures
            r == self.fill(),
    {
        self.state
    }

    /// Number of route legs the run executes (at most three).
    pub fn leg_count(&self) -> (r: usize)
        ensures
            r == self.count(),
    {
        self.leg_count
    }

    pub fn is_done(&self) -> (r: bool)
        ensures
            r == (self.phase() == RunPhase::Done),
    {
        self.phase == RunPhase::Done
    }
}

/// The first filled leg in `[k, n)`.
pub open spec fn first_filled_from(legs: Seq<LegFillStatus>, k: int, n: int) -> Option<int>
    decreases n - k,
{
    if k >= n {
        None
    } else if legs[k] == LegFillStatus::Filled {
        Some(k)
    } else {
        first_filled_from(legs, k + 1, n)
    }
}

/// The settled result for a final fill state.
pub open spec fn settled_result_is(r: OpportunityResult, st: FillState) -> bool {
    if rollback_needed(st.legs@) {
        r matches OpportunityResult::RolledBack(s) && s == st
    } else if all_filled(st.legs@) {
        r matches OpportunityResult::Filled(s) && s == st
    } else {
        r is Failed
    }
}

/// Rolled-back states are kept per opportunity: one state per identifier.
pub open spec fn pending_wf(s: Seq<FillState>) -> bool {
    forall|p: int, q: int|
        0 <= p < s.len() && 0 <= q < s.len() && p != q ==> (#[trigger] s[p]).opportunity_id@ != (
        #[trigger] s[q]).opportunity_id@
}

/// The kept states after storing `st`: it replaces the state of the same
/// opportunity, or is appended.
pub open spec fn with_pending(s: Seq<FillState>, st: FillState) -> Seq<FillState> {
    if exists|p: int| 0 <= p < s.len() && s[p].opportunity_id@ == st.opportunity_id@ {
        s.update(choose|p: int| 0 <= p < s.len() && s[p].opportunity_id@ == st.opportunity_id@, st)
    } else {
        s.push(st)
    }
}

/// Text of an order side in the journal.
pub open spec fn side_text(side: OrderSide) -> Seq<char> {
    match side {
        OrderSide::Buy => "Buy"@,
        OrderSide::Sell => "Sell"@,
    }
}

/// The journal after one more entry satisfying `p` (no journal stays none).
pub open spec fn journaled_one(
    before: Option<Seq<JournalEntry>>,
    after: Option<Seq<JournalEntry>>,
    p: spec_fn(JournalEntry) -> bool,
) -> bool {
    match before {
        None => after is None,
        Some(es) => after matches Some(ns) && ns.len() == es.len() + 1 && ns.drop_last() == es && p(ns.last()),
    }
}

pub open spec fn intent_of(id: Seq<u8>, leg: RouteLeg, now: u64) -> spec_fn(JournalEntry) -> bool {
    |e: JournalEntry|
        e matches JournalEntry::Intent { opp_id, ts_ns, venue, symbol, side } && opp_id@ == journal_id(id)
            && ts_ns == now && venue@ == leg.symbol.venue@ && symbol@ == leg.symbol.symbol@ && side@
            == side_text(leg.side)
}

pub open spec fn fill_of(id: Seq<u8>, k: usize, leg: RouteLeg, now: u64) -> spec_fn(JournalEntry) -> bool {
    |e: JournalEntry|
        e matches JournalEntry::Fill { opp_id, ts_ns, leg: l, venue, symbol, fill_price, fill_size }
            && opp_id@ == journal_id(id) && ts_ns == now && l == k && venue@ == leg.symbol.venue@ && symbol@
            == leg.symbol.symbol@ && fill_price == leg.price && fill_size == leg.size
}

pub open spec fn fail_of(id: Seq<u8>, k: usize, reason: Seq<char>, now: u64) -> spec_fn(JournalEntry) -> bool {
    |e: JournalEntry|
        e matches JournalEntry::Fail { opp_id, ts_ns, leg: l, reason: r } && opp_id@ == journal_id(id)
            && ts_ns == now && l == k && r@ == reason
}

pub open spec fn hedge_of(id: Seq<u8>, k: usize, leg: RouteLeg, now: u64) -> spec_fn(JournalEntry) -> bool {
    |e: JournalEntry|
        e matches JournalEntry::Hedge { opp_id, ts_ns, leg: l, venue, symbol, hedge_price } && opp_id@
            == journal_id(id) && ts_ns == now && l == k && venue@ == leg.symbol.venue@ && symbol@
            == leg.symbol.symbol@ && hedge_price == 0
}

/// Legs in submission order: a leg that filled or failed comes after legs
/// that all filled.
pub open spec fn ordered_legs(legs: Seq<LegFillStatus>) -> bool {
    forall|i: int, j: int|
        0 <= i < j < legs.len() && #[trigger] legs[j] != LegFillStatus::Pending ==> #[trigger] legs[i]
            == LegFillStatus::Filled
}

/// What holds of a run after every call that drives it: its fill state
/// carries its identifier, legs were submitted in order, a leg phase at `k`
/// has exactly the legs before `k` filled, and hedging happens only for a
/// partial fill.
pub open spec fn run_consistent(r: OpportunityRun) -> bool {
    &&& r.fill().opportunity_id == r.id()
    &&& ordered_legs(r.fill().legs@)
    &&& match r.phase() {
        RunPhase::Legs(k) => k <= r.count() && r.fill().legs@ == legs_after_phase(k as int, false),
        RunPhase::AwaitLeg(k) => k < r.count() && r.fill().legs@ == legs_after_phase(k as int, false),
        RunPhase::Hedging(_) => rollback_needed(r.fill().legs@),
        RunPhase::AwaitHedge(_) => rollback_needed(r.fill().legs@),
        _ => true,
    }
}

/// The result that finishes a run: filled with every leg filled, rolled back
/// after a partial fill, or failed with no leg filled; the fill state
/// reported is the run's, carrying its identifier.
pub open spec fn outcome_of(res: OpportunityResult, r: OpportunityRun) -> bool {
    match res {
        OpportunityResult::Filled(s) => s == r.fill() && all_filled(s.legs@) && s.opportunity_id == r.id(),
        OpportunityResult::RolledBack(s) => s == r.fill() && rollback_needed(s.legs@) && s.opportunity_id == r.id(),
        OpportunityResult::Failed => !crate::fill::any_filled(r.fill().legs@),
        _ => false,
    }
}

/// An intent of opportunity `jid` at or after `start` that no later fill or
/// failure of `jid` follows.
pub open spec fn open_intent(es: Seq<JournalEntry>, start: int, jid: Seq<char>) -> bool {
    exists|p: int|
        start <= p < es.len() && (#[trigger] es[p]) is Intent && es[p].opp() == jid && !(exists|q: int|
            p < q < es.len() && (#[trigger] es[q]).is_confirmation() && es[q].opp() == jid)
}

/// The journal as a run leaves it after each call: while a leg's order is
/// out, the last entry is that leg's intent and every earlier intent of the
/// run is confirmed; otherwise every intent of the run is followed by its
/// fill or failure.
pub open spec fn journal_in_step(es: Option<Seq<JournalEntry>>, r: OpportunityRun) -> bool {
    match es {
        None => true,
        Some(es) => {
            let jid = journal_id(r.id()@);
            &&& 0 <= r.journal_from() <= es.len()
            &&& match r.phase() {
                RunPhase::AwaitLeg(_) => es.len() > r.journal_from() && es.last() is Intent && es.last().opp() == jid
                    && !open_intent(es.drop_last(), r.journal_from(), jid),
                _ => !open_intent(es, r.journal_from(), jid),
            }
        },
    }
}

/// A run can be asked for its next action.
pub open spec fn ready(phase: RunPhase, count: usize) -> bool {
    match phase {
        RunPhase::Legs(k) => k <= count,
        RunPhase::Settle => true,
        RunPhase::Hedging(k) => k <= count,
        _ => false,
    }
}

/// The hedging step from leg `k` on: the next filled leg gets a hedge,
/// or the rollback is complete.
pub open spec fn hedging_step(
    old_e: ExecEngine,
    new_e: ExecEngine,
    old_r: OpportunityRun,
    new_r: OpportunityRun,
    opp: ArbitrageOpportunity,
    k: int,
    a: ExecAction,
) -> bool {
    let legs = old_r.fill().legs@;
    match first_filled_from(legs, k, old_r.count() as int) {
        Some(j) => {
            &&& a matches ExecAction::SubmitHedge { leg, order } && leg == j && order.reverses(opp.routes@[j])
            &&& new_r.phase() == RunPhase::AwaitHedge(j as usize)
            &&& new_r.fill() == old_r.fill()
            &&& new_e.tracker()@ == old_e.tracker()@
            &&& new_e.pending() == old_e.pending()
            &&& new_e.journal_entries() == old_e.journal_entries()
        },
        None => {
            &&& a matches ExecAction::Finished(res) && res matches OpportunityResult::RolledBack(st) && st
                == old_r.fill()
            &&& new_r.phase() == RunPhase::Done
            &&& new_r.fill() == old_r.fill()
            &&& new_e.tracker()@ == after_resolve_opportunity(old_e.tracker()@, old_r.id()@)
            &&& new_e.pending() == with_pending(old_e.pending(), old_r.fill())
            &&& new_e.journal_entries() == old_e.journal_entries()
        },
    }
}

/// The step after the last leg: hedge a partial fill, or report the outcome.
pub open spec fn settle_step(
    old_e: ExecEngine,
    new_e: ExecEngine,
    old_r: OpportunityRun,
    new_r: OpportunityRun,
    opp: ArbitrageOpportunity,
    a: ExecAction,
) -> bool {
    if rollback_needed(old_r.fill().legs@) {
        hedging_step(old_e, new_e, old_r, new_r, opp, 0, a)
    } else {
        &&& a matches ExecAction::Finished(res) && settled_result_is(res, old_r.fill())
        &&& new_r.phase() == RunPhase::Done
        &&& new_r.fill() == old_r.fill()
        &&& new_e.tracker()@ == after_resolve_opportunity(old_e.tracker()@, old_r.id()@)
        &&& new_e.pending() == old_e.pending()
        &&& new_e.journal_entries() == old_e.journal_entries()
    }
}

/// The deduplication entries after admitting `id` at `now` as admission
/// number `count`: the entry is appended, and every hundredth admission then
/// drops the entries that have outlived the time-to-live.
pub open spec fn admitted(entries: Seq<(Seq<u8>, u64)>, ttl: u64, id: Seq<u8>, now: u64, count: u64) -> Seq<(Seq<u8>, u64)> {
    if count % 100 == 0 {
        entries.push((id, now)).filter(crate::opportunity::ttl_filter(now, ttl))
    } else {
        entries.push((id, now))
    }
}

/// Plain settings of the execution engine.
#[derive(Debug, Clone, Copy)]
pub struct ExecConfig {
    /// How long an opportunity identifier stays in the deduplication table.
    pub dedup_ttl_ns: u64,
    /// How long a submitted leg may stay unresolved.
    pub order_timeout_ns: u64,
}

impl Default for ExecConfig {
    /// Sixty seconds of deduplication, five seconds of order timeout.
    fn default() -> (c: ExecConfig)
        ensures
            c.dedup_ttl_ns == 60_000_000_000,
            c.order_timeout_ns == 5_000_000_000,
    {
        ExecConfig { dedup_ttl_ns: 60_000_000_000, order_timeout_ns: 5_000_000_000 }
    }
}

/// Decision core of opportunity execution: deduplication, the leg
/// sequence, rollback of partial fills, order timeouts and the journal.
pub struct ExecEngine {
    config: ExecConfig,
    dedup: DedupTable,
    pending_fills: Vec<FillState>,
    journal: Option<OrderJournal>,
    gc_counter: u64,
    order_tracker: OrderTimeoutTracker,
    next_order_seq: u64,
}

/// Uppercase hexadecimal digit of a value below 16.
pub open spec fn hex_upper(d: int) -> char {
    "0123456789ABCDEF"@[d]
}

/// The 16 uppercase hexadecimal digits of `v`, most significant first.
pub open spec fn hex16(v: u64) -> Seq<char> {
    Seq::new(16, |k: int| hex_upper(((v as int) / pow16(15 - k)) % 16))
}

proof fn lemma_pow16_positive(e: int)
    ensures
        pow16(e) >= 1,
    decreases e,
{
    if e > 0 {
        lemma_pow16_positive(e - 1);
    }
}

pub open spec fn pow16(e: int) -> int
    decreases e,
{
    if e <= 0 {
        1
    } else {
        16 * pow16(e - 1)
    }
}

impl ExecEngine {
    pub closed spec fn wf(&self) -> bool {
        &&& self.dedup.wf()
        &&& self.order_tracker.wf()
        &&& pending_wf(self.pending_fills@)
    }

    pub closed spec fn dedup_table(&self) -> DedupTable {
        self.dedup
    }

    pub closed spec fn tracker(&self) -> OrderTimeoutTracker {
        self.order_tracker
    }

    pub closed spec fn journal_entries(&self) -> Option<Seq<JournalEntry>> {
        match self.journal {
            Some(j) => Some(j@),
            None => None,
        }
    }

    pub closed spec fn order_seq(&self) -> u64 {
        self.next_order_seq
    }

    pub closed spec fn gc_count(&self) -> u64 {
        self.gc_counter
    }

    pub closed spec fn pending(&self) -> Seq<FillState> {
        self.pending_fills@
    }

    pub fn new(config: ExecConfig, journal: Option<OrderJournal>) -> (e: ExecEngine)
        ensures
            e.wf(),
            e.dedup_table().entries().len() == 0,
            e.dedup_table().ttl() == config.dedup_ttl_ns,
            e.tracker()@.len() == 0,
            e.tracker().timeout() == config.order_timeout_ns,
            e.journal_entries() == match journal {
                Some(j) => Some(j@),
                None => None::<Seq<JournalEntry>>,
            },
            e.order_seq() == 1,
            e.gc_count() == 0,
            e.pending().len() == 0,
    {
        ExecEngine {
            config,
            dedup: DedupTable::new(config.dedup_ttl_ns),
            pending_fills: Vec::new(),
            journal,
            gc_counter: 0,
            order_tracker: OrderTimeoutTracker::new(
                OrderTimeoutConfig { submission_timeout_ns: config.order_timeout_ns },
            ),
            next_order_seq: 1,
        }
    }

    /// The in-memory journal, if journaling is on.
    pub fn journal(&self) -> (r: Option<&OrderJournal>)
        ensures
            match r {
                Some(j) => self.journal_entries() == Some(j@),
                None => self.journal_entries() is None,
            },
    {
        match &self.journal {
            Some(j) => Some(j),
            None => None,
        }
    }

    /// Next client order identifier: `TA` followed by the sequence number in
    /// 16 uppercase hexadecimal digits; the sequence then advances.
    pub fn next_client_order_id(&mut self) -> (id: String)
        requires
            old(self).wf(),
        ensures
            final(self).wf(),
            id@ == "TA"@ + hex16(old(self).order_seq()),
            final(self).order_seq() == old(self).order_seq().wrapping_add(1),
            final(self).dedup_table() == old(self).dedup_table(),
            final(self).tracker() == old(self).tracker(),
            final(self).journal_entries() == old(self).journal_entries(),
            final(self).gc_count() == old(self).gc_count(),
            final(self).pending() == old(self).pending(),
    {
        let seq = self.next_order_seq;
        self.next_order_seq = seq.wrapping_add(1);
        let mut s = String::new();
        s.append("TA");
        let digits = "0123456789ABCDEF";
        proof {
            reveal_strlit("0123456789ABCDEF");
        }
        let mut k: usize = 0;
        let mut div: u64 = 1152921504606846976;
        assert(div == pow16(15)) by {
            reveal_with_fuel(pow16, 16);
        }
        while k < 16
            invariant
                k <= 16,
                k < 16 ==> div as int == pow16(15 - k),
                div > 0,
                digits@ == "0123456789ABCDEF"@,
                digits@.len() == 16,
                s@ == "TA"@ + hex16(seq).take(k as int),
            decreases 16 - k,
        {
            let d = (seq / div) % 16;
            let one = digits.substring_char(d as usize, d as usize + 1);
            s.append(one);
            assert(one@ =~= seq![hex_upper(d as int)]);
            assert(hex16(seq).take(k + 1) =~= hex16(seq).take(k as int).push(hex16(seq)[k as int]));
            if k < 15 {
                assert(pow16(15 - k) == 16 * pow16(15 - k - 1));
                proof { lemma_pow16_positive(15 - k - 1 as int); }
                div = div / 16;
            }
            k = k + 1;
        }
        assert(hex16(seq).take(16) =~= hex16(seq));
        s
    }

    fn periodic_gc(&mut self, now_ns: u64)
        requires
            old(self).wf(),
        ensures
            final(self).wf(),
            final(self).gc_count() == old(self).gc_count().wrapping_add(1),
            final(self).dedup_table().ttl() == old(self).dedup_table().ttl(),
            final(self).dedup_table().entries() == if final(self).gc_count() % 100 == 0 {
                old(self).dedup_table().entries().filter(
                    crate::opportunity::ttl_filter(now_ns, old(self).dedup_table().ttl()),
                )
            } else {
                old(self).dedup_table().entries()
            },
            final(self).tracker() == old(self).tracker(),
            final(self).journal_entries() == old(self).journal_entries(),
            final(self).order_seq() == old(self).order_seq(),
            final(self).pending() == old(self).pending(),
    {
        self.gc_counter = self.gc_counter.wrapping_add(1);
        if self.gc_counter % 100 == 0 {
            self.dedup.gc_at(now_ns);
            assert(crate::opportunity::ttl_filter(now_ns, self.dedup.ttl()) == (|e: (Seq<u8>, u64)|
                crate::opportunity::live_at(e.1, now_ns, self.dedup.ttl())));
        }
    }

    /// Starts executing an opportunity at `now_ns`.
    ///
    /// `None` when its identifier is already in the deduplication table (a
    /// duplicate). Otherwise the identifier is recorded, every hundredth
    /// start collects expired identifiers, and a run with every leg pending
    /// is returned; it covers the first three route legs.
    pub fn begin_opportunity(&mut self, opp: &ArbitrageOpportunity, now_ns: u64) -> (r: Option<OpportunityRun>)
        requires
            old(self).wf(),
        ensures
            final(self).wf(),
            r is Some <==> !crate::opportunity::has_id(old(self).dedup_table().entries(), sha256(opportunity_key(*opp))),
            r matches Some(run) ==> {
                &&& run.id()@ == sha256(opportunity_key(*opp))
                &&& run.fill().opportunity_id == run.id()
                &&& run.fill().legs@ == seq![LegFillStatus::Pending, LegFillStatus::Pending, LegFillStatus::Pending]
                &&& run.count() == if opp.routes.len() < 3 { opp.routes.len() } else { 3 }
                &&& run.phase() == RunPhase::Legs(0)
                &&& run_consistent(run)
                &&& journal_in_step(final(self).journal_entries(), run)
                &&& final(self).gc_count() == old(self).gc_count().wrapping_add(1)
                &&& final(self).dedup_table().entries() == admitted(
                    old(self).dedup_table().entries(),
                    old(self).dedup_table().ttl(),
                    sha256(opportunity_key(*opp)),
                    now_ns,
                    final(self).gc_count(),
                )
            },
            r is None ==> final(self).dedup_table().entries() == old(self).dedup_table().entries()
                && final(self).gc_count() == old(self).gc_count(),
            final(self).dedup_table().ttl() == old(self).dedup_table().ttl(),
            final(self).tracker() == old(self).tracker(),
            final(self).journal_entries() == old(self).journal_entries(),
            final(self).order_seq() == old(self).order_seq(),
            final(self).pending() == old(self).pending(),
    {
        let id = OpportunityId::from_opportunity(opp);
        if !self.dedup.check_and_insert_at(id, now_ns) {
            return None;
        }
        self.periodic_gc(now_ns);
        let state = FillState::new(id);
        let leg_count = if opp.routes.len() < 3 { opp.routes.len() } else { 3 };
        proof {
            assert(state.legs@ =~= legs_after_phase(0, false));
            lemma_phase_ordered(0, false);
        }
        let ghost start: int = match self.journal_entries() {
            Some(es) => es.len() as int,
            None => 0,
        };
        Some(OpportunityRun { opp_id: id, state, leg_count, phase: RunPhase::Legs(0), journal_start: Ghost(start) })
    }
    fn store_pending(&mut self, st: FillState)
        requires
            old(self).wf(),
        ensures
            final(self).wf(),
            final(self).pending() == with_pending(old(self).pending(), st),
            final(self).dedup_table() == old(self).dedup_table(),
            final(self).tracker() == old(self).tracker(),
            final(self).journal_entries() == old(self).journal_entries(),
            final(self).order_seq() == old(self).order_seq(),
            final(self).gc_count() == old(self).gc_count(),
    {
        let ghost s0 = self.pending_fills@;
        let mut p: usize = 0;
        while p < self.pending_fills.len()
            invariant
                *self == *old(self),
                self.wf(),
                self.pending_fills@ == s0,
                s0 == old(self).pending_fills@,
                pending_wf(s0),
                p <= self.pending_fills.len(),
                forall|q: int| 0 <= q < p ==> s0[q].opportunity_id@ != st.opportunity_id@,
            decreases self.pending_fills.len() - p,
        {
            if self.pending_fills[p].opportunity_id.same_as(&st.opportunity_id) {
                proof {
                    assert(0 <= p < s0.len() && s0[p as int].opportunity_id@ == st.opportunity_id@);
                    let c = choose|q: int| 0 <= q < s0.len() && s0[q].opportunity_id@ == st.opportunity_id@;
                    assert(s0[c].opportunity_id@ == st.opportunity_id@);
                    assert(c == p as int);
                }
                self.pending_fills.set(p, st);
                proof {
                    assert(self.pending_fills@ == with_pending(s0, st));
                    assert forall|x: int, y: int|
                        0 <= x < self.pending_fills@.len() && 0 <= y < self.pending_fills@.len() && x != y implies (
                        #[trigger] self.pending_fills@[x]).opportunity_id@ != (
                        #[trigger] self.pending_fills@[y]).opportunity_id@ by {
                        if x == p {
                            assert(s0[y].opportunity_id@ != s0[p as int].opportunity_id@);
                        } else if y == p {
                            assert(s0[x].opportunity_id@ != s0[p as int].opportunity_id@);
                        }
                    }
                }
                return;
            }
            p = p + 1;
        }
        self.pending_fills.push(st);
        proof {
            assert(self.pending_fills@ == with_pending(s0, st));
            assert forall|x: int, y: int|
                0 <= x < self.pending_fills@.len() && 0 <= y < self.pending_fills@.len() && x != y implies (
                #[trigger] self.pending_fills@[x]).opportunity_id@ != (
                #[trigger] self.pending_fills@[y]).opportunity_id@ by {
                if x == s0.len() {
                    assert(s0[y].opportunity_id@ != st.opportunity_id@);
                } else if y == s0.len() {
                    assert(s0[x].opportunity_id@ != st.opportunity_id@);
                }
            }
        }
    }

    fn hedge_step(&mut self, run: &mut OpportunityRun, opp: &ArbitrageOpportunity, from: usize) -> (a: ExecAction)
        requires
            old(self).wf(),
            from <= old(run).count(),
            old(run).count() <= opp.routes.len(),
            old(run).count() <= 3,
        ensures
            final(self).wf(),
            final(self).tracker().timeout() == old(self).tracker().timeout(),
            hedging_step(*old(self), *final(self), *old(run), *final(run), *opp, from as int, a),
            final(self).dedup_table() == old(self).dedup_table(),
            final(self).order_seq() == old(self).order_seq(),
            final(self).gc_count() == old(self).gc_count(),
            final(run).journal_from() == old(run).journal_from(),
            final(run).id() == old(run).id(),
            final(run).count() == old(run).count(),
    {
        let ghost legs = run.state.legs@;
        let n = run.leg_count;
        let mut j: usize = from;
        while j < n
            invariant
                *run == *old(run),
                *self == *old(self),
                self.wf(),
                from <= j <= n,
                n == run.leg_count,
                n <= opp.routes.len(),
                n <= 3,
                legs == run.state.legs@,
                legs.len() == 3,
                first_filled_from(legs, from as int, n as int) == first_filled_from(legs, j as int, n as int),
            decreases n - j,
        {
            if run.state.legs[j] == LegFillStatus::Filled {
                let order = match hedge_spec(opp, j) {
                    Some(h) => OrderSpec { symbol: h.symbol, side: h.side, quantity: h.size, limit_price: 0 },
                    None => {
                        assert(false);
                        return ExecAction::Finished(OpportunityResult::Failed);
                    },
                };
                run.phase = RunPhase::AwaitHedge(j);
                return ExecAction::SubmitHedge { leg: j, order };
            }
            j = j + 1;
        }
        let st = run.state;
        self.store_pending(st);
        self.order_tracker.resolve_opportunity(&run.opp_id);
        run.phase = RunPhase::Done;
        ExecAction::Finished(OpportunityResult::RolledBack(st))
    }

    /// The next action for a run, at `now_ns`.
    ///
    /// While legs remain, the next leg's intent is journaled, its submission
    /// is tracked and its order is handed out. After the last leg or a
    /// failure, a partial fill is rolled back by hedging every filled leg in
    /// order; otherwise the run finishes as filled or failed.
    pub fn next_action(&mut self, run: &mut OpportunityRun, opp: &ArbitrageOpportunity, now_ns: u64) -> (a: ExecAction)
        requires
            old(self).wf(),
            ready(old(run).phase(), old(run).count()),
            old(run).count() <= opp.routes.len(),
            old(run).count() <= 3,
        ensures
            final(self).wf(),
            final(self).tracker().timeout() == old(self).tracker().timeout(),
            final(self).dedup_table() == old(self).dedup_table(),
            final(self).order_seq() == old(self).order_seq(),
            final(self).gc_count() == old(self).gc_count(),
            final(run).id() == old(run).id(),
            final(run).count() == old(run).count(),
            run_consistent(*old(run)) ==> run_consistent(*final(run)),
            run_consistent(*old(run)) ==> (a matches ExecAction::Finished(res) ==> outcome_of(res, *old(run))),
            a matches ExecAction::SubmitLeg { leg, order } ==> {
                &&& order.symbol@ == opp.routes@[leg as int].symbol@
                &&& order.side == opp.routes@[leg as int].side
                &&& order.quantity == opp.routes@[leg as int].size
                &&& order.limit_price == opp.routes@[leg as int].price
            },
            a matches ExecAction::SubmitHedge { leg, order } ==> {
                &&& order.symbol@ == opp.routes@[leg as int].symbol@
                &&& order.side != opp.routes@[leg as int].side
                &&& order.side == opp.routes@[leg as int].side.spec_opposite()
                &&& order.quantity == opp.routes@[leg as int].size
                &&& order.limit_price == 0
            },
            final(run).journal_from() == old(run).journal_from(),
            run_consistent(*old(run)) && journal_in_step(old(self).journal_entries(), *old(run)) ==> journal_in_step(
                final(self).journal_entries(),
                *final(run),
            ),
            match old(run).phase() {
                RunPhase::Legs(k) => if k < old(run).count() {
                    &&& a matches ExecAction::SubmitLeg { leg, order } && leg == k && order.executes(opp.routes@[k as int])
                    &&& final(run).phase() == RunPhase::AwaitLeg(k)
                    &&& final(run).fill() == old(run).fill()
                    &&& final(self).tracker()@ == after_submission(old(self).tracker()@, old(run).id()@, k, now_ns)
                    &&& journaled_one(
                        old(self).journal_entries(),
                        final(self).journal_entries(),
                        intent_of(old(run).id()@, opp.routes@[k as int], now_ns),
                    )
                    &&& final(self).pending() == old(self).pending()
                } else {
                    settle_step(*old(self), *final(self), *old(run), *final(run), *opp, a)
                },
                RunPhase::Settle => settle_step(*old(self), *final(self), *old(run), *final(run), *opp, a),
                RunPhase::Hedging(k) => hedging_step(*old(self), *final(self), *old(run), *final(run), *opp, k as int, a),
                _ => true,
            },
    {
        match run.phase {
            RunPhase::Legs(k) => {
                if k < run.leg_count {
                    let leg = &opp.routes[k];
                    let id = run.opp_id;
                    if let Some(log) = &mut self.journal {
                        let side = match leg.side {
                            OrderSide::Buy => "Buy",
                            OrderSide::Sell => "Sell",
                        };
                        proof {
                            reveal_strlit("Buy");
                            reveal_strlit("Sell");
                        }
                        log.record_intent(&id, leg.symbol.venue.as_str(), leg.symbol.symbol.as_str(), side, now_ns);
                    }
                    self.order_tracker.record_submission_at(id, k, now_ns);
                    run.phase = RunPhase::AwaitLeg(k);
                    let order = OrderSpec {
                        symbol: leg.symbol.clone_id(),
                        side: leg.side,
                        quantity: leg.size,
                        limit_price: leg.price,
                    };
                    return ExecAction::SubmitLeg { leg: k, order };
                }
                self.settle(run, opp)
            },
            RunPhase::Settle => self.settle(run, opp),
            RunPhase::Hedging(k) => self.hedge_step(run, opp, k),
            _ => {
                assert(false);
                ExecAction::Finished(OpportunityResult::Failed)
            },
        }
    }

    fn settle(&mut self, run: &mut OpportunityRun, opp: &ArbitrageOpportunity) -> (a: ExecAction)
        requires
            old(self).wf(),
            old(run).count() <= opp.routes.len(),
            old(run).count() <= 3,
        ensures
            final(self).wf(),
            final(self).tracker().timeout() == old(self).tracker().timeout(),
            settle_step(*old(self), *final(self), *old(run), *final(run), *opp, a),
            final(self).dedup_table() == old(self).dedup_table(),
            final(self).order_seq() == old(self).order_seq(),
            final(self).gc_count() == old(self).gc_count(),
            final(run).journal_from() == old(run).journal_from(),
            final(run).id() == old(run).id(),
            final(run).count() == old(run).count(),
    {
        if run.state.needs_rollback() {
            run.phase = RunPhase::Hedging(0);
            return self.hedge_step(run, opp, 0);
        }
        self.order_tracker.resolve_opportunity(&run.opp_id);
        run.phase = RunPhase::Done;
        if run.state.is_fully_filled() {
            ExecAction::Finished(OpportunityResult::Filled(run.state))
        } else {
            ExecAction::Finished(OpportunityResult::Failed)
        }
    }

    /// Reports the outcome of submitting the leg handed out last, at `now_ns`.
    ///
    /// Success marks the leg filled and journals the fill; failure marks it
    /// failed, journals the reason, and ends the leg sequence. Either way the
    /// leg stops being tracked for timeout.
    pub fn on_leg_submitted(
        &mut self,
        run: &mut OpportunityRun,
        opp: &ArbitrageOpportunity,
        outcome: &Result<(), ExecError>,
        now_ns: u64,
    )
        requires
            old(self).wf(),
            old(run).phase() matches RunPhase::AwaitLeg(k) && k < old(run).count(),
            old(run).count() <= opp.routes.len(),
            old(run).count() <= 3,
        ensures
            final(self).wf(),
            final(self).tracker().timeout() == old(self).tracker().timeout(),
            final(self).dedup_table() == old(self).dedup_table(),
            final(self).order_seq() == old(self).order_seq(),
            final(self).gc_count() == old(self).gc_count(),
            final(self).pending() == old(self).pending(),
            final(run).id() == old(run).id(),
            final(run).count() == old(run).count(),
            final(run).journal_from() == old(run).journal_from(),
            run_consistent(*old(run)) && journal_in_step(old(self).journal_entries(), *old(run)) ==> journal_in_step(
                final(self).journal_entries(),
                *final(run),
            ),
            run_consistent(*old(run)) ==> run_consistent(*final(run)),
            final(run).fill().opportunity_id == old(run).fill().opportunity_id,
            old(run).phase() matches RunPhase::AwaitLeg(k) && {
                &&& final(self).tracker()@ == after_resolve_leg(old(self).tracker()@, old(run).id()@, k)
                &&& match outcome {
                    Ok(()) => {
                        &&& final(run).fill().legs@ == set_leg(old(run).fill().legs@, k, LegFillStatus::Filled)
                        &&& final(run).phase() == RunPhase::Legs((k + 1) as usize)
                        &&& journaled_one(
                            old(self).journal_entries(),
                            final(self).journal_entries(),
                            fill_of(old(run).id()@, k, opp.routes@[k as int], now_ns),
                        )
                    },
                    Err(ExecError::SubmissionFailed(m)) => {
                        &&& final(run).fill().legs@ == set_leg(old(run).fill().legs@, k, LegFillStatus::Failed)
                        &&& final(run).phase() == RunPhase::Settle
                        &&& journaled_one(
                            old(self).journal_entries(),
                            final(self).journal_entries(),
                            fail_of(old(run).id()@, k, "submission failed: "@ + m@, now_ns),
                        )
                    },
                }
            },
    {
        let k = match run.phase {
            RunPhase::AwaitLeg(k) => k,
            _ => {
                assert(false);
                return;
            },
        };
        let id = run.opp_id;
        let leg = &opp.routes[k];
        proof {
            if run_consistent(*run) {
                lemma_leg_success_extends_prefix(k as int);
                lemma_phase_ordered(k + 1, false);
                lemma_phase_ordered(k as int, true);
            }
        }
        match outcome {
            Ok(()) => {
                run.state.fill_leg(k);
                self.order_tracker.resolve_leg(&id, k);
                if let Some(log) = &mut self.journal {
                    log.record_fill(&id, k, leg.symbol.venue.as_str(), leg.symbol.symbol.as_str(), leg.price, leg.size, now_ns);
                }
                run.phase = RunPhase::Legs(k + 1);
            },
            Err(e) => {
                run.state.fail_leg(k);
                self.order_tracker.resolve_leg(&id, k);
                if let Some(log) = &mut self.journal {
                    let reason = e.message();
                    log.record_fail(&id, k, reason.as_str(), now_ns);
                }
                run.phase = RunPhase::Settle;
            },
        }
    }

    /// Reports that the hedge handed out last was submitted, at `now_ns`;
    /// the hedge is journaled and hedging moves on to the next leg.
    pub fn on_hedge_submitted(&mut self, run: &mut OpportunityRun, opp: &ArbitrageOpportunity, now_ns: u64)
        requires
            old(self).wf(),
            old(run).phase() matches RunPhase::AwaitHedge(k) && k < old(run).count(),
            old(run).count() <= opp.routes.len(),
            old(run).count() <= 3,
        ensures
            final(self).wf(),
            final(self).dedup_table() == old(self).dedup_table(),
            final(self).order_seq() == old(self).order_seq(),
            final(self).gc_count() == old(self).gc_count(),
            final(self).pending() == old(self).pending(),
            final(self).tracker() == old(self).tracker(),
            final(run).id() == old(run).id(),
            final(run).count() == old(run).count(),
            final(run).fill() == old(run).fill(),
            final(run).journal_from() == old(run).journal_from(),
            run_consistent(*old(run)) && journal_in_step(old(self).journal_entries(), *old(run)) ==> journal_in_step(
                final(self).journal_entries(),
                *final(run),
            ),
            run_consistent(*old(run)) ==> run_consistent(*final(run)),
            old(run).phase() matches RunPhase::AwaitHedge(k) && {
                &&& final(run).phase() == RunPhase::Hedging((k + 1) as usize)
                &&& journaled_one(
                    old(self).journal_entries(),
                    final(self).journal_entries(),
                    hedge_of(old(run).id()@, k, opp.routes@[k as int], now_ns),
                )
            },
    {
        let k = match run.phase {
            RunPhase::AwaitHedge(k) => k,
            _ => {
                assert(false);
                return;
            },
        };
        let id = run.opp_id;
        let leg = &opp.routes[k];
        if let Some(log) = &mut self.journal {
            log.record_hedge(&id, k, leg.symbol.venue.as_str(), leg.symbol.symbol.as_str(), 0, now_ns);
        }
        proof {
            if let Some(es) = old(self).journal_entries() {
                if journal_in_step(old(self).journal_entries(), *old(run)) {
                    let ns = self.journal_entries().unwrap();
                    assert(ns == es.push(ns.last()));
                    lemma_append_keeps_closed(es, run.journal_from(), journal_id(run.id()@), ns.last());
                }
            }
        }
        run.phase = RunPhase::Hedging(k + 1);
    }

    /// Legs that have waited past the order timeout at `now_ns`; each of
    /// them stops being tracked.
    pub fn check_order_timeouts_at(&mut self, now_ns: u64) -> (r: Vec<(OpportunityId, usize)>)
        requires
            old(self).wf(),
        ensures
            final(self).wf(),
            final(self).tracker().timeout() == old(self).tracker().timeout(),
            r@.map_values(|e: (OpportunityId, usize)| (e.0@, e.1)) == crate::timeout::all_expired(
                old(self).tracker()@,
                now_ns,
                old(self).tracker().timeout(),
                old(self).tracker()@.len() as int,
            ),
            final(self).tracker()@ == resolve_all(old(self).tracker()@, r@.map_values(|e: (OpportunityId, usize)| (e.0@, e.1)), r@.len() as int),
            final(self).dedup_table() == old(self).dedup_table(),
            final(self).journal_entries() == old(self).journal_entries(),
            final(self).pending() == old(self).pending(),
            final(self).order_seq() == old(self).order_seq(),
            final(self).gc_count() == old(self).gc_count(),
    {
        let timeouts = self.order_tracker.check_timeouts_at(now_ns);
        let ghost t0 = self.order_tracker@;
        let ghost tv = timeouts@.map_values(|e: (OpportunityId, usize)| (e.0@, e.1));
        let mut k: usize = 0;
        while k < timeouts.len()
            invariant
                k <= timeouts.len(),
                tv == timeouts@.map_values(|e: (OpportunityId, usize)| (e.0@, e.1)),
                self.wf(),
                self.order_tracker@ == resolve_all(t0, tv, k as int),
                self.dedup == old(self).dedup,
                self.journal == old(self).journal,
                self.pending_fills == old(self).pending_fills,
                self.next_order_seq == old(self).next_order_seq,
                self.gc_counter == old(self).gc_counter,
                self.order_tracker.timeout() == old(self).order_tracker.timeout(),
            decreases timeouts.len() - k,
        {
            let (id, leg) = timeouts[k];
            self.order_tracker.resolve_leg(&id, leg);
            k = k + 1;
        }
        timeouts
    }

    /// Legs that have waited past the order timeout; each stops being tracked.
    pub fn check_order_timeouts(&mut self) -> (r: Vec<(OpportunityId, usize)>)
        requires
            old(self).wf(),
        ensures
            final(self).wf(),
            final(self).tracker().timeout() == old(self).tracker().timeout(),
            exists|now: u64|
                r@.map_values(|e: (OpportunityId, usize)| (e.0@, e.1)) == #[trigger] crate::timeout::all_expired(
                    old(self).tracker()@,
                    now,
                    old(self).tracker().timeout(),
                    old(self).tracker()@.len() as int,
                ),
            final(self).tracker()@ == resolve_all(old(self).tracker()@, r@.map_values(|e: (OpportunityId, usize)| (e.0@, e.1)), r@.len() as int),
            final(self).dedup_table() == old(self).dedup_table(),
            final(self).journal_entries() == old(self).journal_entries(),
            final(self).pending() == old(self).pending(),
            final(self).order_seq() == old(self).order_seq(),
            final(self).gc_count() == old(self).gc_count(),
    {
        let now = nanos();
        self.check_order_timeouts_at(now)
    }
}

/// Tracking after resolving the first `k` listed legs in order.
pub open spec fn resolve_all(pending: Seq<(Seq<u8>, crate::timeout::PendingLegs)>, legs: Seq<(Seq<u8>, usize)>, k: int) -> Seq<(Seq<u8>, crate::timeout::PendingLegs)>
    decreases k,
{
    if k <= 0 {
        pending
    } else {
        after_resolve_leg(resolve_all(pending, legs, k - 1), legs[k - 1].0, legs[k - 1].1)
    }
}

/// Indices in `[k, n)` of filled legs, in increasing order.
pub open spec fn filled_legs(legs: Seq<LegFillStatus>, k: int, n: int) -> Seq<int>
    decreases n - k,
{
    if k >= n {
        Seq::empty()
    } else if legs[k] == LegFillStatus::Filled {
        seq![k] + filled_legs(legs, k + 1, n)
    } else {
        filled_legs(legs, k + 1, n)
    }
}

proof fn lemma_first_filled_range(legs: Seq<LegFillStatus>, k: int, n: int)
    ensures
        first_filled_from(legs, k, n) matches Some(j) ==> k <= j < n && legs[j] == LegFillStatus::Filled,
    decreases n - k,
{
    if k < n && legs[k] != LegFillStatus::Filled {
        lemma_first_filled_range(legs, k + 1, n);
    }
}

/// The legs hedged from `Hedging(k)` on: each step hedges the first filled
/// leg at or after the cursor and moves the cursor past it.
pub open spec fn hedge_walk(legs: Seq<LegFillStatus>, k: int, n: int) -> Seq<int>
    decreases n - k,
{
    if k >= n {
        Seq::empty()
    } else {
        match first_filled_from(legs, k, n) {
            Some(j) => if k <= j < n {
                seq![j] + hedge_walk(legs, j + 1, n)
            } else {
                Seq::empty()
            },
            None => Seq::empty(),
        }
    }
}

/// A rollback hedges exactly the filled legs, each once, in leg order.
pub proof fn lemma_hedges_cover_filled_legs(legs: Seq<LegFillStatus>, k: int, n: int)
    ensures
        hedge_walk(legs, k, n) == filled_legs(legs, k, n),
    decreases n - k,
{
    if k < n {
        lemma_first_filled_range(legs, k, n);
        if legs[k] == LegFillStatus::Filled {
            lemma_hedges_cover_filled_legs(legs, k + 1, n);
        } else {
            lemma_hedges_cover_filled_legs(legs, k + 1, n);
            if k + 1 < n {
                lemma_first_filled_range(legs, k + 1, n);
            }
            match first_filled_from(legs, k, n) {
                Some(j) => {
                    assert(first_filled_from(legs, k + 1, n) == Some(j));
                    assert(hedge_walk(legs, k + 1, n) == seq![j] + hedge_walk(legs, j + 1, n));
                },
                None => {
                    assert(first_filled_from(legs, k + 1, n) is None);
                },
            }
        }
    }
}

/// Leg states after the leg phase: `f` legs filled in order, then the next
/// one failed when a submission failed, and the rest still pending.
pub open spec fn legs_after_phase(f: int, failed: bool) -> Seq<LegFillStatus> {
    Seq::new(
        3,
        |i: int|
            if i < f {
                LegFillStatus::Filled
            } else if i == f && failed {
                LegFillStatus::Failed
            } else {
                LegFillStatus::Pending
            },
    )
}

/// Submitting legs in order fills a prefix of them; the leg sequence ends
/// in a rollback exactly when that prefix is neither empty nor all three.
pub proof fn lemma_rollback_iff_partial_prefix(f: int, failed: bool)
    requires
        0 <= f <= 3,
        failed ==> f < 3,
    ensures
        rollback_needed(legs_after_phase(f, failed)) <==> (1 <= f < 3),
        all_filled(legs_after_phase(f, failed)) <==> f == 3,
{
    let l = legs_after_phase(f, failed);
    if f < 3 {
        assert(l[f] != LegFillStatus::Filled);
    }
    if f >= 1 {
        assert(l[0] == LegFillStatus::Filled);
    }
}

/// One successful submission extends the filled prefix by one leg.
pub proof fn lemma_leg_success_extends_prefix(k: int)
    requires
        0 <= k < 3,
    ensures
        set_leg(legs_after_phase(k, false), k as usize, LegFillStatus::Filled) == legs_after_phase(k + 1, false),
        set_leg(legs_after_phase(k, false), k as usize, LegFillStatus::Failed) == legs_after_phase(k, true),
{
    assert(set_leg(legs_after_phase(k, false), k as usize, LegFillStatus::Filled) =~= legs_after_phase(k + 1, false));
    assert(set_leg(legs_after_phase(k, false), k as usize, LegFillStatus::Failed) =~= legs_after_phase(k, true));
}

/// Write-ahead journaling: the order of a leg goes out only once its intent
/// is the journal's last entry, and after the leg's fill or failure is
/// journaled, no intent of the opportunity is reported as unacknowledged.
pub proof fn lemma_outcome_acknowledges_intent(
    es0: Seq<JournalEntry>,
    es1: Seq<JournalEntry>,
    es2: Seq<JournalEntry>,
    id: Seq<u8>,
    leg: RouteLeg,
    k: usize,
    t1: u64,
    t2: u64,
    reason: Seq<char>,
    filled: bool,
)
    requires
        journaled_one(Some(es0), Some(es1), intent_of(id, leg, t1)),
        filled ==> journaled_one(Some(es1), Some(es2), fill_of(id, k, leg, t2)),
        !filled ==> journaled_one(Some(es1), Some(es2), fail_of(id, k, reason, t2)),
    ensures
        es1.last() is Intent && es1.last().opp() == journal_id(id),
        forall|p: int|
            0 <= p < unacked_prefix(es2, es2.len() as int).len() ==> (#[trigger] unacked_prefix(
                es2,
                es2.len() as int,
            )[p]).opp() != journal_id(id),
{
    let c = es2.last();
    assert(es2 =~= es1.push(c));
    assert(c.is_confirmation() && c.opp() == journal_id(id));
    lemma_confirmation_acknowledges(es1, c);
}

/// An admitted opportunity is remembered: right after `begin_opportunity`
/// admits it at `now`, its identifier is in the deduplication table (for a
/// positive time-to-live), so the same triangle again is refused as a duplicate.
pub proof fn lemma_admitted_id_is_kept(entries: Seq<(Seq<u8>, u64)>, ttl: u64, id: Seq<u8>, now: u64, count: u64)
    requires
        ttl > 0,
    ensures
        crate::opportunity::has_id(admitted(entries, ttl, id, now, count), id),
{
    let e = entries.push((id, now));
    let i = entries.len() as int;
    assert(e[i] == (id, now));
    if count % 100 == 0 {
        let f = crate::opportunity::ttl_filter(now, ttl);
        assert(f(e[i]));
        e.lemma_filter_contains(f, i);
        let g = e.filter(f);
        let p = choose|p: int| 0 <= p < g.len() && g[p] == e[i];
        assert(g[p].0 == id);
    } else {
        assert(e[i].0 == id);
    }
}

/// Resolving the legs `legs[0..k]` in turn keeps tracking well formed,
/// stops tracking each of them, and never starts tracking anything.
proof fn lemma_resolve_all_untracks(
    pending: Seq<(Seq<u8>, crate::timeout::PendingLegs)>,
    legs: Seq<(Seq<u8>, usize)>,
    k: int,
)
    requires
        crate::timeout::pending_wf(pending),
        0 <= k <= legs.len(),
    ensures
        crate::timeout::pending_wf(resolve_all(pending, legs, k)),
        forall|j: int| 0 <= j < k ==> !still_pending(resolve_all(pending, legs, k), (#[trigger] legs[j]).0, legs[j].1),
        forall|x: Seq<u8>, y: usize| still_pending(resolve_all(pending, legs, k), x, y) ==> still_pending(pending, x, y),
    decreases k,
{
    if k > 0 {
        lemma_resolve_all_untracks(pending, legs, k - 1);
        let prev = resolve_all(pending, legs, k - 1);
        lemma_resolve_leg_untracks(prev, legs[k - 1].0, legs[k - 1].1);
    }
}

/// A timed-out leg is reported once: the legs that one timeout check reports
/// stop being tracked, so no later check (at any time) reports them again.
pub proof fn lemma_timeouts_reported_once(
    pending: Seq<(Seq<u8>, crate::timeout::PendingLegs)>,
    now1: u64,
    now2: u64,
    timeout: u64,
)
    requires
        crate::timeout::pending_wf(pending),
    ensures
        ({
            let first = crate::timeout::all_expired(pending, now1, timeout, pending.len() as int);
            let after = resolve_all(pending, first, first.len() as int);
            forall|i: int|
                0 <= i < first.len() ==> !crate::timeout::all_expired(after, now2, timeout, after.len() as int).contains(
                    #[trigger] first[i],
                )
        }),
{
    let first = crate::timeout::all_expired(pending, now1, timeout, pending.len() as int);
    let after = resolve_all(pending, first, first.len() as int);
    lemma_resolve_all_untracks(pending, first, first.len() as int);
    let second = crate::timeout::all_expired(after, now2, timeout, after.len() as int);
    lemma_expired_are_tracked(after, now2, timeout, after.len() as int);
    assert forall|i: int| 0 <= i < first.len() implies !second.contains(#[trigger] first[i]) by {
        if second.contains(first[i]) {
            let j = choose|j: int| 0 <= j < second.len() && second[j] == first[i];
            assert(still_pending(after, second[j].0, second[j].1));
        }
    }
}

/// The filled legs of `f` filled legs followed by others are exactly `k..f`.
proof fn lemma_filled_prefix(f: int, failed: bool, k: int, n: int)
    requires
        0 <= k <= n <= 3,
        0 <= f <= n,
    ensures
        filled_legs(legs_after_phase(f, failed), k, n) == (if k < f { Seq::new((f - k) as nat, |i: int| k + i) } else {
            Seq::<int>::empty()
        }),
    decreases n - k,
{
    if k < n {
        lemma_filled_prefix(f, failed, k + 1, n);
        let legs = legs_after_phase(f, failed);
        if k < f {
            assert(legs[k] == LegFillStatus::Filled);
            assert(filled_legs(legs, k, n) =~= Seq::new((f - k) as nat, |i: int| k + i));
        } else {
            assert(legs[k] != LegFillStatus::Filled);
        }
    }
}

/// The whole run of an opportunity with `n` route legs (at most three),
/// submitted in order: when `f` legs succeed and then one fails (or all `n`
/// succeed), the legs end as `f` filled, then the failed one, then pending.
/// The run ends filled exactly when all three legs filled; it is rolled back
/// exactly when some but not all filled, and then legs `0..f` are hedged, in
/// order, each once; otherwise it fails.
pub proof fn lemma_whole_run(f: int, failed: bool, n: int)
    requires
        0 <= f <= n <= 3,
        failed ==> f < n,
        !failed ==> f == n,
    ensures
        all_filled(legs_after_phase(f, failed)) <==> f == 3,
        rollback_needed(legs_after_phase(f, failed)) <==> (1 <= f < 3),
        hedge_walk(legs_after_phase(f, failed), 0, n) == Seq::new(f as nat, |i: int| i),
{
    lemma_rollback_iff_partial_prefix(f, failed);
    lemma_hedges_cover_filled_legs(legs_after_phase(f, failed), 0, n);
    lemma_filled_prefix(f, failed, 0, n);
    if f == 0 {
        assert(Seq::new(0, |i: int| i) =~= Seq::<int>::empty());
    } else {
        assert(Seq::new(f as nat, |i: int| 0 + i) =~= Seq::new(f as nat, |i: int| i));
    }
}

/// A timed-out leg is reported once, against the engine's configured order
/// timeout: the legs that one timeout check of a well-formed engine reports
/// stop being tracked, so no later check reports them again.
pub proof fn lemma_engine_timeouts_reported_once(e: ExecEngine, now1: u64, now2: u64)
    requires
        e.wf(),
    ensures
        ({
            let t = e.tracker().timeout();
            let first = crate::timeout::all_expired(e.tracker()@, now1, t, e.tracker()@.len() as int);
            let after = resolve_all(e.tracker()@, first, first.len() as int);
            forall|i: int|
                0 <= i < first.len() ==> !crate::timeout::all_expired(after, now2, t, after.len() as int).contains(
                    #[trigger] first[i],
                )
        }),
{
    crate::timeout::lemma_tracker_wf(e.order_tracker);
    lemma_timeouts_reported_once(e.tracker()@, now1, now2, e.tracker().timeout());
}

/// Leg states after the leg phase are in submission order.
proof fn lemma_phase_ordered(f: int, failed: bool)
    requires
        0 <= f <= 3,
        failed ==> f < 3,
    ensures
        ordered_legs(legs_after_phase(f, failed)),
{
}

/// Appending an entry that is no intent leaves no intent open.
proof fn lemma_append_keeps_closed(es: Seq<JournalEntry>, start: int, jid: Seq<char>, e: JournalEntry)
    requires
        0 <= start,
        !open_intent(es, start, jid),
        !(e is Intent),
    ensures
        !open_intent(es.push(e), start, jid),
{
    let ns = es.push(e);
    if open_intent(ns, start, jid) {
        let p = choose|p: int|
            start <= p < ns.len() && (#[trigger] ns[p]) is Intent && ns[p].opp() == jid && !(exists|q: int|
                p < q < ns.len() && (#[trigger] ns[q]).is_confirmation() && ns[q].opp() == jid);
        assert(p < es.len());
        assert(es[p] == ns[p]);
        let q = choose|q: int| p < q < es.len() && (#[trigger] es[q]).is_confirmation() && es[q].opp() == jid;
        assert(ns[q] == es[q]);
    }
}

/// Write-ahead journaling over a whole run: once a run that journaled an
/// intent is finished, each of its intents is followed by its fill or
/// failure, and the journal reports none of its intents as unacknowledged.
pub proof fn lemma_finished_run_acknowledged(es: Seq<JournalEntry>, r: OpportunityRun, p: int)
    requires
        journal_in_step(Some(es), r),
        r.phase() == RunPhase::Done,
        r.journal_from() <= p < es.len(),
        es[p] is Intent,
        es[p].opp() == journal_id(r.id()@),
    ensures
        exists|q: int| p < q < es.len() && (#[trigger] es[q]).is_confirmation() && es[q].opp() == journal_id(r.id()@),
        forall|i: int|
            0 <= i < unacked_prefix(es, es.len() as int).len() ==> (#[trigger] unacked_prefix(es, es.len() as int)[i]).opp()
                != journal_id(r.id()@),
{
    let jid = journal_id(r.id()@);
    assert(!open_intent(es, r.journal_from(), jid));
    let q = choose|q: int| p < q < es.len() && (#[trigger] es[q]).is_confirmation() && es[q].opp() == jid;
    assert(crate::journal::confirmed(es, jid));
    crate::journal::lemma_unacknowledged_exact(es, es.len() as int);
}

/// An order that executes a route leg trades the leg's symbol on the leg's
/// side, for the leg's size at the leg's price.
pub proof fn lemma_executing_order_matches_leg(order: OrderSpec, leg: RouteLeg)
    requires
        order.executes(leg),
    ensures
        order.symbol@ == leg.symbol@,
        order.side == leg.side,
        order.quantity == leg.size,
        order.limit_price == leg.price,
{
}

/// The hedge of a route leg trades the leg's symbol on the other side, for
/// the leg's whole size, at market (limit price 0).
pub proof fn lemma_hedge_order_reverses_leg(order: OrderSpec, leg: RouteLeg)
    requires
        order.reverses(leg),
    ensures
        order.symbol@ == leg.symbol@,
        order.side != leg.side,
        order.quantity == leg.size,
        order.limit_price == 0,
{
}

/// The journal's side text tells the sides apart: it reads `Buy` exactly for
/// a buy and `Sell` exactly for a sell.
pub proof fn lemma_side_text_names_side(side: OrderSide)
    ensures
        (side_text(side) == "Buy"@) <==> (side == OrderSide::Buy),
        (side_text(side) == "Sell"@) <==> (side == OrderSide::Sell),
        side_text(OrderSide::Buy) != side_text(OrderSide::Sell),
{
    reveal_strlit("Buy");
    reveal_strlit("Sell");
    assert("Buy"@.len() != "Sell"@.len());
}

} // verus!
