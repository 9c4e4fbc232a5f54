use vstd::prelude::*;

use crate::opportunity::{hex_bytes, OpportunityId};

verus! {

/// One entry of the append-only order journal.
pub enum JournalEntry {
    /// An order about to be submitted.
    Intent { opp_id: String, ts_ns: u64, venue: String, symbol: String, side: String },
    /// A leg that filled.
    Fill {
        opp_id: String,
        ts_ns: u64,
        leg: usize,
        venue: String,
        symbol: String,
        fill_price: i64,
        fill_size: i64,
    },
    /// A leg whose submission failed.
    Fail { opp_id: String, ts_ns: u64, leg: usize, reason: String },
    /// A hedge order sent for a filled leg.
    Hedge { opp_id: String, ts_ns: u64, leg: usize, venue: String, symbol: String, hedge_price: i64 },
}

impl JournalEntry {
    pub open spec fn opp(self) -> Seq<char> {
        match self {
            JournalEntry::Intent { opp_id, .. } => opp_id@,
            JournalEntry::Fill { opp_id, .. } => opp_id@,
            JournalEntry::Fail { opp_id, .. } => opp_id@,
            JournalEntry::Hedge { opp_id, .. } => opp_id@,
        }
    }

    /// Whether this entry confirms an outcome (a fill or a failure).
    pub open spec fn is_confirmation(self) -> bool {
        self is Fill || self is Fail
    }

    pub fn opp_id(&self) -> (r: &String)
        ensures
            r@ == self.opp(),
    {
        match self {
            JournalEntry::Intent { opp_id, .. } => opp_id,
            JournalEntry::Fill { opp_id, .. } => opp_id,
            JournalEntry::Fail { opp_id, .. } => opp_id,
            JournalEntry::Hedge { opp_id, .. } => opp_id,
        }
    }

    pub fn is_intent(&self) -> (r: bool)
        ensures
            r == self is Intent,
    {
        matches!(self, JournalEntry::Intent { .. })
    }

    pub fn confirms(&self) -> (r: bool)
        ensures
            r == self.is_confirmation(),
    {
        match self {
            JournalEntry::Fill { .. } => true,
            JournalEntry::Fail { .. } => true,
            _ => false,
        }
    }

    pub fn clone_entry(&self) -> (r: JournalEntry)
        ensures
            r.opp() == self.opp(),
            r is Intent <==> self is Intent,
            r.is_confirmation() <==> self.is_confirmation(),
    {
        match self {
            JournalEntry::Intent { opp_id, ts_ns, venue, symbol, side } => JournalEntry::Intent {
                opp_id: opp_id.clone(),
                ts_ns: *ts_ns,
                venue: venue.clone(),
                symbol: symbol.clone(),
                side: side.clone(),
            },
            JournalEntry::Fill { opp_id, ts_ns, leg, venue, symbol, fill_price, fill_size } =>
                JournalEntry::Fill {
                opp_id: opp_id.clone(),
                ts_ns: *ts_ns,
                leg: *leg,
                venue: venue.clone(),
                symbol: symbol.clone(),
                fill_price: *fill_price,
                fill_size: *fill_size,
            },
            JournalEntry::Fail { opp_id, ts_ns, leg, reason } => JournalEntry::Fail {
                opp_id: opp_id.clone(),
                ts_ns: *ts_ns,
                leg: *leg,
                reason: reason.clone(),
            },
            JournalEntry::Hedge { opp_id, ts_ns, leg, venue, symbol, hedge_price } =>
                JournalEntry::Hedge {
                opp_id: opp_id.clone(),
                ts_ns: *ts_ns,
                leg: *leg,
                venue: venue.clone(),
                symbol: symbol.clone(),
                hedge_price: *hedge_price,
            },
        }
    }
}

/// The text under which an opportunity is journaled.
pub open spec fn journal_id(id: Seq<u8>) -> Seq<char> {
    hex_bytes(id, 0, 4) + ".."@ + hex_bytes(id, 28, 32)
}

/// Whether some fill or failure confirms opportunity `opp`.
pub open spec fn confirmed(entries: Seq<JournalEntry>, opp: Seq<char>) -> bool {
    exists|p: int| 0 <= p < entries.len() && (#[trigger] entries[p]).is_confirmation() && entries[p].opp() == opp
}

/// Whether entry `e` is an intent that no fill or failure confirms.
pub open spec fn unacknowledged(entries: Seq<JournalEntry>, e: JournalEntry) -> bool {
    e is Intent && !confirmed(entries, e.opp())
}

/// The unacknowledged intents among `entries[0..k]`, in order.
pub open spec fn unacked_prefix(entries: Seq<JournalEntry>, k: int) -> Seq<JournalEntry>
    decreases k,
{
    if k <= 0 {
        Seq::empty()
    } else if unacknowledged(entries, entries[k - 1]) {
        unacked_prefix(entries, k - 1).push(entries[k - 1])
    } else {
        unacked_prefix(entries, k - 1)
    }
}

/// The in-memory order journal: every entry, in the order recorded.
pub struct OrderJournal {
    entries: Vec<JournalEntry>,
}

impl View for OrderJournal {
    type V = Seq<JournalEntry>;

    closed spec fn view(&self) -> Seq<JournalEntry> {
        self.entries@
    }
}

impl OrderJournal {
    pub fn new() -> (j: OrderJournal)
        ensures
            j@.len() == 0,
    {
        OrderJournal { entries: Vec::new() }
    }

    /// A journal holding entries read back from storage.
    pub fn from_entries(entries: Vec<JournalEntry>) -> (j: OrderJournal)
        ensures
            j@ == entries@,
    {
        OrderJournal { entries }
    }

    fn append(&mut self, entry: JournalEntry)
        ensures
            final(self)@ == old(self)@.push(entry),
    {
        self.entries.push(entry);
    }

    /// Records an order intent; done before the order is submitted.
    pub fn record_intent(&mut self, opp_id: &OpportunityId, venue: &str, symbol: &str, side: &str, ts_ns: u64)
        ensures
            final(self)@.len() == old(self)@.len() + 1,
            final(self)@.drop_last() == old(self)@,
            final(self)@.last() matches JournalEntry::Intent { opp_id: o, ts_ns: t, venue: v, symbol: s, side: d }
                && o@ == journal_id(opp_id@) && t == ts_ns && v@ == venue@ && s@ == symbol@ && d@ == side@,
    {
        let e = JournalEntry::Intent {
            opp_id: opp_id.debug_string(),
            ts_ns,
            venue: venue.to_owned(),
            symbol: symbol.to_owned(),
            side: side.to_owned(),
        };
        self.append(e);
    }

    /// Records a filled leg.
    pub fn record_fill(
        &mut self,
        opp_id: &OpportunityId,
        leg: usize,
        venue: &str,
        symbol: &str,
        fill_price: i64,
        fill_size: i64,
        ts_ns: u64,
    )
        ensures
            final(self)@.len() == old(self)@.len() + 1,
            final(self)@.drop_last() == old(self)@,
            final(self)@.last() matches JournalEntry::Fill {
                opp_id: o,
                ts_ns: t,
                leg: l,
                venue: v,
                symbol: s,
                fill_price: fp,
                fill_size: fs,
            } && o@ == journal_id(opp_id@) && t == ts_ns && l == leg && v@ == venue@ && s@ == symbol@ && fp
                == fill_price && fs == fill_size,
    {
        let e = JournalEntry::Fill {
            opp_id: opp_id.debug_string(),
            ts_ns,
            leg,
            venue: venue.to_owned(),
            symbol: symbol.to_owned(),
            fill_price,
            fill_size,
        };
        self.append(e);
    }

    /// Records a failed leg submission.
    pub fn record_fail(&mut self, opp_id: &OpportunityId, leg: usize, reason: &str, ts_ns: u64)
        ensures
            final(self)@.len() == old(self)@.len() + 1,
            final(self)@.drop_last() == old(self)@,
            final(self)@.last() matches JournalEntry::Fail { opp_id: o, ts_ns: t, leg: l, reason: r }
                && o@ == journal_id(opp_id@) && t == ts_ns && l == leg && r@ == reason@,
    {
        let e = JournalEntry::Fail { opp_id: opp_id.debug_string(), ts_ns, leg, reason: reason.to_owned() };
        self.append(e);
    }

    /// Records a hedge action.
    pub fn record_hedge(
        &mut self,
        opp_id: &OpportunityId,
        leg: usize,
        venue: &str,
        symbol: &str,
        hedge_price: i64,
        ts_ns: u64,
    )
        ensures
            final(self)@.len() == old(self)@.len() + 1,
            final(self)@.drop_last() == old(self)@,
            final(self)@.last() matches JournalEntry::Hedge {
                opp_id: o,
                ts_ns: t,
                leg: l,
                venue: v,
                symbol: s,
                hedge_price: hp,
            } && o@ == journal_id(opp_id@) && t == ts_ns && l == leg && v@ == venue@ && s@ == symbol@ && hp
                == hedge_price,
    {
        let e = JournalEntry::Hedge {
            opp_id: opp_id.debug_string(),
            ts_ns,
            leg,
            venue: venue.to_owned(),
            symbol: symbol.to_owned(),
            hedge_price,
        };
        self.append(e);
    }

    fn is_confirmed(&self, opp: &String) -> (r: bool)
        ensures
            r == confirmed(self@, opp@),
    {
        let mut k: usize = 0;
        while k < self.entries.len()
            invariant
                k <= self.entries.len(),
                forall|q: int| 0 <= q < k ==> !((#[trigger] self@[q]).is_confirmation() && self@[q].opp() == opp@),
            decreases self.entries.len() - k,
        {
            let e = &self.entries[k];
            if e.confirms() && *e.opp_id() == *opp {
                assert(self@[k as int].is_confirmation() && self@[k as int].opp() == opp@);
                return true;
            }
            k = k + 1;
        }
        false
    }

    /// The intents that no fill or failure of the same opportunity confirms,
    /// in journal order.
    pub fn find_unacknowledged(&self) -> (r: Vec<&JournalEntry>)
        ensures
            r@.map_values(|e: &JournalEntry| *e) == unacked_prefix(self@, self@.len() as int),
    {
        let mut out: Vec<&JournalEntry> = Vec::new();
        let mut k: usize = 0;
        while k < self.entries.len()
            invariant
                k <= self.entries.len(),
                out@.map_values(|e: &JournalEntry| *e) == unacked_prefix(self@, k as int),
            decreases self.entries.len() - k,
        {
            let e = &self.entries[k];
            if e.is_intent() && !self.is_confirmed(e.opp_id()) {
                out.push(e);
            }
            k = k + 1;
            assert(out@.map_values(|e: &JournalEntry| *e) =~= unacked_prefix(self@, k as int));
        }
        out
    }

    /// All entries in order.
    pub fn entries(&self) -> (r: &[JournalEntry])
        ensures
            r@ == self@,
    {
        self.entries.as_slice()
    }

    pub fn len(&self) -> (r: usize)
        ensures
            r == self@.len(),
    {
        self.entries.len()
    }
}

/// Every reported entry is an unacknowledged intent, and every
/// unacknowledged intent of the journal is reported.
pub proof fn lemma_unacknowledged_exact(entries: Seq<JournalEntry>, k: int)
    requires
        0 <= k <= entries.len(),
    ensures
        forall|p: int|
            0 <= p < unacked_prefix(entries, k).len() ==> unacknowledged(entries, #[trigger] unacked_prefix(entries, k)[p]),
        forall|q: int|
            0 <= q < k && unacknowledged(entries, #[trigger] entries[q]) ==> unacked_prefix(entries, k).contains(
                entries[q],
            ),
    decreases k,
{
    if k > 0 {
        lemma_unacknowledged_exact(entries, k - 1);
        let prev = unacked_prefix(entries, k - 1);
        if unacknowledged(entries, entries[k - 1]) {
            let cur = prev.push(entries[k - 1]);
            assert(unacked_prefix(entries, k) == cur);
            assert forall|q: int| 0 <= q < k && unacknowledged(entries, #[trigger] entries[q]) implies cur.contains(
                entries[q],
            ) by {
                if q == k - 1 {
                    assert(cur[cur.len() - 1] == entries[q]);
                } else {
                    let i = choose|i: int| 0 <= i < prev.len() && prev[i] == entries[q];
                    assert(cur[i] == entries[q]);
                }
            }
        }
    }
}

/// Once a fill or failure of an opportunity is journaled, none of its intents
/// is reported as unacknowledged.
pub proof fn lemma_confirmation_acknowledges(entries: Seq<JournalEntry>, c: JournalEntry)
    requires
        c.is_confirmation(),
    ensures
        forall|p: int|
            0 <= p < unacked_prefix(entries.push(c), entries.len() + 1 as int).len() ==> (#[trigger] unacked_prefix(
                entries.push(c),
                entries.len() + 1 as int,
            )[p]).opp() != c.opp(),
{
    let all = entries.push(c);
    lemma_unacknowledged_exact(all, entries.len() + 1 as int);
    assert(all[entries.len() as int] == c);
    assert(confirmed(all, c.opp()));
}

proof fn lemma_unacked_prefix_same(a: Seq<JournalEntry>, b: Seq<JournalEntry>, k: int)
    requires
        0 <= k <= a.len(),
        k <= b.len(),
        forall|q: int| 0 <= q < k ==> a[q] == b[q],
        forall|o: Seq<char>| confirmed(a, o) == #[trigger] confirmed(b, o),
    ensures
        unacked_prefix(a, k) == unacked_prefix(b, k),
    decreases k,
{
    if k > 0 {
        lemma_unacked_prefix_same(a, b, k - 1);
        assert(a[k - 1] == b[k - 1]);
        assert(confirmed(a, a[k - 1].opp()) == confirmed(b, b[k - 1].opp()));
    }
}

/// Journaling a hedge acknowledges no intent: the unacknowledged intents
/// are those before it.
pub proof fn lemma_hedge_acknowledges_nothing(entries: Seq<JournalEntry>, h: JournalEntry)
    requires
        h is Hedge,
    ensures
        unacked_prefix(entries.push(h), entries.len() + 1 as int) == unacked_prefix(entries, entries.len() as int),
{
    let all = entries.push(h);
    let n = entries.len() as int;
    assert forall|o: Seq<char>| confirmed(entries, o) == #[trigger] confirmed(all, o) by {
        if confirmed(all, o) {
            let p = choose|p: int| 0 <= p < all.len() && (#[trigger] all[p]).is_confirmation() && all[p].opp() == o;
            assert(p != n);
            assert(all[p] == entries[p]);
        }
        if confirmed(entries, o) {
            let p = choose|p: int| 0 <= p < entries.len() && (#[trigger] entries[p]).is_confirmation() && entries[p].opp() == o;
            assert(all[p] == entries[p]);
        }
    }
    assert forall|q: int| 0 <= q < n implies all[q] == entries[q] by {}
    lemma_unacked_prefix_same(all, entries, n);
    assert(all[n] == h);
    assert(!unacknowledged(all, all[n]));
}

/// A journaled fill, and likewise a journaled failure, acknowledges every
/// intent of its opportunity.
pub proof fn lemma_fill_or_fail_acknowledges(entries: Seq<JournalEntry>, c: JournalEntry, p: int)
    requires
        c is Fill || c is Fail,
        0 <= p < entries.len() + 1,
        entries.push(c)[p].opp() == c.opp(),
    ensures
        !unacknowledged(entries.push(c), entries.push(c)[p]),
{
    let all = entries.push(c);
    assert(all[entries.len() as int] == c);
    assert(confirmed(all, c.opp()));
}

} // verus!
