use vstd::prelude::*;

use crate::clock::nanos;
use crate::opportunity::OpportunityId;

verus! {

/// How long a submitted leg may stay unresolved, in nanoseconds.
#[derive(Debug, Clone, Copy)]
pub struct OrderTimeoutConfig {
    pub submission_timeout_ns: u64,
}

impl Default for OrderTimeoutConfig {
    /// Five seconds.
    fn default() -> (c: OrderTimeoutConfig)
        ensures
            c.submission_timeout_ns == 5_000_000_000,
    {
        OrderTimeoutConfig { submission_timeout_ns: 5_000_000_000 }
    }
}

/// Submitted legs of one opportunity: (leg index, submission time).
pub type PendingLegs = Seq<(usize, u64)>;

/// A leg submitted at `t` has timed out at `now`.
pub open spec fn expired(t: u64, now: u64, timeout: u64) -> bool {
    now > t && now - t > timeout
}

/// Timed-out legs among `legs[0..k]`, tagged with the opportunity.
pub open spec fn expired_legs(id: Seq<u8>, legs: PendingLegs, now: u64, timeout: u64, k: int) -> Seq<(Seq<u8>, usize)>
    decreases k,
{
    if k <= 0 {
        Seq::empty()
    } else {
        let rest = expired_legs(id, legs, now, timeout, k - 1);
        if expired(legs[k - 1].1, now, timeout) {
            rest.push((id, legs[k - 1].0))
        } else {
            rest
        }
    }
}

/// Timed-out legs of the first `k` opportunities, in tracking order.
pub open spec fn all_expired(pending: Seq<(Seq<u8>, PendingLegs)>, now: u64, timeout: u64, k: int) -> Seq<
    (Seq<u8>, usize),
>
    decreases k,
{
    if k <= 0 {
        Seq::empty()
    } else {
        all_expired(pending, now, timeout, k - 1) + expired_legs(
            pending[k - 1].0,
            pending[k - 1].1,
            now,
            timeout,
            pending[k - 1].1.len() as int,
        )
    }
}

pub open spec fn has_opp(pending: Seq<(Seq<u8>, PendingLegs)>, id: Seq<u8>) -> bool {
    exists|p: int| 0 <= p < pending.len() && pending[p].0 == id
}

pub open spec fn opp_index(pending: Seq<(Seq<u8>, PendingLegs)>, id: Seq<u8>) -> int {
    choose|p: int| 0 <= p < pending.len() && pending[p].0 == id
}

/// Tracking after a leg submission at `now`.
pub open spec fn after_submission(pending: Seq<(Seq<u8>, PendingLegs)>, id: Seq<u8>, leg: usize, now: u64) -> Seq<
    (Seq<u8>, PendingLegs),
> {
    if has_opp(pending, id) {
        let p = opp_index(pending, id);
        pending.update(p, (id, pending[p].1.push((leg, now))))
    } else {
        pending.push((id, seq![(leg, now)]))
    }
}

pub open spec fn other_leg(leg: usize) -> spec_fn((usize, u64)) -> bool {
    |e: (usize, u64)| e.0 != leg
}

/// Tracking after leg `leg` resolves: its submissions are dropped, and the
/// opportunity too once nothing of it is left.
pub open spec fn after_resolve_leg(pending: Seq<(Seq<u8>, PendingLegs)>, id: Seq<u8>, leg: usize) -> Seq<
    (Seq<u8>, PendingLegs),
> {
    if has_opp(pending, id) {
        let p = opp_index(pending, id);
        let rest = pending[p].1.filter(other_leg(leg));
        if rest.len() == 0 {
            pending.remove(p)
        } else {
            pending.update(p, (id, rest))
        }
    } else {
        pending
    }
}

/// Tracking after an opportunity resolves entirely.
pub open spec fn after_resolve_opportunity(pending: Seq<(Seq<u8>, PendingLegs)>, id: Seq<u8>) -> Seq<
    (Seq<u8>, PendingLegs),
> {
    if has_opp(pending, id) {
        pending.remove(opp_index(pending, id))
    } else {
        pending
    }
}

pub open spec fn pending_wf(pending: Seq<(Seq<u8>, PendingLegs)>) -> bool {
    &&& forall|p: int, q: int|
        0 <= p < pending.len() && 0 <= q < pending.len() && p != q ==> (#[trigger] pending[p]).0 != (
        #[trigger] pending[q]).0
    &&& forall|p: int| 0 <= p < pending.len() ==> (#[trigger] pending[p]).1.len() > 0
}

/// Submission times of legs awaiting resolution, per opportunity.
pub struct OrderTimeoutTracker {
    pending: Vec<(OpportunityId, Vec<(usize, u64)>)>,
    config: OrderTimeoutConfig,
}

impl View for OrderTimeoutTracker {
    type V = Seq<(Seq<u8>, PendingLegs)>;

    closed spec fn view(&self) -> Seq<(Seq<u8>, PendingLegs)> {
        self.pending@.map_values(|e: (OpportunityId, Vec<(usize, u64)>)| (e.0@, e.1@))
    }
}

proof fn lemma_opp_index(pending: Seq<(Seq<u8>, PendingLegs)>, p: int)
    requires
        pending_wf(pending),
        0 <= p < pending.len(),
    ensures
        has_opp(pending, pending[p].0),
        opp_index(pending, pending[p].0) == p,
{
    assert(pending[p].0 == pending[p].0);
    let c = opp_index(pending, pending[p].0);
    assert(pending[c].0 == pending[p].0);
}

impl OrderTimeoutTracker {
    pub closed spec fn timeout(&self) -> u64 {
        self.config.submission_timeout_ns
    }

    pub closed spec fn wf(&self) -> bool {
        pending_wf(self@)
    }

    pub fn new(config: OrderTimeoutConfig) -> (t: OrderTimeoutTracker)
        ensures
            t.wf(),
            t@.len() == 0,
            t.timeout() == config.submission_timeout_ns,
    {
        let t = OrderTimeoutTracker { pending: Vec::new(), config };
        assert(t@ =~= Seq::<(Seq<u8>, PendingLegs)>::empty());
        t
    }

    fn find(&self, id: &OpportunityId) -> (r: Option<usize>)
        requires
            self.wf(),
        ensures
            match r {
                Some(p) => p < self@.len() && has_opp(self@, id@) && opp_index(self@, id@) == p,
                None => !has_opp(self@, id@),
            },
    {
        let mut k: usize = 0;
        while k < self.pending.len()
            invariant
                self.wf(),
                k <= self.pending.len(),
                forall|q: int| 0 <= q < k ==> self@[q].0 != id@,
            decreases self.pending.len() - k,
        {
            if self.pending[k].0.same_as(id) {
                proof {
                    lemma_opp_index(self@, k as int);
                }
                return Some(k);
            }
            k = k + 1;
        }
        None
    }

    /// Records that leg `leg_idx` of `opp_id` was submitted at `now_ns`.
    pub fn record_submission_at(&mut self, opp_id: OpportunityId, leg_idx: usize, now_ns: u64)
        requires
            old(self).wf(),
        ensures
            final(self).wf(),
            final(self)@ == after_submission(old(self)@, opp_id@, leg_idx, now_ns),
            final(self).timeout() == old(self).timeout(),
    {
        let ghost v0 = self@;
        match self.find(&opp_id) {
            Some(p) => {
                let mut entry = (opp_id, Vec::new());
                self.pending.set_and_swap(p, &mut entry);
                entry.1.push((leg_idx, now_ns));
                let ghost nl = entry.1@;
                self.pending.set(p, entry);
                proof {
                    assert(self@ =~= v0.update(p as int, (opp_id@, nl)));
                    assert(pending_wf(self@)) by {
                        assert forall|x: int, y: int|
                            0 <= x < self@.len() && 0 <= y < self@.len() && x != y implies (
                            #[trigger] self@[x]).0 != (#[trigger] self@[y]).0 by {
                            assert(self@[x].0 == v0[x].0);
                            assert(self@[y].0 == v0[y].0);
                        }
                        assert forall|x: int| 0 <= x < self@.len() implies (#[trigger] self@[x]).1.len() > 0 by {
                            if x != p {
                                assert(self@[x] == v0[x]);
                            }
                        }
                    }
                }
            },
            None => {
                let mut legs = Vec::new();
                legs.push((leg_idx, now_ns));
                self.pending.push((opp_id, legs));
                proof {
                    assert(self@ =~= v0.push((opp_id@, seq![(leg_idx, now_ns)])));
                    assert(pending_wf(self@)) by {
                        assert forall|x: int, y: int|
                            0 <= x < self@.len() && 0 <= y < self@.len() && x != y implies (
                            #[trigger] self@[x]).0 != (#[trigger] self@[y]).0 by {
                            if x == v0.len() {
                                assert(!(0 <= y < v0.len() && v0[y].0 == opp_id@));
                            } else if y == v0.len() {
                                assert(!(0 <= x < v0.len() && v0[x].0 == opp_id@));
                            }
                        }
                    }
                }
            },
        }
    }

    /// Records that leg `leg_idx` of `opp_id` was submitted now.
    pub fn record_submission(&mut self, opp_id: OpportunityId, leg_idx: usize)
        requires
            old(self).wf(),
        ensures
            final(self).wf(),
            exists|now: u64| final(self)@ == #[trigger] after_submission(old(self)@, opp_id@, leg_idx, now),
            final(self).timeout() == old(self).timeout(),
    {
        let now = nanos();
        self.record_submission_at(opp_id, leg_idx, now);
    }

    /// Stops tracking leg `leg_idx` of `opp_id` (filled or failed); the
    /// opportunity is dropped once none of its legs is left.
    pub fn resolve_leg(&mut self, opp_id: &OpportunityId, leg_idx: usize)
        requires
            old(self).wf(),
        ensures
            final(self).wf(),
            final(self)@ == after_resolve_leg(old(self)@, opp_id@, leg_idx),
            final(self).timeout() == old(self).timeout(),
    {
        let ghost v0 = self@;
        if let Some(p) = self.find(opp_id) {
            let mut entry = (*opp_id, Vec::new());
            self.pending.set_and_swap(p, &mut entry);
            let ghost l0 = entry.1@;
            let ghost pred = other_leg(leg_idx);
            let mut kept: Vec<(usize, u64)> = Vec::new();
            let mut k: usize = 0;
            while k < entry.1.len()
                invariant
                    k <= entry.1.len(),
                    entry.1@ == l0,
                    pred == other_leg(leg_idx),
                    kept@ == l0.take(k as int).filter(pred),
                decreases entry.1.len() - k,
            {
                let e = entry.1[k];
                proof {
                    l0.take(k as int).lemma_filter_push(l0[k as int], pred);
                    assert(l0.take(k + 1) =~= l0.take(k as int).push(l0[k as int]));
                }
                if e.0 != leg_idx {
                    kept.push(e);
                }
                k = k + 1;
            }
            proof {
                assert(l0.take(l0.len() as int) =~= l0);
            }
            if kept.len() == 0 {
                self.pending.remove(p);
                proof {
                    assert(self@ =~= v0.remove(p as int));
                    assert(pending_wf(self@)) by {
                        assert forall|x: int, y: int|
                            0 <= x < self@.len() && 0 <= y < self@.len() && x != y implies (
                            #[trigger] self@[x]).0 != (#[trigger] self@[y]).0 by {
                            let x0 = if x < p { x } else { x + 1 };
                            let y0 = if y < p { y } else { y + 1 };
                            assert(self@[x] == v0[x0] && self@[y] == v0[y0]);
                        }
                        assert forall|x: int| 0 <= x < self@.len() implies (#[trigger] self@[x]).1.len() > 0 by {
                            let x0 = if x < p { x } else { x + 1 };
                            assert(self@[x] == v0[x0]);
                        }
                    }
                }
            } else {
                let ghost nl = kept@;
                self.pending.set(p, (*opp_id, kept));
                proof {
                    assert(self@ =~= v0.update(p as int, (opp_id@, nl)));
                    assert(pending_wf(self@)) by {
                        assert forall|x: int, y: int|
                            0 <= x < self@.len() && 0 <= y < self@.len() && x != y implies (
                            #[trigger] self@[x]).0 != (#[trigger] self@[y]).0 by {
                            assert(self@[x].0 == v0[x].0);
                            assert(self@[y].0 == v0[y].0);
                        }
                        assert forall|x: int| 0 <= x < self@.len() implies (#[trigger] self@[x]).1.len() > 0 by {
                            if x != p {
                                assert(self@[x] == v0[x]);
                            }
                        }
                    }
                }
            }
        }
    }

    /// Stops tracking every leg of `opp_id`.
    pub fn resolve_opportunity(&mut self, opp_id: &OpportunityId)
        requires
            old(self).wf(),
        ensures
            final(self).wf(),
            final(self)@ == after_resolve_opportunity(old(self)@, opp_id@),
            final(self).timeout() == old(self).timeout(),
    {
        let ghost v0 = self@;
        if let Some(p) = self.find(opp_id) {
            self.pending.remove(p);
            proof {
                assert(self@ =~= v0.remove(p as int));
                assert(pending_wf(self@)) by {
                    assert forall|x: int, y: int|
                        0 <= x < self@.len() && 0 <= y < self@.len() && x != y implies (#[trigger] self@[x]).0
                        != (#[trigger] self@[y]).0 by {
                        let x0 = if x < p { x } else { x + 1 };
                        let y0 = if y < p { y } else { y + 1 };
                        assert(self@[x] == v0[x0] && self@[y] == v0[y0]);
                    }
                    assert forall|x: int| 0 <= x < self@.len() implies (#[trigger] self@[x]).1.len() > 0 by {
                        let x0 = if x < p { x } else { x + 1 };
                        assert(self@[x] == v0[x0]);
                    }
                }
            }
        }
    }

    /// Legs that have waited longer than the timeout at `now_ns`.
    pub fn check_timeouts_at(&self, now_ns: u64) -> (r: Vec<(OpportunityId, usize)>)
        ensures
            r@.map_values(|e: (OpportunityId, usize)| (e.0@, e.1)) == all_expired(
                self@,
                now_ns,
                self.timeout(),
                self@.len() as int,
            ),
    {
        let timeout = self.config.submission_timeout_ns;
        let mut out: Vec<(OpportunityId, usize)> = Vec::new();
        let mut k: usize = 0;
        while k < self.pending.len()
            invariant
                k <= self.pending.len(),
                timeout == self.timeout(),
                out@.map_values(|e: (OpportunityId, usize)| (e.0@, e.1)) == all_expired(self@, now_ns, timeout, k as int),
            decreases self.pending.len() - k,
        {
            let id = self.pending[k].0;
            let legs = &self.pending[k].1;
            let ghost base = out@.map_values(|e: (OpportunityId, usize)| (e.0@, e.1));
            let mut j: usize = 0;
            while j < legs.len()
                invariant
                    j <= legs.len(),
                    k < self.pending.len(),
                    id@ == self@[k as int].0,
                    legs@ == self@[k as int].1,
                    out@.map_values(|e: (OpportunityId, usize)| (e.0@, e.1)) == base + expired_legs(
                        id@,
                        legs@,
                        now_ns,
                        timeout,
                        j as int,
                    ),
                decreases legs.len() - j,
            {
                let (leg, t) = legs[j];
                let ghost prev = out@.map_values(|e: (OpportunityId, usize)| (e.0@, e.1));
                let ghost x = expired_legs(id@, legs@, now_ns, timeout, j as int);
                if now_ns > t && now_ns - t > timeout {
                    out.push((id, leg));
                    assert(out@.map_values(|e: (OpportunityId, usize)| (e.0@, e.1)) =~= prev.push((id@, leg)));
                    assert((base + x).push((id@, leg)) =~= base + x.push((id@, leg)));
                }
                j = j + 1;
                assert(out@.map_values(|e: (OpportunityId, usize)| (e.0@, e.1)) =~= base + expired_legs(
                    id@,
                    legs@,
                    now_ns,
                    timeout,
                    j as int,
                ));
            }
            k = k + 1;
        }
        out
    }

    /// Legs that have waited longer than the timeout.
    pub fn check_timeouts(&self) -> (r: Vec<(OpportunityId, usize)>)
        ensures
            exists|now: u64|
                r@.map_values(|e: (OpportunityId, usize)| (e.0@, e.1)) == #[trigger] all_expired(
                    self@,
                    now,
                    self.timeout(),
                    self@.len() as int,
                ),
    {
        let now = nanos();
        self.check_timeouts_at(now)
    }

    /// Number of opportunities with unresolved legs.
    pub fn pending_count(&self) -> (r: usize)
        ensures
            r == self@.len(),
    {
        self.pending.len()
    }

    pub fn is_empty(&self) -> (r: bool)
        ensures
            r == (self@.len() == 0),
    {
        self.pending.len() == 0
    }
}

/// Nothing tracked means nothing times out.
pub proof fn lemma_empty_no_timeouts(now: u64, timeout: u64)
    ensures
        all_expired(Seq::empty(), now, timeout, 0) == Seq::<(Seq<u8>, usize)>::empty(),
{
}

/// Submitting a leg and then resolving it leaves an opportunity that was not
/// tracked before untracked again.
pub proof fn lemma_submit_then_resolve(pending: Seq<(Seq<u8>, PendingLegs)>, id: Seq<u8>, leg: usize, now: u64)
    requires
        pending_wf(pending),
        !has_opp(pending, id),
    ensures
        after_resolve_leg(after_submission(pending, id, leg, now), id, leg) == pending,
{
    let s = after_submission(pending, id, leg, now);
    assert(s == pending.push((id, seq![(leg, now)])));
    let p = pending.len() as int;
    assert(s[p].0 == id);
    assert(has_opp(s, id));
    let c = opp_index(s, id);
    if c != p {
        assert(pending[c].0 == id);
    }
    reveal_with_fuel(Seq::filter, 2);
    assert(seq![(leg, now)].drop_last() =~= Seq::<(usize, u64)>::empty());
    assert(s[p].1.filter(other_leg(leg)).len() == 0);
    assert(s.remove(p) =~= pending);
}

/// Resolving an opportunity stops all tracking of it.
pub proof fn lemma_resolve_opportunity_clears(pending: Seq<(Seq<u8>, PendingLegs)>, id: Seq<u8>)
    requires
        pending_wf(pending),
    ensures
        !has_opp(after_resolve_opportunity(pending, id), id),
{
    if has_opp(pending, id) {
        let p = opp_index(pending, id);
        let r = pending.remove(p);
        if has_opp(r, id) {
            let q = choose|q: int| 0 <= q < r.len() && r[q].0 == id;
            let q0 = if q < p { q } else { q + 1 };
            assert(pending[q0].0 == id);
        }
    }
}

/// Whether leg `leg` of opportunity `id` is tracked.
pub open spec fn still_pending(pending: Seq<(Seq<u8>, PendingLegs)>, id: Seq<u8>, leg: usize) -> bool {
    exists|p: int, q: int|
        0 <= p < pending.len() && 0 <= q < pending[p].1.len() && #[trigger] pending[p].1[q].0 == leg && pending[p].0
            == id
}

/// Resolving a leg stops its tracking, keeps tracking well formed, and never
/// starts tracking anything.
pub proof fn lemma_resolve_leg_untracks(pending: Seq<(Seq<u8>, PendingLegs)>, id: Seq<u8>, leg: usize)
    requires
        pending_wf(pending),
    ensures
        pending_wf(after_resolve_leg(pending, id, leg)),
        !still_pending(after_resolve_leg(pending, id, leg), id, leg),
        forall|x: Seq<u8>, y: usize| still_pending(after_resolve_leg(pending, id, leg), x, y) ==> still_pending(pending, x, y),
{
    let r = after_resolve_leg(pending, id, leg);
    if has_opp(pending, id) {
        let p = opp_index(pending, id);
        assert(pending[p].0 == id);
        let rest = pending[p].1.filter(other_leg(leg));
        if rest.len() == 0 {
            assert(r == pending.remove(p));
            assert forall|a: int| 0 <= a < r.len() implies #[trigger] r[a] == pending[if a < p { a } else { a + 1 }] by {}
            assert forall|x: Seq<u8>, y: usize| still_pending(r, x, y) implies still_pending(pending, x, y) by {
                let (a, q) = choose|a: int, q: int|
                    0 <= a < r.len() && 0 <= q < r[a].1.len() && #[trigger] r[a].1[q].0 == y && r[a].0 == x;
                let a2 = if a < p { a } else { a + 1 };
                assert(r[a] == pending[a2]);
                assert(pending[a2].1[q].0 == y);
            }
            if still_pending(r, id, leg) {
                let (a, q) = choose|a: int, q: int|
                    0 <= a < r.len() && 0 <= q < r[a].1.len() && #[trigger] r[a].1[q].0 == leg && r[a].0 == id;
                let a2 = if a < p { a } else { a + 1 };
                assert(r[a] == pending[a2]);
                assert(a2 != p);
            }
        } else {
            assert(r == pending.update(p, (id, rest)));
            assert forall|x: Seq<u8>, y: usize| still_pending(r, x, y) implies still_pending(pending, x, y) by {
                let (a, q) = choose|a: int, q: int|
                    0 <= a < r.len() && 0 <= q < r[a].1.len() && #[trigger] r[a].1[q].0 == y && r[a].0 == x;
                if a == p {
                    assert(rest.contains(rest[q]));
                    pending[p].1.lemma_filter_contains_rev(other_leg(leg), rest[q]);
                    let q2 = choose|q2: int| 0 <= q2 < pending[p].1.len() && pending[p].1[q2] == rest[q];
                    assert(pending[p].1[q2].0 == y);
                } else {
                    assert(pending[a].1[q].0 == y);
                }
            }
            if still_pending(r, id, leg) {
                let (a, q) = choose|a: int, q: int|
                    0 <= a < r.len() && 0 <= q < r[a].1.len() && #[trigger] r[a].1[q].0 == leg && r[a].0 == id;
                if a == p {
                    pending[p].1.lemma_filter_pred(other_leg(leg), q);
                } else {
                    assert(pending[a].0 == id);
                }
            }
        }
    } else {
        if still_pending(r, id, leg) {
            let (a, q) = choose|a: int, q: int|
                0 <= a < r.len() && 0 <= q < r[a].1.len() && #[trigger] r[a].1[q].0 == leg && r[a].0 == id;
            assert(pending[a].0 == id);
        }
    }
}

/// Every reported timed-out leg is a tracked leg.
pub proof fn lemma_expired_are_tracked(pending: Seq<(Seq<u8>, PendingLegs)>, now: u64, timeout: u64, k: int)
    requires
        0 <= k <= pending.len(),
    ensures
        forall|i: int|
            0 <= i < all_expired(pending, now, timeout, k).len() ==> still_pending(
                pending,
                (#[trigger] all_expired(pending, now, timeout, k)[i]).0,
                all_expired(pending, now, timeout, k)[i].1,
            ),
    decreases k,
{
    if k > 0 {
        lemma_expired_are_tracked(pending, now, timeout, k - 1);
        let a = all_expired(pending, now, timeout, k - 1);
        let e = expired_legs(pending[k - 1].0, pending[k - 1].1, now, timeout, pending[k - 1].1.len() as int);
        lemma_expired_legs_from(pending[k - 1].0, pending[k - 1].1, now, timeout, pending[k - 1].1.len() as int);
        assert forall|i: int| 0 <= i < (a + e).len() implies still_pending(pending, (#[trigger] (a + e)[i]).0, (a + e)[i].1) by {
            if i >= a.len() {
                let j = i - a.len();
                assert((a + e)[i] == e[j]);
                let q = choose|q: int| 0 <= q < pending[k - 1].1.len() && e[j] == (pending[k - 1].0, #[trigger] pending[k - 1].1[q].0);
                assert(pending[k - 1].1[q].0 == e[j].1);
            } else {
                assert((a + e)[i] == a[i]);
            }
        }
    }
}

proof fn lemma_expired_legs_from(id: Seq<u8>, legs: PendingLegs, now: u64, timeout: u64, k: int)
    requires
        0 <= k <= legs.len(),
    ensures
        forall|i: int|
            #![trigger expired_legs(id, legs, now, timeout, k)[i]]
            0 <= i < expired_legs(id, legs, now, timeout, k).len() ==> exists|q: int|
                0 <= q < k && expired_legs(id, legs, now, timeout, k)[i] == (id, #[trigger] legs[q].0),
    decreases k,
{
    if k > 0 {
        lemma_expired_legs_from(id, legs, now, timeout, k - 1);
        let rest = expired_legs(id, legs, now, timeout, k - 1);
        assert forall|i: int|
            #![trigger expired_legs(id, legs, now, timeout, k)[i]]
            0 <= i < expired_legs(id, legs, now, timeout, k).len() implies exists|q: int|
            0 <= q < k && expired_legs(id, legs, now, timeout, k)[i] == (id, #[trigger] legs[q].0) by {
            if i < rest.len() {
                let q = choose|q: int| 0 <= q < k - 1 && rest[i] == (id, #[trigger] legs[q].0);
                assert(expired_legs(id, legs, now, timeout, k)[i] == rest[i]);
                assert(0 <= q < k && expired_legs(id, legs, now, timeout, k)[i] == (id, legs[q].0));
            } else {
                assert(expired_legs(id, legs, now, timeout, k)[i] == (id, legs[k - 1].0));
            }
        }
    }
}

/// A well-formed tracker holds each opportunity once, with at least one leg.
pub proof fn lemma_tracker_wf(t: OrderTimeoutTracker)
    requires
        t.wf(),
    ensures
        pending_wf(t@),
{
}

/// Leg `q` of `legs` is reported as `x` for opportunity `id`, having waited
/// longer than `timeout` at `now`.
pub open spec fn reports_overdue_leg(x: (Seq<u8>, usize), id: Seq<u8>, legs: PendingLegs, q: int, now: u64, timeout: u64) -> bool {
    &&& 0 <= q < legs.len()
    &&& x.0 == id
    &&& x.1 == legs[q].0
    &&& now > legs[q].1 + timeout
}

proof fn lemma_expired_legs_threshold(id: Seq<u8>, legs: PendingLegs, now: u64, timeout: u64, k: int)
    requires
        0 <= k <= legs.len(),
    ensures
        forall|q: int|
            0 <= q < k && now > (#[trigger] legs[q]).1 + timeout ==> expired_legs(id, legs, now, timeout, k).contains(
                (id, legs[q].0),
            ),
    decreases k,
{
    if k > 0 {
        lemma_expired_legs_threshold(id, legs, now, timeout, k - 1);
        let rest = expired_legs(id, legs, now, timeout, k - 1);
        let cur = expired_legs(id, legs, now, timeout, k);
        assert forall|q: int| 0 <= q < k && now > (#[trigger] legs[q]).1 + timeout implies cur.contains((id, legs[q].0)) by {
            if q < k - 1 {
                let i = choose|i: int| 0 <= i < rest.len() && rest[i] == (id, legs[q].0);
                assert(cur[i] == rest[i]);
            } else {
                assert(cur[cur.len() - 1] == (id, legs[q].0));
            }
        }
    }
}

proof fn lemma_expired_leg_overdue(id: Seq<u8>, legs: PendingLegs, now: u64, timeout: u64, k: int, i: int) -> (q: int)
    requires
        0 <= k <= legs.len(),
        0 <= i < expired_legs(id, legs, now, timeout, k).len(),
    ensures
        0 <= q < k,
        reports_overdue_leg(expired_legs(id, legs, now, timeout, k)[i], id, legs, q, now, timeout),
    decreases k,
{
    let rest = expired_legs(id, legs, now, timeout, k - 1);
    if i < rest.len() {
        let q = lemma_expired_leg_overdue(id, legs, now, timeout, k - 1, i);
        assert(expired_legs(id, legs, now, timeout, k)[i] == rest[i]);
        q
    } else {
        assert(expired_legs(id, legs, now, timeout, k)[i] == (id, legs[k - 1].0));
        k - 1
    }
}

/// Every tracked leg submitted at `t` with `now > t + timeout` is reported
/// by the timeout check.
pub proof fn lemma_timeout_threshold(pending: Seq<(Seq<u8>, PendingLegs)>, now: u64, timeout: u64, k: int)
    requires
        0 <= k <= pending.len(),
    ensures
        forall|p: int, q: int|
            0 <= p < k && 0 <= q < pending[p].1.len() && now > (#[trigger] pending[p].1[q]).1 + timeout
                ==> all_expired(pending, now, timeout, k).contains((pending[p].0, pending[p].1[q].0)),
    decreases k,
{
    if k > 0 {
        lemma_timeout_threshold(pending, now, timeout, k - 1);
        let a = all_expired(pending, now, timeout, k - 1);
        let id = pending[k - 1].0;
        let legs = pending[k - 1].1;
        let e = expired_legs(id, legs, now, timeout, legs.len() as int);
        lemma_expired_legs_threshold(id, legs, now, timeout, legs.len() as int);
        let cur = all_expired(pending, now, timeout, k);
        assert(cur == a + e);
        assert forall|p: int, q: int|
            0 <= p < k && 0 <= q < pending[p].1.len() && now > (#[trigger] pending[p].1[q]).1 + timeout implies cur.contains(
                (pending[p].0, pending[p].1[q].0),
            ) by {
            if p < k - 1 {
                let i = choose|i: int| 0 <= i < a.len() && a[i] == (pending[p].0, pending[p].1[q].0);
                assert(cur[i] == a[i]);
            } else {
                assert(legs[q] == pending[p].1[q]);
                let i = choose|i: int| 0 <= i < e.len() && e[i] == (id, legs[q].0);
                assert(cur[a.len() + i] == e[i]);
            }
        }
    }
}

/// Each entry `i` reported by the timeout check names leg `q` of tracked
/// opportunity `p`, returned as `(p, q)`, and that leg has waited longer than
/// the timeout: `now > t + timeout` for its submission time `t`.
pub proof fn lemma_reported_leg_overdue(pending: Seq<(Seq<u8>, PendingLegs)>, now: u64, timeout: u64, k: int, i: int) -> (pq: (
    int,
    int,
))
    requires
        0 <= k <= pending.len(),
        0 <= i < all_expired(pending, now, timeout, k).len(),
    ensures
        0 <= pq.0 < k,
        reports_overdue_leg(all_expired(pending, now, timeout, k)[i], pending[pq.0].0, pending[pq.0].1, pq.1, now, timeout),
    decreases k,
{
    let a = all_expired(pending, now, timeout, k - 1);
    let id = pending[k - 1].0;
    let legs = pending[k - 1].1;
    let e = expired_legs(id, legs, now, timeout, legs.len() as int);
    assert(all_expired(pending, now, timeout, k) == a + e);
    if i < a.len() {
        let pq = lemma_reported_leg_overdue(pending, now, timeout, k - 1, i);
        assert(all_expired(pending, now, timeout, k)[i] == a[i]);
        pq
    } else {
        let j = i - a.len();
        assert(all_expired(pending, now, timeout, k)[i] == e[j]);
        let q = lemma_expired_leg_overdue(id, legs, now, timeout, legs.len() as int, j);
        (k - 1, q)
    }
}

} // verus!
