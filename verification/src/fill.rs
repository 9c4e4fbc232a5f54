use vstd::prelude::*;

use crate::clock::nanos;
use crate::opportunity::OpportunityId;

verus! {

/// Fill status of one leg of an opportunity.
#[derive(Debug, Clone, Copy, PartialEq, Eq, Structural)]
pub enum LegFillStatus {
    Pending,
    Filled,
    Failed,
}

/// Execution state of the three legs of an opportunity.
#[derive(Debug, Clone, Copy)]
pub struct FillState {
    pub opportunity_id: OpportunityId,
    pub legs: [LegFillStatus; 3],
    /// Creation time, in nanoseconds.
    pub started_at: u64,
}

pub open spec fn all_filled(legs: Seq<LegFillStatus>) -> bool {
    forall|k: int| 0 <= k < legs.len() ==> legs[k] == LegFillStatus::Filled
}

pub open spec fn any_filled(legs: Seq<LegFillStatus>) -> bool {
    exists|k: int| 0 <= k < legs.len() && legs[k] == LegFillStatus::Filled
}

pub open spec fn any_failed(legs: Seq<LegFillStatus>) -> bool {
    exists|k: int| 0 <= k < legs.len() && legs[k] == LegFillStatus::Failed
}

/// A rollback is needed when some legs filled and others did not.
pub open spec fn rollback_needed(legs: Seq<LegFillStatus>) -> bool {
    any_filled(legs) && !all_filled(legs)
}

/// The legs after setting leg `leg` to `s`; an index past the last leg changes nothing.
pub open spec fn set_leg(legs: Seq<LegFillStatus>, leg: usize, s: LegFillStatus) -> Seq<LegFillStatus> {
    if leg < legs.len() {
        legs.update(leg as int, s)
    } else {
        legs
    }
}

impl FillState {
    /// A state with every leg pending.
    pub fn new(opportunity_id: OpportunityId) -> (r: FillState)
        ensures
            r.opportunity_id == opportunity_id,
            r.legs@ == seq![LegFillStatus::Pending, LegFillStatus::Pending, LegFillStatus::Pending],
    {
        let r = FillState {
            opportunity_id,
            legs: [LegFillStatus::Pending, LegFillStatus::Pending, LegFillStatus::Pending],
            started_at: nanos(),
        };
        assert(r.legs@ =~= seq![LegFillStatus::Pending, LegFillStatus::Pending, LegFillStatus::Pending]);
        r
    }

    fn set_status(&mut self, leg: usize, s: LegFillStatus)
        ensures
            final(self).legs@ == set_leg(old(self).legs@, leg, s),
            final(self).opportunity_id == old(self).opportunity_id,
            final(self).started_at == old(self).started_at,
    {
        if leg < 3 {
            let l = self.legs;
            self.legs = [
                if leg == 0 { s } else { l[0] },
                if leg == 1 { s } else { l[1] },
                if leg == 2 { s } else { l[2] },
            ];
            assert(self.legs@ =~= l@.update(leg as int, s));
        }
    }

    /// Marks a leg filled; an index past the third leg is ignored.
    pub fn fill_leg(&mut self, leg: usize)
        ensures
            final(self).legs@ == set_leg(old(self).legs@, leg, LegFillStatus::Filled),
            final(self).opportunity_id == old(self).opportunity_id,
            final(self).started_at == old(self).started_at,
    {
        self.set_status(leg, LegFillStatus::Filled);
    }

    /// Marks a leg failed; an index past the third leg is ignored.
    pub fn fail_leg(&mut self, leg: usize)
        ensures
            final(self).legs@ == set_leg(old(self).legs@, leg, LegFillStatus::Failed),
            final(self).opportunity_id == old(self).opportunity_id,
            final(self).started_at == old(self).started_at,
    {
        self.set_status(leg, LegFillStatus::Failed);
    }

    pub fn is_fully_filled(&self) -> (r: bool)
        ensures
            r == all_filled(self.legs@),
    {
        let r = self.legs[0] == LegFillStatus::Filled && self.legs[1] == LegFillStatus::Filled
            && self.legs[2] == LegFillStatus::Filled;
        proof {
            if r {
                assert(all_filled(self.legs@));
            }
        }
        r
    }

    /// Some leg filled, but not all of them.
    pub fn has_partial_fill(&self) -> (r: bool)
        ensures
            r == (any_filled(self.legs@) && !all_filled(self.legs@)),
    {
        let any = self.legs[0] == LegFillStatus::Filled || self.legs[1] == LegFillStatus::Filled
            || self.legs[2] == LegFillStatus::Filled;
        proof {
            if any {
                if self.legs[0] == LegFillStatus::Filled {
                    assert(self.legs@[0] == LegFillStatus::Filled);
                } else if self.legs[1] == LegFillStatus::Filled {
                    assert(self.legs@[1] == LegFillStatus::Filled);
                } else {
                    assert(self.legs@[2] == LegFillStatus::Filled);
                }
            } else {
                assert(!any_filled(self.legs@));
            }
        }
        any && !self.is_fully_filled()
    }

    pub fn has_failure(&self) -> (r: bool)
        ensures
            r == any_failed(self.legs@),
    {
        let r = self.legs[0] == LegFillStatus::Failed || self.legs[1] == LegFillStatus::Failed
            || self.legs[2] == LegFillStatus::Failed;
        proof {
            if r {
                if self.legs[0] == LegFillStatus::Failed {
                    assert(self.legs@[0] == LegFillStatus::Failed);
                } else if self.legs[1] == LegFillStatus::Failed {
                    assert(self.legs@[1] == LegFillStatus::Failed);
                } else {
                    assert(self.legs@[2] == LegFillStatus::Failed);
                }
            } else {
                assert(!any_failed(self.legs@));
            }
        }
        r
    }

    /// At least one leg filled but not all three.
    pub fn needs_rollback(&self) -> (r: bool)
        ensures
            r == rollback_needed(self.legs@),
    {
        self.has_partial_fill() && !self.is_fully_filled()
    }
}

/// Filling every leg, in any order and whatever came before, leaves the
/// state fully filled and needing no rollback.
pub proof fn lemma_all_legs_filled(legs: Seq<LegFillStatus>, a: usize, b: usize, c: usize)
    requires
        legs.len() == 3,
        seq![a, b, c].to_set() == set![0usize, 1, 2],
    ensures
        all_filled(
            set_leg(set_leg(set_leg(legs, a, LegFillStatus::Filled), b, LegFillStatus::Filled), c, LegFillStatus::Filled),
        ),
        !rollback_needed(
            set_leg(set_leg(set_leg(legs, a, LegFillStatus::Filled), b, LegFillStatus::Filled), c, LegFillStatus::Filled),
        ),
{
    let s = seq![a, b, c];
    let f = set_leg(set_leg(set_leg(legs, a, LegFillStatus::Filled), b, LegFillStatus::Filled), c, LegFillStatus::Filled);
    assert forall|k: int| 0 <= k < 3 implies f[k] == LegFillStatus::Filled by {
        assert(set![0usize, 1, 2].contains(k as usize));
        assert(s.to_set().contains(k as usize));
        let p = choose|p: int| 0 <= p < 3 && s[p] == k as usize;
        assert(a < 3 && b < 3 && c < 3) by {
            assert(s.to_set().contains(a) && s.to_set().contains(b) && s.to_set().contains(c)) by {
                assert(s[0] == a && s[1] == b && s[2] == c);
            }
        }
    }
}

/// Filling one leg of a fresh state calls for a rollback; a state with no
/// filled leg never does.
pub proof fn lemma_single_fill_needs_rollback(leg: usize)
    requires
        leg < 3,
    ensures
        rollback_needed(
            set_leg(seq![LegFillStatus::Pending, LegFillStatus::Pending, LegFillStatus::Pending], leg, LegFillStatus::Filled),
        ),
        !rollback_needed(seq![LegFillStatus::Pending, LegFillStatus::Pending, LegFillStatus::Pending]),
{
    let s = set_leg(seq![LegFillStatus::Pending, LegFillStatus::Pending, LegFillStatus::Pending], leg, LegFillStatus::Filled);
    assert(s[leg as int] == LegFillStatus::Filled);
    let other: int = if leg == 0 { 1 } else { 0 };
    assert(s[other] == LegFillStatus::Pending);
}

/// A failed leg rules out a full fill.
pub proof fn lemma_failure_blocks_full_fill(legs: Seq<LegFillStatus>)
    requires
        any_failed(legs),
    ensures
        !all_filled(legs),
{
    let k = choose|k: int| 0 <= k < legs.len() && legs[k] == LegFillStatus::Failed;
    assert(legs[k] != LegFillStatus::Filled);
}

/// Setting a leg's status: that leg reads back the new status, every other
/// leg reads as before, and the number of legs stays the same.
pub proof fn lemma_set_leg_reads(legs: Seq<LegFillStatus>, leg: usize, s: LegFillStatus, j: int)
    requires
        0 <= j < legs.len(),
    ensures
        set_leg(legs, leg, s).len() == legs.len(),
        j == leg ==> set_leg(legs, leg, s)[j] == s,
        j != leg ==> set_leg(legs, leg, s)[j] == legs[j],
{
}

} // verus!
