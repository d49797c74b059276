use vstd::prelude::*;

use crate::order::{precedes, DocAddress, Policy, Score, ScoredDoc};

verus! {

/// A per-segment predicate deciding whether a candidate document is
/// considered at all.
pub trait CheckCondition {
    /// The answer for a document: a condition depends on its arguments only.
    spec fn spec_check(&self, segment_id: u32, doc_id: u32, score: Score) -> bool;

    fn check(&self, segment_id: u32, doc_id: u32, score: Score) -> (r: bool)
        ensures
            r == self.spec_check(segment_id, doc_id, score),
    ;
}

/// Builds the condition for each segment of a search.
pub trait ConditionForSegment {
    type Type: CheckCondition;

    /// The condition built for segment `segment_id`.
    spec fn spec_for_segment(&self, segment_id: u32) -> Self::Type;

    fn for_segment(&self, segment_id: u32) -> (r: Self::Type)
        ensures
            r == self.spec_for_segment(segment_id),
    ;
}

/// A constant: `true` accepts every document, `false` none.
impl CheckCondition for bool {
    open spec fn spec_check(&self, segment_id: u32, doc_id: u32, score: Score) -> bool {
        *self
    }

    fn check(&self, segment_id: u32, doc_id: u32, score: Score) -> bool {
        *self
    }
}

impl ConditionForSegment for bool {
    type Type = bool;

    open spec fn spec_for_segment(&self, segment_id: u32) -> bool {
        *self
    }

    fn for_segment(&self, segment_id: u32) -> bool {
        *self
    }
}

/// Keeps only the documents that rank strictly after a marker, the last
/// entry of a previous page, so that the next page starts right after it.
#[derive(Clone, Copy, Debug)]
pub struct ResumeAfter {
    pub policy: Policy,
    pub marker: ScoredDoc,
}

impl ResumeAfter {
    pub fn new(policy: Policy, score: Score, address: DocAddress) -> (r: ResumeAfter)
        ensures
            r.policy == policy,
            r.marker == (score, address),
    {
        ResumeAfter { policy, marker: (score, address) }
    }

    /// Whether the document ranks strictly after the marker.
    pub fn accepts(&self, segment_id: u32, doc_id: u32, score: Score) -> (r: bool)
        ensures
            r == precedes(
                self.policy,
                self.marker,
                (score, DocAddress { segment_id, doc_id }),
            ),
    {
        let candidate: ScoredDoc = (score, DocAddress { segment_id, doc_id });
        self.policy.precedes(&self.marker, &candidate)
    }
}

impl CheckCondition for ResumeAfter {
    open spec fn spec_check(&self, segment_id: u32, doc_id: u32, score: Score) -> bool {
        precedes(self.policy, self.marker, (score, DocAddress { segment_id, doc_id }))
    }

    fn check(&self, segment_id: u32, doc_id: u32, score: Score) -> bool {
        self.accepts(segment_id, doc_id, score)
    }
}

impl ConditionForSegment for ResumeAfter {
    type Type = ResumeAfter;

    open spec fn spec_for_segment(&self, segment_id: u32) -> ResumeAfter {
        *self
    }

    fn for_segment(&self, segment_id: u32) -> ResumeAfter {
        ResumeAfter { policy: self.policy, marker: self.marker }
    }
}

} // verus!
