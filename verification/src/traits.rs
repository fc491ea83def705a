use vstd::prelude::*;
use crate::types::{MessageHash, Outcome, ParaId, XcmMessage};
use crate::weight::Weight;

verus! {

/// The external collaborators the engine consumes, injected by its user: the
/// deferral classifier, the suspension-bypass rule, the weigher, and the
/// interpreter that actually executes a message. The first three are pure;
/// the interpreter may behave differently on every invocation, but never
/// consumes more than the ceiling it is given.
pub trait Collaborators: Sized {
    /// Whether the classifier marks a message from `origin` with this payload
    /// for deferral (for example, because it deposits assets into an account).
    spec fn classifier_matches(&self, origin: ParaId, data: Seq<u8>) -> bool;

    /// Whether an origin's batches bypass the ingress suspension gate.
    spec fn suspension_bypassed(&self, origin: ParaId) -> bool;

    /// The weigher's estimate for this payload; `None` when not computable.
    spec fn weight_of(&self, data: Seq<u8>) -> Option<Weight>;

    fn matches_deferral(&self, origin: ParaId, m: &XcmMessage) -> (r: bool)
        ensures
            r == self.classifier_matches(origin, m.data@),
    ;

    fn bypasses_suspension(&self, origin: ParaId) -> (r: bool)
        ensures
            r == self.suspension_bypassed(origin),
    ;

    fn estimate_weight(&self, m: &XcmMessage) -> (r: Option<Weight>)
        ensures
            r == self.weight_of(m.data@),
    ;

    /// Invoke the interpreter once on a message. Terminal: there is no
    /// automatic retry, whatever the outcome. The weight the outcome reports
    /// as consumed never exceeds `ceiling`, and an execution never changes
    /// what the pure collaborators (classifier, bypass rule, weigher) decide.
    fn execute(&mut self, origin: ParaId, m: &XcmMessage, hash: &MessageHash, ceiling: Weight)
        -> (o: Outcome)
        ensures
            o.spec_weight_used().spec_all_lte(ceiling),
            forall|p: ParaId, d: Seq<u8>|
                final(self).classifier_matches(p, d) == old(self).classifier_matches(p, d),
            forall|p: ParaId| final(self).suspension_bypassed(p) == old(self).suspension_bypassed(
                p,
            ),
            forall|d: Seq<u8>| final(self).weight_of(d) == old(self).weight_of(d),
    ;
}

} // verus!
