use vstd::prelude::*;
use crate::traits::Collaborators;
use crate::types::{ExecError, MessageHash, Outcome, ParaId, XcmMessage};
use crate::weight::Weight;

verus! {

/// Payload tag that marks an asset-depositing instruction in the fixture
/// messages below.
pub const ASSET_DEPOSIT_TAG: u8 = 1;

/// The number of instructions a worst-case fixture message carries.
pub const MAX_INSTRUCTIONS: usize = 100;

/// A worst-case classifier-matched message: the maximum number of
/// asset-depositing instructions.
pub fn construct_xcm() -> (m: XcmMessage)
    ensures
        m.data@.len() == MAX_INSTRUCTIONS,
        forall|k: int| 0 <= k < m.data@.len() ==> m.data@[k] == ASSET_DEPOSIT_TAG,
{
    let mut data: Vec<u8> = Vec::new();
    let mut i: usize = 0;
    while i < MAX_INSTRUCTIONS
        invariant
            i <= MAX_INSTRUCTIONS,
            data@.len() == i,
            forall|k: int| 0 <= k < i ==> data@[k] == ASSET_DEPOSIT_TAG,
        decreases MAX_INSTRUCTIONS - i,
    {
        data.push(ASSET_DEPOSIT_TAG);
        i = i + 1;
    }
    XcmMessage { data }
}

/// Errors an outbound sender can report.
#[derive(Clone, Copy, Debug, PartialEq, Eq, Structural)]
pub enum SendError {
    /// The destination is not served by this sender.
    NotApplicable,
    /// The transport failed with this code.
    Transport(u64),
}

/// A fixture sender that reports a fixed delivery hash and charges no
/// delivery assets; it stands in for the outbound transport in tests.
pub struct OkFixedXcmHashWithAssertingRequiredInputsSender;

impl OkFixedXcmHashWithAssertingRequiredInputsSender {
    /// The assets charged for one delivery: none.
    pub fn fixed_delivery_asset() -> (r: Vec<u64>)
        ensures
            r@.len() == 0,
    {
        Vec::new()
    }

    /// What a successful delivery through this sender reports: the fixed hash
    /// and the (empty) delivery assets.
    pub fn expected_delivery_result() -> (r: Result<(MessageHash, Vec<u64>), SendError>)
        ensures
            r matches Ok(p) && p.0@.len() == 32 && (forall|i: int| 0 <= i < 32 ==> p.0@[i] == 9)
                && p.1@.len() == 0,
    {
        let hash: MessageHash = [9u8; 32];
        Ok((hash, Vec::new()))
    }
}

/// A deterministic set of collaborators for tests: the classifier matches
/// payloads whose first byte is `deferral_tag`; origins below `bypass_below`
/// bypass suspension; the weigher reports one fixed estimate (or fails); the
/// interpreter consumes the estimate up to its ceiling (or fails with a fixed
/// code).
pub struct FixedCollaborators {
    pub deferral_tag: u8,
    pub bypass_below: ParaId,
    pub message_weight: Weight,
    pub weigh_fails: bool,
    pub fail_with: Option<u64>,
}

impl Collaborators for FixedCollaborators {
    open spec fn classifier_matches(&self, origin: ParaId, data: Seq<u8>) -> bool {
        data.len() > 0 && data[0] == self.deferral_tag
    }

    open spec fn suspension_bypassed(&self, origin: ParaId) -> bool {
        origin < self.bypass_below
    }

    open spec fn weight_of(&self, data: Seq<u8>) -> Option<Weight> {
        if self.weigh_fails {
            None
        } else {
            Some(self.message_weight)
        }
    }

    fn matches_deferral(&self, origin: ParaId, m: &XcmMessage) -> (r: bool) {
        m.data.len() > 0 && m.data[0] == self.deferral_tag
    }

    fn bypasses_suspension(&self, origin: ParaId) -> (r: bool) {
        origin < self.bypass_below
    }

    fn estimate_weight(&self, m: &XcmMessage) -> (r: Option<Weight>) {
        if self.weigh_fails {
            None
        } else {
            Some(self.message_weight)
        }
    }

    fn execute(&mut self, origin: ParaId, m: &XcmMessage, hash: &MessageHash, ceiling: Weight)
        -> (o: Outcome) {
        match self.fail_with {
            Option::Some(code) => Outcome::Incomplete(
                Weight::zero(),
                ExecError::Interpreter(code),
            ),
            Option::None => {
                let ref_time = if self.message_weight.ref_time <= ceiling.ref_time {
                    self.message_weight.ref_time
                } else {
                    ceiling.ref_time
                };
                let proof_size = if self.message_weight.proof_size <= ceiling.proof_size {
                    self.message_weight.proof_size
                } else {
                    ceiling.proof_size
                };
                Outcome::Complete(Weight { ref_time, proof_size })
            },
        }
    }
}

} // verus!
