use vstd::prelude::*;
use crate::weight::Weight;

verus! {

/// Identifier of the remote chain a message batch came from.
pub type ParaId = u32;

/// The external monotonic clock: deferral due-dates are computed and checked
/// against relay block numbers.
pub type RelayBlockNumber = u32;

/// Key of one bucket of deferred messages: the relay block the bucket becomes
/// due at, then a sequence number. Buckets are serviced in ascending order of
/// this pair.
pub type DeferredIndex = (RelayBlockNumber, u16);

/// Digest identifying a message: the 32-byte hash of its encoding.
pub type MessageHash = [u8; 32];

/// An opaque cross-chain message payload. The engine transports it and lets
/// the injected classifier, weigher and interpreter look inside; it never
/// interprets the bytes itself.
#[derive(Debug, PartialEq, Eq)]
pub struct XcmMessage {
    pub data: Vec<u8>,
}

impl Clone for XcmMessage {
    fn clone(&self) -> (r: Self)
        ensures
            r.data@ == self.data@,
    {
        let mut data: Vec<u8> = Vec::new();
        let mut i: usize = 0;
        while i < self.data.len()
            invariant
                i <= self.data.len(),
                data@ == self.data@.take(i as int),
            decreases self.data.len() - i,
        {
            data.push(self.data[i]);
            i = i + 1;
        }
        proof {
            assert(data@ == self.data@);
        }
        XcmMessage { data }
    }
}

/// A message admitted by the deferral policy, waiting in a bucket until its
/// `deferred_to` block. Immutable once created.
#[derive(Debug, PartialEq, Eq)]
pub struct DeferredMessage {
    pub sent_at: RelayBlockNumber,
    pub deferred_to: RelayBlockNumber,
    pub sender: ParaId,
    pub xcm: XcmMessage,
}

impl Clone for DeferredMessage {
    fn clone(&self) -> (r: Self)
        ensures
            r.sent_at == self.sent_at,
            r.deferred_to == self.deferred_to,
            r.sender == self.sender,
            r.xcm.data@ == self.xcm.data@,
    {
        DeferredMessage {
            sent_at: self.sent_at,
            deferred_to: self.deferred_to,
            sender: self.sender,
            xcm: self.xcm.clone(),
        }
    }
}

/// A message diverted because its estimated weight exceeded the per-message
/// ceiling; it waits, encoded, for an explicit operator-triggered retry.
#[derive(Debug, PartialEq, Eq)]
pub struct OverweightEntry {
    /// Monotonically assigned, never reused.
    pub index: u64,
    pub sender: ParaId,
    pub sent_at: RelayBlockNumber,
    /// The message, in the engine's wire encoding.
    pub encoded: Vec<u8>,
}

/// Numeric policy knobs of the queue, adjusted one at a time by privileged
/// calls.
#[derive(Clone, Copy, Debug, PartialEq, Eq, Structural)]
pub struct QueueConfigData {
    /// Held inbound pages per origin at which the sender should be told to
    /// suspend (signalling is outside this engine; the knob is kept and
    /// updatable).
    pub suspend_threshold: u32,
    /// Held inbound pages per origin beyond which further pages are dropped.
    pub drop_threshold: u32,
    /// Held inbound pages per origin at which the sender may resume
    /// (signalling is outside this engine; the knob is kept and updatable).
    pub resume_threshold: u32,
    /// Weight reserved before inbound servicing is considered worthwhile
    /// (tunes a servicing path outside this engine; kept and updatable).
    pub threshold_weight: Weight,
    /// Divisor decaying the weight available to repeated inbound servicing
    /// (tunes a servicing path outside this engine; kept and updatable).
    pub weight_restrict_decay: Weight,
    /// The per-message execution ceiling: a message estimated above it is
    /// never executed, only diverted to the overweight store.
    pub xcmp_max_individual_weight: Weight,
}

/// One relay-time-millisecond of computation, in weight units.
pub const WEIGHT_REF_TIME_PER_MILLIS: u64 = 1_000_000_000;

/// Default proof-size allowance of the per-message ceiling.
pub const DEFAULT_POV_SIZE: u64 = 64 * 1024;

/// The configuration a fresh queue starts from.
pub open spec fn spec_default_config() -> QueueConfigData {
    QueueConfigData {
        suspend_threshold: 2,
        drop_threshold: 5,
        resume_threshold: 1,
        threshold_weight: Weight { ref_time: 100_000, proof_size: 0 },
        weight_restrict_decay: Weight { ref_time: 2, proof_size: 0 },
        xcmp_max_individual_weight: Weight {
            ref_time: (20u64 * WEIGHT_REF_TIME_PER_MILLIS) as u64,
            proof_size: DEFAULT_POV_SIZE,
        },
    }
}

impl Default for QueueConfigData {
    fn default() -> (c: QueueConfigData)
        ensures
            c == spec_default_config(),
    {
        QueueConfigData {
            suspend_threshold: 2,
            drop_threshold: 5,
            resume_threshold: 1,
            threshold_weight: Weight { ref_time: 100_000, proof_size: 0 },
            weight_restrict_decay: Weight { ref_time: 2, proof_size: 0 },
            xcmp_max_individual_weight: Weight {
                ref_time: 20 * WEIGHT_REF_TIME_PER_MILLIS,
                proof_size: DEFAULT_POV_SIZE,
            },
        }
    }
}

/// The caller of a privileged operation.
#[derive(Clone, Copy, Debug, PartialEq, Eq, Structural)]
pub enum Caller {
    /// The privileged origin; the only one allowed to administer the queue.
    Root,
    /// An ordinary signed account.
    Signed(u64),
}

/// Errors surfaced by the privileged operations.
#[derive(Clone, Copy, Debug, PartialEq, Eq, Structural)]
pub enum Error {
    /// The caller is not privileged; nothing was mutated.
    BadOrigin,
    /// No overweight entry exists under the given index.
    BadOverweightIndex,
    /// Stored bytes do not decode to a message.
    BadXcm,
    /// The message's estimated weight exceeds the supplied limit.
    WeightOverLimit,
    /// The origin's index set is full and no existing bucket has room.
    DeferredQueueFull,
}

/// Why processing of one channel's batch stopped early. Other channels of the
/// same call continue normally.
#[derive(Clone, Copy, Debug, PartialEq, Eq, Structural)]
pub enum ChannelError {
    /// The batch bytes do not decode: the unparseable remainder is discarded.
    Malformed,
    /// The batch is a structurally valid blob batch, which this engine cannot
    /// interpret yet; it is rejected, not treated as fatal.
    BlobsNotHandled,
    /// A deferred placement failed because the origin's index set is full and
    /// no existing bucket has room.
    DeferredQueueFull,
    /// The remaining batch bytes were held back because the weight budget
    /// cannot cover the next message.
    WeightExhausted,
}

/// Error reported by the interpreter or the weigher for one message.
#[derive(Clone, Copy, Debug, PartialEq, Eq, Structural)]
pub enum ExecError {
    /// The weigher could not estimate the message's weight.
    WeightNotComputable,
    /// An interpreter-reported failure code.
    Interpreter(u64),
}

/// Result of one interpreter invocation. The invocation is terminal either
/// way: there is no automatic retry.
#[derive(Clone, Copy, Debug, PartialEq, Eq, Structural)]
pub enum Outcome {
    /// The message was fully executed.
    Complete(Weight),
    /// The message was partially executed; the weight is accounted anyway.
    Incomplete(Weight, ExecError),
    /// The interpreter refused the message outright; no weight was consumed.
    Refused(ExecError),
}

impl Outcome {
    /// The weight the invocation consumed.
    pub open spec fn spec_weight_used(self) -> Weight {
        match self {
            Outcome::Complete(w) => w,
            Outcome::Incomplete(w, _) => w,
            Outcome::Refused(_) => Weight { ref_time: 0, proof_size: 0 },
        }
    }

    pub fn weight_used(&self) -> (w: Weight)
        ensures
            w == self.spec_weight_used(),
    {
        match self {
            Outcome::Complete(w) => *w,
            Outcome::Incomplete(w, _) => *w,
            Outcome::Refused(_) => Weight { ref_time: 0, proof_size: 0 },
        }
    }
}

/// What the deferral policy decides for one inbound message.
#[derive(Clone, Copy, Debug, PartialEq, Eq, Structural)]
pub enum Decision {
    /// Execute immediately, within this call.
    Execute,
    /// Hold the message in a bucket until the given relay block.
    DeferUntil(RelayBlockNumber),
}

/// What one ingress call did: the total weight consumed and the per-channel
/// errors. A channel without an error entry was processed to completion.
#[derive(Debug, PartialEq, Eq)]
pub struct IngressOutcome {
    pub weight_used: Weight,
    pub errors: Vec<(ParaId, ChannelError)>,
}

/// Events the engine records; every replica replaying the same inputs records
/// the same sequence.
#[derive(Debug, PartialEq, Eq)]
pub enum Event {
    /// A message was admitted to the deferred store.
    XcmDeferred {
        sender: ParaId,
        sent_at: RelayBlockNumber,
        deferred_to: RelayBlockNumber,
        index: DeferredIndex,
        position: usize,
        message_hash: Option<MessageHash>,
    },
    /// A message was executed to completion.
    Success { message_hash: MessageHash, message_id: MessageHash, weight: Weight },
    /// A message's execution failed; the message is consumed regardless.
    Fail { message_hash: MessageHash, error: ExecError },
    /// A message was diverted to the overweight store under this index.
    OverweightEnqueued { index: u64 },
}

} // verus!
