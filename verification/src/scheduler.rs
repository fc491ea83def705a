use vstd::prelude::*;
use crate::codec::{encode_message, spec_encode_message};
use crate::hashing::{blake2_256, blake2_256_of};
use crate::queue::{Bucket, Queue};
use crate::traits::Collaborators;
use crate::types::{
    Caller, DeferredIndex, DeferredMessage, Error, Event, ExecError, MessageHash, Outcome,
    OverweightEntry, ParaId, RelayBlockNumber, XcmMessage,
};
use crate::weight::Weight;

verus! {

/// No deferred message anywhere in `q` is due at block `now`.
pub open spec fn no_due(q: Queue, now: RelayBlockNumber) -> bool {
    forall|i: int, k: int|
        0 <= i < q.origins@.len() && 0 <= k < q.origins@[i].indices@.len()
            ==> (#[trigger] q.origins@[i].indices@[k]).0 > now
}

/// The scheduler only ever retires whole buckets from the front of an
/// origin's index set: what remains is a suffix of what was there, in the
/// same order.
pub open spec fn indices_suffix(pre: Seq<DeferredIndex>, post: Seq<DeferredIndex>) -> bool {
    exists|k: int| 0 <= k <= pre.len() && post == pre.skip(k)
}

/// Everything the scheduler never touches: held pages, configuration, flags,
/// the override, and the policy parameters.
pub open spec fn scheduler_frame(pre: Queue, post: Queue) -> bool {
    &&& post.inbound@ == pre.inbound@
    &&& post.config == pre.config
    &&& post.queue_suspended == pre.queue_suspended
    &&& post.deferred_suspended == pre.deferred_suspended
    &&& post.defer_all_by == pre.defer_all_by
    &&& post.defer_duration == pre.defer_duration
    &&& post.max_messages_per_bucket == pre.max_messages_per_bucket
    &&& post.max_buckets_per_origin == pre.max_buckets_per_origin
    &&& post.max_buckets_processed == pre.max_buckets_processed
}

/// The event one interpreter invocation records: a success event carrying the
/// message's hash (as both hash and identifier) and the consumed weight, or a
/// failure event carrying the hash and the reported error.
pub open spec fn records_outcome(e: Event, h: Seq<u8>, o: Outcome) -> bool {
    match (e, o) {
        (
            Event::Success { message_hash, message_id, weight },
            Outcome::Complete(w),
        ) => message_hash@ == h && message_id@ == h && weight == w,
        (Event::Fail { message_hash, error }, Outcome::Incomplete(w, e2)) => message_hash@ == h
            && error == e2,
        (Event::Fail { message_hash, error }, Outcome::Refused(e2)) => message_hash@ == h && error
            == e2,
        _ => false,
    }
}

/// Number of messages stored in a bucket's slots.
pub open spec fn bucket_messages(b: Seq<Option<DeferredMessage>>) -> int
    decreases b.len(),
{
    if b.len() == 0 {
        0
    } else {
        bucket_messages(b.drop_last()) + if b.last() is Some {
            1int
        } else {
            0int
        }
    }
}

/// The overweight store holds an entry with exactly this provenance and
/// encoded message.
pub open spec fn overweight_holds(
    entries: Seq<OverweightEntry>,
    sender: ParaId,
    sent_at: RelayBlockNumber,
    encoded: Seq<u8>,
) -> bool {
    exists|i: int|
        0 <= i < entries.len() && entries[i].sender == sender && entries[i].sent_at == sent_at
            && entries[i].encoded@ == encoded
}

/// What servicing one bucket did, up to the boundary `k`: every stored
/// message before `k` was consumed (its slot cleared), the ones whose
/// estimate exceeds the ceiling leaving an overweight entry behind; every
/// slot from `k` on is untouched. Without a halt `k` covers the whole
/// bucket; a halt stops exactly at a message the budget cannot cover (or,
/// with the index space exhausted, at one that needs diverting).
pub open spec fn bucket_serviced<C: Collaborators>(
    pre_bucket: Seq<Option<DeferredMessage>>,
    post_bucket: Seq<Option<DeferredMessage>>,
    post_overweight: Seq<OverweightEntry>,
    c: C,
    origin: ParaId,
    max_individual: Weight,
    halted: bool,
    post_remaining: Weight,
    next_ow: u64,
    k: int,
) -> bool {
    &&& 0 <= k <= pre_bucket.len()
    &&& (!halted ==> k == pre_bucket.len())
    &&& (halted ==> k < pre_bucket.len() && (pre_bucket[k] matches Some(m) && (c.weight_of(
        m.xcm.data@,
    ) matches Some(w) && ((!w.spec_any_gt(max_individual) && w.spec_any_gt(post_remaining)) || (
    w.spec_any_gt(max_individual) && next_ow == u64::MAX)))))
    &&& forall|s: int| k <= s < pre_bucket.len() ==> post_bucket[s] == pre_bucket[s]
    &&& forall|s: int|
        0 <= s < k ==> ((#[trigger] pre_bucket[s]) matches Some(m) ==> (post_bucket[s] is None
            && (c.weight_of(m.xcm.data@) matches Some(w) && w.spec_any_gt(max_individual)
            ==> overweight_holds(
            post_overweight,
            origin,
            m.sent_at,
            spec_encode_message(m.xcm.data@),
        ))))
}

/// Counting messages distributes over a cut of the bucket.
pub proof fn lemma_bucket_messages_split(b: Seq<Option<DeferredMessage>>, s: int)
    requires
        0 <= s <= b.len(),
    ensures
        bucket_messages(b) == bucket_messages(b.take(s)) + bucket_messages(b.skip(s)),
    decreases b.len() - s,
{
    if s == b.len() {
        assert(b.take(s) =~= b);
        assert(b.skip(s) =~= Seq::<Option<DeferredMessage>>::empty());
    } else {
        lemma_bucket_messages_split(b, s + 1);
        assert(b.take(s + 1).drop_last() =~= b.take(s));
        assert(b.take(s + 1).last() == b[s]);
        assert(bucket_messages(b.take(s + 1)) == bucket_messages(b.take(s)) + (
        if b[s] is Some {
            1int
        } else {
            0int
        }));
        assert(b.skip(s) =~= seq![b[s]] + b.skip(s + 1));
        lemma_bucket_messages_cons(b[s], b.skip(s + 1));
    }
}

/// Counting messages of a sequence with one slot in front.
pub proof fn lemma_bucket_messages_cons(x: Option<DeferredMessage>, rest: Seq<Option<DeferredMessage>>)
    ensures
        bucket_messages(seq![x] + rest) == bucket_messages(rest) + (
        if x is Some {
            1int
        } else {
            0int
        }),
    decreases rest.len(),
{
    if rest.len() == 0 {
        assert((seq![x] + rest) =~= seq![x]);
        assert(seq![x].drop_last() =~= Seq::<Option<DeferredMessage>>::empty());
        assert(seq![x].last() == x);
        assert(bucket_messages(Seq::<Option<DeferredMessage>>::empty()) == 0);
        assert(bucket_messages(rest) == 0);
        assert(bucket_messages(seq![x]) == bucket_messages(seq![x].drop_last()) + (
        if seq![x].last() is Some {
            1int
        } else {
            0int
        }));
    } else {
        assert((seq![x] + rest).drop_last() =~= seq![x] + rest.drop_last());
        assert((seq![x] + rest).last() == rest.last());
        lemma_bucket_messages_cons(x, rest.drop_last());
        assert(bucket_messages(seq![x] + rest) == bucket_messages(seq![x] + rest.drop_last()) + (
        if rest.last() is Some {
            1int
        } else {
            0int
        }));
        assert(bucket_messages(rest) == bucket_messages(rest.drop_last()) + (
        if rest.last() is Some {
            1int
        } else {
            0int
        }));
    }
}


/// Number of messages stored across an origin's buckets.
pub open spec fn origin_messages(buckets: Seq<Bucket>) -> int
    decreases buckets.len(),
{
    if buckets.len() == 0 {
        0
    } else {
        bucket_messages(buckets[0]@) + origin_messages(buckets.skip(1))
    }
}

/// Number of messages stored across the whole deferred store.
pub open spec fn stored_messages(origins: Seq<crate::queue::OriginState>) -> int
    decreases origins.len(),
{
    if origins.len() == 0 {
        0
    } else {
        origin_messages(origins[0].buckets@) + stored_messages(origins.skip(1))
    }
}

/// A due message remains that this call was not allowed to take: its estimate
/// fits the ceiling but not the unspent budget, or it needs diverting while
/// the overweight index space is exhausted.
pub open spec fn origin_blocked<C: Collaborators>(
    o: crate::queue::OriginState,
    c: C,
    now: RelayBlockNumber,
    max_individual: Weight,
    unspent: Weight,
    next_ow: u64,
) -> bool {
    exists|j: int, s: int|
        {
            &&& 0 <= j < o.indices@.len()
            &&& o.indices@[j].0 <= now
            &&& 0 <= s < o.buckets@[j]@.len()
            &&& ((#[trigger] o.buckets@[j]@[s]) matches Some(m) && (c.weight_of(m.xcm.data@)
                matches Some(w) && ((!w.spec_any_gt(max_individual) && w.spec_any_gt(unspent))
                || (w.spec_any_gt(max_individual) && next_ow == u64::MAX))))
        }
}

/// A bucket with every slot cleared stores nothing.
pub proof fn lemma_bucket_messages_zero(b: Seq<Option<DeferredMessage>>)
    requires
        forall|s: int| 0 <= s < b.len() ==> b[s] is None,
    ensures
        bucket_messages(b) == 0,
    decreases b.len(),
{
    if b.len() > 0 {
        lemma_bucket_messages_zero(b.drop_last());
    }
}

/// Replacing one origin's state shifts the stored total by that origin's
/// difference alone.
pub proof fn lemma_stored_update(os: Seq<crate::queue::OriginState>, io: int, o2: crate::queue::OriginState)
    requires
        0 <= io < os.len(),
    ensures
        stored_messages(os.update(io, o2)) == stored_messages(os) - origin_messages(
            os[io].buckets@,
        ) + origin_messages(o2.buckets@),
    decreases io,
{
    let os2 = os.update(io, o2);
    if io == 0 {
        assert(os2[0] == o2);
        assert(os2.skip(1) =~= os.skip(1));
    } else {
        assert(os2[0] == os[0]);
        assert(os2.skip(1) =~= os.skip(1).update(io - 1, o2));
        lemma_stored_update(os.skip(1), io - 1, o2);
        assert(os.skip(1)[io - 1] == os[io]);
    }
}

/// Replacing one slot shifts a bucket's count by that slot's difference.
pub proof fn lemma_bucket_messages_update(
    b: Seq<Option<DeferredMessage>>,
    pos: int,
    v: Option<DeferredMessage>,
)
    requires
        0 <= pos < b.len(),
    ensures
        bucket_messages(b.update(pos, v)) == bucket_messages(b) - (
        if b[pos] is Some {
            1int
        } else {
            0int
        }) + (
        if v is Some {
            1int
        } else {
            0int
        }),
    decreases b.len(),
{
    let b2 = b.update(pos, v);
    if pos == b.len() - 1 {
        assert(b2.drop_last() =~= b.drop_last());
        assert(b2.last() == v);
        assert(b.last() == b[pos]);
    } else {
        assert(b2.drop_last() =~= b.drop_last().update(pos, v));
        assert(b2.last() == b.last());
        lemma_bucket_messages_update(b.drop_last(), pos, v);
        assert(b.drop_last()[pos] == b[pos]);
    }
}

/// Appending a slot adds its count.
pub proof fn lemma_bucket_messages_push(b: Seq<Option<DeferredMessage>>, v: Option<DeferredMessage>)
    ensures
        bucket_messages(b.push(v)) == bucket_messages(b) + (
        if v is Some {
            1int
        } else {
            0int
        }),
{
    assert(b.push(v).drop_last() =~= b);
    assert(b.push(v).last() == v);
}

/// Replacing one bucket shifts an origin's count by that bucket's difference.
pub proof fn lemma_origin_messages_update(buckets: Seq<Bucket>, j: int, b2: Bucket)
    requires
        0 <= j < buckets.len(),
    ensures
        origin_messages(buckets.update(j, b2)) == origin_messages(buckets) - bucket_messages(
            buckets[j]@,
        ) + bucket_messages(b2@),
    decreases j,
{
    let bs2 = buckets.update(j, b2);
    if j == 0 {
        assert(bs2[0] == b2);
        assert(bs2.skip(1) =~= buckets.skip(1));
    } else {
        assert(bs2[0] == buckets[0]);
        assert(bs2.skip(1) =~= buckets.skip(1).update(j - 1, b2));
        lemma_origin_messages_update(buckets.skip(1), j - 1, b2);
        assert(buckets.skip(1)[j - 1] == buckets[j]);
    }
}

/// Inserting a bucket adds its count.
pub proof fn lemma_origin_messages_insert(buckets: Seq<Bucket>, p: int, b: Bucket)
    requires
        0 <= p <= buckets.len(),
    ensures
        origin_messages(buckets.insert(p, b)) == origin_messages(buckets) + bucket_messages(b@),
    decreases p,
{
    let bs2 = buckets.insert(p, b);
    if p == 0 {
        assert(bs2[0] == b);
        assert(bs2.skip(1) =~= buckets);
    } else {
        assert(bs2[0] == buckets[0]);
        assert(bs2.skip(1) =~= buckets.skip(1).insert(p - 1, b));
        lemma_origin_messages_insert(buckets.skip(1), p - 1, b);
    }
}

/// Adding an origin adds its count.
pub proof fn lemma_stored_messages_push(os: Seq<crate::queue::OriginState>, o: crate::queue::OriginState)
    ensures
        stored_messages(os.push(o)) == stored_messages(os) + origin_messages(o.buckets@),
    decreases os.len(),
{
    let os2 = os.push(o);
    assert(os2.len() == os.len() + 1);
    assert(stored_messages(os2) == origin_messages(os2[0].buckets@) + stored_messages(
        os2.skip(1),
    ));
    if os.len() == 0 {
        assert(os2[0] == o);
        assert(os2.skip(1) =~= Seq::<crate::queue::OriginState>::empty());
        assert(stored_messages(os2.skip(1)) == 0);
        assert(stored_messages(os) == 0);
    } else {
        assert(os2[0] == os[0]);
        assert(os2.skip(1) =~= os.skip(1).push(o));
        lemma_stored_messages_push(os.skip(1), o);
        assert(stored_messages(os) == origin_messages(os[0].buckets@) + stored_messages(
            os.skip(1),
        ));
    }
}

/// Number of overweight-enqueued events in a log.
pub open spec fn count_ow_events(events: Seq<Event>) -> int
    decreases events.len(),
{
    if events.len() == 0 {
        0
    } else {
        count_ow_events(events.drop_last()) + if events.last() is OverweightEnqueued {
            1int
        } else {
            0int
        }
    }
}

/// An entry under this index is stored.
pub open spec fn overweight_index_present(entries: Seq<OverweightEntry>, idx: u64) -> bool {
    exists|i: int| 0 <= i < entries.len() && entries[i].index == idx
}

/// What one appended scheduler event may be: a diversion record carrying the
/// index of an entry assigned in this call, or an execution record (the
/// scheduler never defers).
pub open spec fn scheduler_event_shape(
    e: Event,
    entries: Seq<OverweightEntry>,
    next_pre: u64,
    next_post: u64,
) -> bool {
    match e {
        Event::OverweightEnqueued { index } => next_pre <= index < next_post
            && overweight_index_present(entries, index),
        Event::Success { message_hash, message_id, weight } => message_id@ == message_hash@,
        Event::Fail { message_hash, error } => true,
        Event::XcmDeferred { .. } => false,
    }
}

/// Appending one event shifts the diversion count by whether it is one.
pub proof fn lemma_count_ow_push(events: Seq<Event>, e: Event)
    ensures
        count_ow_events(events.push(e)) == count_ow_events(events) + (
        if e is OverweightEnqueued {
            1int
        } else {
            0int
        }),
{
    assert(events.push(e).drop_last() =~= events);
    assert(events.push(e).last() == e);
}

/// An appended-event shape survives later appends and wider index ranges.
pub proof fn lemma_shape_persists(
    e: Event,
    entries1: Seq<OverweightEntry>,
    entries2: Seq<OverweightEntry>,
    pre1: u64,
    post1: u64,
    pre2: u64,
    post2: u64,
)
    requires
        scheduler_event_shape(e, entries1, pre1, post1),
        entries1.is_prefix_of(entries2),
        pre2 <= pre1,
        post1 <= post2,
    ensures
        scheduler_event_shape(e, entries2, pre2, post2),
{
    if e is OverweightEnqueued {
        let idx = e->OverweightEnqueued_index;
        let iw = choose|iw: int| 0 <= iw < entries1.len() && entries1[iw].index == idx;
        assert(entries2[iw] == entries1[iw]);
    }
}

/// Whether servicing is blocked depends on the weigher alone, so two
/// collaborator states that weigh alike agree on it.
pub proof fn lemma_origin_blocked_weigher<C: Collaborators>(
    o: crate::queue::OriginState,
    c1: C,
    c2: C,
    now: RelayBlockNumber,
    max_individual: Weight,
    unspent: Weight,
    next_ow: u64,
)
    requires
        origin_blocked(o, c1, now, max_individual, unspent, next_ow),
        forall|d: Seq<u8>| c1.weight_of(d) == c2.weight_of(d),
    ensures
        origin_blocked(o, c2, now, max_individual, unspent, next_ow),
{
    let (j, ss) = choose|j: int, ss: int|
        {
            &&& 0 <= j < o.indices@.len()
            &&& o.indices@[j].0 <= now
            &&& 0 <= ss < o.buckets@[j]@.len()
            &&& ((#[trigger] o.buckets@[j]@[ss]) matches Some(m) && (c1.weight_of(m.xcm.data@)
                matches Some(w) && ((!w.spec_any_gt(max_individual) && w.spec_any_gt(unspent))
                || (w.spec_any_gt(max_individual) && next_ow == u64::MAX))))
        };
    assert(o.buckets@[j]@[ss] is Some);
    let m = o.buckets@[j]@[ss]->0;
    assert(c2.weight_of(m.xcm.data@) == c1.weight_of(m.xcm.data@));
}

/// Some origin still holds a due message this call was not allowed to take.
pub open spec fn service_blocked<C: Collaborators>(
    q: Queue,
    c: C,
    now: RelayBlockNumber,
    max_individual: Weight,
    unspent: Weight,
) -> bool {
    exists|i: int|
        0 <= i < q.origins@.len() && #[trigger] origin_blocked(
            q.origins@[i],
            c,
            now,
            max_individual,
            unspent,
            q.next_overweight_index,
        )
}

/// Some origin had at least the per-call cap's worth of due buckets retired
/// and still has a due one at its front.
pub open spec fn cap_stopped(pre: Queue, post: Queue, now: RelayBlockNumber, cap: int) -> bool {
    exists|i: int, k: int|
        {
            &&& 0 <= i < pre.origins@.len()
            &&& i < post.origins@.len()
            &&& cap <= k <= pre.origins@[i].indices@.len()
            &&& post.origins@[i].indices@ == #[trigger] pre.origins@[i].indices@.skip(k)
            &&& post.origins@[i].indices@.len() > 0
            &&& post.origins@[i].indices@[0].0 <= now
        }
}

impl Queue {
    /// Hash of a message, as carried in events and used as its identifier.
    pub fn hash_of_message(m: &XcmMessage) -> (r: MessageHash)
        requires
            m.data@.len() <= u32::MAX,
        ensures
            r@ == blake2_256_of(spec_encode_message(m.data@)),
    {
        let encoded = encode_message(m);
        blake2_256(encoded.as_slice())
    }

    /// Invokes the interpreter once on a message whose estimated weight `est`
    /// already fits the ceiling, records exactly one success or failure event,
    /// and returns the weight consumed, which never exceeds `est`.
    pub(crate) fn execute_message<C: Collaborators>(
        &mut self,
        c: &mut C,
        origin: ParaId,
        m: &XcmMessage,
        est: Weight,
    ) -> (used: Weight)
        requires
            old(self).wf(),
            m.data@.len() <= u32::MAX,
        ensures
            final(self).wf(),
            used.spec_all_lte(est),
            final(self).origins@ == old(self).origins@,
            final(self).overweight@ == old(self).overweight@,
            final(self).next_overweight_index == old(self).next_overweight_index,
            final(self).events@.len() == old(self).events@.len() + 1,
            old(self).events@.is_prefix_of(final(self).events@),
            exists|o: Outcome|
                used == o.spec_weight_used() && #[trigger] records_outcome(
                    final(self).events@.last(),
                    blake2_256_of(spec_encode_message(m.data@)),
                    o,
                ),
            forall|p: ParaId, d: Seq<u8>|
                final(c).classifier_matches(p, d) == old(c).classifier_matches(p, d),
            forall|p: ParaId|
                final(c).suspension_bypassed(p) == old(c).suspension_bypassed(p),
            forall|d: Seq<u8>| final(c).weight_of(d) == old(c).weight_of(d),
            scheduler_frame(*old(self), *final(self)),
    {
        let hash = Self::hash_of_message(m);
        let outcome = c.execute(origin, m, &hash, est);
        let ghost pre_events = self.events@;
        let used = match outcome {
            Outcome::Complete(w) => {
                self.events.push(Event::Success { message_hash: hash, message_id: hash, weight: w });
                w
            },
            Outcome::Incomplete(w, e) => {
                self.events.push(Event::Fail { message_hash: hash, error: e });
                w
            },
            Outcome::Refused(e) => {
                self.events.push(Event::Fail { message_hash: hash, error: e });
                Weight::zero()
            },
        };
        proof {
            assert(pre_events.is_prefix_of(self.events@)) by {
                assert(pre_events =~= self.events@.subrange(0, pre_events.len() as int));
            }
            assert(records_outcome(
                self.events@.last(),
                blake2_256_of(spec_encode_message(m.data@)),
                outcome,
            ));
        }
        used
    }

    /// Services the slots of one due bucket, left to right: a cleared slot is
    /// skipped; an overweight message is diverted to the overweight store and
    /// its slot cleared; an unweighable message is consumed with a failure
    /// event; otherwise the message executes and its consumed weight is
    /// debited — unless the remaining budget cannot cover its estimate, in
    /// which case servicing halts with that slot and everything after it
    /// untouched.
    fn service_bucket_slots<C: Collaborators>(
        &mut self,
        c: &mut C,
        origin: ParaId,
        bucket: &mut Bucket,
        remaining: &mut Weight,
        max_individual: Weight,
    ) -> (halted: bool)
        requires
            old(self).wf(),
            forall|s: int|
                0 <= s < old(bucket)@.len() ==> ((#[trigger] old(bucket)@[s]) matches Some(m)
                    ==> m.xcm.data@.len() <= u32::MAX),
        ensures
            final(self).wf(),
            final(remaining).spec_all_lte(*old(remaining)),
            final(self).origins@ == old(self).origins@,
            old(self).overweight@.is_prefix_of(final(self).overweight@),
            final(self).next_overweight_index >= old(self).next_overweight_index,
            old(self).events@.is_prefix_of(final(self).events@),
            scheduler_frame(*old(self), *final(self)),
            final(bucket)@.len() == old(bucket)@.len(),
            forall|s: int|
                0 <= s < old(bucket)@.len() ==> final(bucket)@[s] is None || final(bucket)@[s]
                    == old(bucket)@[s],
            // Exactly one event is recorded for every message consumed; one
            // overweight entry and one index are assigned per diversion; every
            // appended event is a diversion or execution record.
            final(self).events@.len() + bucket_messages(final(bucket)@) == old(self).events@.len()
                + bucket_messages(old(bucket)@),
            final(self).overweight@.len() - old(self).overweight@.len() == count_ow_events(
                final(self).events@,
            ) - count_ow_events(old(self).events@),
            final(self).next_overweight_index - old(self).next_overweight_index == final(self).overweight@.len() - old(self).overweight@.len(),
            forall|j: int|
                old(self).events@.len() <= j < final(self).events@.len()
                    ==> scheduler_event_shape(
                    #[trigger] final(self).events@[j],
                    final(self).overweight@,
                    old(self).next_overweight_index,
                    final(self).next_overweight_index,
                ),
            // The pure collaborators decide the same afterwards.
            forall|d: Seq<u8>| final(c).weight_of(d) == old(c).weight_of(d),
            forall|p: ParaId, d: Seq<u8>|
                final(c).classifier_matches(p, d) == old(c).classifier_matches(p, d),
            forall|p: ParaId| final(c).suspension_bypassed(p) == old(c).suspension_bypassed(p),
            // Slots before the stopping point are consumed (overweight ones
            // leaving an entry); slots from it on are untouched; a halt stops
            // exactly at a message the budget or index space cannot take.
            exists|k: int|
                #[trigger] bucket_serviced(
                    old(bucket)@,
                    final(bucket)@,
                    final(self).overweight@,
                    *old(c),
                    origin,
                    max_individual,
                    halted,
                    *final(remaining),
                    final(self).next_overweight_index,
                    k,
                ),
    {
        let mut s: usize = 0;
        let ghost pre = *self;
        let ghost pre_budget = *remaining;
        while s < bucket.len()
            invariant
                pre == *old(self),
                pre_budget == *old(remaining),
                self.wf(),
                remaining.spec_all_lte(pre_budget),
                self.origins@ == pre.origins@,
                pre.overweight@.is_prefix_of(self.overweight@),
                self.next_overweight_index >= pre.next_overweight_index,
                pre.events@.is_prefix_of(self.events@),
                scheduler_frame(pre, *self),
                s <= bucket@.len(),
                bucket@.len() == old(bucket)@.len(),
                forall|k: int|
                    0 <= k < old(bucket)@.len() ==> bucket@[k] is None || bucket@[k] == old(
                        bucket,
                    )@[k],
                forall|k: int|
                    0 <= k < old(bucket)@.len() ==> ((#[trigger] old(bucket)@[k]) matches Some(m)
                        ==> m.xcm.data@.len() <= u32::MAX),
                forall|k: int| s <= k < old(bucket)@.len() ==> bucket@[k] == old(bucket)@[k],
                self.events@.len() + bucket_messages(bucket@.take(s as int)) == pre.events@.len()
                    + bucket_messages(old(bucket)@.take(s as int)),
                self.overweight@.len() - pre.overweight@.len() == count_ow_events(self.events@)
                    - count_ow_events(pre.events@),
                self.next_overweight_index - pre.next_overweight_index == self.overweight@.len()
                    - pre.overweight@.len(),
                forall|j: int|
                    pre.events@.len() <= j < self.events@.len() ==> scheduler_event_shape(
                        #[trigger] self.events@[j],
                        self.overweight@,
                        pre.next_overweight_index,
                        self.next_overweight_index,
                    ),
                forall|d: Seq<u8>| c.weight_of(d) == old(c).weight_of(d),
                forall|p: ParaId, d: Seq<u8>|
                    c.classifier_matches(p, d) == old(c).classifier_matches(p, d),
                forall|p: ParaId| c.suspension_bypassed(p) == old(c).suspension_bypassed(p),
                forall|k: int|
                    0 <= k < s ==> ((#[trigger] old(bucket)@[k]) matches Some(m) ==> (bucket@[k]
                        is None && (old(c).weight_of(m.xcm.data@) matches Some(w)
                        && w.spec_any_gt(max_individual) ==> overweight_holds(
                        self.overweight@,
                        origin,
                        m.sent_at,
                        spec_encode_message(m.xcm.data@),
                    )))),
            decreases bucket@.len() - s,
        {
            let ghost before_iter = *self;
            let ghost bucket_before = bucket@;
            let msg = match &bucket[s] {
                Option::None => {
                    proof {
                        assert(old(bucket)@[s as int] is None);
                        assert(bucket@.take(s + 1).drop_last() =~= bucket@.take(s as int));
                        assert(old(bucket)@.take(s + 1).drop_last() =~= old(bucket)@.take(
                            s as int,
                        ));
                        assert(bucket@.take(s + 1).last() == bucket@[s as int]);
                        assert(old(bucket)@.take(s + 1).last() == old(bucket)@[s as int]);
                    }
                    s = s + 1;
                    continue ;
                },
                Option::Some(m) => m.clone(),
            };
            proof {
                assert(old(bucket)@[s as int] matches Some(m0) && m0.xcm.data@
                    == msg.xcm.data@ && m0.sent_at == msg.sent_at);
                assert(msg.xcm.data@.len() <= u32::MAX);
            }
            match c.estimate_weight(&msg.xcm) {
                Option::None => {
                    // Not weighable: consumed with a failure event, per the
                    // per-message failure rule.
                    let hash = Self::hash_of_message(&msg.xcm);
                    self.events.push(
                        Event::Fail { message_hash: hash, error: ExecError::WeightNotComputable },
                    );
                    proof {
                        assert(self.events@.last() is Fail);
                    }
                    bucket[s] = None;
                },
                Option::Some(w) => {
                    if w.any_gt(&max_individual) {
                        // Too costly for the standard path: divert. With the
                        // index space exhausted, stop at this message boundary
                        // instead; the slot stays for a later call.
                        if self.next_overweight_index < u64::MAX {
                            let encoded = encode_message(&msg.xcm);
                            let idx = self.inject_overweight_message(
                                origin,
                                msg.sent_at,
                                encoded,
                            );
                            proof {
                                assert(overweight_holds(
                                    self.overweight@,
                                    origin,
                                    msg.sent_at,
                                    spec_encode_message(msg.xcm.data@),
                                )) by {
                                    let n = self.overweight@.len() - 1;
                                    assert(self.overweight@[n].sender == origin
                                        && self.overweight@[n].sent_at == msg.sent_at
                                        && self.overweight@[n].encoded@ == spec_encode_message(
                                        msg.xcm.data@,
                                    ));
                                }
                            }
                            self.events.push(Event::OverweightEnqueued { index: idx });
                            proof {
                                assert(self.events@.last() == Event::OverweightEnqueued {
                                    index: idx,
                                });
                                assert(self.overweight@.last().index == idx);
                                assert(overweight_index_present(self.overweight@, idx));
                            }
                            bucket[s] = None;
                        } else {
                            proof {
                                lemma_bucket_messages_split(bucket@, s as int);
                                lemma_bucket_messages_split(old(bucket)@, s as int);
                                assert(bucket@.skip(s as int) =~= old(bucket)@.skip(s as int));
                                assert(bucket_serviced(
                                    old(bucket)@,
                                    bucket@,
                                    self.overweight@,
                                    *old(c),
                                    origin,
                                    max_individual,
                                    true,
                                    *remaining,
                                    self.next_overweight_index,
                                    s as int,
                                ));
                            }
                            return true;
                        }
                    } else if w.any_gt(remaining) {
                        // The budget cannot cover this message: stop at a
                        // message boundary; this slot and all later ones stay.
                        proof {
                            lemma_bucket_messages_split(bucket@, s as int);
                            lemma_bucket_messages_split(old(bucket)@, s as int);
                            assert(bucket@.skip(s as int) =~= old(bucket)@.skip(s as int));
                            assert(bucket_serviced(
                                old(bucket)@,
                                bucket@,
                                self.overweight@,
                                *old(c),
                                origin,
                                max_individual,
                                true,
                                *remaining,
                                self.next_overweight_index,
                                s as int,
                            ));
                        }
                        return true;
                    } else {
                        let used = self.execute_message(c, origin, &msg.xcm, w);
                        proof {
                            let o = choose|o: Outcome|
                                used == o.spec_weight_used() && #[trigger] records_outcome(
                                    self.events@.last(),
                                    blake2_256_of(spec_encode_message(msg.xcm.data@)),
                                    o,
                                );
                            assert(self.events@.last() is Success || self.events@.last()
                                is Fail);
                            assert(scheduler_event_shape(
                                self.events@.last(),
                                self.overweight@,
                                pre.next_overweight_index,
                                self.next_overweight_index,
                            ));
                        }
                        let nr = match remaining.checked_sub(used) {
                            Option::Some(nr) => nr,
                            Option::None => {
                                proof {
                                    assert(false);
                                }
                                Weight::zero()
                            },
                        };
                        *remaining = nr;
                        bucket[s] = None;
                    }
                },
            }
            proof {
                assert(pre.overweight@.is_prefix_of(self.overweight@)) by {
                    assert(pre.overweight@ =~= self.overweight@.subrange(
                        0,
                        pre.overweight@.len() as int,
                    ));
                }
                assert(pre.events@.is_prefix_of(self.events@)) by {
                    assert(pre.events@ =~= self.events@.subrange(0, pre.events@.len() as int));
                }
                // One message consumed, one event recorded.
                assert(self.events@ =~= before_iter.events@.push(self.events@.last()));
                lemma_count_ow_push(before_iter.events@, self.events@.last());
                assert forall|j: int|
                    pre.events@.len() <= j < self.events@.len() implies scheduler_event_shape(
                    #[trigger] self.events@[j],
                    self.overweight@,
                    pre.next_overweight_index,
                    self.next_overweight_index,
                ) by {
                    if j < before_iter.events@.len() {
                        assert(self.events@[j] == before_iter.events@[j]);
                        assert(scheduler_event_shape(
                            before_iter.events@[j],
                            before_iter.overweight@,
                            pre.next_overweight_index,
                            before_iter.next_overweight_index,
                        ));
                        if before_iter.events@[j] is OverweightEnqueued {
                            let idx = before_iter.events@[j]->OverweightEnqueued_index;
                            let iw = choose|iw: int|
                                0 <= iw < before_iter.overweight@.len()
                                    && before_iter.overweight@[iw].index == idx;
                            assert(before_iter.overweight@.is_prefix_of(self.overweight@)) by {
                                assert(before_iter.overweight@ =~= self.overweight@.subrange(
                                    0,
                                    before_iter.overweight@.len() as int,
                                ));
                            }
                            assert(self.overweight@[iw] == before_iter.overweight@[iw]);
                        }
                    }
                }
                assert(bucket@ == bucket_before.update(s as int, None));
                assert(bucket@.take(s + 1).drop_last() =~= bucket@.take(s as int));
                assert(old(bucket)@.take(s + 1).drop_last() =~= old(bucket)@.take(s as int));
                assert(bucket@.take(s + 1).last() == bucket@[s as int]);
                assert(old(bucket)@.take(s + 1).last() == old(bucket)@[s as int]);
                assert(bucket@.take(s as int) =~= bucket_before.take(s as int));
                assert(self.events@.len() == before_iter.events@.len() + 1);
                // A diverted message's entry survives later appends.
                assert forall|k: int|
                    0 <= k < s + 1 implies ((#[trigger] old(bucket)@[k]) matches Some(m) ==> (
                bucket@[k] is None && (old(c).weight_of(m.xcm.data@) matches Some(w)
                    && w.spec_any_gt(max_individual) ==> overweight_holds(
                    self.overweight@,
                    origin,
                    m.sent_at,
                    spec_encode_message(m.xcm.data@),
                )))) by {
                    if k == s && old(bucket)@[k] is Some {
                        let m = old(bucket)@[k]->0;
                        assert(m.xcm.data@ == msg.xcm.data@);
                        assert(m.sent_at == msg.sent_at);
                        assert(old(c).weight_of(m.xcm.data@) == c.weight_of(msg.xcm.data@));
                        assert(bucket@[k] is None);
                    }
                    if k < s && old(bucket)@[k] is Some {
                        let m = old(bucket)@[k]->0;
                        if old(c).weight_of(m.xcm.data@) is Some {
                            let w = old(c).weight_of(m.xcm.data@)->0;
                            if w.spec_any_gt(max_individual) {
                                    assert(overweight_holds(
                                        before_iter.overweight@,
                                        origin,
                                        m.sent_at,
                                        spec_encode_message(m.xcm.data@),
                                    ));
                                    let i = choose|i: int|
                                        0 <= i < before_iter.overweight@.len()
                                            && before_iter.overweight@[i].sender == origin
                                            && before_iter.overweight@[i].sent_at == m.sent_at
                                            && before_iter.overweight@[i].encoded@
                                            == spec_encode_message(m.xcm.data@);
                                    assert(before_iter.overweight@.is_prefix_of(
                                        self.overweight@,
                                    )) by {
                                        assert(before_iter.overweight@ =~= self
                                            .overweight@.subrange(
                                            0,
                                            before_iter.overweight@.len() as int,
                                        ));
                                    }
                                assert(self.overweight@[i] == before_iter.overweight@[i]);
                            }
                        }
                    }
                }
            }
            s = s + 1;
        }
        proof {
            assert(bucket@.take(bucket@.len() as int) =~= bucket@);
            assert(old(bucket)@.take(old(bucket)@.len() as int) =~= old(bucket)@);
            assert(bucket_serviced(
                old(bucket)@,
                bucket@,
                self.overweight@,
                *old(c),
                origin,
                max_individual,
                false,
                *remaining,
                self.next_overweight_index,
                old(bucket)@.len() as int,
            ));
        }
        false
    }
}


impl Queue {
    /// Services up to `max_buckets` of one origin's earliest buckets that are
    /// due at `now`: each fully drained bucket is removed and its index
    /// retired; a budget halt keeps the bucket in place, positions unchanged.
    /// Returns `(completed, budget_halted)`: `completed` means no due bucket
    /// of this origin remains.
    fn service_origin<C: Collaborators>(
        &mut self,
        c: &mut C,
        io: usize,
        max_buckets: usize,
        now: RelayBlockNumber,
        max_individual: Weight,
        remaining: &mut Weight,
    ) -> (r: (bool, bool))
        requires
            old(self).wf(),
            io < old(self).origins@.len(),
        ensures
            final(self).wf(),
            final(self).origins@.len() == old(self).origins@.len(),
            final(remaining).spec_all_lte(*old(remaining)),
            old(self).overweight@.is_prefix_of(final(self).overweight@),
            final(self).next_overweight_index >= old(self).next_overweight_index,
            old(self).events@.is_prefix_of(final(self).events@),
            scheduler_frame(*old(self), *final(self)),
            forall|i: int|
                0 <= i < old(self).origins@.len() && i != io ==> final(self).origins@[i] == old(self).origins@[i],
            final(self).origins@[io as int].origin == old(self).origins@[io as int].origin,
            (old(self).origins@[io as int].indices@.len() == 0 || old(self).origins@[io as int].indices@[0].0 > now) ==> (final(self).origins@ == old(self).origins@ && final(self).overweight@ == old(self).overweight@ && final(self).events@
                == old(self).events@ && final(self).next_overweight_index == old(self).next_overweight_index && *final(remaining) == *old(remaining) && r.0),
            r.0 ==> forall|k: int|
                0 <= k < final(self).origins@[io as int].indices@.len() ==> (#[trigger] final(self).origins@[io as int].indices@[k]).0 > now,
            r.0 ==> !r.1,
            indices_suffix(
                old(self).origins@[io as int].indices@,
                final(self).origins@[io as int].indices@,
            ),
            // Exactly one event is recorded per message this call consumed.
            final(self).events@.len() + stored_messages(final(self).origins@) == old(self).events@.len() + stored_messages(old(self).origins@),
            forall|d: Seq<u8>| final(c).weight_of(d) == old(c).weight_of(d),
            forall|p: ParaId, d: Seq<u8>|
                final(c).classifier_matches(p, d) == old(c).classifier_matches(p, d),
            forall|p: ParaId| final(c).suspension_bypassed(p) == old(c).suspension_bypassed(p),
            // A budget halt leaves the blocking message in place, still due.
            r.1 ==> origin_blocked(
                final(self).origins@[io as int],
                *old(c),
                now,
                max_individual,
                *final(remaining),
                final(self).next_overweight_index,
            ),
            max_buckets == 0 ==> (final(self).origins@ == old(self).origins@ && final(self).overweight@ == old(self).overweight@ && final(self).events@ == old(self).events@ && final(self).next_overweight_index == old(self).next_overweight_index && *final(remaining) == *old(remaining)),
            final(self).overweight@.len() - old(self).overweight@.len() == count_ow_events(
                final(self).events@,
            ) - count_ow_events(old(self).events@),
            final(self).next_overweight_index - old(self).next_overweight_index == final(self).overweight@.len() - old(self).overweight@.len(),
            forall|j: int|
                old(self).events@.len() <= j < final(self).events@.len()
                    ==> scheduler_event_shape(
                    #[trigger] final(self).events@[j],
                    final(self).overweight@,
                    old(self).next_overweight_index,
                    final(self).next_overweight_index,
                ),
            // Once the origin is fully serviced, every due message whose
            // estimate exceeded the ceiling sits in the overweight store.
            r.0 ==> forall|j: int, sl: int|
                (0 <= j < old(self).origins@[io as int].indices@.len() && old(self).origins@[io as int].indices@[j].0 <= now && 0 <= sl < old(self).origins@[io as int].buckets@[j]@.len()
                    && (#[trigger] old(self).origins@[io as int].buckets@[j]@[sl]) is Some
                    && old(c).weight_of(old(self).origins@[io as int].buckets@[j]@[sl]->0.xcm.data@) is Some
                    && old(c).weight_of(old(self).origins@[io as int].buckets@[j]@[sl]->0.xcm.data@)->0.spec_any_gt(max_individual)) ==> overweight_holds(
                    final(self).overweight@,
                    old(self).origins@[io as int].origin,
                    old(self).origins@[io as int].buckets@[j]@[sl]->0.sent_at,
                    spec_encode_message(old(self).origins@[io as int].buckets@[j]@[sl]->0.xcm.data@),
                ),
            // Stopping on the bucket cap means at least the cap's worth of
            // buckets was retired while the front remained due.
            (!r.0 && !r.1) ==> (final(self).origins@[io as int].indices@.len() > 0 && final(self).origins@[io as int].indices@[0].0 <= now && exists|k: int|
                max_buckets <= k <= old(self).origins@[io as int].indices@.len() && final(self).origins@[io as int].indices@ == old(self).origins@[io as int].indices@.skip(k)),
        decreases max_buckets,
    {
        let ghost oldq = *self;
        let max_b = self.max_buckets_per_origin;
        let max_m = self.max_messages_per_bucket;
        let front_due = {
            let o0 = &self.origins[io];
            if o0.indices.len() == 0 {
                false
            } else {
                o0.indices[0].0 <= now
            }
        };
        if !front_due {
            proof {
                let o0 = self.origins@[io as int];
                assert forall|k: int| 0 <= k < o0.indices@.len() implies (#[trigger] o0
                    .indices@[k]).0 > now by {
                    if k > 0 {
                        assert(crate::queue::index_lt(o0.indices@[0], o0.indices@[k]));
                    }
                }
            }
            proof {
                let ind = self.origins@[io as int].indices@;
                assert(ind == ind.skip(0));
            }
            return (true, false);
        }
        if max_buckets == 0 {
            proof {
                let ind = self.origins@[io as int].indices@;
                assert(ind == ind.skip(0));
            }
            return (false, false);
        }
        let ghost oldo = self.origins@[io as int];
        let o = &mut self.origins[io];
        let origin = o.origin;
        let index = o.indices.remove(0);
        let mut bucket = o.buckets.remove(0);
        proof {
            let newo = self.origins@[io as int];
            assert(newo.indices@ == oldo.indices@.remove(0));
            assert(newo.buckets@ == oldo.buckets@.remove(0));
            assert(newo.wf(max_b as int, max_m as int)) by {
                assert forall|j: int, k: int|
                    0 <= j < k < newo.indices@.len() implies crate::queue::index_lt(
                    newo.indices@[j],
                    newo.indices@[k],
                ) by {
                    assert(newo.indices@[j] == oldo.indices@[j + 1]);
                    assert(newo.indices@[k] == oldo.indices@[k + 1]);
                }
                assert forall|j: int, s: int|
                    0 <= j < newo.buckets@.len() && 0 <= s < newo.buckets@[j]@.len() implies ((
                #[trigger] newo.buckets@[j]@[s]) matches Some(m) ==> m.deferred_to
                    == newo.indices@[j].0 && m.sender == newo.origin && m.xcm.data@.len()
                    <= u32::MAX) by {
                    assert(newo.buckets@[j] == oldo.buckets@[j + 1]);
                    assert(newo.indices@[j] == oldo.indices@[j + 1]);
                }
            }
            assert forall|i: int|
                0 <= i < self.origins@.len() implies (#[trigger] self.origins@[i]).wf(
                max_b as int,
                max_m as int,
            ) by {
                if i != io as int {
                    assert(self.origins@[i] == oldq.origins@[i]);
                }
            }
            assert(oldo.buckets@[0] == bucket);
            assert forall|s: int| 0 <= s < bucket@.len() implies ((#[trigger] bucket@[s]) matches
                Some(m) ==> m.xcm.data@.len() <= u32::MAX) by {
                assert(oldo.buckets@[0]@[s] == bucket@[s]);
            }
            assert(self.origins@ == oldq.origins@.update(io as int, newo));
            lemma_stored_update(oldq.origins@, io as int, newo);
            assert(newo.buckets@ =~= oldo.buckets@.skip(1));
            assert(origin_messages(oldo.buckets@) == bucket_messages(oldo.buckets@[0]@)
                + origin_messages(oldo.buckets@.skip(1)));
            assert(stored_messages(self.origins@) == stored_messages(oldq.origins@)
                - bucket_messages(bucket@));
        }
        let ghost popped = *self;
        let halted = self.service_bucket_slots(c, origin, &mut bucket, remaining, max_individual);
        let ghost serviced_bucket = bucket@;
        if halted {
            let o = &mut self.origins[io];
            o.indices.insert(0, index);
            o.buckets.insert(0, bucket);
            proof {
                let newo = self.origins@[io as int];
                assert(newo.indices@ == oldo.indices@);
                assert(newo.wf(max_b as int, max_m as int)) by {
                    assert forall|j: int, s: int|
                        0 <= j < newo.buckets@.len() && 0 <= s
                            < newo.buckets@[j]@.len() implies ((#[trigger] newo
                        .buckets@[j]@[s]) matches Some(m) ==> m.deferred_to == newo.indices@[j].0
                        && m.sender == newo.origin && m.xcm.data@.len() <= u32::MAX) by {
                        if j > 0 {
                            assert(newo.buckets@[j] == oldo.buckets@[j]);
                        } else {
                            assert(newo.buckets@[0]@ == bucket@);
                            assert(bucket@[s] is None || bucket@[s] == oldo.buckets@[0]@[s]);
                        }
                    }
                }
                assert forall|i: int|
                    0 <= i < self.origins@.len() implies (#[trigger] self.origins@[i]).wf(
                    max_b as int,
                    max_m as int,
                ) by {
                    if i != io as int {
                        assert(self.origins@[i] == oldq.origins@[i]);
                    }
                }
                assert(oldq.overweight@.is_prefix_of(self.overweight@));
                assert(oldq.events@.is_prefix_of(self.events@));
                assert(newo.indices@ == oldo.indices@.skip(0));
                // Conservation: the reinserted bucket carries its remaining
                // messages back.
                assert(self.origins@ == popped.origins@.update(io as int, newo));
                lemma_stored_update(popped.origins@, io as int, newo);
                assert(newo.buckets@[0] == bucket);
                assert(newo.buckets@.skip(1) =~= popped.origins@[io as int].buckets@);
                assert(origin_messages(newo.buckets@) == bucket_messages(bucket@)
                    + origin_messages(popped.origins@[io as int].buckets@));
                // The blocking slot is still in place at the front bucket.
                let kk = choose|kk: int|
                    #[trigger] bucket_serviced(
                        oldo.buckets@[0]@,
                        serviced_bucket,
                        self.overweight@,
                        *old(c),
                        origin,
                        max_individual,
                        true,
                        *remaining,
                        self.next_overweight_index,
                        kk,
                    );
                assert(newo.indices@[0] == oldo.indices@[0]);
                assert(newo.buckets@[0]@[kk] == oldo.buckets@[0]@[kk]);
                assert(origin_blocked(
                    newo,
                    *old(c),
                    now,
                    max_individual,
                    *remaining,
                    self.next_overweight_index,
                ));
            }
            return (false, true);
        }
        // Fully drained: the bucket is gone and its index retired.
        let ghost mid = self.origins@[io as int].indices@;
        let ghost c_mid = *c;
        proof {
            assert(mid =~= oldo.indices@.skip(1));
            assert forall|s: int| 0 <= s < bucket@.len() implies bucket@[s] is None by {
                let kk = choose|kk: int|
                    #[trigger] bucket_serviced(
                        oldo.buckets@[0]@,
                        bucket@,
                        self.overweight@,
                        *old(c),
                        origin,
                        max_individual,
                        false,
                        *remaining,
                        self.next_overweight_index,
                        kk,
                    );
                assert(oldo.buckets@[0]@[s] is Some ==> bucket@[s] is None);
                assert(bucket@[s] is None || bucket@[s] == oldo.buckets@[0]@[s]);
            }
            lemma_bucket_messages_zero(bucket@);
        }
        let ghost at_recurse = *self;
        let ghost budget_mid = *remaining;
        let r = self.service_origin(c, io, max_buckets - 1, now, max_individual, remaining);
        proof {
            if r.0 {
                assert forall|j: int, sl: int|
                    (0 <= j < oldo.indices@.len() && oldo.indices@[j].0 <= now && 0 <= sl
                        < oldo.buckets@[j]@.len() && (#[trigger] oldo.buckets@[j]@[sl]) is Some
                        && old(c).weight_of(oldo.buckets@[j]@[sl]->0.xcm.data@) is Some && old(
                        c,
                    ).weight_of(oldo.buckets@[j]@[sl]->0.xcm.data@)->0.spec_any_gt(
                        max_individual,
                    )) implies overweight_holds(
                    self.overweight@,
                    oldo.origin,
                    oldo.buckets@[j]@[sl]->0.sent_at,
                    spec_encode_message(oldo.buckets@[j]@[sl]->0.xcm.data@),
                ) by {
                    let m = oldo.buckets@[j]@[sl]->0;
                    if j == 0 {
                        let kk = choose|kk: int|
                            #[trigger] bucket_serviced(
                                oldo.buckets@[0]@,
                                bucket@,
                                at_recurse.overweight@,
                                *old(c),
                                origin,
                                max_individual,
                                false,
                                budget_mid,
                                at_recurse.next_overweight_index,
                                kk,
                            );
                        assert(overweight_holds(
                            at_recurse.overweight@,
                            origin,
                            m.sent_at,
                            spec_encode_message(m.xcm.data@),
                        ));
                        let iw = choose|iw: int|
                            0 <= iw < at_recurse.overweight@.len()
                                && at_recurse.overweight@[iw].sender == origin
                                && at_recurse.overweight@[iw].sent_at == m.sent_at
                                && at_recurse.overweight@[iw].encoded@ == spec_encode_message(
                                m.xcm.data@,
                            );
                        assert(at_recurse.overweight@.is_prefix_of(self.overweight@)) by {
                            assert(at_recurse.overweight@ =~= self.overweight@.subrange(
                                0,
                                at_recurse.overweight@.len() as int,
                            ));
                        }
                        assert(self.overweight@[iw] == at_recurse.overweight@[iw]);
                    } else {
                        let mido = at_recurse.origins@[io as int];
                        assert(mido.indices@[j - 1] == oldo.indices@[j]);
                        assert(mido.buckets@[j - 1] == oldo.buckets@[j]);
                        assert(mido.buckets@[j - 1]@[sl] == oldo.buckets@[j]@[sl]);
                    }
                }
            }
            let fin = self.origins@[io as int].indices@;
            let k = choose|k: int| 0 <= k <= mid.len() && fin == mid.skip(k);
            assert(fin == oldo.indices@.skip(1 + k)) by {
                assert(mid.skip(k) =~= oldo.indices@.skip(1 + k));
            }
            if !r.0 && !r.1 {
                let k2 = choose|k2: int|
                    max_buckets - 1 <= k2 <= mid.len() && fin == mid.skip(k2);
                assert(mid.skip(k2) =~= oldo.indices@.skip(1 + k2));
                assert(fin == oldo.indices@.skip(1 + k2));
                assert(1 + k2 <= oldo.indices@.len());
            }
            if r.1 {
                lemma_origin_blocked_weigher(
                    self.origins@[io as int],
                    c_mid,
                    *old(c),
                    now,
                    max_individual,
                    *remaining,
                    self.next_overweight_index,
                );
            }
        }
        proof {
            assert(oldq.overweight@.is_prefix_of(self.overweight@)) by {
                assert(oldq.overweight@ =~= self.overweight@.subrange(
                    0,
                    oldq.overweight@.len() as int,
                ));
            }
            assert(oldq.events@.is_prefix_of(self.events@)) by {
                assert(oldq.events@ =~= self.events@.subrange(0, oldq.events@.len() as int));
            }
            assert(at_recurse.overweight@.is_prefix_of(self.overweight@)) by {
                assert(at_recurse.overweight@ =~= self.overweight@.subrange(
                    0,
                    at_recurse.overweight@.len() as int,
                ));
            }
            assert forall|j: int|
                oldq.events@.len() <= j < self.events@.len() implies scheduler_event_shape(
                #[trigger] self.events@[j],
                self.overweight@,
                oldq.next_overweight_index,
                self.next_overweight_index,
            ) by {
                if j < at_recurse.events@.len() {
                    assert(self.events@[j] == at_recurse.events@[j]);
                    lemma_shape_persists(
                        at_recurse.events@[j],
                        at_recurse.overweight@,
                        self.overweight@,
                        oldq.next_overweight_index,
                        at_recurse.next_overweight_index,
                        oldq.next_overweight_index,
                        self.next_overweight_index,
                    );
                } else {
                    lemma_shape_persists(
                        self.events@[j],
                        self.overweight@,
                        self.overweight@,
                        at_recurse.next_overweight_index,
                        self.next_overweight_index,
                        oldq.next_overweight_index,
                        self.next_overweight_index,
                    );
                }
            }
        }
        r
    }
}

impl Queue {
    /// The deferred scheduler: iterates origins in their fixed order, services
    /// up to the configured number of earliest due buckets of each under the
    /// global budget, and stops everything at the first message the remaining
    /// budget cannot cover. Returns the weight consumed, which never exceeds
    /// `max_weight`, and whether every due bucket was drained. With either
    /// suspension flag set, or nothing due, the state is left untouched.
    pub fn service_deferred_queues<C: Collaborators>(
        &mut self,
        c: &mut C,
        max_weight: Weight,
        now: RelayBlockNumber,
        max_individual: Weight,
    ) -> (r: (Weight, bool))
        requires
            old(self).wf(),
        ensures
            final(self).wf(),
            scheduler_frame(*old(self), *final(self)),
            old(self).overweight@.is_prefix_of(final(self).overweight@),
            old(self).events@.is_prefix_of(final(self).events@),
            final(self).next_overweight_index >= old(self).next_overweight_index,
            final(self).origins@.len() == old(self).origins@.len(),
            r.0.spec_all_lte(max_weight),
            (old(self).queue_suspended || old(self).deferred_suspended) ==> (final(self).origins@
                == old(self).origins@ && final(self).overweight@ == old(self).overweight@
                && final(self).events@ == old(self).events@ && final(self).next_overweight_index
                == old(self).next_overweight_index && r.0 == (Weight {
                ref_time: 0u64,
                proof_size: 0u64,
            }) && !r.1),
            (!old(self).queue_suspended && !old(self).deferred_suspended && no_due(
                *old(self),
                now,
            )) ==> (final(self).origins@ == old(self).origins@ && final(self).overweight@ == old(self).overweight@ && final(self).events@ == old(self).events@ && final(self).next_overweight_index == old(self).next_overweight_index && r.0 == (Weight {
                ref_time: 0u64,
                proof_size: 0u64,
            }) && r.1),
            r.1 ==> no_due(*final(self), now),
            forall|i: int|
                0 <= i < old(self).origins@.len() ==> indices_suffix(
                    old(self).origins@[i].indices@,
                    final(self).origins@[i].indices@,
                ),
            // Exactly one event is recorded per message this call consumed.
            final(self).events@.len() + stored_messages(final(self).origins@) == old(self).events@.len() + stored_messages(old(self).origins@),
            forall|d: Seq<u8>| final(c).weight_of(d) == old(c).weight_of(d),
            forall|p: ParaId, d: Seq<u8>|
                final(c).classifier_matches(p, d) == old(c).classifier_matches(p, d),
            forall|p: ParaId| final(c).suspension_bypassed(p) == old(c).suspension_bypassed(p),
            final(self).overweight@.len() - old(self).overweight@.len() == count_ow_events(
                final(self).events@,
            ) - count_ow_events(old(self).events@),
            final(self).next_overweight_index - old(self).next_overweight_index == final(self).overweight@.len() - old(self).overweight@.len(),
            forall|j: int|
                old(self).events@.len() <= j < final(self).events@.len()
                    ==> scheduler_event_shape(
                    #[trigger] final(self).events@[j],
                    final(self).overweight@,
                    old(self).next_overweight_index,
                    final(self).next_overweight_index,
                ),
            // Once everything due is drained, every due message whose
            // estimate exceeded the ceiling sits in the overweight store.
            r.1 ==> forall|i0: int, j: int, sl: int|
                (0 <= i0 < old(self).origins@.len() && 0 <= j < old(self).origins@[i0].indices@.len() && old(self).origins@[i0].indices@[j].0 <= now && 0 <= sl < old(self).origins@[i0].buckets@[j]@.len()
                    && (#[trigger] old(self).origins@[i0].buckets@[j]@[sl]) is Some && old(c).weight_of(old(self).origins@[i0].buckets@[j]@[sl]->0.xcm.data@) is Some && old(c).weight_of(
                    old(self).origins@[i0].buckets@[j]@[sl]->0.xcm.data@,
                )->0.spec_any_gt(max_individual)) ==> overweight_holds(
                    final(self).overweight@,
                    old(self).origins@[i0].origin,
                    old(self).origins@[i0].buckets@[j]@[sl]->0.sent_at,
                    spec_encode_message(old(self).origins@[i0].buckets@[j]@[sl]->0.xcm.data@),
                ),
            // An incomplete run is always accounted for: either a due message
            // remains that the unspent budget or exhausted index space cannot
            // take, or an origin hit the per-call bucket cap with more due.
            (!old(self).queue_suspended && !old(self).deferred_suspended && !r.1) ==> (
            service_blocked(
                *final(self),
                *old(c),
                now,
                max_individual,
                Weight {
                    ref_time: (max_weight.ref_time - r.0.ref_time) as u64,
                    proof_size: (max_weight.proof_size - r.0.proof_size) as u64,
                },
            ) || cap_stopped(*old(self), *final(self), now, old(self).max_buckets_processed as int)),
    {
        if self.queue_suspended || self.deferred_suspended {
            proof {
                assert forall|i: int| 0 <= i < self.origins@.len() implies indices_suffix(
                    self.origins@[i].indices@,
                    self.origins@[i].indices@,
                ) by {
                    let ind = self.origins@[i].indices@;
                    assert(ind == ind.skip(0));
                }
            }
            return (Weight::zero(), false);
        }
        let max_buckets = self.max_buckets_processed;
        let mut remaining = max_weight;
        let mut completed = true;
        let mut io: usize = 0;
        let ghost pre = *self;
        proof {
            assert forall|i: int| 0 <= i < pre.origins@.len() implies indices_suffix(
                pre.origins@[i].indices@,
                self.origins@[i].indices@,
            ) by {
                let ind = pre.origins@[i].indices@;
                assert(ind == ind.skip(0));
            }
        }
        while io < self.origins.len()
            invariant_except_break
                forall|i: int|
                    io <= i < self.origins@.len() ==> self.origins@[i] == pre.origins@[i],
                !completed ==> cap_stopped(pre, *self, now, max_buckets as int),
            invariant
                pre == *old(self),
                self.wf(),
                self.origins@.len() == pre.origins@.len(),
                io <= self.origins@.len(),
                remaining.spec_all_lte(max_weight),
                pre.overweight@.is_prefix_of(self.overweight@),
                pre.events@.is_prefix_of(self.events@),
                self.next_overweight_index >= pre.next_overweight_index,
                scheduler_frame(pre, *self),
                completed ==> forall|i: int, k: int|
                    0 <= i < io && 0 <= k < self.origins@[i].indices@.len() ==> (#[trigger] self
                        .origins@[i].indices@[k]).0 > now,
                no_due(pre, now) ==> (self.origins@ == pre.origins@ && self.overweight@
                    == pre.overweight@ && self.events@ == pre.events@
                    && self.next_overweight_index == pre.next_overweight_index && remaining
                    == max_weight && completed),
                forall|i: int|
                    0 <= i < pre.origins@.len() ==> indices_suffix(
                        pre.origins@[i].indices@,
                        self.origins@[i].indices@,
                    ),
                self.overweight@.len() - pre.overweight@.len() == count_ow_events(self.events@)
                    - count_ow_events(pre.events@),
                self.next_overweight_index - pre.next_overweight_index == self.overweight@.len()
                    - pre.overweight@.len(),
                forall|j: int|
                    pre.events@.len() <= j < self.events@.len() ==> scheduler_event_shape(
                        #[trigger] self.events@[j],
                        self.overweight@,
                        pre.next_overweight_index,
                        self.next_overweight_index,
                    ),
                self.events@.len() + stored_messages(self.origins@) == pre.events@.len()
                    + stored_messages(pre.origins@),
                forall|d: Seq<u8>| c.weight_of(d) == old(c).weight_of(d),
                forall|p: ParaId, d: Seq<u8>|
                    c.classifier_matches(p, d) == old(c).classifier_matches(p, d),
                forall|p: ParaId| c.suspension_bypassed(p) == old(c).suspension_bypassed(p),
                completed ==> forall|i0: int, j: int, sl: int|
                    (0 <= i0 < io && 0 <= j < pre.origins@[i0].indices@.len()
                        && pre.origins@[i0].indices@[j].0 <= now && 0 <= sl
                        < pre.origins@[i0].buckets@[j]@.len() && (#[trigger] pre
                        .origins@[i0].buckets@[j]@[sl]) is Some && old(c).weight_of(
                        pre.origins@[i0].buckets@[j]@[sl]->0.xcm.data@,
                    ) is Some && old(c).weight_of(
                        pre.origins@[i0].buckets@[j]@[sl]->0.xcm.data@,
                    )->0.spec_any_gt(max_individual)) ==> overweight_holds(
                        self.overweight@,
                        pre.origins@[i0].origin,
                        pre.origins@[i0].buckets@[j]@[sl]->0.sent_at,
                        spec_encode_message(pre.origins@[i0].buckets@[j]@[sl]->0.xcm.data@),
                    ),
            ensures
                self.wf(),
                self.origins@.len() == pre.origins@.len(),
                remaining.spec_all_lte(max_weight),
                pre.overweight@.is_prefix_of(self.overweight@),
                pre.events@.is_prefix_of(self.events@),
                self.next_overweight_index >= pre.next_overweight_index,
                scheduler_frame(pre, *self),
                completed ==> forall|i: int, k: int|
                    0 <= i < self.origins@.len() && 0 <= k < self.origins@[i].indices@.len()
                        ==> (#[trigger] self.origins@[i].indices@[k]).0 > now,
                no_due(pre, now) ==> (self.origins@ == pre.origins@ && self.overweight@
                    == pre.overweight@ && self.events@ == pre.events@
                    && self.next_overweight_index == pre.next_overweight_index && remaining
                    == max_weight && completed),
                forall|i: int|
                    0 <= i < pre.origins@.len() ==> indices_suffix(
                        pre.origins@[i].indices@,
                        self.origins@[i].indices@,
                    ),
                self.overweight@.len() - pre.overweight@.len() == count_ow_events(self.events@)
                    - count_ow_events(pre.events@),
                self.next_overweight_index - pre.next_overweight_index == self.overweight@.len()
                    - pre.overweight@.len(),
                forall|j: int|
                    pre.events@.len() <= j < self.events@.len() ==> scheduler_event_shape(
                        #[trigger] self.events@[j],
                        self.overweight@,
                        pre.next_overweight_index,
                        self.next_overweight_index,
                    ),
                self.events@.len() + stored_messages(self.origins@) == pre.events@.len()
                    + stored_messages(pre.origins@),
                forall|d: Seq<u8>| c.weight_of(d) == old(c).weight_of(d),
                forall|p: ParaId, d: Seq<u8>|
                    c.classifier_matches(p, d) == old(c).classifier_matches(p, d),
                forall|p: ParaId| c.suspension_bypassed(p) == old(c).suspension_bypassed(p),
                !completed ==> (service_blocked(*self, *old(c), now, max_individual, *&remaining)
                    || cap_stopped(pre, *self, now, max_buckets as int)),
                completed ==> forall|i0: int, j: int, sl: int|
                    (0 <= i0 < pre.origins@.len() && 0 <= j < pre.origins@[i0].indices@.len()
                        && pre.origins@[i0].indices@[j].0 <= now && 0 <= sl
                        < pre.origins@[i0].buckets@[j]@.len() && (#[trigger] pre
                        .origins@[i0].buckets@[j]@[sl]) is Some && old(c).weight_of(
                        pre.origins@[i0].buckets@[j]@[sl]->0.xcm.data@,
                    ) is Some && old(c).weight_of(
                        pre.origins@[i0].buckets@[j]@[sl]->0.xcm.data@,
                    )->0.spec_any_gt(max_individual)) ==> overweight_holds(
                        self.overweight@,
                        pre.origins@[i0].origin,
                        pre.origins@[i0].buckets@[j]@[sl]->0.sent_at,
                        spec_encode_message(pre.origins@[i0].buckets@[j]@[sl]->0.xcm.data@),
                    ),
            decreases self.origins@.len() - io,
        {
            let ghost before = *self;
            proof {
                if no_due(pre, now) {
                    if self.origins@[io as int].indices@.len() > 0 {
                        assert(pre.origins@[io as int].indices@[0].0 > now);
                    }
                }
            }
            let res = self.service_origin(c, io, max_buckets, now, max_individual, &mut remaining);
            proof {
                assert forall|i: int| 0 <= i < pre.origins@.len() implies indices_suffix(
                    pre.origins@[i].indices@,
                    self.origins@[i].indices@,
                ) by {
                    if i != io as int {
                        assert(self.origins@[i] == before.origins@[i]);
                        assert(indices_suffix(
                            pre.origins@[i].indices@,
                            before.origins@[i].indices@,
                        ));
                    } else {
                        assert(before.origins@[io as int].indices@
                            == pre.origins@[io as int].indices@);
                        assert(indices_suffix(
                            before.origins@[io as int].indices@,
                            self.origins@[io as int].indices@,
                        ));
                    }
                }
            }
            let ghost c_before = *c;
            proof {
                assert(before.overweight@.is_prefix_of(self.overweight@)) by {
                    assert(before.overweight@ =~= self.overweight@.subrange(
                        0,
                        before.overweight@.len() as int,
                    ));
                }
                assert forall|j: int|
                    pre.events@.len() <= j < self.events@.len() implies scheduler_event_shape(
                    #[trigger] self.events@[j],
                    self.overweight@,
                    pre.next_overweight_index,
                    self.next_overweight_index,
                ) by {
                    if j < before.events@.len() {
                        assert(self.events@[j] == before.events@[j]);
                        lemma_shape_persists(
                            before.events@[j],
                            before.overweight@,
                            self.overweight@,
                            pre.next_overweight_index,
                            before.next_overweight_index,
                            pre.next_overweight_index,
                            self.next_overweight_index,
                        );
                    } else {
                        lemma_shape_persists(
                            self.events@[j],
                            self.overweight@,
                            self.overweight@,
                            before.next_overweight_index,
                            self.next_overweight_index,
                            pre.next_overweight_index,
                            self.next_overweight_index,
                        );
                    }
                }
                if res.1 {
                    lemma_origin_blocked_weigher(
                        self.origins@[io as int],
                        c_before,
                        *old(c),
                        now,
                        max_individual,
                        *&remaining,
                        self.next_overweight_index,
                    );
                    assert(service_blocked(*self, *old(c), now, max_individual, *&remaining));
                } else if !res.0 {
                    // The call retired the cap's worth of buckets of this
                    // origin and its front is still due.
                    assert(before.origins@[io as int].indices@ == pre.origins@[io as int].indices@);
                    assert(cap_stopped(pre, *self, now, max_buckets as int));
                } else if res.0 && completed {
                    // The freshly serviced origin's diverts are in the store,
                    // and earlier origins' diverts survive the appends.
                    assert(before.overweight@.is_prefix_of(self.overweight@)) by {
                        assert(before.overweight@ =~= self.overweight@.subrange(
                            0,
                            before.overweight@.len() as int,
                        ));
                    }
                    assert forall|i0: int, j: int, sl: int|
                        (0 <= i0 < io + 1 && 0 <= j < pre.origins@[i0].indices@.len()
                            && pre.origins@[i0].indices@[j].0 <= now && 0 <= sl
                            < pre.origins@[i0].buckets@[j]@.len() && (#[trigger] pre
                            .origins@[i0].buckets@[j]@[sl]) is Some && old(c).weight_of(
                            pre.origins@[i0].buckets@[j]@[sl]->0.xcm.data@,
                        ) is Some && old(c).weight_of(
                            pre.origins@[i0].buckets@[j]@[sl]->0.xcm.data@,
                        )->0.spec_any_gt(max_individual)) implies overweight_holds(
                        self.overweight@,
                        pre.origins@[i0].origin,
                        pre.origins@[i0].buckets@[j]@[sl]->0.sent_at,
                        spec_encode_message(pre.origins@[i0].buckets@[j]@[sl]->0.xcm.data@),
                    ) by {
                        let m = pre.origins@[i0].buckets@[j]@[sl]->0;
                        if i0 == io as int {
                            assert(before.origins@[io as int] == pre.origins@[io as int]);
                            assert(overweight_holds(
                                self.overweight@,
                                pre.origins@[i0].origin,
                                m.sent_at,
                                spec_encode_message(m.xcm.data@),
                            ));
                        } else {
                            assert(overweight_holds(
                                before.overweight@,
                                pre.origins@[i0].origin,
                                m.sent_at,
                                spec_encode_message(m.xcm.data@),
                            ));
                            let iw = choose|iw: int|
                                0 <= iw < before.overweight@.len()
                                    && before.overweight@[iw].sender == pre.origins@[i0].origin
                                    && before.overweight@[iw].sent_at == m.sent_at
                                    && before.overweight@[iw].encoded@ == spec_encode_message(
                                    m.xcm.data@,
                                );
                            assert(self.overweight@[iw] == before.overweight@[iw]);
                        }
                    }
                } else if !completed {
                    // An earlier origin's cap stop survives this call, which
                    // touched only its own origin.
                    let (i0, k0) = choose|i0: int, k0: int|
                        {
                            &&& 0 <= i0 < pre.origins@.len()
                            &&& i0 < before.origins@.len()
                            &&& max_buckets <= k0 <= pre.origins@[i0].indices@.len()
                            &&& before.origins@[i0].indices@ == #[trigger] pre
                                .origins@[i0].indices@.skip(k0)
                            &&& before.origins@[i0].indices@.len() > 0
                            &&& before.origins@[i0].indices@[0].0 <= now
                        };
                    if i0 == io as int {
                        assert(before.origins@[io as int].indices@ == pre
                            .origins@[io as int].indices@);
                        if max_buckets >= 1 {
                            assert(pre.origins@[i0].indices@.len() == pre
                                .origins@[i0].indices@.skip(k0).len());
                            assert(false);
                        } else {
                            assert(self.origins@ == before.origins@);
                        }
                    } else {
                        assert(self.origins@[i0] == before.origins@[i0]);
                    }
                    assert(cap_stopped(pre, *self, now, max_buckets as int));
                }
            }
            if res.1 {
                completed = false;
                proof {
                    assert(pre.overweight@.is_prefix_of(self.overweight@)) by {
                        assert(pre.overweight@ =~= self.overweight@.subrange(
                            0,
                            pre.overweight@.len() as int,
                        ));
                    }
                    assert(pre.events@.is_prefix_of(self.events@)) by {
                        assert(pre.events@ =~= self.events@.subrange(
                            0,
                            pre.events@.len() as int,
                        ));
                    }
                }
                break ;
            }
            if !res.0 {
                completed = false;
            }
            proof {
                assert(pre.overweight@.is_prefix_of(self.overweight@)) by {
                    assert(pre.overweight@ =~= self.overweight@.subrange(
                        0,
                        pre.overweight@.len() as int,
                    ));
                }
                assert(pre.events@.is_prefix_of(self.events@)) by {
                    assert(pre.events@ =~= self.events@.subrange(0, pre.events@.len() as int));
                }
                if no_due(pre, now) {
                    assert(self.origins@ =~= pre.origins@);
                }
            }
            io = io + 1;
        }
        let consumed = match max_weight.checked_sub(remaining) {
            Option::Some(w) => w,
            Option::None => {
                proof {
                    assert(false);
                }
                Weight::zero()
            },
        };
        (consumed, completed)
    }

    /// The opportunistic variant: services the deferred queues with whatever
    /// weight is left over after normal block processing.
    pub fn on_idle<C: Collaborators>(
        &mut self,
        c: &mut C,
        now: RelayBlockNumber,
        remaining_weight: Weight,
    ) -> (consumed: Weight)
        requires
            old(self).wf(),
        ensures
            final(self).wf(),
            scheduler_frame(*old(self), *final(self)),
            old(self).overweight@.is_prefix_of(final(self).overweight@),
            old(self).events@.is_prefix_of(final(self).events@),
            final(self).origins@.len() == old(self).origins@.len(),
            consumed.spec_all_lte(remaining_weight),
            (old(self).queue_suspended || old(self).deferred_suspended) ==> (final(self).origins@
                == old(self).origins@ && final(self).overweight@ == old(self).overweight@
                && final(self).events@ == old(self).events@),
            forall|i: int|
                0 <= i < old(self).origins@.len() ==> indices_suffix(
                    old(self).origins@[i].indices@,
                    final(self).origins@[i].indices@,
                ),
            // Exactly one event is recorded per message this call consumed.
            final(self).events@.len() + stored_messages(final(self).origins@) == old(self).events@.len() + stored_messages(old(self).origins@),
            final(self).overweight@.len() - old(self).overweight@.len() == count_ow_events(
                final(self).events@,
            ) - count_ow_events(old(self).events@),
            final(self).next_overweight_index - old(self).next_overweight_index == final(self).overweight@.len() - old(self).overweight@.len(),
            forall|j: int|
                old(self).events@.len() <= j < final(self).events@.len()
                    ==> scheduler_event_shape(
                    #[trigger] final(self).events@[j],
                    final(self).overweight@,
                    old(self).next_overweight_index,
                    final(self).next_overweight_index,
                ),
            // Leftover weight is spent until nothing is due or something
            // blocks: the budget, the bucket cap, or the index space.
            (!old(self).queue_suspended && !old(self).deferred_suspended) ==> (no_due(
                *final(self),
                now,
            ) || service_blocked(
                *final(self),
                *old(c),
                now,
                old(self).config.xcmp_max_individual_weight,
                Weight {
                    ref_time: (remaining_weight.ref_time - consumed.ref_time) as u64,
                    proof_size: (remaining_weight.proof_size - consumed.proof_size) as u64,
                },
            ) || cap_stopped(*old(self), *final(self), now, old(self).max_buckets_processed as int)),
    {
        let max_individual = self.config.xcmp_max_individual_weight;
        let r = self.service_deferred_queues(c, remaining_weight, now, max_individual);
        r.0
    }

    /// The manually triggered, privileged variant: services up to
    /// `max_buckets` due buckets of one chosen origin under `weight_limit`.
    /// A non-privileged caller is rejected with nothing mutated.
    pub fn service_deferred<C: Collaborators>(
        &mut self,
        c: &mut C,
        caller: Caller,
        weight_limit: Weight,
        para: ParaId,
        max_buckets: usize,
        now: RelayBlockNumber,
    ) -> (r: Result<Weight, Error>)
        requires
            old(self).wf(),
        ensures
            final(self).wf(),
            scheduler_frame(*old(self), *final(self)),
            old(self).overweight@.is_prefix_of(final(self).overweight@),
            old(self).events@.is_prefix_of(final(self).events@),
            final(self).origins@.len() == old(self).origins@.len(),
            caller != Caller::Root ==> r == Err::<Weight, Error>(
                Error::BadOrigin,
            ) && final(self).origins@ == old(self).origins@ && final(self).overweight@ == old(self).overweight@ && final(self).events@ == old(self).events@,
            caller == Caller::Root ==> (r matches Ok(w) && w.spec_all_lte(
                weight_limit,
            )),
            (old(self).queue_suspended || old(self).deferred_suspended) ==> (final(self).origins@
                == old(self).origins@ && final(self).overweight@ == old(self).overweight@
                && final(self).events@ == old(self).events@),
            forall|p: ParaId| p != para ==> final(self).indices_of(p) == old(self).indices_of(p),
            forall|p: ParaId, idx: DeferredIndex|
                p != para ==> final(self).bucket_of(p, idx) == old(self).bucket_of(p, idx),
            indices_suffix(old(self).indices_of(para), final(self).indices_of(para)),
            // Exactly one event is recorded per message this call consumed.
            final(self).events@.len() + stored_messages(final(self).origins@) == old(self).events@.len() + stored_messages(old(self).origins@),
            final(self).overweight@.len() - old(self).overweight@.len() == count_ow_events(
                final(self).events@,
            ) - count_ow_events(old(self).events@),
            final(self).next_overweight_index - old(self).next_overweight_index == final(self).overweight@.len() - old(self).overweight@.len(),
            forall|j: int|
                old(self).events@.len() <= j < final(self).events@.len()
                    ==> scheduler_event_shape(
                    #[trigger] final(self).events@[j],
                    final(self).overweight@,
                    old(self).next_overweight_index,
                    final(self).next_overweight_index,
                ),
            // A privileged, unsuspended call services the chosen origin until
            // nothing of it is due or something blocks: the weight limit, the
            // caller's bucket cap, or the index space.
            (caller == Caller::Root && !old(self).queue_suspended && !old(self).deferred_suspended) ==> (r matches Ok(w) && ((forall|k: int|
                0 <= k < final(self).indices_of(para).len() ==> (#[trigger] final(self).indices_of(para)[k]).0 > now) || (old(self).has_origin(para) && origin_blocked(
                final(self).origins@[old(self).origin_pos(para)],
                *old(c),
                now,
                old(self).config.xcmp_max_individual_weight,
                Weight {
                    ref_time: (weight_limit.ref_time - w.ref_time) as u64,
                    proof_size: (weight_limit.proof_size - w.proof_size) as u64,
                },
                final(self).next_overweight_index,
            )) || (old(self).has_origin(para) && final(self).indices_of(para).len() > 0 && final(self).indices_of(para)[0].0 <= now && (exists|k: int|
                max_buckets <= k <= old(self).indices_of(para).len() && final(self).indices_of(para) == #[trigger] old(self).indices_of(para).skip(k))))),
    {
        let ghost oldind = old(self).indices_of(para);
        if caller != Caller::Root {
            proof {
                assert(oldind == oldind.skip(0));
            }
            return Err(Error::BadOrigin);
        }
        if self.queue_suspended || self.deferred_suspended {
            proof {
                assert(oldind == oldind.skip(0));
            }
            return Ok(Weight::zero());
        }
        let max_individual = self.config.xcmp_max_individual_weight;
        let io = match self.find_origin(para) {
            None => {
                proof {
                    assert(oldind == oldind.skip(0));
                }
                return Ok(Weight::zero());
            },
            Some(io) => io,
        };
        let mut remaining = weight_limit;
        let _res = self.service_origin(c, io, max_buckets, now, max_individual, &mut remaining);
        let consumed = match weight_limit.checked_sub(remaining) {
            Option::Some(w) => w,
            Option::None => {
                proof {
                    assert(false);
                }
                Weight::zero()
            },
        };
        proof {
            Self::lemma_unchanged_but_one(*old(self), *self, io as int, para);
            self.lemma_origin_pos(para, io as int);
            assert(final(self).indices_of(para) == self.origins@[io as int].indices@);
            assert(oldind == old(self).origins@[io as int].indices@);
        }
        Ok(consumed)
    }

    /// Executes one overweight entry under an operator-chosen weight limit:
    /// only the privileged caller may; an unknown index, undecodable bytes,
    /// or an estimate above the limit are rejected with nothing mutated; an
    /// accepted entry is executed once (success or failure), removed, and the
    /// consumed weight returned.
    pub fn service_overweight<C: Collaborators>(
        &mut self,
        c: &mut C,
        caller: Caller,
        index: u64,
        weight_limit: Weight,
    ) -> (r: Result<Weight, Error>)
        requires
            old(self).wf(),
        ensures
            final(self).wf(),
            scheduler_frame(*old(self), *final(self)),
            final(self).origins@ == old(self).origins@,
            final(self).next_overweight_index == old(self).next_overweight_index,
            old(self).events@.is_prefix_of(final(self).events@),
            r matches Err(_) ==> final(self).overweight@ == old(self).overweight@ && final(self).events@ == old(self).events@,
            caller != Caller::Root ==> r == Err::<Weight, Error>(
                Error::BadOrigin,
            ),
            caller == Caller::Root && !old(self).has_overweight(index) ==> r
                == Err::<Weight, Error>(Error::BadOverweightIndex),
            caller == Caller::Root && old(self).has_overweight(index) ==> {
                let e = old(self).overweight@[old(self).overweight_pos(index)];
                &&& (!(exists|d: Seq<u8>|
                    d.len() <= u32::MAX && spec_encode_message(d) == e.encoded@) ==> r
                    == Err::<Weight, Error>(Error::BadXcm))
                &&& forall|d: Seq<u8>|
                    d.len() <= u32::MAX && spec_encode_message(d) == e.encoded@ ==> (match old(c)
                        .weight_of(d) {
                        Option::None => r == Err::<Weight, Error>(
                            Error::WeightOverLimit,
                        ),
                        Option::Some(w) => {
                            &&& w.spec_any_gt(weight_limit) ==> r == Err::<
                                Weight,
                                Error,
                            >(Error::WeightOverLimit)
                            &&& !w.spec_any_gt(weight_limit) ==> (r matches Ok(used)
                                && used.spec_all_lte(w) && final(self).overweight@ == old(self).overweight@.remove(old(self).overweight_pos(index)) && final(self).events@.len() == old(self).events@.len() + 1
                                && old(self).events@.is_prefix_of(final(self).events@) && (
                            exists|o: Outcome|
                                used == o.spec_weight_used() && #[trigger] records_outcome(
                                    final(self).events@.last(),
                                    blake2_256_of(e.encoded@),
                                    o,
                                )))
                        },
                    })
            },
    {
        if caller != Caller::Root {
            return Err(Error::BadOrigin);
        }
        let i = match self.find_overweight(index) {
            None => {
                return Err(Error::BadOverweightIndex);
            },
            Some(i) => i,
        };
        let sender = self.overweight[i].sender;
        let total = self.overweight[i].encoded.len();
        let decoded = crate::codec::decode_message_at(&self.overweight[i].encoded, 0);
        let ghost enc = self.overweight@[i as int].encoded@;
        let (m, used_bytes) = match decoded {
            None => {
                proof {
                    assert forall|d: Seq<u8>|
                        d.len() <= u32::MAX && spec_encode_message(d) == enc implies false by {
                        assert(spec_encode_message(d).is_prefix_of(enc.skip(0))) by {
                            assert(enc.skip(0) =~= enc);
                            assert(spec_encode_message(d) =~= enc.skip(0).subrange(
                                0,
                                spec_encode_message(d).len() as int,
                            ));
                        }
                    }
                }
                return Err(Error::BadXcm);
            },
            Some(p) => p,
        };
        if used_bytes != total {
            proof {
                assert forall|d: Seq<u8>|
                    d.len() <= u32::MAX && spec_encode_message(d) == enc implies false by {
                    assert(spec_encode_message(d).is_prefix_of(enc.skip(0))) by {
                        assert(enc.skip(0) =~= enc);
                        assert(spec_encode_message(d) =~= enc.skip(0).subrange(
                            0,
                            spec_encode_message(d).len() as int,
                        ));
                    }
                    assert(m.data@ == d);
                    assert(used_bytes - 0 == spec_encode_message(d).len());
                }
            }
            return Err(Error::BadXcm);
        }
        proof {
            assert(enc.subrange(0, used_bytes as int) =~= enc);
            assert(spec_encode_message(m.data@) == enc);
            assert forall|d: Seq<u8>|
                d.len() <= u32::MAX && spec_encode_message(d) == enc implies d == m.data@ by {
                assert(spec_encode_message(d).is_prefix_of(enc.skip(0))) by {
                    assert(enc.skip(0) =~= enc);
                    assert(spec_encode_message(d) =~= enc.skip(0).subrange(
                        0,
                        spec_encode_message(d).len() as int,
                    ));
                }
            }
            assert(m.data@.len() <= u32::MAX && spec_encode_message(m.data@) == enc);
            assert(exists|d: Seq<u8>| d.len() <= u32::MAX && spec_encode_message(d) == enc);
        }
        let w = match c.estimate_weight(&m) {
            None => {
                return Err(Error::WeightOverLimit);
            },
            Some(w) => w,
        };
        if w.any_gt(&weight_limit) {
            return Err(Error::WeightOverLimit);
        }
        let used = self.execute_message(c, sender, &m, w);
        self.overweight.remove(i);
        proof {
            assert forall|a: int, b: int|
                0 <= a < b < self.overweight@.len() implies self.overweight@[a].index
                < self.overweight@[b].index by {}
            assert forall|a: int|
                0 <= a < self.overweight@.len() implies (#[trigger] self.overweight@[a]).index
                < self.next_overweight_index by {}
        }
        Ok(used)
    }
}

impl Queue {
    /// Placing one message due strictly after `now` cannot make anything due:
    /// the emergency override, with a positive delay, starves the scheduler.
    pub proof fn lemma_no_due_after_place(
        pre: Queue,
        post: Queue,
        para: ParaId,
        index: DeferredIndex,
        now: RelayBlockNumber,
    )
        requires
            pre.wf(),
            post.wf(),
            no_due(pre, now),
            index.0 > now,
            forall|p: ParaId| p != para ==> post.indices_of(p) == pre.indices_of(p),
            post.indices_of(para) == pre.indices_of(para) || post.indices_of(para).to_set()
                == pre.indices_of(para).to_set().insert(index),
        ensures
            no_due(post, now),
    {
        assert forall|i: int, k: int|
            0 <= i < post.origins@.len() && 0 <= k
                < post.origins@[i].indices@.len() implies (#[trigger] post
            .origins@[i].indices@[k]).0 > now by {
            let p = post.origins@[i].origin;
            post.lemma_origin_pos(p, i);
            assert(post.indices_of(p) == post.origins@[i].indices@);
            let x = post.origins@[i].indices@[k];
            if p != para || post.indices_of(para) == pre.indices_of(para) {
                assert(post.indices_of(p) == pre.indices_of(p));
                assert(pre.has_origin(p));
                let i0 = pre.origin_pos(p);
                assert(pre.origins@[i0].indices@[k] == x);
                assert(pre.origins@[i0].indices@[k].0 > now);
            } else {
                assert(post.indices_of(para).contains(x));
                assert(post.indices_of(para).to_set().contains(x));
                if x != index {
                    assert(pre.indices_of(para).to_set().contains(x));
                    assert(pre.indices_of(para).contains(x));
                    let k0 = choose|k0: int|
                        0 <= k0 < pre.indices_of(para).len() && pre.indices_of(para)[k0] == x;
                    assert(pre.has_origin(para));
                    let i0 = pre.origin_pos(para);
                    assert(pre.origins@[i0].indices@[k0] == x);
                    assert(pre.origins@[i0].indices@[k0].0 > now);
                }
            }
        }
    }
}

} // verus!
