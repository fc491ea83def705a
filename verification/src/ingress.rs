use vstd::prelude::*;
use crate::codec::{
    decode_message_at, encode_message, frames_decode, lemma_frames_step, spec_encode_message,
};
use crate::hashing::blake2_256_of;
use crate::policy::{decide_deferral, spec_decision};
use crate::scheduler::{no_due, stored_messages};
use crate::store::can_accept;
use crate::queue::{InboundPage, Queue};
use crate::traits::Collaborators;
use crate::types::{
    ChannelError, Decision, DeferredMessage, Event, ExecError, IngressOutcome, ParaId,
    RelayBlockNumber,
};
use crate::weight::Weight;

verus! {

/// Leading discriminant of a batch of concatenated message encodings.
pub const FORMAT_CONCATENATED: u8 = 0;

/// Leading discriminant of a batch of concatenated length-prefixed blobs.
pub const FORMAT_BLOBS: u8 = 1;

/// How many pages are held for one origin.
pub open spec fn pages_held(pages: Seq<InboundPage>, sender: ParaId) -> int
    decreases pages.len(),
{
    if pages.len() == 0 {
        0
    } else {
        pages_held(pages.drop_last(), sender) + if pages.last().sender == sender {
            1int
        } else {
            0int
        }
    }
}

/// The deferred store holds, under the given origin, a bucket keyed to `to`
/// with a message carrying exactly this provenance and payload.
pub open spec fn deferred_contains(
    origins: Seq<crate::queue::OriginState>,
    sender: ParaId,
    sent_at: RelayBlockNumber,
    to: RelayBlockNumber,
    d: Seq<u8>,
) -> bool {
    exists|i: int, j: int, sl: int|
        {
            &&& 0 <= i < origins.len()
            &&& origins[i].origin == sender
            &&& 0 <= j < origins[i].indices@.len()
            &&& origins[i].indices@[j].0 == to
            &&& 0 <= sl < origins[i].buckets@[j]@.len()
            &&& ((#[trigger] origins[i].buckets@[j]@[sl]) matches Some(m) && m.sent_at == sent_at
                && m.deferred_to == to && m.sender == sender && m.xcm.data@ == d)
        }
}

/// An event records that this message was admitted to the deferred store.
pub open spec fn events_contain_deferral(
    events: Seq<Event>,
    sender: ParaId,
    sent_at: RelayBlockNumber,
    to: RelayBlockNumber,
    h: Seq<u8>,
) -> bool {
    exists|i: int|
        0 <= i < events.len() && ((#[trigger] events[i]) matches Event::XcmDeferred {
            sender: s2,
            sent_at: sa2,
            deferred_to: to2,
            index,
            position,
            message_hash,
        } && s2 == sender && sa2 == sent_at && to2 == to && index.0 == to && (message_hash
            matches Some(hh) && hh@ == h))
}

/// A placement never disturbs a message already stored: whatever the deferred
/// store contained, it still contains.
pub proof fn lemma_deferred_contains_mono(
    pre: Queue,
    post: Queue,
    sender2: ParaId,
    placed_index: crate::types::DeferredIndex,
    csender: ParaId,
    csent: RelayBlockNumber,
    cto: RelayBlockNumber,
    cd: Seq<u8>,
)
    requires
        pre.wf(),
        post.wf(),
        deferred_contains(pre.origins@, csender, csent, cto, cd),
        forall|p: ParaId| p != sender2 ==> post.indices_of(p) == pre.indices_of(p),
        forall|p: ParaId, idx: crate::types::DeferredIndex|
            p != sender2 ==> post.bucket_of(p, idx) == pre.bucket_of(p, idx),
        forall|idx: crate::types::DeferredIndex|
            idx != placed_index ==> post.bucket_of(sender2, idx) == pre.bucket_of(sender2, idx),
        (match pre.bucket_of(sender2, placed_index) {
            Some(b0) => post.bucket_of(sender2, placed_index) matches Some(b) && b.len()
                >= b0.len() && (forall|sl: int|
                0 <= sl < b0.len() ==> (b0[sl] is Some ==> b[sl] == b0[sl])),
            None => true,
        }),
        forall|idx: crate::types::DeferredIndex|
            pre.indices_of(sender2).contains(idx) ==> post.indices_of(sender2).contains(idx),
    ensures
        deferred_contains(post.origins@, csender, csent, cto, cd),
{
    let (i, j, sl) = choose|i: int, j: int, sl: int|
        {
            &&& 0 <= i < pre.origins@.len()
            &&& pre.origins@[i].origin == csender
            &&& 0 <= j < pre.origins@[i].indices@.len()
            &&& pre.origins@[i].indices@[j].0 == cto
            &&& 0 <= sl < pre.origins@[i].buckets@[j]@.len()
            &&& ((#[trigger] pre.origins@[i].buckets@[j]@[sl]) matches Some(m) && m.sent_at
                == csent && m.deferred_to == cto && m.sender == csender && m.xcm.data@ == cd)
        };
    pre.lemma_origin_pos(csender, i);
    let o = pre.origins@[i];
    let idx = o.indices@[j];
    Queue::lemma_index_pos(
        o,
        pre.max_buckets_per_origin as int,
        pre.max_messages_per_bucket as int,
        idx,
        j,
    );
    assert(pre.bucket_of(csender, idx) == Some(o.buckets@[j]@));
    assert(pre.indices_of(csender).contains(idx));
    let post_bucket: Seq<Option<crate::types::DeferredMessage>> = if csender != sender2 {
        assert(post.bucket_of(csender, idx) == pre.bucket_of(csender, idx));
        post.bucket_of(csender, idx)->0
    } else {
        if idx != placed_index {
            assert(post.bucket_of(csender, idx) == pre.bucket_of(csender, idx));
        }
        post.bucket_of(csender, idx)->0
    };
    assert(post.bucket_of(csender, idx) is Some);
    assert(0 <= sl < post_bucket.len() && post_bucket[sl] == o.buckets@[j]@[sl]);
    assert(post.indices_of(csender).contains(idx)) by {
        if csender != sender2 {
            assert(post.indices_of(csender) == pre.indices_of(csender));
        }
    }
    assert(post.has_origin(csender)) by {
        assert(post.indices_of(csender).len() > 0);
    }
    let i2 = post.origin_pos(csender);
    let j2 = choose|j2: int|
        0 <= j2 < post.indices_of(csender).len() && post.indices_of(csender)[j2] == idx;
    let o2 = post.origins@[i2];
    Queue::lemma_index_pos(
        o2,
        post.max_buckets_per_origin as int,
        post.max_messages_per_bucket as int,
        idx,
        j2,
    );
    assert(post.bucket_of(csender, idx) == Some(o2.buckets@[j2]@));
    assert(o2.buckets@[j2]@[sl] == post_bucket[sl]);
    assert(o2.indices@[j2].0 == cto);
}

/// The batch body is exactly one message encoding.
pub open spec fn single_frame(data: Seq<u8>) -> bool {
    exists|d: Seq<u8>|
        d.len() <= u32::MAX && (#[trigger] spec_encode_message(d)).is_prefix_of(data.skip(1))
            && spec_encode_message(d).len() == data.len() - 1
}

/// Deferral facts recorded for earlier frames persist through a step that
/// leaves the deferred store untouched and only appends events; and no such
/// fact is owed for the first frame when this step decided to execute it.
pub proof fn lemma_deferral_facts_persist<C: Collaborators>(
    c0: C,
    head_origins: Seq<crate::queue::OriginState>,
    head_events: Seq<Event>,
    cur_origins: Seq<crate::queue::OriginState>,
    cur_events: Seq<Event>,
    sender: ParaId,
    sent_at: RelayBlockNumber,
    now: RelayBlockNumber,
    data: Seq<u8>,
    dur: u32,
    ov: Option<u32>,
    pos: int,
    mdata: Seq<u8>,
)
    requires
        1 <= pos,
        cur_origins == head_origins,
        head_events.is_prefix_of(cur_events),
        forall|d: Seq<u8>|
            (pos > 1 && d.len() <= u32::MAX && spec_encode_message(d).is_prefix_of(data.skip(1))
                && spec_decision(c0.classifier_matches(sender, d), sent_at, now, dur, ov)
                is DeferUntil) ==> (deferred_contains(
                head_origins,
                sender,
                sent_at,
                spec_decision(c0.classifier_matches(sender, d), sent_at, now, dur, ov)->0,
                d,
            ) && events_contain_deferral(
                head_events,
                sender,
                sent_at,
                spec_decision(c0.classifier_matches(sender, d), sent_at, now, dur, ov)->0,
                blake2_256_of(spec_encode_message(d)),
            )),
        pos == 1 ==> (forall|d2: Seq<u8>|
            d2.len() <= u32::MAX && spec_encode_message(d2).is_prefix_of(data.skip(1)) ==> d2
                == mdata),
        pos == 1 ==> spec_decision(c0.classifier_matches(sender, mdata), sent_at, now, dur, ov)
            is Execute,
    ensures
        forall|d: Seq<u8>|
            (d.len() <= u32::MAX && spec_encode_message(d).is_prefix_of(data.skip(1))
                && spec_decision(c0.classifier_matches(sender, d), sent_at, now, dur, ov)
                is DeferUntil) ==> (deferred_contains(
                cur_origins,
                sender,
                sent_at,
                spec_decision(c0.classifier_matches(sender, d), sent_at, now, dur, ov)->0,
                d,
            ) && events_contain_deferral(
                cur_events,
                sender,
                sent_at,
                spec_decision(c0.classifier_matches(sender, d), sent_at, now, dur, ov)->0,
                blake2_256_of(spec_encode_message(d)),
            )),
{
    assert forall|d: Seq<u8>|
        (d.len() <= u32::MAX && spec_encode_message(d).is_prefix_of(data.skip(1))
            && spec_decision(c0.classifier_matches(sender, d), sent_at, now, dur, ov)
            is DeferUntil) implies (deferred_contains(
        cur_origins,
        sender,
        sent_at,
        spec_decision(c0.classifier_matches(sender, d), sent_at, now, dur, ov)->0,
        d,
    ) && events_contain_deferral(
        cur_events,
        sender,
        sent_at,
        spec_decision(c0.classifier_matches(sender, d), sent_at, now, dur, ov)->0,
        blake2_256_of(spec_encode_message(d)),
    )) by {
        let to2 = spec_decision(c0.classifier_matches(sender, d), sent_at, now, dur, ov)->0;
        if pos == 1 {
            assert(d == mdata);
            assert(false);
        } else {
            assert(events_contain_deferral(
                head_events,
                sender,
                sent_at,
                to2,
                blake2_256_of(spec_encode_message(d)),
            ));
            let i = choose|i: int|
                0 <= i < head_events.len() && ((#[trigger] head_events[i]) matches
                    Event::XcmDeferred {
                    sender: s2,
                    sent_at: sa2,
                    deferred_to: to3,
                    index,
                    position,
                    message_hash,
                } && s2 == sender && sa2 == sent_at && to3 == to2 && index.0 == to2 && (
                message_hash matches Some(hh) && hh@ == blake2_256_of(spec_encode_message(d))));
            assert(cur_events[i] == head_events[i]);
        }
    }
}

/// The given origin is the sender of one of the batches.
pub open spec fn names_a_batch_sender(batches: Seq<InboundPage>, sender: ParaId) -> bool {
    exists|i: int| 0 <= i < batches.len() && batches[i].sender == sender
}

/// Everything ingress never touches: the configuration, the flags, the
/// override, and the policy parameters.
pub open spec fn ingress_frame(pre: Queue, post: Queue) -> bool {
    &&& post.config == pre.config
    &&& post.queue_suspended == pre.queue_suspended
    &&& post.deferred_suspended == pre.deferred_suspended
    &&& post.defer_all_by == pre.defer_all_by
    &&& post.defer_duration == pre.defer_duration
    &&& post.max_messages_per_bucket == pre.max_messages_per_bucket
    &&& post.max_buckets_per_origin == pre.max_buckets_per_origin
    &&& post.max_buckets_processed == pre.max_buckets_processed
}

impl Queue {
    /// Holds the tail of a suspended or budget-stopped channel batch, unless
    /// the origin already holds `drop_threshold` pages, in which case the
    /// bytes are dropped.
    fn hold_page(&mut self, sender: ParaId, sent_at: RelayBlockNumber, data: &Vec<u8>, from: usize)
        requires
            old(self).wf(),
            from <= data@.len(),
        ensures
            final(self).wf(),
            ingress_frame(*old(self), *final(self)),
            final(self).origins@ == old(self).origins@,
            final(self).overweight@ == old(self).overweight@,
            final(self).next_overweight_index == old(self).next_overweight_index,
            final(self).events@ == old(self).events@,
            old(self).inbound@.is_prefix_of(final(self).inbound@),
            pages_held(old(self).inbound@, sender) >= old(self).config.drop_threshold ==> final(self).inbound@ == old(self).inbound@,
            pages_held(old(self).inbound@, sender) < old(self).config.drop_threshold ==> (final(self).inbound@.len() == old(self).inbound@.len() + 1 && final(self).inbound@.last().sender
                == sender && final(self).inbound@.last().sent_at == sent_at && final(self).inbound@.last().data@ == data@.skip(from as int)),
    {
        let mut count: usize = 0;
        let mut i: usize = 0;
        while i < self.inbound.len()
            invariant
                i <= self.inbound@.len(),
                count <= i,
                count == pages_held(self.inbound@.take(i as int), sender),
            decreases self.inbound@.len() - i,
        {
            proof {
                assert(self.inbound@.take(i + 1).drop_last() =~= self.inbound@.take(i as int));
                assert(self.inbound@.take(i + 1).last() == self.inbound@[i as int]);
            }
            if self.inbound[i].sender == sender {
                count = count + 1;
            }
            i = i + 1;
        }
        proof {
            assert(self.inbound@.take(self.inbound@.len() as int) =~= self.inbound@);
        }
        if count >= self.config.drop_threshold as usize {
            return ;
        }
        let mut tail: Vec<u8> = Vec::new();
        let mut k: usize = from;
        while k < data.len()
            invariant
                from <= k <= data@.len(),
                tail@ == data@.subrange(from as int, k as int),
            decreases data@.len() - k,
        {
            tail.push(data[k]);
            proof {
                assert(data@.subrange(from as int, k + 1) =~= data@.subrange(
                    from as int,
                    k as int,
                ).push(data@[k as int]));
            }
            k = k + 1;
        }
        proof {
            assert(tail@ =~= data@.skip(from as int));
        }
        let ghost before = self.inbound@;
        self.inbound.push(InboundPage { sender, sent_at, data: tail });
        proof {
            assert(before.is_prefix_of(self.inbound@)) by {
                assert(before =~= self.inbound@.subrange(0, before.len() as int));
            }
        }
    }
}

impl Queue {
    /// Processes one channel's batch: reads the leading format discriminant,
    /// then decodes and admits one message at a time. A decode failure
    /// discards the channel's remainder and is reported; a blob batch is
    /// checked structurally and rejected; under suspension (unless the origin
    /// bypasses it) the undecoded payload is held back; a message the budget
    /// cannot cover stops the channel with its remainder held back.
    #[verifier::rlimit(100)]
    fn handle_channel<C: Collaborators>(
        &mut self,
        c: &mut C,
        sender: ParaId,
        sent_at: RelayBlockNumber,
        data: &Vec<u8>,
        remaining: &mut Weight,
        now: RelayBlockNumber,
    ) -> (err: Option<ChannelError>)
        requires
            old(self).wf(),
        ensures
            final(self).wf(),
            ingress_frame(*old(self), *final(self)),
            final(remaining).spec_all_lte(*old(remaining)),
            old(self).events@.is_prefix_of(final(self).events@),
            old(self).overweight@.is_prefix_of(final(self).overweight@),
            old(self).inbound@.is_prefix_of(final(self).inbound@),
            final(self).next_overweight_index >= old(self).next_overweight_index,
            (old(self).queue_suspended && !old(c).suspension_bypassed(sender)) ==> (final(self).origins@ == old(self).origins@ && final(self).overweight@ == old(self).overweight@
                && final(self).events@ == old(self).events@ && final(self).next_overweight_index
                == old(self).next_overweight_index && *final(c) == *old(c) && *final(remaining)
                == *old(remaining)),
            (old(self).defer_all_by matches Some(d) && 1 <= d && now < u32::MAX) ==> (final(self).overweight@ == old(self).overweight@ && final(self).next_overweight_index == old(self).next_overweight_index && *final(remaining) == *old(remaining) && (no_due(
                *old(self),
                now,
            ) ==> no_due(*final(self), now))),
            // Error taxonomy: every error kind is tied to its cause.
            data@.len() == 0 ==> err == Some(ChannelError::Malformed),
            err == Some(ChannelError::BlobsNotHandled) ==> (data@.len() > 0 && data@[0]
                == FORMAT_BLOBS),
            err == Some(ChannelError::Malformed) ==> (data@.len() == 0 || (data@[0]
                != FORMAT_CONCATENATED && data@[0] != FORMAT_BLOBS) || !frames_decode(data@, 1)),
            (data@.len() > 0 && data@[0] == FORMAT_BLOBS) ==> (err == Some(
                if frames_decode(data@, 1) {
                    ChannelError::BlobsNotHandled
                } else {
                    ChannelError::Malformed
                },
            ) && final(self).origins@ == old(self).origins@ && final(self).overweight@ == old(self).overweight@ && final(self).events@ == old(self).events@ && final(self).inbound@ == old(self).inbound@ && *final(remaining) == *old(remaining)),
            // A decodable, unsuspended batch raises no error, short of a
            // rejected placement or an exhausted budget or index space.
            (data@.len() > 0 && data@[0] == FORMAT_CONCATENATED && !(old(self).queue_suspended
                && !old(c).suspension_bypassed(sender)) && frames_decode(data@, 1)) ==> (err
                is None || err == Some(ChannelError::DeferredQueueFull) || err == Some(
                ChannelError::WeightExhausted,
            )),
            (data@.len() > 0 && data@[0] != FORMAT_BLOBS && data@[0] != FORMAT_CONCATENATED) ==> (
            err == Some(ChannelError::Malformed) && final(self).origins@ == old(self).origins@
                && final(self).overweight@ == old(self).overweight@ && final(self).events@ == old(self).events@ && final(self).inbound@ == old(self).inbound@ && *final(remaining) == *old(remaining)),
            // Ingress only adds stored messages, and announces each with an
            // event.
            stored_messages(final(self).origins@) >= stored_messages(old(self).origins@),
            final(self).events@.len() - old(self).events@.len() >= stored_messages(
                final(self).origins@,
            ) - stored_messages(old(self).origins@),
            // The pure collaborators decide the same afterwards.
            forall|d: Seq<u8>| final(c).weight_of(d) == old(c).weight_of(d),
            forall|p: ParaId, d: Seq<u8>|
                final(c).classifier_matches(p, d) == old(c).classifier_matches(p, d),
            forall|p: ParaId| final(c).suspension_bypassed(p) == old(c).suspension_bypassed(p),
            // A nonempty well-formed batch that was not suspended and raised
            // no error recorded at least one event.
            (!old(self).queue_suspended && data@.len() > 1 && data@[0] == FORMAT_CONCATENATED
                && err is None) ==> final(self).events@.len() > old(self).events@.len(),
            // A batch of exactly one message that the policy defers and the
            // store can accept raises no error at all.
            forall|d: Seq<u8>|
                (data@.len() > 1 && data@[0] == FORMAT_CONCATENATED && !(old(self).queue_suspended
                    && !old(c).suspension_bypassed(sender)) && d.len() <= u32::MAX
                    && spec_encode_message(d).is_prefix_of(data@.skip(1))
                    && spec_encode_message(d).len() == data@.len() - 1 && spec_decision(
                    old(c).classifier_matches(sender, d),
                    sent_at,
                    now,
                    old(self).defer_duration,
                    old(self).defer_all_by,
                ) is DeferUntil && can_accept(
                    *old(self),
                    sender,
                    spec_decision(
                        old(c).classifier_matches(sender, d),
                        sent_at,
                        now,
                        old(self).defer_duration,
                        old(self).defer_all_by,
                    )->0,
                )) ==> err is None,
            // The batch's first message, when the policy defers it, is stored
            // under its due block with its deferral event recorded — unless
            // the placement itself was rejected as full.
            forall|d: Seq<u8>|
                (data@.len() > 1 && data@[0] == FORMAT_CONCATENATED && !(old(self).queue_suspended
                    && !old(c).suspension_bypassed(sender)) && d.len() <= u32::MAX
                    && spec_encode_message(d).is_prefix_of(data@.skip(1)) && spec_decision(
                    old(c).classifier_matches(sender, d),
                    sent_at,
                    now,
                    old(self).defer_duration,
                    old(self).defer_all_by,
                ) is DeferUntil && err != Some(ChannelError::DeferredQueueFull)) ==> (
                deferred_contains(
                    final(self).origins@,
                    sender,
                    sent_at,
                    spec_decision(
                        old(c).classifier_matches(sender, d),
                        sent_at,
                        now,
                        old(self).defer_duration,
                        old(self).defer_all_by,
                    )->0,
                    d,
                ) && events_contain_deferral(
                    final(self).events@,
                    sender,
                    sent_at,
                    spec_decision(
                        old(c).classifier_matches(sender, d),
                        sent_at,
                        now,
                        old(self).defer_duration,
                        old(self).defer_all_by,
                    )->0,
                    blake2_256_of(spec_encode_message(d)),
                )),
    {
        if data.len() == 0 {
            return Some(ChannelError::Malformed);
        }
        let format = data[0];
        if format == FORMAT_BLOBS {
            // Accepted structurally, not interpretable: scan the frames, then
            // reject the batch gracefully.
            let mut pos: usize = 1;
            while pos < data.len()
                invariant
                    1 <= pos <= data@.len(),
                    data@[0] == FORMAT_BLOBS,
                    frames_decode(data@, 1) == frames_decode(data@, pos as int),
                    *self == *old(self),
                    *remaining == *old(remaining),
                    *c == *old(c),
                    self.wf(),
                decreases data@.len() - pos,
            {
                match decode_message_at(data, pos) {
                    Option::None => {
                        proof {
                            assert(!frames_decode(data@, pos as int));
                        }
                        return Some(ChannelError::Malformed);
                    },
                    Option::Some(p) => {
                        proof {
                            assert(spec_encode_message(p.0.data@).is_prefix_of(
                                data@.skip(pos as int),
                            )) by {
                                assert(spec_encode_message(p.0.data@) =~= data@.skip(
                                    pos as int,
                                ).subrange(0, spec_encode_message(p.0.data@).len() as int));
                            }
                            lemma_frames_step(data@, pos as int, p.0.data@, p.1 as int);
                        }
                        pos = p.1;
                    },
                }
            }
            proof {
                assert(frames_decode(data@, pos as int));
            }
            return Some(ChannelError::BlobsNotHandled);
        }
        if format != FORMAT_CONCATENATED {
            return Some(ChannelError::Malformed);
        }
        if self.queue_suspended && !c.bypasses_suspension(sender) {
            self.hold_page(sender, sent_at, data, 1);
            return None;
        }
        let mut pos: usize = 1;
        let ghost pre = *self;
        let ghost pre_budget = *remaining;
        while pos < data.len()
            invariant
                pre == *old(self),
                pre_budget == *old(remaining),
                data@.len() > 0 && data@[0] == FORMAT_CONCATENATED,
                frames_decode(data@, 1) == frames_decode(data@, pos as int),
                pos == 1 ==> (*self == pre && *remaining == pre_budget && *c == *old(c)),
                (1 < pos && pos < data@.len()) ==> !single_frame(data@),
                !(old(self).queue_suspended && !old(c).suspension_bypassed(sender)),
                (old(self).defer_all_by matches Some(d) && 1 <= d && now < u32::MAX) ==> (
                self.overweight@ == pre.overweight@ && self.next_overweight_index
                    == pre.next_overweight_index && *remaining == pre_budget && (no_due(pre, now)
                    ==> no_due(*self, now))),
                self.wf(),
                1 <= pos <= data@.len(),
                remaining.spec_all_lte(pre_budget),
                ingress_frame(pre, *self),
                pre.events@.is_prefix_of(self.events@),
                pre.overweight@.is_prefix_of(self.overweight@),
                pre.inbound@.is_prefix_of(self.inbound@),
                self.next_overweight_index >= pre.next_overweight_index,
                stored_messages(self.origins@) >= stored_messages(pre.origins@),
                self.events@.len() - pre.events@.len() >= stored_messages(self.origins@)
                    - stored_messages(pre.origins@),
                pos > 1 ==> self.events@.len() > pre.events@.len(),
                forall|d: Seq<u8>| c.weight_of(d) == old(c).weight_of(d),
                forall|p: ParaId, d: Seq<u8>|
                    c.classifier_matches(p, d) == old(c).classifier_matches(p, d),
                forall|p: ParaId| c.suspension_bypassed(p) == old(c).suspension_bypassed(p),
                forall|d: Seq<u8>|
                    (pos > 1 && d.len() <= u32::MAX && spec_encode_message(d).is_prefix_of(
                        data@.skip(1),
                    ) && spec_decision(
                        old(c).classifier_matches(sender, d),
                        sent_at,
                        now,
                        old(self).defer_duration,
                        old(self).defer_all_by,
                    ) is DeferUntil) ==> (deferred_contains(
                        self.origins@,
                        sender,
                        sent_at,
                        spec_decision(
                            old(c).classifier_matches(sender, d),
                            sent_at,
                            now,
                            old(self).defer_duration,
                            old(self).defer_all_by,
                        )->0,
                        d,
                    ) && events_contain_deferral(
                        self.events@,
                        sender,
                        sent_at,
                        spec_decision(
                            old(c).classifier_matches(sender, d),
                            sent_at,
                            now,
                            old(self).defer_duration,
                            old(self).defer_all_by,
                        )->0,
                        blake2_256_of(spec_encode_message(d)),
                    )),
            decreases data@.len() - pos,
        {
            let ghost head = *self;
            let (m, newpos) = match decode_message_at(data, pos) {
                Option::None => {
                    proof {
                        assert(!frames_decode(data@, pos as int));
                        assert forall|d: Seq<u8>|
                            (d.len() <= u32::MAX && spec_encode_message(d).is_prefix_of(
                                data@.skip(1),
                            ) && spec_decision(
                                old(c).classifier_matches(sender, d),
                                sent_at,
                                now,
                                old(self).defer_duration,
                                old(self).defer_all_by,
                            ) is DeferUntil) implies (deferred_contains(
                            self.origins@,
                            sender,
                            sent_at,
                            spec_decision(
                                old(c).classifier_matches(sender, d),
                                sent_at,
                                now,
                                old(self).defer_duration,
                                old(self).defer_all_by,
                            )->0,
                            d,
                        ) && events_contain_deferral(
                            self.events@,
                            sender,
                            sent_at,
                            spec_decision(
                                old(c).classifier_matches(sender, d),
                                sent_at,
                                now,
                                old(self).defer_duration,
                                old(self).defer_all_by,
                            )->0,
                            blake2_256_of(spec_encode_message(d)),
                        )) by {
                            if pos == 1 {
                                assert(false);
                            }
                        }
                    }
                    return Some(ChannelError::Malformed);
                },
                Option::Some(p) => p,
            };
            proof {
                assert(spec_encode_message(m.data@).is_prefix_of(data@.skip(pos as int))) by {
                    assert(spec_encode_message(m.data@) =~= data@.skip(pos as int).subrange(
                        0,
                        spec_encode_message(m.data@).len() as int,
                    ));
                }
                lemma_frames_step(data@, pos as int, m.data@, newpos as int);
            }
            let decision = decide_deferral(
                c,
                sender,
                &m,
                sent_at,
                now,
                self.defer_duration,
                self.defer_all_by,
            );
            match decision {
                Decision::DeferUntil(to) => {
                    let hash = Self::hash_of_message(&m);
                    let dm = DeferredMessage { sent_at, deferred_to: to, sender, xcm: m };
                    let ghost gdm = dm;
                    let ghost at_place = *self;
                    match self.try_place_in_deferred_queue(sender, to, dm) {
                        Ok(placed) => {
                            proof {
                                assert forall|d: Seq<u8>|
                                    (d.len() <= u32::MAX && spec_encode_message(d).is_prefix_of(
                                        data@.skip(1),
                                    ) && spec_decision(
                                        old(c).classifier_matches(sender, d),
                                        sent_at,
                                        now,
                                        old(self).defer_duration,
                                        old(self).defer_all_by,
                                    ) is DeferUntil) implies deferred_contains(
                                    self.origins@,
                                    sender,
                                    sent_at,
                                    spec_decision(
                                        old(c).classifier_matches(sender, d),
                                        sent_at,
                                        now,
                                        old(self).defer_duration,
                                        old(self).defer_all_by,
                                    )->0,
                                    d,
                                ) by {
                                    let to2 = spec_decision(
                                        old(c).classifier_matches(sender, d),
                                        sent_at,
                                        now,
                                        old(self).defer_duration,
                                        old(self).defer_all_by,
                                    )->0;
                                    if pos == 1 {
                                        assert(gdm.xcm.data@ == d);
                                        assert(to2 == to);
                                        assert(self.bucket_of(sender, placed.0) is Some);
                                        assert(self.has_origin(sender));
                                        let i = self.origin_pos(sender);
                                        let o = self.origins@[i];
                                        assert(o.has_index(placed.0));
                                        let j = o.index_pos(placed.0);
                                        assert(0 <= j < o.indices@.len() && o.indices@[j]
                                            == placed.0);
                                        assert(o.buckets@[j]@[placed.1 as int] == Some(gdm));
                                        assert(deferred_contains(
                                            self.origins@,
                                            sender,
                                            sent_at,
                                            to2,
                                            d,
                                        ));
                                    } else {
                                        assert(deferred_contains(
                                            at_place.origins@,
                                            sender,
                                            sent_at,
                                            to2,
                                            d,
                                        ));
                                        assert forall|idx: crate::types::DeferredIndex|
                                            at_place.indices_of(sender).contains(
                                                idx,
                                            ) implies self.indices_of(sender).contains(idx) by {
                                            if at_place.bucket_of(sender, placed.0) is None {
                                                assert(self.indices_of(sender).to_set().contains(
                                                    idx,
                                                ));
                                            }
                                        }
                                        if at_place.bucket_of(sender, placed.0) is Some {
                                            let b0 = at_place.bucket_of(sender, placed.0)->0;
                                            let b = self.bucket_of(sender, placed.0)->0;
                                            if placed.1 < b0.len() {
                                                assert(b0[placed.1 as int] is None && b
                                                    == b0.update(placed.1 as int, Some(gdm)));
                                            } else {
                                                assert(b == b0.push(Some(gdm)));
                                            }
                                            assert(b.len() >= b0.len());
                                            assert forall|sl: int|
                                                0 <= sl < b0.len() implies (b0[sl] is Some
                                                ==> b[sl] == b0[sl]) by {}
                                        }
                                        lemma_deferred_contains_mono(
                                            at_place,
                                            *self,
                                            sender,
                                            placed.0,
                                            sender,
                                            sent_at,
                                            to2,
                                            d,
                                        );
                                    }
                                }
                            }
                            proof {
                                if old(self).defer_all_by matches Some(d) && 1 <= d && now
                                    < u32::MAX && no_due(pre, now) {
                                    assert(placed.0.0 == to);
                                    assert(to > now) by {
                                        assert(to == crate::policy::sat_add_u32(now, old(self).defer_all_by.unwrap()));
                                    }
                                    Queue::lemma_no_due_after_place(
                                        at_place,
                                        *self,
                                        sender,
                                        placed.0,
                                        now,
                                    );
                                }
                            }
                            let ghost pre_push = *self;
                            self.events.push(
                                Event::XcmDeferred {
                                    sender,
                                    sent_at,
                                    deferred_to: to,
                                    index: placed.0,
                                    position: placed.1,
                                    message_hash: Some(hash),
                                },
                            );
                            proof {
                                assert forall|d: Seq<u8>|
                                    (d.len() <= u32::MAX && spec_encode_message(d).is_prefix_of(
                                        data@.skip(1),
                                    ) && spec_decision(
                                        old(c).classifier_matches(sender, d),
                                        sent_at,
                                        now,
                                        old(self).defer_duration,
                                        old(self).defer_all_by,
                                    ) is DeferUntil) implies events_contain_deferral(
                                    self.events@,
                                    sender,
                                    sent_at,
                                    spec_decision(
                                        old(c).classifier_matches(sender, d),
                                        sent_at,
                                        now,
                                        old(self).defer_duration,
                                        old(self).defer_all_by,
                                    )->0,
                                    blake2_256_of(spec_encode_message(d)),
                                ) by {
                                    let to2 = spec_decision(
                                        old(c).classifier_matches(sender, d),
                                        sent_at,
                                        now,
                                        old(self).defer_duration,
                                        old(self).defer_all_by,
                                    )->0;
                                    if pos == 1 {
                                        assert(gdm.xcm.data@ == d);
                                        assert(to2 == to);
                                        let n = self.events@.len() - 1;
                                        assert(self.events@[n] matches Event::XcmDeferred {
                                            sender: s2,
                                            sent_at: sa2,
                                            deferred_to: to3,
                                            index,
                                            position,
                                            message_hash,
                                        } && s2 == sender && sa2 == sent_at && to3 == to2
                                            && index.0 == to2 && (message_hash matches Some(hh)
                                            && hh@ == blake2_256_of(spec_encode_message(d))));
                                    } else {
                                        assert(events_contain_deferral(
                                            head.events@,
                                            sender,
                                            sent_at,
                                            to2,
                                            blake2_256_of(spec_encode_message(d)),
                                        ));
                                        let i = choose|i: int|
                                            0 <= i < head.events@.len() && ((#[trigger] head
                                                .events@[i]) matches Event::XcmDeferred {
                                                sender: s2,
                                                sent_at: sa2,
                                                deferred_to: to3,
                                                index,
                                                position,
                                                message_hash,
                                            } && s2 == sender && sa2 == sent_at && to3 == to2
                                                && index.0 == to2 && (message_hash matches Some(
                                                hh,
                                            ) && hh@ == blake2_256_of(spec_encode_message(d))));
                                        assert(self.events@[i] == head.events@[i]);
                                    }
                                }
                            }
                        },
                        Err(_) => {
                            proof {
                                assert(pre.events@.is_prefix_of(self.events@)) by {
                                    assert(pre.events@ =~= self.events@.subrange(
                                        0,
                                        pre.events@.len() as int,
                                    ));
                                }
                            }
                            return Some(ChannelError::DeferredQueueFull);
                        },
                    }
                },
                Decision::Execute => {
                    match c.estimate_weight(&m) {
                        Option::None => {
                            let hash = Self::hash_of_message(&m);
                            self.events.push(
                                Event::Fail {
                                    message_hash: hash,
                                    error: ExecError::WeightNotComputable,
                                },
                            );
                            proof {
                                assert(self.origins@ == head.origins@);
                                assert(head.events@.is_prefix_of(self.events@)) by {
                                    assert(head.events@ =~= self.events@.subrange(
                                        0,
                                        head.events@.len() as int,
                                    ));
                                }
                                lemma_deferral_facts_persist(
                                    *old(c),
                                    head.origins@,
                                    head.events@,
                                    self.origins@,
                                    self.events@,
                                    sender,
                                    sent_at,
                                    now,
                                    data@,
                                    old(self).defer_duration,
                                    old(self).defer_all_by,
                                    pos as int,
                                    m.data@,
                                );
                            }
                        },
                        Option::Some(w) => {
                            let max_individual = self.config.xcmp_max_individual_weight;
                            if w.any_gt(&max_individual) {
                                if self.next_overweight_index < u64::MAX {
                                    let encoded = encode_message(&m);
                                    let idx = self.inject_overweight_message(
                                        sender,
                                        sent_at,
                                        encoded,
                                    );
                                    self.events.push(Event::OverweightEnqueued { index: idx });
                            proof {
                                assert(self.origins@ == head.origins@);
                                assert(head.events@.is_prefix_of(self.events@)) by {
                                    assert(head.events@ =~= self.events@.subrange(
                                        0,
                                        head.events@.len() as int,
                                    ));
                                }
                                lemma_deferral_facts_persist(
                                    *old(c),
                                    head.origins@,
                                    head.events@,
                                    self.origins@,
                                    self.events@,
                                    sender,
                                    sent_at,
                                    now,
                                    data@,
                                    old(self).defer_duration,
                                    old(self).defer_all_by,
                                    pos as int,
                                    m.data@,
                                );
                            }
                                } else {
                                    self.hold_page(sender, sent_at, data, pos);
                            proof {
                                assert(self.origins@ == head.origins@);
                                assert(head.events@.is_prefix_of(self.events@)) by {
                                    assert(head.events@ =~= self.events@.subrange(
                                        0,
                                        head.events@.len() as int,
                                    ));
                                }
                                lemma_deferral_facts_persist(
                                    *old(c),
                                    head.origins@,
                                    head.events@,
                                    self.origins@,
                                    self.events@,
                                    sender,
                                    sent_at,
                                    now,
                                    data@,
                                    old(self).defer_duration,
                                    old(self).defer_all_by,
                                    pos as int,
                                    m.data@,
                                );
                            }
                                    return Some(ChannelError::WeightExhausted);
                                }
                            } else if w.any_gt(remaining) {
                                self.hold_page(sender, sent_at, data, pos);
                            proof {
                                assert(self.origins@ == head.origins@);
                                assert(head.events@.is_prefix_of(self.events@)) by {
                                    assert(head.events@ =~= self.events@.subrange(
                                        0,
                                        head.events@.len() as int,
                                    ));
                                }
                                lemma_deferral_facts_persist(
                                    *old(c),
                                    head.origins@,
                                    head.events@,
                                    self.origins@,
                                    self.events@,
                                    sender,
                                    sent_at,
                                    now,
                                    data@,
                                    old(self).defer_duration,
                                    old(self).defer_all_by,
                                    pos as int,
                                    m.data@,
                                );
                            }
                                return Some(ChannelError::WeightExhausted);
                            } else {
                                let used = self.execute_message(c, sender, &m, w);
                                let nr = match remaining.checked_sub(used) {
                                    Option::Some(nr) => nr,
                                    Option::None => {
                                        proof {
                                            assert(false);
                                        }
                                        Weight::zero()
                                    },
                                };
                                *remaining = nr;
                            proof {
                                assert(self.origins@ == head.origins@);
                                assert(head.events@.is_prefix_of(self.events@)) by {
                                    assert(head.events@ =~= self.events@.subrange(
                                        0,
                                        head.events@.len() as int,
                                    ));
                                }
                                lemma_deferral_facts_persist(
                                    *old(c),
                                    head.origins@,
                                    head.events@,
                                    self.origins@,
                                    self.events@,
                                    sender,
                                    sent_at,
                                    now,
                                    data@,
                                    old(self).defer_duration,
                                    old(self).defer_all_by,
                                    pos as int,
                                    m.data@,
                                );
                            }
                            }
                        },
                    }
                },
            }
            proof {
                assert(pre.events@.is_prefix_of(self.events@)) by {
                    assert(pre.events@ =~= self.events@.subrange(0, pre.events@.len() as int));
                }
                assert(pre.overweight@.is_prefix_of(self.overweight@)) by {
                    assert(pre.overweight@ =~= self.overweight@.subrange(
                        0,
                        pre.overweight@.len() as int,
                    ));
                }
            }
            pos = newpos;
        }
        None
    }

    /// Admits one block's inbound batches, channel by channel in arrival
    /// order, under a total weight budget that is never exceeded; then
    /// services the deferred queues with whatever budget is left. A failing
    /// channel is reported in the outcome; the other channels continue
    /// normally.
    pub fn handle_xcmp_messages<C: Collaborators>(
        &mut self,
        c: &mut C,
        batches: &Vec<InboundPage>,
        max_weight: Weight,
        now: RelayBlockNumber,
    ) -> (r: IngressOutcome)
        requires
            old(self).wf(),
        ensures
            final(self).wf(),
            ingress_frame(*old(self), *final(self)),
            r.weight_used.spec_all_lte(max_weight),
            old(self).events@.is_prefix_of(final(self).events@),
            old(self).overweight@.is_prefix_of(final(self).overweight@),
            old(self).inbound@.is_prefix_of(final(self).inbound@),
            final(self).next_overweight_index >= old(self).next_overweight_index,
            (old(self).queue_suspended && (forall|i: int|
                0 <= i < batches@.len() ==> !old(c).suspension_bypassed(
                    batches@[i].sender,
                ))) ==> (final(self).origins@ == old(self).origins@ && final(self).overweight@
                == old(self).overweight@ && final(self).events@ == old(self).events@
                && r.weight_used == (Weight { ref_time: 0u64, proof_size: 0u64 })),
            (old(self).defer_all_by matches Some(d) && 1 <= d && now < u32::MAX && no_due(
                *old(self),
                now,
            )) ==> (final(self).overweight@ == old(self).overweight@ && r.weight_used == (Weight {
                ref_time: 0u64,
                proof_size: 0u64,
            })),
            // Every message the call stored was announced with an event.
            final(self).events@.len() - old(self).events@.len() >= stored_messages(
                final(self).origins@,
            ) - stored_messages(old(self).origins@),
            forall|d: Seq<u8>| final(c).weight_of(d) == old(c).weight_of(d),
            forall|p: ParaId, d: Seq<u8>|
                final(c).classifier_matches(p, d) == old(c).classifier_matches(p, d),
            forall|p: ParaId| final(c).suspension_bypassed(p) == old(c).suspension_bypassed(p),
            // An unsuspended call over a nonempty well-formed batch that
            // raised no error recorded at least one event.
            (!old(self).queue_suspended && r.errors@.len() == 0 && (exists|i: int|
                0 <= i < batches@.len() && batches@[i].data@.len() > 1 && batches@[i].data@[0]
                    == FORMAT_CONCATENATED)) ==> final(self).events@.len() > old(self).events@.len(),
            // With every batch well-formed, decodable and unsuspended, the
            // only reportable errors are a rejected placement or an exhausted
            // budget or index space.
            (forall|i: int|
                0 <= i < batches@.len() ==> ((#[trigger] batches@[i]).data@.len() > 0
                    && batches@[i].data@[0] == FORMAT_CONCATENATED && !(old(self).queue_suspended
                    && !old(c).suspension_bypassed(batches@[i].sender)) && frames_decode(
                    batches@[i].data@,
                    1,
                ))) ==> (forall|j: int|
                0 <= j < r.errors@.len() ==> ((#[trigger] r.errors@[j]).1
                    == ChannelError::DeferredQueueFull || r.errors@[j].1
                    == ChannelError::WeightExhausted)),
            // One batch of one message that the policy defers and the store
            // can accept: no error at all.
            forall|d: Seq<u8>|
                (batches@.len() == 1 && batches@[0].data@.len() > 1 && batches@[0].data@[0]
                    == FORMAT_CONCATENATED && !(old(self).queue_suspended && !old(
                    c,
                ).suspension_bypassed(batches@[0].sender)) && d.len() <= u32::MAX
                    && spec_encode_message(d).is_prefix_of(batches@[0].data@.skip(1))
                    && spec_encode_message(d).len() == batches@[0].data@.len() - 1
                    && spec_decision(
                    old(c).classifier_matches(batches@[0].sender, d),
                    batches@[0].sent_at,
                    now,
                    old(self).defer_duration,
                    old(self).defer_all_by,
                ) is DeferUntil && can_accept(
                    *old(self),
                    batches@[0].sender,
                    spec_decision(
                        old(c).classifier_matches(batches@[0].sender, d),
                        batches@[0].sent_at,
                        now,
                        old(self).defer_duration,
                        old(self).defer_all_by,
                    )->0,
                )) ==> r.errors@.len() == 0,
            // Every reported error names the sender of one of the batches.
            forall|j: int|
                0 <= j < r.errors@.len() ==> names_a_batch_sender(
                    batches@,
                    (#[trigger] r.errors@[j]).0,
                ),
            // In an error-free call, each batch's first message, when the
            // policy defers it, has its deferral event recorded: sender, send
            // block, due block and the message's hash.
            forall|i0: int, d: Seq<u8>|
                (0 <= i0 < batches@.len() && r.errors@.len() == 0 && batches@[i0].data@.len() > 1
                    && batches@[i0].data@[0] == FORMAT_CONCATENATED && !(old(self).queue_suspended
                    && !old(c).suspension_bypassed(batches@[i0].sender)) && d.len() <= u32::MAX
                    && spec_encode_message(d).is_prefix_of(batches@[i0].data@.skip(1))
                    && spec_decision(
                    old(c).classifier_matches(batches@[i0].sender, d),
                    batches@[i0].sent_at,
                    now,
                    old(self).defer_duration,
                    old(self).defer_all_by,
                ) is DeferUntil) ==> events_contain_deferral(
                    final(self).events@,
                    batches@[i0].sender,
                    batches@[i0].sent_at,
                    spec_decision(
                        old(c).classifier_matches(batches@[i0].sender, d),
                        batches@[i0].sent_at,
                        now,
                        old(self).defer_duration,
                        old(self).defer_all_by,
                    )->0,
                    blake2_256_of(spec_encode_message(d)),
                ),
    {
        let ghost gated = old(self).queue_suspended && (forall|i: int|
            0 <= i < batches@.len() ==> !old(c).suspension_bypassed(batches@[i].sender));
        let ghost overridden = old(self).defer_all_by matches Some(d) && 1 <= d && now < u32::MAX
            && no_due(*old(self), now);
        let mut remaining = max_weight;
        let mut errors: Vec<(ParaId, ChannelError)> = Vec::new();
        let mut bi: usize = 0;
        let ghost pre = *self;
        while bi < batches.len()
            invariant
                pre == *old(self),
                self.wf(),
                bi <= batches@.len(),
                remaining.spec_all_lte(max_weight),
                ingress_frame(pre, *self),
                pre.events@.is_prefix_of(self.events@),
                pre.overweight@.is_prefix_of(self.overweight@),
                pre.inbound@.is_prefix_of(self.inbound@),
                self.next_overweight_index >= pre.next_overweight_index,
                gated == (pre.queue_suspended && (forall|i: int|
                    0 <= i < batches@.len() ==> !old(c).suspension_bypassed(
                        batches@[i].sender,
                    ))),
                gated ==> (self.origins@ == pre.origins@ && self.overweight@ == pre.overweight@
                    && self.events@ == pre.events@ && self.next_overweight_index
                    == pre.next_overweight_index && *c == *old(c) && remaining == max_weight
                    && self.queue_suspended),
                overridden == (pre.defer_all_by matches Some(d) && 1 <= d && now < u32::MAX
                    && no_due(pre, now)),
                overridden ==> (self.overweight@ == pre.overweight@ && self.next_overweight_index
                    == pre.next_overweight_index && remaining == max_weight && no_due(
                    *self,
                    now,
                )),
                stored_messages(self.origins@) >= stored_messages(pre.origins@),
                self.events@.len() - pre.events@.len() >= stored_messages(self.origins@)
                    - stored_messages(pre.origins@),
                forall|d: Seq<u8>| c.weight_of(d) == old(c).weight_of(d),
                forall|p: ParaId, d: Seq<u8>|
                    c.classifier_matches(p, d) == old(c).classifier_matches(p, d),
                forall|p: ParaId| c.suspension_bypassed(p) == old(c).suspension_bypassed(p),
                errors@.len() == 0 ==> ((!pre.queue_suspended && exists|i: int|
                    0 <= i < bi && batches@[i].data@.len() > 1 && batches@[i].data@[0]
                        == FORMAT_CONCATENATED) ==> self.events@.len() > pre.events@.len()),
                forall|j: int|
                    0 <= j < errors@.len() ==> names_a_batch_sender(
                        batches@,
                        (#[trigger] errors@[j]).0,
                    ),
                bi == 0 ==> (*self == pre && *c == *old(c) && remaining == max_weight
                    && errors@.len() == 0),
                (forall|i: int|
                    0 <= i < batches@.len() ==> ((#[trigger] batches@[i]).data@.len() > 0
                        && batches@[i].data@[0] == FORMAT_CONCATENATED && !(pre.queue_suspended
                        && !old(c).suspension_bypassed(batches@[i].sender)) && frames_decode(
                        batches@[i].data@,
                        1,
                    ))) ==> (forall|j: int|
                    0 <= j < errors@.len() ==> ((#[trigger] errors@[j]).1
                        == ChannelError::DeferredQueueFull || errors@[j].1
                        == ChannelError::WeightExhausted)),
                forall|d: Seq<u8>|
                    (batches@.len() == 1 && batches@[0].data@.len() > 1 && batches@[0].data@[0]
                        == FORMAT_CONCATENATED && !(pre.queue_suspended && !old(
                        c,
                    ).suspension_bypassed(batches@[0].sender)) && d.len() <= u32::MAX
                        && spec_encode_message(d).is_prefix_of(batches@[0].data@.skip(1))
                        && spec_encode_message(d).len() == batches@[0].data@.len() - 1
                        && spec_decision(
                        old(c).classifier_matches(batches@[0].sender, d),
                        batches@[0].sent_at,
                        now,
                        pre.defer_duration,
                        pre.defer_all_by,
                    ) is DeferUntil && can_accept(
                        pre,
                        batches@[0].sender,
                        spec_decision(
                            old(c).classifier_matches(batches@[0].sender, d),
                            batches@[0].sent_at,
                            now,
                            pre.defer_duration,
                            pre.defer_all_by,
                        )->0,
                    )) ==> errors@.len() == 0,
                forall|i0: int, d: Seq<u8>|
                    (0 <= i0 < bi && errors@.len() == 0 && batches@[i0].data@.len() > 1
                        && batches@[i0].data@[0] == FORMAT_CONCATENATED && !(pre.queue_suspended
                        && !old(c).suspension_bypassed(batches@[i0].sender)) && d.len()
                        <= u32::MAX && spec_encode_message(d).is_prefix_of(
                        batches@[i0].data@.skip(1),
                    ) && spec_decision(
                        old(c).classifier_matches(batches@[i0].sender, d),
                        batches@[i0].sent_at,
                        now,
                        pre.defer_duration,
                        pre.defer_all_by,
                    ) is DeferUntil) ==> events_contain_deferral(
                        self.events@,
                        batches@[i0].sender,
                        batches@[i0].sent_at,
                        spec_decision(
                            old(c).classifier_matches(batches@[i0].sender, d),
                            batches@[i0].sent_at,
                            now,
                            pre.defer_duration,
                            pre.defer_all_by,
                        )->0,
                        blake2_256_of(spec_encode_message(d)),
                    ),
            decreases batches@.len() - bi,
        {
            let batch = &batches[bi];
            let ghost chan_pre = *self;
            let err = self.handle_channel(c, batch.sender, batch.sent_at, &batch.data, &mut remaining, now);
            if let Some(e) = err {
                errors.push((batch.sender, e));
                proof {
                    assert(errors@.last().0 == batches@[bi as int].sender);
                    assert(names_a_batch_sender(batches@, errors@.last().0));
                }
            }
            proof {
                // Deferral events already recorded persist: events only grow.
                assert(chan_pre.events@.is_prefix_of(self.events@)) by {
                    assert(chan_pre.events@ =~= self.events@.subrange(
                        0,
                        chan_pre.events@.len() as int,
                    ));
                }
                assert forall|i0: int, d: Seq<u8>|
                    (0 <= i0 < bi + 1 && errors@.len() == 0 && batches@[i0].data@.len() > 1
                        && batches@[i0].data@[0] == FORMAT_CONCATENATED && !(pre.queue_suspended
                        && !old(c).suspension_bypassed(batches@[i0].sender)) && d.len()
                        <= u32::MAX && spec_encode_message(d).is_prefix_of(
                        batches@[i0].data@.skip(1),
                    ) && spec_decision(
                        old(c).classifier_matches(batches@[i0].sender, d),
                        batches@[i0].sent_at,
                        now,
                        pre.defer_duration,
                        pre.defer_all_by,
                    ) is DeferUntil) implies events_contain_deferral(
                    self.events@,
                    batches@[i0].sender,
                    batches@[i0].sent_at,
                    spec_decision(
                        old(c).classifier_matches(batches@[i0].sender, d),
                        batches@[i0].sent_at,
                        now,
                        pre.defer_duration,
                        pre.defer_all_by,
                    )->0,
                    blake2_256_of(spec_encode_message(d)),
                ) by {
                    let to2 = spec_decision(
                        old(c).classifier_matches(batches@[i0].sender, d),
                        batches@[i0].sent_at,
                        now,
                        pre.defer_duration,
                        pre.defer_all_by,
                    )->0;
                    let h = blake2_256_of(spec_encode_message(d));
                    if i0 < bi {
                        assert(events_contain_deferral(
                            chan_pre.events@,
                            batches@[i0].sender,
                            batches@[i0].sent_at,
                            to2,
                            h,
                        ));
                        let iw = choose|iw: int|
                            0 <= iw < chan_pre.events@.len() && ((#[trigger] chan_pre
                                .events@[iw]) matches Event::XcmDeferred {
                                sender: s2,
                                sent_at: sa2,
                                deferred_to: to3,
                                index,
                                position,
                                message_hash,
                            } && s2 == batches@[i0].sender && sa2 == batches@[i0].sent_at && to3
                                == to2 && index.0 == to2 && (message_hash matches Some(hh) && hh@
                                == h));
                        assert(self.events@[iw] == chan_pre.events@[iw]);
                    } else {
                        assert(err != Some(ChannelError::DeferredQueueFull));
                    }
                }
            }
            proof {
                assert(pre.events@.is_prefix_of(self.events@)) by {
                    assert(pre.events@ =~= self.events@.subrange(0, pre.events@.len() as int));
                }
                assert(pre.overweight@.is_prefix_of(self.overweight@)) by {
                    assert(pre.overweight@ =~= self.overweight@.subrange(
                        0,
                        pre.overweight@.len() as int,
                    ));
                }
                assert(pre.inbound@.is_prefix_of(self.inbound@)) by {
                    assert(pre.inbound@ =~= self.inbound@.subrange(
                        0,
                        pre.inbound@.len() as int,
                    ));
                }
            }
            bi = bi + 1;
        }
        let max_individual = self.config.xcmp_max_individual_weight;
        let sres = self.service_deferred_queues(c, remaining, now, max_individual);
        let nr = match remaining.checked_sub(sres.0) {
            Option::Some(nr) => nr,
            Option::None => {
                proof {
                    assert(false);
                }
                Weight::zero()
            },
        };
        remaining = nr;
        let consumed = match max_weight.checked_sub(remaining) {
            Option::Some(w) => w,
            Option::None => {
                proof {
                    assert(false);
                }
                Weight::zero()
            },
        };
        proof {
            assert(old(self).events@.is_prefix_of(final(self).events@)) by {
                assert(old(self).events@ =~= self.events@.subrange(
                    0,
                    old(self).events@.len() as int,
                ));
            }
            assert(old(self).overweight@.is_prefix_of(final(self).overweight@)) by {
                assert(old(self).overweight@ =~= self.overweight@.subrange(
                    0,
                    old(self).overweight@.len() as int,
                ));
            }
        }
        IngressOutcome { weight_used: consumed, errors }
    }
}

} // verus!
