use xcmp_queue::codec::encode_message;
use xcmp_queue::ingress::FORMAT_CONCATENATED;
use xcmp_queue::queue::{InboundPage, Queue};
use xcmp_queue::testing::FixedCollaborators;
use xcmp_queue::types::{Caller, DeferredMessage, Error, XcmMessage};
use xcmp_queue::weight::Weight;

fn new_queue() -> Queue {
    Queue::new(5, 20, 10, 2)
}

fn collab() -> FixedCollaborators {
    FixedCollaborators {
        deferral_tag: 1,
        bypass_below: 1000,
        message_weight: Weight::from_parts(1_000_000, 1024),
        weigh_fails: false,
        fail_with: None,
    }
}

fn batch(sender: u32, sent_at: u32, msgs: &[&XcmMessage]) -> InboundPage {
    let mut data = vec![FORMAT_CONCATENATED];
    for m in msgs {
        data.extend(encode_message(m));
    }
    InboundPage { sender, sent_at, data }
}

fn deferred(sent_at: u32, deferred_to: u32, sender: u32, xcm: &XcmMessage) -> DeferredMessage {
    DeferredMessage { sent_at, deferred_to, sender, xcm: xcm.clone() }
}

#[test]
fn discard_deferred_should_remove_message_from_storage() {
    let mut q = new_queue();
    let mut c = collab();
    // Two distinct classifier-matched messages.
    let xcm = XcmMessage { data: vec![1] };
    let second_xcm = XcmMessage { data: vec![1, 7] };

    // Both land in the bucket due at block 6.
    q.handle_xcmp_messages(&mut c, &vec![batch(999, 1, &[&xcm, &second_xcm])], Weight::max_value(), 1);
    // The same message twice, arriving later, lands in the bucket due at 7.
    q.handle_xcmp_messages(
        &mut c,
        &vec![batch(999, 2, &[&second_xcm, &second_xcm])],
        Weight::max_value(),
        2,
    );

    let kept_a = deferred(1, 6, 999, &xcm);
    let kept_b = deferred(1, 6, 999, &second_xcm);
    let to_remove = deferred(2, 7, 999, &second_xcm);

    assert_eq!(
        q.messages_deferred_to(999, (6, 0)),
        vec![Some(kept_a.clone()), Some(kept_b.clone())]
    );
    assert_eq!(
        q.messages_deferred_to(999, (7, 0)),
        vec![Some(to_remove.clone()), Some(to_remove.clone())]
    );

    assert_eq!(q.discard_deferred(Caller::Root, 999, (7, 0), Some(0)), Ok(()));

    // Only the chosen slot is cleared; positions are stable; the sibling
    // bucket is untouched.
    assert_eq!(q.messages_deferred_to(999, (6, 0)), vec![Some(kept_a), Some(kept_b)]);
    assert_eq!(q.messages_deferred_to(999, (7, 0)), vec![None, Some(to_remove)]);
    assert_eq!(q.deferred_indices(999), vec![(6, 0), (7, 0)]);
}

#[test]
fn discard_deferred_should_remove_messages_when_only_required_params_specified() {
    let mut q = new_queue();
    let mut c = collab();
    let xcm = XcmMessage { data: vec![1] };
    let second_xcm = XcmMessage { data: vec![1, 7] };

    q.handle_xcmp_messages(&mut c, &vec![batch(999, 1, &[&xcm, &second_xcm])], Weight::max_value(), 1);
    q.handle_xcmp_messages(&mut c, &vec![batch(999, 2, &[&second_xcm])], Weight::max_value(), 2);

    let third = deferred(2, 7, 999, &second_xcm);

    assert_eq!(
        q.messages_deferred_to(999, (6, 0)),
        vec![Some(deferred(1, 6, 999, &xcm)), Some(deferred(1, 6, 999, &second_xcm))]
    );
    assert_eq!(q.messages_deferred_to(999, (7, 0)), vec![Some(third.clone())]);

    assert_eq!(q.discard_deferred(Caller::Root, 999, (6, 0), None), Ok(()));

    // The bucket's contents are emptied, but its index is not retired.
    assert_eq!(q.messages_deferred_to(999, (6, 0)), Vec::<Option<DeferredMessage>>::new());
    assert_eq!(q.deferred_indices(999), vec![(6, 0), (7, 0)]);
    assert_eq!(q.messages_deferred_to(999, (7, 0)), vec![Some(third)]);
}

#[test]
fn discard_deferred_requires_the_privileged_caller() {
    let mut q = new_queue();
    let mut c = collab();
    let xcm = XcmMessage { data: vec![1] };
    q.handle_xcmp_messages(&mut c, &vec![batch(999, 1, &[&xcm])], Weight::max_value(), 1);

    assert_eq!(
        q.discard_deferred(Caller::Signed(2), 999, (6, 0), Some(0)),
        Err(Error::BadOrigin)
    );
    assert_eq!(q.messages_deferred_to(999, (6, 0)), vec![Some(deferred(1, 6, 999, &xcm))]);
}

#[test]
fn discard_deferred_of_an_absent_slot_is_a_no_op() {
    let mut q = new_queue();
    let mut c = collab();
    let xcm = XcmMessage { data: vec![1] };
    q.handle_xcmp_messages(&mut c, &vec![batch(999, 1, &[&xcm])], Weight::max_value(), 1);

    // Position past the end, already-cleared slot, unknown index, unknown
    // origin: all succeed without changing anything.
    assert_eq!(q.discard_deferred(Caller::Root, 999, (6, 0), Some(5)), Ok(()));
    assert_eq!(q.discard_deferred(Caller::Root, 999, (9, 0), Some(0)), Ok(()));
    assert_eq!(q.discard_deferred(Caller::Root, 123, (6, 0), Some(0)), Ok(()));
    assert_eq!(q.messages_deferred_to(999, (6, 0)), vec![Some(deferred(1, 6, 999, &xcm))]);

    assert_eq!(q.discard_deferred(Caller::Root, 999, (6, 0), Some(0)), Ok(()));
    assert_eq!(q.messages_deferred_to(999, (6, 0)), vec![None]);
    assert_eq!(q.discard_deferred(Caller::Root, 999, (6, 0), Some(0)), Ok(()));
    assert_eq!(q.messages_deferred_to(999, (6, 0)), vec![None]);
}

#[test]
fn placement_fails_explicitly_when_the_index_set_is_full() {
    // One bucket per origin, one message per bucket.
    let mut q = Queue::new(5, 1, 1, 2);
    let m1 = XcmMessage { data: vec![1] };
    let m2 = XcmMessage { data: vec![1, 9] };

    let dm1 = DeferredMessage { sent_at: 1, deferred_to: 6, sender: 999, xcm: m1 };
    assert_eq!(q.try_place_in_deferred_queue(999, 6, dm1), Ok(((6, 0), 0)));

    // The bucket for block 6 is full and the index set has no room for a new
    // bucket: the placement is rejected, not silently dropped.
    let dm2 = DeferredMessage { sent_at: 1, deferred_to: 6, sender: 999, xcm: m2.clone() };
    assert_eq!(q.try_place_in_deferred_queue(999, 6, dm2), Err(Error::DeferredQueueFull));

    let dm3 = DeferredMessage { sent_at: 2, deferred_to: 7, sender: 999, xcm: m2 };
    assert_eq!(q.try_place_in_deferred_queue(999, 7, dm3), Err(Error::DeferredQueueFull));
}

#[test]
fn placement_reuses_cleared_slots_and_opens_new_buckets() {
    let mut q = Queue::new(5, 2, 10, 2);
    let m = XcmMessage { data: vec![1] };

    let dm = |sent_at: u32| DeferredMessage {
        sent_at,
        deferred_to: 6,
        sender: 999,
        xcm: m.clone(),
    };

    assert_eq!(q.try_place_in_deferred_queue(999, 6, dm(1)), Ok(((6, 0), 0)));
    assert_eq!(q.try_place_in_deferred_queue(999, 6, dm(2)), Ok(((6, 0), 1)));
    // The bucket is full: a fresh bucket opens under the next number.
    assert_eq!(q.try_place_in_deferred_queue(999, 6, dm(3)), Ok(((6, 1), 0)));
    // A cleared slot is reused before anything is appended.
    assert_eq!(q.discard_deferred(Caller::Root, 999, (6, 0), Some(1)), Ok(()));
    assert_eq!(q.try_place_in_deferred_queue(999, 6, dm(4)), Ok(((6, 0), 1)));

    assert_eq!(q.deferred_indices(999), vec![(6, 0), (6, 1)]);
    assert_eq!(q.messages_deferred_to(999, (6, 0)), vec![Some(dm(1)), Some(dm(4))]);
    assert_eq!(q.messages_deferred_to(999, (6, 1)), vec![Some(dm(3))]);
}
