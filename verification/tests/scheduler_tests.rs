use xcmp_queue::codec::encode_message;
use xcmp_queue::ingress::FORMAT_CONCATENATED;
use xcmp_queue::queue::{InboundPage, Queue};
use xcmp_queue::testing::FixedCollaborators;
use xcmp_queue::types::{Caller, DeferredMessage, Error, Event, XcmMessage};
use xcmp_queue::weight::Weight;

const MAX_BUCKETS_PROCESSED: usize = 2;

fn new_queue() -> Queue {
    Queue::new(5, 20, 10, MAX_BUCKETS_PROCESSED)
}

fn collab() -> FixedCollaborators {
    FixedCollaborators {
        deferral_tag: 1,
        bypass_below: 1000,
        message_weight: Weight::from_parts(1_000_000, 1024),
        weigh_fails: false,
        fail_with: None,
    }
}

fn create_versioned_reserve_asset_deposited() -> XcmMessage {
    XcmMessage { data: vec![1] }
}

fn batch(sender: u32, sent_at: u32, msgs: &[&XcmMessage]) -> InboundPage {
    let mut data = vec![FORMAT_CONCATENATED];
    for m in msgs {
        data.extend(encode_message(m));
    }
    InboundPage { sender, sent_at, data }
}

fn deferred(sent_at: u32, deferred_to: u32, sender: u32, xcm: &XcmMessage) -> DeferredMessage {
    DeferredMessage { sent_at, deferred_to, sender, xcm: xcm.clone() }
}

fn assert_last_event(q: &Queue, expected: Event) {
    let events = q.events();
    assert!(!events.is_empty());
    assert_eq!(events[events.len() - 1], expected);
}

#[test]
fn handle_xcmp_messages_should_execute_deferred_message_and_remove_from_deferred_storage() {
    let mut q = new_queue();
    let mut c = collab();
    let xcm = create_versioned_reserve_asset_deposited();
    let batches = vec![batch(999, 1, &[&xcm])];
    q.handle_xcmp_messages(&mut c, &batches, Weight::max_value(), 1);
    q.handle_xcmp_messages(&mut c, &batches, Weight::max_value(), 1);

    let dm = deferred(1, 6, 999, &xcm);
    assert_eq!(q.messages_deferred_to(999, (6, 0)), vec![Some(dm.clone()), Some(dm)]);

    let max_individual = q.config.xcmp_max_individual_weight;
    q.service_deferred_queues(&mut c, Weight::max_value(), 7, max_individual);

    assert_eq!(q.deferred_indices(999), Vec::<(u32, u16)>::new());
}

#[test]
fn on_idle_should_service_deferred_message() {
    let mut q = new_queue();
    let mut c = collab();
    let xcm = create_versioned_reserve_asset_deposited();
    let batches = vec![batch(999, 1, &[&xcm])];
    q.handle_xcmp_messages(&mut c, &batches, Weight::max_value(), 1);

    assert_eq!(q.messages_deferred_to(999, (6, 0)), vec![Some(deferred(1, 6, 999, &xcm))]);

    q.on_idle(&mut c, 7, Weight::max_value());

    assert_eq!(q.deferred_indices(999), Vec::<(u32, u16)>::new());
}

#[test]
fn service_deferred_should_execute_deferred_messages() {
    let mut q = new_queue();
    let mut c = collab();
    let xcm = create_versioned_reserve_asset_deposited();
    let hash = Queue::hash_of_message(&xcm);
    let batches = vec![batch(999, 1, &[&xcm]), batch(1000, 2, &[&xcm])];

    q.handle_xcmp_messages(&mut c, &batches, Weight::max_value(), 2);

    assert_eq!(q.messages_deferred_to(999, (6, 0)), vec![Some(deferred(1, 6, 999, &xcm))]);
    assert_eq!(q.messages_deferred_to(1000, (7, 0)), vec![Some(deferred(2, 7, 1000, &xcm))]);

    let r = q.service_deferred(&mut c, Caller::Root, Weight::max_value(), 999, MAX_BUCKETS_PROCESSED, 7);
    assert!(r.is_ok());

    // The chosen origin is drained; the other origin is untouched.
    assert_eq!(q.deferred_indices(999), Vec::<(u32, u16)>::new());
    assert_eq!(q.deferred_indices(1000), vec![(7, 0)]);
    assert_eq!(q.messages_deferred_to(1000, (7, 0)), vec![Some(deferred(2, 7, 1000, &xcm))]);
    assert_last_event(
        &q,
        Event::Success {
            message_hash: hash,
            message_id: hash,
            weight: Weight::from_parts(1_000_000, 1024),
        },
    );
}

#[test]
fn service_deferred_should_store_unprocessed_messages() {
    let mut q = new_queue();
    let mut c = collab();
    let xcm = create_versioned_reserve_asset_deposited();
    let hash = Queue::hash_of_message(&xcm);

    q.handle_xcmp_messages(&mut c, &vec![batch(999, 1, &[&xcm])], Weight::max_value(), 2);
    q.handle_xcmp_messages(&mut c, &vec![batch(999, 2, &[&xcm])], Weight::max_value(), 3);

    assert_eq!(q.deferred_indices(999), vec![(6, 0), (7, 0)]);
    assert_eq!(q.messages_deferred_to(999, (6, 0)), vec![Some(deferred(1, 6, 999, &xcm))]);
    assert_eq!(q.messages_deferred_to(999, (7, 0)), vec![Some(deferred(2, 7, 999, &xcm))]);

    // At block 6 only the first bucket is due; the second is stored untouched.
    let r = q.service_deferred(&mut c, Caller::Root, Weight::max_value(), 999, MAX_BUCKETS_PROCESSED, 6);
    assert!(r.is_ok());

    assert_eq!(q.deferred_indices(999), vec![(7, 0)]);
    assert_eq!(q.messages_deferred_to(999, (7, 0)), vec![Some(deferred(2, 7, 999, &xcm))]);
    assert_last_event(
        &q,
        Event::Success {
            message_hash: hash,
            message_id: hash,
            weight: Weight::from_parts(1_000_000, 1024),
        },
    );
}

#[test]
fn service_deferred_should_fail_when_called_with_wrong_origin() {
    let mut q = new_queue();
    let mut c = collab();
    let xcm = create_versioned_reserve_asset_deposited();
    q.handle_xcmp_messages(&mut c, &vec![batch(999, 1, &[&xcm])], Weight::max_value(), 1);

    let dm = deferred(1, 6, 999, &xcm);
    assert_eq!(q.messages_deferred_to(999, (6, 0)), vec![Some(dm.clone())]);

    let r = q.service_deferred(
        &mut c,
        Caller::Signed(100),
        Weight::max_value(),
        999,
        MAX_BUCKETS_PROCESSED,
        7,
    );
    assert_eq!(r, Err(Error::BadOrigin));
    assert_eq!(q.messages_deferred_to(999, (6, 0)), vec![Some(dm)]);
}

#[test]
fn service_deferred_queues_should_pass_overweight_messages_to_overweight_queue() {
    let mut q = new_queue();
    let mut c = collab();
    let xcm = create_versioned_reserve_asset_deposited();
    // A ceiling below the message's estimate triggers the overweight path.
    let low_max_individual_weight = Weight::from_parts(100, 1);

    q.handle_xcmp_messages(&mut c, &vec![batch(999, 1, &[&xcm])], Weight::max_value(), 1);
    assert_eq!(q.messages_deferred_to(999, (6, 0)), vec![Some(deferred(1, 6, 999, &xcm))]);
    assert_eq!(q.overweight_count(), 0);

    q.service_deferred_queues(&mut c, Weight::max_value(), 7, low_max_individual_weight);

    assert_eq!(q.deferred_indices(999), Vec::<(u32, u16)>::new());
    assert_eq!(q.overweight_entry(0), Some((999, 1, encode_message(&xcm))));
    assert_eq!(q.overweight_count(), 1);
    assert_last_event(&q, Event::OverweightEnqueued { index: 0 });
}

#[test]
fn service_deferred_queues_should_stop_processing_when_weight_limit_is_reached_for_different_queues()
{
    let mut q = new_queue();
    let mut c = collab();
    let xcm = create_versioned_reserve_asset_deposited();
    // Enough budget for exactly one message.
    let low_max_weight = Weight::from_parts(1_000_000, 1024);

    let batches = vec![batch(999, 1, &[&xcm]), batch(1000, 1, &[&xcm])];
    q.handle_xcmp_messages(&mut c, &batches, Weight::max_value(), 1);

    assert_eq!(q.messages_deferred_to(999, (6, 0)), vec![Some(deferred(1, 6, 999, &xcm))]);
    assert_eq!(q.messages_deferred_to(1000, (6, 0)), vec![Some(deferred(1, 6, 1000, &xcm))]);

    let max_individual = q.config.xcmp_max_individual_weight;
    let (consumed, _) = q.service_deferred_queues(&mut c, low_max_weight, 7, max_individual);

    assert!(consumed.all_lte(&low_max_weight));
    assert_eq!(q.deferred_indices(999), Vec::<(u32, u16)>::new());
    assert_eq!(q.messages_deferred_to(1000, (6, 0)), vec![Some(deferred(1, 6, 1000, &xcm))]);
}

#[test]
fn service_deferred_queues_should_stop_processing_when_weight_limit_is_reached_for_the_same_queue()
{
    let mut q = new_queue();
    let mut c = collab();
    let xcm = create_versioned_reserve_asset_deposited();
    // Enough budget for exactly one message.
    let low_max_weight = Weight::from_parts(1_000_000, 1024);

    // The same message twice, in one batch, so servicing stops after the first.
    let batches = vec![batch(999, 1, &[&xcm, &xcm])];
    q.handle_xcmp_messages(&mut c, &batches, Weight::max_value(), 1);

    let dm = deferred(1, 6, 999, &xcm);
    assert_eq!(q.messages_deferred_to(999, (6, 0)), vec![Some(dm.clone()), Some(dm.clone())]);

    let max_individual = q.config.xcmp_max_individual_weight;
    q.service_deferred_queues(&mut c, low_max_weight, 7, max_individual);

    // The first slot was serviced and cleared in place; the second message and
    // the bucket's position are untouched.
    assert_eq!(q.deferred_indices(999), vec![(6, 0)]);
    assert_eq!(q.messages_deferred_to(999, (6, 0)), vec![None, Some(dm)]);
}

#[test]
fn handle_xcmp_messages_should_execute_deferred_message_from_different_blocks() {
    let mut q = new_queue();
    let mut c = collab();
    let xcm = create_versioned_reserve_asset_deposited();

    q.handle_xcmp_messages(&mut c, &vec![batch(999, 1, &[&xcm])], Weight::max_value(), 1);
    q.handle_xcmp_messages(&mut c, &vec![batch(1000, 2, &[&xcm])], Weight::max_value(), 2);

    assert_eq!(q.messages_deferred_to(999, (6, 0)), vec![Some(deferred(1, 6, 999, &xcm))]);
    assert_eq!(q.messages_deferred_to(1000, (7, 0)), vec![Some(deferred(2, 7, 1000, &xcm))]);

    let max_individual = q.config.xcmp_max_individual_weight;
    q.service_deferred_queues(&mut c, Weight::max_value(), 6, max_individual);

    assert_eq!(q.deferred_indices(999), Vec::<(u32, u16)>::new());
    assert_eq!(q.messages_deferred_to(999, (6, 0)), Vec::<Option<DeferredMessage>>::new());
    assert_eq!(q.deferred_indices(1000), vec![(7, 0)]);
    assert_eq!(q.messages_deferred_to(1000, (7, 0)), vec![Some(deferred(2, 7, 1000, &xcm))]);
}

#[test]
fn scheduler_is_idempotent_once_nothing_is_due() {
    let mut q = new_queue();
    let mut c = collab();
    let xcm = create_versioned_reserve_asset_deposited();
    q.handle_xcmp_messages(&mut c, &vec![batch(999, 1, &[&xcm, &xcm])], Weight::max_value(), 1);
    q.handle_xcmp_messages(&mut c, &vec![batch(999, 3, &[&xcm])], Weight::max_value(), 3);

    let max_individual = q.config.xcmp_max_individual_weight;
    let (_, completed) = q.service_deferred_queues(&mut c, Weight::max_value(), 6, max_individual);
    assert!(completed);

    // Nothing new arrived and nothing else became due: a second call changes
    // no storage and consumes nothing.
    let indices = q.deferred_indices(999);
    let bucket = q.messages_deferred_to(999, (8, 0));
    let events_before = q.events().len();
    let overweight_before = q.overweight_count();

    let (consumed, completed2) =
        q.service_deferred_queues(&mut c, Weight::max_value(), 6, max_individual);

    assert_eq!(consumed, Weight::zero());
    assert!(completed2);
    assert_eq!(q.deferred_indices(999), indices);
    assert_eq!(q.messages_deferred_to(999, (8, 0)), bucket);
    assert_eq!(q.events().len(), events_before);
    assert_eq!(q.overweight_count(), overweight_before);
}

#[test]
fn overweight_indices_increase_from_zero() {
    let mut q = new_queue();
    let mut c = collab();
    let xcm = create_versioned_reserve_asset_deposited();
    let low_max_individual_weight = Weight::from_parts(100, 1);

    q.handle_xcmp_messages(&mut c, &vec![batch(999, 1, &[&xcm, &xcm])], Weight::max_value(), 1);
    q.service_deferred_queues(&mut c, Weight::max_value(), 7, low_max_individual_weight);

    assert_eq!(q.overweight_count(), 2);
    assert_eq!(q.overweight_entry(0), Some((999, 1, encode_message(&xcm))));
    assert_eq!(q.overweight_entry(1), Some((999, 1, encode_message(&xcm))));
    assert_eq!(q.overweight_entry(2), None);
}

#[test]
fn service_overweight_unknown() {
    let mut q = new_queue();
    let mut c = collab();
    assert_eq!(
        q.service_overweight(&mut c, Caller::Root, 0, Weight::from_parts(1000, 1000)),
        Err(Error::BadOverweightIndex)
    );
}

#[test]
fn service_overweight_bad_xcm_format() {
    let mut q = new_queue();
    let mut c = collab();
    let bad_xcm = vec![255];
    q.inject_overweight_message(1000, 0, bad_xcm);

    assert_eq!(
        q.service_overweight(&mut c, Caller::Root, 0, Weight::from_parts(1000, 1000)),
        Err(Error::BadXcm)
    );
    assert_eq!(q.overweight_count(), 1);
}

#[test]
fn service_overweight_executes_and_removes_the_entry() {
    let mut q = new_queue();
    let mut c = collab();
    let xcm = create_versioned_reserve_asset_deposited();
    let hash = Queue::hash_of_message(&xcm);
    let low_max_individual_weight = Weight::from_parts(100, 1);

    q.handle_xcmp_messages(&mut c, &vec![batch(999, 1, &[&xcm])], Weight::max_value(), 1);
    q.service_deferred_queues(&mut c, Weight::max_value(), 7, low_max_individual_weight);
    assert_eq!(q.overweight_count(), 1);

    // Under the standard ceiling the entry is rejected.
    assert_eq!(
        q.service_overweight(&mut c, Caller::Root, 0, Weight::from_parts(100, 1)),
        Err(Error::WeightOverLimit)
    );
    // A non-privileged caller is rejected.
    assert_eq!(
        q.service_overweight(&mut c, Caller::Signed(7), 0, Weight::max_value()),
        Err(Error::BadOrigin)
    );
    // With an ample operator-chosen limit it executes and is removed.
    let r = q.service_overweight(&mut c, Caller::Root, 0, Weight::max_value());
    assert_eq!(r, Ok(Weight::from_parts(1_000_000, 1024)));
    assert_eq!(q.overweight_count(), 0);
    assert_last_event(
        &q,
        Event::Success {
            message_hash: hash,
            message_id: hash,
            weight: Weight::from_parts(1_000_000, 1024),
        },
    );
}

#[test]
fn unweighable_message_fails_and_is_consumed() {
    let mut q = new_queue();
    let mut c = collab();
    let xcm = create_versioned_reserve_asset_deposited();
    q.handle_xcmp_messages(&mut c, &vec![batch(999, 1, &[&xcm])], Weight::max_value(), 1);

    c.weigh_fails = true;
    let max_individual = q.config.xcmp_max_individual_weight;
    q.service_deferred_queues(&mut c, Weight::max_value(), 7, max_individual);

    assert_eq!(q.deferred_indices(999), Vec::<(u32, u16)>::new());
    let hash = Queue::hash_of_message(&xcm);
    assert_last_event(
        &q,
        Event::Fail {
            message_hash: hash,
            error: xcmp_queue::types::ExecError::WeightNotComputable,
        },
    );
}

#[test]
fn failing_execution_emits_fail_event_and_consumes_the_message() {
    let mut q = new_queue();
    let mut c = collab();
    let xcm = create_versioned_reserve_asset_deposited();
    q.handle_xcmp_messages(&mut c, &vec![batch(999, 1, &[&xcm])], Weight::max_value(), 1);

    c.fail_with = Some(13);
    let max_individual = q.config.xcmp_max_individual_weight;
    q.service_deferred_queues(&mut c, Weight::max_value(), 7, max_individual);

    assert_eq!(q.deferred_indices(999), Vec::<(u32, u16)>::new());
    let hash = Queue::hash_of_message(&xcm);
    assert_last_event(
        &q,
        Event::Fail { message_hash: hash, error: xcmp_queue::types::ExecError::Interpreter(13) },
    );
}

#[test]
fn deferral_lifecycle_scenario() {
    let mut q = new_queue();
    let mut c = collab();
    let xcm = create_versioned_reserve_asset_deposited();
    let hash = Queue::hash_of_message(&xcm);

    // One asset-depositing message at block 1 from one origin.
    q.handle_xcmp_messages(&mut c, &vec![batch(999, 1, &[&xcm])], Weight::max_value(), 1);
    assert_last_event(
        &q,
        Event::XcmDeferred {
            sender: 999,
            sent_at: 1,
            deferred_to: 6,
            index: (6, 0),
            position: 0,
            message_hash: Some(hash),
        },
    );

    // At block 7, with an ample budget, the index set empties and a success
    // event carries the message's hash.
    let max_individual = q.config.xcmp_max_individual_weight;
    q.service_deferred_queues(&mut c, Weight::max_value(), 7, max_individual);
    assert_eq!(q.deferred_indices(999), Vec::<(u32, u16)>::new());
    assert_last_event(
        &q,
        Event::Success {
            message_hash: hash,
            message_id: hash,
            weight: Weight::from_parts(1_000_000, 1024),
        },
    );
}
