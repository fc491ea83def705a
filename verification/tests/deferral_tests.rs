use xcmp_queue::codec::encode_message;
use xcmp_queue::ingress::FORMAT_CONCATENATED;
use xcmp_queue::queue::{InboundPage, Queue};
use xcmp_queue::testing::FixedCollaborators;
use xcmp_queue::types::{DeferredMessage, Event, XcmMessage};
use xcmp_queue::weight::Weight;

fn new_queue() -> Queue {
    Queue::new(5, 20, 10, 2)
}

fn collab() -> FixedCollaborators {
    FixedCollaborators {
        deferral_tag: 1,
        bypass_below: 1000,
        message_weight: Weight::from_parts(1_000_000, 1024),
        weigh_fails: false,
        fail_with: None,
    }
}

fn create_versioned_reserve_asset_deposited() -> XcmMessage {
    XcmMessage { data: vec![1] }
}

fn create_clear_origin() -> XcmMessage {
    XcmMessage { data: vec![2] }
}

fn batch(sender: u32, sent_at: u32, msgs: &[&XcmMessage]) -> InboundPage {
    let mut data = vec![FORMAT_CONCATENATED];
    for m in msgs {
        data.extend(encode_message(m));
    }
    InboundPage { sender, sent_at, data }
}

fn deferred(sent_at: u32, deferred_to: u32, sender: u32, xcm: &XcmMessage) -> DeferredMessage {
    DeferredMessage { sent_at, deferred_to, sender, xcm: xcm.clone() }
}

fn assert_last_event(q: &Queue, expected: Event) {
    let events = q.events();
    assert!(!events.is_empty());
    assert_eq!(events[events.len() - 1], expected);
}

#[test]
fn one_message_does_not_panic() {
    let mut q = new_queue();
    let mut c = collab();
    let batches = vec![InboundPage { sender: 0, sent_at: 1, data: vec![FORMAT_CONCATENATED] }];
    q.handle_xcmp_messages(&mut c, &batches, Weight::max_value(), 1);
}

#[test]
fn defer_xcm_execution_works() {
    let mut q = new_queue();
    let mut c = collab();
    let xcm = create_versioned_reserve_asset_deposited();
    let hash = Queue::hash_of_message(&xcm);
    let batches = vec![batch(999, 1, &[&xcm])];

    q.handle_xcmp_messages(&mut c, &batches, Weight::max_value(), 1);

    assert_eq!(q.deferred_indices(999), vec![(6, 0)]);
    assert_eq!(q.messages_deferred_to(999, (6, 0)), vec![Some(deferred(1, 6, 999, &xcm))]);
    assert_last_event(
        &q,
        Event::XcmDeferred {
            sender: 999,
            sent_at: 1,
            deferred_to: 6,
            index: (6, 0),
            position: 0,
            message_hash: Some(hash),
        },
    );
}

#[test]
fn defer_all_by_xcm_execution_works() {
    let mut q = new_queue();
    let mut c = collab();
    // A message that is normally not deferred.
    let xcm = create_clear_origin();
    let hash = Queue::hash_of_message(&xcm);
    q.set_defer_all_by(xcmp_queue::types::Caller::Root, Some(42)).unwrap();
    let batches = vec![batch(999, 1, &[&xcm])];

    q.handle_xcmp_messages(&mut c, &batches, Weight::max_value(), 1);

    assert_eq!(q.deferred_indices(999), vec![(43, 0)]);
    assert_eq!(q.messages_deferred_to(999, (43, 0)), vec![Some(deferred(1, 43, 999, &xcm))]);
    assert_last_event(
        &q,
        Event::XcmDeferred {
            sender: 999,
            sent_at: 1,
            deferred_to: 43,
            index: (43, 0),
            position: 0,
            message_hash: Some(hash),
        },
    );
}

#[test]
fn handle_xcmp_messages_should_be_able_to_store_multiple_messages_at_same_block() {
    let mut q = new_queue();
    let mut c = collab();
    let xcm = create_versioned_reserve_asset_deposited();
    let hash = Queue::hash_of_message(&xcm);
    let batches = vec![batch(999, 1, &[&xcm])];

    q.handle_xcmp_messages(&mut c, &batches, Weight::max_value(), 1);
    q.handle_xcmp_messages(&mut c, &batches, Weight::max_value(), 1);

    let dm = deferred(1, 6, 999, &xcm);
    assert_eq!(q.deferred_indices(999), vec![(6, 0)]);
    assert_eq!(q.messages_deferred_to(999, (6, 0)), vec![Some(dm.clone()), Some(dm)]);
    assert_last_event(
        &q,
        Event::XcmDeferred {
            sender: 999,
            sent_at: 1,
            deferred_to: 6,
            index: (6, 0),
            position: 1,
            message_hash: Some(hash),
        },
    );
}

#[test]
fn deferred_xcm_should_be_executed_and_removed_from_storage() {
    let mut q = new_queue();
    let mut c = collab();
    let xcm = create_versioned_reserve_asset_deposited();

    let batches = vec![batch(999, 1, &[&xcm])];
    q.handle_xcmp_messages(&mut c, &batches, Weight::max_value(), 1);
    let batches = vec![batch(999, 6, &[&xcm])];
    q.handle_xcmp_messages(&mut c, &batches, Weight::max_value(), 6);

    // The first message (due at block 6) was serviced within the second call;
    // the second message waits under its own index.
    assert_eq!(q.deferred_indices(999), vec![(11, 0)]);
    assert_eq!(q.messages_deferred_to(999, (11, 0)), vec![Some(deferred(6, 11, 999, &xcm))]);
}

#[test]
fn handle_xcmp_messages_should_both_defer_and_execute_xcm_message() {
    let mut q = new_queue();
    let mut c = collab();
    let xcm = create_versioned_reserve_asset_deposited();

    let batches = vec![batch(999, 1, &[&xcm])];
    q.handle_xcmp_messages(&mut c, &batches, Weight::max_value(), 1);
    assert_eq!(q.deferred_indices(999), vec![(6, 0)]);
    assert_eq!(q.messages_deferred_to(999, (6, 0)), vec![Some(deferred(1, 6, 999, &xcm))]);

    let batches2 = vec![batch(1000, 7, &[&xcm])];
    q.handle_xcmp_messages(&mut c, &batches2, Weight::max_value(), 7);

    assert_eq!(q.deferred_indices(999), Vec::<(u32, u16)>::new());
    assert_eq!(q.deferred_indices(1000), vec![(12, 0)]);
    assert_eq!(q.messages_deferred_to(1000, (12, 0)), vec![Some(deferred(7, 12, 1000, &xcm))]);
}

#[test]
fn suspend_xcm_execution_works() {
    let mut q = new_queue();
    let mut c = collab();
    q.queue_suspended = true;

    let xcm = create_clear_origin();
    let batches = vec![batch(999, 1, &[&xcm])];
    // This origin bypasses suspension, so its message runs immediately.
    q.handle_xcmp_messages(&mut c, &batches, Weight::max_value(), 1);
    assert!(q.inbound_page(999, 1).is_empty());

    let batches = vec![batch(2000, 1, &[&xcm])];
    // This origin does not bypass suspension: its payload is held back whole.
    q.handle_xcmp_messages(&mut c, &batches, Weight::max_value(), 1);
    assert_eq!(q.inbound_page(2000, 1), encode_message(&xcm));
}

#[test]
fn suspend_deferred_flag_suspends_deferred_execution() {
    let mut q = new_queue();
    let mut c = collab();
    let xcm = create_versioned_reserve_asset_deposited();
    let batches = vec![batch(999, 1, &[&xcm])];
    q.handle_xcmp_messages(&mut c, &batches, Weight::max_value(), 1);

    let dm = deferred(1, 6, 999, &xcm);
    assert_eq!(q.messages_deferred_to(999, (6, 0)), vec![Some(dm.clone())]);

    q.deferred_suspended = true;
    let max_individual = q.config.xcmp_max_individual_weight;
    q.service_deferred_queues(&mut c, Weight::max_value(), 7, max_individual);

    assert_eq!(q.messages_deferred_to(999, (6, 0)), vec![Some(dm)]);
    assert_eq!(q.deferred_indices(999), vec![(6, 0)]);
}

#[test]
fn suspend_also_suspends_deferred_execution() {
    let mut q = new_queue();
    let mut c = collab();
    let xcm = create_versioned_reserve_asset_deposited();
    let batches = vec![batch(999, 1, &[&xcm])];
    q.handle_xcmp_messages(&mut c, &batches, Weight::max_value(), 1);

    let dm = deferred(1, 6, 999, &xcm);
    assert_eq!(q.messages_deferred_to(999, (6, 0)), vec![Some(dm.clone())]);

    q.queue_suspended = true;
    let max_individual = q.config.xcmp_max_individual_weight;
    q.service_deferred_queues(&mut c, Weight::max_value(), 7, max_individual);

    assert_eq!(q.messages_deferred_to(999, (6, 0)), vec![Some(dm)]);
    assert_eq!(q.deferred_indices(999), vec![(6, 0)]);
}

#[test]
fn inbound_pages_beyond_drop_threshold_are_dropped() {
    let mut q = new_queue();
    let mut c = collab();
    q.queue_suspended = true;
    let xcm = create_clear_origin();
    // The default drop threshold is five held pages per origin.
    for sent_at in 1..=6u32 {
        let batches = vec![batch(2000, sent_at, &[&xcm])];
        q.handle_xcmp_messages(&mut c, &batches, Weight::max_value(), sent_at);
    }
    assert_eq!(q.inbound_page(2000, 5), encode_message(&xcm));
    assert!(q.inbound_page(2000, 6).is_empty());
}
