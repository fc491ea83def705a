use xcmp_queue::queue::{InboundPage, Queue};
use xcmp_queue::testing::{
    construct_xcm, FixedCollaborators, OkFixedXcmHashWithAssertingRequiredInputsSender,
};
use xcmp_queue::types::{
    Caller, ChannelError, Error, XcmMessage, DEFAULT_POV_SIZE, WEIGHT_REF_TIME_PER_MILLIS,
};
use xcmp_queue::weight::Weight;
use xcmp_queue::ingress::{FORMAT_BLOBS, FORMAT_CONCATENATED};
use xcmp_queue::codec::encode_message;

fn new_queue() -> Queue {
    Queue::new(5, 20, 10, 2)
}

fn collab() -> FixedCollaborators {
    FixedCollaborators {
        deferral_tag: 1,
        bypass_below: 1000,
        message_weight: Weight::from_parts(1_000_000, 1024),
        weigh_fails: false,
        fail_with: None,
    }
}

#[test]
fn update_suspend_threshold_works() {
    let mut q = new_queue();
    assert_eq!(q.config.suspend_threshold, 2);
    assert_eq!(q.update_suspend_threshold(Caller::Root, 3), Ok(()));
    assert_eq!(q.update_suspend_threshold(Caller::Signed(2), 5), Err(Error::BadOrigin));
    assert_eq!(q.config.suspend_threshold, 3);
}

#[test]
fn update_drop_threshold_works() {
    let mut q = new_queue();
    assert_eq!(q.config.drop_threshold, 5);
    assert_eq!(q.update_drop_threshold(Caller::Root, 6), Ok(()));
    assert_eq!(q.update_drop_threshold(Caller::Signed(2), 7), Err(Error::BadOrigin));
    assert_eq!(q.config.drop_threshold, 6);
}

#[test]
fn update_resume_threshold_works() {
    let mut q = new_queue();
    assert_eq!(q.config.resume_threshold, 1);
    assert_eq!(q.update_resume_threshold(Caller::Root, 2), Ok(()));
    assert_eq!(q.update_resume_threshold(Caller::Signed(7), 3), Err(Error::BadOrigin));
    assert_eq!(q.config.resume_threshold, 2);
}

#[test]
fn update_threshold_weight_works() {
    let mut q = new_queue();
    assert_eq!(q.config.threshold_weight, Weight::from_parts(100_000, 0));
    assert_eq!(q.update_threshold_weight(Caller::Root, Weight::from_parts(10_000, 0)), Ok(()));
    assert_eq!(
        q.update_threshold_weight(Caller::Signed(5), Weight::from_parts(10_000_000, 0)),
        Err(Error::BadOrigin)
    );
    assert_eq!(q.config.threshold_weight, Weight::from_parts(10_000, 0));
}

#[test]
fn update_weight_restrict_decay_works() {
    let mut q = new_queue();
    assert_eq!(q.config.weight_restrict_decay, Weight::from_parts(2, 0));
    assert_eq!(q.update_weight_restrict_decay(Caller::Root, Weight::from_parts(5, 0)), Ok(()));
    assert_eq!(
        q.update_weight_restrict_decay(Caller::Signed(6), Weight::from_parts(4, 0)),
        Err(Error::BadOrigin)
    );
    assert_eq!(q.config.weight_restrict_decay, Weight::from_parts(5, 0));
}

#[test]
fn update_xcmp_max_individual_weight() {
    let mut q = new_queue();
    assert_eq!(
        q.config.xcmp_max_individual_weight,
        Weight::from_parts(20 * WEIGHT_REF_TIME_PER_MILLIS, DEFAULT_POV_SIZE),
    );
    assert_eq!(
        q.update_xcmp_max_individual_weight(
            Caller::Root,
            Weight::from_parts(30 * WEIGHT_REF_TIME_PER_MILLIS, 0)
        ),
        Ok(())
    );
    assert_eq!(
        q.update_xcmp_max_individual_weight(
            Caller::Signed(3),
            Weight::from_parts(10 * WEIGHT_REF_TIME_PER_MILLIS, 0)
        ),
        Err(Error::BadOrigin)
    );
    assert_eq!(
        q.config.xcmp_max_individual_weight,
        Weight::from_parts(30 * WEIGHT_REF_TIME_PER_MILLIS, 0)
    );
}

#[test]
fn suspension_flags_are_privileged() {
    let mut q = new_queue();
    assert_eq!(q.suspend_xcm_execution(Caller::Signed(1)), Err(Error::BadOrigin));
    assert_eq!(q.suspend_xcm_execution(Caller::Root), Ok(()));
    assert!(q.queue_suspended);
    assert_eq!(q.resume_xcm_execution(Caller::Root), Ok(()));
    assert!(!q.queue_suspended);
    assert_eq!(q.suspend_deferred_execution(Caller::Root), Ok(()));
    assert!(q.deferred_suspended);
    assert_eq!(q.resume_deferred_execution(Caller::Root), Ok(()));
    assert!(!q.deferred_suspended);
    assert_eq!(q.set_defer_all_by(Caller::Signed(1), Some(3)), Err(Error::BadOrigin));
    assert_eq!(q.set_defer_all_by(Caller::Root, Some(3)), Ok(()));
    assert_eq!(q.defer_all_by, Some(3));
}

#[test]
fn bad_message_is_handled() {
    let mut q = new_queue();
    let mut c = collab();
    let mut data = vec![FORMAT_BLOBS];
    data.extend(vec![
        1, 1, 3, 0, 0, 0, 0, 0, 0, 0, 0, 1, 1, 1, 1, 1, 1, 1, 1, 1, 0, 0, 0, 64, 239, 139, 0, 0,
        0, 64, 0, 0, 0, 0, 0, 0, 0, 0, 0, 0, 0, 0, 0, 255, 255, 0, 0, 0, 0, 0, 0, 0, 37, 0, 0, 0,
        0, 0, 0, 0, 16, 0, 127, 147,
    ]);
    let batches = vec![InboundPage { sender: 1000, sent_at: 1, data }];
    // Undecodable blob data terminates the channel with an error; nothing
    // panics and nothing is stored.
    let outcome = q.handle_xcmp_messages(&mut c, &batches, Weight::from_parts(10_000_000_000, 0), 1);
    assert_eq!(outcome.errors, vec![(1000, ChannelError::Malformed)]);
    assert_eq!(q.deferred_indices(1000), Vec::<(u32, u16)>::new());
    assert!(q.events().is_empty());
}

#[test]
fn handle_blob_message() {
    let mut q = new_queue();
    let mut c = collab();
    let mut data = vec![FORMAT_BLOBS];
    data.extend(encode_message(&construct_xcm()));
    let batches = vec![InboundPage { sender: 1000, sent_at: 1, data }];
    // A structurally valid blob batch is rejected gracefully: this engine
    // cannot interpret blobs yet.
    let outcome = q.handle_xcmp_messages(&mut c, &batches, Weight::from_parts(10_000_000_000, 0), 1);
    assert_eq!(outcome.errors, vec![(1000, ChannelError::BlobsNotHandled)]);
    assert!(q.events().is_empty());
}

#[test]
fn handle_invalid_data() {
    let mut q = new_queue();
    let mut c = collab();
    // 255 selects a compact mode no message length uses: malformed.
    let batches = vec![InboundPage { sender: 1000, sent_at: 1, data: vec![FORMAT_CONCATENATED, 255] }];
    let outcome = q.handle_xcmp_messages(&mut c, &batches, Weight::from_parts(10_000_000_000, 0), 1);
    assert_eq!(outcome.errors, vec![(1000, ChannelError::Malformed)]);

    // An unknown format discriminant is malformed too, and other channels of
    // the same call continue normally.
    let batches = vec![
        InboundPage { sender: 1000, sent_at: 1, data: vec![9] },
        InboundPage { sender: 999, sent_at: 1, data: vec![FORMAT_CONCATENATED] },
    ];
    let outcome = q.handle_xcmp_messages(&mut c, &batches, Weight::from_parts(10_000_000_000, 0), 1);
    assert_eq!(outcome.errors, vec![(1000, ChannelError::Malformed)]);
}

#[test]
fn construct_xcm_builds_the_worst_case_message() {
    let m = construct_xcm();
    assert_eq!(m.data.len(), 100);
    assert!(m.data.iter().all(|b| *b == xcmp_queue::testing::ASSET_DEPOSIT_TAG));
}

#[test]
fn fixed_sender_reports_its_fixed_delivery_result() {
    assert_eq!(OkFixedXcmHashWithAssertingRequiredInputsSender::fixed_delivery_asset(), Vec::<u64>::new());
    assert_eq!(
        OkFixedXcmHashWithAssertingRequiredInputsSender::expected_delivery_result(),
        Ok(([9u8; 32], Vec::new()))
    );
}

#[test]
fn ingress_reports_deferred_queue_full() {
    // One bucket per origin, one message per bucket.
    let mut q = Queue::new(5, 1, 1, 2);
    let mut c = collab();
    let xcm = XcmMessage { data: vec![1] };
    let mut data = vec![FORMAT_CONCATENATED];
    data.extend(encode_message(&xcm));
    data.extend(encode_message(&xcm));
    let batches = vec![InboundPage { sender: 999, sent_at: 1, data }];

    let outcome = q.handle_xcmp_messages(&mut c, &batches, Weight::max_value(), 1);

    // The first message fills the only bucket; the second is rejected
    // explicitly, stopping the channel.
    assert_eq!(outcome.errors, vec![(999, ChannelError::DeferredQueueFull)]);
    assert_eq!(q.deferred_indices(999), vec![(6, 0)]);
}

#[test]
fn ingress_holds_the_remainder_when_the_budget_is_exhausted() {
    let mut q = new_queue();
    let mut c = collab();
    // Not classifier-matched: the message would execute immediately.
    let xcm = XcmMessage { data: vec![2] };
    let mut data = vec![FORMAT_CONCATENATED];
    data.extend(encode_message(&xcm));
    let batches = vec![InboundPage { sender: 999, sent_at: 1, data }];

    // A budget below the message's estimate: nothing runs, nothing of the
    // budget is spent, and the remainder is held back.
    let outcome = q.handle_xcmp_messages(&mut c, &batches, Weight::from_parts(10, 10), 1);

    assert_eq!(outcome.errors, vec![(999, ChannelError::WeightExhausted)]);
    assert_eq!(outcome.weight_used, Weight::zero());
    assert_eq!(q.inbound_page(999, 1), encode_message(&xcm));
    assert!(q.events().is_empty());
}
