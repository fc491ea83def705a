use xcmp_queue::codec::{decode_message_at, encode_message};
use xcmp_queue::policy::decide_deferral;
use xcmp_queue::queue::Queue;
use xcmp_queue::testing::FixedCollaborators;
use xcmp_queue::types::{Decision, XcmMessage};
use xcmp_queue::weight::Weight;

fn collab() -> FixedCollaborators {
    FixedCollaborators {
        deferral_tag: 1,
        bypass_below: 1000,
        message_weight: Weight::from_parts(1_000_000, 1024),
        weigh_fails: false,
        fail_with: None,
    }
}

#[test]
fn message_encoding_is_length_prefixed() {
    // A five-byte payload: the compact prefix is the single byte 5 * 4.
    let m = XcmMessage { data: vec![10, 20, 30, 40, 50] };
    assert_eq!(encode_message(&m), vec![20, 10, 20, 30, 40, 50]);

    // A hundred-byte payload needs the two-byte compact mode: 100 * 4 + 1.
    let m = XcmMessage { data: vec![7; 100] };
    let enc = encode_message(&m);
    assert_eq!(enc[0], 145);
    assert_eq!(enc[1], 1);
    assert_eq!(enc.len(), 102);

    // An empty payload still carries its length.
    let m = XcmMessage { data: vec![] };
    assert_eq!(encode_message(&m), vec![0]);
}

#[test]
fn message_decoding_round_trips() {
    let m = XcmMessage { data: vec![9, 8, 7] };
    let mut bytes = encode_message(&m);
    bytes.extend(encode_message(&XcmMessage { data: vec![1] }));

    let (m1, pos) = decode_message_at(&bytes, 0).unwrap();
    assert_eq!(m1, m);
    let (m2, end) = decode_message_at(&bytes, pos).unwrap();
    assert_eq!(m2, XcmMessage { data: vec![1] });
    assert_eq!(end, bytes.len());
}

#[test]
fn malformed_bytes_are_rejected() {
    // 255 selects the big-integer compact mode, which no message length uses.
    assert_eq!(decode_message_at(&vec![255], 0), None);
    // A length prefix pointing past the end of the input.
    assert_eq!(decode_message_at(&vec![40, 1, 2], 0), None);
    // An empty tail holds no message.
    assert_eq!(decode_message_at(&vec![], 0), None);
}

#[test]
fn message_hash_matches_known_digests() {
    // The hash covers the wire encoding: an empty payload hashes as the
    // single length byte, a one-byte payload as its two encoded bytes.
    assert_eq!(
        Queue::hash_of_message(&XcmMessage { data: vec![] }),
        [
            3, 23, 10, 46, 117, 151, 183, 183, 227, 216, 76, 5, 57, 29, 19, 154, 98, 177, 87,
            231, 135, 134, 216, 192, 130, 242, 157, 207, 76, 17, 19, 20,
        ]
    );
    assert_eq!(
        Queue::hash_of_message(&XcmMessage { data: vec![1] }),
        [
            69, 219, 123, 51, 126, 150, 176, 220, 218, 251, 180, 191, 160, 95, 228, 230, 103,
            168, 12, 196, 117, 137, 42, 66, 140, 58, 131, 109, 247, 54, 5, 207,
        ]
    );
}

#[test]
fn classifier_matched_message_defers_to_sent_at_plus_duration() {
    let c = collab();
    let matched = XcmMessage { data: vec![1] };
    let d = decide_deferral(&c, 999, &matched, 10, 12, 5, None);
    assert_eq!(d, Decision::DeferUntil(15));
}

#[test]
fn override_defers_everything_from_the_arrival_block() {
    let c = collab();
    let matched = XcmMessage { data: vec![1] };
    let unmatched = XcmMessage { data: vec![2] };
    assert_eq!(decide_deferral(&c, 999, &matched, 10, 12, 5, Some(42)), Decision::DeferUntil(54));
    assert_eq!(
        decide_deferral(&c, 999, &unmatched, 10, 12, 5, Some(42)),
        Decision::DeferUntil(54)
    );
}

#[test]
fn unmatched_message_executes_immediately() {
    let c = collab();
    let unmatched = XcmMessage { data: vec![2] };
    assert_eq!(decide_deferral(&c, 999, &unmatched, 10, 12, 5, None), Decision::Execute);
}

#[test]
fn weight_arithmetic_saturates_and_compares_componentwise() {
    let a = Weight::from_parts(u64::MAX - 1, 10);
    let b = Weight::from_parts(5, 7);
    assert_eq!(a.saturating_add(b), Weight::from_parts(u64::MAX, 17));
    assert_eq!(b.checked_sub(a), None);
    assert_eq!(a.checked_sub(b), Some(Weight::from_parts(u64::MAX - 6, 3)));
    // Exceeding in one component alone already breaches a ceiling.
    assert!(Weight::from_parts(1, 100).any_gt(&Weight::from_parts(10, 10)));
    assert!(!Weight::from_parts(1, 10).any_gt(&Weight::from_parts(10, 10)));
    assert!(Weight::from_parts(10, 10).all_lte(&Weight::from_parts(10, 10)));
}
