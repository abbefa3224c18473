use cyrene::net::{RelayEnvelope, RelayMailbox, RelayProtocolError, RelayRejection, RelayResponse};
use cyrene::relay::{
    accept_frame, rejection_for, response_frame, LimitsError, RelayLimits, RelayStore,
    RelayStoreError, StoredObject,
};

#[test]
fn push_pull_deduplicate_acknowledge_and_replay_are_atomic() {
    let mut store = RelayStore::in_memory(RelayLimits::default());
    let mailbox = RelayMailbox::derive(&[1; 32], &[2; 32]);
    let envelope = RelayEnvelope::new(vec![3; 64], 2_000, 1_000).unwrap();
    let push = mailbox.push(vec![envelope.clone()], 1_000).unwrap();
    assert!(matches!(
        store.handle(&push, 1_000).unwrap(),
        RelayResponse::Applied { changed: 1 }
    ));
    assert!(matches!(
        store.handle(&push, 1_000).unwrap(),
        RelayResponse::Rejected {
            code: RelayRejection::Unauthorized
        }
    ));
    let duplicate = mailbox.push(vec![envelope.clone()], 1_001).unwrap();
    assert!(matches!(
        store.handle(&duplicate, 1_001).unwrap(),
        RelayResponse::Applied { changed: 0 }
    ));
    let pull = mailbox.pull(0, 10, 1_002).unwrap();
    let RelayResponse::Deliveries { items } = store.handle(&pull, 1_002).unwrap() else {
        panic!("expected deliveries");
    };
    assert_eq!(items.len(), 1);
    assert_eq!(items[0].envelope, envelope);
    let ack = mailbox.acknowledge(vec![envelope.id()], 1_003).unwrap();
    assert!(matches!(
        store.handle(&ack, 1_003).unwrap(),
        RelayResponse::Applied { changed: 1 }
    ));
    assert_eq!(store.usage().unwrap(), (0, 0));
}

#[test]
fn quotas_and_expiry_are_enforced_without_partial_inserts() {
    let limits = RelayLimits {
        mailbox_bytes: 100,
        mailbox_objects: 2,
        total_bytes: 100,
    };
    let mut store = RelayStore::in_memory(limits);
    let mailbox = RelayMailbox::derive(&[4; 32], &[5; 32]);
    let first = RelayEnvelope::new(vec![1; 60], 1_010, 1_000).unwrap();
    let second = RelayEnvelope::new(vec![2; 60], 1_010, 1_000).unwrap();
    let request = mailbox.push(vec![first, second], 1_000).unwrap();
    assert!(matches!(
        store.handle(&request, 1_000).unwrap(),
        RelayResponse::Rejected {
            code: RelayRejection::LimitExceeded
        }
    ));
    assert_eq!(store.usage().unwrap(), (0, 0));

    let expiring = RelayEnvelope::new(vec![3; 60], 1_001, 1_000).unwrap();
    let request = mailbox.push(vec![expiring], 1_000).unwrap();
    assert!(matches!(
        store.handle(&request, 1_000).unwrap(),
        RelayResponse::Applied { changed: 1 }
    ));
    let pull = mailbox.pull(0, 10, 1_002).unwrap();
    assert!(matches!(
        store.handle(&pull, 1_002).unwrap(),
        RelayResponse::Deliveries { ref items } if items.is_empty()
    ));
    assert_eq!(store.usage().unwrap(), (0, 0));
}

#[test]
fn default_limits_and_mebibytes_are_exact() {
    let limits = RelayLimits::default();
    assert_eq!(limits.mailbox_bytes, 64 * 1024 * 1024);
    assert_eq!(limits.mailbox_objects, 10_000);
    assert_eq!(limits.total_bytes, 1024 * 1024 * 1024);
    let read = RelayLimits::from_mebibytes(2, 3, 4).unwrap();
    assert_eq!(read.mailbox_bytes, 2_097_152);
    assert_eq!(read.mailbox_objects, 3);
    assert_eq!(read.total_bytes, 4_194_304);
    assert_eq!(
        RelayLimits::from_mebibytes(u64::MAX, 1, 1),
        Err(LimitsError::MailboxOverflow)
    );
    assert_eq!(
        RelayLimits::from_mebibytes(1, 1, u64::MAX),
        Err(LimitsError::TotalOverflow)
    );
    assert_eq!(
        RelayLimits::from_mebibytes(2, 1, 1),
        Err(LimitsError::Unusable)
    );
}

#[test]
fn pages_are_ordered_and_continue_behind_their_cursor() {
    let mut store = RelayStore::in_memory(RelayLimits::default());
    let mailbox = RelayMailbox::derive(&[7; 32], &[8; 32]);
    for value in 1..=3u8 {
        let envelope = RelayEnvelope::new(vec![value], 2_000, 1_000).unwrap();
        let push = mailbox.push(vec![envelope], 1_000).unwrap();
        store.handle(&push, 1_000).unwrap();
    }
    let RelayResponse::Deliveries { items } = store
        .handle(&mailbox.pull(0, 2, 1_001).unwrap(), 1_001)
        .unwrap()
    else {
        panic!("expected deliveries");
    };
    assert_eq!(items.len(), 2);
    assert!(items[0].cursor < items[1].cursor);
    let RelayResponse::Deliveries { items: rest } = store
        .handle(&mailbox.pull(items[1].cursor, 2, 1_002).unwrap(), 1_002)
        .unwrap()
    else {
        panic!("expected deliveries");
    };
    assert_eq!(rest.len(), 1);
    assert_eq!(rest[0].envelope.ciphertext(), &[3]);
    assert_eq!(store.usage().unwrap(), (3, 3));
}

#[test]
fn mailboxes_do_not_see_each_other() {
    let mut store = RelayStore::in_memory(RelayLimits::default());
    let first = RelayMailbox::derive(&[9; 32], &[1; 32]);
    let second = RelayMailbox::derive(&[9; 32], &[2; 32]);
    let envelope = RelayEnvelope::new(vec![1], 2_000, 1_000).unwrap();
    let push = first.push(vec![envelope.clone()], 1_000).unwrap();
    store.handle(&push, 1_000).unwrap();
    let pulled = store
        .handle(&second.pull(0, 10, 1_001).unwrap(), 1_001)
        .unwrap();
    assert_eq!(pulled, RelayResponse::Deliveries { items: Vec::new() });
    let acknowledged = store
        .handle(
            &second.acknowledge(vec![envelope.id()], 1_002).unwrap(),
            1_002,
        )
        .unwrap();
    assert_eq!(acknowledged, RelayResponse::Applied { changed: 0 });
    assert_eq!(store.usage().unwrap(), (1, 1));
}

#[test]
fn rows_are_restored_when_they_are_consistent() {
    let mut store = RelayStore::in_memory(RelayLimits::default());
    let mailbox = RelayMailbox::derive(&[3; 32], &[4; 32]);
    let envelope = RelayEnvelope::new(vec![1, 2], 2_000, 1_000).unwrap();
    let push = mailbox.push(vec![envelope.clone()], 1_000).unwrap();
    store.handle(&push, 1_000).unwrap();
    let objects: Vec<StoredObject> = store
        .objects()
        .iter()
        .map(|object| StoredObject {
            sequence: object.sequence,
            route: object.route,
            id: object.id,
            expires_at: object.expires_at,
            ciphertext: object.ciphertext.clone(),
        })
        .collect();
    let mut restored = RelayStore::restore(
        RelayLimits::default(),
        store.next_sequence(),
        objects,
        store.replays().clone(),
    )
    .unwrap();
    assert_eq!(restored.usage().unwrap(), (1, 2));
    assert!(matches!(
        restored.handle(&push, 1_001).unwrap(),
        RelayResponse::Rejected { .. }
    ));
    let broken = RelayStore::restore(
        RelayLimits::default(),
        0,
        vec![StoredObject {
            sequence: 1,
            route: mailbox.route().to_bytes(),
            id: envelope.id(),
            expires_at: 2_000,
            ciphertext: vec![1, 2],
        }],
        Vec::new(),
    );
    assert_eq!(broken.err(), Some(RelayStoreError::CorruptStorage));
}

#[test]
fn requests_are_answered_and_frames_bounded() {
    let mut store = RelayStore::in_memory(RelayLimits::default());
    assert!(matches!(
        store.answer(None, 1_000),
        RelayResponse::Rejected { .. }
    ));
    assert_eq!(accept_frame(12), Ok(12));
    assert_eq!(
        accept_frame(0),
        Err(RelayResponse::Rejected {
            code: RelayRejection::LimitExceeded
        })
    );
    assert_eq!(response_frame(&[5, 6]), vec![0, 0, 0, 2, 5, 6]);
    assert_eq!(
        rejection_for(&RelayProtocolError::LimitExceeded),
        RelayRejection::LimitExceeded
    );
    assert_eq!(
        rejection_for(&RelayProtocolError::StaleRequest),
        RelayRejection::Unauthorized
    );
}

#[test]
fn a_request_dated_ahead_is_remembered_until_it_is_stale() {
    let mut store = RelayStore::in_memory(RelayLimits::default());
    let mailbox = RelayMailbox::derive(&[3; 32], &[9; 32]);
    let pull = mailbox.pull(0, 10, 1_300).unwrap();
    let unauthorized = RelayResponse::Rejected {
        code: RelayRejection::Unauthorized,
    };
    assert_eq!(store.handle(&pull, 999).unwrap(), unauthorized);
    assert_eq!(
        store.handle(&pull, 1_000).unwrap(),
        RelayResponse::Deliveries { items: Vec::new() }
    );
    assert_eq!(store.replays().len(), 1);
    assert_eq!(store.replays()[0].expires_at, 1_601);
    for later in [1_000, 1_300, 1_301, 1_600, 1_601] {
        assert_eq!(store.handle(&pull, later).unwrap(), unauthorized);
    }
    let other = mailbox.pull(0, 10, 1_500).unwrap();
    store.handle(&other, 1_600).unwrap();
    assert_eq!(store.replays().len(), 2);
    assert_eq!(store.handle(&pull, 1_600).unwrap(), unauthorized);
    let last = mailbox.pull(0, 10, 1_601).unwrap();
    store.handle(&last, 1_601).unwrap();
    assert_eq!(store.replays().len(), 2);
}

#[test]
fn a_request_that_cannot_be_kept_fails() {
    let mut store = RelayStore::in_memory(RelayLimits::default());
    let mailbox = RelayMailbox::derive(&[3; 32], &[9; 32]);
    let largest = 9_223_372_036_854_775_807u64;
    let kept = mailbox.pull(0, 10, largest - 301).unwrap();
    assert!(store.handle(&kept, largest - 1).is_ok());
    let ahead = mailbox.pull(0, 10, largest - 300).unwrap();
    assert_eq!(
        store.handle(&ahead, largest - 301).err(),
        Some(RelayStoreError::CorruptStorage)
    );
}

#[test]
fn an_identity_that_a_push_repeats_counts_once() {
    let limits = RelayLimits {
        mailbox_bytes: 100,
        mailbox_objects: 1,
        total_bytes: 100,
    };
    let mut store = RelayStore::in_memory(limits);
    let mailbox = RelayMailbox::derive(&[1; 32], &[2; 32]);
    let envelope = RelayEnvelope::new(vec![3; 64], 2_000, 1_000).unwrap();
    let push = mailbox
        .push(vec![envelope.clone(), envelope.clone()], 1_000)
        .unwrap();
    assert_eq!(
        store.handle(&push, 1_000).unwrap(),
        RelayResponse::Applied { changed: 1 }
    );
    assert_eq!(store.usage().unwrap(), (1, 64));
    let RelayResponse::Deliveries { items } = store
        .handle(&mailbox.pull(0, 10, 1_001).unwrap(), 1_001)
        .unwrap()
    else {
        panic!("expected deliveries");
    };
    assert_eq!(items.len(), 1);
    assert_eq!(items[0].envelope, envelope);
}
