use cyrene::error::ErrorCode;
use cyrene::id::{DocumentId, ReplicaId, SpaceId};
use cyrene::sync::{Apply, Change, ChangeId, Clock, Frontier, Operation, Replica, Simulator, Timestamp};

const SCHEMA: u64 = 0xcafe;

fn replica(id: u128, space: SpaceId) -> Replica {
    let mut replica = Replica::new(ReplicaId::from_u128(id), space);
    replica.register_schema("notes", SCHEMA).unwrap();
    replica
}

fn put(document: DocumentId, value: u8) -> Operation {
    Operation::Put {
        collection: "notes".into(),
        document,
        schema: SCHEMA,
        payload: vec![value],
    }
}

#[test]
fn remains_monotonic_when_physical_time_moves_backwards() {
    let mut clock = Clock::new(ReplicaId::from_u128(1));
    let first = clock.tick(100);
    let second = clock.tick(50);
    assert!(second > first);
    assert_eq!(second.physical_ms, 100);
}

#[test]
fn advances_past_observed_remote_time() {
    let first_id = ReplicaId::from_u128(1);
    let second_id = ReplicaId::from_u128(2);
    let remote = Clock::new(first_id).tick(500);
    let mut local = Clock::new(second_id);
    local.observe(remote, 100);
    assert!(local.tick(100) > remote);
}

#[test]
fn concurrent_writes_converge_independent_of_delivery_order() {
    let space = SpaceId::from_u128(1);
    let document = DocumentId::from_u128(1);
    let mut first = replica(1, space);
    let mut second = replica(2, space);
    let first_change = first.author(put(document, 1), 100).unwrap();
    let second_change = second.author(put(document, 2), 100).unwrap();

    first.apply(second_change.clone(), 100).unwrap();
    second.apply(first_change.clone(), 100).unwrap();

    assert_eq!(
        first.document("notes", document),
        second.document("notes", document)
    );
    assert_eq!(
        first.document("notes", document).unwrap().payload,
        Some(vec![2])
    );
    assert_eq!(first.apply(second_change, 100).unwrap(), Apply::Duplicate);
}

#[test]
fn frontier_does_not_claim_changes_across_a_gap() {
    let space = SpaceId::from_u128(1);
    let document = DocumentId::from_u128(1);
    let author = ReplicaId::from_u128(1);
    let mut source = replica(1, space);
    let first = source.author(put(document, 1), 1).unwrap();
    let second = source.author(put(document, 2), 2).unwrap();
    let mut target = replica(2, space);

    target.apply(second, 2).unwrap();
    assert_eq!(target.frontier().get(author), 0);
    target.apply(first, 2).unwrap();
    assert_eq!(target.frontier().get(author), 2);
}

#[test]
fn newer_delete_remains_as_a_tombstone() {
    let space = SpaceId::from_u128(1);
    let document = DocumentId::from_u128(1);
    let mut source = replica(1, space);
    source.author(put(document, 1), 1).unwrap();
    source
        .author(
            Operation::Delete {
                collection: "notes".into(),
                document,
                schema: SCHEMA,
            },
            2,
        )
        .unwrap();
    assert_eq!(source.document("notes", document).unwrap().payload, None);
}

fn simulated(document: u128, value: u8) -> Operation {
    Operation::Put {
        collection: "notes".into(),
        document: DocumentId::from_u128(document),
        schema: 1,
        payload: vec![value],
    }
}

#[test]
fn partitioned_offline_edits_reconcile_after_healing() {
    let space = SpaceId::from_u128(1);
    let first_id = ReplicaId::from_u128(1);
    let second_id = ReplicaId::from_u128(2);
    let mut first = Replica::new(first_id, space);
    let mut second = Replica::new(second_id, space);
    first.register_schema("notes", 1).unwrap();
    second.register_schema("notes", 1).unwrap();
    let mut simulator = Simulator::new();
    simulator.add(first).unwrap();
    simulator.add(second).unwrap();
    simulator.partition(first_id, second_id);

    let first_change = simulator
        .replica_mut(first_id)
        .unwrap()
        .author(simulated(1, 1), 10)
        .unwrap();
    let second_change = simulator
        .replica_mut(second_id)
        .unwrap()
        .author(simulated(2, 2), 10)
        .unwrap();
    simulator.broadcast(first_id, &first_change);
    simulator.broadcast(second_id, &second_change);
    assert!(simulator.deliver(0, 10).is_err());

    simulator.heal(first_id, second_id);
    simulator.duplicate(0).unwrap();
    while !simulator.queue().is_empty() {
        simulator.deliver(0, 20).unwrap();
    }
    simulator.reconcile(first_id, second_id).unwrap();
    simulator.reconcile(second_id, first_id).unwrap();
    while !simulator.queue().is_empty() {
        simulator.deliver(0, 20).unwrap();
    }

    let first = simulator.replica(first_id).unwrap();
    let second = simulator.replica(second_id).unwrap();
    assert_eq!(first.documents(), second.documents());
    assert_eq!(first.change_count(), 2);
    assert_eq!(second.change_count(), 2);
}

fn step(state: &mut u64) -> u64 {
    *state = state
        .wrapping_mul(6_364_136_223_846_793_005)
        .wrapping_add(1_442_695_040_888_963_407);
    *state >> 33
}

fn mix(seed: u64, change: &Change) -> u64 {
    let replica = change.id.replica.as_u128().to_be_bytes();
    let replica = u64::from_be_bytes(replica[..8].try_into().unwrap())
        ^ u64::from_be_bytes(replica[8..].try_into().unwrap());
    let mut value = seed ^ change.id.counter ^ replica.rotate_left(17);
    value ^= value >> 30;
    value = value.wrapping_mul(0xbf58_476d_1ce4_e5b9);
    value ^= value >> 27;
    value.wrapping_mul(0x94d0_49bb_1331_11eb) ^ (value >> 31)
}

#[test]
fn arbitrary_reordering_and_duplication_converges() {
    for seed in 0..16u64 {
        let mut state = seed;
        let space = SpaceId::from_u128(9);
        let mut first = replica(1, space);
        let mut second = replica(2, space);
        let mut changes = Vec::<Change>::new();
        for _ in 0..(1 + step(&mut state) % 60) {
            let document = DocumentId::from_u128(u128::from(step(&mut state) % 8) + 1);
            let operation = if step(&mut state) % 2 == 0 {
                Operation::Delete {
                    collection: "notes".into(),
                    document,
                    schema: SCHEMA,
                }
            } else {
                put(document, step(&mut state) as u8)
            };
            let author = if step(&mut state) % 2 == 0 {
                &mut second
            } else {
                &mut first
            };
            changes.push(author.author(operation, step(&mut state) % 500).unwrap());
        }
        let first_seed = step(&mut state);
        let second_seed = step(&mut state);
        let mut first_order = changes.clone();
        first_order.sort_by_key(|change| mix(first_seed, change));
        let mut second_order = changes.clone();
        second_order.sort_by_key(|change| mix(second_seed, change));
        for change in first_order
            .iter()
            .chain(first_order.iter().take(first_order.len() / 3))
        {
            first.apply(change.clone(), 1_000).unwrap();
        }
        for change in second_order
            .iter()
            .chain(second_order.iter().rev().take(second_order.len() / 2))
        {
            second.apply(change.clone(), 1_000).unwrap();
        }
        assert_eq!(first.documents(), second.documents());
        assert_eq!(first.frontier(), second.frontier());
        assert_eq!(first.change_count(), changes.len());
        assert_eq!(second.change_count(), changes.len());
    }
}

#[test]
fn malformed_changes_are_refused() {
    let space = SpaceId::from_u128(1);
    let mut target = replica(2, space);
    let change = Change {
        id: ChangeId {
            replica: ReplicaId::from_u128(1),
            counter: 1,
        },
        space: SpaceId::from_u128(2),
        timestamp: Timestamp {
            physical_ms: 1,
            logical: 0,
            replica: ReplicaId::from_u128(1),
        },
        operation: put(DocumentId::from_u128(1), 1),
    };
    assert!(target.apply(change.clone(), 1).is_err());
    let mut zero = change.clone();
    zero.space = space;
    zero.id.counter = 0;
    assert_eq!(
        target.apply(zero, 1).unwrap_err().code(),
        ErrorCode::InvalidData
    );
    let mut collided = change;
    collided.space = space;
    target.apply(collided.clone(), 1).unwrap();
    collided.operation = put(DocumentId::from_u128(1), 9);
    assert_eq!(
        target.apply(collided, 1).unwrap_err().code(),
        ErrorCode::InvalidData
    );
    assert_eq!(target.change_count(), 1);
    assert!(target.register_schema("", 1).is_err());
}

#[test]
fn missing_changes_are_paged_towards_a_target() {
    let space = SpaceId::from_u128(3);
    let mut source = replica(1, space);
    for value in 0..5 {
        source
            .author(put(DocumentId::from_u128(1), value), u64::from(value))
            .unwrap();
    }
    let empty = Frontier::new();
    assert_eq!(source.missing_for(&empty).len(), 5);
    let (page, more) = source.missing_for_target(&empty, source.frontier(), 2);
    assert_eq!(page.len(), 2);
    assert!(more);
    let all = Frontier::from_entries(&vec![(ReplicaId::from_u128(1), 5)]);
    assert_eq!(source.missing_for(&all).len(), 0);
    assert_eq!(
        source
            .changes_for_document("notes", DocumentId::from_u128(1))
            .len(),
        5
    );
}

#[test]
fn simulators_check_replicas_and_permutations() {
    let space = SpaceId::from_u128(1);
    let mut simulator = Simulator::new();
    simulator.add(replica(1, space)).unwrap();
    assert!(simulator.add(replica(1, space)).is_err());
    assert!(simulator
        .reconcile(ReplicaId::from_u128(1), ReplicaId::from_u128(9))
        .is_err());
    assert!(simulator.duplicate(0).is_err());
    assert_eq!(
        simulator.reorder(&[0]).unwrap_err().message(),
        "queue order must be a complete index permutation"
    );
    simulator.reorder(&[]).unwrap();
}

#[test]
fn replicas_that_send_each_other_what_is_missing_agree() {
    let space = SpaceId::from_u128(6);
    let mut first = replica(1, space);
    let mut second = replica(2, space);
    for value in 0..3 {
        first
            .author(put(DocumentId::from_u128(1), value), u64::from(value))
            .unwrap();
        second
            .author(put(DocumentId::from_u128(2), value), u64::from(value))
            .unwrap();
    }
    // The last change of the first replica arrives early, beyond a gap.
    let early = first.missing_for(&Frontier::new()).pop().unwrap();
    second.apply(early, 10).unwrap();
    assert_eq!(second.frontier().get(ReplicaId::from_u128(1)), 0);

    let to_second = first.missing_for(second.frontier());
    let to_first = second.missing_for(first.frontier());
    assert_eq!(to_second.len(), 3);
    assert_eq!(to_first.len(), 3);
    for (index, change) in to_second.into_iter().enumerate() {
        let outcome = second.apply(change, 20).unwrap();
        assert_eq!(outcome == Apply::Duplicate, index == 2);
    }
    for change in to_first {
        assert!(matches!(
            first.apply(change, 20).unwrap(),
            Apply::Applied { .. }
        ));
    }
    assert_eq!(first.change_count(), 6);
    assert_eq!(first.documents(), second.documents());
    assert_eq!(first.missing_for(second.frontier()).len(), 0);
    assert_eq!(second.missing_for(first.frontier()).len(), 0);
}
