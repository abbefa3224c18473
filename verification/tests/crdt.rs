use cyrene::crdt::{Actor, Apply, List, ListOp, Merge, OpId, Text};
use cyrene::error::ErrorCode;
use cyrene::id::ReplicaId;

fn actor(id: u128) -> Actor {
    Actor::new(ReplicaId::from_u128(id))
}

fn values<'a>(list: &'a List<&'static str>) -> Vec<&'a str> {
    list.iter().into_iter().map(|value| *value).collect()
}

#[test]
fn concurrent_insertions_converge_in_operation_identity_order() {
    let mut first_actor = actor(1);
    let mut second_actor = actor(2);
    let mut first = List::new();
    let mut second = List::new();
    let first_op = first.insert(&mut first_actor, 0, "first").unwrap();
    let second_op = second.insert(&mut second_actor, 0, "second").unwrap();

    first.apply(second_op.clone()).unwrap();
    second.apply(first_op.clone()).unwrap();

    assert_eq!(first, second);
    assert_eq!(values(&first), ["first", "second"]);
    assert_eq!(first.apply(second_op).unwrap(), Apply::Duplicate);
}

#[test]
fn child_and_delete_may_arrive_before_their_targets() {
    let replica = ReplicaId::from_u128(1);
    let parent = OpId {
        replica,
        counter: 1,
    };
    let child = OpId {
        replica,
        counter: 2,
    };
    let deletion = OpId {
        replica,
        counter: 3,
    };
    let mut list = List::new();
    list.apply(ListOp::Insert {
        id: child,
        after: Some(parent),
        value: 'b',
    })
    .unwrap();
    list.apply(ListOp::Delete {
        id: deletion,
        target: parent,
    })
    .unwrap();
    assert!(list.is_empty());

    list.apply(ListOp::Insert {
        id: parent,
        after: None,
        value: 'a',
    })
    .unwrap();
    assert_eq!(list.iter().into_iter().collect::<String>(), "b");
}

#[test]
fn collision_rejects_merge_without_partial_changes() {
    let replica = ReplicaId::from_u128(1);
    let id = OpId {
        replica,
        counter: 1,
    };
    let mut first = List::new();
    first
        .apply(ListOp::Insert {
            id,
            after: None,
            value: "first",
        })
        .unwrap();
    let before = first.clone();
    let mut second = List::new();
    second
        .apply(ListOp::Insert {
            id,
            after: None,
            value: "different",
        })
        .unwrap();

    let error = first.merge(&second).unwrap_err();
    assert_eq!(error.code(), ErrorCode::InvalidData);
    assert_eq!(
        error.message(),
        "merge-aware operation 00000000000000000000000001:1 collides with different content"
    );
    assert_eq!(first, before);
}

#[test]
fn concurrent_text_edits_merge_without_losing_either_insertion() {
    let mut first_actor = Actor::new(ReplicaId::from_u128(1));
    let mut second_actor = Actor::new(ReplicaId::from_u128(2));
    let mut first = Text::new();
    let mut second = Text::new();
    first.insert(&mut first_actor, 0, "hello").unwrap();
    second.insert(&mut second_actor, 0, "owo").unwrap();

    let mut first_then_second = first.clone();
    first_then_second.merge(&second).unwrap();
    second.merge(&first).unwrap();

    assert_eq!(first_then_second, second);
    assert_eq!(first_then_second.to_string(), "helloowo");
}

#[test]
fn indexes_unicode_scalars_instead_of_utf8_bytes() {
    let mut actor = Actor::new(ReplicaId::from_u128(1));
    let mut text = Text::new();
    text.insert(&mut actor, 0, "a🦀b").unwrap();
    text.delete(&mut actor, 1, 1).unwrap();
    assert_eq!(text.to_string(), "ab");
    assert_eq!(text.len(), 2);
}

fn step(state: &mut u64) -> u64 {
    *state = state
        .wrapping_mul(6_364_136_223_846_793_005)
        .wrapping_add(1_442_695_040_888_963_407);
    *state >> 33
}

fn mix(seed: u64, id: OpId) -> u64 {
    let replica = id.replica.as_u128().to_be_bytes();
    let replica = u64::from_be_bytes(replica[..8].try_into().unwrap())
        ^ u64::from_be_bytes(replica[8..].try_into().unwrap());
    let mut value = seed ^ id.counter ^ replica.rotate_left(23);
    value ^= value >> 30;
    value = value.wrapping_mul(0xbf58_476d_1ce4_e5b9);
    value ^ (value >> 27)
}

#[test]
fn arbitrary_delivery_order_and_duplication_converges() {
    for seed in 0..24u64 {
        let mut state = seed;
        let mut source: List<u8> = List::new();
        let mut actors = [actor(1), actor(2)];
        let mut operations = Vec::new();
        for _ in 0..(1 + step(&mut state) % 60) {
            let actor = &mut actors[(step(&mut state) % 2) as usize];
            if step(&mut state) % 2 == 0 && !source.is_empty() {
                let index = step(&mut state) as usize % source.len();
                operations.push(source.remove(actor, index).unwrap());
            } else {
                let index = step(&mut state) as usize % (source.len() + 1);
                operations.push(source.insert(actor, index, step(&mut state) as u8).unwrap());
            }
        }
        let first_seed = step(&mut state);
        let second_seed = step(&mut state);
        let mut first_order = operations.clone();
        first_order.sort_by_key(|operation| mix(first_seed, operation.id()));
        let mut second_order = operations.clone();
        second_order.sort_by_key(|operation| mix(second_seed, operation.id()));
        let mut first = List::new();
        let mut second = List::new();
        for operation in first_order
            .iter()
            .chain(first_order.iter().take(first_order.len() / 3))
        {
            first.apply(operation.clone()).unwrap();
        }
        for operation in second_order
            .iter()
            .chain(second_order.iter().rev().take(second_order.len() / 2))
        {
            second.apply(operation.clone()).unwrap();
        }
        assert_eq!(first, second);
        assert_eq!(first.iter(), source.iter());
    }
}

#[test]
fn indexes_and_reservations_are_checked() {
    let mut list: List<u8> = List::new();
    let mut writer = actor(1);
    assert_eq!(
        list.insert(&mut writer, 1, 9).unwrap_err().code(),
        ErrorCode::InvalidInput
    );
    assert_eq!(
        list.remove(&mut writer, 0).unwrap_err().code(),
        ErrorCode::InvalidInput
    );
    let mut reserved = Actor::reserved(ReplicaId::from_u128(1), 4, 5).unwrap();
    list.insert(&mut reserved, 0, 1).unwrap();
    assert_eq!(reserved.counter(), 5);
    assert!(list.insert(&mut reserved, 0, 2).is_err());
    assert_eq!(list.len(), 1);
    assert!(Actor::reserved(ReplicaId::from_u128(1), 6, 5).is_err());
}

#[test]
fn operations_rebuild_the_list() {
    let mut writer = actor(3);
    let mut list: List<char> = List::new();
    for (index, value) in "abcd".chars().enumerate() {
        list.insert(&mut writer, index, value).unwrap();
    }
    list.remove(&mut writer, 1).unwrap();
    let mut copy = List::new();
    for operation in list.operations() {
        assert_eq!(copy.apply(operation).unwrap(), Apply::Applied);
    }
    assert_eq!(copy, list);
    assert_eq!(list.iter().into_iter().collect::<String>(), "acd");
    assert_eq!(list.id_at(9), None);
}

#[test]
fn text_is_inserted_before_the_character_at_its_index() {
    let mut writer = actor(1);
    let mut text = Text::new();
    text.insert(&mut writer, 0, "b").unwrap();
    text.insert(&mut writer, 0, "a").unwrap();
    assert_eq!(text.to_string(), "ab");
    text.insert(&mut writer, 1, "xy").unwrap();
    assert_eq!(text.to_string(), "axyb");
    text.delete(&mut writer, 1, 1).unwrap();
    text.insert(&mut writer, 1, "z").unwrap();
    assert_eq!(text.to_string(), "azyb");

    let mut lesser = text.clone();
    let mut other = actor(0);
    lesser.insert(&mut other, 0, "<").unwrap();
    assert_eq!(lesser.to_string(), "<azyb");
    let mut greater = actor(2);
    text.insert(&mut greater, 0, ">").unwrap();
    assert_eq!(text.to_string(), "azyb>");
}

#[test]
fn siblings_of_one_replica_show_the_later_first() {
    let mut first = actor(1);
    let mut second = actor(2);
    let mut list = List::new();
    for value in ["a", "b", "c"] {
        list.insert(&mut first, 0, value).unwrap();
    }
    let mut other = List::new();
    for value in ["x", "y"] {
        other.insert(&mut second, 0, value).unwrap();
    }
    list.merge(&other).unwrap();
    assert_eq!(values(&list), ["c", "b", "a", "y", "x"]);
}

#[test]
fn merging_is_idempotent_and_shared() {
    let mut writer = actor(5);
    let mut first = Text::new();
    first.insert(&mut writer, 0, "note").unwrap();
    let before = first.clone();
    Merge::merge(&mut first, &before).unwrap();
    assert_eq!(first, before);
}

#[test]
fn a_list_is_rebuilt_from_its_parts() {
    let mut editor = actor(1);
    let mut list = List::new();
    list.insert(&mut editor, 0, "a").unwrap();
    list.insert(&mut editor, 1, "b").unwrap();
    list.remove(&mut editor, 0).unwrap();
    let mut inserts = Vec::new();
    let mut deletes = Vec::new();
    for operation in list.operations() {
        match operation {
            ListOp::Insert { id, after, value } => inserts.push((id, after, value)),
            ListOp::Delete { id, target } => deletes.push((id, target)),
        }
    }
    inserts.reverse();
    let rebuilt = List::from_parts(inserts.clone(), deletes).unwrap();
    assert_eq!(rebuilt, list);
    assert_eq!(values(&rebuilt), ["b"]);

    let reused = vec![(inserts[0].0, inserts[1].0)];
    let error = List::from_parts(inserts, reused).err().unwrap();
    assert_eq!(error.code(), ErrorCode::InvalidData);
}
