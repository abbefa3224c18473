use cyrene::error::ErrorCode;
use cyrene::id::{DocumentId, ReplicaId, SpaceId};
use cyrene::schema::Schema;
use cyrene::store::types::commit_timestamp_ms;
use cyrene::store::{
    JournalEntry, MigratedDocument, Mutation, SqliteStore, StoredDocument, StoredSchema,
    TransformedDocument,
};
use cyrene::sync::{Change, ChangeId, Operation, Timestamp};

const NOW: Option<u128> = Some(1_000);

fn sample_change(replica: ReplicaId, space: SpaceId, counter: u64, payload: &[u8]) -> Change {
    Change {
        id: ChangeId { replica, counter },
        space,
        timestamp: Timestamp {
            physical_ms: counter,
            logical: 0,
            replica,
        },
        operation: Operation::Put {
            collection: "notes".into(),
            document: DocumentId::from_u128(1),
            schema: 1,
            payload: payload.to_vec(),
        },
    }
}

/// A store restored from the rows of another.
fn reopened(store: &mut SqliteStore, space: SpaceId) -> SqliteStore {
    let replica = store.replica_id().unwrap();
    let default_space = store.default_space().unwrap();
    let mut copy = SqliteStore::open_in_memory();
    copy.restore_metadata(
        Some(replica.to_string()),
        Some(default_space.to_string()),
        store.counter_text().map(|text| text.to_owned()),
    );
    for document in store.list(space, "notes").unwrap() {
        copy.restore_document(
            space,
            "notes".to_owned(),
            document.id,
            document.payload,
            document.sequence,
        );
    }
    for entry in store.journal() {
        copy.restore_change(JournalEntry {
            sequence: entry.sequence,
            space: entry.space,
            collection: entry.collection.clone(),
            id: entry.id,
            kind: entry.kind,
            payload: entry.payload.clone(),
            committed_at_ms: entry.committed_at_ms,
        })
        .unwrap();
    }
    for change in store.replicated_changes(space) {
        copy.restore_replicated(space, change).unwrap();
    }
    copy
}

#[test]
fn documents_and_changes_commit_together() {
    let mut store = SqliteStore::open_in_memory();
    let space = SpaceId::new();
    let id = DocumentId::new();

    let sequence = store
        .put(space, "notes", id, br#"{"hello":true}"#, NOW)
        .unwrap();
    let document = store.get(space, "notes", id).unwrap().unwrap();

    assert_eq!(sequence, 1);
    assert_eq!(document.sequence, sequence);
    assert_eq!(store.frontier(), sequence);
    assert_eq!(store.delete(space, "notes", id, NOW).unwrap(), Some(2));
    assert!(store.get(space, "notes", id).unwrap().is_none());
}

#[test]
fn a_file_store_survives_reopening() {
    let space = SpaceId::new();
    let id = DocumentId::new();
    let mut store = SqliteStore::open_in_memory();
    store.put(space, "notes", id, b"persistent", NOW).unwrap();

    let copy = reopened(&mut store, space);
    assert_eq!(
        copy.get(space, "notes", id).unwrap().unwrap().payload,
        b"persistent"
    );
}

#[test]
fn compaction_only_bounds_the_redundant_local_journal() {
    let mut store = SqliteStore::open_in_memory();
    let space = SpaceId::from_u128(7);
    let document = DocumentId::from_u128(11);
    let replica = store.replica_id().unwrap();
    for counter in 1..=5u64 {
        let payload = counter.to_string();
        store
            .put(space, "notes", document, payload.as_bytes(), NOW)
            .unwrap();
        store
            .append_replicated(&[sample_change(replica, space, counter, payload.as_bytes())])
            .unwrap();
    }

    let report = store.compact_local_journal(2).unwrap();
    assert_eq!(report.changes_before, 5);
    assert_eq!(report.changes_after, 2);
    assert_eq!(report.removed(), 3);
    assert_eq!(report.replicated_changes, 5);
    assert_eq!(store.frontier(), 5);
    assert_eq!(store.replicated_changes(space).len(), 5);
    assert_eq!(
        store
            .get(space, "notes", document)
            .unwrap()
            .unwrap()
            .payload,
        b"5"
    );
}

#[test]
fn status_explains_local_durability() {
    let mut store = SqliteStore::open_in_memory();
    let space = SpaceId::new();
    store
        .put(space, "notes", DocumentId::new(), b"persistent", NOW)
        .unwrap();

    let status = store.status("ok".to_owned());
    assert!(status.is_healthy());
    assert_eq!(status.documents, 1);
    assert_eq!(status.changes, 1);
    assert_eq!(status.frontier, 1);
    assert!(!store.status("row 3 missing".to_owned()).is_healthy());
}

#[test]
fn replica_identity_and_changes_survive_reopening() {
    let space = SpaceId::from_u128(7);
    let mut store = SqliteStore::open_in_memory();
    let replica = store.replica_id().unwrap();
    let change = sample_change(replica, space, 1, b"hello");
    assert_eq!(
        store
            .append_replicated(std::slice::from_ref(&change))
            .unwrap(),
        [true]
    );
    assert_eq!(
        store
            .append_replicated(std::slice::from_ref(&change))
            .unwrap(),
        [false]
    );

    let mut copy = reopened(&mut store, space);
    assert_eq!(copy.replica_id().unwrap(), replica);
    assert_eq!(copy.replicated_changes(space), [change]);
    assert_eq!(copy.status("ok".to_owned()).replicated_changes, 1);
}

#[test]
fn a_change_id_collision_rolls_back_the_complete_batch() {
    let mut store = SqliteStore::open_in_memory();
    let space = SpaceId::from_u128(7);
    let replica = store.replica_id().unwrap();
    let original = sample_change(replica, space, 1, b"original");
    store
        .append_replicated(std::slice::from_ref(&original))
        .unwrap();
    let next = sample_change(replica, space, 2, b"next");
    let collision = sample_change(replica, space, 1, b"different");

    let error = store.append_replicated(&[next, collision]).unwrap_err();

    assert_eq!(error.code(), ErrorCode::InvalidData);
    assert_eq!(store.replicated_changes(space), [original]);
}

fn schema(version: u32, fingerprint: u64) -> StoredSchema {
    StoredSchema {
        name: "notes".to_owned(),
        version,
        fingerprint,
    }
}

#[test]
fn batches_apply_completely_or_not_at_all() {
    let mut store = SqliteStore::open_in_memory();
    let space = SpaceId::from_u128(3);
    let put = |id: u128, schema: StoredSchema| Mutation::Put {
        collection: "notes".to_owned(),
        id: DocumentId::from_u128(id),
        schema,
        payload: vec![1],
    };
    let applied = store
        .apply_batch(space, vec![put(1, schema(1, 9)), put(2, schema(1, 9))], NOW)
        .unwrap();
    assert_eq!(applied.len(), 2);
    let before = store.frontier();
    assert!(store
        .apply_batch(space, vec![put(3, schema(1, 9)), put(4, schema(2, 10))], NOW)
        .is_err());
    assert_eq!(store.frontier(), before);
    assert!(store
        .get(space, "notes", DocumentId::from_u128(3))
        .unwrap()
        .is_none());
    assert_eq!(store.list(space, "notes").unwrap().len(), 2);
    assert_eq!(store.collection_schemas(space).len(), 1);
}

#[test]
fn the_clock_decides_whether_a_commit_has_a_time() {
    assert_eq!(commit_timestamp_ms(Some(5)).unwrap(), 5);
    assert_eq!(
        commit_timestamp_ms(None).unwrap_err().code(),
        ErrorCode::Storage
    );
    assert!(commit_timestamp_ms(Some(u128::MAX)).is_err());
    let mut store = SqliteStore::open_in_memory();
    assert!(store
        .put(SpaceId::from_u128(1), "notes", DocumentId::from_u128(1), b"x", None)
        .is_err());
    assert_eq!(store.frontier(), 0);
}

#[test]
fn counters_are_reserved_in_disjoint_blocks() {
    let mut store = SqliteStore::open_in_memory();
    let (first, first_end) = store.reserve_crdt_counters(10).unwrap();
    let (second, second_end) = store.reserve_crdt_counters(5).unwrap();
    assert_eq!(first_end - first, 10);
    assert_eq!(second_end - second, 5);
    assert!(second >= first_end);
    assert!(store.reserve_crdt_counters(0).is_err());
}

#[test]
fn the_default_space_is_bound_once() {
    let mut store = SqliteStore::open_in_memory();
    store.bind_default_space(SpaceId::from_u128(4)).unwrap();
    assert_eq!(store.default_space().unwrap(), SpaceId::from_u128(4));
    store.bind_default_space(SpaceId::from_u128(4)).unwrap();
    assert!(store.bind_default_space(SpaceId::from_u128(5)).is_err());
}

fn migration_change(
    replica: ReplicaId,
    space: SpaceId,
    document: DocumentId,
    payload: &[u8],
) -> Change {
    let counter = document.as_u128() as u64;
    Change {
        operation: Operation::Put {
            collection: "notes".into(),
            document,
            schema: 10,
            payload: payload.to_vec(),
        },
        ..sample_change(replica, space, counter, payload)
    }
}

#[test]
fn migrations_transform_every_document() {
    let mut store = SqliteStore::open_in_memory();
    let space = SpaceId::from_u128(8);
    let replica = store.replica_id().unwrap();
    for id in 1..=3u128 {
        store
            .apply_batch(
                space,
                vec![Mutation::Put {
                    collection: "notes".to_owned(),
                    id: DocumentId::from_u128(id),
                    schema: schema(1, 9),
                    payload: vec![id as u8],
                }],
                NOW,
            )
            .unwrap();
    }
    let migrated = store
        .migrate_collection(
            space,
            "notes",
            &schema(1, 9),
            &schema(2, 10),
            |document| {
                let payload = vec![document.payload[0] + 100];
                Ok(TransformedDocument {
                    change: migration_change(replica, space, document.id, &payload),
                    payload,
                })
            },
            NOW,
        )
        .unwrap();
    assert_eq!(migrated.len(), 3);
    let payloads: Vec<Vec<u8>> = store
        .list(space, "notes")
        .unwrap()
        .into_iter()
        .map(|document| document.payload)
        .collect();
    assert_eq!(payloads, vec![vec![101], vec![102], vec![103]]);
    assert_eq!(store.collection_schemas(space)[0].1, schema(2, 10));
    assert_eq!(store.replicated_changes(space).len(), 3);
    assert!(store
        .migrate_collection(
            space,
            "notes",
            &schema(1, 9),
            &schema(2, 10),
            |_| Ok(TransformedDocument {
                change: migration_change(replica, space, DocumentId::from_u128(9), &[0]),
                payload: vec![0],
            }),
            NOW,
        )
        .is_err());
}

#[test]
fn deleting_nothing_commits_nothing() {
    let mut store = SqliteStore::open_in_memory();
    let space = SpaceId::from_u128(1);
    assert_eq!(
        store
            .delete(space, "notes", DocumentId::from_u128(1), NOW)
            .unwrap(),
        None
    );
    assert_eq!(store.frontier(), 0);
    assert!(store
        .put(space, "", DocumentId::from_u128(1), b"x", NOW)
        .is_err());
}

#[test]
fn schemas_are_stored_as_declared() {
    let declared = Schema {
        name: "notes",
        version: 3,
        fingerprint: 77,
        fields: &[],
    };
    let stored = StoredSchema::from_schema(declared);
    assert!(stored.same(&schema(3, 77)));
}

fn note_schema(version: u32) -> StoredSchema {
    StoredSchema {
        name: "app.note".to_owned(),
        version,
        fingerprint: u64::from(version),
    }
}

fn note_put(id: DocumentId, payload: &[u8]) -> Mutation {
    Mutation::Put {
        collection: "notes".to_owned(),
        id,
        payload: payload.to_vec(),
        schema: note_schema(1),
    }
}

#[test]
fn local_state_and_its_changes_commit_together() {
    let mut store = SqliteStore::open_in_memory();
    let space = SpaceId::from_u128(7);
    let replica = ReplicaId::from_u128(8);
    let id = DocumentId::from_u128(1);
    let change = sample_change(replica, space, 1, b"first");
    let (applied, inserted) = store
        .commit_local(space, vec![note_put(id, b"first")], &[change.clone()], NOW)
        .unwrap();
    assert_eq!(applied.len(), 1);
    assert_eq!(applied[0].sequence, 1);
    assert_eq!(inserted, [true]);
    assert_eq!(store.get(space, "notes", id).unwrap().unwrap().payload, b"first");
    assert_eq!(store.replicated_changes(space).len(), 1);

    let unequal = store
        .commit_local(space, vec![note_put(id, b"second")], &[], NOW)
        .err()
        .unwrap();
    assert_eq!(unequal.code(), ErrorCode::InvalidInput);
    let elsewhere = sample_change(replica, SpaceId::from_u128(9), 2, b"second");
    let foreign = store
        .commit_local(space, vec![note_put(id, b"second")], &[elsewhere.clone()], NOW)
        .err()
        .unwrap();
    assert_eq!(foreign.code(), ErrorCode::InvalidInput);
    let collision = sample_change(replica, space, 1, b"other");
    assert!(store
        .commit_local(space, vec![note_put(id, b"second")], &[collision], NOW)
        .is_err());
    assert_eq!(store.get(space, "notes", id).unwrap().unwrap().payload, b"first");
    assert_eq!(store.frontier(), 1);

    let losing = sample_change(replica, space, 2, b"losing");
    let (applied, inserted) = store
        .commit_remote(space, Vec::new(), &[losing, change], NOW)
        .unwrap();
    assert!(applied.is_empty());
    assert_eq!(inserted, [true, false]);
    assert_eq!(store.replicated_changes(space).len(), 2);
    let foreign = store
        .commit_remote(space, Vec::new(), &[elsewhere], NOW)
        .err()
        .unwrap();
    assert_eq!(foreign.code(), ErrorCode::InvalidInput);
    assert_eq!(store.replicated_changes(space).len(), 2);
}

#[test]
fn a_collection_keeps_its_first_schema() {
    let mut store = SqliteStore::open_in_memory();
    let space = SpaceId::from_u128(7);
    store
        .ensure_collection_schema(space, "notes", &note_schema(1))
        .unwrap();
    store
        .ensure_collection_schema(space, "notes", &note_schema(1))
        .unwrap();
    assert!(store
        .ensure_collection_schema(space, "notes", &note_schema(2))
        .is_err());
    let schemas = store.collection_schemas(space);
    assert_eq!(schemas.len(), 1);
    assert_eq!(schemas[0].0, "notes");
    assert_eq!(schemas[0].1, note_schema(1));
    assert_eq!(store.replica_text(), None);
    let replica = store.replica_id().unwrap();
    assert_eq!(store.replica_text(), Some(replica.to_string().as_str()));
    let default_space = store.default_space().unwrap();
    assert_eq!(
        store.default_space_text(),
        Some(default_space.to_string().as_str())
    );
}

fn shouted(space: SpaceId, document: &StoredDocument) -> TransformedDocument {
    let replica = ReplicaId::from_u128(1);
    let mut payload = document.payload.clone();
    payload.push(b'!');
    TransformedDocument {
        change: Change {
            id: ChangeId {
                replica,
                counter: document.id.as_u128() as u64,
            },
            space,
            timestamp: Timestamp {
                physical_ms: 1,
                logical: 0,
                replica,
            },
            operation: Operation::Put {
                collection: "notes".into(),
                document: document.id,
                schema: 42,
                payload: payload.clone(),
            },
        },
        payload,
    }
}

#[test]
fn migrating_two_notes_continues_their_sequence() {
    let mut store = SqliteStore::open_in_memory();
    let space = SpaceId::from_u128(7);
    let first = DocumentId::from_u128(1);
    let second = DocumentId::from_u128(2);
    assert_eq!(store.put(space, "notes", second, b"b", NOW).unwrap(), 1);
    assert_eq!(store.put(space, "notes", first, b"a", NOW).unwrap(), 2);
    let from = StoredSchema {
        name: "cyrene.untyped.notes".to_owned(),
        version: 1,
        fingerprint: 0,
    };
    let to = StoredSchema {
        name: "n".to_owned(),
        version: 2,
        fingerprint: 42,
    };

    let refused = store
        .migrate_collection(
            space,
            "notes",
            &from,
            &to,
            |document| {
                if document.id == first {
                    Ok(shouted(space, document))
                } else {
                    Err(cyrene::error::Error::new(ErrorCode::InvalidData, "unknown note"))
                }
            },
            NOW,
        )
        .unwrap_err();
    assert_eq!(refused.message(), "unknown note");
    let mismatched = store
        .migrate_collection(
            space,
            "notes",
            &from,
            &to,
            |document| {
                let mut transformed = shouted(space, document);
                transformed.payload.push(b'?');
                Ok(transformed)
            },
            NOW,
        )
        .unwrap_err();
    assert_eq!(
        mismatched.message(),
        "a migration change does not match its transformed document"
    );
    assert_eq!(store.frontier(), 2);
    assert_eq!(store.replicated_changes(space).len(), 0);

    let migrated = store
        .migrate_collection(
            space,
            "notes",
            &from,
            &to,
            |document| Ok(shouted(space, document)),
            NOW,
        )
        .unwrap();
    assert_eq!(
        migrated,
        vec![
            MigratedDocument {
                id: first,
                payload: b"a!".to_vec(),
                sequence: 3,
            },
            MigratedDocument {
                id: second,
                payload: b"b!".to_vec(),
                sequence: 4,
            },
        ]
    );
    assert_eq!(
        store.get(space, "notes", first).unwrap(),
        Some(StoredDocument {
            id: first,
            payload: b"a!".to_vec(),
            sequence: 3,
        })
    );
    let schemas = store.collection_schemas(space);
    assert_eq!(schemas.len(), 1);
    assert_eq!(schemas[0].0, "notes");
    assert_eq!(schemas[0].1, to);
    assert_eq!(store.frontier(), 4);
    assert_eq!(store.replicated_changes(space).len(), 2);
}

#[test]
fn migrating_an_empty_collection_calls_no_transform() {
    let mut store = SqliteStore::open_in_memory();
    let space = SpaceId::from_u128(7);
    let document = DocumentId::from_u128(1);
    store.put(space, "notes", document, b"a", NOW).unwrap();
    store.delete(space, "notes", document, NOW).unwrap();
    let from = StoredSchema {
        name: "cyrene.untyped.notes".to_owned(),
        version: 1,
        fingerprint: 0,
    };
    let migrated = store
        .migrate_collection(
            space,
            "notes",
            &from,
            &schema(2, 10),
            |_| panic!("there is nothing to transform"),
            NOW,
        )
        .unwrap();
    assert_eq!(migrated, Vec::new());
    assert_eq!(store.collection_schemas(space)[0].1, schema(2, 10));
}
