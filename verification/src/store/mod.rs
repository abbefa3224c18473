//! Durable local storage.
//!
//! This module deliberately exposes storage-shaped values rather than
//! application types. A store is the content of its tables; each operation is
//! one transaction, which either changes every table it touches or none.

pub mod database;
pub mod laws;
pub mod model;
pub mod types;

pub use database::SqliteStore;
pub use types::{
    AppliedMutation, BackupReport, ChangeKind, CompactionReport, JournalEntry, MigratedDocument,
    Mutation, StoreStatus, StoredDocument, StoredSchema, TransformedDocument,
};
