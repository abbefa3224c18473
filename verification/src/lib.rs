//! Local-first application state: stable identifiers, deterministic
//! replication, merge-aware datatypes, device identity, scoped authority and
//! the durable state machines behind a relay, a document store and a trust
//! vault.

pub mod authority;
pub mod bytes;
pub mod command;
pub mod crdt;
pub mod crypto;
pub mod error;
pub mod id;
pub mod identity;
pub mod json;
pub mod net;
pub mod ordmap;
pub mod purposes;
pub mod relay;
pub mod rows;
pub mod schema;
pub mod store;
pub mod sync;
pub mod text;
pub mod trust;
