//! Deterministic, transport-independent replication.
//!
//! Networking is intentionally absent here. A [`Replica`] accepts
//! authenticated changes only after an outer layer has established identity
//! and authority. Its state machine tolerates duplicated and reordered input
//! and converges when replicas possess the same valid changes.

pub mod change;
pub mod clock;
pub mod frontier;
pub mod convergence;
pub mod replica;
pub mod simulator;

pub use change::{Change, ChangeId, Operation};
pub use clock::{Clock, Timestamp};
pub use frontier::Frontier;
pub use replica::{Apply, DocumentKey, MaterializedDocument, Replica};
pub use simulator::{Envelope, Simulator};
