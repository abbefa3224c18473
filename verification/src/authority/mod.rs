//! Offline-verifiable authority scoped to one Cyrene space.
//!
//! Transport identity answers "which device is connected?" A [`Capability`]
//! separately answers "what may that device do in this space?" Capabilities
//! are narrow, signed, expiring, and tied to one forward-moving key epoch.

pub mod capability;
pub mod encoding;
pub mod invitation;
pub mod payload;

pub use capability::{AuthorityError, Capability, Operation, Permission, SpaceAuthority};
pub use invitation::{InvitationError, InvitationSecret, ShareInvitation};
pub use payload::{EncryptedPayload, EncryptionError, OpaquePayload, SpaceKey};
