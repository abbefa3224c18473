//! Encrypted persistence for device credentials, peer pins, and invitations.
//!
//! A vault never persists its [`WrappingKey`]. Device signing and TLS private
//! keys are sealed with XChaCha20-Poly1305 before entering the vault's tables.
//! Peer public records remain inspectable, while invitation redemption and
//! peer admission are atomic.

pub mod error;
pub mod laws;
pub mod material;
pub mod recovery;
pub mod rows;
pub mod vault;

pub use error::TrustError;
pub use material::{DeviceMaterial, WrappingKey};
pub use recovery::{RecoveryBundle, RecoverySecret};
pub use rows::{PeerRecord, SpaceAccess, SpaceCredentials};
pub use vault::{TrustRows, TrustStore};
