//! Durable device identities and short-code authenticated pairing.
//!
//! Pairing is deliberately transport-neutral. A caller carries an [`Offer`],
//! an [`Answer`] and an [`Acknowledgement`] over a local socket, QR code, or
//! another untrusted channel. The short code is processed by a
//! password-authenticated exchange and never used as an encryption key.

pub mod device;
pub mod pairing;
pub mod user;

pub use device::{DeviceId, DeviceIdentity, DevicePublicKey, PairingError};
pub use pairing::{Acknowledgement, Answer, Inviter, Joiner, Offer, PairedPeer, PairingCode};
pub use user::{UserAction, UserEvent, UserId, UserIdentity, UserIdentityError};
