//! Failures of the trust vault.

use crate::identity::device::PairingError;
use crate::identity::user::UserIdentityError;
use vstd::prelude::*;
use vstd::string::*;

verus! {

/// A trust-vault failure.
#[derive(Debug, PartialEq, Eq)]
pub enum TrustError {
    /// The database could not complete a durable operation.
    Storage(String),
    /// Ciphertext authentication failed or encoded credentials were malformed.
    ProtectedMaterial,
    /// Secure operating-system randomness was unavailable.
    Randomness,
    /// The host credential store could not be opened or used.
    KeyStore(String),
    /// No wrapping key exists in the selected credential-store slot.
    MissingWrappingKey(String),
    /// A wrapping key already exists in the selected credential-store slot.
    WrappingKeyExists(String),
    /// The credential-store entry did not contain a Cyrene wrapping key.
    MalformedWrappingKey {
        /// User-selected credential-store slot.
        name: String,
        /// Number of bytes returned by the credential store.
        length: usize,
    },
    /// A persisted capability does not match its space authority record.
    InconsistentCapability,
    /// Authority epochs are forward-only and cannot be rolled back.
    AuthorityRollback {
        /// Current durable epoch.
        current: u64,
        /// Proposed stale epoch.
        proposed: u64,
    },
    /// A key is already retained for this space epoch.
    SpaceKeyExists,
    /// This vault has no local device identity to bind space authority to.
    DeviceNotInitialized,
    /// The space already has local authority state.
    SpaceAlreadyInitialized,
    /// The accepted grant does not belong to this local device or inviting peer.
    SharePrincipalMismatch,
    /// The vault already has a local user identity.
    UserAlreadyInitialized,
    /// A linked-user membership chain was invalid.
    UserIdentity(UserIdentityError),
    /// Filesystem I/O failed while publishing a recovery snapshot.
    RecoveryIo(String),
    /// The encrypted recovery artifact was malformed or unsupported.
    InvalidRecoveryBundle,
    /// The recovery secret or encrypted artifact did not authenticate.
    RecoveryAuthentication,
    /// Restore never overwrites an existing destination.
    RecoveryDestinationExists,
    /// A capability failed cryptographic or policy validation.
    Authority(String),
    /// The vault already contains device credentials.
    AlreadyInitialized,
    /// The invitation is unknown, expired, or already redeemed.
    InvitationUnavailable,
    /// A persisted public identity was malformed.
    Identity(PairingError),
    /// This build cannot read the vault's schema version.
    UnsupportedVersion {
        /// Version stored on disk.
        found: u32,
        /// Version supported by this build.
        expected: u32,
    },
}

/// What a [`TrustError`] says.
#[verifier::ext_equal]
pub enum TrustFailure {
    /// The database could not complete a durable operation.
    Storage(Seq<char>),
    /// Ciphertext authentication failed or encoded credentials were malformed.
    ProtectedMaterial,
    /// Secure operating-system randomness was unavailable.
    Randomness,
    /// The host credential store failed.
    KeyStore(Seq<char>),
    /// No wrapping key exists in a slot.
    MissingWrappingKey(Seq<char>),
    /// A wrapping key already exists in a slot.
    WrappingKeyExists(Seq<char>),
    /// A slot does not hold a wrapping key.
    MalformedWrappingKey {
        /// User-selected slot.
        name: Seq<char>,
        /// Number of bytes found.
        length: nat,
    },
    /// A capability does not match its authority record.
    InconsistentCapability,
    /// Authority epochs cannot be rolled back.
    AuthorityRollback {
        /// Current durable epoch.
        current: u64,
        /// Proposed stale epoch.
        proposed: u64,
    },
    /// A key is already retained for a space epoch.
    SpaceKeyExists,
    /// The vault has no local device identity.
    DeviceNotInitialized,
    /// The space already has local authority state.
    SpaceAlreadyInitialized,
    /// A grant does not belong to the local device or inviting peer.
    SharePrincipalMismatch,
    /// The vault already has a local user identity.
    UserAlreadyInitialized,
    /// A membership chain was invalid.
    UserIdentity(UserIdentityError),
    /// Filesystem I/O failed.
    RecoveryIo(Seq<char>),
    /// A recovery artifact was malformed or unsupported.
    InvalidRecoveryBundle,
    /// A recovery artifact did not authenticate.
    RecoveryAuthentication,
    /// The recovery destination exists.
    RecoveryDestinationExists,
    /// A capability failed validation.
    Authority(Seq<char>),
    /// The vault already contains device credentials.
    AlreadyInitialized,
    /// The invitation is unknown, expired, or already redeemed.
    InvitationUnavailable,
    /// A persisted public identity was malformed.
    Identity(PairingError),
    /// The vault's schema version is unsupported.
    UnsupportedVersion {
        /// Version stored on disk.
        found: u32,
        /// Version supported by this build.
        expected: u32,
    },
}

impl View for TrustError {
    type V = TrustFailure;

    open spec fn view(&self) -> TrustFailure {
        match self {
            TrustError::Storage(reason) => TrustFailure::Storage(reason@),
            TrustError::ProtectedMaterial => TrustFailure::ProtectedMaterial,
            TrustError::Randomness => TrustFailure::Randomness,
            TrustError::KeyStore(reason) => TrustFailure::KeyStore(reason@),
            TrustError::MissingWrappingKey(name) => TrustFailure::MissingWrappingKey(name@),
            TrustError::WrappingKeyExists(name) => TrustFailure::WrappingKeyExists(name@),
            TrustError::MalformedWrappingKey { name, length } => {
                TrustFailure::MalformedWrappingKey { name: name@, length: *length as nat }
            },
            TrustError::InconsistentCapability => TrustFailure::InconsistentCapability,
            TrustError::AuthorityRollback { current, proposed } => {
                TrustFailure::AuthorityRollback { current: *current, proposed: *proposed }
            },
            TrustError::SpaceKeyExists => TrustFailure::SpaceKeyExists,
            TrustError::DeviceNotInitialized => TrustFailure::DeviceNotInitialized,
            TrustError::SpaceAlreadyInitialized => TrustFailure::SpaceAlreadyInitialized,
            TrustError::SharePrincipalMismatch => TrustFailure::SharePrincipalMismatch,
            TrustError::UserAlreadyInitialized => TrustFailure::UserAlreadyInitialized,
            TrustError::UserIdentity(error) => TrustFailure::UserIdentity(*error),
            TrustError::RecoveryIo(reason) => TrustFailure::RecoveryIo(reason@),
            TrustError::InvalidRecoveryBundle => TrustFailure::InvalidRecoveryBundle,
            TrustError::RecoveryAuthentication => TrustFailure::RecoveryAuthentication,
            TrustError::RecoveryDestinationExists => TrustFailure::RecoveryDestinationExists,
            TrustError::Authority(reason) => TrustFailure::Authority(reason@),
            TrustError::AlreadyInitialized => TrustFailure::AlreadyInitialized,
            TrustError::InvitationUnavailable => TrustFailure::InvitationUnavailable,
            TrustError::Identity(error) => TrustFailure::Identity(*error),
            TrustError::UnsupportedVersion { found, expected } => {
                TrustFailure::UnsupportedVersion { found: *found, expected: *expected }
            },
        }
    }
}

/// What a result without a value says.
pub open spec fn trust_refused<T>(result: Result<T, TrustError>) -> Option<TrustFailure> {
    match result {
        Ok(_) => None,
        Err(error) => Some(error@),
    }
}

} // verus!
