//! Mutually authenticated transport and the opaque relay protocol.
//!
//! TLS protects each connection and the client pins the exact certificate
//! learned through pairing. A second, application-level handshake proves both
//! endpoints possess their advertised device keys and binds that proof to the
//! TLS certificate, fresh nonces, and protocol version.

pub mod certificate;
pub mod discovery;
pub mod error;
pub mod handshake;
pub mod relay;

pub use certificate::{CertificatePin, PeerCertificate, QuicCertificate, SERVER_NAME};
pub use discovery::{DiscoveredPeer, IpAddress, PeerAddress};
pub use error::NetError;
pub use relay::{
    RelayDelivery, RelayEnvelope, RelayMailbox, RelayOperation, RelayProtocolError,
    RelayRejection, RelayRequest, RelayResponse, UnsignedRequest, MAX_RELAY_BATCH,
    MAX_RELAY_BATCH_BYTES, MAX_RELAY_CLOCK_SKEW, MAX_RELAY_ENVELOPE_BYTES, MAX_RELAY_RETENTION,
};
