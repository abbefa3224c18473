//! Failures of the authenticated transport.

use crate::text::owned;
use vstd::prelude::*;
use vstd::string::*;

verus! {

/// An authenticated transport failure.
#[derive(Debug, PartialEq, Eq)]
pub enum NetError {
    /// Socket or endpoint creation failed.
    Endpoint(String),
    /// Certificate generation or configuration failed.
    Certificate(String),
    /// The remote address or client configuration was rejected.
    Connect(String),
    /// The QUIC connection closed before authentication completed.
    Connection(String),
    /// Writing a stream failed.
    Write(String),
    /// A peer closed a stream before it was finished.
    ClosedStream,
    /// A message exceeded its declared bound or the stream failed.
    Read(String),
    /// A wire message was malformed.
    InvalidMessage,
    /// The remote endpoint did not prove the expected device identity.
    Authentication,
    /// Secure operating-system randomness was unavailable.
    Randomness,
    /// Local service discovery failed.
    Discovery(String),
}

impl NetError {
    /// The human-readable reason.
    pub open spec fn text(self) -> Seq<char> {
        match self {
            NetError::Endpoint(reason) => "could not create the QUIC endpoint: "@ + reason@,
            NetError::Certificate(reason) => "could not configure the QUIC certificate: "@
                + reason@,
            NetError::Connect(reason) => "could not begin the QUIC connection: "@ + reason@,
            NetError::Connection(reason) => "the QUIC connection failed: "@ + reason@,
            NetError::Write(reason) => "could not write a QUIC stream: "@ + reason@,
            NetError::ClosedStream => "the peer closed a QUIC stream before it was finished"@,
            NetError::Read(reason) => "could not read a bounded QUIC message: "@ + reason@,
            NetError::InvalidMessage => "the peer sent an invalid authentication message"@,
            NetError::Authentication => "the peer could not authenticate as the paired device"@,
            NetError::Randomness => "secure random generation failed"@,
            NetError::Discovery(reason) => "local peer discovery failed: "@ + reason@,
        }
    }

    /// Returns the human-readable reason.
    pub fn message(&self) -> (message: String)
        ensures
            message@ == self.text(),
    {
        match self {
            NetError::Endpoint(reason) => joined("could not create the QUIC endpoint: ", reason),
            NetError::Certificate(reason) => joined(
                "could not configure the QUIC certificate: ",
                reason,
            ),
            NetError::Connect(reason) => joined("could not begin the QUIC connection: ", reason),
            NetError::Connection(reason) => joined("the QUIC connection failed: ", reason),
            NetError::Write(reason) => joined("could not write a QUIC stream: ", reason),
            NetError::ClosedStream => owned(
                "the peer closed a QUIC stream before it was finished",
            ),
            NetError::Read(reason) => joined("could not read a bounded QUIC message: ", reason),
            NetError::InvalidMessage => owned("the peer sent an invalid authentication message"),
            NetError::Authentication => owned(
                "the peer could not authenticate as the paired device",
            ),
            NetError::Randomness => owned("secure random generation failed"),
            NetError::Discovery(reason) => joined("local peer discovery failed: ", reason),
        }
    }
}

/// Joins a heading and a reason.
pub(crate) fn joined(heading: &str, reason: &String) -> (text: String)
    ensures
        text@ == heading@ + reason@,
{
    let mut text = owned(heading);
    text.append(reason.as_str());
    text
}

} // verus!
