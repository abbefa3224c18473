//! The device handshake inside an encrypted connection.
//!
//! Each function here takes what arrived and gives what is sent next. Both
//! sides sign one transcript of both keys, both nonces, the protocol version
//! and the pinned certificate.

use super::certificate::CertificatePin;
use super::error::NetError;
use crate::bytes::{framed, law_framing_is_injective, push_part};
use crate::crypto;
use crate::crypto::degenerate;
use crate::identity::device::{
    scoped_signature, scoped_valid, DeviceIdentity, DevicePublicKey,
};
use crate::text::copy_bytes;
use vstd::prelude::*;
use vstd::string::*;
use vstd::utf8::encode_utf8;

verus! {

/// The largest handshake message in bytes.
pub const AUTH_MESSAGE_LIMIT: usize = 8 * 1024;

/// The domain of handshake signatures.
pub open spec fn auth_domain() -> Seq<u8> {
    encode_utf8("cyrene/quic/device-auth/1"@)
}

/// The connecting side's first message.
#[derive(Clone, Copy, Debug, PartialEq, Eq)]
pub struct ClientHello {
    /// Protocol version.
    pub version: u8,
    /// Claimed device key.
    pub public_key: DevicePublicKey,
    /// Fresh random bytes.
    pub nonce: [u8; 32],
}

/// What a [`ClientHello`] says.
#[verifier::ext_equal]
pub struct ClientHelloView {
    /// Protocol version.
    pub version: u8,
    /// Claimed device key.
    pub public_key: Seq<u8>,
    /// Fresh random bytes.
    pub nonce: Seq<u8>,
}

impl View for ClientHello {
    type V = ClientHelloView;

    open spec fn view(&self) -> ClientHelloView {
        ClientHelloView {
            version: self.version,
            public_key: self.public_key@,
            nonce: self.nonce@,
        }
    }
}

/// The accepting side's answer.
#[derive(Debug, PartialEq, Eq)]
pub struct ServerHello {
    /// Claimed device key.
    pub public_key: DevicePublicKey,
    /// Fresh random bytes.
    pub nonce: [u8; 32],
    /// Signature over the transcript.
    pub signature: Vec<u8>,
}

/// What a [`ServerHello`] says.
#[verifier::ext_equal]
pub struct ServerHelloView {
    /// Claimed device key.
    pub public_key: Seq<u8>,
    /// Fresh random bytes.
    pub nonce: Seq<u8>,
    /// Signature over the transcript.
    pub signature: Seq<u8>,
}

impl View for ServerHello {
    type V = ServerHelloView;

    open spec fn view(&self) -> ServerHelloView {
        ServerHelloView {
            public_key: self.public_key@,
            nonce: self.nonce@,
            signature: self.signature@,
        }
    }
}

/// The connecting side's proof.
#[derive(Debug, PartialEq, Eq)]
pub struct ClientProof {
    /// Signature over the transcript.
    pub signature: Vec<u8>,
}

/// The parts of a transcript.
pub open spec fn auth_parts(
    client: ClientHelloView,
    server_key: Seq<u8>,
    server_nonce: Seq<u8>,
    pin: Seq<u8>,
) -> Seq<Seq<u8>> {
    seq![
        auth_domain(),
        seq![client.version],
        client.public_key,
        client.nonce,
        server_key,
        server_nonce,
        pin,
    ]
}

/// What both sides sign.
pub open spec fn transcript(
    client: ClientHelloView,
    server_key: Seq<u8>,
    server_nonce: Seq<u8>,
    pin: Seq<u8>,
) -> Seq<u8> {
    framed(auth_parts(client, server_key, server_nonce, pin))
}

/// Writes what both sides sign.
pub fn auth_transcript(
    client: &ClientHello,
    server_key: DevicePublicKey,
    server_nonce: [u8; 32],
    certificate_pin: CertificatePin,
) -> (bytes: Vec<u8>)
    ensures
        bytes@ == transcript(client@, server_key@, server_nonce@, certificate_pin@),
{
    let mut bytes: Vec<u8> = Vec::new();
    let version: [u8; 1] = [client.version];
    push_part(&mut bytes, "cyrene/quic/device-auth/1".as_bytes());
    push_part(&mut bytes, version.as_slice());
    push_part(&mut bytes, client.public_key.0.as_slice());
    push_part(&mut bytes, client.nonce.as_slice());
    push_part(&mut bytes, server_key.0.as_slice());
    push_part(&mut bytes, server_nonce.as_slice());
    push_part(&mut bytes, certificate_pin.0.as_slice());
    proof {
        let parts = auth_parts(client@, server_key@, server_nonce@, certificate_pin@);
        reveal_with_fuel(framed, 8);
        assert(version@ =~= seq![client.version]);
        assert(parts.drop_last().drop_last().drop_last().drop_last().drop_last().drop_last().drop_last()
            =~= Seq::<Seq<u8>>::empty());
        assert(bytes@ =~= framed(parts));
    }
    bytes
}

/// Draws a fresh nonce.
pub fn random_nonce() -> (nonce: Result<[u8; 32], NetError>)
    ensures
        nonce matches Err(error) ==> error is Randomness,
{
    drawn_nonce(crypto::random::<32>())
}

/// Takes 32 random bytes as a nonce, or says that none could be drawn.
pub fn drawn_nonce(drawn: Option<[u8; 32]>) -> (nonce: Result<[u8; 32], NetError>)
    ensures
        match drawn {
            Some(bytes) => nonce == Ok::<[u8; 32], NetError>(bytes),
            None => nonce matches Err(error) && error is Randomness,
        },
{
    match drawn {
        Some(nonce) => Ok(nonce),
        None => Err(NetError::Randomness),
    }
}

/// Opens a handshake.
pub fn client_hello(identity: &DeviceIdentity, nonce: [u8; 32]) -> (hello: ClientHello)
    ensures
        hello@ == (ClientHelloView {
            version: 1,
            public_key: identity.public(),
            nonce: nonce@,
        }),
{
    ClientHello { version: 1, public_key: identity.public_key(), nonce }
}

/// Whether an opening message comes from the expected peer.
pub open spec fn hello_accepted(hello: ClientHelloView, expected_peer: Seq<u8>) -> bool {
    hello.version == 1 && hello.public_key == expected_peer
}

/// Answers an opening message with the accepting side's proof.
pub fn server_hello(
    hello: &ClientHello,
    identity: &DeviceIdentity,
    expected_peer: DevicePublicKey,
    certificate_pin: CertificatePin,
    nonce: [u8; 32],
) -> (server: Result<ServerHello, NetError>)
    ensures
        match server {
            Ok(server) => {
                let signed = transcript(hello@, identity.public(), nonce@, certificate_pin@);
                &&& hello_accepted(hello@, expected_peer@)
                &&& server@ == (ServerHelloView {
                    public_key: identity.public(),
                    nonce: nonce@,
                    signature: scoped_signature(identity@, auth_domain(), signed),
                })
                &&& !degenerate(server@.signature) ==> scoped_valid(
                    identity.public(),
                    auth_domain(),
                    signed,
                    server@.signature,
                )
            },
            Err(error) => !hello_accepted(hello@, expected_peer@) && error is Authentication,
        },
{
    if hello.version != 1 || !hello.public_key.same(&expected_peer) {
        return Err(NetError::Authentication);
    }
    let public_key = identity.public_key();
    let signed = auth_transcript(hello, public_key, nonce, certificate_pin);
    let signature = identity.sign("cyrene/quic/device-auth/1".as_bytes(), signed.as_slice());
    Ok(ServerHello { public_key, nonce, signature: copy_bytes(signature.as_slice()) })
}

/// Whether an answer proves the expected peer.
pub open spec fn server_accepted(
    hello: ClientHelloView,
    server: ServerHelloView,
    expected_peer: Seq<u8>,
    pin: Seq<u8>,
) -> bool {
    &&& server.public_key == expected_peer
    &&& scoped_valid(
        server.public_key,
        auth_domain(),
        transcript(hello, server.public_key, server.nonce, pin),
        server.signature,
    )
}

/// Checks the accepting side's proof and answers with the connecting side's.
pub fn client_proof(
    hello: &ClientHello,
    server: &ServerHello,
    identity: &DeviceIdentity,
    expected_peer: DevicePublicKey,
    certificate_pin: CertificatePin,
) -> (proof_message: Result<ClientProof, NetError>)
    ensures
        match proof_message {
            Ok(message) => {
                let signed = transcript(
                    hello@,
                    server@.public_key,
                    server@.nonce,
                    certificate_pin@,
                );
                &&& server_accepted(hello@, server@, expected_peer@, certificate_pin@)
                &&& message.signature@ == scoped_signature(identity@, auth_domain(), signed)
                &&& !degenerate(message.signature@) ==> scoped_valid(
                    identity.public(),
                    auth_domain(),
                    signed,
                    message.signature@,
                )
            },
            Err(error) => {
                &&& !server_accepted(hello@, server@, expected_peer@, certificate_pin@)
                &&& error is Authentication
            },
        },
{
    if !server.public_key.same(&expected_peer) {
        return Err(NetError::Authentication);
    }
    let signed = auth_transcript(hello, server.public_key, server.nonce, certificate_pin);
    if !server.public_key.verify(
        "cyrene/quic/device-auth/1".as_bytes(),
        signed.as_slice(),
        server.signature.as_slice(),
    ) {
        return Err(NetError::Authentication);
    }
    let signature = identity.sign("cyrene/quic/device-auth/1".as_bytes(), signed.as_slice());
    Ok(ClientProof { signature: copy_bytes(signature.as_slice()) })
}

/// Whether a proof comes from the key that opened the handshake.
pub open spec fn proof_accepted(
    hello: ClientHelloView,
    server: ServerHelloView,
    signature: Seq<u8>,
    pin: Seq<u8>,
) -> bool {
    scoped_valid(
        hello.public_key,
        auth_domain(),
        transcript(hello, server.public_key, server.nonce, pin),
        signature,
    )
}

/// Checks the connecting side's proof.
pub fn accept_proof(
    hello: &ClientHello,
    server: &ServerHello,
    proof_message: &ClientProof,
    certificate_pin: CertificatePin,
) -> (result: Result<(), NetError>)
    ensures
        match result {
            Ok(_) => proof_accepted(
                hello@,
                server@,
                proof_message.signature@,
                certificate_pin@,
            ),
            Err(error) => {
                &&& !proof_accepted(hello@, server@, proof_message.signature@, certificate_pin@)
                &&& error is Authentication
            },
        },
{
    let signed = auth_transcript(hello, server.public_key, server.nonce, certificate_pin);
    if !hello.public_key.verify(
        "cyrene/quic/device-auth/1".as_bytes(),
        signed.as_slice(),
        proof_message.signature.as_slice(),
    ) {
        return Err(NetError::Authentication);
    }
    Ok(())
}

/// Accepts an encoded message within a bound.
pub fn bounded_message(encoded: &[u8], limit: usize) -> (result: Result<(), NetError>)
    ensures
        match result {
            Ok(_) => encoded@.len() <= limit,
            Err(error) => encoded@.len() > limit && error is InvalidMessage,
        },
{
    if encoded.len() > limit {
        return Err(NetError::InvalidMessage);
    }
    Ok(())
}

/// A transcript determines the version, both keys, both nonces and the pin
/// that were signed.
pub proof fn law_transcript_binds_the_connection(
    client: ClientHelloView,
    server_key: Seq<u8>,
    server_nonce: Seq<u8>,
    pin: Seq<u8>,
    other_client: ClientHelloView,
    other_key: Seq<u8>,
    other_nonce: Seq<u8>,
    other_pin: Seq<u8>,
)
    requires
        client.public_key.len() <= u64::MAX,
        client.nonce.len() <= u64::MAX,
        server_key.len() <= u64::MAX,
        server_nonce.len() <= u64::MAX,
        pin.len() <= u64::MAX,
        other_client.public_key.len() <= u64::MAX,
        other_client.nonce.len() <= u64::MAX,
        other_key.len() <= u64::MAX,
        other_nonce.len() <= u64::MAX,
        other_pin.len() <= u64::MAX,
        transcript(client, server_key, server_nonce, pin) == transcript(
            other_client,
            other_key,
            other_nonce,
            other_pin,
        ),
    ensures
        client == other_client,
        server_key == other_key,
        server_nonce == other_nonce,
        pin == other_pin,
{
    let first = auth_parts(client, server_key, server_nonce, pin);
    let second = auth_parts(other_client, other_key, other_nonce, other_pin);
    reveal_strlit("cyrene/quic/device-auth/1");
    vstd::utf8::is_ascii_chars_encode_utf8("cyrene/quic/device-auth/1"@);
    law_framing_is_injective(first, second);
    assert(first[1] == second[1]);
    assert(first[1][0] == second[1][0]);
    assert(first[2] == second[2]);
    assert(first[3] == second[3]);
    assert(first[4] == second[4]);
    assert(first[5] == second[5]);
    assert(first[6] == second[6]);
}

/// Two devices that expect each other and pin the same certificate
/// authenticate each other: the answer is accepted and so is the proof, unless
/// a signature is the degenerate one that strict verification refuses.
pub proof fn law_expected_peers_authenticate(
    hello: ClientHelloView,
    server: ServerHelloView,
    signature: Seq<u8>,
    client_key: Seq<u8>,
    server_key: Seq<u8>,
    pin: Seq<u8>,
)
    requires
        hello.version == 1,
        hello.public_key == client_key,
        server.public_key == server_key,
        scoped_valid(
            server_key,
            auth_domain(),
            transcript(hello, server_key, server.nonce, pin),
            server.signature,
        ),
        scoped_valid(
            client_key,
            auth_domain(),
            transcript(hello, server_key, server.nonce, pin),
            signature,
        ),
    ensures
        hello_accepted(hello, client_key),
        server_accepted(hello, server, server_key, pin),
        proof_accepted(hello, server, signature, pin),
{
}

/// Each side is accepted exactly where it is the expected device and its
/// signature of the connection's transcript verifies.
pub proof fn law_peers_are_accepted_exactly(
    hello: ClientHelloView,
    server: ServerHelloView,
    signature: Seq<u8>,
    expected: Seq<u8>,
    pin: Seq<u8>,
)
    ensures
        hello_accepted(hello, expected) <==> hello.version == 1 && hello.public_key == expected,
        server_accepted(hello, server, expected, pin) <==> server.public_key == expected
            && scoped_valid(
            expected,
            auth_domain(),
            transcript(hello, expected, server.nonce, pin),
            server.signature,
        ),
        proof_accepted(hello, server, signature, pin) <==> scoped_valid(
            hello.public_key,
            auth_domain(),
            transcript(hello, server.public_key, server.nonce, pin),
            signature,
        ),
{
}

} // verus!
