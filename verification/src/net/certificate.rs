//! Exactly pinned transport certificates.

use super::error::NetError;
use crate::bytes::{hex, hex_text};
use crate::crypto;
use crate::crypto::blake3_hash;
use crate::json::{byte_list, push_byte_list};
use crate::text::{copy_bytes, same_bytes};
use vstd::prelude::*;
use vstd::string::*;
use vstd::utf8::{encode_utf8, is_ascii_chars_encode_utf8};

verus! {

/// The fixed TLS name of every endpoint.
pub const SERVER_NAME: &'static str = "cyrene.local";

/// The exact hash of a peer's TLS certificate.
#[derive(Clone, Copy, Debug, PartialEq, Eq, Hash)]
pub struct CertificatePin(pub [u8; 32]);

impl View for CertificatePin {
    type V = Seq<u8>;

    open spec fn view(&self) -> Seq<u8> {
        self.0@
    }
}

impl CertificatePin {
    /// Restores an exact pin from its hash bytes.
    pub fn from_bytes(bytes: [u8; 32]) -> (pin: Self)
        ensures
            pin@ == bytes@,
    {
        CertificatePin(bytes)
    }

    /// Derives an exact pin from a DER-encoded certificate.
    pub fn from_certificate_der(certificate_der: &[u8]) -> (pin: Self)
        ensures
            pin@ == blake3_hash(certificate_der@),
    {
        CertificatePin(crypto::hash(certificate_der))
    }

    /// Returns the pin bytes.
    pub fn as_bytes(&self) -> (bytes: &[u8; 32])
        ensures
            bytes@ == self@,
    {
        &self.0
    }

    /// Whether two pins are equal.
    pub fn same(&self, other: &Self) -> (same: bool)
        ensures
            same == (self@ == other@),
    {
        same_bytes(self.0.as_slice(), other.0.as_slice())
    }

    /// Renders the first eight bytes in hexadecimal.
    pub fn to_string(&self) -> (text: String)
        ensures
            text@ == hex_text(self@.take(8)),
    {
        let bytes = self.0.as_slice();
        hex(vstd::slice::slice_subrange(bytes, 0, 8))
    }
}

/// Whether a DER certificate holds the entry of a DNS name shorter than 128
/// bytes: the tag of a DNS name, the name's length and its bytes.
pub open spec fn names(certificate: Seq<u8>, name: Seq<char>) -> bool {
    let entry = seq![0x82u8, encode_utf8(name).len() as u8] + encode_utf8(name);
    exists|at: int|
        0 <= at <= certificate.len() - entry.len() && #[trigger] certificate.subrange(
            at,
            at + entry.len(),
        ) == entry
}

/// `rcgen::generate_simple_self_signed` draws a fresh key pair and signs a
/// certificate for one name with it, or says why it could not. A name with a
/// letter from `g` to `z` is no IP address, so the certificate holds it as a
/// DNS name. Nothing more is claimed of the certificate and the key, which are
/// random.
#[verifier::external_body]
fn self_signed(name: &str) -> (generated: Result<(Vec<u8>, Vec<u8>), String>)
    requires
        encode_utf8(name@).len() < 128,
        exists|i: int| 0 <= i < name@.len() && 'g' <= #[trigger] name@[i] <= 'z',
    ensures
        generated matches Ok(made) ==> names(made.0@, name@),
{
    match rcgen::generate_simple_self_signed(vec![name.to_owned()]) {
        Ok(generated) => {
            Ok((generated.cert.der().to_vec(), generated.signing_key.serialize_der()))
        },
        Err(error) => Err(error.to_string()),
    }
}

/// A self-signed QUIC certificate and its private key.
///
/// Generate this once per device and store its encoded values beside the
/// protected device identity. Replacing it invalidates existing peer pins.
pub struct QuicCertificate {
    certificate_der: Vec<u8>,
    private_key_der: Vec<u8>,
}

impl QuicCertificate {
    /// The DER certificate encoding.
    pub closed spec fn certificate(self) -> Seq<u8> {
        self.certificate_der@
    }

    /// The secret PKCS#8 key encoding.
    pub closed spec fn private_key(self) -> Seq<u8> {
        self.private_key_der@
    }

    /// Generates a fresh self-signed certificate for the fixed TLS name.
    ///
    /// The certificate holds that name; its key is drawn at random.
    pub fn generate() -> (certificate: Result<Self, NetError>)
        ensures
            match certificate {
                Ok(certificate) => names(certificate.certificate(), SERVER_NAME@),
                Err(error) => error is Certificate,
            },
    {
        proof {
            reveal_strlit("cyrene.local");
            is_ascii_chars_encode_utf8(SERVER_NAME@);
            assert(SERVER_NAME@[1] == 'y');
        }
        QuicCertificate::from_generated(self_signed(SERVER_NAME))
    }

    /// Takes a generated certificate and its PKCS#8 key, or says why there is
    /// none.
    pub fn from_generated(generated: Result<(Vec<u8>, Vec<u8>), String>) -> (certificate: Result<
        Self,
        NetError,
    >)
        ensures
            match generated {
                Ok(made) => {
                    &&& certificate matches Ok(certificate)
                    &&& certificate.certificate() == made.0@
                    &&& certificate.private_key() == made.1@
                },
                Err(reason) => {
                    &&& certificate matches Err(NetError::Certificate(text))
                    &&& text@ == reason@
                },
            },
    {
        match generated {
            Ok(made) => Ok(QuicCertificate::from_der(made.0, made.1)),
            Err(reason) => Err(NetError::Certificate(reason)),
        }
    }

    /// Restores a certificate from DER-encoded certificate and PKCS#8 key.
    pub fn from_der(certificate_der: Vec<u8>, private_key_der: Vec<u8>) -> (certificate: Self)
        ensures
            certificate.certificate() == certificate_der@,
            certificate.private_key() == private_key_der@,
    {
        QuicCertificate { certificate_der, private_key_der }
    }

    /// Returns the certificate's exact cryptographic pin.
    pub fn pin(&self) -> (pin: CertificatePin)
        ensures
            pin@ == blake3_hash(self.certificate()),
    {
        CertificatePin::from_certificate_der(self.certificate_der.as_slice())
    }

    /// Returns the public certificate shared with paired peers.
    pub fn public_certificate(&self) -> (certificate: PeerCertificate)
        ensures
            certificate@ == self.certificate(),
    {
        PeerCertificate::from_der(copy_bytes(self.certificate_der.as_slice()))
    }

    /// Returns the public DER certificate encoding.
    pub fn certificate_der(&self) -> (certificate: &[u8])
        ensures
            certificate@ == self.certificate(),
    {
        self.certificate_der.as_slice()
    }

    /// Returns the secret PKCS#8 key encoding for protected persistence.
    pub fn private_key_der(&self) -> (key: &[u8])
        ensures
            key@ == self.private_key(),
    {
        self.private_key_der.as_slice()
    }

    /// Describes the certificate by its pin, without the private key.
    pub fn debug_text(&self) -> (text: String)
        ensures
            text@ == "QuicCertificate { pin: CertificatePin(["@ + byte_list(
                ", "@,
                blake3_hash(self.certificate()),
            ) + "]), .. }"@,
    {
        let pin = self.pin();
        let mut text = "QuicCertificate { pin: CertificatePin([".to_owned();
        push_byte_list(&mut text, ", ", pin.as_bytes().as_slice());
        text.append("]), .. }");
        text
    }
}

/// A peer's public, exactly pinned TLS certificate.
#[derive(Debug, PartialEq, Eq)]
pub struct PeerCertificate {
    certificate_der: Vec<u8>,
}

impl View for PeerCertificate {
    type V = Seq<u8>;

    /// The DER certificate encoding.
    closed spec fn view(&self) -> Seq<u8> {
        self.certificate_der@
    }
}

impl Clone for PeerCertificate {
    fn clone(&self) -> (copy: Self)
        ensures
            copy@ == self@,
    {
        PeerCertificate { certificate_der: copy_bytes(self.certificate_der.as_slice()) }
    }
}

impl PeerCertificate {
    /// Creates a pin from the DER bytes authenticated during pairing.
    pub fn from_der(certificate_der: Vec<u8>) -> (certificate: Self)
        ensures
            certificate@ == certificate_der@,
    {
        PeerCertificate { certificate_der }
    }

    /// Returns the exact cryptographic certificate pin.
    pub fn pin(&self) -> (pin: CertificatePin)
        ensures
            pin@ == blake3_hash(self@),
    {
        CertificatePin::from_certificate_der(self.certificate_der.as_slice())
    }

    /// Returns the DER certificate encoding.
    pub fn certificate_der(&self) -> (certificate: &[u8])
        ensures
            certificate@ == self@,
    {
        self.certificate_der.as_slice()
    }
}

} // verus!
