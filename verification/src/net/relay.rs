//! Opaque, signed store-and-forward relay protocol.
//!
//! Mailbox keys are pseudonymous and epoch-specific. The relay sees a routing
//! key, ciphertext sizes, expiry, and timing; it does not receive a space ID,
//! device identity, capability, content key, or plaintext.

use crate::bytes::{be, be_u32, extend, hex_text};
use crate::crypto;
use crate::crypto::{blake3_hash, blake3_keyed, degenerate};
use crate::identity::device::{
    device_id, scoped_signature, scoped_valid, DeviceIdentity, DevicePublicKey, PairingError,
};
use crate::json::{json_array, json_bytes, listed, push_bytes, push_number};
use crate::text::{copy_bytes, decimal_text};
use vstd::prelude::*;
use vstd::string::*;
use vstd::utf8::encode_utf8;

verus! {

/// The version of the relay protocol.
pub const VERSION: u8 = 1;

/// Largest single opaque relay object accepted by the protocol.
pub const MAX_RELAY_ENVELOPE_BYTES: usize = 1024 * 1024;

/// Largest number of objects in one push, pull, or acknowledgement.
pub const MAX_RELAY_BATCH: usize = 256;

/// Largest aggregate opaque payload in one request.
pub const MAX_RELAY_BATCH_BYTES: usize = 4 * 1024 * 1024;

/// Maximum accepted request clock skew in seconds.
pub const MAX_RELAY_CLOCK_SKEW: u64 = 300;

/// Longest object retention requested through the public protocol.
pub const MAX_RELAY_RETENTION: u64 = 30 * 24 * 60 * 60;

/// Largest request or response on the wire.
pub const MAX_RELAY_FRAME_BYTES: usize = 24 * 1024 * 1024;

/// The domain of mailbox keys.
pub open spec fn mailbox_domain() -> Seq<u8> {
    encode_utf8("cyrene/relay/mailbox/1"@)
}

/// The domain of request signatures.
pub open spec fn request_domain() -> Seq<u8> {
    encode_utf8("cyrene/relay/request/1"@)
}

/// A relay protocol validation failure.
#[derive(Debug, PartialEq, Eq)]
pub enum RelayProtocolError {
    /// A wire version or structural field was invalid.
    InvalidMessage,
    /// A request signature did not match its pseudonymous mailbox key.
    InvalidSignature,
    /// The request timestamp is outside the replay-defense window.
    StaleRequest,
    /// A payload or batch exceeded a public protocol bound.
    LimitExceeded,
    /// Secure operating-system randomness was unavailable.
    Randomness,
    /// A derived public key was invalid.
    InvalidKey,
    /// Connecting, reading, or writing the relay transport failed.
    Transport(String),
}

/// Why a request or an envelope is refused.
pub enum RelayRefusal {
    /// A wire version or structural field was invalid.
    InvalidMessage,
    /// A request signature did not match its mailbox key.
    InvalidSignature,
    /// The request timestamp is outside the replay-defense window.
    StaleRequest,
    /// A payload or batch exceeded a bound.
    LimitExceeded,
    /// Secure randomness was unavailable.
    Randomness,
    /// A derived public key was invalid.
    InvalidKey,
    /// The transport failed.
    Transport(Seq<char>),
}

impl View for RelayProtocolError {
    type V = RelayRefusal;

    open spec fn view(&self) -> RelayRefusal {
        match self {
            RelayProtocolError::InvalidMessage => RelayRefusal::InvalidMessage,
            RelayProtocolError::InvalidSignature => RelayRefusal::InvalidSignature,
            RelayProtocolError::StaleRequest => RelayRefusal::StaleRequest,
            RelayProtocolError::LimitExceeded => RelayRefusal::LimitExceeded,
            RelayProtocolError::Randomness => RelayRefusal::Randomness,
            RelayProtocolError::InvalidKey => RelayRefusal::InvalidKey,
            RelayProtocolError::Transport(text) => RelayRefusal::Transport(text@),
        }
    }
}

/// What a result without a value says.
pub open spec fn relay_refused<T>(result: Result<T, RelayProtocolError>) -> Option<RelayRefusal> {
    match result {
        Ok(_) => None,
        Err(error) => Some(error@),
    }
}

impl From<PairingError> for RelayProtocolError {
    fn from(error: PairingError) -> (converted: Self) {
        RelayProtocolError::InvalidKey
    }
}

impl vstd::std_specs::convert::FromSpecImpl<PairingError> for RelayProtocolError {
    open spec fn obeys_from_spec() -> bool {
        true
    }

    open spec fn from_spec(error: PairingError) -> RelayProtocolError {
        RelayProtocolError::InvalidKey
    }
}

/// Frames one request for the wire: its length in four big-endian bytes and
/// its bytes.
pub fn request_frame(bytes: &[u8]) -> (frame: Result<Vec<u8>, RelayProtocolError>)
    ensures
        match frame {
            Ok(frame) => 0 < bytes@.len() <= 25165824 && frame@ == be(bytes@.len(), 4) + bytes@,
            Err(error) => {
                &&& bytes@.len() == 0 || bytes@.len() > 25165824
                &&& error@ == RelayRefusal::LimitExceeded
            },
        },
{
    if bytes.len() == 0 || bytes.len() > MAX_RELAY_FRAME_BYTES {
        return Err(RelayProtocolError::LimitExceeded);
    }
    let mut frame = be_u32(bytes.len() as u32);
    extend(&mut frame, bytes);
    Ok(frame)
}

/// Accepts the length that a response declares.
pub fn response_length(declared: u32) -> (length: Result<usize, RelayProtocolError>)
    ensures
        match length {
            Ok(length) => 0 < declared <= 25165824 && length == declared,
            Err(error) => {
                &&& declared == 0 || declared > 25165824
                &&& error@ == RelayRefusal::LimitExceeded
            },
        },
{
    let length: usize = declared as usize;
    if length == 0 || length > MAX_RELAY_FRAME_BYTES {
        return Err(RelayProtocolError::LimitExceeded);
    }
    Ok(length)
}

/// One end-to-end encrypted object retained by an untrusted relay.
#[derive(Debug, PartialEq, Eq)]
pub struct RelayEnvelope {
    /// Deduplication identity.
    pub id: [u8; 32],
    /// Requested Unix expiry time.
    pub expires_at: u64,
    /// Opaque end-to-end ciphertext.
    pub ciphertext: Vec<u8>,
}

/// What a [`RelayEnvelope`] says.
#[verifier::ext_equal]
pub struct EnvelopeView {
    /// Deduplication identity.
    pub id: Seq<u8>,
    /// Requested Unix expiry time.
    pub expires_at: u64,
    /// Opaque end-to-end ciphertext.
    pub ciphertext: Seq<u8>,
}

impl View for RelayEnvelope {
    type V = EnvelopeView;

    open spec fn view(&self) -> EnvelopeView {
        EnvelopeView {
            id: self.id@,
            expires_at: self.expires_at,
            ciphertext: self.ciphertext@,
        }
    }
}

impl Clone for RelayEnvelope {
    fn clone(&self) -> (copy: Self)
        ensures
            copy@ == self@,
    {
        RelayEnvelope {
            id: self.id,
            expires_at: self.expires_at,
            ciphertext: copy_bytes(self.ciphertext.as_slice()),
        }
    }
}

/// What a sequence of envelopes says.
pub open spec fn envelope_views(envelopes: Seq<RelayEnvelope>) -> Seq<EnvelopeView> {
    envelopes.map_values(|envelope: RelayEnvelope| envelope@)
}

impl EnvelopeView {
    /// Whether the envelope is within the public bounds at a time.
    pub open spec fn bounded(self, now: u64) -> bool {
        &&& 0 < self.ciphertext.len() <= 1048576
        &&& now < self.expires_at
        &&& self.expires_at - now <= 2592000
    }
}

impl RelayEnvelope {
    /// Wraps opaque ciphertext with a content-derived id and bounded expiry.
    pub fn new(ciphertext: Vec<u8>, expires_at: u64, now: u64) -> (envelope: Result<
        Self,
        RelayProtocolError,
    >)
        ensures
            ({
                let wrapped = EnvelopeView {
                    id: blake3_hash(ciphertext@),
                    expires_at,
                    ciphertext: ciphertext@,
                };
                match envelope {
                    Ok(envelope) => wrapped.bounded(now) && envelope@ == wrapped,
                    Err(error) => !wrapped.bounded(now) && error@ == RelayRefusal::LimitExceeded,
                }
            }),
    {
        let id = crypto::hash(ciphertext.as_slice());
        RelayEnvelope::with_opaque_id(id, ciphertext, expires_at, now)
    }

    /// Wraps ciphertext with a caller-derived opaque id.
    ///
    /// This supports retry-stable deduplication when randomized encryption
    /// changes ciphertext bytes. The signed mailbox request authenticates the
    /// id; derive it with secret epoch material so it reveals no logical
    /// application identifier to the relay.
    pub fn with_opaque_id(id: [u8; 32], ciphertext: Vec<u8>, expires_at: u64, now: u64) -> (envelope:
        Result<Self, RelayProtocolError>)
        ensures
            ({
                let wrapped = EnvelopeView { id: id@, expires_at, ciphertext: ciphertext@ };
                match envelope {
                    Ok(envelope) => wrapped.bounded(now) && envelope@ == wrapped,
                    Err(error) => !wrapped.bounded(now) && error@ == RelayRefusal::LimitExceeded,
                }
            }),
    {
        let envelope = RelayEnvelope { id, expires_at, ciphertext };
        envelope.validate(now)?;
        Ok(envelope)
    }

    /// Returns the stable ciphertext-derived deduplication identity.
    pub fn id(&self) -> (id: [u8; 32])
        ensures
            id@ == self@.id,
    {
        self.id
    }

    /// Returns the requested Unix expiry time.
    pub fn expires_at(&self) -> (expires_at: u64)
        ensures
            expires_at == self@.expires_at,
    {
        self.expires_at
    }

    /// Returns opaque end-to-end ciphertext.
    pub fn ciphertext(&self) -> (ciphertext: &[u8])
        ensures
            ciphertext@ == self@.ciphertext,
    {
        self.ciphertext.as_slice()
    }

    /// Checks the public bounds at a time.
    pub(crate) fn validate(&self, now: u64) -> (result: Result<(), RelayProtocolError>)
        ensures
            relay_refused(result) == if self@.bounded(now) {
                None::<RelayRefusal>
            } else {
                Some(RelayRefusal::LimitExceeded)
            },
    {
        if self.ciphertext.len() == 0 || self.ciphertext.len() > MAX_RELAY_ENVELOPE_BYTES
            || self.expires_at <= now || self.expires_at - now > MAX_RELAY_RETENTION {
            return Err(RelayProtocolError::LimitExceeded);
        }
        Ok(())
    }
}

/// A bounded store-and-forward operation after signature verification.
#[derive(Debug, PartialEq, Eq)]
pub enum RelayOperation {
    /// Store deduplicated opaque objects until expiry or acknowledgement.
    Push {
        /// Opaque encrypted objects.
        envelopes: Vec<RelayEnvelope>,
    },
    /// Fetch objects after an opaque server sequence cursor.
    Pull {
        /// Last observed server cursor, or zero initially.
        after: u64,
        /// Maximum objects requested.
        limit: u16,
    },
    /// Delete processed objects by their ciphertext-derived IDs.
    Acknowledge {
        /// Object IDs to remove.
        ids: Vec<[u8; 32]>,
    },
}

/// What a [`RelayOperation`] says.
#[verifier::ext_equal]
pub enum OperationView {
    /// Store objects.
    Push {
        /// Opaque encrypted objects.
        envelopes: Seq<EnvelopeView>,
    },
    /// Fetch objects.
    Pull {
        /// Last observed server cursor.
        after: u64,
        /// Maximum objects requested.
        limit: u16,
    },
    /// Delete objects.
    Acknowledge {
        /// Object IDs to remove.
        ids: Seq<Seq<u8>>,
    },
}

/// What a sequence of object identities says.
pub open spec fn id_views(ids: Seq<[u8; 32]>) -> Seq<Seq<u8>> {
    ids.map_values(|id: [u8; 32]| id@)
}

impl View for RelayOperation {
    type V = OperationView;

    open spec fn view(&self) -> OperationView {
        match self {
            RelayOperation::Push { envelopes } => OperationView::Push {
                envelopes: envelope_views(envelopes@),
            },
            RelayOperation::Pull { after, limit } => OperationView::Pull {
                after: *after,
                limit: *limit,
            },
            RelayOperation::Acknowledge { ids } => OperationView::Acknowledge {
                ids: id_views(ids@),
            },
        }
    }
}

/// The number of ciphertext bytes of envelopes.
pub open spec fn total_bytes(envelopes: Seq<EnvelopeView>) -> nat
    decreases envelopes.len(),
{
    if envelopes.len() == 0 {
        0
    } else {
        total_bytes(envelopes.drop_last()) + envelopes.last().ciphertext.len()
    }
}

impl OperationView {
    /// Whether the operation is within the public bounds at a time.
    pub open spec fn bounded(self, now: u64) -> bool {
        match self {
            OperationView::Push { envelopes } => {
                &&& 0 < envelopes.len() <= 256
                &&& forall|i: int|
                    0 <= i < envelopes.len() ==> (#[trigger] envelopes[i]).bounded(now)
                &&& total_bytes(envelopes) <= 4194304
            },
            OperationView::Pull { limit, .. } => 0 < limit <= 256,
            OperationView::Acknowledge { ids } => 0 < ids.len() <= 256,
        }
    }
}

fn validate_envelopes(envelopes: &Vec<RelayEnvelope>, now: u64) -> (result: Result<
    (),
    RelayProtocolError,
>)
    ensures
        relay_refused(result) == if (OperationView::Push {
            envelopes: envelope_views(envelopes@),
        }).bounded(now) {
            None::<RelayRefusal>
        } else {
            Some(RelayRefusal::LimitExceeded)
        },
{
    let ghost views = envelope_views(envelopes@);
    if envelopes.len() == 0 || envelopes.len() > MAX_RELAY_BATCH {
        return Err(RelayProtocolError::LimitExceeded);
    }
    let mut index: usize = 0;
    while index < envelopes.len()
        invariant
            index <= envelopes@.len(),
            views == envelope_views(envelopes@),
            forall|i: int| 0 <= i < index ==> (#[trigger] views[i]).bounded(now),
        decreases envelopes@.len() - index,
    {
        assert(views[index as int] == envelopes@[index as int]@);
        match envelopes[index].validate(now) {
            Ok(_) => {},
            Err(error) => {
                assert(!views[index as int].bounded(now));
                return Err(error);
            },
        }
        index += 1;
    }
    validate_aggregate_size(envelopes)
}

fn validate_aggregate_size(envelopes: &Vec<RelayEnvelope>) -> (result: Result<
    (),
    RelayProtocolError,
>)
    ensures
        relay_refused(result) == if total_bytes(envelope_views(envelopes@)) <= 4194304 {
            None::<RelayRefusal>
        } else {
            Some(RelayRefusal::LimitExceeded)
        },
{
    let ghost views = envelope_views(envelopes@);
    let mut size: usize = 0;
    let mut index: usize = 0;
    assert(views.take(0) =~= Seq::<EnvelopeView>::empty());
    while index < envelopes.len()
        invariant
            index <= envelopes@.len(),
            views == envelope_views(envelopes@),
            size == total_bytes(views.take(index as int)),
            size <= 4194304,
        decreases envelopes@.len() - index,
    {
        let len: usize = envelopes[index].ciphertext.len();
        proof {
            assert(views.take(index + 1).drop_last() =~= views.take(index as int));
            assert(views.take(index + 1).last() == envelopes@[index as int]@);
            lemma_total_grows(views, index + 1);
        }
        if len > MAX_RELAY_BATCH_BYTES - size {
            return Err(RelayProtocolError::LimitExceeded);
        }
        size += len;
        index += 1;
    }
    assert(views.take(views.len() as int) =~= views);
    Ok(())
}

pub(crate) proof fn lemma_total_grows(envelopes: Seq<EnvelopeView>, len: int)
    requires
        0 <= len <= envelopes.len(),
    ensures
        total_bytes(envelopes.take(len)) <= total_bytes(envelopes),
    decreases envelopes.len() - len,
{
    if len < envelopes.len() {
        lemma_total_grows(envelopes, len + 1);
        assert(envelopes.take(len + 1).drop_last() =~= envelopes.take(len));
    } else {
        assert(envelopes.take(len) =~= envelopes);
    }
}

/// What a mailbox signs.
#[derive(Debug, PartialEq, Eq)]
pub struct UnsignedRequest {
    /// Protocol version.
    pub version: u8,
    /// Opaque mailbox routing key.
    pub route: DevicePublicKey,
    /// Unix time of the request.
    pub issued_at: u64,
    /// Random bytes that tell requests apart.
    pub nonce: [u8; 16],
    /// Requested operation.
    pub operation: RelayOperation,
}

/// What an [`UnsignedRequest`] says.
#[verifier::ext_equal]
pub struct UnsignedView {
    /// Protocol version.
    pub version: u8,
    /// Opaque mailbox routing key.
    pub route: Seq<u8>,
    /// Unix time of the request.
    pub issued_at: u64,
    /// Random bytes that tell requests apart.
    pub nonce: Seq<u8>,
    /// Requested operation.
    pub operation: OperationView,
}

impl View for UnsignedRequest {
    type V = UnsignedView;

    open spec fn view(&self) -> UnsignedView {
        UnsignedView {
            version: self.version,
            route: self.route@,
            issued_at: self.issued_at,
            nonce: self.nonce@,
            operation: self.operation@,
        }
    }
}

/// The JSON text of an envelope.
pub open spec fn envelope_json(envelope: EnvelopeView) -> Seq<char> {
    "{\"id\":"@ + json_bytes(envelope.id) + ",\"expires_at\":"@ + decimal_text(
        envelope.expires_at as nat,
    ) + ",\"ciphertext\":"@ + json_bytes(envelope.ciphertext) + "}"@
}

/// The JSON text of an operation.
pub open spec fn operation_json(operation: OperationView) -> Seq<char> {
    match operation {
        OperationView::Push { envelopes } => "{\"Push\":{\"envelopes\":"@ + json_array(
            envelopes.map_values(|envelope: EnvelopeView| envelope_json(envelope)),
        ) + "}}"@,
        OperationView::Pull { after, limit } => "{\"Pull\":{\"after\":"@ + decimal_text(
            after as nat,
        ) + ",\"limit\":"@ + decimal_text(limit as nat) + "}}"@,
        OperationView::Acknowledge { ids } => "{\"Acknowledge\":{\"ids\":"@ + json_array(
            ids.map_values(|id: Seq<u8>| json_bytes(id)),
        ) + "}}"@,
    }
}

/// The compact JSON text that a mailbox signs.
pub open spec fn request_json(request: UnsignedView) -> Seq<char> {
    "{\"version\":"@ + decimal_text(request.version as nat) + ",\"route\":"@ + json_bytes(
        request.route,
    ) + ",\"issued_at\":"@ + decimal_text(request.issued_at as nat) + ",\"nonce\":"@ + json_bytes(
        request.nonce,
    ) + ",\"operation\":"@ + operation_json(request.operation) + "}"@
}

fn push_envelope(text: &mut String, envelope: &RelayEnvelope)
    ensures
        final(text)@ == old(text)@ + envelope_json(envelope@),
{
    let ghost before = text@;
    text.append("{\"id\":");
    push_bytes(text, envelope.id.as_slice());
    text.append(",\"expires_at\":");
    push_number(text, envelope.expires_at);
    text.append(",\"ciphertext\":");
    push_bytes(text, envelope.ciphertext.as_slice());
    text.append("}");
    assert(text@ =~= before + envelope_json(envelope@));
}

fn push_operation(text: &mut String, operation: &RelayOperation)
    ensures
        final(text)@ == old(text)@ + operation_json(operation@),
{
    let ghost before = text@;
    match operation {
        RelayOperation::Push { envelopes } => {
            text.append("{\"Push\":{\"envelopes\":");
            text.append("[");
            let ghost start = text@;
            let ghost parts = envelope_views(envelopes@).map_values(
                |envelope: EnvelopeView| envelope_json(envelope),
            );
            let mut index: usize = 0;
            assert(parts.take(0) =~= Seq::<Seq<char>>::empty());
            assert(start + listed(parts.take(0)) =~= start);
            while index < envelopes.len()
                invariant
                    index <= envelopes@.len(),
                    parts == envelope_views(envelopes@).map_values(
                        |envelope: EnvelopeView| envelope_json(envelope),
                    ),
                    text@ == start + listed(parts.take(index as int)),
                decreases envelopes@.len() - index,
            {
                let ghost so_far = listed(parts.take(index as int));
                if index > 0 {
                    text.append(",");
                }
                push_envelope(text, &envelopes[index]);
                proof {
                    let longer = parts.take(index + 1);
                    assert(longer.drop_last() =~= parts.take(index as int));
                    assert(longer.last() == envelope_json(envelopes@[index as int]@));
                    if index == 0 {
                        assert(text@ =~= start + listed(longer));
                    } else {
                        assert(text@ =~= start + (so_far + ","@ + longer.last()));
                    }
                }
                index += 1;
            }
            assert(parts.take(parts.len() as int) =~= parts);
            text.append("]");
            text.append("}}");
            assert(text@ =~= before + operation_json(operation@));
        },
        RelayOperation::Pull { after, limit } => {
            text.append("{\"Pull\":{\"after\":");
            push_number(text, *after);
            text.append(",\"limit\":");
            push_number(text, *limit as u64);
            text.append("}}");
            assert(text@ =~= before + operation_json(operation@));
        },
        RelayOperation::Acknowledge { ids } => {
            text.append("{\"Acknowledge\":{\"ids\":");
            text.append("[");
            let ghost start = text@;
            let ghost parts = id_views(ids@).map_values(|id: Seq<u8>| json_bytes(id));
            let mut index: usize = 0;
            assert(parts.take(0) =~= Seq::<Seq<char>>::empty());
            assert(start + listed(parts.take(0)) =~= start);
            while index < ids.len()
                invariant
                    index <= ids@.len(),
                    parts == id_views(ids@).map_values(|id: Seq<u8>| json_bytes(id)),
                    text@ == start + listed(parts.take(index as int)),
                decreases ids@.len() - index,
            {
                let ghost so_far = listed(parts.take(index as int));
                if index > 0 {
                    text.append(",");
                }
                push_bytes(text, ids[index].as_slice());
                proof {
                    let longer = parts.take(index + 1);
                    assert(longer.drop_last() =~= parts.take(index as int));
                    assert(longer.last() == json_bytes(ids@[index as int]@));
                    if index == 0 {
                        assert(text@ =~= start + listed(longer));
                    } else {
                        assert(text@ =~= start + (so_far + ","@ + longer.last()));
                    }
                }
                index += 1;
            }
            assert(parts.take(parts.len() as int) =~= parts);
            text.append("]");
            text.append("}}");
            assert(text@ =~= before + operation_json(operation@));
        },
    }
}

impl UnsignedRequest {
    /// Renders what is signed as compact JSON text.
    pub fn signing_text(&self) -> (text: String)
        ensures
            text@ == request_json(self@),
    {
        let mut text = String::new();
        text.append("{\"version\":");
        push_number(&mut text, self.version as u64);
        text.append(",\"route\":");
        push_bytes(&mut text, self.route.0.as_slice());
        text.append(",\"issued_at\":");
        push_number(&mut text, self.issued_at);
        text.append(",\"nonce\":");
        push_bytes(&mut text, self.nonce.as_slice());
        text.append(",\"operation\":");
        push_operation(&mut text, &self.operation);
        text.append("}");
        assert(text@ =~= request_json(self@));
        text
    }
}

/// A signed mailbox operation accepted by a relay service.
#[derive(Debug, PartialEq, Eq)]
pub struct RelayRequest {
    /// What the mailbox signed.
    pub unsigned: UnsignedRequest,
    /// Signature of the mailbox key.
    pub signature: Vec<u8>,
}

/// What a [`RelayRequest`] says.
#[verifier::ext_equal]
pub struct RequestView {
    /// What the mailbox signed.
    pub unsigned: UnsignedView,
    /// Signature of the mailbox key.
    pub signature: Seq<u8>,
}

impl View for RelayRequest {
    type V = RequestView;

    open spec fn view(&self) -> RequestView {
        RequestView { unsigned: self.unsigned@, signature: self.signature@ }
    }
}

impl RequestView {
    /// Whether the request carries its mailbox key's signature.
    pub open spec fn signed(self) -> bool {
        scoped_valid(
            self.unsigned.route,
            request_domain(),
            encode_utf8(request_json(self.unsigned)),
            self.signature,
        )
    }

    /// Why the request is refused at a time.
    pub open spec fn verify_refusal(self, now: u64) -> Option<RelayRefusal> {
        if self.unsigned.version != 1 {
            Some(RelayRefusal::InvalidMessage)
        } else if self.unsigned.issued_at > now + 300 || now > self.unsigned.issued_at + 300 {
            Some(RelayRefusal::StaleRequest)
        } else if !self.unsigned.operation.bounded(now) {
            Some(RelayRefusal::LimitExceeded)
        } else if !self.signed() {
            Some(RelayRefusal::InvalidSignature)
        } else {
            None
        }
    }
}

/// The request that a mailbox signs.
pub open spec fn requested(
    secret: Seq<u8>,
    public: Seq<u8>,
    operation: OperationView,
    issued_at: u64,
    nonce: Seq<u8>,
) -> RequestView {
    let unsigned = UnsignedView { version: 1, route: public, issued_at, nonce, operation };
    RequestView {
        unsigned,
        signature: scoped_signature(
            secret,
            request_domain(),
            encode_utf8(request_json(unsigned)),
        ),
    }
}

/// A pseudonymous signing key for one recipient in one space-key epoch.
pub struct RelayMailbox {
    identity: DeviceIdentity,
}

impl View for RelayMailbox {
    type V = Seq<u8>;

    /// The secret encoding of the mailbox key.
    closed spec fn view(&self) -> Seq<u8> {
        self.identity@
    }
}

/// The secret encoding of a mailbox key.
pub open spec fn mailbox_secret(epoch_secret: Seq<u8>, recipient: Seq<u8>) -> Seq<u8> {
    blake3_keyed(epoch_secret, mailbox_domain() + recipient)
}

impl RelayMailbox {
    /// The routing key of the mailbox.
    pub open spec fn routing(self) -> Seq<u8> {
        crate::crypto::ed25519_public(self@)
    }

    /// Deterministically derives a mailbox from secret epoch material and an
    /// opaque recipient discriminator, normally its public device-key bytes.
    pub fn derive(epoch_secret: &[u8; 32], recipient: &[u8]) -> (mailbox: Self)
        ensures
            mailbox@ == mailbox_secret(epoch_secret@, recipient@),
    {
        let mut material: Vec<u8> = Vec::new();
        extend(&mut material, "cyrene/relay/mailbox/1".as_bytes());
        extend(&mut material, recipient);
        assert(material@ =~= mailbox_domain() + recipient@);
        let seed = crypto::keyed_hash(epoch_secret, material.as_slice());
        RelayMailbox { identity: DeviceIdentity::from_secret_bytes(&seed) }
    }

    /// Returns the opaque routing and verification key visible to the relay.
    pub fn route(&self) -> (route: DevicePublicKey)
        ensures
            route@ == self.routing(),
    {
        self.identity.public_key()
    }

    /// Describes the mailbox without its secret.
    pub fn debug_text(&self) -> (text: String)
        ensures
            text@ == "RelayMailbox { route: DeviceId("@ + hex_text(
                device_id(self.routing()).take(8),
            ) + "), .. }"@,
    {
        let mut text = "RelayMailbox { route: DeviceId(".to_owned();
        text.append(self.route().id().to_string().as_str());
        text.append("), .. }");
        text
    }

    /// Creates a signed bounded push request.
    ///
    /// The relay accepts the request while it is fresh, unless its signature
    /// is the degenerate one that strict verification refuses.
    pub fn push(&self, envelopes: Vec<RelayEnvelope>, now: u64) -> (request: Result<
        RelayRequest,
        RelayProtocolError,
    >)
        ensures
            ({
                let operation = OperationView::Push { envelopes: envelope_views(envelopes@) };
                signs(*self, operation, now, operation.bounded(now), request)
            }),
    {
        validate_envelopes(&envelopes, now)?;
        self.sign(RelayOperation::Push { envelopes }, now)
    }

    /// Creates a signed bounded pull request after a server-issued cursor.
    pub fn pull(&self, after: u64, limit: u16, now: u64) -> (request: Result<
        RelayRequest,
        RelayProtocolError,
    >)
        ensures
            signs(
                *self,
                (OperationView::Pull { after, limit }),
                now,
                0 < limit <= 256,
                request,
            ),
    {
        if limit == 0 || limit as usize > MAX_RELAY_BATCH {
            return Err(RelayProtocolError::LimitExceeded);
        }
        self.sign(RelayOperation::Pull { after, limit }, now)
    }

    /// Creates a signed acknowledgement that deletes delivered object IDs.
    pub fn acknowledge(&self, ids: Vec<[u8; 32]>, now: u64) -> (request: Result<
        RelayRequest,
        RelayProtocolError,
    >)
        ensures
            signs(
                *self,
                (OperationView::Acknowledge { ids: id_views(ids@) }),
                now,
                0 < ids@.len() <= 256,
                request,
            ),
    {
        if ids.len() == 0 || ids.len() > MAX_RELAY_BATCH {
            return Err(RelayProtocolError::LimitExceeded);
        }
        self.sign(RelayOperation::Acknowledge { ids }, now)
    }

    fn sign(&self, operation: RelayOperation, issued_at: u64) -> (request: Result<
        RelayRequest,
        RelayProtocolError,
    >)
        ensures
            signs(*self, operation@, issued_at, true, request),
    {
        match crypto::random::<16>() {
            Some(nonce) => Ok(self.sign_with(operation, issued_at, nonce)),
            None => Err(RelayProtocolError::Randomness),
        }
    }

    /// Signs the request that sixteen random bytes tell apart.
    pub fn sign_with(&self, operation: RelayOperation, issued_at: u64, nonce: [u8; 16]) -> (request:
        RelayRequest)
        ensures
            request@ == requested(self@, self.routing(), operation@, issued_at, nonce@),
            !degenerate(request@.signature) ==> request@.signed(),
    {
        let unsigned = UnsignedRequest {
            version: VERSION,
            route: self.route(),
            issued_at,
            nonce,
            operation,
        };
        let text = unsigned.signing_text();
        let signature = self.identity.sign(
            "cyrene/relay/request/1".as_bytes(),
            text.as_str().as_bytes(),
        );
        RelayRequest { unsigned, signature: copy_bytes(signature.as_slice()) }
    }
}

/// Whether a result is a request that a mailbox signs for an operation, or the
/// reason why there is none.
pub open spec fn signs(
    mailbox: RelayMailbox,
    operation: OperationView,
    issued_at: u64,
    allowed: bool,
    request: Result<RelayRequest, RelayProtocolError>,
) -> bool {
    match request {
        Ok(request) => {
            &&& allowed
            &&& request@.unsigned.nonce.len() == 16
            &&& request@ == requested(
                mailbox@,
                mailbox.routing(),
                operation,
                issued_at,
                request@.unsigned.nonce,
            )
            &&& !degenerate(request@.signature) ==> request@.signed()
        },
        Err(error) => if allowed {
            error@ == RelayRefusal::Randomness
        } else {
            error@ == RelayRefusal::LimitExceeded
        },
    }
}

impl RelayRequest {
    /// Authenticates this request and enforces public clock and size bounds.
    ///
    /// The service must additionally reject replayed `(route, nonce)` pairs.
    pub fn verify(&self, now: u64) -> (result: Result<(), RelayProtocolError>)
        ensures
            relay_refused(result) == self@.verify_refusal(now),
    {
        if self.unsigned.version != VERSION {
            return Err(RelayProtocolError::InvalidMessage);
        }
        let skew: u64 = if self.unsigned.issued_at >= now {
            self.unsigned.issued_at - now
        } else {
            now - self.unsigned.issued_at
        };
        if skew > MAX_RELAY_CLOCK_SKEW {
            return Err(RelayProtocolError::StaleRequest);
        }
        match &self.unsigned.operation {
            RelayOperation::Push { envelopes } => {
                validate_envelopes(envelopes, now)?;
            },
            RelayOperation::Pull { limit, .. } => {
                if *limit == 0 || *limit as usize > MAX_RELAY_BATCH {
                    return Err(RelayProtocolError::LimitExceeded);
                }
            },
            RelayOperation::Acknowledge { ids } => {
                if ids.len() == 0 || ids.len() > MAX_RELAY_BATCH {
                    return Err(RelayProtocolError::LimitExceeded);
                }
            },
        }
        let text = self.unsigned.signing_text();
        if !self.unsigned.route.verify(
            "cyrene/relay/request/1".as_bytes(),
            text.as_str().as_bytes(),
            self.signature.as_slice(),
        ) {
            return Err(RelayProtocolError::InvalidSignature);
        }
        Ok(())
    }

    /// Returns the opaque mailbox routing key.
    pub fn route(&self) -> (route: DevicePublicKey)
        ensures
            route@ == self@.unsigned.route,
    {
        self.unsigned.route
    }

    /// Returns the request nonce used by server-side replay defense.
    pub fn nonce(&self) -> (nonce: [u8; 16])
        ensures
            nonce@ == self@.unsigned.nonce,
    {
        self.unsigned.nonce
    }

    /// Returns the Unix time of the request.
    pub fn issued_at(&self) -> (issued_at: u64)
        ensures
            issued_at == self@.unsigned.issued_at,
    {
        self.unsigned.issued_at
    }

    /// Returns the requested operation.
    pub fn operation(&self) -> (operation: &RelayOperation)
        ensures
            operation@ == self@.unsigned.operation,
    {
        &self.unsigned.operation
    }
}

/// One opaque object and its monotonic mailbox cursor.
#[derive(Debug, PartialEq, Eq)]
pub struct RelayDelivery {
    /// Server-issued cursor used for the next pull.
    pub cursor: u64,
    /// End-to-end encrypted object.
    pub envelope: RelayEnvelope,
}

/// What a [`RelayDelivery`] says.
#[verifier::ext_equal]
pub struct DeliveryView {
    /// Server-issued cursor.
    pub cursor: u64,
    /// End-to-end encrypted object.
    pub envelope: EnvelopeView,
}

impl View for RelayDelivery {
    type V = DeliveryView;

    open spec fn view(&self) -> DeliveryView {
        DeliveryView { cursor: self.cursor, envelope: self.envelope@ }
    }
}

/// Stable public relay rejection categories.
#[derive(Clone, Copy, Debug, PartialEq, Eq, Structural)]
pub enum RelayRejection {
    /// Authentication or replay validation failed.
    Unauthorized,
    /// A protocol or service bound was exceeded.
    LimitExceeded,
    /// The service could not durably process the request.
    Unavailable,
}

/// A relay response containing no application plaintext.
#[derive(Debug, PartialEq, Eq)]
pub enum RelayResponse {
    /// Push or acknowledgement result.
    Applied {
        /// Newly inserted or deleted objects.
        changed: u16,
    },
    /// Bounded ordered mailbox page.
    Deliveries {
        /// Objects ordered by server cursor.
        items: Vec<RelayDelivery>,
    },
    /// Public, non-sensitive failure category.
    Rejected {
        /// Stable machine-readable error code.
        code: RelayRejection,
    },
}

/// What a [`RelayResponse`] says.
#[verifier::ext_equal]
pub enum ResponseView {
    /// Push or acknowledgement result.
    Applied {
        /// Newly inserted or deleted objects.
        changed: u16,
    },
    /// Ordered mailbox page.
    Deliveries {
        /// Objects ordered by server cursor.
        items: Seq<DeliveryView>,
    },
    /// Failure category.
    Rejected {
        /// Error code.
        code: RelayRejection,
    },
}

impl View for RelayResponse {
    type V = ResponseView;

    open spec fn view(&self) -> ResponseView {
        match self {
            RelayResponse::Applied { changed } => ResponseView::Applied { changed: *changed },
            RelayResponse::Deliveries { items } => ResponseView::Deliveries {
                items: items@.map_values(|item: RelayDelivery| item@),
            },
            RelayResponse::Rejected { code } => ResponseView::Rejected { code: *code },
        }
    }
}

/// A signed bounded request is accepted while it is fresh: within the clock
/// window and while its operation is within the bounds.
pub proof fn law_signed_request_verifies(
    request: RequestView,
    secret: Seq<u8>,
    public: Seq<u8>,
    operation: OperationView,
    issued_at: u64,
    nonce: Seq<u8>,
    now: u64,
)
    requires
        request == requested(secret, public, operation, issued_at, nonce),
        request.signed(),
        operation.bounded(now),
        issued_at <= now + 300,
        now <= issued_at + 300,
    ensures
        request.verify_refusal(now) is None,
{
}

/// Mailboxes are a function of their epoch secret and recipient: whoever knows
/// both derives the same route.
pub proof fn law_mailbox_is_deterministic(first: RelayMailbox, second: RelayMailbox)
    requires
        first@ == second@,
    ensures
        first.routing() == second.routing(),
{
}

/// A request verifies exactly where it has the current version, was issued
/// within five minutes of now either way, its operation is within the bounds of
/// the protocol, and the mailbox's key signed it.
pub proof fn law_request_is_verified_exactly(request: RequestView, now: u64)
    ensures
        ({
            let current = request.unsigned.issued_at <= now + 300 && now
                <= request.unsigned.issued_at + 300;
            let within = match request.unsigned.operation {
                OperationView::Push { envelopes } => {
                    &&& 1 <= envelopes.len() <= 256
                    &&& total_bytes(envelopes) <= 4 * 1024 * 1024
                    &&& forall|i: int|
                        0 <= i < envelopes.len() ==> 1 <= (
                        #[trigger] envelopes[i]).ciphertext.len() <= 1024 * 1024 && now
                            < envelopes[i].expires_at <= now + 30 * 24 * 60 * 60
                },
                OperationView::Pull { limit, .. } => 1 <= limit <= 256,
                OperationView::Acknowledge { ids } => 1 <= ids.len() <= 256,
            };
            let refusal = request.verify_refusal(now);
            &&& refusal is None <==> request.unsigned.version == 1 && current && within
                && request.signed()
            &&& refusal == Some(RelayRefusal::InvalidMessage) <==> request.unsigned.version != 1
            &&& refusal == Some(RelayRefusal::StaleRequest) <==> request.unsigned.version == 1
                && !current
            &&& refusal == Some(RelayRefusal::LimitExceeded) <==> request.unsigned.version == 1
                && current && !within
            &&& refusal == Some(RelayRefusal::InvalidSignature) <==> request.unsigned.version
                == 1 && current && within && !request.signed()
        }),
{
    if let OperationView::Push { envelopes } = request.unsigned.operation {
        assert(forall|i: int|
            0 <= i < envelopes.len() ==> ((#[trigger] envelopes[i]).bounded(now) <==> 1
                <= envelopes[i].ciphertext.len() <= 1024 * 1024 && now < envelopes[i].expires_at
                <= now + 30 * 24 * 60 * 60));
    }
}

/// Bytes are counted by ciphertext: those of nothing are none, and those of two
/// lists together are those of both.
pub proof fn law_envelope_bytes_add_up(
    first: Seq<EnvelopeView>,
    second: Seq<EnvelopeView>,
    envelope: EnvelopeView,
)
    ensures
        total_bytes(Seq::empty()) == 0,
        total_bytes(seq![envelope]) == envelope.ciphertext.len(),
        total_bytes(first + second) == total_bytes(first) + total_bytes(second),
    decreases second.len(),
{
    reveal_with_fuel(total_bytes, 2);
    assert(seq![envelope].drop_last() =~= Seq::<EnvelopeView>::empty());
    if second.len() == 0 {
        assert(first + second =~= first);
    } else {
        law_envelope_bytes_add_up(first, second.drop_last(), envelope);
        assert((first + second).drop_last() =~= first + second.drop_last());
    }
}

/// A signed request asks for its operation at its time, at the mailbox of the
/// key that signs it.
pub proof fn law_request_says_what_was_asked(
    secret: Seq<u8>,
    public: Seq<u8>,
    operation: OperationView,
    issued_at: u64,
    nonce: Seq<u8>,
)
    ensures
        ({
            let request = requested(secret, public, operation, issued_at, nonce);
            &&& request.unsigned.version == 1
            &&& request.unsigned.route == public
            &&& request.unsigned.issued_at == issued_at
            &&& request.unsigned.nonce == nonce
            &&& request.unsigned.operation == operation
        }),
{
}

/// A request is signed as text that holds its version, its mailbox, its time,
/// its nonce and its operation with all that the operation asks.
pub proof fn law_request_text_holds_every_field(
    request: UnsignedView,
    after: u64,
    limit: u16,
    envelope: EnvelopeView,
)
    ensures
        request_json(request) == ("{\"version\":"@ + decimal_text(request.version as nat)) + (
        ",\"route\":"@ + json_bytes(request.route)) + (",\"issued_at\":"@ + decimal_text(
            request.issued_at as nat,
        )) + (",\"nonce\":"@ + json_bytes(request.nonce)) + (",\"operation\":"@ + operation_json(
            request.operation,
        ) + "}"@),
        operation_json(OperationView::Pull { after, limit }) == ("{\"Pull\":{\"after\":"@
            + decimal_text(after as nat)) + (",\"limit\":"@ + decimal_text(limit as nat) + "}}"@),
        envelope_json(envelope) == ("{\"id\":"@ + json_bytes(envelope.id)) + (
        ",\"expires_at\":"@ + decimal_text(envelope.expires_at as nat)) + (
        ",\"ciphertext\":"@ + json_bytes(envelope.ciphertext) + "}"@),
{
    assert(request_json(request) =~= ("{\"version\":"@ + decimal_text(request.version as nat)) + (
    ",\"route\":"@ + json_bytes(request.route)) + (",\"issued_at\":"@ + decimal_text(
        request.issued_at as nat,
    )) + (",\"nonce\":"@ + json_bytes(request.nonce)) + (",\"operation\":"@ + operation_json(
        request.operation,
    ) + "}"@));
    assert(operation_json(OperationView::Pull { after, limit }) =~= ("{\"Pull\":{\"after\":"@
        + decimal_text(after as nat)) + (",\"limit\":"@ + decimal_text(limit as nat) + "}}"@));
    assert(envelope_json(envelope) =~= ("{\"id\":"@ + json_bytes(envelope.id)) + (
    ",\"expires_at\":"@ + decimal_text(envelope.expires_at as nat)) + (",\"ciphertext\":"@
        + json_bytes(envelope.ciphertext) + "}"@));
}

/// A push is signed with every envelope and an acknowledgement with every
/// identity, in order.
pub proof fn law_operation_text_holds_every_item(
    envelopes: Seq<EnvelopeView>,
    ids: Seq<Seq<u8>>,
    pushed: Seq<Seq<char>>,
    named: Seq<Seq<char>>,
)
    requires
        pushed.len() == envelopes.len(),
        forall|i: int|
            0 <= i < envelopes.len() ==> #[trigger] pushed[i] == envelope_json(envelopes[i]),
        named.len() == ids.len(),
        forall|i: int| 0 <= i < ids.len() ==> #[trigger] named[i] == json_bytes(ids[i]),
    ensures
        operation_json(OperationView::Push { envelopes }) == "{\"Push\":{\"envelopes\":"@
            + json_array(pushed) + "}}"@,
        operation_json(OperationView::Acknowledge { ids }) == "{\"Acknowledge\":{\"ids\":"@
            + json_array(named) + "}}"@,
{
    assert(envelopes.map_values(|envelope: EnvelopeView| envelope_json(envelope)) =~= pushed);
    assert(ids.map_values(|id: Seq<u8>| json_bytes(id)) =~= named);
}

/// A mailbox signs a request exactly where its operation is allowed, and then
/// for itself: at its own route, at the time given, for the operation given.
pub proof fn law_mailbox_signs_for_itself(
    mailbox: RelayMailbox,
    operation: OperationView,
    issued_at: u64,
    allowed: bool,
    request: Result<RelayRequest, RelayProtocolError>,
)
    requires
        signs(mailbox, operation, issued_at, allowed, request),
    ensures
        request is Ok ==> allowed,
        !allowed ==> (request matches Err(error) && error@ == RelayRefusal::LimitExceeded),
        allowed && request is Err ==> (request matches Err(error) && error@
            == RelayRefusal::Randomness),
        request matches Ok(request) ==> {
            &&& request@.unsigned.version == 1
            &&& request@.unsigned.route == crate::crypto::ed25519_public(mailbox@)
            &&& request@.unsigned.issued_at == issued_at
            &&& request@.unsigned.operation == operation
            &&& request@.unsigned.nonce.len() == 16
        },
{
}

} // verus!
