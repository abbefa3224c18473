//! What signatures, digests and ciphertexts are bound to.

use crate::authority::capability::capability_domain;
use crate::authority::encoding::invitation_json;
use crate::authority::invitation::{invitation_context_of, invitation_domain, InvitationView};
use crate::authority::payload::{opaque_data, payload_data};
use crate::bytes::{be, frame, framed};
use crate::command::sharing::{claim_domain, token_domain};
use crate::crypto::{blake3_derived, blake3_hash, blake3_keyed};
use crate::id::SpaceId;
use crate::identity::device::{device_id, protocol};
use crate::identity::pairing::{
    confirmation_of, exchange_identity, inviter_role, joiner_role, session_key_of,
};
use crate::identity::user::{event_bytes, event_digest, user_domain, user_id_of, EventView};
use crate::net::handshake::auth_domain;
use crate::net::relay::{mailbox_domain, mailbox_secret, request_domain};
use crate::trust::material::{device_data, space_key_data};
use crate::trust::recovery::{recovery_domain, recovery_magic};
use crate::trust::vault::shares::offer_hash_of;
use vstd::prelude::*;
use vstd::string::*;
use vstd::utf8::encode_utf8;

verus! {

/// Every kind of signature is made for a purpose with a name of its own.
pub proof fn law_purposes_have_names()
    ensures
        protocol() == encode_utf8("cyrene/pairing/1"@),
        capability_domain() == encode_utf8("cyrene/capability/1"@),
        invitation_domain() == encode_utf8("cyrene/share-invitation/1"@),
        user_domain() == encode_utf8("cyrene/user-identity/1"@),
        auth_domain() == encode_utf8("cyrene/quic/device-auth/1"@),
        request_domain() == encode_utf8("cyrene/relay/request/1"@),
        mailbox_domain() == encode_utf8("cyrene/relay/mailbox/1"@),
        token_domain() == encode_utf8("cyrene/share-token/1"@),
        claim_domain() == encode_utf8("cyrene/share-claim/1"@),
        recovery_domain() == encode_utf8("cyrene/recovery-bundle/1"@),
        recovery_magic() == encode_utf8("CYRREC01"@),
        joiner_role() == encode_utf8("joiner"@),
        inviter_role() == encode_utf8("inviter"@),
{
}

/// A device is known by a digest of its key, a user by one of the founding
/// device's key and a nonce, an event by one of all that it says with its
/// signature, and an offer by one of the whole invitation.
pub proof fn law_identities_are_digests(
    key: Seq<u8>,
    nonce: Seq<u8>,
    event: EventView,
    invitation: InvitationView,
)
    ensures
        device_id(key) == blake3_hash(protocol() + encode_utf8("/device/"@) + key),
        user_id_of(key, nonce) == blake3_hash(user_domain() + key + nonce),
        event_digest(event) == blake3_hash(event_bytes(event) + frame(event.signature)),
        offer_hash_of(invitation) == blake3_hash(encode_utf8(invitation_json(invitation))),
{
}

/// A pairing's key comes from the shared secret and all that both sides said,
/// each side confirms it in its own role, and a mailbox comes from the epoch's
/// secret and the recipient.
pub proof fn law_keys_are_derived(
    shared: Seq<u8>,
    transcript: Seq<u8>,
    key: Seq<u8>,
    role: Seq<u8>,
    recipient: Seq<u8>,
    invitation_id: Seq<u8>,
)
    ensures
        session_key_of(shared, transcript) == blake3_derived(
            "cyrene pairing session key v1"@,
            framed(seq![shared, transcript]),
        ),
        confirmation_of(key, role, transcript) == blake3_keyed(
            key,
            protocol() + role + transcript,
        ),
        mailbox_secret(key, recipient) == blake3_keyed(key, mailbox_domain() + recipient),
        exchange_identity(invitation_id) == protocol() + encode_utf8("/spake2/"@) + invitation_id,
{
}

/// Each ciphertext is bound to what it is for: a payload to its space, epoch and
/// context, an invited key to its invitation, a content key to its space and
/// epoch, and a device's material to its key and certificate.
pub proof fn law_ciphertexts_are_bound(
    space: SpaceId,
    epoch: u64,
    context: Seq<u8>,
    id: Seq<u8>,
    key: Seq<u8>,
    certificate: Seq<u8>,
)
    ensures
        payload_data(space, epoch, context) == encode_utf8("cyrene/space-payload/1"@) + be(
            space.0 as nat,
            16,
        ) + be(epoch as nat, 8) + be(context.len(), 8) + context,
        opaque_data(context) == encode_utf8("cyrene/opaque-payload/1"@) + be(context.len(), 8)
            + context,
        invitation_context_of(id) == encode_utf8("cyrene/share-invitation/key/1"@) + id,
        space_key_data(space, epoch) == encode_utf8("cyrene/trust-vault/space-key/1"@) + be(
            space.0 as nat,
            16,
        ) + be(epoch as nat, 8),
        device_data(key, certificate) == encode_utf8("cyrene/trust-vault/device-material/1"@) + key
            + blake3_hash(certificate),
{
    assert(payload_data(space, epoch, context) =~= encode_utf8("cyrene/space-payload/1"@) + be(
        space.0 as nat,
        16,
    ) + be(epoch as nat, 8) + be(context.len(), 8) + context);
    assert(opaque_data(context) =~= encode_utf8("cyrene/opaque-payload/1"@) + be(
        context.len(),
        8,
    ) + context);
}

} // verus!
