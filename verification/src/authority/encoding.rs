//! Compact JSON text of share invitations.

use super::capability::Permission;
use super::invitation::{InvitationView, ShareInvitation};
use super::payload::{EncryptedPayload, PayloadView};
use crate::id::id_text;
use crate::json::{json_bytes, push_bytes, push_number};
use crate::text::decimal_text;
use vstd::prelude::*;
use vstd::string::*;

verus! {

/// The name of a permission.
pub open spec fn permission_name(permission: Permission) -> Seq<char> {
    match permission {
        Permission::ReadOnly => "ReadOnly"@,
        Permission::ReadWrite => "ReadWrite"@,
    }
}

/// An encrypted payload as a JSON object.
pub open spec fn payload_json(payload: PayloadView) -> Seq<char> {
    "{\"version\":"@ + decimal_text(payload.version as nat) + ",\"space\":\""@ + id_text(
        payload.space.0,
    ) + "\",\"epoch\":"@ + decimal_text(payload.epoch as nat) + ",\"nonce\":"@ + json_bytes(
        payload.nonce,
    ) + ",\"ciphertext\":"@ + json_bytes(payload.ciphertext) + "}"@
}

/// A share invitation as a JSON object.
pub open spec fn invitation_json(invitation: InvitationView) -> Seq<char> {
    "{\"version\":"@ + decimal_text(invitation.version as nat) + ",\"id\":"@ + json_bytes(
        invitation.id,
    ) + ",\"space\":\""@ + id_text(invitation.space.0) + "\",\"epoch\":"@ + decimal_text(
        invitation.epoch as nat,
    ) + ",\"issuer\":"@ + json_bytes(invitation.issuer) + ",\"permission\":\""@ + permission_name(
        invitation.permission,
    ) + "\",\"issued_at\":"@ + decimal_text(invitation.issued_at as nat) + ",\"expires_at\":"@
        + decimal_text(invitation.expires_at as nat) + ",\"encrypted_key\":"@ + payload_json(
        invitation.encrypted_key,
    ) + ",\"signature\":"@ + json_bytes(invitation.signature) + "}"@
}

fn push_payload(text: &mut String, payload: &EncryptedPayload)
    ensures
        final(text)@ == old(text)@ + payload_json(payload@),
{
    let ghost before = text@;
    text.append("{\"version\":");
    push_number(text, payload.version as u64);
    text.append(",\"space\":\"");
    text.append(payload.space.to_string().as_str());
    text.append("\",\"epoch\":");
    push_number(text, payload.epoch);
    text.append(",\"nonce\":");
    push_bytes(text, payload.nonce.as_slice());
    text.append(",\"ciphertext\":");
    push_bytes(text, payload.ciphertext.as_slice());
    text.append("}");
    assert(text@ =~= before + payload_json(payload@));
}

impl ShareInvitation {
    /// Renders the invitation as compact JSON text.
    pub fn to_json(&self) -> (text: String)
        ensures
            text@ == invitation_json(self@),
    {
        let mut text = String::new();
        text.append("{\"version\":");
        push_number(&mut text, self.version as u64);
        text.append(",\"id\":");
        push_bytes(&mut text, self.id.as_slice());
        text.append(",\"space\":\"");
        text.append(self.space.to_string().as_str());
        text.append("\",\"epoch\":");
        push_number(&mut text, self.epoch);
        text.append(",\"issuer\":");
        push_bytes(&mut text, self.issuer.0.as_slice());
        text.append(",\"permission\":\"");
        match self.permission {
            Permission::ReadOnly => {
                text.append("ReadOnly");
            },
            Permission::ReadWrite => {
                text.append("ReadWrite");
            },
        }
        text.append("\",\"issued_at\":");
        push_number(&mut text, self.issued_at);
        text.append(",\"expires_at\":");
        push_number(&mut text, self.expires_at);
        text.append(",\"encrypted_key\":");
        push_payload(&mut text, &self.encrypted_key);
        text.append(",\"signature\":");
        push_bytes(&mut text, self.signature.as_slice());
        text.append("}");
        assert(text@ =~= invitation_json(self@));
        text
    }
}

/// An invitation is written with every field, its encrypted key among them, so
/// that what is hashed of it is all of it.
pub proof fn law_invitation_text_holds_every_field(invitation: InvitationView)
    ensures
        invitation_json(invitation) == "{\"version\":"@ + decimal_text(invitation.version as nat)
            + ",\"id\":"@ + json_bytes(invitation.id) + ",\"space\":\""@ + id_text(
            invitation.space.0,
        ) + "\",\"epoch\":"@ + decimal_text(invitation.epoch as nat) + ",\"issuer\":"@
            + json_bytes(invitation.issuer) + ",\"permission\":\""@ + (
        if invitation.permission == Permission::ReadWrite {
            "ReadWrite"@
        } else {
            "ReadOnly"@
        }) + "\",\"issued_at\":"@ + decimal_text(invitation.issued_at as nat)
            + ",\"expires_at\":"@ + decimal_text(invitation.expires_at as nat)
            + ",\"encrypted_key\":"@ + payload_json(invitation.encrypted_key)
            + ",\"signature\":"@ + json_bytes(invitation.signature) + "}"@,
{
}

/// An encrypted payload is written with every field.
pub proof fn law_payload_text_holds_every_field(payload: PayloadView)
    ensures
        payload_json(payload) == ("{\"version\":"@ + decimal_text(payload.version as nat)) + (
        ",\"space\":\""@ + id_text(payload.space.0)) + ("\",\"epoch\":"@ + decimal_text(
            payload.epoch as nat,
        )) + (",\"nonce\":"@ + json_bytes(payload.nonce)) + (",\"ciphertext\":"@ + json_bytes(
            payload.ciphertext,
        ) + "}"@),
{
    assert(payload_json(payload) =~= ("{\"version\":"@ + decimal_text(payload.version as nat)) + (
    ",\"space\":\""@ + id_text(payload.space.0)) + ("\",\"epoch\":"@ + decimal_text(
        payload.epoch as nat,
    )) + (",\"nonce\":"@ + json_bytes(payload.nonce)) + (",\"ciphertext\":"@ + json_bytes(
        payload.ciphertext,
    ) + "}"@));
}

} // verus!
