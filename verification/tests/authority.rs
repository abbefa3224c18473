use cyrene::authority::{
    AuthorityError, Capability, EncryptionError, InvitationError, InvitationSecret, Operation,
    Permission, ShareInvitation, SpaceAuthority, SpaceKey,
};
use cyrene::id::SpaceId;
use cyrene::identity::DeviceIdentity;

fn fixture(permission: Permission) -> (DeviceIdentity, DeviceIdentity, Capability) {
    let owner = DeviceIdentity::generate().unwrap();
    let member = DeviceIdentity::generate().unwrap();
    let capability = Capability::issue(
        &owner,
        SpaceId::from_u128(7),
        3,
        member.public_key(),
        permission,
        100,
        200,
    )
    .unwrap();
    (owner, member, capability)
}

#[test]
fn read_only_and_read_write_are_enforced_offline() {
    let (owner, member, read_only) = fixture(Permission::ReadOnly);
    let authority = SpaceAuthority {
        space: SpaceId::from_u128(7),
        issuer: owner.public_key(),
        epoch: 3,
    };
    assert_eq!(
        read_only.authorize(authority, member.public_key(), Operation::Read, 150),
        Ok(())
    );
    assert_eq!(
        read_only.authorize(authority, member.public_key(), Operation::Write, 150),
        Err(AuthorityError::Denied)
    );

    let (_, _, read_write) = fixture(Permission::ReadWrite);
    assert!(read_write.permission().allows(Operation::Write));
}

#[test]
fn scope_epoch_subject_and_time_fail_closed() {
    let (owner, member, capability) = fixture(Permission::ReadWrite);
    let authority = SpaceAuthority {
        space: SpaceId::from_u128(7),
        issuer: owner.public_key(),
        epoch: 3,
    };
    assert_eq!(
        capability.authorize(authority, member.public_key(), Operation::Read, 99),
        Err(AuthorityError::NotYetValid)
    );
    assert_eq!(
        capability.authorize(authority, member.public_key(), Operation::Read, 200),
        Err(AuthorityError::Expired)
    );
    assert_eq!(
        capability.authorize(
            SpaceAuthority {
                epoch: 4,
                ..authority
            },
            member.public_key(),
            Operation::Read,
            150,
        ),
        Err(AuthorityError::StaleEpoch)
    );
    assert_eq!(
        capability.authorize(
            authority,
            DeviceIdentity::generate().unwrap().public_key(),
            Operation::Read,
            150,
        ),
        Err(AuthorityError::WrongPrincipal)
    );
}

#[test]
fn serialized_tampering_invalidates_the_signature() {
    let (owner, member, mut tampered) = fixture(Permission::ReadOnly);
    tampered.permission = Permission::ReadWrite;
    let authority = SpaceAuthority {
        space: SpaceId::from_u128(7),
        issuer: owner.public_key(),
        epoch: 3,
    };
    assert_eq!(
        tampered.authorize(authority, member.public_key(), Operation::Write, 150),
        Err(AuthorityError::InvalidSignature)
    );
}

#[test]
fn space_payloads_are_scoped_and_authenticated() {
    let key = SpaceKey::from_bytes([8; 32]);
    let space = SpaceId::from_u128(9);
    let payload = key.seal(space, 4, b"change-7", b"hello").unwrap();
    assert_eq!(key.open(space, 4, b"change-7", &payload).unwrap(), b"hello");
    assert_eq!(
        key.open(space, 5, b"change-7", &payload),
        Err(EncryptionError::WrongEpoch)
    );
    assert_eq!(
        key.open(space, 4, b"change-8", &payload),
        Err(EncryptionError::Authentication)
    );
    assert_eq!(
        SpaceKey::from_bytes([7; 32]).open(space, 4, b"change-7", &payload),
        Err(EncryptionError::Authentication)
    );
}

#[test]
fn opaque_payloads_hide_scope_and_bind_context() {
    let key = SpaceKey::from_bytes([9; 32]);
    let payload = key
        .seal_opaque(b"recipient-mailbox", b"private packet")
        .unwrap();
    assert!(!payload
        .ciphertext
        .windows(14)
        .any(|bytes| bytes == b"private packet"));
    assert_eq!(
        key.open_opaque(b"recipient-mailbox", &payload).unwrap(),
        b"private packet"
    );
    assert_eq!(
        key.open_opaque(b"another-mailbox", &payload),
        Err(EncryptionError::Authentication)
    );
    assert_eq!(
        SpaceKey::from_bytes([10; 32]).open_opaque(b"recipient-mailbox", &payload),
        Err(EncryptionError::Authentication)
    );
}

#[test]
fn ciphertext_tampering_fails_closed() {
    let key = SpaceKey::from_bytes([8; 32]);
    let mut payload = key
        .seal(SpaceId::from_u128(9), 4, b"record", b"private")
        .unwrap();
    payload.ciphertext[0] ^= 1;
    assert_eq!(
        key.open(SpaceId::from_u128(9), 4, b"record", &payload),
        Err(EncryptionError::Authentication)
    );
}

#[test]
fn invitation_opens_key_and_issues_only_device_bound_authority() {
    let owner = DeviceIdentity::from_secret_bytes(&[40; 32]);
    let member = DeviceIdentity::from_secret_bytes(&[41; 32]);
    let space = SpaceId::from_u128(88);
    let key = SpaceKey::from_bytes([42; 32]);
    let (invitation, secret) =
        ShareInvitation::issue(&owner, space, 7, &key, Permission::ReadOnly, 100, 200).unwrap();
    let authority = SpaceAuthority {
        space,
        issuer: owner.public_key(),
        epoch: 7,
    };
    assert_eq!(
        invitation
            .open(authority, &secret, 150)
            .unwrap()
            .secret_bytes(),
        &[42; 32]
    );
    let capability = invitation.grant(&owner, member.public_key(), 150).unwrap();
    assert_eq!(capability.subject(), member.public_key());
    assert_eq!(capability.permission(), Permission::ReadOnly);
    assert_eq!(
        capability.authorize(authority, member.public_key(), Operation::Read, 151),
        Ok(())
    );
    assert_eq!(
        capability.authorize(authority, member.public_key(), Operation::Read, 500),
        Ok(())
    );
}

#[test]
fn expired_capability_can_authenticate_refresh_but_cannot_authorize_data() {
    let owner = DeviceIdentity::from_secret_bytes(&[45; 32]);
    let member = DeviceIdentity::from_secret_bytes(&[46; 32]);
    let space = SpaceId::from_u128(90);
    let authority = SpaceAuthority {
        space,
        issuer: owner.public_key(),
        epoch: 2,
    };
    let capability = Capability::issue(
        &owner,
        space,
        2,
        member.public_key(),
        Permission::ReadOnly,
        100,
        200,
    )
    .unwrap();
    assert_eq!(
        capability.authorize(authority, member.public_key(), Operation::Read, 200),
        Err(AuthorityError::Expired)
    );
    assert_eq!(
        capability.authenticate_membership(authority, member.public_key()),
        Ok(())
    );
    assert_eq!(
        capability.authenticate_membership(authority, owner.public_key()),
        Err(AuthorityError::WrongPrincipal)
    );
}

#[test]
fn invitations_fail_for_wrong_secret_expiry_and_tampering() {
    let owner = DeviceIdentity::from_secret_bytes(&[43; 32]);
    let space = SpaceId::from_u128(89);
    let (mut invitation, secret) = ShareInvitation::issue(
        &owner,
        space,
        1,
        &SpaceKey::from_bytes([44; 32]),
        Permission::ReadWrite,
        100,
        200,
    )
    .unwrap();
    let authority = SpaceAuthority {
        space,
        issuer: owner.public_key(),
        epoch: 1,
    };
    assert!(matches!(
        invitation.open(authority, &InvitationSecret::from_bytes([1; 32]), 150),
        Err(InvitationError::Encryption(EncryptionError::Authentication))
    ));
    assert_eq!(
        invitation.open(authority, &secret, 200).err().unwrap(),
        InvitationError::Expired
    );

    invitation.permission = Permission::ReadOnly;
    assert_eq!(
        invitation.open(authority, &secret, 150).err().unwrap(),
        InvitationError::InvalidSignature
    );
}

#[test]
fn capabilities_need_a_validity_interval() {
    let owner = DeviceIdentity::from_secret_bytes(&[47; 32]);
    let issued = Capability::issue(
        &owner,
        SpaceId::from_u128(1),
        1,
        owner.public_key(),
        Permission::ReadWrite,
        200,
        200,
    );
    assert_eq!(issued.err().unwrap(), AuthorityError::InvalidValidity);
    let invited = ShareInvitation::issue(
        &owner,
        SpaceId::from_u128(1),
        1,
        &SpaceKey::from_bytes([1; 32]),
        Permission::ReadWrite,
        300,
        200,
    );
    assert_eq!(invited.err().unwrap(), InvitationError::InvalidValidity);
}

#[test]
fn other_versions_and_spaces_are_refused() {
    let (owner, member, mut capability) = fixture(Permission::ReadWrite);
    let authority = SpaceAuthority {
        space: SpaceId::from_u128(8),
        issuer: owner.public_key(),
        epoch: 3,
    };
    assert_eq!(
        capability.authorize(authority, member.public_key(), Operation::Read, 150),
        Err(AuthorityError::WrongSpace)
    );
    capability.version = 2;
    assert_eq!(
        capability.authorize(authority, member.public_key(), Operation::Read, 150),
        Err(AuthorityError::UnsupportedVersion(2))
    );
    let key = SpaceKey::from_bytes([8; 32]);
    let mut payload = key.seal(SpaceId::from_u128(9), 4, b"c", b"p").unwrap();
    assert_eq!(
        key.open(SpaceId::from_u128(10), 4, b"c", &payload),
        Err(EncryptionError::WrongSpace)
    );
    payload.version = 9;
    assert_eq!(
        key.open(SpaceId::from_u128(9), 4, b"c", &payload),
        Err(EncryptionError::UnsupportedVersion(9))
    );
    assert_eq!(
        EncryptionError::UnsupportedVersion(9).message(),
        "encrypted payload version 9 is unsupported"
    );
}

#[test]
fn invitations_are_refused_early_and_under_other_authority() {
    let owner = DeviceIdentity::from_secret_bytes(&[48; 32]);
    let space = SpaceId::from_u128(91);
    let (mut invitation, secret) = ShareInvitation::issue(
        &owner,
        space,
        1,
        &SpaceKey::from_bytes([49; 32]),
        Permission::ReadWrite,
        100,
        200,
    )
    .unwrap();
    let authority = SpaceAuthority {
        space,
        issuer: owner.public_key(),
        epoch: 1,
    };
    assert_eq!(
        invitation.open(authority, &secret, 99).err().unwrap(),
        InvitationError::NotYetValid
    );
    assert_eq!(
        invitation
            .open(SpaceAuthority { epoch: 2, ..authority }, &secret, 150)
            .err()
            .unwrap(),
        InvitationError::WrongAuthority
    );
    invitation.version = 3;
    assert_eq!(
        invitation.open(authority, &secret, 150).err().unwrap(),
        InvitationError::UnsupportedVersion(3)
    );
}

#[test]
fn invitation_text_is_compact_json() {
    let owner = DeviceIdentity::from_secret_bytes(&[50; 32]);
    let space = SpaceId::from_u128(92);
    let (invitation, _) = ShareInvitation::issue(
        &owner,
        space,
        6,
        &SpaceKey::from_bytes([51; 32]),
        Permission::ReadOnly,
        100,
        200,
    )
    .unwrap();
    let text = invitation.to_json();
    let value: serde_json::Value = serde_json::from_str(&text).unwrap();
    assert_eq!(value["version"].as_u64(), Some(1));
    assert_eq!(value["space"].as_str(), Some(space.to_string().as_str()));
    assert_eq!(value["epoch"].as_u64(), Some(6));
    assert_eq!(value["permission"].as_str(), Some("ReadOnly"));
    assert_eq!(value["issued_at"].as_u64(), Some(100));
    assert_eq!(value["expires_at"].as_u64(), Some(200));
    let bytes = |value: &serde_json::Value| -> Vec<u8> {
        value
            .as_array()
            .unwrap()
            .iter()
            .map(|byte| byte.as_u64().unwrap() as u8)
            .collect()
    };
    assert_eq!(bytes(&value["id"]), invitation.id());
    assert_eq!(bytes(&value["issuer"]), owner.public_key().to_bytes());
    assert_eq!(bytes(&value["signature"]), invitation.signature);
    let sealed = &value["encrypted_key"];
    assert_eq!(bytes(&sealed["nonce"]), invitation.encrypted_key.nonce);
    assert_eq!(bytes(&sealed["ciphertext"]), invitation.encrypted_key.ciphertext);
    assert_eq!(sealed["epoch"].as_u64(), Some(6));
    assert!(text.starts_with("{\"version\":1,\"id\":["));
    assert!(text.contains(",\"encrypted_key\":{\"version\":1,\"space\":\""));
    assert!(!text.contains(' '));
}

#[test]
fn secrets_are_not_shown() {
    assert_eq!(
        SpaceKey::from_bytes([1; 32]).debug_text(),
        "SpaceKey(\"[REDACTED]\")"
    );
    assert_eq!(
        InvitationSecret::from_bytes([1; 32]).debug_text(),
        "InvitationSecret(\"[REDACTED]\")"
    );
    let first = SpaceKey::generate().unwrap();
    let second = SpaceKey::generate().unwrap();
    assert_ne!(first.secret_bytes(), second.secret_bytes());
}

#[test]
fn secrets_are_what_was_drawn() {
    let key = SpaceKey::from_draw(Some([5; 32])).unwrap();
    assert_eq!(key.secret_bytes(), &[5; 32]);
    let refused = SpaceKey::from_draw(None);
    assert!(matches!(refused, Err(EncryptionError::Randomness)));
    let secret = InvitationSecret::from_key(Ok(key)).unwrap();
    assert_eq!(secret.secret_bytes(), &[5; 32]);
    assert!(matches!(
        InvitationSecret::from_key(refused),
        Err(EncryptionError::Randomness)
    ));
}
