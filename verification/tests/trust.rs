use cyrene::authority::{
    AuthorityError, Capability, Operation, Permission, ShareInvitation, SpaceAuthority, SpaceKey,
};
use cyrene::id::SpaceId;
use cyrene::identity::{
    DeviceIdentity, Inviter, Joiner, PairingCode, UserIdentity, UserIdentityError,
};
use cyrene::net::QuicCertificate;
use cyrene::trust::material::{seal_with, unseal};
use cyrene::trust::vault::spaces::{renewed_grants, retained_grants};
use cyrene::trust::vault::{check_vault_version, VersionStep};
use cyrene::trust::{
    DeviceMaterial, PeerRecord, RecoveryBundle, RecoverySecret, SpaceAccess, SpaceCredentials,
    TrustError, TrustStore, WrappingKey,
};

/// A named credential-store slot.
struct KeySlot {
    name: String,
    entry: keyring::Entry,
}

impl KeySlot {
    fn mock(name: &str) -> Self {
        KeySlot {
            name: name.to_owned(),
            entry: keyring::Entry::new_with_credential(Box::new(
                keyring::mock::MockCredential::default(),
            )),
        }
    }

    fn secret(&self) -> Option<Vec<u8>> {
        match self.entry.get_secret() {
            Ok(secret) => Some(secret),
            Err(keyring::Error::NoEntry) => None,
            Err(error) => panic!("{error}"),
        }
    }

    fn store_new(&self, key: &WrappingKey) -> Result<(), TrustError> {
        WrappingKey::refuse_replacement(&self.name, self.secret().is_some())?;
        self.entry.set_secret(key.secret_bytes()).unwrap();
        Ok(())
    }

    fn load(&self) -> Result<WrappingKey, TrustError> {
        WrappingKey::from_slot(&self.name, self.secret())
    }
}

#[test]
fn os_key_store_round_trips_without_replacement() {
    let store = KeySlot::mock("test-device");
    let key = WrappingKey::from_bytes([42; 32]);
    store.store_new(&key).unwrap();
    assert_eq!(store.load().unwrap().secret_bytes(), &[42; 32]);
    assert!(matches!(
        store.store_new(&WrappingKey::from_bytes([7; 32])),
        Err(TrustError::WrappingKeyExists(name)) if name == "test-device"
    ));
}

#[test]
fn os_key_store_fails_closed_for_missing_and_malformed_entries() {
    let missing = KeySlot::mock("missing");
    assert!(matches!(
        missing.load(),
        Err(TrustError::MissingWrappingKey(name)) if name == "missing"
    ));

    let malformed = KeySlot::mock("malformed");
    malformed.entry.set_secret(b"too short").unwrap();
    assert!(matches!(
        malformed.load(),
        Err(TrustError::MalformedWrappingKey { name, length: 9 }) if name == "malformed"
    ));
}

fn material() -> DeviceMaterial {
    DeviceMaterial {
        identity: DeviceIdentity::from_secret_bytes(&[7; 32]),
        certificate: QuicCertificate::generate().unwrap(),
    }
}

fn device(byte: u8) -> DeviceMaterial {
    DeviceMaterial {
        identity: DeviceIdentity::from_secret_bytes(&[byte; 32]),
        certificate: QuicCertificate::generate().unwrap(),
    }
}

fn vault(byte: u8) -> TrustStore {
    TrustStore::open_in_memory(WrappingKey::from_bytes([byte; 32]))
}

fn reopened(store: TrustStore, byte: u8) -> TrustStore {
    TrustStore::restore(store.into_rows(), WrappingKey::from_bytes([byte; 32]))
}

fn initialize_owner_space(
    store: &mut TrustStore,
    owner: &DeviceIdentity,
    space: SpaceId,
    epoch: u64,
    key: u8,
) {
    let capability = Capability::issue(
        owner,
        space,
        epoch,
        owner.public_key(),
        Permission::ReadWrite,
        0,
        u64::MAX,
    )
    .unwrap();
    store
        .commit_space_epoch(
            &SpaceAccess {
                authority: SpaceAuthority {
                    space,
                    issuer: owner.public_key(),
                    epoch,
                },
                capability,
            },
            &SpaceKey::from_bytes([key; 32]),
            &[],
            100,
        )
        .unwrap();
}

#[test]
fn encrypted_recovery_restores_complete_trust_under_a_fresh_host_key() {
    let old_key = 110;
    let new_key = 111;
    let recovery_secret = RecoverySecret::from_bytes([112; 32]);
    let expected_material = material();
    let expected_public_key = expected_material.identity.public_key();
    let expected_pin = expected_material.certificate.pin();
    let space = SpaceId::from_u128(0xc7_1234);

    let mut store = vault(old_key);
    store.initialize_device(&expected_material).unwrap();
    let expected_user = store.initialize_user_identity().unwrap();
    initialize_owner_space(&mut store, &expected_material.identity, space, 3, 113);
    let bundle = store
        .export_recovery(b"serialized tables", &recovery_secret)
        .unwrap();

    let encoded = bundle.to_bytes();
    let decoded = RecoveryBundle::from_bytes(&encoded).unwrap();
    assert_eq!(decoded, bundle);
    let (recovered_key, tables) = decoded.recover(&recovery_secret).unwrap();
    assert_eq!(recovered_key.secret_bytes(), &[old_key; 32]);
    assert_eq!(tables, b"serialized tables");
    let mut restored = TrustStore::restore(store.into_rows(), recovered_key);
    restored
        .rotate_wrapping_key(WrappingKey::from_bytes([new_key; 32]))
        .unwrap();
    restored.accept_restored("ok").unwrap();

    let restored = reopened(restored, new_key);
    let material = restored.load_device().unwrap().unwrap();
    assert_eq!(material.identity.public_key(), expected_public_key);
    assert_eq!(material.certificate.pin(), expected_pin);
    assert_eq!(restored.user_identity().unwrap().unwrap(), expected_user);
    assert_eq!(
        restored
            .space_key(space, 3)
            .unwrap()
            .unwrap()
            .secret_bytes(),
        &[113; 32]
    );

    let wrong_key = reopened(restored, old_key);
    assert!(matches!(
        wrong_key.load_device(),
        Err(TrustError::ProtectedMaterial)
    ));
}

#[test]
fn recovery_authentication_tamper_and_no_clobber_fail_closed() {
    let secret = RecoverySecret::from_bytes([120; 32]);
    let mut store = vault(121);
    store.initialize_device(&material()).unwrap();
    let bundle = store.export_recovery(b"tables", &secret).unwrap();

    assert!(matches!(
        bundle.recover(&RecoverySecret::from_bytes([122; 32])),
        Err(TrustError::RecoveryAuthentication)
    ));

    let mut tampered = bundle.to_bytes();
    *tampered.last_mut().unwrap() ^= 1;
    let tampered = RecoveryBundle::from_bytes(&tampered).unwrap();
    assert!(matches!(
        tampered.recover(&secret),
        Err(TrustError::RecoveryAuthentication)
    ));
    assert!(matches!(
        tampered.verify(&secret),
        Err(TrustError::RecoveryAuthentication)
    ));
    bundle.verify(&secret).unwrap();
    assert!(matches!(
        vault(1).accept_restored("ok"),
        Err(TrustError::InvalidRecoveryBundle)
    ));
    assert!(matches!(
        store.accept_restored("row 1 missing"),
        Err(TrustError::InvalidRecoveryBundle)
    ));
}

#[test]
fn recovery_parser_rejects_unsupported_and_impossible_lengths() {
    let secret = RecoverySecret::from_bytes([1; 32]);
    let valid = vault(1).export_recovery(b"t", &secret).unwrap().to_bytes();
    let mut artifact = vec![0_u8; 41];
    artifact[..9].copy_from_slice(&valid[..9]);
    artifact[33..41].copy_from_slice(&u64::MAX.to_be_bytes());
    assert!(matches!(
        RecoveryBundle::from_bytes(&artifact),
        Err(TrustError::InvalidRecoveryBundle)
    ));
    artifact[8] += 1;
    assert!(matches!(
        RecoveryBundle::from_bytes(&artifact),
        Err(TrustError::InvalidRecoveryBundle)
    ));
    assert!(matches!(
        RecoveryBundle::from_bytes(&valid[..20]),
        Err(TrustError::InvalidRecoveryBundle)
    ));
}

#[test]
fn protected_device_material_survives_restart() {
    let expected = material();
    let expected_key = expected.identity.public_key();
    let expected_pin = expected.certificate.pin();
    let mut store = vault(9);
    store.initialize_device(&expected).unwrap();
    let store = reopened(store, 9);
    let restored = store.load_device().unwrap().unwrap();
    assert_eq!(restored.identity.public_key(), expected_key);
    assert_eq!(restored.certificate.pin(), expected_pin);
}

#[test]
fn space_access_is_durable_and_epochs_never_roll_back() {
    let owner = DeviceIdentity::from_secret_bytes(&[17; 32]);
    let member = DeviceIdentity::from_secret_bytes(&[18; 32]);
    let space = SpaceId::from_u128(44);
    let access = |epoch| SpaceAccess {
        authority: SpaceAuthority {
            space,
            issuer: owner.public_key(),
            epoch,
        },
        capability: Capability::issue(
            &owner,
            space,
            epoch,
            member.public_key(),
            Permission::ReadWrite,
            100,
            200,
        )
        .unwrap(),
    };
    let mut store = vault(19);
    store.store_space_access(&access(2)).unwrap();
    store.store_space_access(&access(3)).unwrap();
    assert!(matches!(
        store.store_space_access(&access(2)),
        Err(TrustError::AuthorityRollback {
            current: 3,
            proposed: 2
        })
    ));
    let store = reopened(store, 19);
    let restored = store.space_access(space).unwrap().unwrap();
    assert_eq!(restored.authority.epoch, 3);
    assert_eq!(restored.capability.subject(), member.public_key());
}

#[test]
fn mismatched_space_access_is_rejected() {
    let owner = DeviceIdentity::from_secret_bytes(&[20; 32]);
    let member = DeviceIdentity::from_secret_bytes(&[21; 32]);
    let capability = Capability::issue(
        &owner,
        SpaceId::from_u128(1),
        1,
        member.public_key(),
        Permission::ReadOnly,
        100,
        200,
    )
    .unwrap();
    let mut store = vault(9);
    assert!(matches!(
        store.store_space_access(&SpaceAccess {
            authority: SpaceAuthority {
                space: SpaceId::from_u128(2),
                issuer: owner.public_key(),
                epoch: 1,
            },
            capability,
        }),
        Err(TrustError::InconsistentCapability)
    ));
}

#[test]
fn space_keys_are_sealed_scoped_and_retained_across_rotation() {
    let space = SpaceId::from_u128(55);
    let mut store = vault(23);
    store
        .store_space_key(space, 1, &SpaceKey::from_bytes([1; 32]))
        .unwrap();
    store
        .store_space_key(space, 2, &SpaceKey::from_bytes([2; 32]))
        .unwrap();
    assert!(matches!(
        store.store_space_key(space, 2, &SpaceKey::from_bytes([3; 32])),
        Err(TrustError::SpaceKeyExists)
    ));
    let store = reopened(store, 23);
    assert_eq!(
        store.space_key(space, 1).unwrap().unwrap().secret_bytes(),
        &[1; 32]
    );
    assert_eq!(
        store.space_key(space, 2).unwrap().unwrap().secret_bytes(),
        &[2; 32]
    );
    assert!(store
        .space_key(SpaceId::from_u128(56), 1)
        .unwrap()
        .is_none());
}

#[test]
fn share_redemption_is_atomic_single_use_and_retry_safe() {
    let owner = DeviceIdentity::from_secret_bytes(&[50; 32]);
    let bob = DeviceIdentity::from_secret_bytes(&[51; 32]);
    let eve = DeviceIdentity::from_secret_bytes(&[52; 32]);
    let space = SpaceId::from_u128(70);
    let (invitation, _secret) = ShareInvitation::issue(
        &owner,
        space,
        2,
        &SpaceKey::from_bytes([53; 32]),
        Permission::ReadOnly,
        100,
        200,
    )
    .unwrap();
    let mut store = vault(54);
    initialize_owner_space(&mut store, &owner, space, 2, 53);
    store.record_share_invitation(&invitation).unwrap();
    let first = store
        .redeem_share_invitation(&invitation, &owner, bob.public_key(), 120)
        .unwrap();
    let retry = store
        .redeem_share_invitation(&invitation, &owner, bob.public_key(), 121)
        .unwrap();
    assert_eq!(retry, first);
    assert!(matches!(
        store.redeem_share_invitation(&invitation, &owner, eve.public_key(), 122),
        Err(TrustError::InvitationUnavailable)
    ));
    assert_eq!(store.space_members(space), vec![first]);
}

#[test]
fn expired_share_invitation_never_admits_membership() {
    let owner = DeviceIdentity::from_secret_bytes(&[55; 32]);
    let member = DeviceIdentity::from_secret_bytes(&[56; 32]);
    let space = SpaceId::from_u128(71);
    let (invitation, _secret) = ShareInvitation::issue(
        &owner,
        space,
        1,
        &SpaceKey::from_bytes([57; 32]),
        Permission::ReadWrite,
        100,
        110,
    )
    .unwrap();
    let mut store = vault(58);
    initialize_owner_space(&mut store, &owner, space, 1, 57);
    store.record_share_invitation(&invitation).unwrap();
    assert!(matches!(
        store.redeem_share_invitation(&invitation, &owner, member.public_key(), 110),
        Err(TrustError::InvitationUnavailable)
    ));
    assert!(store.space_members(space).is_empty());
}

#[test]
fn epoch_rotation_atomically_revokes_omitted_members_and_retains_history_keys() {
    let owner = DeviceIdentity::from_secret_bytes(&[60; 32]);
    let bob = DeviceIdentity::from_secret_bytes(&[61; 32]);
    let eve = DeviceIdentity::from_secret_bytes(&[62; 32]);
    let space = SpaceId::from_u128(72);
    let authority = |epoch| SpaceAuthority {
        space,
        issuer: owner.public_key(),
        epoch,
    };
    let grant = |epoch, subject| {
        Capability::issue(
            &owner,
            space,
            epoch,
            subject,
            Permission::ReadWrite,
            100,
            300,
        )
        .unwrap()
    };
    let local_one = SpaceAccess {
        authority: authority(1),
        capability: grant(1, owner.public_key()),
    };
    let bob_one = grant(1, bob.public_key());
    let eve_one = grant(1, eve.public_key());
    let mut store = vault(63);
    store
        .commit_space_epoch(
            &local_one,
            &SpaceKey::from_bytes([1; 32]),
            &[bob_one, eve_one.clone()],
            150,
        )
        .unwrap();

    let local_two = SpaceAccess {
        authority: authority(2),
        capability: grant(2, owner.public_key()),
    };
    let bob_two = grant(2, bob.public_key());
    store
        .commit_space_epoch(
            &local_two,
            &SpaceKey::from_bytes([2; 32]),
            std::slice::from_ref(&bob_two),
            160,
        )
        .unwrap();

    assert_eq!(store.space_members(space), vec![bob_two]);
    assert_eq!(
        eve_one.authorize(authority(2), eve.public_key(), Operation::Read, 170),
        Err(AuthorityError::StaleEpoch)
    );
    assert_eq!(
        store.space_key(space, 1).unwrap().unwrap().secret_bytes(),
        &[1; 32]
    );
    assert_eq!(
        store.space_key(space, 2).unwrap().unwrap().secret_bytes(),
        &[2; 32]
    );
    assert_eq!(store.space_access(space).unwrap().unwrap(), local_two);
}

#[test]
fn rotation_invalidates_unredeemed_old_epoch_invitations() {
    let owner = DeviceIdentity::from_secret_bytes(&[70; 32]);
    let member = DeviceIdentity::from_secret_bytes(&[71; 32]);
    let space = SpaceId::from_u128(73);
    let mut store = vault(72);
    initialize_owner_space(&mut store, &owner, space, 1, 1);
    let (invitation, _secret) = ShareInvitation::issue(
        &owner,
        space,
        1,
        &SpaceKey::from_bytes([1; 32]),
        Permission::ReadWrite,
        100,
        300,
    )
    .unwrap();
    store.record_share_invitation(&invitation).unwrap();

    let local = SpaceAccess {
        authority: SpaceAuthority {
            space,
            issuer: owner.public_key(),
            epoch: 2,
        },
        capability: Capability::issue(
            &owner,
            space,
            2,
            owner.public_key(),
            Permission::ReadWrite,
            100,
            300,
        )
        .unwrap(),
    };
    store
        .commit_space_epoch(&local, &SpaceKey::from_bytes([2; 32]), &[], 150)
        .unwrap();
    assert!(matches!(
        store.redeem_share_invitation(&invitation, &owner, member.public_key(), 160),
        Err(TrustError::InvitationUnavailable)
    ));
}

#[test]
fn owned_space_initialization_and_share_acceptance_are_complete_and_atomic() {
    let owner_material = device(80);
    let bob_material = device(81);
    let space = SpaceId::from_u128(74);
    let mut owner = vault(82);
    owner.initialize_device(&owner_material).unwrap();
    let owner_credentials = owner.initialize_owned_space(space, 100).unwrap();
    let (invitation, secret) = ShareInvitation::issue(
        &owner_material.identity,
        space,
        1,
        owner_credentials.key(),
        Permission::ReadWrite,
        100,
        200,
    )
    .unwrap();
    owner.record_share_invitation(&invitation).unwrap();
    let bob_capability = owner
        .redeem_share_invitation(
            &invitation,
            &owner_material.identity,
            bob_material.identity.public_key(),
            120,
        )
        .unwrap();
    let bob_key = invitation
        .open(owner_credentials.authority(), &secret, 120)
        .unwrap();
    let bob_access = SpaceAccess {
        authority: owner_credentials.authority(),
        capability: bob_capability,
    };
    let owner_peer = PeerRecord {
        public_key: owner_material.identity.public_key(),
        certificate_der: owner_material.certificate.certificate_der().to_vec(),
        paired_at: 120,
    };

    let mut bob = vault(83);
    bob.initialize_device(&bob_material).unwrap();
    bob.accept_shared_space(&owner_peer, &bob_access, &bob_key, 120)
        .unwrap();
    let loaded = bob.space_credentials(space).unwrap().unwrap();
    assert_eq!(loaded.authority(), owner_credentials.authority());
    assert_eq!(loaded.capability(), &bob_access.capability);
    assert_eq!(
        loaded.key().secret_bytes(),
        owner_credentials.key().secret_bytes()
    );
    assert_eq!(bob.peer(owner_peer.public_key).unwrap(), Some(owner_peer));
}

#[test]
fn linked_user_chain_installs_restarts_removes_and_rejects_forks_atomically() {
    let alice_material = device(100);
    let bob_material = device(101);
    let mut alice = vault(102);
    alice.initialize_device(&alice_material).unwrap();
    let mut user = alice.initialize_user_identity().unwrap();
    let linked = user
        .link_device(&alice_material.identity, bob_material.identity.public_key())
        .unwrap();
    user = alice.apply_user_event(&linked).unwrap();

    let mut bob = vault(103);
    bob.initialize_device(&bob_material).unwrap();
    bob.install_user_identity(&user).unwrap();
    let mut bob = reopened(bob, 103);
    assert_eq!(bob.user_identity().unwrap().unwrap(), user);

    let before_removal = bob.user_identity().unwrap().unwrap();
    let removal = before_removal
        .remove_device(&bob_material.identity, alice_material.identity.public_key())
        .unwrap();
    let competing = before_removal
        .link_device(
            &bob_material.identity,
            DeviceIdentity::from_secret_bytes(&[104; 32]).public_key(),
        )
        .unwrap();
    let after_removal = bob.apply_user_event(&removal).unwrap();
    assert!(matches!(
        bob.apply_user_event(&competing),
        Err(TrustError::UserIdentity(UserIdentityError::Fork))
    ));
    assert_eq!(bob.user_identity().unwrap().unwrap(), after_removal);

    let alice_after = alice.apply_user_event(&removal).unwrap();
    assert_eq!(alice_after, after_removal);
    assert!(matches!(
        alice_after.link_device(
            &alice_material.identity,
            DeviceIdentity::from_secret_bytes(&[105; 32]).public_key(),
        ),
        Err(UserIdentityError::UnauthorizedActor)
    ));
}

#[test]
fn a_wrong_wrapping_key_fails_closed() {
    let mut store = vault(9);
    store.initialize_device(&material()).unwrap();
    let store = reopened(store, 8);
    assert!(matches!(
        store.load_device(),
        Err(TrustError::ProtectedMaterial)
    ));
}

#[test]
fn invitation_redemption_and_peer_admission_are_atomic_and_single_use() {
    let mut store = vault(9);
    let peer = PeerRecord {
        public_key: DeviceIdentity::from_secret_bytes(&[4; 32]).public_key(),
        certificate_der: vec![1, 2, 3],
        paired_at: 101,
    };
    store.record_invitation([5; 16], 110).unwrap();
    store.redeem_invitation([5; 16], 101, &peer).unwrap();
    assert_eq!(store.peer(peer.public_key).unwrap(), Some(peer.clone()));
    assert!(matches!(
        store.redeem_invitation([5; 16], 102, &peer),
        Err(TrustError::InvitationUnavailable)
    ));
}

#[test]
fn expired_invitation_does_not_admit_a_peer() {
    let mut store = vault(9);
    let peer = PeerRecord {
        public_key: DeviceIdentity::from_secret_bytes(&[4; 32]).public_key(),
        certificate_der: vec![1, 2, 3],
        paired_at: 111,
    };
    store.record_invitation([5; 16], 110).unwrap();
    assert!(matches!(
        store.redeem_invitation([5; 16], 111, &peer),
        Err(TrustError::InvitationUnavailable)
    ));
    assert_eq!(store.peer(peer.public_key).unwrap(), None);
}

#[test]
fn pairing_binds_the_certificate_admitted_to_the_vault() {
    let alice = material();
    let bob = device(8);
    let code = PairingCode::parse("C7YR-3N3K").unwrap();
    let (inviter, offer) = Inviter::start(
        &alice.identity,
        &code,
        alice.certificate.certificate_der(),
        100,
        60,
    )
    .unwrap();
    let (joiner, answer) = Joiner::start(
        &bob.identity,
        &code,
        bob.certificate.certificate_der(),
        &offer,
        101,
    )
    .unwrap();
    let (alice_peer, acknowledgement) = inviter.finish(&answer, 102).unwrap();
    let bob_peer = joiner.finish(&acknowledgement).unwrap();

    let mut alice_store = vault(1);
    alice_store
        .record_invitation(offer.invitation_id(), offer.expires_at())
        .unwrap();
    let peer = PeerRecord::from_pairing(&alice_peer, 102);
    alice_store
        .redeem_invitation(offer.invitation_id(), 102, &peer)
        .unwrap();
    let admitted = alice_store
        .peer(bob.identity.public_key())
        .unwrap()
        .unwrap();

    assert_eq!(admitted.certificate_pin(), bob.certificate.pin());
    assert_eq!(
        bob_peer.transport_binding(),
        alice.certificate.certificate_der()
    );
}

#[test]
fn linked_spaces_are_durable_deduplicated_and_peer_scoped() {
    let peer = PeerRecord {
        public_key: DeviceIdentity::from_secret_bytes(&[4; 32]).public_key(),
        certificate_der: vec![1, 2, 3],
        paired_at: 101,
    };
    let first = SpaceId::from_u128(1);
    let second = SpaceId::from_u128(2);
    let mut store = vault(9);
    store
        .admit_peer_with_spaces(&peer, &[second, first, first])
        .unwrap();
    let store = reopened(store, 9);
    assert_eq!(store.peer_spaces(peer.public_key), vec![first, second]);
    assert!(store
        .peer_spaces(DeviceIdentity::from_secret_bytes(&[5; 32]).public_key())
        .is_empty());
}

#[test]
fn rotating_an_owned_space_keeps_unrevoked_members() {
    let owner_material = device(130);
    let bob = DeviceIdentity::from_secret_bytes(&[131; 32]);
    let eve = DeviceIdentity::from_secret_bytes(&[132; 32]);
    let space = SpaceId::from_u128(75);
    let mut store = vault(133);
    store.initialize_device(&owner_material).unwrap();
    let first = store.initialize_owned_space(space, 100).unwrap();
    assert!(matches!(
        store.initialize_owned_space(space, 101),
        Err(TrustError::SpaceAlreadyInitialized)
    ));
    for (member, permission) in [(&bob, Permission::ReadOnly), (&eve, Permission::ReadWrite)] {
        let (invitation, _) = ShareInvitation::issue(
            &owner_material.identity,
            space,
            1,
            first.key(),
            permission,
            100,
            200,
        )
        .unwrap();
        store.record_share_invitation(&invitation).unwrap();
        store
            .redeem_share_invitation(
                &invitation,
                &owner_material.identity,
                member.public_key(),
                120,
            )
            .unwrap();
    }
    assert_eq!(store.space_members(space).len(), 2);
    let second = store
        .rotate_owned_space(space, &[eve.public_key()], 130)
        .unwrap();
    assert_eq!(second.authority().epoch, 2);
    assert_ne!(second.key().secret_bytes(), first.key().secret_bytes());
    let kept = store.space_member(space, bob.public_key()).unwrap();
    assert_eq!(kept.permission(), Permission::ReadOnly);
    assert_eq!(kept.epoch(), 2);
    assert!(store.space_member(space, eve.public_key()).is_none());
    assert_eq!(
        store.space_key(space, 1).unwrap().unwrap().secret_bytes(),
        first.key().secret_bytes()
    );
}

#[test]
fn delivered_epochs_come_from_the_issuer_and_advance() {
    let owner_material = device(140);
    let bob_material = device(141);
    let space = SpaceId::from_u128(76);
    let mut owner = vault(142);
    owner.initialize_device(&owner_material).unwrap();
    let credentials = owner.initialize_owned_space(space, 100).unwrap();
    let peer = PeerRecord {
        public_key: owner_material.identity.public_key(),
        certificate_der: vec![1],
        paired_at: 100,
    };
    let grant = |epoch| SpaceAccess {
        authority: SpaceAuthority {
            space,
            issuer: owner_material.identity.public_key(),
            epoch,
        },
        capability: Capability::issue(
            &owner_material.identity,
            space,
            epoch,
            bob_material.identity.public_key(),
            Permission::ReadWrite,
            100,
            u64::MAX,
        )
        .unwrap(),
    };
    let mut bob = vault(143);
    assert!(matches!(
        bob.accept_shared_space(&peer, &grant(1), credentials.key(), 120),
        Err(TrustError::DeviceNotInitialized)
    ));
    bob.initialize_device(&bob_material).unwrap();
    assert!(matches!(
        bob.accept_space_epoch(&peer, &grant(2), &SpaceKey::from_bytes([2; 32]), 120),
        Err(TrustError::InconsistentCapability)
    ));
    bob.accept_shared_space(&peer, &grant(1), credentials.key(), 120)
        .unwrap();
    bob.accept_space_epoch(&peer, &grant(2), &SpaceKey::from_bytes([2; 32]), 121)
        .unwrap();
    assert!(matches!(
        bob.accept_space_epoch(&peer, &grant(2), &SpaceKey::from_bytes([3; 32]), 122),
        Err(TrustError::SharePrincipalMismatch)
    ));
    assert_eq!(
        bob.space_credentials(space)
            .unwrap()
            .unwrap()
            .key()
            .secret_bytes(),
        &[2; 32]
    );
    assert!(matches!(
        bob.rotate_owned_space(space, &[], 130),
        Err(TrustError::SharePrincipalMismatch)
    ));
}

#[test]
fn repeated_members_are_refused_as_a_whole() {
    let owner = DeviceIdentity::from_secret_bytes(&[150; 32]);
    let space = SpaceId::from_u128(77);
    let grant = || {
        Capability::issue(
            &owner,
            space,
            1,
            owner.public_key(),
            Permission::ReadWrite,
            0,
            u64::MAX,
        )
        .unwrap()
    };
    let local = SpaceAccess {
        authority: SpaceAuthority {
            space,
            issuer: owner.public_key(),
            epoch: 1,
        },
        capability: grant(),
    };
    let mut store = vault(151);
    assert!(matches!(
        store.commit_space_epoch(
            &local,
            &SpaceKey::from_bytes([1; 32]),
            &[grant(), grant()],
            100
        ),
        Err(TrustError::Storage(_))
    ));
    assert!(store.space_access(space).unwrap().is_none());
    assert!(store.space_key(space, 1).unwrap().is_none());
    let expired = SpaceAccess {
        authority: local.authority,
        capability: Capability::issue(
            &owner,
            space,
            1,
            owner.public_key(),
            Permission::ReadWrite,
            0,
            50,
        )
        .unwrap(),
    };
    assert!(matches!(
        store.commit_space_epoch(&expired, &SpaceKey::from_bytes([1; 32]), &[], 100),
        Err(TrustError::Authority(reason)) if reason == "the capability has expired"
    ));
}

#[test]
fn numbers_that_do_not_fit_are_refused() {
    let mut store = vault(1);
    let peer = PeerRecord {
        public_key: DeviceIdentity::from_secret_bytes(&[4; 32]).public_key(),
        certificate_der: vec![1],
        paired_at: u64::MAX,
    };
    assert!(matches!(
        store.admit_peer(&peer),
        Err(TrustError::ProtectedMaterial)
    ));
    assert!(matches!(
        store.record_invitation([1; 16], u64::MAX),
        Err(TrustError::ProtectedMaterial)
    ));
    assert!(matches!(
        store.store_space_key(SpaceId::from_u128(1), u64::MAX, &SpaceKey::from_bytes([1; 32])),
        Err(TrustError::ProtectedMaterial)
    ));
    assert!(store.peers().unwrap().is_empty());
}

#[test]
fn devices_are_initialized_once() {
    let mut store = vault(2);
    store.initialize_device(&material()).unwrap();
    assert!(matches!(
        store.initialize_device(&material()),
        Err(TrustError::AlreadyInitialized)
    ));
    store.record_invitation([1; 16], 10).unwrap();
    assert!(matches!(
        store.record_invitation([1; 16], 10),
        Err(TrustError::Storage(_))
    ));
}

#[test]
fn user_histories_are_imported_once_and_forks_refused() {
    let alice_material = device(160);
    let mut alice = vault(161);
    assert!(matches!(
        alice.initialize_user_identity(),
        Err(TrustError::DeviceNotInitialized)
    ));
    alice.initialize_device(&alice_material).unwrap();
    let first = UserIdentity::found(&alice_material.identity, [1; 16]).unwrap();
    let other = UserIdentity::found(&alice_material.identity, [2; 16]).unwrap();
    assert_eq!(alice.import_user_identity(&first).unwrap(), first);
    assert_eq!(alice.import_user_identity(&first).unwrap(), first);
    assert!(matches!(
        alice.import_user_identity(&other),
        Err(TrustError::UserIdentity(UserIdentityError::Fork))
    ));
    assert!(matches!(
        alice.install_user_identity(&first),
        Err(TrustError::UserAlreadyInitialized)
    ));
    let mut longer = first.clone();
    longer
        .apply(
            first
                .link_device(
                    &alice_material.identity,
                    DeviceIdentity::from_secret_bytes(&[162; 32]).public_key(),
                )
                .unwrap(),
        )
        .unwrap();
    assert_eq!(alice.import_user_identity(&longer).unwrap(), longer);
    assert!(matches!(
        alice.import_user_identity(&first),
        Err(TrustError::UserIdentity(UserIdentityError::Fork))
    ));
    let mut stranger = vault(163);
    stranger.initialize_device(&device(164)).unwrap();
    assert!(matches!(
        stranger.install_user_identity(&first),
        Err(TrustError::SharePrincipalMismatch)
    ));
    assert!(matches!(
        stranger.apply_user_event(&first.events()[0]),
        Err(TrustError::UserIdentity(UserIdentityError::MissingGenesis))
    ));
}

#[test]
fn changed_offers_and_unknown_invitations_are_refused() {
    let owner = DeviceIdentity::from_secret_bytes(&[170; 32]);
    let bob = DeviceIdentity::from_secret_bytes(&[171; 32]);
    let space = SpaceId::from_u128(78);
    let key = SpaceKey::from_bytes([1; 32]);
    let issue = || {
        ShareInvitation::issue(&owner, space, 1, &key, Permission::ReadOnly, 100, 200).unwrap()
    };
    let mut store = vault(172);
    let (recorded, _) = issue();
    assert!(matches!(
        store.record_share_invitation(&recorded),
        Err(TrustError::InvitationUnavailable)
    ));
    initialize_owner_space(&mut store, &owner, space, 1, 1);
    store.record_share_invitation(&recorded).unwrap();
    assert!(matches!(
        store.record_share_invitation(&recorded),
        Err(TrustError::Storage(_))
    ));
    let (unknown, _) = issue();
    assert!(matches!(
        store.redeem_share_invitation(&unknown, &owner, bob.public_key(), 120),
        Err(TrustError::InvitationUnavailable)
    ));
    let mut changed = unknown.clone();
    changed.id = recorded.id;
    let capability = recorded.grant(&owner, bob.public_key(), 120).unwrap();
    assert!(matches!(
        store.commit_redemption(&changed, bob.public_key(), None, &capability, 120),
        Err(TrustError::InvitationUnavailable)
    ));
    let peer = PeerRecord {
        public_key: bob.public_key(),
        certificate_der: vec![9],
        paired_at: 120,
    };
    let granted = store
        .redeem_share_invitation_with_peer(&recorded, &owner, &peer, 120)
        .unwrap();
    assert_eq!(granted.permission(), Permission::ReadOnly);
    assert_eq!(store.peer_spaces(bob.public_key()), vec![space]);
}

#[test]
fn sealed_bytes_are_bound_to_their_context() {
    let key = WrappingKey::from_bytes([5; 32]);
    let sealed = seal_with(&key, b"context", b"secret", [6; 24]).unwrap();
    assert_eq!(&sealed[..24], &[6; 24]);
    assert_eq!(sealed.len(), 24 + 6 + 16);
    assert_eq!(unseal(&key, b"context", &sealed).unwrap(), b"secret");
    assert!(unseal(&key, b"other", &sealed).is_err());
    assert!(unseal(&key, b"context", &sealed[..10]).is_err());
}

#[test]
fn vault_versions_are_kept_upgraded_or_refused() {
    assert_eq!(check_vault_version(None).unwrap(), VersionStep::Record);
    assert_eq!(check_vault_version(Some(6)).unwrap(), VersionStep::Keep);
    assert_eq!(check_vault_version(Some(3)).unwrap(), VersionStep::Upgrade);
    assert!(matches!(
        check_vault_version(Some(7)),
        Err(TrustError::UnsupportedVersion {
            found: 7,
            expected: 6
        })
    ));
}

#[test]
fn credentials_need_a_matching_capability() {
    let owner = DeviceIdentity::from_secret_bytes(&[180; 32]);
    let capability = Capability::issue(
        &owner,
        SpaceId::from_u128(1),
        1,
        owner.public_key(),
        Permission::ReadWrite,
        0,
        10,
    )
    .unwrap();
    let access = SpaceAccess {
        authority: SpaceAuthority {
            space: SpaceId::from_u128(1),
            issuer: owner.public_key(),
            epoch: 2,
        },
        capability,
    };
    assert!(matches!(
        SpaceCredentials::new(access, SpaceKey::from_bytes([1; 32])),
        Err(TrustError::InconsistentCapability)
    ));
}

#[test]
fn vault_secrets_are_what_was_drawn() {
    let key = WrappingKey::from_draw(Some([8; 32])).unwrap();
    assert_eq!(key.secret_bytes(), &[8; 32]);
    assert!(matches!(
        WrappingKey::from_draw(None),
        Err(TrustError::Randomness)
    ));
    let secret = RecoverySecret::from_draw(Some([9; 32])).unwrap();
    assert_eq!(secret.secret_bytes(), &[9; 32]);
    assert!(matches!(
        RecoverySecret::from_draw(None),
        Err(TrustError::Randomness)
    ));
}

#[test]
fn an_epoch_is_committed_with_the_nonce_that_was_drawn() {
    let owner = DeviceIdentity::from_secret_bytes(&[5; 32]);
    let space = SpaceId::from_u128(90);
    let local = SpaceAccess {
        authority: SpaceAuthority {
            space,
            issuer: owner.public_key(),
            epoch: 1,
        },
        capability: Capability::sign(
            &owner,
            space,
            1,
            owner.public_key(),
            Permission::ReadWrite,
            100,
            u64::MAX,
            [6; 16],
        ),
    };
    let key = SpaceKey::from_bytes([7; 32]);
    let mut store = vault(91);
    assert!(matches!(
        store.commit_drawn_epoch(&local, &key, &[], None, 99),
        Err(TrustError::Authority(_))
    ));
    assert!(matches!(
        store.commit_drawn_epoch(&local, &key, &[], None, 100),
        Err(TrustError::Randomness)
    ));
    assert!(store.space_access(space).unwrap().is_none());
    store
        .commit_drawn_epoch(&local, &key, &[], Some([8; 24]), 100)
        .unwrap();
    assert_eq!(store.space_access(space).unwrap().unwrap(), local);
    assert_eq!(
        store.space_key(space, 1).unwrap().unwrap().secret_bytes(),
        &[7; 32]
    );
    assert!(matches!(
        store.commit_drawn_epoch(&local, &key, &[], Some([8; 24]), 100),
        Err(TrustError::AuthorityRollback {
            current: 1,
            proposed: 1
        })
    ));
}

#[test]
fn grants_that_are_not_revoked_are_renewed() {
    let owner = DeviceIdentity::from_secret_bytes(&[5; 32]);
    let bob = DeviceIdentity::from_secret_bytes(&[6; 32]);
    let eve = DeviceIdentity::from_secret_bytes(&[7; 32]);
    let space = SpaceId::from_u128(92);
    let grant = |subject: &DeviceIdentity, permission: Permission, epoch: u64, nonce: u8| {
        Capability::sign(
            &owner,
            space,
            epoch,
            subject.public_key(),
            permission,
            100,
            u64::MAX,
            [nonce; 16],
        )
    };
    let former = [
        grant(&bob, Permission::ReadOnly, 1, 1),
        grant(&eve, Permission::ReadWrite, 1, 2),
    ];
    let retained = retained_grants(&former, &[eve.public_key()]);
    assert_eq!(retained, vec![former[0].clone()]);
    assert_eq!(retained_grants(&former, &[]), former.to_vec());
    assert_eq!(
        renewed_grants(&owner, space, 2, &retained, &[[3; 16]], 100),
        vec![grant(&bob, Permission::ReadOnly, 2, 3)]
    );
}

#[test]
fn no_epoch_begins_at_the_end_of_time() {
    let mut store = vault(93);
    store.initialize_device(&device(94)).unwrap();
    let space = SpaceId::from_u128(95);
    assert!(matches!(
        store.initialize_owned_space(space, u64::MAX),
        Err(TrustError::Authority(message)) if message
            == "capability expiry must be later than its start"
    ));
    store.initialize_owned_space(space, 100).unwrap();
    assert!(matches!(
        store.rotate_owned_space(space, &[], u64::MAX),
        Err(TrustError::Authority(message)) if message
            == "capability expiry must be later than its start"
    ));
    assert!(matches!(
        store.initialize_owned_space(space, 100),
        Err(TrustError::SpaceAlreadyInitialized)
    ));
}

#[test]
fn a_content_key_is_stored_with_the_nonce_that_was_drawn() {
    let space = SpaceId::from_u128(96);
    let key = SpaceKey::from_bytes([7; 32]);
    let largest = 9_223_372_036_854_775_807u64;
    let mut store = vault(97);
    assert!(matches!(
        store.store_drawn_key(space, largest + 1, &key, None),
        Err(TrustError::Randomness)
    ));
    assert!(store
        .store_drawn_key(space, largest + 1, &key, Some([1; 24]))
        .is_err());
    assert_eq!(store.rows().keys.len(), 0);
    store
        .store_drawn_key(space, 3, &key, Some([1; 24]))
        .unwrap();
    let sealed = store.rows().keys.get(&(space, 3)).unwrap();
    assert_eq!(&sealed[..24], &[1; 24]);
    assert_eq!(sealed.len(), 24 + 32 + 16);
    assert_eq!(
        store.space_key(space, 3).unwrap().unwrap().secret_bytes(),
        &[7; 32]
    );
    assert!(matches!(
        store.store_drawn_key(space, 3, &key, Some([2; 24])),
        Err(TrustError::SpaceKeyExists)
    ));
}

#[test]
fn device_credentials_are_stored_with_the_nonce_that_was_drawn() {
    let credentials = material();
    let mut store = vault(98);
    assert!(matches!(
        store.initialize_drawn_device(&credentials, None),
        Err(TrustError::Randomness)
    ));
    assert!(store.load_device().unwrap().is_none());
    store
        .initialize_drawn_device(&credentials, Some([4; 24]))
        .unwrap();
    let row = store.rows().device.as_ref().unwrap();
    assert_eq!(&row.sealed[..24], &[4; 24]);
    assert_eq!(
        store.load_device().unwrap().unwrap().identity.public_key(),
        credentials.identity.public_key()
    );
    assert!(matches!(
        store.initialize_drawn_device(&credentials, None),
        Err(TrustError::AlreadyInitialized)
    ));
}

#[test]
fn a_space_and_its_next_epoch_are_accepted_with_the_nonces_that_were_drawn() {
    let owner = device(70);
    let member = device(71);
    let space = SpaceId::from_u128(72);
    let access = |epoch: u64| SpaceAccess {
        authority: SpaceAuthority {
            space,
            issuer: owner.identity.public_key(),
            epoch,
        },
        capability: Capability::sign(
            &owner.identity,
            space,
            epoch,
            member.identity.public_key(),
            Permission::ReadOnly,
            100,
            u64::MAX,
            [9; 16],
        ),
    };
    let peer = PeerRecord {
        public_key: owner.identity.public_key(),
        certificate_der: owner.certificate.certificate_der().to_vec(),
        paired_at: 100,
    };
    let key = SpaceKey::from_bytes([1; 32]);
    let next = SpaceKey::from_bytes([2; 32]);
    let mut store = vault(73);
    store.initialize_device(&member).unwrap();
    assert!(matches!(
        store.accept_drawn_delivery(&peer, &access(1), &key, None, 100),
        Err(TrustError::InconsistentCapability)
    ));
    assert!(matches!(
        store.accept_drawn_space(&peer, &access(1), &key, None, 100),
        Err(TrustError::Randomness)
    ));
    assert!(store.space_access(space).unwrap().is_none());
    store
        .accept_drawn_space(&peer, &access(1), &key, Some([5; 24]), 100)
        .unwrap();
    assert_eq!(&store.rows().keys.get(&(space, 1)).unwrap()[..24], &[5; 24]);
    assert!(matches!(
        store.accept_drawn_space(&peer, &access(1), &key, None, 100),
        Err(TrustError::SpaceAlreadyInitialized)
    ));
    assert!(matches!(
        store.accept_drawn_delivery(&peer, &access(2), &next, None, 100),
        Err(TrustError::Randomness)
    ));
    store
        .accept_drawn_delivery(&peer, &access(2), &next, Some([6; 24]), 100)
        .unwrap();
    assert_eq!(&store.rows().keys.get(&(space, 2)).unwrap()[..24], &[6; 24]);
    assert_eq!(
        store.space_key(space, 2).unwrap().unwrap().secret_bytes(),
        &[2; 32]
    );
    assert!(matches!(
        store.accept_drawn_delivery(&peer, &access(2), &next, None, 100),
        Err(TrustError::SharePrincipalMismatch)
    ));
}

#[test]
fn secrets_are_sealed_again_with_the_nonces_that_were_drawn() {
    let space = SpaceId::from_u128(74);
    let new_key = || WrappingKey::from_bytes([76; 32]);
    let mut empty = vault(75);
    empty.reseal_all(new_key(), None, &[]).unwrap();
    vault(75).rotate_wrapping_key(new_key()).unwrap();

    let mut store = vault(75);
    store.initialize_device(&material()).unwrap();
    store
        .store_space_key(space, 2, &SpaceKey::from_bytes([2; 32]))
        .unwrap();
    store
        .store_space_key(space, 1, &SpaceKey::from_bytes([1; 32]))
        .unwrap();
    assert!(matches!(
        store.reseal_all(new_key(), None, &[Some([1; 24]), Some([2; 24])]),
        Err(TrustError::Randomness)
    ));
    assert!(matches!(
        store.reseal_all(new_key(), Some([3; 24]), &[Some([1; 24]), None]),
        Err(TrustError::Randomness)
    ));
    assert_eq!(
        store.space_key(space, 2).unwrap().unwrap().secret_bytes(),
        &[2; 32]
    );
    store
        .reseal_all(new_key(), Some([3; 24]), &[Some([1; 24]), Some([2; 24])])
        .unwrap();
    assert_eq!(&store.rows().device.as_ref().unwrap().sealed[..24], &[3; 24]);
    assert_eq!(&store.rows().keys.get(&(space, 1)).unwrap()[..24], &[1; 24]);
    assert_eq!(&store.rows().keys.get(&(space, 2)).unwrap()[..24], &[2; 24]);
    let mut store = reopened(store, 76);
    assert_eq!(
        store.space_key(space, 1).unwrap().unwrap().secret_bytes(),
        &[1; 32]
    );
    assert!(store.load_device().unwrap().is_some());
    store.rotate_wrapping_key(WrappingKey::from_bytes([77; 32])).unwrap();

    let mut wrong = reopened(store, 78);
    assert!(matches!(
        wrong.reseal_all(new_key(), None, &[None, None]),
        Err(TrustError::ProtectedMaterial)
    ));
    assert!(matches!(
        wrong.rotate_wrapping_key(new_key()),
        Err(TrustError::ProtectedMaterial)
    ));
}
