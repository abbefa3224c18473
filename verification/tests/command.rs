use cyrene::authority::{InvitationSecret, Permission, ShareInvitation, SpaceKey};
use cyrene::command::encoding::{
    decode_bounded, encode_bounded, message_frame, message_length, EncodingError,
};
use cyrene::command::inspection::{full_hex, last_authored, render_inspection, LocalStatus};
use cyrene::command::pairing::{
    admit_inviter, admit_joiner, discovery_seconds, pairing_frame, pairing_length,
    pairing_lifetime, PairRefusal, Sightings,
};
use cyrene::command::recovery::{
    decode_secret, encode_secret, read_wrapping_key, secret_from, SecretError,
};
use cyrene::command::report::{backup_text, compaction_text, join, peer_line, peers_text};
use cyrene::command::sharing::{
    check_revoked, claim_base, decide_claim, decode_token, encode_token, finish_drawn_join, finish_join,
    issue_invitation, make_claim, remaining_seconds, retained_members, retention_seconds,
    sharing_frame, sharing_length, sign_token, start_join, token_transcript, validate_claim,
    validate_token, ClaimStep, ShareClaim, ShareError, ShareGrant, ShareRefusal, ShareToken,
};
use cyrene::command::user::{
    decode_bundle, encode_bundle, import_bundle, parse_public_key, require_user,
    update_membership, KeyTextError, UserCommandError,
};
use cyrene::id::{DocumentId, ReplicaId, SpaceId};
use cyrene::identity::{
    DeviceIdentity, Inviter, Joiner, PairingCode, UserIdentity, UserIdentityError,
};
use cyrene::net::{CertificatePin, DiscoveredPeer, IpAddress, PeerAddress, QuicCertificate};
use cyrene::store::{BackupReport, CompactionReport};
use cyrene::sync::{Change, ChangeId, Operation, Timestamp};
use cyrene::trust::{DeviceMaterial, PeerRecord, RecoverySecret, TrustError, TrustStore, WrappingKey};

#[test]
fn full_hex_preserves_leading_zeroes() {
    assert_eq!(full_hex(&[0, 1, 254, 255]), "0001feff");
}

#[test]
fn recovery_secret_encoding_is_exact_and_url_safe() {
    let secret = RecoverySecret::from_bytes([0xff; 32]);
    let encoded = encode_secret(&secret);
    assert_eq!(encoded, "_".repeat(42) + "8");
    assert_eq!(decode_secret(&encoded).unwrap().secret_bytes(), &[0xff; 32]);
    assert!(decode_secret("not a secret").is_err());
    assert!(decode_secret(&encode_bounded(&[1; 31], 64).unwrap()).is_err());
    assert_eq!(secret_from(&[1; 31]).err(), Some(SecretError::WrongLength(31)));
}

fn bytes(value: &serde_json::Value) -> Vec<u8> {
    value
        .as_array()
        .unwrap()
        .iter()
        .map(|byte| byte.as_u64().unwrap() as u8)
        .collect()
}

fn token_json(token: &ShareToken) -> Vec<u8> {
    format!(
        "{{\"version\":{},\"address\":\"{}\",\"invitation\":{},\"secret\":{},\"owner_certificate\":{},\"transport_signature\":{}}}",
        token.version,
        token.address,
        token.invitation.to_json(),
        serde_json::to_string(&token.secret).unwrap(),
        serde_json::to_string(&token.owner_certificate).unwrap(),
        serde_json::to_string(&token.transport_signature).unwrap(),
    )
    .into_bytes()
}

#[test]
fn token_round_trip_preserves_secret_and_transport_binding() {
    let owner = DeviceIdentity::from_secret_bytes(&[90; 32]);
    let certificate = QuicCertificate::generate().unwrap();
    let (invitation, secret) = ShareInvitation::issue(
        &owner,
        SpaceId::from_u128(91),
        1,
        &SpaceKey::from_bytes([92; 32]),
        Permission::ReadOnly,
        100,
        200,
    )
    .unwrap();
    let address = "127.0.0.1:4040";
    let transcript = token_transcript(address, &invitation, certificate.certificate_der());
    let token = ShareToken {
        version: 1,
        address: address.to_owned(),
        invitation: invitation.clone(),
        secret: *secret.secret_bytes(),
        owner_certificate: certificate.certificate_der().to_vec(),
        transport_signature: owner.sign(b"cyrene/share-token/1", &transcript).to_vec(),
    };
    let decoded = decode_token(&encode_token(&token_json(&token)).unwrap()).unwrap();
    let value: serde_json::Value = serde_json::from_slice(&decoded).unwrap();
    let decoded = ShareToken {
        version: value["version"].as_u64().unwrap() as u8,
        address: value["address"].as_str().unwrap().to_owned(),
        invitation,
        secret: bytes(&value["secret"]).try_into().unwrap(),
        owner_certificate: bytes(&value["owner_certificate"]),
        transport_signature: bytes(&value["transport_signature"]),
    };
    validate_token(&decoded).unwrap();
    assert_eq!(decoded.secret, token.secret);
    assert_eq!(decoded, token);
}

#[test]
fn claim_requires_both_bearer_secret_and_device_signature() {
    let recipient = DeviceIdentity::from_secret_bytes(&[93; 32]);
    let certificate = QuicCertificate::generate().unwrap();
    let owner = DeviceIdentity::from_secret_bytes(&[94; 32]);
    let (invitation, secret) = ShareInvitation::issue(
        &owner,
        SpaceId::from_u128(95),
        1,
        &SpaceKey::from_bytes([96; 32]),
        Permission::ReadWrite,
        100,
        200,
    )
    .unwrap();
    let base = claim_base(
        invitation.id(),
        recipient.public_key(),
        certificate.certificate_der(),
    );
    let proof = *blake3::keyed_hash(secret.secret_bytes(), &base).as_bytes();
    let mut signed = base;
    signed.extend_from_slice(&proof);
    let mut claim = ShareClaim {
        version: 1,
        invitation_id: invitation.id(),
        public_key: recipient.public_key(),
        certificate_der: certificate.certificate_der().to_vec(),
        secret_proof: proof,
        signature: recipient.sign(b"cyrene/share-claim/1", &signed).to_vec(),
    };
    validate_claim(&claim, &invitation, &secret, 150).unwrap();
    assert!(validate_claim(
        &claim,
        &invitation,
        &InvitationSecret::from_bytes([1; 32]),
        150
    )
    .is_err());
    assert_eq!(
        make_claim(
            &recipient,
            invitation.id(),
            &secret,
            certificate.certificate_der()
        ),
        claim
    );
    claim.signature[0] ^= 1;
    assert_eq!(
        validate_claim(&claim, &invitation, &secret, 150).err(),
        Some(ShareError::Refused(ShareRefusal::NoDeviceProof))
    );
    claim.invitation_id = [0; 16];
    assert_eq!(
        validate_claim(&claim, &invitation, &secret, 150).err(),
        Some(ShareError::Refused(ShareRefusal::OtherInvitation))
    );
}

#[test]
fn public_bundle_round_trips_through_verification() {
    let device = DeviceIdentity::from_secret_bytes(&[110; 32]);
    let identity = UserIdentity::create(&device).unwrap();
    let event = &identity.events()[0];
    let encoded = format!(
        "{{\"version\":1,\"digest\":{}}}",
        serde_json::to_string(&event.digest()).unwrap()
    );
    let decoded = decode_bundle(&encode_bundle(encoded.as_bytes()).unwrap()).unwrap();
    assert_eq!(decoded, encoded.as_bytes());
    assert_eq!(
        UserIdentity::from_events(identity.events().to_vec()).unwrap(),
        identity
    );
    let mut vault = vault(1);
    vault.initialize_device(&material(110)).unwrap();
    assert_eq!(
        import_bundle(&mut vault, 1, identity.events().to_vec()).unwrap(),
        identity
    );
    assert_eq!(require_user(&vault).unwrap(), identity);
    assert_eq!(
        import_bundle(&mut vault, 2, Vec::new()).err(),
        Some(UserCommandError::UnsupportedBundle)
    );
    assert_eq!(
        import_bundle(&mut vault, 1, Vec::new()).err(),
        Some(UserCommandError::Identity(UserIdentityError::MissingGenesis))
    );
}

#[test]
fn public_key_parser_is_exact_and_validating() {
    let device = DeviceIdentity::from_secret_bytes(&[111; 32]);
    let encoded = full_hex(&device.public_key().to_bytes());
    assert_eq!(parse_public_key(&encoded).unwrap(), device.public_key());
    assert!(parse_public_key("00").is_err());
    assert!(parse_public_key(&"zz".repeat(32)).is_err());
    assert_eq!(parse_public_key("00"), Err(KeyTextError::WrongLength));
    assert_eq!(
        parse_public_key(&("00".to_owned() + &"zz".repeat(31))),
        Err(KeyTextError::InvalidByte(2))
    );
    assert_eq!(
        parse_public_key(&("0é0".to_owned() + &"0".repeat(60))),
        Err(KeyTextError::NotUtf8)
    );
    assert_eq!(
        parse_public_key(&("02".to_owned() + &"0".repeat(62))),
        Err(KeyTextError::NotAPoint)
    );
    assert_eq!(
        KeyTextError::InvalidByte(2).message(),
        "invalid hexadecimal byte at position 2"
    );
}

fn vault(byte: u8) -> TrustStore {
    TrustStore::open_in_memory(WrappingKey::from_bytes([byte; 32]))
}

fn material(byte: u8) -> DeviceMaterial {
    DeviceMaterial {
        identity: DeviceIdentity::from_secret_bytes(&[byte; 32]),
        certificate: QuicCertificate::generate().unwrap(),
    }
}

#[test]
fn memberships_are_updated_through_the_vault() {
    let mut vault = vault(2);
    let phone = DeviceIdentity::from_secret_bytes(&[4; 32]).public_key();
    let text = full_hex(&phone.to_bytes());
    assert_eq!(
        update_membership(&mut vault, &text, false).err(),
        Some(UserCommandError::NoDevice)
    );
    vault.initialize_device(&material(3)).unwrap();
    assert_eq!(
        update_membership(&mut vault, &text, false).err(),
        Some(UserCommandError::NoUser)
    );
    assert_eq!(require_user(&vault).err(), Some(UserCommandError::NoUser));
    vault.initialize_user_identity().unwrap();
    assert_eq!(
        update_membership(&mut vault, "00", false).err(),
        Some(UserCommandError::Key(KeyTextError::WrongLength))
    );
    assert_eq!(
        update_membership(&mut vault, &text, true).err(),
        Some(UserCommandError::Identity(UserIdentityError::NotLinked))
    );
    let updated = update_membership(&mut vault, &text, false).unwrap();
    assert_eq!(updated.devices().len(), 2);
    let removed = update_membership(&mut vault, &text, true).unwrap();
    assert_eq!(removed.devices().len(), 1);
    assert_eq!(removed.epoch(), 3);
}

#[test]
fn a_space_is_shared_from_invitation_to_acceptance() {
    let space = SpaceId::from_u128(500);
    let mut owner = vault(10);
    assert_eq!(
        issue_invitation(&mut owner, space, Permission::ReadOnly, 1_000, 600).err(),
        Some(ShareError::Refused(ShareRefusal::NoDevice))
    );
    owner.initialize_device(&material(11)).unwrap();
    assert_eq!(
        issue_invitation(&mut owner, space, Permission::ReadOnly, 1_000, 0).err(),
        Some(ShareError::Refused(ShareRefusal::Lifetime))
    );
    assert_eq!(
        issue_invitation(&mut owner, space, Permission::ReadOnly, 1_000, 600).err(),
        Some(ShareError::Refused(ShareRefusal::NotInitialized))
    );
    owner.initialize_owned_space(space, 1_000).unwrap();
    assert_eq!(
        issue_invitation(&mut owner, space, Permission::ReadOnly, u64::MAX, 600).err(),
        Some(ShareError::Refused(ShareRefusal::ExpiryOverflow))
    );
    let issued = issue_invitation(&mut owner, space, Permission::ReadOnly, 1_000, 600).unwrap();
    let token = sign_token(
        &issued.device.identity,
        "127.0.0.1:5050",
        &issued.invitation,
        &issued.secret,
        issued.device.certificate.certificate_der(),
    );

    let mut bob = vault(20);
    bob.initialize_device(&material(21)).unwrap();
    let start = start_join(&bob, &token, 1_010).unwrap();
    let step = decide_claim(
        &mut owner,
        &issued.device.identity,
        &issued.invitation,
        &issued.secret,
        &start.claim,
        1_020,
    )
    .unwrap();
    let ClaimStep::Grant { grant, peer } = step else {
        panic!("expected a grant");
    };
    assert_eq!(peer.public_key, start.claim.public_key);
    assert_eq!(
        finish_drawn_join(&mut bob, &token, &start.key, &grant, None, 1_030).err(),
        Some(ShareError::Trust(TrustError::Randomness))
    );
    assert!(bob.space_credentials(space).unwrap().is_none());
    finish_join(&mut bob, &token, &start.key, &grant, 1_030).unwrap();
    let accepted = bob.space_credentials(space).unwrap().unwrap();
    assert_eq!(accepted.capability().permission(), Permission::ReadOnly);
    assert_eq!(accepted.authority(), start.authority);
    assert_eq!(
        start_join(&bob, &token, 1_040).err(),
        Some(ShareError::Refused(ShareRefusal::AlreadyAccepted))
    );
    assert_eq!(owner.space_members(space).len(), 1);

    let mut eve = vault(30);
    eve.initialize_device(&material(31)).unwrap();
    let late = start_join(&eve, &token, 1_050).unwrap();
    assert_eq!(
        decide_claim(
            &mut owner,
            &issued.device.identity,
            &issued.invitation,
            &issued.secret,
            &late.claim,
            1_060,
        )
        .err(),
        Some(ShareError::Trust(TrustError::InvitationUnavailable))
    );
    let mut forged = late.claim;
    forged.secret_proof = [0; 32];
    assert_eq!(
        decide_claim(
            &mut owner,
            &issued.device.identity,
            &issued.invitation,
            &issued.secret,
            &forged,
            1_060,
        ),
        Ok(ClaimStep::Reject(ShareError::Refused(
            ShareRefusal::NoSecretProof
        )))
    );
    let incompatible = ShareGrant {
        version: 2,
        capability: grant.capability,
    };
    assert_eq!(
        finish_join(&mut eve, &token, &late.key, &incompatible, 1_060).err(),
        Some(ShareError::Refused(ShareRefusal::IncompatibleGrant))
    );
}

#[test]
fn tokens_are_bound_to_their_listener() {
    let owner = DeviceIdentity::from_secret_bytes(&[40; 32]);
    let (invitation, secret) = ShareInvitation::issue(
        &owner,
        SpaceId::from_u128(1),
        1,
        &SpaceKey::from_bytes([2; 32]),
        Permission::ReadWrite,
        100,
        200,
    )
    .unwrap();
    let mut token = sign_token(&owner, "127.0.0.1:1", &invitation, &secret, b"certificate");
    validate_token(&token).unwrap();
    token.address = "127.0.0.1:2".to_owned();
    assert_eq!(
        validate_token(&token).err(),
        Some(ShareError::Refused(ShareRefusal::InvalidBinding))
    );
    token.version = 2;
    assert_eq!(
        validate_token(&token).err(),
        Some(ShareError::Refused(ShareRefusal::UnsupportedToken))
    );
    assert_eq!(
        ShareRefusal::UnsupportedToken.message(),
        "unsupported invitation token version"
    );
}

#[test]
fn sharing_bounds_are_exact() {
    assert_eq!(retention_seconds(7), Ok(604_800));
    assert!(retention_seconds(0).is_err());
    assert!(retention_seconds(31).is_err());
    assert_eq!(remaining_seconds(10, 4), Some(6));
    assert_eq!(remaining_seconds(10, 10), None);
    assert_eq!(retained_members(3, 1), 2);
    assert_eq!(retained_members(1, 3), 0);
    assert_eq!(sharing_frame(&[1]), Ok(vec![0, 0, 0, 1, 1]));
    assert!(sharing_frame(&vec![0; 65_537]).is_err());
    assert_eq!(sharing_length(65_536), Ok(65_536));
    assert!(sharing_length(65_537).is_err());
    let member = DeviceIdentity::from_secret_bytes(&[50; 32]).public_key();
    assert_eq!(
        check_revoked(&[], &[member]).err(),
        Some(ShareError::NotAMember(member.id()))
    );
    assert!(check_revoked(&[], &[]).is_ok());
}

#[test]
fn text_is_bounded_on_both_sides() {
    let text = encode_bounded(b"hello", 8).unwrap();
    assert_eq!(text, "aGVsbG8");
    assert_eq!(decode_bounded(&text, 8).unwrap(), b"hello");
    assert_eq!(encode_bounded(b"hello", 4), Err(EncodingError::TooLarge));
    assert_eq!(decode_bounded(&text, 4), Err(EncodingError::TooLarge));
    assert_eq!(decode_bounded(&text, 3), Err(EncodingError::TooLarge));
    assert!(matches!(
        decode_bounded("!!", 8),
        Err(EncodingError::NotBase64(_))
    ));
    assert_eq!(message_frame(&[7], 1), Some(vec![0, 0, 0, 1, 7]));
    assert_eq!(message_frame(&[7, 8], 1), None);
    assert_eq!(message_length(2, 1), None);
}

#[test]
fn key_files_hold_exactly_one_key() {
    assert_eq!(read_wrapping_key(&[3; 32]).unwrap().secret_bytes(), &[3; 32]);
    assert_eq!(read_wrapping_key(&[3; 31]).err(), Some(31));
}

#[test]
fn pairing_bounds_are_exact() {
    assert_eq!(pairing_lifetime(3_600), Ok(3_600));
    assert_eq!(pairing_lifetime(0), Err(PairRefusal::Lifetime));
    assert_eq!(pairing_lifetime(3_601), Err(PairRefusal::Lifetime));
    assert_eq!(discovery_seconds(0, 3), Ok(None));
    assert_eq!(discovery_seconds(90, 0), Ok(None));
    assert_eq!(discovery_seconds(61, 1), Err(PairRefusal::Discovery));
    assert_eq!(discovery_seconds(60, 1), Ok(Some(60)));
    assert_eq!(pairing_frame(&[9]), Ok(vec![0, 0, 0, 1, 9]));
    assert_eq!(
        pairing_frame(&vec![0; 16_385]),
        Err(PairRefusal::MessageTooLarge)
    );
    assert_eq!(
        pairing_length(16_385),
        Err(PairRefusal::PeerMessageTooLarge)
    );
    assert_eq!(
        PairRefusal::MessageTooLarge.message(),
        "pairing message exceeds the 16384 byte limit"
    );
}

#[test]
fn paired_devices_are_admitted_with_their_spaces() {
    let alice = material(60);
    let bob = material(61);
    let code = PairingCode::parse("C7YR-3N3K").unwrap();
    let (inviter, offer) = Inviter::start(
        &alice.identity,
        &code,
        alice.certificate.certificate_der(),
        100,
        60,
    )
    .unwrap();
    let (joiner, answer) = Joiner::start(
        &bob.identity,
        &code,
        bob.certificate.certificate_der(),
        &offer,
        101,
    )
    .unwrap();
    let (joined, acknowledgement) = inviter.finish(&answer, 102).unwrap();
    let invited = joiner.finish(&acknowledgement).unwrap();
    let space = SpaceId::from_u128(6);
    let mut alice_vault = vault(62);
    alice_vault
        .record_invitation(offer.invitation_id(), offer.expires_at())
        .unwrap();
    let record = admit_joiner(
        &mut alice_vault,
        offer.invitation_id(),
        &joined,
        &[space],
        103,
    )
    .unwrap();
    assert_eq!(record.public_key, bob.identity.public_key());
    assert!(admit_joiner(&mut alice_vault, offer.invitation_id(), &joined, &[], 104).is_err());
    let mut bob_vault = vault(63);
    admit_inviter(&mut bob_vault, &invited, &[space], 103).unwrap();
    assert_eq!(bob_vault.peers().unwrap().len(), 1);
    assert_eq!(
        bob_vault.peer_spaces(alice.identity.public_key()),
        vec![space]
    );
}

#[test]
fn sightings_merge_addresses_of_trusted_peers() {
    let known = DeviceIdentity::from_secret_bytes(&[70; 32]).public_key();
    let peer = PeerRecord {
        public_key: known,
        certificate_der: vec![1, 2],
        paired_at: 1,
    };
    let address = |port| PeerAddress {
        ip: IpAddress::V4(1),
        port,
    };
    let advertisement = |pin: CertificatePin, ports: &[u16]| DiscoveredPeer {
        device_id: known.id(),
        certificate_pin: pin,
        addresses: ports.iter().map(|port| address(*port)).collect(),
    };
    let pin = peer.certificate_pin();
    let peers = [peer];
    let mut sightings = Sightings::new();
    sightings.note(&peers, &advertisement(pin, &[9, 3]));
    sightings.note(&peers, &advertisement(pin, &[3, 5]));
    sightings.note(
        &peers,
        &advertisement(CertificatePin::from_bytes([0; 32]), &[1]),
    );
    assert_eq!(
        sightings.addresses(known.id().as_bytes()),
        vec![address(3), address(5), address(9)]
    );
    assert!(sightings.addresses(&[0; 32]).is_empty());
}

#[test]
fn inspections_are_rendered_exactly() {
    let status = LocalStatus {
        space: SpaceId::from_u128(1),
        replica: ReplicaId::from_u128(2),
        documents: 3,
        changes: 4,
        replicated_changes: 5,
        frontier: 6,
        replica_frontier: 7,
        integrity: "ok".to_owned(),
    };
    assert_eq!(
        render_inspection("app.db", &status),
        "Cyrene local state\n  database     app.db\n  space        00000000000000000000000001\n  replica      00000000000000000000000002\n  documents    3\n  changes      4 local / 5 replicated\n  frontier     6 local / 7 replica\n  integrity    ok (healthy)"
    );
}

#[test]
fn reports_are_written_exactly() {
    let report = BackupReport {
        documents: 2,
        replicated_changes: 30,
        integrity: "ok".to_owned(),
    };
    assert_eq!(
        backup_text("copy.db", &report),
        "Backup ready at copy.db\n  documents          2\n  replicated changes 30\n  integrity          ok"
    );
    assert_eq!(
        compaction_text(CompactionReport {
            changes_before: 12,
            changes_after: 5,
            replicated_changes: 9,
        }),
        "Compaction complete\n  local journal      12 → 5 (7 removed)\n  replicated history 9 preserved"
    );
}

#[test]
fn peers_are_listed_with_where_they_were_seen() {
    let identity = DeviceIdentity::from_secret_bytes(&[7; 32]);
    let peer = PeerRecord {
        public_key: identity.public_key(),
        certificate_der: vec![1, 2, 3],
        paired_at: 1_700_000_000,
    };
    let head = format!(
        "  {}  certificate {}  paired at 1700000000",
        identity.id().to_string(),
        CertificatePin::from_certificate_der(&[1, 2, 3]).to_string()
    );
    let unseen = peer_line(&peer, 0, None);
    assert_eq!(unseen, format!("{head}  spaces 0  LAN not observed"));
    let addresses = vec!["10.0.0.1:7".to_owned(), "[::1]:7".to_owned()];
    let seen = peer_line(&peer, 2, Some(&addresses));
    assert_eq!(seen, format!("{head}  spaces 2  LAN 10.0.0.1:7, [::1]:7"));
    assert_eq!(
        peers_text(&[unseen.clone(), seen.clone()]),
        format!("Paired devices (2)\n{unseen}\n{seen}")
    );
    assert_eq!(
        peers_text(&[]),
        "No paired devices yet.\n\nStart with: cyrene pair listen --vault …"
    );
    assert_eq!(join("-", &[]), "");
    assert_eq!(join("-", &["a".to_owned()]), "a");
}

#[test]
fn the_replica_frontier_is_the_last_authored_counter() {
    let change = |author: u128, counter: u64| {
        let replica = ReplicaId::from_u128(author);
        Change {
            id: ChangeId { replica, counter },
            space: SpaceId::from_u128(1),
            timestamp: Timestamp {
                physical_ms: 1,
                logical: 0,
                replica,
            },
            operation: Operation::Delete {
                collection: "notes".to_owned(),
                document: DocumentId::from_u128(1),
                schema: 1,
            },
        }
    };
    let changes = [change(1, 1), change(2, 9), change(1, 3), change(1, 2)];
    assert_eq!(last_authored(&changes, ReplicaId::from_u128(1)), 3);
    assert_eq!(last_authored(&changes, ReplicaId::from_u128(2)), 9);
    assert_eq!(last_authored(&changes, ReplicaId::from_u128(3)), 0);
}
