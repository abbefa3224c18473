use cyrene::id::SpaceId;
use cyrene::identity::{DeviceId, DeviceIdentity};
use cyrene::net::discovery::{advertisement, decode_hex, decode_service, encode_hex};
use cyrene::net::handshake::{
    accept_proof, auth_transcript, bounded_message, client_hello, client_proof, drawn_nonce,
    random_nonce,
    server_hello,
};
use cyrene::net::relay::{request_frame, response_length};
use cyrene::net::{
    CertificatePin, DiscoveredPeer, IpAddress, NetError, PeerAddress, PeerCertificate,
    QuicCertificate, RelayEnvelope, RelayMailbox, RelayOperation, RelayProtocolError,
    MAX_RELAY_RETENTION,
};

#[test]
fn hex_metadata_round_trips_without_truncating_identity() {
    let bytes = [0xabu8; 32];
    assert_eq!(decode_hex::<32>(&encode_hex(&bytes)), Some(bytes));
    assert_eq!(decode_hex::<32>("ab"), None);
    assert_eq!(decode_hex::<32>(&"zz".repeat(32)), None);
}

#[test]
fn an_advertisement_matches_only_both_paired_values() {
    let identity = DeviceIdentity::from_secret_bytes(&[7; 32]);
    let pin = CertificatePin::from_bytes([8; 32]);
    let advertisement = DiscoveredPeer {
        device_id: identity.id(),
        certificate_pin: pin,
        addresses: vec![PeerAddress {
            ip: IpAddress::V4(0x7f00_0001),
            port: 1234,
        }],
    };
    assert!(advertisement.matches(identity.public_key(), pin));
    assert!(!advertisement.matches(
        DeviceIdentity::from_secret_bytes(&[9; 32]).public_key(),
        pin
    ));
    assert!(!advertisement.matches(identity.public_key(), CertificatePin::from_bytes([10; 32])));
}

#[test]
fn an_unbound_port_is_never_advertised() {
    let error = advertisement(
        DeviceId::from_bytes([1; 32]),
        CertificatePin::from_bytes([2; 32]),
        0,
    );
    assert!(matches!(error, Err(NetError::Discovery(_))));
}

#[test]
fn mailbox_is_epoch_and_recipient_pseudonymous() {
    let first = RelayMailbox::derive(&[1; 32], &[2; 32]);
    let same = RelayMailbox::derive(&[1; 32], &[2; 32]);
    let another_recipient = RelayMailbox::derive(&[1; 32], &[3; 32]);
    let another_epoch = RelayMailbox::derive(&[4; 32], &[2; 32]);
    assert_eq!(first.route(), same.route());
    assert_ne!(first.route(), another_recipient.route());
    assert_ne!(first.route(), another_epoch.route());
}

#[test]
fn signed_operations_verify_and_tampering_fails() {
    let mailbox = RelayMailbox::derive(&[5; 32], &[6; 32]);
    let envelope = RelayEnvelope::new(vec![7; 128], 1_100, 1_000).unwrap();
    let mut request = mailbox.push(vec![envelope], 1_000).unwrap();
    assert_eq!(request.verify(1_001), Ok(()));
    assert_eq!(request.verify(2_000), Err(RelayProtocolError::StaleRequest));

    request.unsigned.issued_at = 1_002;
    assert_eq!(
        request.verify(1_002),
        Err(RelayProtocolError::InvalidSignature)
    );
}

#[test]
fn envelope_and_batch_bounds_fail_before_signing() {
    assert_eq!(
        RelayEnvelope::new(Vec::new(), 1_100, 1_000),
        Err(RelayProtocolError::LimitExceeded)
    );
    assert_eq!(
        RelayEnvelope::new(vec![1], 1_000 + MAX_RELAY_RETENTION + 1, 1_000),
        Err(RelayProtocolError::LimitExceeded)
    );
    let mailbox = RelayMailbox::derive(&[8; 32], &[9; 32]);
    assert!(matches!(
        mailbox.pull(0, 0, 1_000),
        Err(RelayProtocolError::LimitExceeded)
    ));
    assert!(matches!(
        mailbox.acknowledge(Vec::new(), 1_000),
        Err(RelayProtocolError::LimitExceeded)
    ));
}

#[test]
fn signing_text_is_compact_json() {
    let mailbox = RelayMailbox::derive(&[5; 32], &[6; 32]);
    let request = mailbox.sign_with(
        RelayOperation::Pull { after: 7, limit: 9 },
        1_000,
        [1; 16],
    );
    let route = serde_json::to_string(&mailbox.route().to_bytes()).unwrap();
    let nonce = serde_json::to_string(&[1u8; 16]).unwrap();
    assert_eq!(
        request.unsigned.signing_text(),
        format!(
            "{{\"version\":1,\"route\":{route},\"issued_at\":1000,\"nonce\":{nonce},\"operation\":{{\"Pull\":{{\"after\":7,\"limit\":9}}}}}}"
        )
    );
    let envelope = RelayEnvelope::with_opaque_id([3; 32], vec![4, 5], 1_100, 1_000).unwrap();
    let push = mailbox.sign_with(
        RelayOperation::Push {
            envelopes: vec![envelope],
        },
        1_000,
        [2; 16],
    );
    let value: serde_json::Value = serde_json::from_str(&push.unsigned.signing_text()).unwrap();
    let item = &value["operation"]["Push"]["envelopes"][0];
    assert_eq!(item["id"][0].as_u64(), Some(3));
    assert_eq!(item["expires_at"].as_u64(), Some(1_100));
    assert_eq!(item["ciphertext"].as_array().unwrap().len(), 2);
    let acknowledge = mailbox.sign_with(
        RelayOperation::Acknowledge { ids: vec![[9; 32]] },
        1_000,
        [2; 16],
    );
    let value: serde_json::Value =
        serde_json::from_str(&acknowledge.unsigned.signing_text()).unwrap();
    assert_eq!(value["operation"]["Acknowledge"]["ids"][0][31].as_u64(), Some(9));
}

#[test]
fn content_derives_the_envelope_identity() {
    let envelope = RelayEnvelope::new(vec![7; 3], 1_100, 1_000).unwrap();
    let again = RelayEnvelope::new(vec![7; 3], 1_050, 1_000).unwrap();
    let other = RelayEnvelope::new(vec![8; 3], 1_100, 1_000).unwrap();
    assert_eq!(envelope.id(), again.id());
    assert_ne!(envelope.id(), other.id());
}

#[test]
fn frames_are_bounded() {
    let frame = request_frame(&[1, 2, 3]).unwrap();
    assert_eq!(frame, vec![0, 0, 0, 3, 1, 2, 3]);
    assert_eq!(response_length(5), Ok(5));
    assert_eq!(
        response_length(24 * 1024 * 1024 + 1),
        Err(RelayProtocolError::LimitExceeded)
    );
    assert!(bounded_message(&[0; 9], 8).is_err());
    assert!(bounded_message(&[0; 8], 8).is_ok());
}

#[test]
fn certificates_are_pinned_by_their_hash() {
    let certificate = QuicCertificate::generate().unwrap();
    assert_eq!(
        certificate.pin().as_bytes(),
        blake3::hash(certificate.certificate_der()).as_bytes()
    );
    assert!(!certificate.private_key_der().is_empty());
    assert_ne!(certificate.private_key_der(), certificate.certificate_der());
    let restored = QuicCertificate::from_der(
        certificate.certificate_der().to_vec(),
        certificate.private_key_der().to_vec(),
    );
    assert_eq!(restored.pin(), certificate.pin());
    assert_eq!(certificate.public_certificate().pin(), certificate.pin());
    assert_eq!(
        PeerCertificate::from_der(vec![1, 2, 3]).pin().as_bytes(),
        blake3::hash(&[1, 2, 3]).as_bytes()
    );
    assert_eq!(certificate.pin().to_string().len(), 16);
}

#[test]
fn expected_devices_authenticate_and_others_do_not() {
    let client = DeviceIdentity::from_secret_bytes(&[20; 32]);
    let server = DeviceIdentity::from_secret_bytes(&[21; 32]);
    let stranger = DeviceIdentity::from_secret_bytes(&[22; 32]);
    let pin = CertificatePin::from_bytes([23; 32]);
    let hello = client_hello(&client, [1; 32]);
    let answer = server_hello(&hello, &server, client.public_key(), pin, [2; 32]).unwrap();
    let proof = client_proof(&hello, &answer, &client, server.public_key(), pin).unwrap();
    assert!(accept_proof(&hello, &answer, &proof, pin).is_ok());
    assert!(server_hello(&hello, &server, stranger.public_key(), pin, [2; 32]).is_err());
    assert!(client_proof(&hello, &answer, &client, stranger.public_key(), pin).is_err());
    let other_pin = CertificatePin::from_bytes([24; 32]);
    assert!(client_proof(&hello, &answer, &client, server.public_key(), other_pin).is_err());
    assert!(accept_proof(&hello, &answer, &proof, other_pin).is_err());
    assert_ne!(random_nonce().unwrap(), random_nonce().unwrap());
    assert_ne!(
        auth_transcript(&hello, server.public_key(), [2; 32], pin),
        auth_transcript(&hello, server.public_key(), [2; 32], other_pin)
    );
}

#[test]
fn advertisements_are_read_back() {
    let device = DeviceId::from_bytes([0xa1; 32]);
    let pin = CertificatePin::from_bytes([0xb2; 32]);
    let described = advertisement(device, pin, 4040).unwrap();
    assert_eq!(described.instance, "a1a1a1a1a1a1a1a1");
    assert_eq!(described.hostname, "a1a1a1a1a1a1a1a1.local.");
    let addresses = [
        IpAddress::V6(1),
        IpAddress::V4(0x7f00_0001),
        IpAddress::V4(0x7f00_0001),
    ];
    let peer = decode_service(
        Some("1"),
        Some(&described.device),
        Some(&described.pin),
        &addresses,
        4040,
    )
    .unwrap();
    assert_eq!(peer.device_id, device);
    assert_eq!(peer.certificate_pin, pin);
    assert_eq!(peer.addresses.len(), 2);
    assert_eq!(
        peer.addresses[0],
        PeerAddress {
            ip: IpAddress::V4(0x7f00_0001),
            port: 4040
        }
    );
    assert!(decode_service(
        Some("2"),
        Some(&described.device),
        Some(&described.pin),
        &addresses,
        4040
    )
    .is_none());
    assert!(decode_service(None, Some(&described.device), Some(&described.pin), &addresses, 4040)
        .is_none());
    assert_ne!(SpaceId::from_u128(1), SpaceId::from_u128(2));
}

#[test]
fn a_generated_certificate_holds_the_fixed_name() {
    let certificate = QuicCertificate::generate().unwrap();
    let mut entry = vec![0x82, 12];
    entry.extend_from_slice("cyrene.local".as_bytes());
    assert!(certificate
        .certificate_der()
        .windows(entry.len())
        .any(|window| window == entry));

    let taken = QuicCertificate::from_generated(Ok((vec![1, 2], vec![3]))).unwrap();
    assert_eq!(taken.certificate_der(), [1, 2]);
    assert_eq!(taken.private_key_der(), [3]);
    let refused = QuicCertificate::from_generated(Err("no key".to_owned()));
    assert!(matches!(refused, Err(NetError::Certificate(reason)) if reason == "no key"));
}

#[test]
fn a_nonce_is_what_was_drawn() {
    assert!(matches!(drawn_nonce(Some([7; 32])), Ok(nonce) if nonce == [7; 32]));
    assert!(matches!(drawn_nonce(None), Err(NetError::Randomness)));
}
