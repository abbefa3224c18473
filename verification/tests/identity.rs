use cyrene::identity::pairing::make_offer;
use cyrene::identity::{
    Acknowledgement, DeviceIdentity, DevicePublicKey, Inviter, Joiner, PairingCode, PairingError,
    UserIdentity, UserIdentityError,
};

fn identity(byte: u8) -> DeviceIdentity {
    DeviceIdentity::from_secret_bytes(&[byte; 32])
}

#[test]
fn two_devices_pair_and_authenticate_each_other() {
    let alice = identity(1);
    let bob = identity(2);
    let code = PairingCode::parse("C7YR-3N3K").unwrap();
    let (inviter, offer) = Inviter::start(&alice, &code, b"alice cert", 100, 60).unwrap();
    let (joiner, answer) = Joiner::start(&bob, &code, b"bob cert", &offer, 101).unwrap();
    let (alice_peer, acknowledgement) = inviter.finish(&answer, 102).unwrap();
    let bob_peer = joiner.finish(&acknowledgement).unwrap();

    assert_eq!(alice_peer.id(), bob.id());
    assert_eq!(bob_peer.id(), alice.id());
    assert_eq!(alice_peer.session_key(), bob_peer.session_key());
    assert_eq!(alice_peer.transport_binding(), b"bob cert");
    assert_eq!(bob_peer.transport_binding(), b"alice cert");
}

#[test]
fn different_codes_fail_key_confirmation() {
    let alice = identity(1);
    let bob = identity(2);
    let alice_code = PairingCode::parse("C7YR-3N3K").unwrap();
    let bob_code = PairingCode::parse("C7YR-3N3M").unwrap();
    let (inviter, offer) = Inviter::start(&alice, &alice_code, b"alice cert", 100, 60).unwrap();
    let (_, answer) = Joiner::start(&bob, &bob_code, b"bob cert", &offer, 101).unwrap();

    assert!(matches!(
        inviter.finish(&answer, 102),
        Err(PairingError::ConfirmationFailed)
    ));
}

#[test]
fn expired_offer_is_rejected() {
    let alice = identity(1);
    let bob = identity(2);
    let code = PairingCode::parse("C7YR-3N3K").unwrap();
    let (_, offer) = Inviter::start(&alice, &code, b"alice cert", 100, 5).unwrap();
    assert!(matches!(
        Joiner::start(&bob, &code, b"bob cert", &offer, 106),
        Err(PairingError::Expired)
    ));
}

#[test]
fn tampered_identity_is_rejected() {
    let alice = identity(1);
    let bob = identity(2);
    let code = PairingCode::parse("C7YR-3N3K").unwrap();
    let (_, mut offer) = Inviter::start(&alice, &code, b"alice cert", 100, 60).unwrap();
    offer.public_key = bob.public_key();
    assert!(matches!(
        Joiner::start(&bob, &code, b"bob cert", &offer, 101),
        Err(PairingError::InvalidSignature)
    ));
}

#[test]
fn secrets_are_redacted_from_debug_output() {
    let device = identity(7);
    let code = PairingCode::parse("C7YR-3N3K").unwrap();
    assert!(!device.debug_text().contains(&format!("{:?}", [7_u8; 32])));
    assert_eq!(code.debug_text(), "PairingCode([redacted])");
}

#[test]
fn scoped_signatures_cannot_cross_protocol_domains() {
    let device = identity(7);
    let signature = device.sign(b"cyrene/test/a", b"hello");
    assert!(device
        .public_key()
        .verify(b"cyrene/test/a", b"hello", &signature));
    assert!(!device
        .public_key()
        .verify(b"cyrene/test/b", b"hello", &signature));
}

#[test]
fn pairing_authenticates_bounded_context_in_both_directions() {
    let alice = identity(1);
    let bob = identity(2);
    let code = PairingCode::parse("C7YR-3N3K").unwrap();
    let (inviter, offer) = Inviter::start_with_context(
        &alice,
        &code,
        b"alice cert",
        b"alice linked space",
        100,
        60,
    )
    .unwrap();
    let (joiner, answer) =
        Joiner::start_with_context(&bob, &code, b"bob cert", b"bob linked space", &offer, 101)
            .unwrap();
    let (alice_peer, acknowledgement) = inviter.finish(&answer, 102).unwrap();
    let bob_peer = joiner.finish(&acknowledgement).unwrap();
    assert_eq!(alice_peer.context(), b"bob linked space");
    assert_eq!(bob_peer.context(), b"alice linked space");
}

#[test]
fn devices_link_and_remove_through_verified_history() {
    let alice_laptop = identity(1);
    let alice_phone = identity(2);
    let mut user = UserIdentity::create(&alice_laptop).unwrap();
    let linked = user
        .link_device(&alice_laptop, alice_phone.public_key())
        .unwrap();
    user.apply(linked).unwrap();
    assert_eq!(user.devices().len(), 2);

    let removed = user
        .remove_device(&alice_phone, alice_laptop.public_key())
        .unwrap();
    user.apply(removed).unwrap();
    assert_eq!(user.devices(), vec![alice_phone.public_key()]);
    assert_eq!(
        user.link_device(&alice_laptop, identity(3).public_key()),
        Err(UserIdentityError::UnauthorizedActor)
    );
    assert_eq!(
        user.remove_device(&alice_phone, alice_phone.public_key()),
        Err(UserIdentityError::LastDevice)
    );
}

#[test]
fn complete_history_reconstructs_the_same_user() {
    let laptop = identity(4);
    let phone = identity(5);
    let mut original = UserIdentity::create(&laptop).unwrap();
    let event = original.link_device(&laptop, phone.public_key()).unwrap();
    original.apply(event).unwrap();
    let restored = UserIdentity::from_events(original.events().to_vec()).unwrap();
    assert_eq!(restored, original);
}

#[test]
fn tampering_and_competing_history_fail_without_mutation() {
    let laptop = identity(6);
    let phone = identity(7);
    let tablet = identity(8);
    let user = UserIdentity::create(&laptop).unwrap();
    let mut valid = user.link_device(&laptop, phone.public_key()).unwrap();
    let competing = user.link_device(&laptop, tablet.public_key()).unwrap();
    valid.signature[0] ^= 1;

    let mut unchanged = user.clone();
    assert_eq!(
        unchanged.apply(valid),
        Err(UserIdentityError::InvalidSignature)
    );
    assert_eq!(unchanged, user);

    unchanged.apply(competing.clone()).unwrap();
    let mut other_branch = user.clone();
    other_branch
        .apply(user.link_device(&laptop, phone.public_key()).unwrap())
        .unwrap();
    assert_eq!(other_branch.apply(competing), Err(UserIdentityError::Fork));
}

#[test]
fn pairing_codes_are_normalized_and_rejected() {
    let code = PairingCode::parse("c7yr 3n3k").unwrap();
    assert_eq!(code.to_string(), "C7YR-3N3K");
    assert!(matches!(
        PairingCode::parse("C7YR"),
        Err(PairingError::InvalidMessage)
    ));
    assert!(matches!(
        PairingCode::parse("C7YR-3N3U"),
        Err(PairingError::InvalidMessage)
    ));
    let drawn = PairingCode::generate().unwrap();
    assert_eq!(
        PairingCode::parse(&drawn.to_string()).unwrap().to_string(),
        drawn.to_string()
    );
    assert_eq!(PairingCode::from_random([0, 1, 2, 3, 31, 32, 255, 10]).to_string(), "0123-Z0ZA");
}

#[test]
fn forged_acknowledgements_and_bindings_are_refused() {
    let alice = identity(1);
    let bob = identity(2);
    let code = PairingCode::parse("C7YR-3N3K").unwrap();
    let (_, offer) = Inviter::start(&alice, &code, b"alice cert", 100, 60).unwrap();
    let (joiner, _) = Joiner::start(&bob, &code, b"bob cert", &offer, 101).unwrap();
    assert!(matches!(
        joiner.finish(&Acknowledgement {
            confirmation: [0; 32]
        }),
        Err(PairingError::ConfirmationFailed)
    ));
    assert!(matches!(
        Inviter::start(&alice, &code, b"", 100, 60),
        Err(PairingError::InvalidMessage)
    ));
    assert_eq!(offer.expires_at(), 160);
}

#[test]
fn late_answers_are_refused() {
    let alice = identity(1);
    let bob = identity(2);
    let code = PairingCode::parse("C7YR-3N3K").unwrap();
    let (inviter, offer) = Inviter::start(&alice, &code, b"alice cert", 100, 60).unwrap();
    let (_, answer) = Joiner::start(&bob, &code, b"bob cert", &offer, 101).unwrap();
    assert!(matches!(
        inviter.finish(&answer, 161),
        Err(PairingError::Expired)
    ));
}

#[test]
fn malformed_public_keys_are_refused() {
    let mut bytes = [0u8; 32];
    bytes[0] = 2;
    assert_eq!(
        DevicePublicKey::from_bytes(bytes),
        Err(PairingError::InvalidMessage)
    );
    let key = identity(9).public_key();
    assert_eq!(DevicePublicKey::from_bytes(key.to_bytes()), Ok(key));
    assert_eq!(key.id().to_string().len(), 16);
    assert_ne!(key.id().as_bytes(), &key.to_bytes());
}

#[test]
fn user_histories_are_refused_for_each_reason() {
    let laptop = identity(10);
    let phone = identity(11);
    assert_eq!(
        UserIdentity::from_events(Vec::new()),
        Err(UserIdentityError::MissingGenesis)
    );
    let mut user = UserIdentity::create(&laptop).unwrap();
    let genesis = user.events()[0].clone();
    assert_eq!(
        user.apply(genesis.clone()),
        Err(UserIdentityError::InvalidEvent)
    );
    assert_eq!(
        user.link_device(&laptop, laptop.public_key()),
        Err(UserIdentityError::AlreadyLinked)
    );
    assert_eq!(
        user.remove_device(&laptop, phone.public_key()),
        Err(UserIdentityError::NotLinked)
    );
    let event = user.link_device(&laptop, phone.public_key()).unwrap();
    let mut late = event.clone();
    late.sequence = 5;
    assert_eq!(user.apply(late), Err(UserIdentityError::InvalidSequence));
    user.apply(event.clone()).unwrap();
    assert_eq!(user.apply(event), Err(UserIdentityError::Duplicate));
    assert_eq!(user.epoch(), 2);
    let mut forged = genesis;
    forged.genesis_nonce = None;
    assert_eq!(
        UserIdentity::from_events(vec![forged]),
        Err(UserIdentityError::MissingGenesis)
    );
}

#[test]
fn removed_devices_sign_nothing_more() {
    let laptop = identity(12);
    let phone = identity(13);
    let mut user = UserIdentity::create(&laptop).unwrap();
    user.apply(user.link_device(&laptop, phone.public_key()).unwrap())
        .unwrap();
    let stale = user.link_device(&phone, identity(14).public_key()).unwrap();
    user.apply(user.remove_device(&laptop, phone.public_key()).unwrap())
        .unwrap();
    assert_eq!(user.apply(stale), Err(UserIdentityError::Fork));
    assert_eq!(
        user.link_device(&phone, identity(14).public_key()),
        Err(UserIdentityError::UnauthorizedActor)
    );
}

#[test]
fn founding_a_user_depends_on_device_and_nonce() {
    let laptop = identity(15);
    let first = UserIdentity::found(&laptop, [1; 16]).unwrap();
    let again = UserIdentity::found(&laptop, [1; 16]).unwrap();
    let other = UserIdentity::found(&laptop, [2; 16]).unwrap();
    assert_eq!(first, again);
    assert_ne!(first.id(), other.id());
    let mut bytes = b"cyrene/user-identity/1".to_vec();
    bytes.extend_from_slice(&laptop.public_key().to_bytes());
    bytes.extend_from_slice(&[1; 16]);
    assert_eq!(first.id().as_bytes(), blake3::hash(&bytes).as_bytes());
}

#[test]
fn an_identity_is_what_was_drawn() {
    let identity = DeviceIdentity::from_draw(Some([6; 32])).unwrap();
    assert_eq!(identity.secret_bytes(), [6; 32]);
    assert!(matches!(
        DeviceIdentity::from_draw(None),
        Err(PairingError::Randomness)
    ));
}

#[test]
fn an_offer_whose_exchange_message_is_no_point_is_rejected() {
    let alice = identity(1);
    let bob = identity(2);
    let code = PairingCode::parse("C7YR-3N3K").unwrap();
    let byte = (0..=u8::MAX)
        .find(|byte| DevicePublicKey::from_bytes([*byte; 32]).is_err())
        .unwrap();
    let mut message = vec![0x53];
    message.extend_from_slice(&[byte; 32]);
    let offer = make_offer(&alice, [9; 16], 160, b"alice cert", b"", message.clone());
    assert!(matches!(
        Joiner::start(&bob, &code, b"bob cert", &offer, 101),
        Err(PairingError::InvalidMessage)
    ));
    message[0] = 0x54;
    let offer = make_offer(&alice, [9; 16], 160, b"alice cert", b"", message);
    assert!(matches!(
        Joiner::start_with_context(&bob, &code, b"bob cert", b"linked", &offer, 101),
        Err(PairingError::InvalidMessage)
    ));
}

#[test]
fn a_rendered_code_parses_back() {
    let code = PairingCode::from_random([0, 10, 31, 32, 63, 100, 200, 255]);
    assert_eq!(code.to_string(), "0AZ0-Z48Z");
    for text in ["0AZ0-Z48Z", "0az0z48z", " 0AZ0 - Z48Z "] {
        assert_eq!(PairingCode::parse(text).unwrap().to_string(), "0AZ0-Z48Z");
    }
    assert!(PairingCode::parse("0AZ0-Z48").is_err());
    assert!(PairingCode::parse("0AZ0-Z48I").is_err());
}
