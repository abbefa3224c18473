//! Linked-user commands: public keys as text, membership updates and bundles.

use super::encoding::{
    base64_text, bounded_bytes, decode_bounded, encode_bounded, EncodingError, EncodingFailure,
};
use crate::bytes::hex_text;
use crate::crypto::{ed25519_point, ed25519_public};
use crate::identity::device::DevicePublicKey;
use crate::identity::user::{
    chain, event_views, ActionView, EventView, UserEvent, UserIdentity, UserIdentityError,
    UserView,
};
use crate::net::discovery::{digit_value, law_hex_round_trip, lemma_hex_len, pair_value};
use crate::trust::error::{TrustError, TrustFailure};
use crate::trust::material::MaterialView;
use crate::trust::rows::TrustView;
use crate::trust::vault::TrustStore;
use vstd::prelude::*;
use vstd::string::*;
use vstd::utf8::{encode_utf8, is_ascii_chars, is_ascii_chars_encode_utf8};

verus! {

/// The version of user identity bundles.
pub const BUNDLE_VERSION: u8 = 1;

/// The greatest size of a user identity bundle.
pub const BUNDLE_LIMIT: usize = 262_144;

/// Why text is not a device public key.
#[derive(Clone, Copy, Debug, PartialEq, Eq, Structural)]
pub enum KeyTextError {
    /// The text does not hold exactly 64 bytes.
    WrongLength,
    /// Two bytes of the text are not text of their own.
    NotUtf8,
    /// The two characters at a position are not a hexadecimal byte.
    InvalidByte(usize),
    /// The bytes are not a valid Ed25519 point.
    NotAPoint,
}

impl KeyTextError {
    /// The human-readable reason.
    pub open spec fn text(self) -> Seq<char> {
        match self {
            KeyTextError::WrongLength => "device public key must contain exactly 64 hexadecimal characters"@,
            KeyTextError::NotUtf8 => "device public key is not UTF-8"@,
            KeyTextError::InvalidByte(position) => "invalid hexadecimal byte at position "@
                + crate::text::decimal_text(position as nat),
            KeyTextError::NotAPoint => "device public key is not a valid Ed25519 point"@,
        }
    }

    /// Returns the human-readable reason.
    pub fn message(self) -> (message: String)
        ensures
            message@ == self.text(),
    {
        match self {
            KeyTextError::WrongLength => crate::text::owned(
                "device public key must contain exactly 64 hexadecimal characters",
            ),
            KeyTextError::NotUtf8 => crate::text::owned("device public key is not UTF-8"),
            KeyTextError::InvalidByte(position) => {
                let mut text = crate::text::owned("invalid hexadecimal byte at position ");
                text.append(crate::text::decimal(position as u64).as_str());
                text
            },
            KeyTextError::NotAPoint => crate::text::owned(
                "device public key is not a valid Ed25519 point",
            ),
        }
    }
}

/// Whether two bytes of a text are text of their own.
pub open spec fn pair_is_text(high: u8, low: u8) -> bool {
    (high < 0x80 && low < 0x80) || (0xc2 <= high <= 0xdf && 0x80 <= low <= 0xbf)
}

/// The value of two bytes of text.
pub open spec fn byte_pair(high: u8, low: u8) -> Option<int> {
    if high < 0x80 && low < 0x80 {
        pair_value(high as char, low as char)
    } else {
        None
    }
}

/// The bytes that the first pairs of a text stand for, or why the first pair
/// that stands for none is refused.
pub open spec fn scanned(text: Seq<u8>, pairs: nat) -> Result<Seq<u8>, KeyTextError>
    decreases pairs,
{
    if pairs == 0 {
        Ok(Seq::empty())
    } else {
        let at = 2 * (pairs - 1);
        match scanned(text, (pairs - 1) as nat) {
            Err(error) => Err(error),
            Ok(bytes) => if !pair_is_text(text[at], text[at + 1]) {
                Err(KeyTextError::NotUtf8)
            } else {
                match byte_pair(text[at], text[at + 1]) {
                    None => Err(KeyTextError::InvalidByte(at as usize)),
                    Some(value) => Ok(bytes.push(value as u8)),
                }
            },
        }
    }
}

/// The public key that text holds, or why there is none.
pub open spec fn parsed_key(text: Seq<char>) -> Result<Seq<u8>, KeyTextError> {
    let bytes = encode_utf8(text);
    if bytes.len() != 64 {
        Err(KeyTextError::WrongLength)
    } else {
        match scanned(bytes, 32) {
            Err(error) => Err(error),
            Ok(key) => if !ed25519_point(key) {
                Err(KeyTextError::NotAPoint)
            } else {
                Ok(key)
            },
        }
    }
}

fn read_pair(high: u8, low: u8) -> (value: Option<u8>)
    ensures
        match value {
            Some(value) => byte_pair(high, low) == Some(value as int),
            None => byte_pair(high, low) is None,
        },
{
    if high >= 0x80 || low >= 0x80 {
        return None;
    }
    let units: u8 = match digit_value(low as char) {
        Some(units) => units,
        None => {
            return None;
        },
    };
    if high == 43 {
        return Some(units);
    }
    match digit_value(high as char) {
        Some(sixteens) => Some(sixteens * 16 + units),
        None => None,
    }
}

proof fn lemma_scan_refused(text: Seq<u8>, pairs: nat, all: nat)
    requires
        pairs <= all,
        scanned(text, pairs) is Err,
    ensures
        scanned(text, all) == scanned(text, pairs),
    decreases all - pairs,
{
    if pairs < all {
        lemma_scan_refused(text, pairs, (all - 1) as nat);
    }
}

/// Reads a device public key from exactly 64 hexadecimal characters.
pub fn parse_public_key(encoded: &str) -> (key: Result<DevicePublicKey, KeyTextError>)
    ensures
        match key {
            Ok(key) => parsed_key(encoded@) == Ok::<Seq<u8>, KeyTextError>(key@),
            Err(error) => parsed_key(encoded@) == Err::<Seq<u8>, KeyTextError>(error),
        },
{
    let text = encoded.as_bytes();
    if text.len() != 64 {
        return Err(KeyTextError::WrongLength);
    }
    let mut bytes: [u8; 32] = [0u8; 32];
    let mut index: usize = 0;
    assert(bytes@.take(0) =~= Seq::<u8>::empty());
    while index < 32
        invariant
            index <= 32,
            text@.len() == 64,
            text@ == encode_utf8(encoded@),
            scanned(text@, index as nat) == Ok::<Seq<u8>, KeyTextError>(bytes@.take(index as int)),
        decreases 32 - index,
    {
        let high: u8 = text[2 * index];
        let low: u8 = text[2 * index + 1];
        let is_text = (high < 0x80 && low < 0x80) || (high >= 0xc2 && high <= 0xdf && low >= 0x80
            && low <= 0xbf);
        if !is_text {
            proof {
                lemma_scan_refused(text@, (index + 1) as nat, 32);
            }
            return Err(KeyTextError::NotUtf8);
        }
        match read_pair(high, low) {
            None => {
                proof {
                    lemma_scan_refused(text@, (index + 1) as nat, 32);
                }
                return Err(KeyTextError::InvalidByte(2 * index));
            },
            Some(value) => {
                let ghost before = bytes@;
                bytes[index] = value;
                assert(bytes@.take(index + 1) =~= before.take(index as int).push(value));
            },
        }
        index += 1;
    }
    assert(bytes@.take(32) =~= bytes@);
    match DevicePublicKey::from_bytes(bytes) {
        Ok(key) => Ok(key),
        Err(_) => Err(KeyTextError::NotAPoint),
    }
}

proof fn lemma_hex_ascii(bytes: Seq<u8>)
    ensures
        hex_text(bytes).len() == 2 * bytes.len(),
        is_ascii_chars(hex_text(bytes)),
    decreases bytes.len(),
{
    lemma_hex_len(bytes);
    if bytes.len() > 0 {
        lemma_hex_ascii(bytes.drop_last());
        let shorter = hex_text(bytes.drop_last());
        let text = hex_text(bytes);
        assert forall|i: int| 0 <= i < text.len() implies '\0' <= #[trigger] text[i] <= '\u{7f}' by {
            if i < shorter.len() {
                assert(text[i] == shorter[i]);
            }
        }
    }
}

proof fn lemma_scan_hex(bytes: Seq<u8>, text: Seq<u8>, pairs: nat)
    requires
        text.len() == 2 * bytes.len(),
        pairs <= bytes.len(),
        forall|i: int|
            0 <= i < bytes.len() ==> byte_pair(text[2 * i], text[2 * i + 1]) == Some(
                #[trigger] bytes[i] as int,
            ),
    ensures
        scanned(text, pairs) == Ok::<Seq<u8>, KeyTextError>(bytes.take(pairs as int)),
    decreases pairs,
{
    if pairs == 0 {
        assert(bytes.take(0) =~= Seq::<u8>::empty());
    } else {
        lemma_scan_hex(bytes, text, (pairs - 1) as nat);
        let last = pairs - 1;
        assert(byte_pair(text[2 * last], text[2 * last + 1]) == Some(bytes[last] as int));
        assert(bytes.take(pairs as int) =~= bytes.take(last).push(bytes[last]));
    }
}

/// The hexadecimal text of a public key is read back as the key.
pub proof fn law_public_key_text_round_trip(key: Seq<u8>)
    requires
        key.len() == 32,
        ed25519_point(key),
    ensures
        parsed_key(hex_text(key)) == Ok::<Seq<u8>, KeyTextError>(key),
{
    let text = hex_text(key);
    let bytes = encode_utf8(text);
    lemma_hex_ascii(key);
    is_ascii_chars_encode_utf8(text);
    law_hex_round_trip(key, key);
    assert forall|i: int| 0 <= i < key.len() implies byte_pair(bytes[2 * i], bytes[2 * i + 1])
        == Some(#[trigger] key[i] as int) by {
        assert(pair_value(text[2 * i], text[2 * i + 1]) == Some(key[i] as int));
        assert('\0' <= text[2 * i] <= '\u{7f}');
        assert('\0' <= text[2 * i + 1] <= '\u{7f}');
        assert(bytes[2 * i] == text[2 * i] as u8);
        assert(bytes[2 * i + 1] == text[2 * i + 1] as u8);
    }
    lemma_scan_hex(key, bytes, 32);
    assert(key.take(32) =~= key);
}

/// A failure of a linked-user command.
#[derive(Debug, PartialEq, Eq)]
pub enum UserCommandError {
    /// The vault refused the operation.
    Trust(TrustError),
    /// The vault has no device identity.
    NoDevice,
    /// The vault has no user identity.
    NoUser,
    /// The text is not a device public key.
    Key(KeyTextError),
    /// The membership change or the history is refused.
    Identity(UserIdentityError),
    /// The bundle has an unknown version.
    UnsupportedBundle,
}

/// What a [`UserCommandError`] says.
#[verifier::ext_equal]
pub enum UserFailure {
    /// The vault refused the operation.
    Trust(TrustFailure),
    /// The vault has no device identity.
    NoDevice,
    /// The vault has no user identity.
    NoUser,
    /// The text is not a device public key.
    Key(KeyTextError),
    /// The membership change or the history is refused.
    Identity(UserIdentityError),
    /// The bundle has an unknown version.
    UnsupportedBundle,
}

impl View for UserCommandError {
    type V = UserFailure;

    open spec fn view(&self) -> UserFailure {
        match self {
            UserCommandError::Trust(error) => UserFailure::Trust(error@),
            UserCommandError::NoDevice => UserFailure::NoDevice,
            UserCommandError::NoUser => UserFailure::NoUser,
            UserCommandError::Key(error) => UserFailure::Key(*error),
            UserCommandError::Identity(error) => UserFailure::Identity(*error),
            UserCommandError::UnsupportedBundle => UserFailure::UnsupportedBundle,
        }
    }
}

/// What a user's membership change asks for.
pub open spec fn requested(device: Seq<u8>, remove: bool) -> ActionView {
    if remove {
        ActionView::Remove(device)
    } else {
        ActionView::Add(device)
    }
}

/// Why a user's device cannot sign a membership change.
pub open spec fn change_refusal(
    user: UserView,
    actor: Seq<u8>,
    device: Seq<u8>,
    remove: bool,
) -> Option<UserIdentityError> {
    if remove && !user.devices.contains(device) {
        Some(UserIdentityError::NotLinked)
    } else if remove && user.devices.len() == 1 {
        Some(UserIdentityError::LastDevice)
    } else if !remove && user.devices.contains(device) {
        Some(UserIdentityError::AlreadyLinked)
    } else if !user.devices.contains(actor) {
        Some(UserIdentityError::UnauthorizedActor)
    } else {
        None
    }
}

/// The event that a membership change appends, or why there is none.
pub open spec fn change_event(state: TrustView, text: Seq<char>, remove: bool) -> Result<
    EventView,
    UserFailure,
> {
    match state.loaded_device() {
        Err(error) => Err(UserFailure::Trust(error)),
        Ok(None) => Err(UserFailure::NoDevice),
        Ok(Some(local)) => match state.loaded_user() {
            Err(error) => Err(UserFailure::Trust(error)),
            Ok(None) => Err(UserFailure::NoUser),
            Ok(Some(user)) => match parsed_key(text) {
                Err(error) => Err(UserFailure::Key(error)),
                Ok(device) => {
                    let public = ed25519_public(local.secret);
                    match change_refusal(user, public, device, remove) {
                        Some(error) => Err(UserFailure::Identity(error)),
                        None => {
                            let event = user.issued(
                                local.secret,
                                public,
                                requested(device, remove),
                            );
                            match state.append_refusal(event) {
                                Some(error) => Err(UserFailure::Trust(error)),
                                None => Ok(event),
                            }
                        },
                    }
                },
            },
        },
    }
}

/// Links a device to the vault's user, or removes it, and returns the updated
/// identity.
pub fn update_membership(vault: &mut TrustStore, encoded_device: &str, remove: bool) -> (updated: Result<
    UserIdentity,
    UserCommandError,
>)
    requires
        old(vault).wf(),
    ensures
        final(vault).wf(),
        match updated {
            Ok(updated) => {
                &&& updated.wf()
                &&& change_event(old(vault)@, encoded_device@, remove) matches Ok(event)
                &&& updated@ == old(vault)@.loaded_user()->Ok_0->0.applied(event)
                &&& final(vault)@ == old(vault)@.appended(event)
                &&& final(vault)@.loaded_user() == Ok::<Option<UserView>, TrustFailure>(
                    Some(updated@),
                )
            },
            Err(error) => {
                &&& change_event(old(vault)@, encoded_device@, remove) == Err::<
                    EventView,
                    UserFailure,
                >(error@)
                &&& final(vault)@ == old(vault)@
            },
        },
{
    let local = match vault.load_device() {
        Err(error) => {
            return Err(UserCommandError::Trust(error));
        },
        Ok(None) => {
            return Err(UserCommandError::NoDevice);
        },
        Ok(Some(local)) => local,
    };
    let identity = match vault.user_identity() {
        Err(error) => {
            return Err(UserCommandError::Trust(error));
        },
        Ok(None) => {
            return Err(UserCommandError::NoUser);
        },
        Ok(Some(identity)) => identity,
    };
    let device = match parse_public_key(encoded_device) {
        Ok(device) => device,
        Err(error) => {
            return Err(UserCommandError::Key(error));
        },
    };
    let signed = if remove {
        identity.remove_device(&local.identity, device)
    } else {
        identity.link_device(&local.identity, device)
    };
    let event = match signed {
        Ok(event) => event,
        Err(error) => {
            return Err(UserCommandError::Identity(error));
        },
    };
    match vault.apply_user_event(&event) {
        Ok(updated) => Ok(updated),
        Err(error) => Err(UserCommandError::Trust(error)),
    }
}

/// Why a bundle cannot be imported.
pub open spec fn bundle_refusal(state: TrustView, version: u8, events: Seq<EventView>) -> Option<
    UserFailure,
> {
    if version != 1 {
        Some(UserFailure::UnsupportedBundle)
    } else {
        match chain(events) {
            Err(error) => Some(UserFailure::Identity(error)),
            Ok(user) => match state.import_refusal(user) {
                Some(error) => Some(UserFailure::Trust(error)),
                None => None,
            },
        }
    }
}

/// Verifies and atomically imports a public linked-user history bundle.
pub fn import_bundle(vault: &mut TrustStore, version: u8, events: Vec<UserEvent>) -> (imported: Result<
    UserIdentity,
    UserCommandError,
>)
    requires
        old(vault).wf(),
    ensures
        final(vault).wf(),
        match imported {
            Ok(imported) => {
                &&& bundle_refusal(old(vault)@, version, event_views(events@)) is None
                &&& imported.wf()
                &&& chain(event_views(events@)) == Ok::<UserView, UserIdentityError>(imported@)
                &&& final(vault)@ == old(vault)@.installed(imported@)
            },
            Err(error) => {
                &&& bundle_refusal(old(vault)@, version, event_views(events@)) == Some(error@)
                &&& final(vault)@ == old(vault)@
            },
        },
{
    if version != BUNDLE_VERSION {
        return Err(UserCommandError::UnsupportedBundle);
    }
    let identity = match UserIdentity::from_events(events) {
        Ok(identity) => identity,
        Err(error) => {
            return Err(UserCommandError::Identity(error));
        },
    };
    match vault.import_user_identity(&identity) {
        Ok(imported) => Ok(imported),
        Err(error) => Err(UserCommandError::Trust(error)),
    }
}

/// Loads the user identity that a command needs.
pub fn require_user(vault: &TrustStore) -> (user: Result<UserIdentity, UserCommandError>)
    requires
        vault.wf(),
    ensures
        match user {
            Ok(user) => user.wf() && vault@.loaded_user() == Ok::<Option<UserView>, TrustFailure>(
                Some(user@),
            ),
            Err(error) => match vault@.loaded_user() {
                Err(refused) => error@ == UserFailure::Trust(refused),
                Ok(None) => error@ == UserFailure::NoUser,
                Ok(Some(_)) => false,
            },
        },
{
    match vault.user_identity() {
        Err(error) => Err(UserCommandError::Trust(error)),
        Ok(None) => Err(UserCommandError::NoUser),
        Ok(Some(user)) => Ok(user),
    }
}

/// Renders an encoded bundle as URL-safe text, which decodes to it again.
pub fn encode_bundle(encoded: &[u8]) -> (text: Result<String, EncodingError>)
    ensures
        match text {
            Ok(text) => {
                &&& encoded@.len() <= 262144
                &&& text@ == base64_text(encoded@)
                &&& bounded_bytes(text@, 262144) == Ok::<Seq<u8>, EncodingFailure>(encoded@)
            },
            Err(error) => encoded@.len() > 262144 && error@ == EncodingFailure::TooLarge,
        },
{
    encode_bounded(encoded, BUNDLE_LIMIT)
}

/// Reads an encoded bundle from URL-safe text.
pub fn decode_bundle(text: &str) -> (encoded: Result<Vec<u8>, EncodingError>)
    ensures
        match encoded {
            Ok(encoded) => bounded_bytes(text@, 262144) == Ok::<Seq<u8>, EncodingFailure>(
                encoded@,
            ),
            Err(error) => bounded_bytes(text@, 262144) == Err::<Seq<u8>, EncodingFailure>(error@),
        },
{
    decode_bounded(text, BUNDLE_LIMIT)
}

/// A membership change is refused exactly where the device to add is linked, the
/// device to remove is not or is the last, or the local device is not linked.
pub proof fn law_change_is_accepted_exactly(
    user: UserView,
    actor: Seq<u8>,
    device: Seq<u8>,
    remove: bool,
)
    ensures
        change_refusal(user, actor, device, remove) is None <==> user.devices.contains(actor) && (
        if remove {
            user.devices.contains(device) && user.devices.len() != 1
        } else {
            !user.devices.contains(device)
        }),
        requested(device, true) == ActionView::Remove(device),
        requested(device, false) == ActionView::Add(device),
{
}

/// A change event is written exactly where the vault has a device and a user,
/// the text is a device's key, and the change is accepted and can be appended;
/// it is then the user's next event, signed by the local device, for that
/// device.
pub proof fn law_change_event_is_exact(
    state: TrustView,
    text: Seq<char>,
    remove: bool,
    local: MaterialView,
    user: UserView,
    device: Seq<u8>,
)
    requires
        state.loaded_device() == Ok::<Option<MaterialView>, TrustFailure>(Some(local)),
        state.loaded_user() == Ok::<Option<UserView>, TrustFailure>(Some(user)),
        parsed_key(text) == Ok::<Seq<u8>, KeyTextError>(device),
    ensures
        ({
            let public = ed25519_public(local.secret);
            let action = if remove {
                ActionView::Remove(device)
            } else {
                ActionView::Add(device)
            };
            let event = user.issued(local.secret, public, action);
            &&& change_event(state, text, remove) is Ok <==> change_refusal(
                user,
                public,
                device,
                remove,
            ) is None && state.append_refusal(event) is None
            &&& change_event(state, text, remove) is Ok ==> change_event(state, text, remove)
                == Ok::<EventView, UserFailure>(event)
        }),
{
}

/// A history bundle is accepted exactly where it has the first version, its
/// events are a history, and the vault can import it.
pub proof fn law_bundle_is_accepted_exactly(
    state: TrustView,
    version: u8,
    events: Seq<EventView>,
)
    ensures
        bundle_refusal(state, version, events) is None <==> version == 1 && chain(events) is Ok
            && state.import_refusal(chain(events)->Ok_0) is None,
{
}

proof fn lemma_scanned_pairs(text: Seq<u8>, pairs: nat)
    requires
        scanned(text, pairs) is Ok,
    ensures
        scanned(text, pairs)->Ok_0.len() == pairs,
        forall|i: int|
            0 <= i < pairs ==> pair_value(text[2 * i] as char, text[2 * i + 1] as char) == Some(
                #[trigger] scanned(text, pairs)->Ok_0[i] as int,
            ),
    decreases pairs,
{
    if pairs > 0 {
        let fewer = (pairs - 1) as nat;
        lemma_scanned_pairs(text, fewer);
        let before = scanned(text, fewer)->Ok_0;
        let all = scanned(text, pairs)->Ok_0;
        let at = 2 * fewer;
        let value = byte_pair(text[at as int], text[at as int + 1])->0;
        assert(0 <= value < 256);
        assert forall|i: int| 0 <= i < pairs implies pair_value(
            text[2 * i] as char,
            text[2 * i + 1] as char,
        ) == Some(#[trigger] all[i] as int) by {
            if i < fewer {
                assert(all[i] == before[i]);
            }
        }
    }
}

/// A key that is read has 32 bytes, is a point, and each byte is what its two
/// digits say.
pub proof fn law_read_key_says_its_digits(text: Seq<char>, key: Seq<u8>)
    requires
        parsed_key(text) == Ok::<Seq<u8>, KeyTextError>(key),
    ensures
        key.len() == 32,
        ed25519_point(key),
        encode_utf8(text).len() == 64,
        forall|i: int|
            0 <= i < 32 ==> pair_value(
                encode_utf8(text)[2 * i] as char,
                encode_utf8(text)[2 * i + 1] as char,
            ) == Some(#[trigger] key[i] as int),
{
    lemma_scanned_pairs(encode_utf8(text), 32);
}

} // verus!
