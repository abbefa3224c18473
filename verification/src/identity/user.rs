//! A person's identity as a signed, hash-linked chain of devices.

use crate::bytes::{be, be_u64, extend, frame, framed, hex, hex_text, push_part};
use crate::crypto;
use crate::crypto::{blake3_hash, degenerate};
use crate::identity::device::{scoped_signature, scoped_valid, DeviceIdentity, DevicePublicKey};
use crate::ordmap::{ascending, OrdMap};
use crate::text::{copy_bytes, same_bytes};
use vstd::prelude::*;
use vstd::string::*;
use vstd::utf8::encode_utf8;

verus! {

/// The domain of user identity signatures.
pub open spec fn user_domain() -> Seq<u8> {
    encode_utf8("cyrene/user-identity/1"@)
}

/// The version of user identity events.
pub const USER_VERSION: u8 = 1;

/// Stable identity of one person assembled from an explicit device chain.
#[derive(Clone, Copy, Debug, PartialEq, Eq, PartialOrd, Ord, Hash)]
pub struct UserId(pub [u8; 32]);

impl View for UserId {
    type V = Seq<u8>;

    open spec fn view(&self) -> Seq<u8> {
        self.0@
    }
}

impl UserId {
    /// Restores a user identifier from its digest bytes.
    pub fn from_bytes(bytes: [u8; 32]) -> (id: Self)
        ensures
            id@ == bytes@,
    {
        UserId(bytes)
    }

    /// Returns the complete digest bytes.
    pub fn as_bytes(&self) -> (bytes: &[u8; 32])
        ensures
            bytes@ == self@,
    {
        &self.0
    }

    /// Renders the first eight bytes in hexadecimal.
    pub fn to_string(&self) -> (text: String)
        ensures
            text@ == hex_text(self@.take(8)),
    {
        hex(vstd::slice::slice_subrange(self.0.as_slice(), 0, 8))
    }
}

/// One device-membership transition in a user identity chain.
#[derive(Clone, Copy, Debug, PartialEq, Eq)]
pub enum UserAction {
    /// Authorize a newly linked device as this user.
    Add(DevicePublicKey),
    /// Remove a linked device for all future user-identity epochs.
    Remove(DevicePublicKey),
}

/// What a [`UserAction`] says.
#[verifier::ext_equal]
pub enum ActionView {
    /// Link a device.
    Add(Seq<u8>),
    /// Unlink a device.
    Remove(Seq<u8>),
}

impl View for UserAction {
    type V = ActionView;

    open spec fn view(&self) -> ActionView {
        match self {
            UserAction::Add(device) => ActionView::Add(device@),
            UserAction::Remove(device) => ActionView::Remove(device@),
        }
    }
}

/// Signed, hash-linked user device membership event.
#[derive(Debug, PartialEq, Eq)]
pub struct UserEvent {
    /// Event version.
    pub version: u8,
    /// User whose chain this event belongs to.
    pub user: UserId,
    /// Zero-based chain position.
    pub sequence: u64,
    /// Digest of the event before it.
    pub previous: [u8; 32],
    /// Random bytes of the first event.
    pub genesis_nonce: Option<[u8; 16]>,
    /// Membership transition.
    pub action: UserAction,
    /// Linked device that signed the event.
    pub actor: DevicePublicKey,
    /// Signature of the actor.
    pub signature: Vec<u8>,
}

/// What a [`UserEvent`] says.
#[verifier::ext_equal]
pub struct EventView {
    /// Event version.
    pub version: u8,
    /// User whose chain this event belongs to.
    pub user: Seq<u8>,
    /// Zero-based chain position.
    pub sequence: u64,
    /// Digest of the event before it.
    pub previous: Seq<u8>,
    /// Random bytes of the first event.
    pub genesis_nonce: Option<Seq<u8>>,
    /// Membership transition.
    pub action: ActionView,
    /// Linked device that signed the event.
    pub actor: Seq<u8>,
    /// Signature of the actor.
    pub signature: Seq<u8>,
}

impl View for UserEvent {
    type V = EventView;

    open spec fn view(&self) -> EventView {
        EventView {
            version: self.version,
            user: self.user@,
            sequence: self.sequence,
            previous: self.previous@,
            genesis_nonce: match self.genesis_nonce {
                Some(nonce) => Some(nonce@),
                None => None,
            },
            action: self.action@,
            actor: self.actor@,
            signature: self.signature@,
        }
    }
}

/// What a sequence of events says.
pub open spec fn event_views(events: Seq<UserEvent>) -> Seq<EventView> {
    events.map_values(|event: UserEvent| event@)
}

/// What an event's signature covers.
pub open spec fn event_bytes(event: EventView) -> Seq<u8> {
    framed(
        seq![
            user_domain(),
            seq![event.version],
            event.user,
            be(event.sequence as nat, 8),
            event.previous,
        ],
    ) + (match event.genesis_nonce {
        Some(nonce) => seq![1u8] + frame(nonce),
        None => seq![0u8],
    }) + (match event.action {
        ActionView::Add(device) => seq![0u8] + frame(device),
        ActionView::Remove(device) => seq![1u8] + frame(device),
    }) + frame(event.actor)
}

/// The digest that the following event names.
pub open spec fn event_digest(event: EventView) -> Seq<u8> {
    blake3_hash(event_bytes(event) + frame(event.signature))
}

impl UserEvent {
    /// Returns the user identity named by this untrusted event.
    pub fn user(&self) -> (user: UserId)
        ensures
            user@ == self@.user,
    {
        self.user
    }

    /// Returns its zero-based chain position.
    pub fn sequence(&self) -> (sequence: u64)
        ensures
            sequence == self@.sequence,
    {
        self.sequence
    }

    /// Returns the membership transition after successful chain verification.
    pub fn action(&self) -> (action: UserAction)
        ensures
            action@ == self@.action,
    {
        self.action
    }

    /// Returns the linked device that signed this event.
    pub fn actor(&self) -> (actor: DevicePublicKey)
        ensures
            actor@ == self@.actor,
    {
        self.actor
    }

    /// Returns the event digest used by the following chain link.
    pub fn digest(&self) -> (digest: [u8; 32])
        ensures
            digest@ == event_digest(self@),
    {
        let mut bytes = self.signing_bytes();
        push_part(&mut bytes, self.signature.as_slice());
        crypto::hash(bytes.as_slice())
    }

    fn signing_bytes(&self) -> (bytes: Vec<u8>)
        ensures
            bytes@ == event_bytes(self@),
    {
        let mut bytes: Vec<u8> = Vec::new();
        let ghost p0 = Seq::<Seq<u8>>::empty();
        assert(bytes@ =~= framed(p0));
        push_part(&mut bytes, "cyrene/user-identity/1".as_bytes());
        let ghost p1 = p0.push(user_domain());
        assert(bytes@ == framed(p1));
        let version: [u8; 1] = [self.version];
        push_part(&mut bytes, version.as_slice());
        assert(version@ =~= seq![self.version]);
        let ghost p2 = p1.push(seq![self.version]);
        assert(bytes@ == framed(p2));
        push_part(&mut bytes, self.user.0.as_slice());
        let ghost p3 = p2.push(self.user@);
        assert(bytes@ == framed(p3));
        push_part(&mut bytes, be_u64(self.sequence).as_slice());
        let ghost p4 = p3.push(be(self.sequence as nat, 8));
        assert(bytes@ == framed(p4));
        push_part(&mut bytes, self.previous.as_slice());
        let ghost p5 = p4.push(self.previous@);
        assert(bytes@ == framed(p5));
        assert(p5 =~= seq![
            user_domain(),
            seq![self.version],
            self.user@,
            be(self.sequence as nat, 8),
            self.previous@,
        ]);
        let ghost head = bytes@;
        match &self.genesis_nonce {
            Some(nonce) => {
                bytes.push(1);
                push_part(&mut bytes, nonce.as_slice());
                assert(bytes@ =~= head + (seq![1u8] + frame(nonce@)));
            },
            None => {
                bytes.push(0);
                assert(bytes@ =~= head + seq![0u8]);
            },
        }
        let ghost middle = bytes@;
        match &self.action {
            UserAction::Add(device) => {
                bytes.push(0);
                push_part(&mut bytes, device.0.as_slice());
                assert(bytes@ =~= middle + (seq![0u8] + frame(device@)));
            },
            UserAction::Remove(device) => {
                bytes.push(1);
                push_part(&mut bytes, device.0.as_slice());
                assert(bytes@ =~= middle + (seq![1u8] + frame(device@)));
            },
        }
        push_part(&mut bytes, self.actor.0.as_slice());
        bytes
    }

    /// Returns whether two events are the same.
    pub fn same(&self, other: &Self) -> (same: bool)
        ensures
            same == (self@ == other@),
    {
        let nonces = match (&self.genesis_nonce, &other.genesis_nonce) {
            (Some(left), Some(right)) => same_bytes(left.as_slice(), right.as_slice()),
            (None, None) => true,
            _ => false,
        };
        let actions = match (&self.action, &other.action) {
            (UserAction::Add(left), UserAction::Add(right)) => left.same(right),
            (UserAction::Remove(left), UserAction::Remove(right)) => left.same(right),
            _ => false,
        };
        assert(nonces == (self@.genesis_nonce == other@.genesis_nonce));
        assert(actions == (self@.action == other@.action));
        self.version == other.version && same_bytes(self.user.0.as_slice(), other.user.0.as_slice())
            && self.sequence == other.sequence && same_bytes(
            self.previous.as_slice(),
            other.previous.as_slice(),
        ) && nonces && actions && self.actor.same(&other.actor) && same_bytes(
            self.signature.as_slice(),
            other.signature.as_slice(),
        )
    }
}

impl Clone for UserEvent {
    fn clone(&self) -> (copy: Self)
        ensures
            copy@ == self@,
    {
        UserEvent {
            version: self.version,
            user: self.user,
            sequence: self.sequence,
            previous: self.previous,
            genesis_nonce: self.genesis_nonce,
            action: self.action,
            actor: self.actor,
            signature: copy_bytes(self.signature.as_slice()),
        }
    }
}

/// A user device-chain creation or verification failure.
#[derive(Clone, Copy, Debug, PartialEq, Eq, Structural)]
pub enum UserIdentityError {
    /// No genesis event was supplied.
    MissingGenesis,
    /// Secure randomness was unavailable.
    Randomness,
    /// Event fields do not form a supported identity transition.
    InvalidEvent,
    /// Event sequence is not the next contiguous position.
    InvalidSequence,
    /// This exact event is already present in the verified chain.
    Duplicate,
    /// Event names another predecessor at this chain position.
    Fork,
    /// The device signature is invalid.
    InvalidSignature,
    /// The signing device is not a current member.
    UnauthorizedActor,
    /// The target device is already linked.
    AlreadyLinked,
    /// The target device is not linked.
    NotLinked,
    /// A user identity must retain at least one device.
    LastDevice,
}

impl UserIdentityError {
    /// The human-readable reason.
    pub open spec fn text(self) -> Seq<char> {
        match self {
            UserIdentityError::MissingGenesis => "the user identity has no genesis event"@,
            UserIdentityError::Randomness => "secure random generation failed"@,
            UserIdentityError::InvalidEvent => "the user identity event is invalid"@,
            UserIdentityError::InvalidSequence
                => "the user identity event has a non-contiguous sequence"@,
            UserIdentityError::Duplicate => "the user identity event is already applied"@,
            UserIdentityError::Fork
                => "the user identity event conflicts with this membership history"@,
            UserIdentityError::InvalidSignature
                => "the user identity event signature is invalid"@,
            UserIdentityError::UnauthorizedActor
                => "the user identity event was signed by an unlinked device"@,
            UserIdentityError::AlreadyLinked => "the device is already linked to this user"@,
            UserIdentityError::NotLinked => "the device is not linked to this user"@,
            UserIdentityError::LastDevice => "the final linked device cannot be removed"@,
        }
    }

    /// Returns the human-readable reason.
    pub fn message(self) -> (message: &'static str)
        ensures
            message@ == self.text(),
    {
        match self {
            UserIdentityError::MissingGenesis => "the user identity has no genesis event",
            UserIdentityError::Randomness => "secure random generation failed",
            UserIdentityError::InvalidEvent => "the user identity event is invalid",
            UserIdentityError::InvalidSequence
                => "the user identity event has a non-contiguous sequence",
            UserIdentityError::Duplicate => "the user identity event is already applied",
            UserIdentityError::Fork
                => "the user identity event conflicts with this membership history",
            UserIdentityError::InvalidSignature => "the user identity event signature is invalid",
            UserIdentityError::UnauthorizedActor
                => "the user identity event was signed by an unlinked device",
            UserIdentityError::AlreadyLinked => "the device is already linked to this user",
            UserIdentityError::NotLinked => "the device is not linked to this user",
            UserIdentityError::LastDevice => "the final linked device cannot be removed",
        }
    }
}

/// What a [`UserIdentity`] holds.
#[verifier::ext_equal]
pub struct UserView {
    /// Stable user identifier.
    pub id: Seq<u8>,
    /// Linked devices.
    pub devices: Set<Seq<u8>>,
    /// Verified history.
    pub events: Seq<EventView>,
}

/// The user identifier that a first device and its nonce give.
pub open spec fn user_id_of(device: Seq<u8>, nonce: Seq<u8>) -> Seq<u8> {
    blake3_hash(user_domain() + device + nonce)
}

/// Whether an event carries its actor's signature.
pub open spec fn event_signed(event: EventView) -> bool {
    scoped_valid(event.actor, user_domain(), event_bytes(event), event.signature)
}

/// The user that a first event establishes, or why it is refused.
pub open spec fn genesis(event: EventView) -> Result<UserView, UserIdentityError> {
    match event.action {
        ActionView::Remove(_) => Err(UserIdentityError::InvalidEvent),
        ActionView::Add(device) => match event.genesis_nonce {
            None => Err(UserIdentityError::MissingGenesis),
            Some(nonce) => if event.version != 1 || event.sequence != 0 || event.previous
                != Seq::new(32, |i: int| 0u8) || event.actor != device || event.user != user_id_of(
                device,
                nonce,
            ) {
                Err(UserIdentityError::InvalidEvent)
            } else if !event_signed(event) {
                Err(UserIdentityError::InvalidSignature)
            } else {
                Ok(UserView { id: event.user, devices: set![device], events: seq![event] })
            },
        },
    }
}

impl UserView {
    /// Why an event is refused as the next one.
    pub open spec fn apply_refusal(self, event: EventView) -> Option<UserIdentityError> {
        if event.version != 1 || event.user != self.id || event.genesis_nonce is Some {
            Some(UserIdentityError::InvalidEvent)
        } else if event.sequence < self.events.len() {
            if self.events[event.sequence as int] == event {
                Some(UserIdentityError::Duplicate)
            } else {
                Some(UserIdentityError::Fork)
            }
        } else if event.sequence > self.events.len() {
            Some(UserIdentityError::InvalidSequence)
        } else if self.events.len() == 0 {
            Some(UserIdentityError::MissingGenesis)
        } else if event.previous != event_digest(self.events.last()) {
            Some(UserIdentityError::Fork)
        } else if !self.devices.contains(event.actor) {
            Some(UserIdentityError::UnauthorizedActor)
        } else if !event_signed(event) {
            Some(UserIdentityError::InvalidSignature)
        } else {
            match event.action {
                ActionView::Add(device) => if self.devices.contains(device) {
                    Some(UserIdentityError::AlreadyLinked)
                } else {
                    None
                },
                ActionView::Remove(device) => if !self.devices.contains(device) {
                    Some(UserIdentityError::NotLinked)
                } else if self.devices.len() == 1 {
                    Some(UserIdentityError::LastDevice)
                } else {
                    None
                },
            }
        }
    }

    /// The user after an event.
    pub open spec fn applied(self, event: EventView) -> UserView {
        UserView {
            id: self.id,
            devices: match event.action {
                ActionView::Add(device) => self.devices.insert(device),
                ActionView::Remove(device) => self.devices.remove(device),
            },
            events: self.events.push(event),
        }
    }

    /// The event that a device of the user signs.
    pub open spec fn issued(self, secret: Seq<u8>, public: Seq<u8>, action: ActionView) -> EventView {
        let unsigned = EventView {
            version: 1,
            user: self.id,
            sequence: self.events.len() as u64,
            previous: event_digest(self.events.last()),
            genesis_nonce: None,
            action,
            actor: public,
            signature: Seq::empty(),
        };
        EventView {
            signature: scoped_signature(secret, user_domain(), event_bytes(unsigned)),
            ..unsigned
        }
    }
}

/// The user that a chain of events establishes, or the first reason why one is
/// refused.
pub open spec fn chain(events: Seq<EventView>) -> Result<UserView, UserIdentityError>
    decreases events.len(),
{
    if events.len() == 0 {
        Err(UserIdentityError::MissingGenesis)
    } else if events.len() == 1 {
        genesis(events[0])
    } else {
        match chain(events.drop_last()) {
            Err(error) => Err(error),
            Ok(user) => match user.apply_refusal(events.last()) {
                Some(error) => Err(error),
                None => Ok(user.applied(events.last())),
            },
        }
    }
}

/// The event that founds a user on a device.
pub open spec fn founding(secret: Seq<u8>, public: Seq<u8>, nonce: Seq<u8>) -> EventView {
    let unsigned = EventView {
        version: 1,
        user: user_id_of(public, nonce),
        sequence: 0,
        previous: Seq::new(32, |i: int| 0u8),
        genesis_nonce: Some(nonce),
        action: ActionView::Add(public),
        actor: public,
        signature: Seq::empty(),
    };
    EventView {
        signature: scoped_signature(secret, user_domain(), event_bytes(unsigned)),
        ..unsigned
    }
}

fn derive_user_id(device: &DevicePublicKey, nonce: &[u8; 16]) -> (id: UserId)
    ensures
        id@ == user_id_of(device@, nonce@),
{
    let mut bytes: Vec<u8> = Vec::new();
    extend(&mut bytes, "cyrene/user-identity/1".as_bytes());
    extend(&mut bytes, device.0.as_slice());
    extend(&mut bytes, nonce.as_slice());
    assert(bytes@ =~= user_domain() + device@ + nonce@);
    UserId(crypto::hash(bytes.as_slice()))
}

/// Verified current membership and history for one user.
#[derive(Debug, PartialEq, Eq)]
pub struct UserIdentity {
    id: UserId,
    devices: OrdMap<DevicePublicKey, ()>,
    events: Vec<UserEvent>,
}

impl View for UserIdentity {
    type V = UserView;

    closed spec fn view(&self) -> UserView {
        UserView {
            id: self.id@,
            devices: self.devices@.dom(),
            events: event_views(self.events@),
        }
    }
}

/// What a result without a value says.
pub open spec fn user_refused<T>(result: Result<T, UserIdentityError>) -> Option<UserIdentityError> {
    match result {
        Ok(_) => None,
        Err(error) => Some(error),
    }
}

impl UserIdentity {
    /// The devices are in order and the identity is what its history
    /// establishes.
    pub closed spec fn wf(self) -> bool {
        self.devices.wf() && chain(self@.events) == Ok::<UserView, UserIdentityError>(self@)
    }

    /// A well-formed identity is what its history establishes.
    pub proof fn law_history_reconstructs(self)
        requires
            self.wf(),
        ensures
            chain(self@.events) == Ok::<UserView, UserIdentityError>(self@),
            self@.events.len() > 0,
            self@.devices.len() > 0,
    {
        law_chain_keeps_a_device(self@.events);
    }

    /// Creates a new user rooted in the local device.
    pub fn create(device: &DeviceIdentity) -> (user: Result<Self, UserIdentityError>)
        ensures
            match user {
                Ok(user) => user.wf() && exists|nonce: Seq<u8>|
                    nonce.len() == 16 && user@ == (UserView {
                        id: user_id_of(device.public(), nonce),
                        devices: set![device.public()],
                        events: seq![#[trigger] founding(device@, device.public(), nonce)],
                    }),
                Err(error) => {
                    ||| error == UserIdentityError::Randomness
                    ||| error == UserIdentityError::InvalidSignature && exists|nonce: Seq<u8>|
                        degenerate(
                            (#[trigger] founding(device@, device.public(), nonce)).signature,
                        )
                },
            },
    {
        match crypto::random::<16>() {
            Some(nonce) => {
                let user = UserIdentity::found(device, nonce);
                proof {
                    let event = founding(device@, device.public(), nonce@);
                    assert(degenerate(event.signature) || !degenerate(event.signature));
                }
                user
            },
            None => Err(UserIdentityError::Randomness),
        }
    }

    /// Creates the user that a device and sixteen random bytes give.
    pub fn found(device: &DeviceIdentity, nonce: [u8; 16]) -> (user: Result<Self, UserIdentityError>)
        ensures
            ({
                let event = founding(device@, device.public(), nonce@);
                match user {
                    Ok(user) => {
                        &&& user.wf()
                        &&& event_signed(event)
                        &&& user@ == (UserView {
                            id: event.user,
                            devices: set![device.public()],
                            events: seq![event],
                        })
                    },
                    Err(error) => {
                        &&& error == UserIdentityError::InvalidSignature
                        &&& !event_signed(event)
                        &&& degenerate(event.signature)
                    },
                }
            }),
    {
        let public = device.public_key();
        let mut event = UserEvent {
            version: USER_VERSION,
            user: derive_user_id(&public, &nonce),
            sequence: 0,
            previous: [0u8; 32],
            genesis_nonce: Some(nonce),
            action: UserAction::Add(public),
            actor: public,
            signature: Vec::new(),
        };
        let ghost unsigned = event@;
        assert(event.previous@ =~= Seq::new(32, |i: int| 0u8));
        let bytes = event.signing_bytes();
        let signature = device.sign("cyrene/user-identity/1".as_bytes(), bytes.as_slice());
        event.signature = copy_bytes(signature.as_slice());
        proof {
            assert(event_bytes(event@) == event_bytes(unsigned));
            assert(event@ =~= founding(device@, device.public(), nonce@));
        }
        UserIdentity::from_genesis(event)
    }

    /// Reconstructs and verifies a complete event chain.
    pub fn from_events(events: Vec<UserEvent>) -> (user: Result<Self, UserIdentityError>)
        ensures
            match user {
                Ok(user) => user.wf() && chain(event_views(events@)) == Ok::<
                    UserView,
                    UserIdentityError,
                >(user@),
                Err(error) => chain(event_views(events@)) == Err::<UserView, UserIdentityError>(
                    error,
                ),
            },
    {
        let ghost views = event_views(events@);
        if events.len() == 0 {
            return Err(UserIdentityError::MissingGenesis);
        }
        let mut user = match UserIdentity::from_genesis(events[0].clone()) {
            Ok(user) => user,
            Err(error) => {
                proof {
                    assert(views.take(1) =~= seq![views[0]]);
                    lemma_chain_error(views, 1);
                }
                return Err(error);
            },
        };
        let mut index: usize = 1;
        proof {
            assert(views.take(1) =~= seq![views[0]]);
        }
        while index < events.len()
            invariant
                user.wf(),
                1 <= index <= events@.len(),
                views == event_views(events@),
                chain(views.take(index as int)) == Ok::<UserView, UserIdentityError>(user@),
            decreases events@.len() - index,
        {
            proof {
                assert(views.take(index + 1).drop_last() =~= views.take(index as int));
                assert(views.take(index + 1).last() == views[index as int]);
            }
            match user.apply(events[index].clone()) {
                Ok(_) => {},
                Err(error) => {
                    proof {
                        lemma_chain_error(views, index + 1);
                    }
                    return Err(error);
                },
            }
            index += 1;
        }
        assert(views.take(views.len() as int) =~= views);
        Ok(user)
    }

    /// Creates a signed event linking `device` to this user.
    ///
    /// The returned event is not active until durably applied.
    pub fn link_device(&self, actor: &DeviceIdentity, device: DevicePublicKey) -> (event: Result<
        UserEvent,
        UserIdentityError,
    >)
        requires
            self.wf(),
        ensures
            match event {
                Ok(event) => {
                    &&& !self@.devices.contains(device@)
                    &&& self@.devices.contains(actor.public())
                    &&& event@ == self@.issued(
                        actor@,
                        actor.public(),
                        ActionView::Add(device@),
                    )
                    &&& !degenerate(event@.signature) ==> self@.apply_refusal(event@) is None
                },
                Err(error) => if self@.devices.contains(device@) {
                    error == UserIdentityError::AlreadyLinked
                } else {
                    &&& error == UserIdentityError::UnauthorizedActor
                    &&& !self@.devices.contains(actor.public())
                },
            },
    {
        if self.devices.contains(&device) {
            return Err(UserIdentityError::AlreadyLinked);
        }
        self.issue(actor, UserAction::Add(device))
    }

    /// Creates a signed event removing `device` from future user authority.
    pub fn remove_device(&self, actor: &DeviceIdentity, device: DevicePublicKey) -> (event: Result<
        UserEvent,
        UserIdentityError,
    >)
        requires
            self.wf(),
        ensures
            match event {
                Ok(event) => {
                    &&& self@.devices.contains(device@)
                    &&& self@.devices.len() != 1
                    &&& self@.devices.contains(actor.public())
                    &&& event@ == self@.issued(
                        actor@,
                        actor.public(),
                        ActionView::Remove(device@),
                    )
                    &&& !degenerate(event@.signature) ==> self@.apply_refusal(event@) is None
                },
                Err(error) => if !self@.devices.contains(device@) {
                    error == UserIdentityError::NotLinked
                } else if self@.devices.len() == 1 {
                    error == UserIdentityError::LastDevice
                } else {
                    &&& error == UserIdentityError::UnauthorizedActor
                    &&& !self@.devices.contains(actor.public())
                },
            },
    {
        if !self.devices.contains(&device) {
            return Err(UserIdentityError::NotLinked);
        }
        if self.devices.len() == 1 {
            return Err(UserIdentityError::LastDevice);
        }
        self.issue(actor, UserAction::Remove(device))
    }

    /// Verifies and applies the next event in this exact chain.
    pub fn apply(&mut self, event: UserEvent) -> (result: Result<(), UserIdentityError>)
        requires
            old(self).wf(),
        ensures
            final(self).wf(),
            user_refused(result) == old(self)@.apply_refusal(event@),
            result is Ok ==> final(self)@ == old(self)@.applied(event@),
            result is Err ==> *final(self) == *old(self),
    {
        if event.version != USER_VERSION || !same_bytes(
            event.user.0.as_slice(),
            self.id.0.as_slice(),
        ) || event.genesis_nonce.is_some() {
            return Err(UserIdentityError::InvalidEvent);
        }
        let expected: u64 = self.events.len() as u64;
        if event.sequence < expected {
            let index: usize = event.sequence as usize;
            return if self.events[index].same(&event) {
                Err(UserIdentityError::Duplicate)
            } else {
                Err(UserIdentityError::Fork)
            };
        }
        if event.sequence > expected {
            return Err(UserIdentityError::InvalidSequence);
        }
        if self.events.len() == 0 {
            return Err(UserIdentityError::MissingGenesis);
        }
        let previous = self.events[self.events.len() - 1].digest();
        if !same_bytes(event.previous.as_slice(), previous.as_slice()) {
            return Err(UserIdentityError::Fork);
        }
        if !self.devices.contains(&event.actor) {
            return Err(UserIdentityError::UnauthorizedActor);
        }
        let bytes = event.signing_bytes();
        if !event.actor.verify(
            "cyrene/user-identity/1".as_bytes(),
            bytes.as_slice(),
            event.signature.as_slice(),
        ) {
            return Err(UserIdentityError::InvalidSignature);
        }
        let ghost before = *self;
        match event.action {
            UserAction::Add(device) => {
                if self.devices.contains(&device) {
                    return Err(UserIdentityError::AlreadyLinked);
                }
                self.devices.insert(device, ());
            },
            UserAction::Remove(device) => {
                if !self.devices.contains(&device) {
                    return Err(UserIdentityError::NotLinked);
                }
                if self.devices.len() == 1 {
                    return Err(UserIdentityError::LastDevice);
                }
                self.devices.remove(&device);
            },
        }
        self.events.push(event);
        proof {
            assert(self@.events =~= before@.events.push(event@));
            assert(self@.devices =~= before@.applied(event@).devices);
            assert(self@ =~= before@.applied(event@));
            assert(self@.events.drop_last() =~= before@.events);
        }
        Ok(())
    }

    /// Returns the stable user identifier.
    pub fn id(&self) -> (id: UserId)
        ensures
            id@ == self@.id,
    {
        self.id
    }

    /// Returns current linked devices in stable public-key order.
    pub fn devices(&self) -> (devices: Vec<DevicePublicKey>)
        requires
            self.wf(),
        ensures
            ascending::<DevicePublicKey>(
                devices@.map_values(|device: DevicePublicKey| device@),
            ),
            devices@.map_values(|device: DevicePublicKey| device@).to_set() == self@.devices,
            devices@.len() == self@.devices.len(),
    {
        let mut devices: Vec<DevicePublicKey> = Vec::new();
        let mut index: usize = 0;
        let len: usize = self.devices.len();
        while index < len
            invariant
                self.wf(),
                len == self.devices.keys().len(),
                index <= len,
                devices@.len() == index,
                forall|i: int|
                    0 <= i < index ==> (#[trigger] devices@[i])@ == self.devices.keys()[i],
            decreases len - index,
        {
            devices.push(*self.devices.key_at(index));
            index += 1;
        }
        proof {
            self.devices.lemma_keys();
            assert(devices@.map_values(|device: DevicePublicKey| device@) =~= self.devices.keys());
        }
        devices
    }

    /// Returns the verified event history.
    pub fn events(&self) -> (events: &[UserEvent])
        ensures
            event_views(events@) == self@.events,
    {
        self.events.as_slice()
    }

    /// Returns the next event sequence, also serving as membership epoch.
    pub fn epoch(&self) -> (epoch: u64)
        ensures
            epoch == self@.events.len(),
    {
        self.events.len() as u64
    }

    fn from_genesis(event: UserEvent) -> (user: Result<Self, UserIdentityError>)
        ensures
            match user {
                Ok(user) => user.wf() && genesis(event@) == Ok::<UserView, UserIdentityError>(
                    user@,
                ),
                Err(error) => genesis(event@) == Err::<UserView, UserIdentityError>(error),
            },
    {
        let device = match event.action {
            UserAction::Add(device) => device,
            UserAction::Remove(_) => return Err(UserIdentityError::InvalidEvent),
        };
        let nonce = match event.genesis_nonce {
            Some(nonce) => nonce,
            None => return Err(UserIdentityError::MissingGenesis),
        };
        let zero: [u8; 32] = [0u8; 32];
        assert(zero@ =~= Seq::new(32, |i: int| 0u8));
        let expected = derive_user_id(&device, &nonce);
        if event.version != USER_VERSION || event.sequence != 0 || !same_bytes(
            event.previous.as_slice(),
            zero.as_slice(),
        ) || !event.actor.same(&device) || !same_bytes(
            event.user.0.as_slice(),
            expected.0.as_slice(),
        ) {
            return Err(UserIdentityError::InvalidEvent);
        }
        let bytes = event.signing_bytes();
        if !device.verify(
            "cyrene/user-identity/1".as_bytes(),
            bytes.as_slice(),
            event.signature.as_slice(),
        ) {
            return Err(UserIdentityError::InvalidSignature);
        }
        let mut devices: OrdMap<DevicePublicKey, ()> = OrdMap::new();
        devices.insert(device, ());
        let id = event.user;
        let mut events: Vec<UserEvent> = Vec::new();
        let ghost first = event@;
        events.push(event);
        let user = UserIdentity { id, devices, events };
        proof {
            assert(user@.events =~= seq![first]);
            assert(user@.devices =~= set![device@]);
            assert(user@ =~= (UserView {
                id: first.user,
                devices: set![device@],
                events: seq![first],
            }));
        }
        Ok(user)
    }

    fn issue(&self, actor: &DeviceIdentity, action: UserAction) -> (event: Result<
        UserEvent,
        UserIdentityError,
    >)
        requires
            self.wf(),
        ensures
            match event {
                Ok(event) => {
                    &&& self@.devices.contains(actor.public())
                    &&& event@ == self@.issued(actor@, actor.public(), action@)
                    &&& event@.sequence == self@.events.len()
                    &&& self@.events.len() > 0
                    &&& !degenerate(event@.signature) ==> event_signed(event@)
                },
                Err(error) => {
                    &&& error == UserIdentityError::UnauthorizedActor
                    &&& !self@.devices.contains(actor.public())
                },
            },
    {
        let public = actor.public_key();
        if !self.devices.contains(&public) {
            return Err(UserIdentityError::UnauthorizedActor);
        }
        proof {
            self.law_history_reconstructs();
        }
        let mut event = UserEvent {
            version: USER_VERSION,
            user: self.id,
            sequence: self.epoch(),
            previous: self.events[self.events.len() - 1].digest(),
            genesis_nonce: None,
            action,
            actor: public,
            signature: Vec::new(),
        };
        let ghost unsigned = event@;
        let bytes = event.signing_bytes();
        let signature = actor.sign("cyrene/user-identity/1".as_bytes(), bytes.as_slice());
        event.signature = copy_bytes(signature.as_slice());
        proof {
            assert(event_bytes(event@) == event_bytes(unsigned));
            assert(event@ =~= self@.issued(actor@, actor.public(), action@));
        }
        Ok(event)
    }
}

impl Clone for UserIdentity {
    fn clone(&self) -> (copy: Self)
        ensures
            self.wf() ==> copy.wf() && copy@ == self@,
    {
        let mut events: Vec<UserEvent> = Vec::new();
        let mut index: usize = 0;
        while index < self.events.len()
            invariant
                index <= self.events@.len(),
                events@.len() == index,
                forall|i: int| 0 <= i < index ==> (#[trigger] events@[i])@ == self.events@[i]@,
            decreases self.events@.len() - index,
        {
            events.push(self.events[index].clone());
            index += 1;
        }
        let copy = UserIdentity { id: self.id, devices: self.devices.clone(), events };
        proof {
            if self.wf() {
                assert(copy@.events =~= self@.events);
                assert(copy@ =~= self@);
            }
        }
        copy
    }
}

proof fn lemma_chain_error(events: Seq<EventView>, len: int)
    requires
        1 <= len <= events.len(),
        chain(events.take(len)) is Err,
    ensures
        chain(events) == chain(events.take(len)),
    decreases events.len() - len,
{
    if len < events.len() {
        assert(events.take(len + 1).drop_last() =~= events.take(len));
        lemma_chain_error(events, len + 1);
    } else {
        assert(events.take(len) =~= events);
    }
}

/// A verified chain always leaves the user with a device, and holds exactly
/// the events that it was given.
pub proof fn law_chain_keeps_a_device(events: Seq<EventView>)
    ensures
        chain(events) matches Ok(user) ==> {
            &&& user.devices.finite()
            &&& user.devices.len() > 0
            &&& user.events == events
            &&& events.len() > 0
            &&& user.id == events[0].user
        },
    decreases events.len(),
{
    if events.len() == 1 {
        if let Ok(user) = chain(events) {
            assert(user.events =~= events);
            let device = events[0].action->Add_0;
            assert(user.devices =~= Set::<Seq<u8>>::empty().insert(device));
        }
    } else if events.len() > 1 {
        law_chain_keeps_a_device(events.drop_last());
        if let Ok(user) = chain(events) {
            let before = chain(events.drop_last())->Ok_0;
            assert(user.events =~= events);
            assert(events.drop_last()[0] == events[0]);
        }
    }
}

/// Competing history is refused: once an event holds a position, any other
/// event for that position is a fork, and the same event is a duplicate.
pub proof fn law_competing_history_is_refused(
    user: UserView,
    event: EventView,
    other: EventView,
)
    requires
        user.apply_refusal(event) is None,
        other.version == 1,
        other.user == user.id,
        other.genesis_nonce is None,
        other.sequence == event.sequence,
    ensures
        user.applied(event).apply_refusal(other) == Some(
            if other == event {
                UserIdentityError::Duplicate
            } else {
                UserIdentityError::Fork
            },
        ),
{
}

/// Removal is forward-looking authority: a removed device can sign no later
/// event.
pub proof fn law_removed_device_signs_nothing(user: UserView, removal: EventView, next: EventView)
    requires
        user.apply_refusal(removal) is None,
        removal.action == ActionView::Remove(next.actor),
    ensures
        user.applied(removal).apply_refusal(next) is Some,
{
}

/// An event is applied exactly where it continues the user's own history, right
/// behind the last event, is signed by a linked device, and links a device that
/// is not linked or removes one that is linked and not the last.
pub proof fn law_event_is_applied_exactly(user: UserView, event: EventView)
    ensures
        user.apply_refusal(event) is None <==> {
            &&& event.version == 1
            &&& event.user == user.id
            &&& event.genesis_nonce is None
            &&& event.sequence == user.events.len()
            &&& user.events.len() > 0
            &&& event.previous == event_digest(user.events.last())
            &&& user.devices.contains(event.actor)
            &&& event_signed(event)
            &&& match event.action {
                ActionView::Add(device) => !user.devices.contains(device),
                ActionView::Remove(device) => user.devices.contains(device) && user.devices.len()
                    != 1,
            }
        },
{
}

/// Each refusal of an event names a reason that holds.
pub proof fn law_refused_event_names_its_reason(user: UserView, event: EventView)
    ensures
        ({
            let refusal = user.apply_refusal(event);
            let own = event.version == 1 && event.user == user.id && event.genesis_nonce is None;
            let next = own && event.sequence == user.events.len() && user.events.len() > 0;
            let behind = next && event.previous == event_digest(user.events.last());
            let signed = behind && user.devices.contains(event.actor) && event_signed(event);
            &&& refusal == Some(UserIdentityError::InvalidEvent) <==> !own
            &&& refusal == Some(UserIdentityError::Duplicate) <==> own && event.sequence
                < user.events.len() && user.events[event.sequence as int] == event
            &&& refusal == Some(UserIdentityError::Fork) <==> (own && event.sequence
                < user.events.len() && user.events[event.sequence as int] != event) || (next
                && !behind)
            &&& refusal == Some(UserIdentityError::InvalidSequence) <==> own && event.sequence
                > user.events.len()
            &&& refusal == Some(UserIdentityError::UnauthorizedActor) <==> behind
                && !user.devices.contains(event.actor)
            &&& refusal == Some(UserIdentityError::InvalidSignature) <==> behind
                && user.devices.contains(event.actor) && !event_signed(event)
            &&& refusal == Some(UserIdentityError::AlreadyLinked) <==> signed && (
            event.action matches ActionView::Add(device) && user.devices.contains(device))
            &&& refusal == Some(UserIdentityError::NotLinked) <==> signed && (
            event.action matches ActionView::Remove(device) && !user.devices.contains(device))
            &&& refusal == Some(UserIdentityError::LastDevice) <==> signed && (
            event.action matches ActionView::Remove(device) && user.devices.contains(device)
                && user.devices.len() == 1)
        }),
{
}

/// An applied event links or removes its own device and no other, and is added
/// at the end of the history.
pub proof fn law_event_changes_one_device(user: UserView, event: EventView, device: Seq<u8>)
    ensures
        ({
            let after = user.applied(event);
            &&& after.id == user.id
            &&& after.events.len() == user.events.len() + 1
            &&& after.events.drop_last() == user.events
            &&& after.events.last() == event
            &&& event.action matches ActionView::Add(added) ==> (after.devices.contains(device)
                <==> user.devices.contains(device) || device == added)
            &&& event.action matches ActionView::Remove(removed) ==> (after.devices.contains(
                device,
            ) <==> user.devices.contains(device) && device != removed)
        }),
{
    assert(user.applied(event).events.drop_last() =~= user.events);
}

/// A history is rebuilt event by event from its founding event.
pub proof fn law_history_is_rebuilt_event_by_event(events: Seq<EventView>, event: EventView)
    ensures
        chain(Seq::empty()) is Err,
        chain(seq![event]) == genesis(event),
        events.len() > 0 ==> (chain(events.push(event)) is Ok <==> chain(events) is Ok && chain(
            events,
        )->Ok_0.apply_refusal(event) is None),
        events.len() > 0 && chain(events.push(event)) is Ok ==> chain(events.push(event)) == Ok::<
            UserView,
            UserIdentityError,
        >(chain(events)->Ok_0.applied(event)),
{
    if events.len() > 0 {
        assert(events.push(event).drop_last() =~= events);
    }
}

/// A history is founded exactly by an event that a device signs to link itself,
/// the first of all, under the identity that comes from the device and a nonce.
pub proof fn law_founding_is_exact(event: EventView)
    ensures
        genesis(event) is Ok <==> {
            &&& event.version == 1
            &&& event.sequence == 0
            &&& event.action == ActionView::Add(event.actor)
            &&& event.genesis_nonce is Some
            &&& event.user == user_id_of(event.actor, event.genesis_nonce->0)
            &&& event.previous.len() == 32
            &&& forall|i: int| 0 <= i < 32 ==> #[trigger] event.previous[i] == 0
            &&& event_signed(event)
        },
        genesis(event) matches Ok(user) ==> {
            &&& user.id == event.user
            &&& user.events == seq![event]
            &&& forall|device: Seq<u8>| #[trigger]
                user.devices.contains(device) <==> device == event.actor
        },
{
    let zeros = Seq::new(32, |i: int| 0u8);
    if event.previous.len() == 32 && forall|i: int|
        0 <= i < 32 ==> #[trigger] event.previous[i] == 0 {
        assert(event.previous =~= zeros);
    }
}

/// A device writes the next event of a history, which says what it was asked to
/// and is applied wherever the device is linked, its signature verifies and the
/// action fits.
pub proof fn law_issued_event_continues_the_history(
    user: UserView,
    secret: Seq<u8>,
    public: Seq<u8>,
    action: ActionView,
)
    requires
        0 < user.events.len() <= u64::MAX,
    ensures
        ({
            let event = user.issued(secret, public, action);
            &&& event.version == 1
            &&& event.user == user.id
            &&& event.sequence == user.events.len()
            &&& event.previous == event_digest(user.events.last())
            &&& event.genesis_nonce is None
            &&& event.action == action
            &&& event.actor == public
            &&& user.apply_refusal(event) is None <==> user.devices.contains(public)
                && event_signed(event) && match action {
                ActionView::Add(device) => !user.devices.contains(device),
                ActionView::Remove(device) => user.devices.contains(device)
                    && user.devices.len() != 1,
            }
        }),
{
}

/// A founding event says what it was asked to.
pub proof fn law_founding_event_links_its_device(
    secret: Seq<u8>,
    public: Seq<u8>,
    nonce: Seq<u8>,
)
    ensures
        ({
            let event = founding(secret, public, nonce);
            &&& event.actor == public
            &&& event.action == ActionView::Add(public)
            &&& event.genesis_nonce == Some(nonce)
            &&& event.user == user_id_of(public, nonce)
            &&& genesis(event) is Ok <==> event_signed(event)
        }),
{
}

/// An event's signed bytes tell every field but the signature apart.
pub proof fn law_event_bytes_are_injective(first: EventView, second: EventView)
    requires
        event_bytes(first) == event_bytes(second),
        first.user.len() == second.user.len() == 32,
        first.previous.len() == second.previous.len() == 32,
        first.actor.len() == second.actor.len() == 32,
        first.genesis_nonce matches Some(nonce) ==> nonce.len() == 16,
        second.genesis_nonce matches Some(nonce) ==> nonce.len() == 16,
        (match first.action {
            ActionView::Add(device) => device,
            ActionView::Remove(device) => device,
        }).len() == 32,
        (match second.action {
            ActionView::Add(device) => device,
            ActionView::Remove(device) => device,
        }).len() == 32,
    ensures
        first == (EventView { signature: first.signature, ..second }),
{
    let bytes = event_bytes(first);
    let head = user_domain().len() as int + 8;
    lemma_event_layout(first);
    lemma_event_layout(second);
    crate::bytes::lemma_be_u64(first.sequence);
    crate::bytes::lemma_be_u64(second.sequence);
    assert(bytes.subrange(head + 17, head + 49) =~= first.user);
    assert(bytes.subrange(head + 17, head + 49) =~= second.user);
    assert(bytes.subrange(head + 57, head + 65) =~= be(first.sequence as nat, 8));
    assert(bytes.subrange(head + 57, head + 65) =~= be(second.sequence as nat, 8));
    assert(bytes.subrange(head + 73, head + 105) =~= first.previous);
    assert(bytes.subrange(head + 73, head + 105) =~= second.previous);
    assert(bytes[head + 8] == first.version);
    assert(bytes[head + 8] == second.version);
    let tail = bytes.skip(head + 105);
    assert(tail =~= event_tail(first));
    assert(tail =~= event_tail(second));
    lemma_tail_injective(first, second);
}

/// What follows the fixed parts of an event's signed bytes.
pub open spec fn event_tail(event: EventView) -> Seq<u8> {
    (match event.genesis_nonce {
        Some(nonce) => seq![1u8] + frame(nonce),
        None => seq![0u8],
    }) + (match event.action {
        ActionView::Add(device) => seq![0u8] + frame(device),
        ActionView::Remove(device) => seq![1u8] + frame(device),
    }) + frame(event.actor)
}

proof fn lemma_event_layout(event: EventView)
    requires
        event.user.len() == 32,
        event.previous.len() == 32,
    ensures
        event_bytes(event) == be(user_domain().len(), 8) + user_domain() + be(1, 8) + seq![
            event.version,
        ] + be(32, 8) + event.user + be(8, 8) + be(event.sequence as nat, 8) + be(32, 8)
            + event.previous + event_tail(event),
        be(user_domain().len(), 8).len() == 8,
        be(1, 8).len() == 8,
        be(8, 8).len() == 8,
        be(32, 8).len() == 8,
        be(event.sequence as nat, 8).len() == 8,
{
    crate::bytes::lemma_be_len(user_domain().len(), 8);
    crate::bytes::lemma_be_len(1, 8);
    crate::bytes::lemma_be_len(8, 8);
    crate::bytes::lemma_be_len(32, 8);
    crate::bytes::lemma_be_len(event.sequence as nat, 8);
    let parts = seq![
        user_domain(),
        seq![event.version],
        event.user,
        be(event.sequence as nat, 8),
        event.previous,
    ];
    reveal_with_fuel(framed, 6);
    assert(parts.drop_last() =~= seq![
        user_domain(),
        seq![event.version],
        event.user,
        be(event.sequence as nat, 8),
    ]);
    assert(parts.drop_last().drop_last() =~= seq![
        user_domain(),
        seq![event.version],
        event.user,
    ]);
    assert(parts.drop_last().drop_last().drop_last() =~= seq![
        user_domain(),
        seq![event.version],
    ]);
    assert(parts.drop_last().drop_last().drop_last().drop_last() =~= seq![user_domain()]);
    assert(framed(parts) =~= frame(user_domain()) + frame(seq![event.version]) + frame(event.user)
        + frame(be(event.sequence as nat, 8)) + frame(event.previous));
    assert(event_bytes(event) =~= be(user_domain().len(), 8) + user_domain() + be(1, 8) + seq![
        event.version,
    ] + be(32, 8) + event.user + be(8, 8) + be(event.sequence as nat, 8) + be(32, 8)
        + event.previous + event_tail(event));
}

proof fn lemma_tail_injective(first: EventView, second: EventView)
    requires
        event_tail(first) == event_tail(second),
        first.actor.len() == second.actor.len() == 32,
        first.genesis_nonce matches Some(nonce) ==> nonce.len() == 16,
        second.genesis_nonce matches Some(nonce) ==> nonce.len() == 16,
        (match first.action {
            ActionView::Add(device) => device,
            ActionView::Remove(device) => device,
        }).len() == 32,
        (match second.action {
            ActionView::Add(device) => device,
            ActionView::Remove(device) => device,
        }).len() == 32,
    ensures
        first.genesis_nonce == second.genesis_nonce,
        first.action == second.action,
        first.actor == second.actor,
{
    crate::bytes::lemma_be_len(16, 8);
    crate::bytes::lemma_be_len(32, 8);
    let tail = event_tail(first);
    assert(tail[0] == if first.genesis_nonce is Some {
        1u8
    } else {
        0u8
    });
    assert(tail[0] == if second.genesis_nonce is Some {
        1u8
    } else {
        0u8
    });
    let at = if first.genesis_nonce is Some {
        25int
    } else {
        1int
    };
    let one = match first.action {
        ActionView::Add(device) => device,
        ActionView::Remove(device) => device,
    };
    let two = match second.action {
        ActionView::Add(device) => device,
        ActionView::Remove(device) => device,
    };
    if first.genesis_nonce is Some {
        assert(tail.subrange(9, 25) =~= first.genesis_nonce->0);
        assert(tail.subrange(9, 25) =~= second.genesis_nonce->0);
    }
    assert(tail[at] == if first.action is Add {
        0u8
    } else {
        1u8
    });
    assert(tail[at] == if second.action is Add {
        0u8
    } else {
        1u8
    });
    assert(tail.subrange(at + 9, at + 41) =~= one);
    assert(tail.subrange(at + 9, at + 41) =~= two);
    assert(tail.subrange(at + 49, at + 81) =~= first.actor);
    assert(tail.subrange(at + 49, at + 81) =~= second.actor);
}

} // verus!
