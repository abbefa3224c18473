//! The local user's identity history in a trust vault.

use super::TrustStore;
use crate::crypto::ed25519_public;
use crate::identity::device::DevicePublicKey;
use crate::identity::user::{
    chain, event_digest, event_views, EventView, UserEvent, UserIdentity, UserIdentityError,
    UserView,
};
use crate::text::same_bytes;
use crate::trust::error::{trust_refused, TrustError, TrustFailure};
use crate::trust::rows::{
    check_number, event_row_views, number_refusal, EventRow, EventRowView, TrustView,
};
use vstd::prelude::*;

verus! {

/// The row that an event leaves.
pub open spec fn event_row(event: EventView) -> EventRowView {
    EventRowView { digest: event_digest(event), event }
}

/// The rows that a history leaves.
pub open spec fn event_rows(events: Seq<EventView>) -> Seq<EventRowView> {
    events.map_values(|event: EventView| event_row(event))
}

/// The events of rows.
pub open spec fn row_events(rows: Seq<EventRowView>) -> Seq<EventView> {
    rows.map_values(|row: EventRowView| row.event)
}

/// Whether rows carry their events' digests and belong to a user.
pub open spec fn rows_intact(rows: Seq<EventRowView>, user: Seq<u8>) -> bool {
    forall|i: int|
        0 <= i < rows.len() ==> (#[trigger] rows[i]).digest == event_digest(rows[i].event)
            && rows[i].event.user == user
}

/// Whether one history starts with another.
pub open spec fn extends(longer: Seq<EventView>, shorter: Seq<EventView>) -> bool {
    shorter.len() <= longer.len() && longer.take(shorter.len() as int) == shorter
}

impl TrustView {
    /// The local user, if installed, or why its history is refused.
    pub open spec fn loaded_user(self) -> Result<Option<UserView>, TrustFailure> {
        match self.user {
            None => Ok(None),
            Some(user) => if !rows_intact(self.events, user) {
                Err(TrustFailure::ProtectedMaterial)
            } else {
                match chain(row_events(self.events)) {
                    Ok(user) => Ok(Some(user)),
                    Err(error) => Err(TrustFailure::UserIdentity(error)),
                }
            },
        }
    }

    /// Why a user cannot be installed.
    pub open spec fn install_refusal(self, identity: UserView) -> Option<TrustFailure> {
        match self.loaded_user() {
            Err(error) => Some(error),
            Ok(Some(_)) => Some(TrustFailure::UserAlreadyInitialized),
            Ok(None) => match self.needed_device() {
                Err(error) => Some(error),
                Ok(device) => if !identity.devices.contains(ed25519_public(device.secret)) {
                    Some(TrustFailure::SharePrincipalMismatch)
                } else {
                    number_refusal(identity.events.last().sequence)
                },
            },
        }
    }

    /// The vault with a user installed.
    pub open spec fn installed(self, identity: UserView) -> TrustView {
        TrustView { user: Some(identity.id), events: event_rows(identity.events), ..self }
    }

    /// Why an event cannot extend the local user's history.
    pub open spec fn append_refusal(self, event: EventView) -> Option<TrustFailure> {
        match self.loaded_user() {
            Err(error) => Some(error),
            Ok(None) => Some(TrustFailure::UserIdentity(UserIdentityError::MissingGenesis)),
            Ok(Some(user)) => match user.apply_refusal(event) {
                Some(error) => Some(TrustFailure::UserIdentity(error)),
                None => number_refusal(event.sequence),
            },
        }
    }

    /// Why a history cannot be imported.
    pub open spec fn import_refusal(self, incoming: UserView) -> Option<TrustFailure> {
        match self.loaded_user() {
            Err(error) => Some(error),
            Ok(None) => self.install_refusal(incoming),
            Ok(Some(current)) => if current.id != incoming.id || !extends(
                incoming.events,
                current.events,
            ) {
                Some(TrustFailure::UserIdentity(UserIdentityError::Fork))
            } else if current.events.len() == incoming.events.len() {
                None
            } else {
                number_refusal(incoming.events.last().sequence)
            },
        }
    }

    /// The vault with an event appended to the local user's history.
    pub open spec fn appended(self, event: EventView) -> TrustView {
        TrustView { events: self.events.push(event_row(event)), ..self }
    }
}

/// What an optional user says, or why it is refused.
pub open spec fn user_view(result: Result<Option<UserIdentity>, TrustError>) -> Result<
    Option<UserView>,
    TrustFailure,
> {
    match result {
        Ok(Some(user)) => Ok(Some(user@)),
        Ok(None) => Ok(None),
        Err(error) => Err(error@),
    }
}

/// Every event of a chain belongs to its user and stands at its sequence.
pub proof fn lemma_chain_events(events: Seq<EventView>)
    requires
        chain(events) is Ok,
    ensures
        chain(events)->Ok_0.events == events,
        events.len() > 0,
        forall|i: int|
            0 <= i < events.len() ==> (#[trigger] events[i]).user == chain(events)->Ok_0.id
                && events[i].sequence == i,
    decreases events.len(),
{
    let user = chain(events)->Ok_0;
    if events.len() == 1 {
        assert(events =~= seq![events[0]]);
    } else {
        let shorter = events.drop_last();
        lemma_chain_events(shorter);
        assert(events =~= shorter.push(events.last()));
        assert forall|i: int| 0 <= i < events.len() implies (#[trigger] events[i]).user == user.id
            && events[i].sequence == i by {
            if i < shorter.len() {
                assert(events[i] == shorter[i]);
            }
        }
    }
}

/// The rows of a valid history give the history back.
pub proof fn lemma_rows_read_back(state: TrustView, identity: UserView)
    requires
        chain(identity.events) == Ok::<UserView, UserIdentityError>(identity),
        state.user == Some(identity.id),
        state.events == event_rows(identity.events),
    ensures
        state.loaded_user() == Ok::<Option<UserView>, TrustFailure>(Some(identity)),
{
    lemma_chain_events(identity.events);
    assert(row_events(state.events) =~= identity.events);
    assert forall|i: int| 0 <= i < state.events.len() implies (#[trigger] state.events[i]).digest
        == event_digest(state.events[i].event) && state.events[i].event.user == identity.id by {
        assert(state.events[i].event == identity.events[i]);
    }
}

/// The rows of a vault whose user loads are those of the user's history.
proof fn lemma_rows_of_user(state: TrustView, user: UserView)
    requires
        state.loaded_user() == Ok::<Option<UserView>, TrustFailure>(Some(user)),
    ensures
        state.user == Some(user.id),
        state.events == event_rows(user.events),
        chain(user.events) == Ok::<UserView, UserIdentityError>(user),
{
    let events = row_events(state.events);
    lemma_chain_events(events);
    assert(state.events[0].event == events[0]);
    assert forall|i: int| 0 <= i < state.events.len() implies state.events[i] == event_rows(
        user.events,
    )[i] by {
        assert(state.events[i].event == events[i]);
    }
    assert(state.events =~= event_rows(user.events));
}

fn to_rows(events: &[UserEvent], start: usize) -> (rows: Vec<EventRow>)
    requires
        start <= events@.len(),
    ensures
        event_row_views(rows@) == event_rows(event_views(events@).skip(start as int)),
{
    let mut rows: Vec<EventRow> = Vec::new();
    let mut index: usize = start;
    while index < events.len()
        invariant
            start <= index <= events@.len(),
            rows@.len() == index - start,
            forall|i: int|
                0 <= i < rows@.len() ==> (#[trigger] rows@[i])@ == event_row(
                    event_views(events@)[start + i],
                ),
        decreases events@.len() - index,
    {
        let event = &events[index];
        let ghost before = rows@;
        rows.push(EventRow { digest: event.digest(), event: event.clone() });
        proof {
            assert forall|i: int| 0 <= i < rows@.len() implies (#[trigger] rows@[i])@ == event_row(
                event_views(events@)[start + i],
            ) by {
                if i < before.len() {
                    assert(rows@[i] == before[i]);
                }
            }
        }
        index += 1;
    }
    assert(event_row_views(rows@) =~= event_rows(event_views(events@).skip(start as int)));
    rows
}

fn has_device(identity: &UserIdentity, device: &DevicePublicKey) -> (found: bool)
    requires
        identity.wf(),
    ensures
        found == identity@.devices.contains(device@),
{
    let devices = identity.devices();
    let ghost views = devices@.map_values(|device: DevicePublicKey| device@);
    let mut index: usize = 0;
    while index < devices.len()
        invariant
            index <= devices@.len(),
            views == devices@.map_values(|device: DevicePublicKey| device@),
            views.to_set() == identity@.devices,
            forall|i: int| 0 <= i < index ==> views[i] != device@,
        decreases devices@.len() - index,
    {
        assert(views[index as int] == devices@[index as int]@);
        if devices[index].same(device) {
            assert(views.contains(device@));
            return true;
        }
        index += 1;
    }
    false
}

impl TrustStore {
    /// Loads and verifies this vault's complete local user identity chain.
    pub fn user_identity(&self) -> (user: Result<Option<UserIdentity>, TrustError>)
        requires
            self.wf(),
        ensures
            user_view(user) == self@.loaded_user(),
            user matches Ok(Some(user)) ==> user.wf(),
    {
        let user: [u8; 32] = match self.rows.user {
            None => {
                return Ok(None);
            },
            Some(user) => user,
        };
        let ghost rows = self@.events;
        let mut events: Vec<UserEvent> = Vec::new();
        let mut index: usize = 0;
        while index < self.rows.events.len()
            invariant
                index <= self.rows.events@.len(),
                rows == event_row_views(self.rows.events@),
                events@.len() == index,
                forall|i: int|
                    0 <= i < index ==> (#[trigger] rows[i]).digest == event_digest(rows[i].event)
                        && rows[i].event.user == user@,
                forall|i: int| 0 <= i < index ==> (#[trigger] events@[i])@ == rows[i].event,
                self@.user == Some(user@),
                self@.events == rows,
            decreases self.rows.events@.len() - index,
        {
            let row = &self.rows.events[index];
            assert(rows[index as int] == row@);
            let digest = row.event.digest();
            if !same_bytes(row.digest.as_slice(), digest.as_slice()) || !same_bytes(
                row.event.user().0.as_slice(),
                user.as_slice(),
            ) {
                return Err(TrustError::ProtectedMaterial);
            }
            let ghost before = events@;
            events.push(row.event.clone());
            proof {
                assert forall|i: int| 0 <= i < events@.len() implies (#[trigger] events@[i])@
                    == rows[i].event by {
                    if i < before.len() {
                        assert(events@[i] == before[i]);
                    }
                }
            }
            index += 1;
        }
        assert(event_views(events@) =~= row_events(rows));
        match UserIdentity::from_events(events) {
            Ok(identity) => Ok(Some(identity)),
            Err(error) => Err(TrustError::UserIdentity(error)),
        }
    }

    /// Creates a new user identity rooted in this vault's device.
    pub fn initialize_user_identity(&mut self) -> (user: Result<UserIdentity, TrustError>)
        requires
            old(self).wf(),
        ensures
            final(self).wf(),
            match user {
                Ok(user) => {
                    let device = old(self)@.needed_device()->Ok_0;
                    let public = ed25519_public(device.secret);
                    &&& user.wf()
                    &&& old(self)@.loaded_user() == Ok::<Option<UserView>, TrustFailure>(None)
                    &&& old(self)@.needed_device() is Ok
                    &&& user@.devices == set![public]
                    &&& exists|nonce: Seq<u8>|
                        nonce.len() == 16 && user@.events == seq![
                            #[trigger] crate::identity::user::founding(
                                device.secret,
                                public,
                                nonce,
                            ),
                        ]
                    &&& final(self)@ == old(self)@.installed(user@)
                    &&& final(self)@.loaded_user() == Ok::<Option<UserView>, TrustFailure>(
                        Some(user@),
                    )
                },
                Err(error) => {
                    &&& final(self)@ == old(self)@
                    &&& match old(self)@.loaded_user() {
                        Err(refused) => error@ == refused,
                        Ok(Some(_)) => error@ == TrustFailure::UserAlreadyInitialized,
                        Ok(None) => match old(self)@.needed_device() {
                            Err(refused) => error@ == refused,
                            Ok(device) => {
                                ||| error@ == TrustFailure::UserIdentity(
                                    UserIdentityError::Randomness,
                                )
                                ||| error@ == TrustFailure::UserIdentity(
                                    UserIdentityError::InvalidSignature,
                                ) && exists|nonce: Seq<u8>|
                                    crate::crypto::degenerate(
                                        (#[trigger] crate::identity::user::founding(
                                            device.secret,
                                            ed25519_public(device.secret),
                                            nonce,
                                        )).signature,
                                    )
                            },
                        },
                    }
                },
            },
    {
        match self.user_identity() {
            Err(error) => {
                return Err(error);
            },
            Ok(Some(_)) => {
                return Err(TrustError::UserAlreadyInitialized);
            },
            Ok(None) => {},
        }
        let device = match self.need_device() {
            Ok(device) => device,
            Err(error) => {
                return Err(error);
            },
        };
        let identity = match UserIdentity::create(&device.identity) {
            Ok(identity) => identity,
            Err(error) => {
                assert(device.identity.public() == ed25519_public(device@.secret));
                return Err(TrustError::UserIdentity(error));
            },
        };
        match self.install_user_identity(&identity) {
            Ok(_) => Ok(identity),
            Err(error) => Err(error),
        }
    }

    /// Installs a complete verified user chain containing this local device.
    ///
    /// This is the durable acceptance boundary when another linked device
    /// transfers user identity history.
    pub fn install_user_identity(&mut self, identity: &UserIdentity) -> (result: Result<
        (),
        TrustError,
    >)
        requires
            old(self).wf(),
            identity.wf(),
        ensures
            final(self).wf(),
            trust_refused(result) == old(self)@.install_refusal(identity@),
            result is Err ==> final(self)@ == old(self)@,
            result is Ok ==> final(self)@ == old(self)@.installed(identity@),
            result is Ok ==> final(self)@.loaded_user() == Ok::<Option<UserView>, TrustFailure>(
                Some(identity@),
            ),
    {
        match self.user_identity() {
            Err(error) => {
                return Err(error);
            },
            Ok(Some(_)) => {
                return Err(TrustError::UserAlreadyInitialized);
            },
            Ok(None) => {},
        }
        let device = match self.need_device() {
            Ok(device) => device,
            Err(error) => {
                return Err(error);
            },
        };
        if !has_device(identity, &device.identity.public_key()) {
            return Err(TrustError::SharePrincipalMismatch);
        }
        proof {
            identity.law_history_reconstructs();
        }
        let events = identity.events();
        assert(event_views(events@).len() == events@.len());
        match check_number(events[events.len() - 1].sequence()) {
            Ok(_) => {},
            Err(error) => {
                return Err(error);
            },
        }
        let rows = to_rows(events, 0);
        self.rows.user = Some(identity.id().0);
        self.rows.events = rows;
        proof {
            assert(event_views(events@).skip(0) =~= event_views(events@));
            assert(self@ =~= old(self)@.installed(identity@));
            lemma_rows_read_back(self@, identity@);
        }
        Ok(())
    }

    /// Verifies and atomically appends the next linked-device membership event.
    pub fn apply_user_event(&mut self, event: &UserEvent) -> (user: Result<UserIdentity, TrustError>)
        requires
            old(self).wf(),
        ensures
            final(self).wf(),
            trust_refused(user) == old(self)@.append_refusal(event@),
            match user {
                Ok(user) => {
                    &&& user.wf()
                    &&& user@ == old(self)@.loaded_user()->Ok_0->0.applied(event@)
                    &&& final(self)@ == old(self)@.appended(event@)
                    &&& final(self)@.loaded_user() == Ok::<Option<UserView>, TrustFailure>(
                        Some(user@),
                    )
                },
                Err(_) => final(self)@ == old(self)@,
            },
    {
        let mut identity = match self.user_identity() {
            Err(error) => {
                return Err(error);
            },
            Ok(None) => {
                return Err(TrustError::UserIdentity(UserIdentityError::MissingGenesis));
            },
            Ok(Some(identity)) => identity,
        };
        let ghost before = identity@;
        match identity.apply(event.clone()) {
            Ok(_) => {},
            Err(error) => {
                return Err(TrustError::UserIdentity(error));
            },
        }
        match check_number(event.sequence()) {
            Ok(_) => {},
            Err(error) => {
                return Err(error);
            },
        }
        let ghost start = self@;
        proof {
            lemma_rows_of_user(start, before);
        }
        self.rows.events.push(EventRow { digest: event.digest(), event: event.clone() });
        proof {
            assert(self@.events =~= start.events.push(event_row(event@)));
            assert(self@ =~= start.appended(event@));
            assert(self@.events =~= event_rows(identity@.events));
            identity.law_history_reconstructs();
            lemma_rows_read_back(self@, identity@);
        }
        Ok(identity)
    }

    /// Atomically imports a verified chain that extends local user history.
    ///
    /// An identical chain is idempotent. A shorter chain or any event mismatch
    /// is treated as a fork. The local device may be absent from the final
    /// membership: accepting one's own signed removal is required for honest
    /// lost-device propagation.
    #[verifier::rlimit(40)]
    pub fn import_user_identity(&mut self, incoming: &UserIdentity) -> (user: Result<
        UserIdentity,
        TrustError,
    >)
        requires
            old(self).wf(),
            incoming.wf(),
        ensures
            final(self).wf(),
            trust_refused(user) == old(self)@.import_refusal(incoming@),
            match user {
                Ok(user) => {
                    &&& user.wf()
                    &&& user@ == incoming@
                    &&& final(self)@ == old(self)@.installed(incoming@)
                    &&& final(self)@.loaded_user() == Ok::<Option<UserView>, TrustFailure>(
                        Some(incoming@),
                    )
                },
                Err(_) => final(self)@ == old(self)@,
            },
    {
        let current = match self.user_identity() {
            Err(error) => {
                return Err(error);
            },
            Ok(None) => {
                return match self.install_user_identity(incoming) {
                    Ok(_) => Ok(incoming.clone()),
                    Err(error) => Err(error),
                };
            },
            Ok(Some(current)) => current,
        };
        let ghost start = self@;
        proof {
            lemma_rows_of_user(start, current@);
            incoming.law_history_reconstructs();
        }
        let known = current.events();
        let events = incoming.events();
        assert(event_views(known@) == current@.events);
        assert(event_views(events@) == incoming@.events);
        assert(event_views(known@).len() == known@.len());
        assert(event_views(events@).len() == events@.len());
        if !same_bytes(current.id().0.as_slice(), incoming.id().0.as_slice()) || events.len()
            < known.len() {
            return Err(TrustError::UserIdentity(UserIdentityError::Fork));
        }
        let mut index: usize = 0;
        while index < known.len()
            invariant
                *self == *old(self),
                start == self@,
                self.wf(),
                start.loaded_user() == Ok::<Option<UserView>, TrustFailure>(Some(current@)),
                event_views(known@) == current@.events,
                event_views(events@) == incoming@.events,
                index <= known@.len() <= events@.len(),
                forall|i: int|
                    0 <= i < index ==> #[trigger] current@.events[i] == incoming@.events[i],
            decreases known@.len() - index,
        {
            assert(current@.events[index as int] == known@[index as int]@);
            assert(incoming@.events[index as int] == events@[index as int]@);
            if !known[index].same(&events[index]) {
                proof {
                    if extends(incoming@.events, current@.events) {
                        assert(incoming@.events.take(current@.events.len() as int)[index as int]
                            == current@.events[index as int]);
                    }
                }
                return Err(TrustError::UserIdentity(UserIdentityError::Fork));
            }
            index += 1;
        }
        assert(incoming@.events.take(current@.events.len() as int) =~= current@.events);
        if events.len() == known.len() {
            proof {
                assert(incoming@.events =~= current@.events);
                current.law_history_reconstructs();
                assert(current@ == incoming@);
                assert(start =~= start.installed(incoming@));
            }
            return Ok(current);
        }
        match check_number(events[events.len() - 1].sequence()) {
            Ok(_) => {},
            Err(error) => {
                return Err(error);
            },
        }
        let mut rows = to_rows(events, known.len());
        let ghost added = event_row_views(rows@);
        let ghost before = self.rows.events@;
        self.rows.events.append(&mut rows);
        proof {
            assert(self@.events =~= start.events + added);
            assert(self@.events =~= event_rows(incoming@.events));
            assert(self@ =~= start.installed(incoming@));
            lemma_rows_read_back(self@, incoming@);
        }
        Ok(incoming.clone())
    }
}

} // verus!
