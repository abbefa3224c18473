//! Bounded storage for the opaque relay protocol.
//!
//! The store is a state machine: one authenticated request and one time lead
//! from one state to the next and to a response. A refused or failed request
//! leaves the state as it was, so whoever keeps the state durably writes only
//! what was answered.

use crate::net::relay::{
    total_bytes, DeliveryView, EnvelopeView, OperationView, RelayDelivery, RelayEnvelope,
    RelayOperation, RelayProtocolError, RelayRefusal, RelayRejection, RelayRequest, RelayResponse,
    RequestView, ResponseView, MAX_RELAY_CLOCK_SKEW,
};
use crate::bytes::{be, be_u32, extend};
use crate::rows::{
    lemma_all_kept, lemma_kept, lemma_kept_pairs, lemma_kept_step, lemma_one_dropped,
};
use crate::text::{copy_bytes, owned, same_bytes};
use vstd::prelude::*;
use vstd::string::*;

verus! {

/// The largest number that a durable store keeps.
pub const MAX_STORED: u64 = 9_223_372_036_854_775_807;

/// Largest request accepted by a relay service.
pub const MAX_FRAME_BYTES: usize = 24 * 1024 * 1024;

/// Resource ceilings enforced independently of public protocol limits.
#[derive(Clone, Copy, Debug, PartialEq, Eq, Structural)]
pub struct RelayLimits {
    /// Maximum retained ciphertext bytes for one pseudonymous mailbox.
    pub mailbox_bytes: u64,
    /// Maximum retained objects for one pseudonymous mailbox.
    pub mailbox_objects: u64,
    /// Maximum retained ciphertext bytes across the service.
    pub total_bytes: u64,
}

impl Default for RelayLimits {
    fn default() -> (limits: Self)
        ensures
            limits == (RelayLimits {
                mailbox_bytes: 67108864,
                mailbox_objects: 10000,
                total_bytes: 1073741824,
            }),
    {
        RelayLimits {
            mailbox_bytes: 64 * 1024 * 1024,
            mailbox_objects: 10_000,
            total_bytes: 1024 * 1024 * 1024,
        }
    }
}

/// Why service limits are refused.
#[derive(Clone, Copy, Debug, PartialEq, Eq, Structural)]
pub enum LimitsError {
    /// The mailbox limit does not fit in a byte count.
    MailboxOverflow,
    /// The service limit does not fit in a byte count.
    TotalOverflow,
    /// A limit is zero or the service cannot hold one mailbox.
    Unusable,
}

impl LimitsError {
    /// Returns the human-readable reason.
    pub fn message(self) -> (message: &'static str)
        ensures
            message@ == match self {
                LimitsError::MailboxOverflow => "mailbox byte limit overflow"@,
                LimitsError::TotalOverflow => "total byte limit overflow"@,
                LimitsError::Unusable
                    => "limits must be non-zero and total MiB must cover one mailbox"@,
            },
    {
        match self {
            LimitsError::MailboxOverflow => "mailbox byte limit overflow",
            LimitsError::TotalOverflow => "total byte limit overflow",
            LimitsError::Unusable => "limits must be non-zero and total MiB must cover one mailbox",
        }
    }
}

impl RelayLimits {
    /// Reads the limits of a service from mebibytes and an object count.
    pub fn from_mebibytes(mailbox_mib: u64, mailbox_objects: u64, total_mib: u64) -> (limits: Result<
        Self,
        LimitsError,
    >)
        ensures
            match limits {
                Ok(limits) => {
                    &&& limits.mailbox_bytes == mailbox_mib * 1048576
                    &&& limits.mailbox_objects == mailbox_objects
                    &&& limits.total_bytes == total_mib * 1048576
                    &&& mailbox_mib > 0
                    &&& mailbox_objects > 0
                    &&& total_mib >= mailbox_mib
                },
                Err(LimitsError::MailboxOverflow) => mailbox_mib * 1048576 > u64::MAX,
                Err(LimitsError::TotalOverflow) => mailbox_mib * 1048576 <= u64::MAX && total_mib
                    * 1048576 > u64::MAX,
                Err(LimitsError::Unusable) => {
                    &&& mailbox_mib * 1048576 <= u64::MAX
                    &&& total_mib * 1048576 <= u64::MAX
                    &&& mailbox_mib == 0 || mailbox_objects == 0 || total_mib < mailbox_mib
                },
            },
    {
        let mebibyte: u64 = 1024 * 1024;
        let mailbox_bytes: u64 = match mailbox_mib.checked_mul(mebibyte) {
            Some(bytes) => bytes,
            None => {
                return Err(LimitsError::MailboxOverflow);
            },
        };
        let total_bytes: u64 = match total_mib.checked_mul(mebibyte) {
            Some(bytes) => bytes,
            None => {
                return Err(LimitsError::TotalOverflow);
            },
        };
        if mailbox_bytes == 0 || mailbox_objects == 0 || total_bytes < mailbox_bytes {
            return Err(LimitsError::Unusable);
        }
        Ok(RelayLimits { mailbox_bytes, mailbox_objects, total_bytes })
    }
}

/// A durable relay storage failure.
#[derive(Debug, PartialEq, Eq)]
pub enum RelayStoreError {
    /// The store could not complete a durable operation.
    Storage(String),
    /// A persisted row violated the relay's own invariants.
    CorruptStorage,
}

impl RelayStoreError {
    /// The human-readable reason.
    pub open spec fn text(self) -> Seq<char> {
        match self {
            RelayStoreError::Storage(reason) => "relay storage failed: "@ + reason@,
            RelayStoreError::CorruptStorage => "relay storage contains malformed data"@,
        }
    }

    /// Returns the human-readable reason.
    pub fn message(&self) -> (message: String)
        ensures
            message@ == self.text(),
    {
        match self {
            RelayStoreError::Storage(reason) => {
                let mut text = owned("relay storage failed: ");
                text.append(reason.as_str());
                text
            },
            RelayStoreError::CorruptStorage => owned("relay storage contains malformed data"),
        }
    }
}

/// What a [`RelayStoreError`] says.
#[verifier::ext_equal]
pub enum RelayFailure {
    /// The store could not complete a durable operation, for this reason.
    Storage(Seq<char>),
    /// A persisted row or a number violated the relay's own invariants.
    CorruptStorage,
}

impl View for RelayStoreError {
    type V = RelayFailure;

    open spec fn view(&self) -> RelayFailure {
        match self {
            RelayStoreError::Storage(reason) => RelayFailure::Storage(reason@),
            RelayStoreError::CorruptStorage => RelayFailure::CorruptStorage,
        }
    }
}

/// One retained object.
#[derive(Debug, PartialEq, Eq)]
pub struct StoredObject {
    /// Server-issued cursor.
    pub sequence: u64,
    /// Mailbox routing key.
    pub route: [u8; 32],
    /// Deduplication identity.
    pub id: [u8; 32],
    /// Unix expiry time.
    pub expires_at: u64,
    /// Opaque ciphertext.
    pub ciphertext: Vec<u8>,
}

/// What a [`StoredObject`] says.
#[verifier::ext_equal]
pub struct ObjectView {
    /// Server-issued cursor.
    pub sequence: u64,
    /// Mailbox routing key.
    pub route: Seq<u8>,
    /// Deduplication identity.
    pub id: Seq<u8>,
    /// Unix expiry time.
    pub expires_at: u64,
    /// Opaque ciphertext.
    pub ciphertext: Seq<u8>,
}

impl View for StoredObject {
    type V = ObjectView;

    open spec fn view(&self) -> ObjectView {
        ObjectView {
            sequence: self.sequence,
            route: self.route@,
            id: self.id@,
            expires_at: self.expires_at,
            ciphertext: self.ciphertext@,
        }
    }
}

impl ObjectView {
    /// The envelope that the object holds.
    pub open spec fn envelope(self) -> EnvelopeView {
        EnvelopeView {
            id: self.id,
            expires_at: self.expires_at,
            ciphertext: self.ciphertext,
        }
    }
}

/// One remembered request.
#[derive(Clone, Copy, Debug, PartialEq, Eq)]
pub struct Replay {
    /// Mailbox routing key.
    pub route: [u8; 32],
    /// Request nonce.
    pub nonce: [u8; 16],
    /// Unix time until which the request is remembered.
    pub expires_at: u64,
}

/// What a [`Replay`] says.
#[verifier::ext_equal]
pub struct ReplayView {
    /// Mailbox routing key.
    pub route: Seq<u8>,
    /// Request nonce.
    pub nonce: Seq<u8>,
    /// Unix time until which the request is remembered.
    pub expires_at: u64,
}

impl View for Replay {
    type V = ReplayView;

    open spec fn view(&self) -> ReplayView {
        ReplayView { route: self.route@, nonce: self.nonce@, expires_at: self.expires_at }
    }
}

/// What a sequence of objects says.
pub open spec fn object_views(objects: Seq<StoredObject>) -> Seq<ObjectView> {
    objects.map_values(|object: StoredObject| object@)
}

/// What a sequence of remembered requests says.
pub open spec fn replay_views(replays: Seq<Replay>) -> Seq<ReplayView> {
    replays.map_values(|replay: Replay| replay@)
}

/// The objects that have not expired.
pub open spec fn unexpired(now: u64) -> spec_fn(ObjectView) -> bool {
    |object: ObjectView| object.expires_at > now
}

/// The requests that are still remembered.
pub open spec fn remembered(now: u64) -> spec_fn(ReplayView) -> bool {
    |replay: ReplayView| replay.expires_at > now
}

/// The objects of one mailbox.
pub open spec fn in_mailbox(route: Seq<u8>) -> spec_fn(ObjectView) -> bool {
    |object: ObjectView| object.route == route
}

/// The objects of one mailbox after a cursor.
pub open spec fn awaiting(route: Seq<u8>, after: u64) -> spec_fn(ObjectView) -> bool {
    |object: ObjectView| object.route == route && object.sequence > after
}

/// Every object but one of a mailbox.
pub open spec fn other_than(route: Seq<u8>, id: Seq<u8>) -> spec_fn(ObjectView) -> bool {
    |object: ObjectView| !(object.route == route && object.id == id)
}

/// Whether a mailbox holds an object.
pub open spec fn holds(objects: Seq<ObjectView>, route: Seq<u8>, id: Seq<u8>) -> bool {
    exists|i: int|
        0 <= i < objects.len() && (#[trigger] objects[i]).route == route && objects[i].id == id
}

/// Whether a request is remembered.
pub open spec fn replayed(replays: Seq<ReplayView>, route: Seq<u8>, nonce: Seq<u8>) -> bool {
    exists|i: int|
        0 <= i < replays.len() && (#[trigger] replays[i]).route == route && replays[i].nonce
            == nonce
}

/// The number of ciphertext bytes of objects.
pub open spec fn object_bytes(objects: Seq<ObjectView>) -> nat
    decreases objects.len(),
{
    if objects.len() == 0 {
        0
    } else {
        object_bytes(objects.drop_last()) + objects.last().ciphertext.len()
    }
}

/// Whether an envelope has an identity.
pub open spec fn named(envelopes: Seq<EnvelopeView>, id: Seq<u8>) -> bool {
    exists|i: int| 0 <= i < envelopes.len() && (#[trigger] envelopes[i]).id == id
}

/// The envelopes that a push adds to a mailbox: of every identity that the
/// mailbox does not hold yet, the first envelope that has it.
pub open spec fn fresh(
    objects: Seq<ObjectView>,
    route: Seq<u8>,
    envelopes: Seq<EnvelopeView>,
) -> Seq<EnvelopeView>
    decreases envelopes.len(),
{
    if envelopes.len() == 0 {
        Seq::empty()
    } else {
        let earlier = envelopes.drop_last();
        let envelope = envelopes.last();
        if holds(objects, route, envelope.id) || named(earlier, envelope.id) {
            fresh(objects, route, earlier)
        } else {
            fresh(objects, route, earlier).push(envelope)
        }
    }
}

/// The objects and the next cursor after envelopes are stored, each unless its
/// identity is already held.
pub open spec fn pushing(
    objects: Seq<ObjectView>,
    next: nat,
    route: Seq<u8>,
    envelopes: Seq<EnvelopeView>,
) -> (Seq<ObjectView>, nat)
    decreases envelopes.len(),
{
    if envelopes.len() == 0 {
        (objects, next)
    } else {
        let (stored, free) = pushing(objects, next, route, envelopes.drop_last());
        let envelope = envelopes.last();
        if holds(stored, route, envelope.id) {
            (stored, free)
        } else {
            (
                stored.push(
                    ObjectView {
                        sequence: free as u64,
                        route,
                        id: envelope.id,
                        expires_at: envelope.expires_at,
                        ciphertext: envelope.ciphertext,
                    },
                ),
                free + 1,
            )
        }
    }
}

/// The objects after some were acknowledged.
pub open spec fn acknowledging(
    objects: Seq<ObjectView>,
    route: Seq<u8>,
    ids: Seq<Seq<u8>>,
) -> Seq<ObjectView>
    decreases ids.len(),
{
    if ids.len() == 0 {
        objects
    } else {
        acknowledging(objects, route, ids.drop_last()).filter(other_than(route, ids.last()))
    }
}

/// The deliveries of a mailbox page.
pub open spec fn page(objects: Seq<ObjectView>, route: Seq<u8>, after: u64, limit: u16) -> Seq<
    DeliveryView,
> {
    let waiting = objects.filter(awaiting(route, after));
    let len = if waiting.len() <= limit {
        waiting.len()
    } else {
        limit as nat
    };
    waiting.take(len as int).map_values(
        |object: ObjectView|
            DeliveryView { cursor: object.sequence, envelope: object.envelope() },
    )
}

/// Whether one object comes before another: by cursor, and with another
/// identity in the same mailbox.
pub open spec fn precedes(first: ObjectView, second: ObjectView) -> bool {
    &&& first.sequence < second.sequence
    &&& !(first.route == second.route && first.id == second.id)
}

/// The relation [`precedes`] as a value.
pub open spec fn in_order() -> spec_fn(ObjectView, ObjectView) -> bool {
    |first: ObjectView, second: ObjectView| precedes(first, second)
}

/// The public category of a protocol refusal.
pub open spec fn rejection_of(refusal: RelayRefusal) -> RelayRejection {
    match refusal {
        RelayRefusal::LimitExceeded => RelayRejection::LimitExceeded,
        _ => RelayRejection::Unauthorized,
    }
}

/// The state of a relay.
#[verifier::ext_equal]
pub struct RelayView {
    /// Resource ceilings.
    pub limits: RelayLimits,
    /// The next server-issued cursor.
    pub next: u64,
    /// Retained objects in the order of their cursors.
    pub objects: Seq<ObjectView>,
    /// Remembered requests.
    pub replays: Seq<ReplayView>,
}

/// What one request leads to.
pub type Handled = (Result<ResponseView, RelayFailure>, RelayView);

impl RelayView {
    /// Cursors ascend, none is issued twice, and no mailbox holds an identity
    /// twice.
    pub open spec fn consistent(self) -> bool {
        &&& 1 <= self.next <= 9223372036854775808
        &&& forall|i: int|
            0 <= i < self.objects.len() ==> 1 <= (#[trigger] self.objects[i]).sequence < self.next
        &&& forall|i: int, j: int|
            0 <= i < j < self.objects.len() ==> precedes(
                #[trigger] self.objects[i],
                #[trigger] self.objects[j],
            )
    }

    /// The state without what has expired.
    pub open spec fn purged(self, now: u64) -> RelayView {
        RelayView {
            objects: self.objects.filter(unexpired(now)),
            replays: self.replays.filter(remembered(now)),
            ..self
        }
    }

    /// Whether what a push adds fits in a mailbox and in the service.
    pub open spec fn fits(self, route: Seq<u8>, envelopes: Seq<EnvelopeView>) -> bool {
        let mailbox = self.objects.filter(in_mailbox(route));
        let added = fresh(self.objects, route, envelopes);
        &&& mailbox.len() + added.len() <= self.limits.mailbox_objects
        &&& object_bytes(mailbox) + total_bytes(added) <= self.limits.mailbox_bytes
        &&& object_bytes(self.objects) + total_bytes(added) <= self.limits.total_bytes
    }

    /// Stores envelopes.
    pub open spec fn pushed(self, route: Seq<u8>, envelopes: Seq<EnvelopeView>) -> Handled {
        let added = fresh(self.objects, route, envelopes).len();
        if !self.fits(route, envelopes) {
            (Ok(ResponseView::Rejected { code: RelayRejection::LimitExceeded }), self)
        } else if exists|i: int|
            0 <= i < envelopes.len() && (#[trigger] envelopes[i]).expires_at
                > 9223372036854775807 {
            (Err(RelayFailure::CorruptStorage), self)
        } else if self.next + added > 9223372036854775808 {
            (Err(RelayFailure::Storage("database or disk is full"@)), self)
        } else {
            let (objects, next) = pushing(self.objects, self.next as nat, route, envelopes);
            (
                Ok(ResponseView::Applied { changed: added as u16 }),
                RelayView { objects, next: next as u64, ..self },
            )
        }
    }

    /// Reads a mailbox page.
    pub open spec fn pulled(self, route: Seq<u8>, after: u64, limit: u16, now: u64) -> Handled {
        let items = page(self.objects, route, after, limit);
        if after > 9223372036854775807 {
            (Err(RelayFailure::CorruptStorage), self)
        } else if exists|i: int|
            0 <= i < items.len() && !(#[trigger] items[i]).envelope.bounded(now) {
            (Err(RelayFailure::CorruptStorage), self)
        } else {
            (Ok(ResponseView::Deliveries { items }), self)
        }
    }

    /// Deletes delivered objects.
    pub open spec fn acknowledged(self, route: Seq<u8>, ids: Seq<Seq<u8>>) -> Handled {
        let objects = acknowledging(self.objects, route, ids);
        (
            Ok(
                ResponseView::Applied {
                    changed: (self.objects.len() - objects.len()) as u16,
                },
            ),
            RelayView { objects, ..self },
        )
    }

    /// The state that has dropped what expired and remembers one request more.
    pub open spec fn remembering(self, replay: ReplayView, now: u64) -> RelayView {
        let purged = self.purged(now);
        RelayView { replays: purged.replays.push(replay), ..purged }
    }

    /// The state that has dropped what expired and remembers a request until it
    /// is stale.
    pub open spec fn admitting(self, request: RequestView, now: u64) -> RelayView {
        self.remembering(
            ReplayView {
                route: request.unsigned.route,
                nonce: request.unsigned.nonce,
                expires_at: (request.unsigned.issued_at + 301) as u64,
            },
            now,
        )
    }

    /// What an admitted request leads to.
    pub open spec fn applying(self, request: RequestView, now: u64) -> Handled {
        match request.unsigned.operation {
            OperationView::Push { envelopes } => self.pushed(request.unsigned.route, envelopes),
            OperationView::Pull { after, limit } => self.pulled(
                request.unsigned.route,
                after,
                limit,
                now,
            ),
            OperationView::Acknowledge { ids } => self.acknowledged(
                request.unsigned.route,
                ids,
            ),
        }
    }

    /// What a request leads to.
    pub open spec fn handling(self, request: RequestView, now: u64) -> Handled {
        match request.verify_refusal(now) {
            Some(refusal) => (Ok(ResponseView::Rejected { code: rejection_of(refusal) }), self),
            None => {
                if now > 9223372036854775807 || request.unsigned.issued_at + 301
                    > 9223372036854775807 {
                    (Err(RelayFailure::CorruptStorage), self)
                } else if replayed(
                    self.purged(now).replays,
                    request.unsigned.route,
                    request.unsigned.nonce,
                ) {
                    (Ok(ResponseView::Rejected { code: RelayRejection::Unauthorized }), self)
                } else {
                    let handled = self.admitting(request, now).applying(request, now);
                    match handled.0 {
                        Ok(_) => handled,
                        Err(_) => (handled.0, self),
                    }
                }
            },
        }
    }
}

/// Opaque mailbox storage.
pub struct RelayStore {
    limits: RelayLimits,
    next: u64,
    objects: Vec<StoredObject>,
    replays: Vec<Replay>,
}

impl View for RelayStore {
    type V = RelayView;

    closed spec fn view(&self) -> RelayView {
        RelayView {
            limits: self.limits,
            next: self.next,
            objects: object_views(self.objects@),
            replays: replay_views(self.replays@),
        }
    }
}

/// What a storage result says.
pub open spec fn answered(result: Result<RelayResponse, RelayStoreError>) -> Result<
    ResponseView,
    RelayFailure,
> {
    match result {
        Ok(response) => Ok(response@),
        Err(error) => Err(error@),
    }
}

fn purge_objects(objects: &mut Vec<StoredObject>, now: u64)
    ensures
        object_views(final(objects)@) == object_views(old(objects)@).filter(unexpired(now)),
{
    let ghost start = object_views(objects@);
    let ghost mut seen: int = 0;
    let mut index: usize = 0;
    proof {
        reveal(Seq::filter);
        assert(start.take(0) =~= Seq::<ObjectView>::empty());
        assert(start.take(0).filter(unexpired(now)) =~= Seq::<ObjectView>::empty());
        assert(start.skip(0) =~= start);
        assert(start.take(0).filter(unexpired(now)) + start.skip(0) =~= start);
    }
    while index < objects.len()
        invariant
            0 <= seen <= start.len(),
            object_views(objects@) == start.take(seen).filter(unexpired(now)) + start.skip(seen),
            index == start.take(seen).filter(unexpired(now)).len(),
            index <= objects@.len(),
        decreases start.len() - seen,
    {
        let ghost kept = start.take(seen).filter(unexpired(now));
        let ghost before = object_views(objects@);
        proof {
            lemma_kept_step(start, seen, unexpired(now));
            assert(before[index as int] == start[seen]);
            assert(start.skip(seen) =~= seq![start[seen]] + start.skip(seen + 1));
        }
        if objects[index].expires_at <= now {
            let dropped = objects.remove(index);
            proof {
                assert(object_views(objects@) =~= before.remove(index as int));
                assert(object_views(objects@) =~= kept + start.skip(seen + 1));
            }
        } else {
            index += 1;
            proof {
                assert(before =~= kept.push(start[seen]) + start.skip(seen + 1));
            }
        }
        proof {
            seen = seen + 1;
        }
    }
    proof {
        assert(start.take(start.len() as int) =~= start);
        assert(start.skip(seen).len() == 0);
        assert(seen == start.len());
        assert(start.skip(seen) =~= Seq::<ObjectView>::empty());
        assert(object_views(objects@) =~= start.filter(unexpired(now)));
    }
}

fn purge_replays(replays: &mut Vec<Replay>, now: u64)
    ensures
        replay_views(final(replays)@) == replay_views(old(replays)@).filter(remembered(now)),
{
    let ghost start = replay_views(replays@);
    let ghost mut seen: int = 0;
    let mut index: usize = 0;
    proof {
        reveal(Seq::filter);
        assert(start.take(0) =~= Seq::<ReplayView>::empty());
        assert(start.take(0).filter(remembered(now)) =~= Seq::<ReplayView>::empty());
        assert(start.skip(0) =~= start);
        assert(start.take(0).filter(remembered(now)) + start.skip(0) =~= start);
    }
    while index < replays.len()
        invariant
            0 <= seen <= start.len(),
            replay_views(replays@) == start.take(seen).filter(remembered(now)) + start.skip(seen),
            index == start.take(seen).filter(remembered(now)).len(),
            index <= replays@.len(),
        decreases start.len() - seen,
    {
        let ghost kept = start.take(seen).filter(remembered(now));
        let ghost before = replay_views(replays@);
        proof {
            lemma_kept_step(start, seen, remembered(now));
            assert(before[index as int] == start[seen]);
            assert(start.skip(seen) =~= seq![start[seen]] + start.skip(seen + 1));
        }
        if replays[index].expires_at <= now {
            let dropped = replays.remove(index);
            proof {
                assert(replay_views(replays@) =~= before.remove(index as int));
                assert(replay_views(replays@) =~= kept + start.skip(seen + 1));
            }
        } else {
            index += 1;
            proof {
                assert(before =~= kept.push(start[seen]) + start.skip(seen + 1));
            }
        }
        proof {
            seen = seen + 1;
        }
    }
    proof {
        assert(start.take(start.len() as int) =~= start);
        assert(start.skip(seen).len() == 0);
        assert(seen == start.len());
        assert(start.skip(seen) =~= Seq::<ReplayView>::empty());
        assert(replay_views(replays@) =~= start.filter(remembered(now)));
    }
}

/// Whether a live request with the same route and nonce is remembered.
fn is_replayed(replays: &Vec<Replay>, route: &[u8; 32], nonce: &[u8; 16], now: u64) -> (found: bool)
    ensures
        found == replayed(replay_views(replays@).filter(remembered(now)), route@, nonce@),
{
    let ghost views = replay_views(replays@);
    let ghost live = views.filter(remembered(now));
    proof {
        lemma_kept(views, remembered(now));
    }
    let mut index: usize = 0;
    while index < replays.len()
        invariant
            index <= replays@.len(),
            views == replay_views(replays@),
            live == views.filter(remembered(now)),
            forall|row: ReplayView| #[trigger]
                live.contains(row) <==> views.contains(row) && remembered(now)(row),
            forall|i: int|
                0 <= i < index ==> !((#[trigger] views[i]).expires_at > now && views[i].route
                    == route@ && views[i].nonce == nonce@),
        decreases replays@.len() - index,
    {
        let replay = &replays[index];
        assert(views[index as int] == replay@);
        if replay.expires_at > now && same_bytes(replay.route.as_slice(), route.as_slice())
            && same_bytes(replay.nonce.as_slice(), nonce.as_slice()) {
            proof {
                assert(views.contains(views[index as int]));
                assert(live.contains(views[index as int]));
                let i = choose|i: int| 0 <= i < live.len() && live[i] == views[index as int];
                assert(live[i].route == route@);
            }
            return true;
        }
        index += 1;
    }
    proof {
        if replayed(live, route@, nonce@) {
            let i = choose|i: int|
                0 <= i < live.len() && (#[trigger] live[i]).route == route@ && live[i].nonce
                    == nonce@;
            assert(live.contains(live[i]));
            let j = choose|j: int| 0 <= j < views.len() && views[j] == live[i];
            assert(views[j].expires_at > now);
        }
    }
    false
}

/// Whether an unexpired object of a mailbox has an identity.
fn holds_object(objects: &Vec<StoredObject>, route: &[u8; 32], id: &[u8; 32], now: u64) -> (found:
    bool)
    ensures
        found == holds(object_views(objects@).filter(unexpired(now)), route@, id@),
{
    let ghost views = object_views(objects@);
    let ghost live = views.filter(unexpired(now));
    proof {
        lemma_kept(views, unexpired(now));
    }
    let mut index: usize = 0;
    while index < objects.len()
        invariant
            index <= objects@.len(),
            views == object_views(objects@),
            live == views.filter(unexpired(now)),
            forall|row: ObjectView| #[trigger]
                live.contains(row) <==> views.contains(row) && unexpired(now)(row),
            forall|i: int|
                0 <= i < index ==> !((#[trigger] views[i]).expires_at > now && views[i].route
                    == route@ && views[i].id == id@),
        decreases objects@.len() - index,
    {
        let object = &objects[index];
        assert(views[index as int] == object@);
        if object.expires_at > now && same_bytes(object.route.as_slice(), route.as_slice())
            && same_bytes(object.id.as_slice(), id.as_slice()) {
            proof {
                assert(views.contains(views[index as int]));
                assert(live.contains(views[index as int]));
                let i = choose|i: int| 0 <= i < live.len() && live[i] == views[index as int];
                assert(live[i].route == route@);
            }
            return true;
        }
        index += 1;
    }
    proof {
        if holds(live, route@, id@) {
            let i = choose|i: int|
                0 <= i < live.len() && (#[trigger] live[i]).route == route@ && live[i].id == id@;
            assert(live.contains(live[i]));
            let j = choose|j: int| 0 <= j < views.len() && views[j] == live[i];
            assert(views[j].expires_at > now);
        }
    }
    false
}

/// The unexpired objects and bytes of a mailbox, and the bytes of all objects.
fn count_usage(objects: &Vec<StoredObject>, route: &[u8; 32], now: u64) -> (counted: (
    u64,
    u128,
    u128,
))
    ensures
        ({
            let live = object_views(objects@).filter(unexpired(now));
            let mailbox = live.filter(in_mailbox(route@));
            &&& counted.0 == mailbox.len()
            &&& counted.1 == object_bytes(mailbox)
            &&& counted.2 == object_bytes(live)
        }),
        counted.2 <= objects@.len() * u64::MAX,
        counted.1 <= counted.2,
{
    let ghost views = object_views(objects@);
    let mut mailbox_objects: u64 = 0;
    let mut mailbox_bytes: u128 = 0;
    let mut all_bytes: u128 = 0;
    let mut index: usize = 0;
    proof {
        reveal(Seq::filter);
        assert(views.take(0) =~= Seq::<ObjectView>::empty());
    }
    while index < objects.len()
        invariant
            index <= objects@.len(),
            views == object_views(objects@),
            ({
                let live = views.take(index as int).filter(unexpired(now));
                let mailbox = live.filter(in_mailbox(route@));
                &&& mailbox_objects == mailbox.len()
                &&& mailbox_bytes == object_bytes(mailbox)
                &&& all_bytes == object_bytes(live)
            }),
            mailbox_objects <= index,
            mailbox_bytes <= all_bytes,
            all_bytes <= index * u64::MAX,
        decreases objects@.len() - index,
    {
        let object = &objects[index];
        let ghost live = views.take(index as int).filter(unexpired(now));
        proof {
            lemma_kept_step(views, index as int, unexpired(now));
            assert(views[index as int] == object@);
            assert(index * u64::MAX + u64::MAX == (index + 1) * u64::MAX) by (nonlinear_arith);
            assert((index + 1) * u64::MAX <= u64::MAX * u64::MAX) by (nonlinear_arith)
                requires
                    index + 1 <= u64::MAX,
            ;
        }
        if object.expires_at > now {
            proof {
                let longer = live.push(views[index as int]);
                assert(longer.drop_last() =~= live);
                reveal(Seq::filter);
                let mailbox = live.filter(in_mailbox(route@));
                assert(mailbox.push(views[index as int]).drop_last() =~= mailbox);
            }
            all_bytes += object.ciphertext.len() as u128;
            if same_bytes(object.route.as_slice(), route.as_slice()) {
                mailbox_objects += 1;
                mailbox_bytes += object.ciphertext.len() as u128;
            }
        }
        index += 1;
    }
    assert(views.take(views.len() as int) =~= views);
    (mailbox_objects, mailbox_bytes, all_bytes)
}

/// Whether one of the first envelopes has an identity.
fn names(envelopes: &Vec<RelayEnvelope>, len: usize, id: &[u8; 32]) -> (found: bool)
    requires
        len <= envelopes@.len(),
    ensures
        found == named(crate::net::relay::envelope_views(envelopes@).take(len as int), id@),
{
    let ghost views = crate::net::relay::envelope_views(envelopes@).take(len as int);
    let mut index: usize = 0;
    while index < len
        invariant
            index <= len <= envelopes@.len(),
            views == crate::net::relay::envelope_views(envelopes@).take(len as int),
            forall|i: int| 0 <= i < index ==> (#[trigger] views[i]).id != id@,
        decreases len - index,
    {
        assert(views[index as int] == envelopes@[index as int]@);
        if same_bytes(envelopes[index].id.as_slice(), id.as_slice()) {
            return true;
        }
        index += 1;
    }
    false
}

/// How many envelopes a push adds, and their bytes.
fn count_added(
    objects: &Vec<StoredObject>,
    route: &[u8; 32],
    envelopes: &Vec<RelayEnvelope>,
    now: u64,
) -> (counted: (u64, u64))
    requires
        envelopes@.len() <= 256,
        total_bytes(crate::net::relay::envelope_views(envelopes@)) <= 4194304,
    ensures
        ({
            let live = object_views(objects@).filter(unexpired(now));
            let added = fresh(live, route@, crate::net::relay::envelope_views(envelopes@));
            &&& counted.0 == added.len()
            &&& counted.1 == total_bytes(added)
        }),
        counted.0 <= 256,
        counted.1 <= 4194304,
{
    let ghost live = object_views(objects@).filter(unexpired(now));
    let ghost views = crate::net::relay::envelope_views(envelopes@);
    let mut added_objects: u64 = 0;
    let mut added_bytes: u64 = 0;
    let mut index: usize = 0;
    assert(views.take(0) =~= Seq::<EnvelopeView>::empty());
    while index < envelopes.len()
        invariant
            index <= envelopes@.len() <= 256,
            live == object_views(objects@).filter(unexpired(now)),
            views == crate::net::relay::envelope_views(envelopes@),
            total_bytes(views) <= 4194304,
            added_objects == fresh(live, route@, views.take(index as int)).len(),
            added_bytes == total_bytes(fresh(live, route@, views.take(index as int))),
            added_objects <= index,
            added_bytes <= total_bytes(views.take(index as int)),
        decreases envelopes@.len() - index,
    {
        let envelope = &envelopes[index];
        proof {
            let so_far = fresh(live, route@, views.take(index as int));
            assert(views[index as int] == envelope@);
            assert(views.take(index + 1).drop_last() =~= views.take(index as int));
            assert(so_far.push(views[index as int]).drop_last() =~= so_far);
            crate::net::relay::lemma_total_grows(views, index + 1);
        }
        if !holds_object(objects, route, &envelope.id, now) && !names(
            envelopes,
            index,
            &envelope.id,
        ) {
            added_objects += 1;
            added_bytes += envelope.ciphertext.len() as u64;
        }
        index += 1;
    }
    proof {
        assert(views.take(views.len() as int) =~= views);
    }
    (added_objects, added_bytes)
}

/// Stores one envelope unless its identity is held.
fn store_envelope(objects: &mut Vec<StoredObject>, next: u64, route: &[u8; 32], envelope: &RelayEnvelope) -> (stored:
    bool)
    requires
        forall|i: int| 0 <= i < old(objects)@.len() ==> (#[trigger] old(objects)@[i]).expires_at > 0,
    ensures
        stored == !holds(object_views(old(objects)@), route@, envelope@.id),
        object_views(final(objects)@) == if stored {
            object_views(old(objects)@).push(
                ObjectView {
                    sequence: next,
                    route: route@,
                    id: envelope@.id,
                    expires_at: envelope@.expires_at,
                    ciphertext: envelope@.ciphertext,
                },
            )
        } else {
            object_views(old(objects)@)
        },
{
    let ghost before = object_views(objects@);
    proof {
        assert forall|i: int| 0 <= i < before.len() implies unexpired(0)(#[trigger] before[i]) by {
            assert(objects@[i].expires_at > 0);
        }
        lemma_all_kept(before, unexpired(0));
    }
    if holds_object(objects, route, &envelope.id, 0) {
        return false;
    }
    objects.push(
        StoredObject {
            sequence: next,
            route: *route,
            id: envelope.id,
            expires_at: envelope.expires_at,
            ciphertext: copy_bytes(envelope.ciphertext.as_slice()),
        },
    );
    assert(object_views(objects@) =~= before.push(
        ObjectView {
            sequence: next,
            route: route@,
            id: envelope@.id,
            expires_at: envelope@.expires_at,
            ciphertext: envelope@.ciphertext,
        },
    ));
    true
}

/// Deletes the object of a mailbox with an identity.
fn drop_object(objects: &mut Vec<StoredObject>, route: &[u8; 32], id: &[u8; 32]) -> (dropped: bool)
    requires
        forall|i: int, j: int|
            0 <= i < j < old(objects)@.len() ==> precedes(
                #[trigger] object_views(old(objects)@)[i],
                #[trigger] object_views(old(objects)@)[j],
            ),
    ensures
        object_views(final(objects)@) == object_views(old(objects)@).filter(
            other_than(route@, id@),
        ),
        final(objects)@.len() == if dropped {
            old(objects)@.len() - 1
        } else {
            old(objects)@.len() as int
        },
{
    let ghost before = object_views(objects@);
    let ghost keep = other_than(route@, id@);
    let mut index: usize = 0;
    while index < objects.len()
        invariant
            index <= objects@.len(),
            before == object_views(objects@),
            *objects == *old(objects),
            keep == other_than(route@, id@),
            forall|i: int| 0 <= i < index ==> keep(#[trigger] before[i]),
            forall|i: int, j: int|
                0 <= i < j < before.len() ==> precedes(#[trigger] before[i], #[trigger] before[j]),
        decreases objects@.len() - index,
    {
        let object = &objects[index];
        assert(before[index as int] == object@);
        if same_bytes(object.route.as_slice(), route.as_slice()) && same_bytes(
            object.id.as_slice(),
            id.as_slice(),
        ) {
            proof {
                assert forall|i: int| 0 <= i < before.len() implies (keep(#[trigger] before[i])
                    <==> i != index) by {
                    if i > index {
                        assert(precedes(before[index as int], before[i]));
                    }
                }
                lemma_one_dropped(before, keep, index as int);
            }
            let dropped = objects.remove(index);
            assert(object_views(objects@) =~= before.remove(index as int));
            return true;
        }
        index += 1;
    }
    proof {
        lemma_all_kept(before, keep);
    }
    false
}

proof fn lemma_order_kept(objects: Seq<ObjectView>, keep: spec_fn(ObjectView) -> bool)
    requires
        forall|i: int, j: int|
            0 <= i < j < objects.len() ==> precedes(#[trigger] objects[i], #[trigger] objects[j]),
    ensures
        forall|i: int, j: int|
            0 <= i < j < objects.filter(keep).len() ==> precedes(
                #[trigger] objects.filter(keep)[i],
                #[trigger] objects.filter(keep)[j],
            ),
{
    assert forall|i: int, j: int| 0 <= i < j < objects.len() implies in_order()(
        #[trigger] objects[i],
        #[trigger] objects[j],
    ) by {
        assert(precedes(objects[i], objects[j]));
    }
    lemma_kept_pairs(objects, keep, in_order());
    assert forall|i: int, j: int| 0 <= i < j < objects.filter(keep).len() implies precedes(
        #[trigger] objects.filter(keep)[i],
        #[trigger] objects.filter(keep)[j],
    ) by {
        assert(in_order()(objects.filter(keep)[i], objects.filter(keep)[j]));
    }
}

impl RelayStore {
    /// Cursors ascend, none is issued twice, and no mailbox holds an identity
    /// twice.
    pub open spec fn wf(self) -> bool {
        self@.consistent()
    }

    /// Opens an empty store.
    pub fn in_memory(limits: RelayLimits) -> (store: Self)
        ensures
            store.wf(),
            store@ == (RelayView {
                limits,
                next: 1,
                objects: Seq::empty(),
                replays: Seq::empty(),
            }),
    {
        let store = RelayStore { limits, next: 1, objects: Vec::new(), replays: Vec::new() };
        assert(store@.objects =~= Seq::<ObjectView>::empty());
        assert(store@.replays =~= Seq::<ReplayView>::empty());
        store
    }

    /// Restores a store from its rows, or refuses rows that break the relay's
    /// own invariants.
    pub fn restore(
        limits: RelayLimits,
        next: u64,
        objects: Vec<StoredObject>,
        replays: Vec<Replay>,
    ) -> (store: Result<Self, RelayStoreError>)
        ensures
            ({
                let restored = RelayView {
                    limits,
                    next,
                    objects: object_views(objects@),
                    replays: replay_views(replays@),
                };
                match store {
                    Ok(store) => restored.consistent() && store@ == restored,
                    Err(error) => !restored.consistent() && error@
                        == RelayFailure::CorruptStorage,
                }
            }),
    {
        let ghost views = object_views(objects@);
        let ghost restored = RelayView {
            limits,
            next,
            objects: views,
            replays: replay_views(replays@),
        };
        if next < 1 || next - 1 > MAX_STORED {
            return Err(RelayStoreError::CorruptStorage);
        }
        let mut index: usize = 0;
        while index < objects.len()
            invariant
                index <= objects@.len(),
                views == object_views(objects@),
                restored == (RelayView {
                    limits,
                    next,
                    objects: views,
                    replays: replay_views(replays@),
                }),
                1 <= next <= 9223372036854775808,
                forall|i: int|
                    0 <= i < index ==> 1 <= (#[trigger] views[i]).sequence < next,
                forall|i: int, j: int|
                    0 <= i < j < index ==> precedes(#[trigger] views[i], #[trigger] views[j]),
            decreases objects@.len() - index,
        {
            let object = &objects[index];
            assert(views[index as int] == object@);
            if object.sequence < 1 || object.sequence >= next {
                assert(restored.objects[index as int] == object@);
                assert(!restored.consistent());
                return Err(RelayStoreError::CorruptStorage);
            }
            let mut other: usize = 0;
            while other < index
                invariant
                    other <= index < objects@.len(),
                    views == object_views(objects@),
                    restored == (RelayView {
                        limits,
                        next,
                        objects: views,
                        replays: replay_views(replays@),
                    }),
                    views[index as int] == object@,
                    forall|i: int|
                        0 <= i < other ==> precedes(#[trigger] views[i], views[index as int]),
                decreases index - other,
            {
                let earlier = &objects[other];
                assert(views[other as int] == earlier@);
                if earlier.sequence >= object.sequence || (same_bytes(
                    earlier.route.as_slice(),
                    object.route.as_slice(),
                ) && same_bytes(earlier.id.as_slice(), object.id.as_slice())) {
                    assert(!precedes(
                        restored.objects[other as int],
                        restored.objects[index as int],
                    ));
                    assert(!restored.consistent());
                    return Err(RelayStoreError::CorruptStorage);
                }
                other += 1;
            }
            index += 1;
        }
        Ok(RelayStore { limits, next, objects, replays })
    }

    /// Returns the retained objects in the order of their cursors.
    pub fn objects(&self) -> (objects: &Vec<StoredObject>)
        ensures
            object_views(objects@) == self@.objects,
    {
        &self.objects
    }

    /// Returns the remembered requests.
    pub fn replays(&self) -> (replays: &Vec<Replay>)
        ensures
            replay_views(replays@) == self@.replays,
    {
        &self.replays
    }

    /// Returns the next server-issued cursor.
    pub fn next_sequence(&self) -> (next: u64)
        ensures
            next == self@.next,
    {
        self.next
    }

    /// Authenticates, replay-checks, and atomically applies one request.
    ///
    /// Protocol and quota failures become stable public rejection responses;
    /// only local storage failures are returned as errors.
    pub fn handle(&mut self, request: &RelayRequest, now: u64) -> (result: Result<
        RelayResponse,
        RelayStoreError,
    >)
        requires
            old(self).wf(),
        ensures
            final(self).wf(),
            (answered(result), final(self)@) == old(self)@.handling(request@, now),
    {
        let ghost start = self@;
        match request.verify(now) {
            Ok(_) => {},
            Err(error) => {
                return Ok(RelayResponse::Rejected { code: rejection_for(&error) });
            },
        }
        if now > MAX_STORED || request.issued_at() > MAX_STORED - (MAX_RELAY_CLOCK_SKEW + 1) {
            return Err(RelayStoreError::CorruptStorage);
        }
        let route = request.route().to_bytes();
        let nonce = request.nonce();
        let replay = Replay {
            route,
            nonce,
            expires_at: request.issued_at() + (MAX_RELAY_CLOCK_SKEW + 1),
        };
        if is_replayed(&self.replays, &route, &nonce, now) {
            return Ok(RelayResponse::Rejected { code: RelayRejection::Unauthorized });
        }
        proof {
            law_purging_keeps_consistency(start, now);
        }
        let ghost admitted = start.admitting(request@, now);
        assert(admitted.consistent());
        match request.operation() {
            RelayOperation::Push { envelopes } => self.apply_push(&replay, envelopes, now),
            RelayOperation::Pull { after, limit } => {
                let items = self.read_page(&route, *after, *limit, now)?;
                self.remember(&replay, now);
                Ok(RelayResponse::Deliveries { items })
            },
            RelayOperation::Acknowledge { ids } => {
                self.remember(&replay, now);
                let changed = self.apply_ack(&route, ids);
                Ok(RelayResponse::Applied { changed })
            },
        }
    }

    /// Drops what expired and remembers a request.
    fn remember(&mut self, replay: &Replay, now: u64)
        ensures
            final(self)@ == old(self)@.remembering(replay@, now),
    {
        purge_objects(&mut self.objects, now);
        purge_replays(&mut self.replays, now);
        let ghost kept = replay_views(self.replays@);
        self.replays.push(*replay);
        assert(replay_views(self.replays@) =~= kept.push(replay@));
    }

    fn apply_push(&mut self, replay: &Replay, envelopes: &Vec<RelayEnvelope>, now: u64) -> (result:
        Result<RelayResponse, RelayStoreError>)
        requires
            old(self).wf(),
            (OperationView::Push {
                envelopes: crate::net::relay::envelope_views(envelopes@),
            }).bounded(now),
        ensures
            final(self).wf(),
            ({
                let handled = old(self)@.remembering(replay@, now).pushed(
                    replay@.route,
                    crate::net::relay::envelope_views(envelopes@),
                );
                (answered(result), final(self)@) == match handled.0 {
                    Ok(_) => handled,
                    Err(_) => (handled.0, old(self)@),
                }
            }),
    {
        let route = &replay.route;
        let ghost start = self@;
        let ghost views = crate::net::relay::envelope_views(envelopes@);
        let ghost admitted = start.remembering(replay@, now);
        let (mailbox_objects, mailbox_bytes, all_bytes) = count_usage(&self.objects, route, now);
        let (added_objects, added_bytes) = count_added(&self.objects, route, envelopes, now);
        let len: usize = self.objects.len();
        proof {
            assert(len * u64::MAX <= u64::MAX * u64::MAX) by (nonlinear_arith)
                requires
                    len <= u64::MAX,
            ;
        }
        let fits = mailbox_objects as u128 + added_objects as u128 <= self.limits.mailbox_objects as u128
            && mailbox_bytes + added_bytes as u128 <= self.limits.mailbox_bytes as u128 && all_bytes
            + added_bytes as u128 <= self.limits.total_bytes as u128;
        assert(fits == admitted.fits(route@, views));
        if !fits {
            self.remember(replay, now);
            proof {
                law_purging_keeps_consistency(start, now);
            }
            return Ok(RelayResponse::Rejected { code: RelayRejection::LimitExceeded });
        }
        let mut checked: usize = 0;
        while checked < envelopes.len()
            invariant
                checked <= envelopes@.len(),
                views == crate::net::relay::envelope_views(envelopes@),
                *self == *old(self),
                old(self).wf(),
                start == old(self)@,
                fits == admitted.fits(route@, views),
                fits,
                route@ == replay@.route,
                admitted == start.remembering(replay@, now),
                forall|i: int|
                    0 <= i < checked ==> (#[trigger] views[i]).expires_at <= 9223372036854775807,
            decreases envelopes@.len() - checked,
        {
            assert(views[checked as int] == envelopes@[checked as int]@);
            if envelopes[checked].expires_at > MAX_STORED {
                return Err(RelayStoreError::CorruptStorage);
            }
            checked += 1;
        }
        if self.next - 1 > MAX_STORED - added_objects {
            return Err(RelayStoreError::Storage(owned("database or disk is full")));
        }
        self.remember(replay, now);
        proof {
            law_purging_keeps_consistency(start, now);
            lemma_kept(start.objects, unexpired(now));
        }
        let ghost base = self@.objects;
        let ghost first = self.next;
        let mut index: usize = 0;
        assert(views.take(0) =~= Seq::<EnvelopeView>::empty());
        proof {
            reveal(Seq::filter);
            assert forall|i: int| 0 <= i < base.len() implies (#[trigger] base[i]).expires_at
                > 0 by {
                assert(unexpired(now)(base[i]));
            }
        }
        while index < envelopes.len()
            invariant
                index <= envelopes@.len(),
                views == crate::net::relay::envelope_views(envelopes@),
                base == admitted.objects,
                first == admitted.next,
                admitted.consistent(),
                self@.limits == admitted.limits,
                self@.replays == admitted.replays,
                (self@.objects, self@.next as nat) == pushing(
                    base,
                    first as nat,
                    route@,
                    views.take(index as int),
                ),
                self@.consistent(),
                first + fresh(base, route@, views).len() <= 9223372036854775808,
                forall|i: int|
                    0 <= i < views.len() ==> (#[trigger] views[i]).bounded(now),
                forall|i: int|
                    0 <= i < self@.objects.len() ==> (#[trigger] self@.objects[i]).expires_at > 0,
            decreases envelopes@.len() - index,
        {
            let ghost before = self@;
            let ghost shorter = views.take(index as int);
            let ghost longer = views.take(index + 1);
            let envelope = &envelopes[index];
            proof {
                assert(views[index as int] == envelope@);
                assert(longer.drop_last() =~= shorter);
                lemma_fresh_grows(base, route@, views, index as int);
                lemma_fresh_grows(base, route@, views, index + 1);
                lemma_pushing(base, first as nat, route@, shorter);
                lemma_pushing(base, first as nat, route@, longer);
                assert forall|i: int| 0 <= i < self.objects@.len() implies (
                #[trigger] self.objects@[i]).expires_at > 0 by {
                    assert(self@.objects[i] == self.objects@[i]@);
                }
            }
            if store_envelope(&mut self.objects, self.next, route, envelope) {
                self.next += 1;
                proof {
                    assert forall|i: int, j: int| 0 <= i < j < self@.objects.len() implies precedes(
                        #[trigger] self@.objects[i],
                        #[trigger] self@.objects[j],
                    ) by {
                        if j < before.objects.len() {
                            assert(precedes(before.objects[i], before.objects[j]));
                        } else {
                            assert(before.objects[i].sequence < before.next);
                        }
                    }
                }
            }
            index += 1;
        }
        assert(views.take(views.len() as int) =~= views);
        Ok(RelayResponse::Applied { changed: added_objects as u16 })
    }

    fn read_page(&self, route: &[u8; 32], after: u64, limit: u16, now: u64) -> (items: Result<
        Vec<RelayDelivery>,
        RelayStoreError,
    >)
        ensures
            ({
                let handled = self@.purged(now).pulled(route@, after, limit, now).0;
                match items {
                    Ok(items) => handled == Ok::<ResponseView, RelayFailure>(
                        ResponseView::Deliveries {
                            items: items@.map_values(|item: RelayDelivery| item@),
                        },
                    ),
                    Err(error) => handled == Err::<ResponseView, RelayFailure>(error@),
                }
            }),
    {
        if after > MAX_STORED {
            return Err(RelayStoreError::CorruptStorage);
        }
        let ghost views = object_views(self.objects@);
        let ghost live = views.filter(unexpired(now));
        let ghost wanted = awaiting(route@, after);
        let ghost waiting = live.filter(wanted);
        let ghost whole = page(live, route@, after, limit);
        let mut items: Vec<RelayDelivery> = Vec::new();
        let mut index: usize = 0;
        proof {
            reveal(Seq::filter);
            assert(views.take(0) =~= Seq::<ObjectView>::empty());
        }
        while index < self.objects.len() && items.len() < limit as usize
            invariant
                index <= self.objects@.len(),
                views == object_views(self.objects@),
                live == views.filter(unexpired(now)),
                wanted == awaiting(route@, after),
                waiting == live.filter(wanted),
                whole == page(live, route@, after, limit),
                after <= 9223372036854775807,
                self@.objects == views,
                items@.len() <= limit,
                items@.len() == views.take(index as int).filter(unexpired(now)).filter(wanted).len(),
                forall|i: int|
                    0 <= i < items@.len() ==> (#[trigger] items@[i])@ == delivery(
                        views.take(index as int).filter(unexpired(now)).filter(wanted)[i],
                    ) && items@[i]@.envelope.bounded(now),
            decreases self.objects@.len() - index,
        {
            let object = &self.objects[index];
            let ghost so_far = views.take(index as int).filter(unexpired(now));
            proof {
                assert(views[index as int] == object@);
                lemma_kept_step(views, index as int, unexpired(now));
                reveal(Seq::filter);
                assert(so_far.push(views[index as int]).drop_last() =~= so_far);
                lemma_prefix_kept_twice(views, index + 1, unexpired(now), wanted);
            }
            if object.expires_at > now && object.sequence > after && same_bytes(
                object.route.as_slice(),
                route.as_slice(),
            ) {
                let envelope = match RelayEnvelope::with_opaque_id(
                    object.id,
                    copy_bytes(object.ciphertext.as_slice()),
                    object.expires_at,
                    now,
                ) {
                    Ok(envelope) => envelope,
                    Err(_) => {
                        proof {
                            let found = views.take(index + 1).filter(unexpired(now)).filter(
                                wanted,
                            );
                            let at = found.len() - 1;
                            assert(found[at] == views[index as int]);
                            assert(waiting[at] == found[at]);
                            assert(whole[at] == delivery(waiting[at]));
                            assert(!whole[at].envelope.bounded(now));
                        }
                        return Err(RelayStoreError::CorruptStorage);
                    },
                };
                items.push(RelayDelivery { cursor: object.sequence, envelope });
            }
            index += 1;
        }
        proof {
            lemma_prefix_kept_twice(views, index as int, unexpired(now), wanted);
            if index == views.len() {
                assert(views.take(index as int) =~= views);
            }
            let shown = items@.map_values(|item: RelayDelivery| item@);
            assert(shown =~= whole) by {
                assert forall|i: int| 0 <= i < shown.len() implies shown[i] == whole[i] by {
                    assert(items@[i]@ == delivery(waiting[i]));
                }
            }
            assert forall|i: int| 0 <= i < whole.len() implies (
            #[trigger] whole[i]).envelope.bounded(now) by {
                assert(shown[i] == items@[i]@);
            }
        }
        Ok(items)
    }

    fn apply_ack(&mut self, route: &[u8; 32], ids: &Vec<[u8; 32]>) -> (changed: u16)
        requires
            old(self).wf(),
            ids@.len() <= 256,
        ensures
            final(self).wf(),
            (
                Ok::<ResponseView, RelayFailure>(ResponseView::Applied { changed }),
                final(self)@,
            ) == old(self)@.acknowledged(route@, crate::net::relay::id_views(ids@)),
    {
        let ghost start = self@;
        let ghost views = crate::net::relay::id_views(ids@);
        let mut changed: u16 = 0;
        let mut index: usize = 0;
        assert(views.take(0) =~= Seq::<Seq<u8>>::empty());
        while index < ids.len()
            invariant
                index <= ids@.len() <= 256,
                views == crate::net::relay::id_views(ids@),
                self@ == (RelayView {
                    objects: acknowledging(start.objects, route@, views.take(index as int)),
                    ..start
                }),
                self.wf(),
                start.objects.len() == self@.objects.len() + changed,
                changed <= index,
            decreases ids@.len() - index,
        {
            let ghost before = self@;
            proof {
                assert(views.take(index + 1).drop_last() =~= views.take(index as int));
                assert(views.take(index + 1).last() == ids@[index as int]@);
                lemma_order_kept(before.objects, other_than(route@, ids@[index as int]@));
                lemma_kept(before.objects, other_than(route@, ids@[index as int]@));
                assert forall|i: int, j: int| 0 <= i < j < self.objects@.len() implies precedes(
                    #[trigger] object_views(self.objects@)[i],
                    #[trigger] object_views(self.objects@)[j],
                ) by {
                    assert(precedes(before.objects[i], before.objects[j]));
                }
            }
            if drop_object(&mut self.objects, route, &ids[index]) {
                changed += 1;
            }
            proof {
                let after = self@;
                assert(after.objects == before.objects.filter(
                    other_than(route@, ids@[index as int]@),
                ));
                assert forall|i: int| 0 <= i < after.objects.len() implies 1 <= (
                #[trigger] after.objects[i]).sequence < after.next by {
                    assert(before.objects.contains(after.objects[i]));
                    let j = choose|j: int|
                        0 <= j < before.objects.len() && before.objects[j] == after.objects[i];
                    assert(before.objects[j].sequence < before.next);
                }
            }
            index += 1;
        }
        assert(views.take(views.len() as int) =~= views);
        changed
    }

    /// Returns current retained object and ciphertext-byte totals.
    pub fn usage(&self) -> (usage: Result<(u64, u64), RelayStoreError>)
        ensures
            match usage {
                Ok((objects, bytes)) => {
                    &&& objects == self@.objects.len()
                    &&& bytes == object_bytes(self@.objects)
                    &&& bytes <= 9223372036854775807
                },
                Err(error) => {
                    &&& object_bytes(self@.objects) > 9223372036854775807
                    &&& error@ == RelayFailure::Storage("integer overflow"@)
                },
            },
    {
        let ghost views = object_views(self.objects@);
        let mut bytes: u128 = 0;
        let mut index: usize = 0;
        assert(views.take(0) =~= Seq::<ObjectView>::empty());
        while index < self.objects.len()
            invariant
                index <= self.objects@.len(),
                views == object_views(self.objects@),
                bytes == object_bytes(views.take(index as int)),
                bytes <= index * u64::MAX,
            decreases self.objects@.len() - index,
        {
            proof {
                assert(views.take(index + 1).drop_last() =~= views.take(index as int));
                assert(views.take(index + 1).last() == self.objects@[index as int]@);
                assert(index * u64::MAX + u64::MAX == (index + 1) * u64::MAX) by (nonlinear_arith);
                assert((index + 1) * u64::MAX <= u64::MAX * u64::MAX) by (nonlinear_arith)
                    requires
                        index + 1 <= u64::MAX,
                ;
            }
            bytes += self.objects[index].ciphertext.len() as u128;
            index += 1;
        }
        assert(views.take(views.len() as int) =~= views);
        if bytes > MAX_STORED as u128 {
            return Err(RelayStoreError::Storage(owned("integer overflow")));
        }
        Ok((self.objects.len() as u64, bytes as u64))
    }

    /// Answers one decoded request; malformed input and storage failures are
    /// reduced to stable public rejection categories.
    pub fn answer(&mut self, request: Option<&RelayRequest>, now: u64) -> (response: RelayResponse)
        requires
            old(self).wf(),
        ensures
            final(self).wf(),
            match request {
                None => {
                    &&& response@ == (ResponseView::Rejected {
                        code: RelayRejection::Unauthorized,
                    })
                    &&& final(self)@ == old(self)@
                },
                Some(request) => {
                    let handled = old(self)@.handling(request@, now);
                    &&& final(self)@ == handled.1
                    &&& response@ == match handled.0 {
                        Ok(response) => response,
                        Err(_) => ResponseView::Rejected { code: RelayRejection::Unavailable },
                    }
                },
            },
    {
        match request {
            None => RelayResponse::Rejected { code: RelayRejection::Unauthorized },
            Some(request) => match self.handle(request, now) {
                Ok(response) => response,
                Err(_) => RelayResponse::Rejected { code: RelayRejection::Unavailable },
            },
        }
    }
}

/// The delivery of an object.
pub open spec fn delivery(object: ObjectView) -> DeliveryView {
    DeliveryView { cursor: object.sequence, envelope: object.envelope() }
}

/// The first kept rows are those of a prefix.
proof fn lemma_prefix_kept_twice(
    rows: Seq<ObjectView>,
    len: int,
    first: spec_fn(ObjectView) -> bool,
    second: spec_fn(ObjectView) -> bool,
)
    requires
        0 <= len <= rows.len(),
    ensures
        rows.take(len).filter(first).filter(second).len() <= rows.filter(first).filter(
            second,
        ).len(),
        forall|i: int|
            0 <= i < rows.take(len).filter(first).filter(second).len() ==> rows.take(len).filter(
                first,
            ).filter(second)[i] == #[trigger] rows.filter(first).filter(second)[i],
{
    assert(rows =~= rows.take(len) + rows.skip(len));
    Seq::filter_distributes_over_add(rows.take(len), rows.skip(len), first);
    Seq::filter_distributes_over_add(
        rows.take(len).filter(first),
        rows.skip(len).filter(first),
        second,
    );
}

/// A prefix of a push adds no more than the whole.
proof fn lemma_fresh_grows(
    objects: Seq<ObjectView>,
    route: Seq<u8>,
    envelopes: Seq<EnvelopeView>,
    len: int,
)
    requires
        0 <= len <= envelopes.len(),
    ensures
        fresh(objects, route, envelopes.take(len)).len() <= fresh(
            objects,
            route,
            envelopes,
        ).len(),
    decreases envelopes.len() - len,
{
    if len < envelopes.len() {
        lemma_fresh_grows(objects, route, envelopes, len + 1);
        assert(envelopes.take(len + 1).drop_last() =~= envelopes.take(len));
    } else {
        assert(envelopes.take(len) =~= envelopes);
    }
}

proof fn lemma_fresh_len(objects: Seq<ObjectView>, route: Seq<u8>, envelopes: Seq<EnvelopeView>)
    ensures
        fresh(objects, route, envelopes).len() <= envelopes.len(),
    decreases envelopes.len(),
{
    if envelopes.len() > 0 {
        lemma_fresh_len(objects, route, envelopes.drop_last());
    }
}

/// Whether an envelope is the first of its identity.
pub open spec fn is_first(envelopes: Seq<EnvelopeView>, k: int) -> bool {
    &&& 0 <= k < envelopes.len()
    &&& forall|j: int| 0 <= j < k ==> (#[trigger] envelopes[j]).id != envelopes[k].id
}

/// Reduces a protocol refusal to its public category.
pub fn rejection_for(error: &RelayProtocolError) -> (code: RelayRejection)
    ensures
        code == rejection_of(error@),
{
    match error {
        RelayProtocolError::LimitExceeded => RelayRejection::LimitExceeded,
        _ => RelayRejection::Unauthorized,
    }
}

/// Accepts the length that a request declares, or gives the answer to it.
pub fn accept_frame(declared: u32) -> (length: Result<usize, RelayResponse>)
    ensures
        match length {
            Ok(length) => 0 < declared <= 25165824 && length == declared,
            Err(response) => {
                &&& declared == 0 || declared > 25165824
                &&& response@ == (ResponseView::Rejected { code: RelayRejection::LimitExceeded })
            },
        },
{
    let length: usize = declared as usize;
    if length == 0 || length > MAX_FRAME_BYTES {
        return Err(RelayResponse::Rejected { code: RelayRejection::LimitExceeded });
    }
    Ok(length)
}

/// Frames an encoded response: its length in four big-endian bytes, capped at
/// the largest length, and its bytes.
pub fn response_frame(bytes: &[u8]) -> (frame: Vec<u8>)
    ensures
        frame@ == be(
            if bytes@.len() <= u32::MAX {
                bytes@.len()
            } else {
                u32::MAX as nat
            },
            4,
        ) + bytes@,
{
    let length: u32 = if bytes.len() <= 0xffff_ffff {
        bytes.len() as u32
    } else {
        0xffff_ffff
    };
    let mut frame = be_u32(length);
    extend(&mut frame, bytes);
    frame
}

/// Dropping what expired keeps a consistent state consistent.
pub proof fn law_purging_keeps_consistency(state: RelayView, now: u64)
    requires
        state.consistent(),
    ensures
        state.purged(now).consistent(),
{
    let objects = state.objects;
    let kept = objects.filter(unexpired(now));
    lemma_order_kept(objects, unexpired(now));
    lemma_kept(objects, unexpired(now));
    assert forall|i: int| 0 <= i < kept.len() implies 1 <= (#[trigger] kept[i]).sequence
        < state.next by {
        assert(objects.contains(kept[i]));
        let j = choose|j: int| 0 <= j < objects.len() && objects[j] == kept[i];
        assert(objects[j].sequence < state.next);
    }
}

/// A request that is refused by the protocol, is replayed or cannot be kept
/// changes nothing.
pub proof fn law_refused_request_changes_nothing(state: RelayView, request: RequestView, now: u64)
    requires
        request.verify_refusal(now) is Some || state.handling(request, now).0 is Err || replayed(
            state.purged(now).replays,
            request.unsigned.route,
            request.unsigned.nonce,
        ),
    ensures
        state.handling(request, now).1 == state,
{
}

proof fn lemma_pushing(
    objects: Seq<ObjectView>,
    next: nat,
    route: Seq<u8>,
    envelopes: Seq<EnvelopeView>,
)
    requires
        1 <= next,
        next + fresh(objects, route, envelopes).len() <= 9223372036854775808,
        forall|i: int|
            0 <= i < objects.len() ==> 1 <= (#[trigger] objects[i]).sequence < next,
        forall|i: int, j: int|
            0 <= i < j < objects.len() ==> precedes(#[trigger] objects[i], #[trigger] objects[j]),
    ensures
        ({
            let (stored, free) = pushing(objects, next, route, envelopes);
            let added = fresh(objects, route, envelopes);
            &&& free == next + added.len()
            &&& stored.len() == objects.len() + added.len()
            &&& stored.take(objects.len() as int) == objects
            &&& forall|i: int|
                0 <= i < stored.len() ==> 1 <= (#[trigger] stored[i]).sequence < free
            &&& forall|i: int, j: int|
                0 <= i < j < stored.len() ==> precedes(#[trigger] stored[i], #[trigger] stored[j])
            &&& forall|i: int|
                objects.len() <= i < stored.len() ==> (#[trigger] stored[i]).route == route
                    && stored[i].sequence >= next && exists|k: int| #[trigger]
                    is_first(envelopes, k) && envelopes[k] == stored[i].envelope()
            &&& forall|k: int|
                0 <= k < envelopes.len() ==> holds(stored, route, (#[trigger] envelopes[k]).id)
            &&& object_bytes(stored) == object_bytes(objects) + total_bytes(added)
            &&& forall|mailbox: Seq<u8>| #[trigger]
                stored.filter(in_mailbox(mailbox)).len() <= objects.filter(
                    in_mailbox(mailbox),
                ).len() + if mailbox == route {
                    added.len()
                } else {
                    0
                }
            &&& forall|mailbox: Seq<u8>|
                object_bytes(#[trigger] stored.filter(in_mailbox(mailbox))) <= object_bytes(
                    objects.filter(in_mailbox(mailbox)),
                ) + if mailbox == route {
                    total_bytes(added)
                } else {
                    0
                }
        }),
    decreases envelopes.len(),
{
    reveal(Seq::filter);
    if envelopes.len() == 0 {
        assert(objects.take(objects.len() as int) =~= objects);
    } else {
        let shorter = envelopes.drop_last();
        let envelope = envelopes.last();
        let fewer = fresh(objects, route, shorter);
        let added = fresh(objects, route, envelopes);
        lemma_pushing(objects, next, route, shorter);
        let (before, free) = pushing(objects, next, route, shorter);
        let (stored, _) = pushing(objects, next, route, envelopes);
        assert(fewer.push(envelope).drop_last() =~= fewer);
        if holds(objects, route, envelope.id) {
            let i = choose|i: int|
                0 <= i < objects.len() && (#[trigger] objects[i]).route == route && objects[i].id
                    == envelope.id;
            assert(before[i] == before.take(objects.len() as int)[i]);
            assert(before[i].route == route);
            assert(holds(before, route, envelope.id));
        }
        if named(shorter, envelope.id) {
            let k = choose|k: int|
                0 <= k < shorter.len() && (#[trigger] shorter[k]).id == envelope.id;
            assert(holds(before, route, shorter[k].id));
        }
        if holds(before, route, envelope.id) {
            let i = choose|i: int|
                0 <= i < before.len() && (#[trigger] before[i]).route == route && before[i].id
                    == envelope.id;
            if i < objects.len() {
                assert(before[i] == before.take(objects.len() as int)[i]);
                assert(objects[i].route == route);
                assert(holds(objects, route, envelope.id));
            } else {
                let k = choose|k: int| #[trigger]
                    is_first(shorter, k) && shorter[k] == before[i].envelope();
                assert(shorter[k].id == envelope.id);
                assert(named(shorter, envelope.id));
            }
        }
        if !holds(before, route, envelope.id) {
            let object = ObjectView {
                sequence: free as u64,
                route,
                id: envelope.id,
                expires_at: envelope.expires_at,
                ciphertext: envelope.ciphertext,
            };
            assert(stored == before.push(object));
            assert(stored.drop_last() =~= before);
            assert(stored.take(objects.len() as int) =~= objects) by {
                assert(before.take(objects.len() as int) =~= objects);
            }
            assert forall|i: int, j: int| 0 <= i < j < stored.len() implies precedes(
                #[trigger] stored[i],
                #[trigger] stored[j],
            ) by {
                if j < before.len() {
                    assert(precedes(before[i], before[j]));
                } else {
                    assert(before[i].sequence < free);
                    assert(!(before[i].route == route && before[i].id == envelope.id));
                }
            }
            assert(object.envelope() == envelope);
            assert(envelopes[envelopes.len() - 1] == object.envelope());
            assert(is_first(envelopes, envelopes.len() - 1)) by {
                assert forall|j: int| 0 <= j < shorter.len() implies (#[trigger] envelopes[j]).id
                    != envelope.id by {
                    assert(shorter[j] == envelopes[j]);
                }
            }
            assert forall|mailbox: Seq<u8>| #[trigger]
                stored.filter(in_mailbox(mailbox)).len() <= objects.filter(
                    in_mailbox(mailbox),
                ).len() + if mailbox == route {
                    added.len()
                } else {
                    0
                } && object_bytes(stored.filter(in_mailbox(mailbox))) <= object_bytes(
                objects.filter(in_mailbox(mailbox)),
            ) + if mailbox == route {
                total_bytes(added)
            } else {
                0
            } by {
                let held = before.filter(in_mailbox(mailbox));
                assert(held.len() <= objects.filter(in_mailbox(mailbox)).len() + if mailbox
                    == route {
                    fewer.len()
                } else {
                    0
                });
                if mailbox == route {
                    assert(stored.filter(in_mailbox(mailbox)) == held.push(object));
                    assert(held.push(object).drop_last() =~= held);
                } else {
                    assert(stored.filter(in_mailbox(mailbox)) == held);
                }
            }
            assert(stored[stored.len() - 1] == object);
        } else {
            assert forall|mailbox: Seq<u8>| #[trigger]
                stored.filter(in_mailbox(mailbox)).len() <= objects.filter(
                    in_mailbox(mailbox),
                ).len() + if mailbox == route {
                    added.len()
                } else {
                    0
                } && object_bytes(stored.filter(in_mailbox(mailbox))) <= object_bytes(
                objects.filter(in_mailbox(mailbox)),
            ) + if mailbox == route {
                total_bytes(added)
            } else {
                0
            } by {
                let held = before.filter(in_mailbox(mailbox));
                assert(held.len() <= objects.filter(in_mailbox(mailbox)).len() + if mailbox
                    == route {
                    fewer.len()
                } else {
                    0
                });
            }
        }
        assert forall|k: int| 0 <= k < envelopes.len() implies holds(
            stored,
            route,
            (#[trigger] envelopes[k]).id,
        ) by {
            if k < shorter.len() {
                assert(envelopes[k] == shorter[k]);
                assert(holds(before, route, shorter[k].id));
                let i = choose|i: int|
                    0 <= i < before.len() && (#[trigger] before[i]).route == route && before[i].id
                        == shorter[k].id;
                assert(stored[i] == before[i]);
            } else if !holds(before, route, envelope.id) {
                assert(stored[stored.len() - 1].id == envelope.id);
            }
        }
        assert forall|i: int| objects.len() <= i < stored.len() implies (#[trigger] stored[i]).route
            == route && stored[i].sequence >= next && exists|k: int| #[trigger]
            is_first(envelopes, k) && envelopes[k] == stored[i].envelope() by {
            if i < before.len() {
                assert(stored[i] == before[i]);
                let k = choose|k: int| #[trigger]
                    is_first(shorter, k) && shorter[k] == before[i].envelope();
                assert(envelopes[k] == shorter[k]);
                assert(is_first(envelopes, k)) by {
                    assert forall|j: int| 0 <= j < k implies (#[trigger] envelopes[j]).id
                        != envelopes[k].id by {
                        assert(shorter[j] == envelopes[j]);
                    }
                }
            }
        }
    }
}

proof fn lemma_acknowledging(objects: Seq<ObjectView>, route: Seq<u8>, ids: Seq<Seq<u8>>)
    requires
        forall|i: int, j: int|
            0 <= i < j < objects.len() ==> precedes(#[trigger] objects[i], #[trigger] objects[j]),
    ensures
        ({
            let left = acknowledging(objects, route, ids);
            &&& left.len() <= objects.len()
            &&& forall|i: int, j: int|
                0 <= i < j < left.len() ==> precedes(#[trigger] left[i], #[trigger] left[j])
            &&& forall|object: ObjectView| #[trigger]
                left.contains(object) <==> objects.contains(object) && !(object.route == route
                    && ids.contains(object.id))
            &&& object_bytes(left) <= object_bytes(objects)
            &&& forall|mailbox: Seq<u8>| #[trigger]
                left.filter(in_mailbox(mailbox)).len() <= objects.filter(
                    in_mailbox(mailbox),
                ).len() && object_bytes(left.filter(in_mailbox(mailbox))) <= object_bytes(
                    objects.filter(in_mailbox(mailbox)),
                )
        }),
    decreases ids.len(),
{
    if ids.len() > 0 {
        let shorter = ids.drop_last();
        lemma_acknowledging(objects, route, shorter);
        let before = acknowledging(objects, route, shorter);
        let keep = other_than(route, ids.last());
        let left = before.filter(keep);
        lemma_order_kept(before, keep);
        lemma_kept(before, keep);
        lemma_kept_bytes(before, keep);
        assert forall|object: ObjectView| #[trigger]
            left.contains(object) <==> objects.contains(object) && !(object.route == route
                && ids.contains(object.id)) by {
            assert(ids.contains(object.id) <==> shorter.contains(object.id) || object.id
                == ids.last()) by {
                if ids.contains(object.id) {
                    let i = choose|i: int| 0 <= i < ids.len() && ids[i] == object.id;
                    if i < shorter.len() {
                        assert(shorter[i] == object.id);
                    }
                }
                if shorter.contains(object.id) {
                    let i = choose|i: int| 0 <= i < shorter.len() && shorter[i] == object.id;
                    assert(ids[i] == object.id);
                }
                assert(ids[ids.len() - 1] == ids.last());
            }
            assert(before.contains(object) <==> objects.contains(object) && !(object.route
                == route && shorter.contains(object.id)));
        }
        assert forall|mailbox: Seq<u8>| #[trigger]
            left.filter(in_mailbox(mailbox)).len() <= objects.filter(in_mailbox(mailbox)).len()
                && object_bytes(left.filter(in_mailbox(mailbox))) <= object_bytes(
                objects.filter(in_mailbox(mailbox)),
            ) by {
            lemma_kept_within(before, keep, in_mailbox(mailbox));
            assert(before.filter(in_mailbox(mailbox)).len() <= objects.filter(
                in_mailbox(mailbox),
            ).len());
        }
    }
}

proof fn lemma_kept_bytes(objects: Seq<ObjectView>, keep: spec_fn(ObjectView) -> bool)
    ensures
        object_bytes(objects.filter(keep)) <= object_bytes(objects),
    decreases objects.len(),
{
    reveal(Seq::filter);
    if objects.len() > 0 {
        let shorter = objects.drop_last();
        lemma_kept_bytes(shorter, keep);
        if keep(objects.last()) {
            assert(objects.filter(keep).drop_last() =~= shorter.filter(keep));
        }
    }
}

/// Rows of a selection do not grow in number or bytes by keeping fewer rows.
proof fn lemma_kept_within(
    objects: Seq<ObjectView>,
    keep: spec_fn(ObjectView) -> bool,
    select: spec_fn(ObjectView) -> bool,
)
    ensures
        objects.filter(keep).filter(select).len() <= objects.filter(select).len(),
        object_bytes(objects.filter(keep).filter(select)) <= object_bytes(objects.filter(select)),
    decreases objects.len(),
{
    reveal(Seq::filter);
    if objects.len() > 0 {
        let shorter = objects.drop_last();
        lemma_kept_within(shorter, keep, select);
        let last = objects.last();
        if keep(last) {
            assert(objects.filter(keep).drop_last() =~= shorter.filter(keep));
            if select(last) {
                assert(objects.filter(keep).filter(select).drop_last() =~= shorter.filter(
                    keep,
                ).filter(select));
            }
        }
        if select(last) {
            assert(objects.filter(select).drop_last() =~= shorter.filter(select));
        }
    }
}

/// Every request keeps a consistent state consistent.
pub proof fn law_handling_keeps_consistency(state: RelayView, request: RequestView, now: u64)
    requires
        state.consistent(),
    ensures
        state.handling(request, now).1.consistent(),
        state.handling(request, now).1.next >= state.next,
{
    law_purging_keeps_consistency(state, now);
    let admitted = state.admitting(request, now);
    match request.unsigned.operation {
        OperationView::Push { envelopes } => {
            if admitted.next + fresh(
                admitted.objects,
                request.unsigned.route,
                envelopes,
            ).len() <= 9223372036854775808 {
                lemma_pushing(
                    admitted.objects,
                    admitted.next as nat,
                    request.unsigned.route,
                    envelopes,
                );
            }
        },
        OperationView::Pull { .. } => {},
        OperationView::Acknowledge { ids } => {
            lemma_acknowledging(admitted.objects, request.unsigned.route, ids);
            let left = acknowledging(admitted.objects, request.unsigned.route, ids);
            assert forall|i: int| 0 <= i < left.len() implies 1 <= (#[trigger] left[i]).sequence
                < admitted.next by {
                assert(left.contains(left[i]));
                let j = choose|j: int|
                    0 <= j < admitted.objects.len() && admitted.objects[j] == left[i];
                assert(admitted.objects[j].sequence < admitted.next);
            }
        },
    }
}

/// Whether every mailbox and the service are within their ceilings.
pub open spec fn within_limits(state: RelayView) -> bool {
    &&& forall|route: Seq<u8>|
        (#[trigger] state.objects.filter(in_mailbox(route))).len() <= state.limits.mailbox_objects
            && object_bytes(state.objects.filter(in_mailbox(route)))
            <= state.limits.mailbox_bytes
    &&& object_bytes(state.objects) <= state.limits.total_bytes
}

/// No request takes a mailbox or the service over its ceilings.
pub proof fn law_quotas_hold(state: RelayView, request: RequestView, now: u64)
    requires
        state.consistent(),
        within_limits(state),
    ensures
        within_limits(state.handling(request, now).1),
{
    law_purging_keeps_consistency(state, now);
    let admitted = state.admitting(request, now);
    lemma_kept_bytes(state.objects, unexpired(now));
    assert(within_limits(admitted)) by {
        assert forall|route: Seq<u8>|
            (#[trigger] admitted.objects.filter(in_mailbox(route))).len()
                <= admitted.limits.mailbox_objects && object_bytes(
                admitted.objects.filter(in_mailbox(route)),
            ) <= admitted.limits.mailbox_bytes by {
            lemma_kept_within(state.objects, unexpired(now), in_mailbox(route));
            assert(state.objects.filter(in_mailbox(route)).len() <= state.limits.mailbox_objects);
        }
    }
    let after = state.handling(request, now).1;
    match request.unsigned.operation {
        OperationView::Push { envelopes } => {
            let route = request.unsigned.route;
            let added = fresh(admitted.objects, route, envelopes);
            if admitted.fits(route, envelopes) && admitted.next + added.len()
                <= 9223372036854775808 {
                lemma_pushing(admitted.objects, admitted.next as nat, route, envelopes);
                let stored = pushing(
                    admitted.objects,
                    admitted.next as nat,
                    route,
                    envelopes,
                ).0;
                assert forall|mailbox: Seq<u8>|
                    (#[trigger] stored.filter(in_mailbox(mailbox))).len()
                        <= admitted.limits.mailbox_objects && object_bytes(
                        stored.filter(in_mailbox(mailbox)),
                    ) <= admitted.limits.mailbox_bytes by {
                    assert(admitted.objects.filter(in_mailbox(mailbox)).len()
                        <= admitted.limits.mailbox_objects);
                }
            }
        },
        OperationView::Pull { .. } => {},
        OperationView::Acknowledge { ids } => {
            let route = request.unsigned.route;
            lemma_acknowledging(admitted.objects, route, ids);
            let left = acknowledging(admitted.objects, route, ids);
            assert forall|mailbox: Seq<u8>|
                (#[trigger] left.filter(in_mailbox(mailbox))).len()
                    <= admitted.limits.mailbox_objects && object_bytes(
                    left.filter(in_mailbox(mailbox)),
                ) <= admitted.limits.mailbox_bytes by {
                assert(admitted.objects.filter(in_mailbox(mailbox)).len()
                    <= admitted.limits.mailbox_objects);
            }
        },
    }
}

/// Whether a request passed authentication, replay and storage checks, so that
/// the service remembers it.
pub open spec fn accepted(state: RelayView, request: RequestView, now: u64) -> bool {
    &&& request.verify_refusal(now) is None
    &&& state.handling(request, now).0 is Ok
    &&& !replayed(
        state.purged(now).replays,
        request.unsigned.route,
        request.unsigned.nonce,
    )
}

/// Whether the service remembers a request until it is stale.
pub open spec fn remembers(state: RelayView, request: RequestView) -> bool {
    exists|i: int|
        0 <= i < state.replays.len() && (#[trigger] state.replays[i]).route
            == request.unsigned.route && state.replays[i].nonce == request.unsigned.nonce
            && state.replays[i].expires_at > request.unsigned.issued_at + 300
}

/// An accepted request is remembered.
pub proof fn law_accepted_request_is_remembered(state: RelayView, request: RequestView, now: u64)
    requires
        accepted(state, request, now),
    ensures
        remembers(state.handling(request, now).1, request),
{
    let after = state.handling(request, now).1;
    let admitted = state.admitting(request, now);
    assert(after.replays == admitted.replays);
    assert(after.replays[after.replays.len() - 1].route == request.unsigned.route);
}

/// A remembered request stays remembered, whatever request comes, until it is
/// stale.
pub proof fn law_remembered_request_stays(
    state: RelayView,
    request: RequestView,
    other: RequestView,
    now: u64,
)
    requires
        remembers(state, request),
        now <= request.unsigned.issued_at + 300,
    ensures
        remembers(state.handling(other, now).1, request),
{
    let after = state.handling(other, now).1;
    if after != state {
        let admitted = state.admitting(other, now);
        let live = state.purged(now).replays;
        assert(after.replays == admitted.replays);
        let i = choose|i: int|
            0 <= i < state.replays.len() && (#[trigger] state.replays[i]).route
                == request.unsigned.route && state.replays[i].nonce == request.unsigned.nonce
                && state.replays[i].expires_at > request.unsigned.issued_at + 300;
        let row = state.replays[i];
        lemma_kept(state.replays, remembered(now));
        assert(state.replays.contains(row));
        assert(remembered(now)(row));
        assert(live.contains(row));
        let j = choose|j: int| 0 <= j < live.len() && live[j] == row;
        assert(after.replays[j] == row);
    }
}

/// A remembered request is refused, and changes nothing, at every time: while
/// it is current because it is remembered, and after that because it is stale.
pub proof fn law_replay_is_refused(state: RelayView, request: RequestView, later: u64)
    requires
        remembers(state, request),
        request.unsigned.issued_at + 301 <= 9223372036854775807,
    ensures
        state.handling(request, later) == (
            Ok::<ResponseView, RelayFailure>(
                ResponseView::Rejected {
                    code: match request.verify_refusal(later) {
                        Some(refusal) => rejection_of(refusal),
                        None => RelayRejection::Unauthorized,
                    },
                },
            ),
            state,
        ),
{
    if request.verify_refusal(later) is None {
        let i = choose|i: int|
            0 <= i < state.replays.len() && (#[trigger] state.replays[i]).route
                == request.unsigned.route && state.replays[i].nonce == request.unsigned.nonce
                && state.replays[i].expires_at > request.unsigned.issued_at + 300;
        let row = state.replays[i];
        let live = state.purged(later).replays;
        lemma_kept(state.replays, remembered(later));
        assert(state.replays.contains(row));
        assert(remembered(later)(row));
        assert(live.contains(row));
        let j = choose|j: int| 0 <= j < live.len() && live[j] == row;
        assert(live[j].route == request.unsigned.route);
        assert(replayed(live, request.unsigned.route, request.unsigned.nonce));
    }
}

/// A request that was accepted is refused, and changes nothing, whenever it
/// comes again.
pub proof fn law_accepted_request_is_refused_again(
    state: RelayView,
    request: RequestView,
    now: u64,
    later: u64,
)
    requires
        accepted(state, request, now),
    ensures
        ({
            let after = state.handling(request, now).1;
            let again = after.handling(request, later);
            &&& again.0 matches Ok(response) && response is Rejected
            &&& request.verify_refusal(later) is None ==> again.0 == Ok::<
                ResponseView,
                RelayFailure,
            >(ResponseView::Rejected { code: RelayRejection::Unauthorized })
            &&& again.1 == after
        }),
{
    law_accepted_request_is_remembered(state, request, now);
    law_replay_is_refused(state.handling(request, now).1, request, later);
}

/// What an accepted push stores is delivered: a pull of the whole mailbox
/// before it expires returns, of every identity that was new, the first
/// envelope of the push.
pub proof fn law_pushed_object_is_delivered(
    state: RelayView,
    push: RequestView,
    envelopes: Seq<EnvelopeView>,
    k: int,
    now: u64,
    pull: RequestView,
    limit: u16,
    later: u64,
)
    requires
        state.consistent(),
        push.unsigned.operation == (OperationView::Push { envelopes }),
        is_first(envelopes, k),
        accepted(state, push, now),
        state.handling(push, now).0->Ok_0 is Applied,
        pull.unsigned.operation == (OperationView::Pull { after: 0, limit }),
        pull.unsigned.route == push.unsigned.route,
        accepted(state.handling(push, now).1, pull, later),
        !holds(state.purged(now).objects, push.unsigned.route, envelopes[k].id),
        later < envelopes[k].expires_at,
        limit >= state.handling(push, now).1.objects.len(),
    ensures
        ({
            let response = state.handling(push, now).1.handling(pull, later).0->Ok_0;
            &&& response is Deliveries
            &&& exists|i: int|
                0 <= i < response->items.len() && (#[trigger] response->items[i]).envelope
                    == envelopes[k]
        }),
{
    let route = push.unsigned.route;
    law_purging_keeps_consistency(state, now);
    let admitted = state.admitting(push, now);
    lemma_pushing(admitted.objects, admitted.next as nat, route, envelopes);
    let stored = pushing(admitted.objects, admitted.next as nat, route, envelopes).0;
    let after = state.handling(push, now).1;
    assert(after.objects == stored);
    assert(holds(stored, route, envelopes[k].id));
    let at = choose|i: int|
        0 <= i < stored.len() && (#[trigger] stored[i]).route == route && stored[i].id
            == envelopes[k].id;
    let base = admitted.objects.len() as int;
    if at < base {
        assert(stored[at] == stored.take(base)[at]);
        assert(admitted.objects[at].route == route);
        assert(holds(admitted.objects, route, envelopes[k].id));
        assert(false);
    }
    let j = choose|j: int| #[trigger]
        is_first(envelopes, j) && envelopes[j] == stored[at].envelope();
    assert(envelopes[j].id == envelopes[k].id);
    assert(stored[at].envelope() == envelopes[k]);
    let live = after.purged(later).objects;
    let waiting = live.filter(awaiting(route, 0));
    lemma_kept(stored, unexpired(later));
    lemma_kept(live, awaiting(route, 0));
    assert(stored.contains(stored[at]));
    assert(unexpired(later)(stored[at]));
    assert(live.contains(stored[at]));
    assert(awaiting(route, 0)(stored[at]));
    assert(waiting.contains(stored[at]));
    let i = choose|i: int| 0 <= i < waiting.len() && waiting[i] == stored[at];
    let items = page(live, route, 0, limit);
    assert(items[i] == delivery(waiting[i]));
    let polled = after.admitting(pull, later);
    assert(polled.objects == live);
    let response = after.handling(pull, later).0->Ok_0;
    assert(response == (ResponseView::Deliveries { items }));
    assert(response->items[i].envelope == envelopes[k]);
}

/// A page is ordered by cursor, starts after the requested cursor, and holds
/// nothing that expired.
pub proof fn law_page_is_ordered(
    state: RelayView,
    pull: RequestView,
    after: u64,
    limit: u16,
    now: u64,
)
    requires
        state.consistent(),
        pull.unsigned.operation == (OperationView::Pull { after, limit }),
        accepted(state, pull, now),
    ensures
        ({
            let response = state.handling(pull, now).0->Ok_0;
            &&& response is Deliveries
            &&& response->items.len() <= limit
            &&& forall|i: int|
                0 <= i < response->items.len() ==> (#[trigger] response->items[i]).cursor > after
                    && response->items[i].envelope.bounded(now)
            &&& forall|i: int, j: int|
                0 <= i < j < response->items.len() ==> (#[trigger] response->items[i]).cursor < (
                #[trigger] response->items[j]).cursor
        }),
{
    let route = pull.unsigned.route;
    law_purging_keeps_consistency(state, now);
    let live = state.purged(now).objects;
    let waiting = live.filter(awaiting(route, after));
    lemma_kept(live, awaiting(route, after));
    lemma_order_kept(live, awaiting(route, after));
    let items = page(live, route, after, limit);
    let response = state.handling(pull, now).0->Ok_0;
    assert(state.admitting(pull, now).objects == live);
    assert(response == (ResponseView::Deliveries { items }));
    assert forall|i: int| 0 <= i < items.len() implies (#[trigger] items[i]).cursor > after by {
        assert(items[i] == delivery(waiting[i]));
        assert(awaiting(route, after)(waiting[i]));
    }
    assert forall|i: int, j: int| 0 <= i < j < items.len() implies (#[trigger] items[i]).cursor < (
    #[trigger] items[j]).cursor by {
        assert(items[i] == delivery(waiting[i]) && items[j] == delivery(waiting[j]));
        assert(precedes(waiting[i], waiting[j]));
    }
}

/// An acknowledged object is gone, and nothing else is: what remains is every
/// unexpired object that was not acknowledged.
pub proof fn law_acknowledged_objects_are_gone(
    state: RelayView,
    request: RequestView,
    ids: Seq<Seq<u8>>,
    now: u64,
)
    requires
        state.consistent(),
        request.unsigned.operation == (OperationView::Acknowledge { ids }),
        accepted(state, request, now),
    ensures
        forall|object: ObjectView| #[trigger]
            state.handling(request, now).1.objects.contains(object) <==> {
                &&& state.objects.contains(object)
                &&& object.expires_at > now
                &&& !(object.route == request.unsigned.route && ids.contains(object.id))
            },
{
    law_purging_keeps_consistency(state, now);
    let admitted = state.admitting(request, now);
    lemma_kept(state.objects, unexpired(now));
    lemma_acknowledging(admitted.objects, request.unsigned.route, ids);
    assert forall|object: ObjectView| #[trigger]
        state.handling(request, now).1.objects.contains(object) <==> {
            &&& state.objects.contains(object)
            &&& object.expires_at > now
            &&& !(object.route == request.unsigned.route && ids.contains(object.id))
        } by {
        assert(admitted.objects.contains(object) <==> state.objects.contains(object) && unexpired(
            now,
        )(object));
    }
}

/// A push never replaces, reorders or drops an unexpired object, reports how
/// many it inserted, and inserts nothing where it is refused.
pub proof fn law_push_keeps_what_is_held(
    state: RelayView,
    request: RequestView,
    envelopes: Seq<EnvelopeView>,
    now: u64,
)
    requires
        state.consistent(),
        request.unsigned.operation == (OperationView::Push { envelopes }),
        accepted(state, request, now),
    ensures
        ({
            let live = state.purged(now).objects;
            let after = state.handling(request, now).1.objects;
            &&& after.len() >= live.len()
            &&& after.take(live.len() as int) == live
            &&& state.handling(request, now).0->Ok_0 is Rejected ==> after == live
            &&& state.handling(request, now).0->Ok_0 matches ResponseView::Applied {
                changed,
            } ==> after.len() == live.len() + changed
        }),
{
    law_purging_keeps_consistency(state, now);
    let admitted = state.admitting(request, now);
    let route = request.unsigned.route;
    let live = admitted.objects;
    assert(live.take(live.len() as int) =~= live);
    lemma_fresh_len(live, route, envelopes);
    if admitted.next + fresh(live, route, envelopes).len() <= 9223372036854775808 {
        lemma_pushing(live, admitted.next as nat, route, envelopes);
    }
}

/// A page is the beginning of what waits: every item is an unexpired object of
/// the mailbox beyond the requested cursor, as it was stored, in the order of
/// the cursors, and no more items than asked for. An unexpired object of the
/// mailbox beyond the cursor is left out only where the page is full of objects
/// with smaller cursors.
pub proof fn law_page_is_the_beginning_of_what_waits(
    state: RelayView,
    pull: RequestView,
    after: u64,
    limit: u16,
    now: u64,
)
    requires
        state.consistent(),
        pull.unsigned.operation == (OperationView::Pull { after, limit }),
        accepted(state, pull, now),
    ensures
        ({
            let response = state.handling(pull, now).0->Ok_0;
            let items = response->items;
            let route = pull.unsigned.route;
            &&& response is Deliveries
            &&& items.len() <= limit
            &&& forall|i: int|
                0 <= i < items.len() ==> (#[trigger] items[i]).cursor > after && exists|k: int|
                    0 <= k < state.objects.len() && (#[trigger] state.objects[k]).route == route
                        && state.objects[k].expires_at > now && state.objects[k].sequence > after
                        && items[i].cursor == state.objects[k].sequence
                        && items[i].envelope.id == state.objects[k].id
                        && items[i].envelope.expires_at == state.objects[k].expires_at
                        && items[i].envelope.ciphertext == state.objects[k].ciphertext
            &&& forall|i: int, j: int|
                0 <= i < j < items.len() ==> (#[trigger] items[i]).cursor < (
                #[trigger] items[j]).cursor
            &&& forall|k: int|
                0 <= k < state.objects.len() && (#[trigger] state.objects[k]).route == route
                    && state.objects[k].expires_at > now && state.objects[k].sequence > after ==> {
                    ||| exists|i: int|
                        0 <= i < items.len() && (#[trigger] items[i]).cursor
                            == state.objects[k].sequence && items[i].envelope.id
                            == state.objects[k].id && items[i].envelope.ciphertext
                            == state.objects[k].ciphertext
                    ||| items.len() == limit && forall|i: int|
                        0 <= i < items.len() ==> (#[trigger] items[i]).cursor
                            < state.objects[k].sequence
                }
        }),
{
    law_page_is_ordered(state, pull, after, limit, now);
    let route = pull.unsigned.route;
    law_purging_keeps_consistency(state, now);
    let live = state.purged(now).objects;
    let waiting = live.filter(awaiting(route, after));
    lemma_kept(state.objects, unexpired(now));
    lemma_kept(live, awaiting(route, after));
    lemma_order_kept(live, awaiting(route, after));
    let items = page(live, route, after, limit);
    assert(state.admitting(pull, now).objects == live);
    assert(state.handling(pull, now).0->Ok_0 == (ResponseView::Deliveries { items }));
    assert forall|i: int| 0 <= i < items.len() implies (#[trigger] items[i]).cursor > after
        && exists|k: int|
        0 <= k < state.objects.len() && (#[trigger] state.objects[k]).route == route
            && state.objects[k].expires_at > now && state.objects[k].sequence > after
            && items[i].cursor == state.objects[k].sequence && items[i].envelope.id
            == state.objects[k].id && items[i].envelope.expires_at == state.objects[k].expires_at
            && items[i].envelope.ciphertext == state.objects[k].ciphertext by {
        assert(items[i] == delivery(waiting[i]));
        assert(waiting.contains(waiting[i]));
        assert(awaiting(route, after)(waiting[i]));
        assert(live.contains(waiting[i]));
        assert(unexpired(now)(waiting[i]));
        let k = choose|k: int| 0 <= k < state.objects.len() && state.objects[k] == waiting[i];
        assert(state.objects[k].route == route);
    }
    assert forall|k: int|
        0 <= k < state.objects.len() && (#[trigger] state.objects[k]).route == route
            && state.objects[k].expires_at > now && state.objects[k].sequence > after implies {
        ||| exists|i: int|
            0 <= i < items.len() && (#[trigger] items[i]).cursor == state.objects[k].sequence
                && items[i].envelope.id == state.objects[k].id && items[i].envelope.ciphertext
                == state.objects[k].ciphertext
        ||| items.len() == limit && forall|i: int|
            0 <= i < items.len() ==> (#[trigger] items[i]).cursor < state.objects[k].sequence
    } by {
        let object = state.objects[k];
        assert(unexpired(now)(object));
        assert(live.contains(object));
        assert(awaiting(route, after)(object));
        assert(waiting.contains(object));
        let at = choose|i: int| 0 <= i < waiting.len() && waiting[i] == object;
        if at < items.len() {
            assert(items[at] == delivery(waiting[at]));
        } else {
            assert forall|i: int| 0 <= i < items.len() implies (#[trigger] items[i]).cursor
                < object.sequence by {
                assert(items[i] == delivery(waiting[i]));
                assert(precedes(waiting[i], waiting[at]));
            }
        }
    }
}

/// A request that verifies, whose times can be kept and that is not remembered
/// is admitted: its own mailbox and nonce alone decide whether it is a replay,
/// and only while the remembered one has not run out.
pub proof fn law_admission_is_exact(state: RelayView, request: RequestView, now: u64)
    ensures
        ({
            let storable = now <= i64::MAX && request.unsigned.issued_at + 301 <= i64::MAX;
            let replay = exists|i: int|
                0 <= i < state.replays.len() && (#[trigger] state.replays[i]).route
                    == request.unsigned.route && state.replays[i].nonce == request.unsigned.nonce
                    && state.replays[i].expires_at > now;
            let (result, after) = state.handling(request, now);
            &&& request.verify_refusal(now) is Some ==> after == state && (
            result matches Ok(ResponseView::Rejected { code }) && code
                == rejection_of(request.verify_refusal(now)->0))
            &&& request.verify_refusal(now) is None && !storable ==> after == state
                && result is Err
            &&& request.verify_refusal(now) is None && storable && replay ==> after == state && (
            result matches Ok(ResponseView::Rejected { code }) && code
                == RelayRejection::Unauthorized)
            &&& request.verify_refusal(now) is None && storable && !replay ==> result
                == state.admitting(request, now).applying(request, now).0 && (result is Ok
                ==> after == state.admitting(request, now).applying(request, now).1) && (
            result is Err ==> after == state)
        }),
{
    let live = state.purged(now).replays;
    lemma_kept(state.replays, remembered(now));
    let route = request.unsigned.route;
    let nonce = request.unsigned.nonce;
    if replayed(live, route, nonce) {
        let j = choose|j: int|
            0 <= j < live.len() && (#[trigger] live[j]).route == route && live[j].nonce == nonce;
        assert(live.contains(live[j]));
        assert(remembered(now)(live[j]));
        let i = choose|i: int| 0 <= i < state.replays.len() && state.replays[i] == live[j];
        assert(state.replays[i].route == route);
    } else {
        assert forall|i: int| 0 <= i < state.replays.len() && (
        #[trigger] state.replays[i]).route == route && state.replays[i].nonce
            == nonce implies state.replays[i].expires_at <= now by {
            if state.replays[i].expires_at > now {
                assert(remembered(now)(state.replays[i]));
                assert(state.replays.contains(state.replays[i]));
                assert(live.contains(state.replays[i]));
                let j = choose|j: int| 0 <= j < live.len() && live[j] == state.replays[i];
                assert(live[j].route == route);
            }
        }
    }
}

/// An admitted request drops exactly the objects and the remembered requests
/// that have run out, and is itself remembered for 301 seconds from its time of
/// issue; limits and the next cursor stay.
pub proof fn law_admission_drops_what_ran_out(state: RelayView, request: RequestView, now: u64)
    requires
        request.unsigned.issued_at + 301 <= u64::MAX,
    ensures
        ({
            let after = state.admitting(request, now);
            let latest = after.replays.last();
            &&& forall|object: ObjectView| #[trigger]
                after.objects.contains(object) <==> state.objects.contains(object)
                    && object.expires_at > now
            &&& after.replays.len() > 0
            &&& latest.route == request.unsigned.route
            &&& latest.nonce == request.unsigned.nonce
            &&& latest.expires_at == request.unsigned.issued_at + 301
            &&& forall|replay: ReplayView| #[trigger]
                after.replays.drop_last().contains(replay) <==> state.replays.contains(replay)
                    && replay.expires_at > now
            &&& after.limits == state.limits
            &&& after.next == state.next
        }),
{
    lemma_kept(state.objects, unexpired(now));
    lemma_kept(state.replays, remembered(now));
    let after = state.admitting(request, now);
    assert(after.replays.drop_last() =~= state.replays.filter(remembered(now)));
    assert forall|object: ObjectView| #[trigger]
        after.objects.contains(object) <==> state.objects.contains(object) && object.expires_at
            > now by {
        assert(unexpired(now)(object) <==> object.expires_at > now);
    }
    assert forall|replay: ReplayView| #[trigger]
        after.replays.drop_last().contains(replay) <==> state.replays.contains(replay)
            && replay.expires_at > now by {
        assert(remembered(now)(replay) <==> replay.expires_at > now);
    }
}

/// Dropping what has run out keeps the order of what remains.
pub proof fn law_purging_is_exact(state: RelayView, now: u64)
    ensures
        state.purged(now).objects == state.objects.filter(
            |object: ObjectView| object.expires_at > now,
        ),
        state.purged(now).replays == state.replays.filter(
            |replay: ReplayView| replay.expires_at > now,
        ),
        state.purged(now).limits == state.limits,
        state.purged(now).next == state.next,
{
    assert(unexpired(now) =~= (|object: ObjectView| object.expires_at > now));
    assert(remembered(now) =~= (|replay: ReplayView| replay.expires_at > now));
}

/// A pull is answered with a page wherever the cursor can be kept and every
/// object of the mailbox that waits is within the protocol's bounds; it changes
/// nothing.
pub proof fn law_pull_is_answered(
    state: RelayView,
    route: Seq<u8>,
    after: u64,
    limit: u16,
    now: u64,
)
    ensures
        state.pulled(route, after, limit, now).1 == state,
        after > i64::MAX ==> state.pulled(route, after, limit, now).0 is Err,
        after <= i64::MAX && (forall|k: int|
            0 <= k < state.objects.len() && (#[trigger] state.objects[k]).route == route
                && state.objects[k].sequence > after ==> 0 < state.objects[k].ciphertext.len()
                <= 1048576 && now < state.objects[k].expires_at && state.objects[k].expires_at
                - now <= 2592000) ==> (state.pulled(route, after, limit, now).0 matches Ok(
            response,
        ) && response is Deliveries),
{
    let waiting = state.objects.filter(awaiting(route, after));
    lemma_kept(state.objects, awaiting(route, after));
    let items = page(state.objects, route, after, limit);
    if after <= i64::MAX && forall|k: int|
        0 <= k < state.objects.len() && (#[trigger] state.objects[k]).route == route
            && state.objects[k].sequence > after ==> 0 < state.objects[k].ciphertext.len()
            <= 1048576 && now < state.objects[k].expires_at && state.objects[k].expires_at - now
            <= 2592000 {
        assert forall|i: int| 0 <= i < items.len() implies (
        #[trigger] items[i]).envelope.bounded(now) by {
            assert(items[i] == delivery(waiting[i]));
            assert(waiting.contains(waiting[i]));
            assert(awaiting(route, after)(waiting[i]));
            let k = choose|k: int| 0 <= k < state.objects.len() && state.objects[k] == waiting[i];
            assert(state.objects[k].route == route);
        }
    }
}

/// An envelope is the first of its identity among all where it is among the
/// first ones, and the last one where none before has its identity.
proof fn lemma_first_in_prefix(envelopes: Seq<EnvelopeView>, k: int)
    requires
        0 <= k < envelopes.len(),
    ensures
        k < envelopes.len() - 1 ==> (is_first(envelopes.drop_last(), k) <==> is_first(
            envelopes,
            k,
        )) && envelopes.drop_last()[k] == envelopes[k],
        k == envelopes.len() - 1 ==> (is_first(envelopes, k) <==> !named(
            envelopes.drop_last(),
            envelopes[k].id,
        )),
{
    let shorter = envelopes.drop_last();
    if k < shorter.len() {
        if is_first(shorter, k) {
            assert forall|j: int| 0 <= j < k implies (#[trigger] envelopes[j]).id
                != envelopes[k].id by {
                assert(shorter[j] == envelopes[j]);
            }
        }
        if is_first(envelopes, k) {
            assert forall|j: int| 0 <= j < k implies (#[trigger] shorter[j]).id
                != shorter[k].id by {
                assert(shorter[j] == envelopes[j]);
            }
        }
    } else if named(shorter, envelopes[k].id) {
        let j = choose|j: int|
            0 <= j < shorter.len() && (#[trigger] shorter[j]).id == envelopes[k].id;
        assert(envelopes[j].id == envelopes[k].id);
    } else {
        assert forall|j: int| 0 <= j < k implies (#[trigger] envelopes[j]).id
            != envelopes[k].id by {
            assert(shorter[j] == envelopes[j]);
        }
    }
}

proof fn lemma_fresh_holds(
    objects: Seq<ObjectView>,
    route: Seq<u8>,
    envelopes: Seq<EnvelopeView>,
    k: int,
)
    requires
        is_first(envelopes, k),
        !holds(objects, route, envelopes[k].id),
    ensures
        exists|i: int|
            0 <= i < fresh(objects, route, envelopes).len() && #[trigger] fresh(
                objects,
                route,
                envelopes,
            )[i] == envelopes[k],
    decreases envelopes.len(),
{
    let shorter = envelopes.drop_last();
    let before = fresh(objects, route, shorter);
    let added = fresh(objects, route, envelopes);
    lemma_first_in_prefix(envelopes, k);
    if k < shorter.len() {
        lemma_fresh_holds(objects, route, shorter, k);
        let i = choose|i: int| 0 <= i < before.len() && #[trigger] before[i] == shorter[k];
        assert(added[i] == envelopes[k]);
    } else {
        assert(added[before.len() as int] == envelopes[k]);
    }
}

proof fn lemma_fresh_order(
    objects: Seq<ObjectView>,
    route: Seq<u8>,
    envelopes: Seq<EnvelopeView>,
    j: int,
) -> (l: int)
    requires
        0 <= j < fresh(objects, route, envelopes).len(),
    ensures
        is_first(envelopes, l),
        envelopes[l] == fresh(objects, route, envelopes)[j],
        !holds(objects, route, envelopes[l].id),
    decreases envelopes.len(),
{
    let shorter = envelopes.drop_last();
    let last = envelopes.len() - 1;
    let before = fresh(objects, route, shorter);
    if j < before.len() {
        let l = lemma_fresh_order(objects, route, shorter, j);
        lemma_first_in_prefix(envelopes, l);
        l
    } else {
        lemma_first_in_prefix(envelopes, last);
        last
    }
}

proof fn lemma_fresh_differ(
    objects: Seq<ObjectView>,
    route: Seq<u8>,
    envelopes: Seq<EnvelopeView>,
    i: int,
    j: int,
)
    requires
        0 <= i < j < fresh(objects, route, envelopes).len(),
    ensures
        exists|k: int, l: int|
            k < l && #[trigger] is_first(envelopes, k) && #[trigger] is_first(envelopes, l)
                && envelopes[k] == fresh(objects, route, envelopes)[i] && envelopes[l] == fresh(
                objects,
                route,
                envelopes,
            )[j],
    decreases envelopes.len(),
{
    let shorter = envelopes.drop_last();
    let last = envelopes.len() - 1;
    let before = fresh(objects, route, shorter);
    if j < before.len() {
        lemma_fresh_differ(objects, route, shorter, i, j);
        let (k, l) = choose|k: int, l: int|
            k < l && #[trigger] is_first(shorter, k) && #[trigger] is_first(shorter, l)
                && shorter[k] == before[i] && shorter[l] == before[j];
        lemma_first_in_prefix(envelopes, k);
        lemma_first_in_prefix(envelopes, l);
    } else {
        let k = lemma_fresh_order(objects, route, shorter, i);
        lemma_first_in_prefix(envelopes, k);
        lemma_first_in_prefix(envelopes, last);
    }
}

/// A push adds, of every identity that the mailbox does not hold, the first
/// envelope that has it, in the order of the envelopes, and nothing else.
pub proof fn law_push_adds_what_is_new(
    objects: Seq<ObjectView>,
    route: Seq<u8>,
    envelopes: Seq<EnvelopeView>,
)
    ensures
        ({
            let added = fresh(objects, route, envelopes);
            &&& forall|k: int|
                0 <= k < envelopes.len() && (forall|j: int|
                    0 <= j < k ==> (#[trigger] envelopes[j]).id != envelopes[k].id) && (forall|
                    i: int,
                |
                    0 <= i < objects.len() ==> !((#[trigger] objects[i]).route == route
                        && objects[i].id == envelopes[k].id)) ==> added.contains(
                    #[trigger] envelopes[k],
                )
            &&& forall|i: int|
                0 <= i < added.len() ==> envelopes.contains(#[trigger] added[i])
            &&& forall|i: int, k: int|
                0 <= i < added.len() && 0 <= k < objects.len() ==> !((
                #[trigger] objects[k]).route == route && objects[k].id == (
                #[trigger] added[i]).id)
            &&& forall|i: int, j: int|
                0 <= i < j < added.len() ==> (#[trigger] added[i]).id != (#[trigger] added[j]).id
        }),
{
    let added = fresh(objects, route, envelopes);
    assert forall|k: int|
        0 <= k < envelopes.len() && (forall|j: int|
            0 <= j < k ==> (#[trigger] envelopes[j]).id != envelopes[k].id) && (forall|i: int|
            0 <= i < objects.len() ==> !((#[trigger] objects[i]).route == route && objects[i].id
                == envelopes[k].id)) implies added.contains(#[trigger] envelopes[k]) by {
        assert(is_first(envelopes, k));
        assert(!holds(objects, route, envelopes[k].id));
        lemma_fresh_holds(objects, route, envelopes, k);
        let i = choose|i: int| 0 <= i < added.len() && #[trigger] added[i] == envelopes[k];
        assert(added[i] == envelopes[k]);
    }
    assert forall|i: int| 0 <= i < added.len() implies envelopes.contains(#[trigger] added[i]) by {
        let k = lemma_fresh_order(objects, route, envelopes, i);
        assert(envelopes[k] == added[i]);
    }
    assert forall|i: int, k: int| 0 <= i < added.len() && 0 <= k < objects.len() implies !((
    #[trigger] objects[k]).route == route && objects[k].id == (#[trigger] added[i]).id) by {
        let l = lemma_fresh_order(objects, route, envelopes, i);
        assert(!holds(objects, route, added[i].id));
    }
    assert forall|i: int, j: int| 0 <= i < j < added.len() implies (#[trigger] added[i]).id != (
    #[trigger] added[j]).id by {
        lemma_fresh_differ(objects, route, envelopes, i, j);
        let (k, l) = choose|k: int, l: int|
            k < l && #[trigger] is_first(envelopes, k) && #[trigger] is_first(envelopes, l)
                && envelopes[k] == added[i] && envelopes[l] == added[j];
        assert(envelopes[k].id != envelopes[l].id);
    }
}

proof fn lemma_pushed_rows(
    objects: Seq<ObjectView>,
    next: nat,
    route: Seq<u8>,
    envelopes: Seq<EnvelopeView>,
)
    requires
        next + fresh(objects, route, envelopes).len() <= 9223372036854775808,
    ensures
        ({
            let added = fresh(objects, route, envelopes);
            let (stored, free) = pushing(objects, next, route, envelopes);
            &&& free == next + added.len()
            &&& stored.len() == objects.len() + added.len()
            &&& forall|i: int| 0 <= i < objects.len() ==> #[trigger] stored[i] == objects[i]
            &&& forall|i: int|
                objects.len() <= i < stored.len() ==> {
                    let envelope = added[i - objects.len()];
                    &&& (#[trigger] stored[i]).sequence == next + (i - objects.len())
                    &&& stored[i].route == route
                    &&& stored[i].id == envelope.id
                    &&& stored[i].expires_at == envelope.expires_at
                    &&& stored[i].ciphertext == envelope.ciphertext
                }
        }),
    decreases envelopes.len(),
{
    if envelopes.len() > 0 {
        let shorter = envelopes.drop_last();
        let last = envelopes.len() - 1;
        lemma_fresh_grows(objects, route, envelopes, last);
        assert(envelopes.take(last) =~= shorter);
        lemma_pushed_rows(objects, next, route, shorter);
        let before = pushing(objects, next, route, shorter).0;
        let added = fresh(objects, route, shorter);
        let id = envelopes[last].id;
        assert(holds(before, route, id) <==> holds(objects, route, id) || named(shorter, id)) by {
            if holds(before, route, id) {
                let i = choose|i: int|
                    0 <= i < before.len() && (#[trigger] before[i]).route == route && before[i].id
                        == id;
                if i < objects.len() {
                    assert(objects[i] == before[i]);
                    assert(holds(objects, route, id));
                } else {
                    let k = lemma_fresh_order(objects, route, shorter, i - objects.len());
                    assert(shorter[k].id == id);
                }
            }
            if holds(objects, route, id) {
                let i = choose|i: int|
                    0 <= i < objects.len() && (#[trigger] objects[i]).route == route
                        && objects[i].id == id;
                assert(before[i] == objects[i]);
            } else if named(shorter, id) {
                lemma_first_of(shorter, id);
                let k = choose|k: int| #[trigger] is_first(shorter, k) && shorter[k].id == id;
                lemma_fresh_holds(objects, route, shorter, k);
                let i = choose|i: int| 0 <= i < added.len() && #[trigger] added[i] == shorter[k];
                assert(before[objects.len() + i].id == id);
            }
        }
    }
}

proof fn lemma_first_of(envelopes: Seq<EnvelopeView>, id: Seq<u8>)
    requires
        named(envelopes, id),
    ensures
        exists|k: int| #[trigger] is_first(envelopes, k) && envelopes[k].id == id,
    decreases envelopes.len(),
{
    let shorter = envelopes.drop_last();
    if named(shorter, id) {
        lemma_first_of(shorter, id);
        let k = choose|k: int| #[trigger] is_first(shorter, k) && shorter[k].id == id;
        assert forall|j: int| 0 <= j < k implies (#[trigger] envelopes[j]).id
            != envelopes[k].id by {
            assert(shorter[j] == envelopes[j]);
        }
        assert(is_first(envelopes, k));
    } else {
        let k = envelopes.len() - 1;
        let named_at = choose|i: int|
            0 <= i < envelopes.len() && (#[trigger] envelopes[i]).id == id;
        if named_at < k {
            assert(shorter[named_at].id == id);
        }
        assert forall|j: int| 0 <= j < k implies (#[trigger] envelopes[j]).id
            != envelopes[k].id by {
            assert(shorter[j] == envelopes[j]);
        }
        assert(is_first(envelopes, k));
    }
}

/// A push is refused exactly where what is new would take the mailbox over its
/// number or its bytes or the service over its bytes. Otherwise, where all can
/// be kept, each new envelope is stored as it is under the next cursor, behind
/// all that is held, and the answer says how many there were.
pub proof fn law_push_is_exact(
    state: RelayView,
    route: Seq<u8>,
    envelopes: Seq<EnvelopeView>,
)
    requires
        envelopes.len() <= u16::MAX,
    ensures
        ({
            let mailbox = state.objects.filter(|object: ObjectView| object.route == route);
            let added = fresh(state.objects, route, envelopes);
            let fits = mailbox.len() + added.len() <= state.limits.mailbox_objects
                && object_bytes(mailbox) + total_bytes(added) <= state.limits.mailbox_bytes
                && object_bytes(state.objects) + total_bytes(added) <= state.limits.total_bytes;
            let keepable = state.next + added.len() <= i64::MAX + 1 && forall|i: int|
                0 <= i < envelopes.len() ==> (#[trigger] envelopes[i]).expires_at <= i64::MAX;
            let (result, after) = state.pushed(route, envelopes);
            let base = state.objects.len();
            &&& !fits ==> after == state && (result matches Ok(ResponseView::Rejected { code })
                && code == RelayRejection::LimitExceeded)
            &&& fits && !keepable ==> after == state && result is Err
            &&& fits && keepable ==> {
                &&& result matches Ok(ResponseView::Applied { changed })
                &&& changed == added.len()
                &&& after.next == state.next + added.len()
                &&& after.limits == state.limits
                &&& after.replays == state.replays
                &&& after.objects.len() == base + added.len()
                &&& forall|i: int|
                    0 <= i < base ==> #[trigger] after.objects[i] == state.objects[i]
                &&& forall|i: int|
                    base <= i < after.objects.len() ==> (#[trigger] after.objects[i]).sequence
                        == state.next + (i - base) && after.objects[i].route == route
                        && after.objects[i].id == added[i - base].id
                        && after.objects[i].expires_at == added[i - base].expires_at
                        && after.objects[i].ciphertext == added[i - base].ciphertext
            }
        }),
{
    assert(in_mailbox(route) =~= (|object: ObjectView| object.route == route));
    lemma_fresh_len(state.objects, route, envelopes);
    if state.next + fresh(state.objects, route, envelopes).len() <= 9223372036854775808 {
        lemma_pushed_rows(state.objects, state.next as nat, route, envelopes);
    }
}

/// Bytes are counted by ciphertext: those of nothing are none, and those of two
/// lists together are those of both.
pub proof fn law_bytes_add_up(first: Seq<ObjectView>, second: Seq<ObjectView>, object: ObjectView)
    ensures
        object_bytes(Seq::empty()) == 0,
        object_bytes(seq![object]) == object.ciphertext.len(),
        object_bytes(first + second) == object_bytes(first) + object_bytes(second),
    decreases second.len(),
{
    reveal_with_fuel(object_bytes, 2);
    assert(seq![object].drop_last() =~= Seq::<ObjectView>::empty());
    if second.len() == 0 {
        assert(first + second =~= first);
    } else {
        law_bytes_add_up(first, second.drop_last(), object);
        assert((first + second).drop_last() =~= first + second.drop_last());
    }
}

/// An acknowledgement deletes the named objects of its own mailbox, keeps the
/// order of the others, and says how many there were.
pub proof fn law_acknowledgement_is_exact(
    state: RelayView,
    route: Seq<u8>,
    ids: Seq<Seq<u8>>,
)
    requires
        state.consistent(),
        state.objects.len() <= u16::MAX,
    ensures
        ({
            let (result, after) = state.acknowledged(route, ids);
            &&& after.objects == state.objects.filter(
                |object: ObjectView| !(object.route == route && ids.contains(object.id)),
            )
            &&& result matches Ok(ResponseView::Applied { changed })
            &&& changed == state.objects.len() - after.objects.len()
            &&& after.limits == state.limits
            &&& after.next == state.next
            &&& after.replays == state.replays
        }),
{
    lemma_acknowledged_rows(state.objects, route, ids);
    lemma_acknowledging(state.objects, route, ids);
}

proof fn lemma_acknowledged_rows(objects: Seq<ObjectView>, route: Seq<u8>, ids: Seq<Seq<u8>>)
    ensures
        acknowledging(objects, route, ids) == objects.filter(
            |object: ObjectView| !(object.route == route && ids.contains(object.id)),
        ),
    decreases ids.len(),
{
    let all = |object: ObjectView| !(object.route == route && ids.contains(object.id));
    if ids.len() == 0 {
        lemma_all_kept(objects, all);
    } else {
        let shorter = ids.drop_last();
        let some = |object: ObjectView| !(object.route == route && shorter.contains(object.id));
        let one = other_than(route, ids.last());
        lemma_acknowledged_rows(objects, route, shorter);
        assert forall|object: ObjectView| #[trigger] all(object) <==> some(object) && one(
            object,
        ) by {
            if ids.contains(object.id) {
                let i = choose|i: int| 0 <= i < ids.len() && ids[i] == object.id;
                if i < shorter.len() {
                    assert(shorter[i] == object.id);
                }
            }
            if shorter.contains(object.id) {
                let i = choose|i: int| 0 <= i < shorter.len() && shorter[i] == object.id;
                assert(ids[i] == object.id);
            }
            if object.id == ids.last() {
                assert(ids[ids.len() - 1] == object.id);
            }
        }
        lemma_kept_by_both(objects, some, one, all);
    }
}

proof fn lemma_kept_by_both(
    objects: Seq<ObjectView>,
    first: spec_fn(ObjectView) -> bool,
    second: spec_fn(ObjectView) -> bool,
    both: spec_fn(ObjectView) -> bool,
)
    requires
        forall|object: ObjectView| #[trigger] both(object) <==> first(object) && second(object),
    ensures
        objects.filter(first).filter(second) == objects.filter(both),
    decreases objects.len(),
{
    reveal(Seq::filter);
    if objects.len() > 0 {
        let shorter = objects.drop_last();
        lemma_kept_by_both(shorter, first, second, both);
        let last = objects.last();
        assert(both(last) <==> first(last) && second(last));
        if first(last) {
            assert(objects.filter(first).drop_last() =~= shorter.filter(first));
        }
    }
}

/// A refusal is answered with its public category: what is over a limit is said
/// to be, and everything else is unauthorized.
pub proof fn law_rejection_is_stable(refusal: RelayRefusal)
    ensures
        rejection_of(refusal) == RelayRejection::LimitExceeded <==> refusal
            == RelayRefusal::LimitExceeded,
        rejection_of(refusal) == RelayRejection::Unauthorized <==> refusal
            != RelayRefusal::LimitExceeded,
{
}

/// A request is applied by its own operation, on its own mailbox alone.
pub proof fn law_operation_is_applied(state: RelayView, request: RequestView, now: u64)
    ensures
        request.unsigned.operation matches OperationView::Push { envelopes } ==> state.applying(
            request,
            now,
        ) == state.pushed(request.unsigned.route, envelopes),
        request.unsigned.operation matches OperationView::Pull { after, limit }
            ==> state.applying(request, now) == state.pulled(
            request.unsigned.route,
            after,
            limit,
            now,
        ),
        request.unsigned.operation matches OperationView::Acknowledge { ids } ==> state.applying(
            request,
            now,
        ) == state.acknowledged(request.unsigned.route, ids),
{
}

/// A state is consistent exactly where its cursors ascend from one below the
/// next, which can be kept, and no mailbox holds an identity twice.
pub proof fn law_consistency_is_exact(state: RelayView)
    ensures
        state.consistent() <==> {
            &&& 1 <= state.next <= i64::MAX + 1
            &&& forall|i: int|
                0 <= i < state.objects.len() ==> 1 <= (#[trigger] state.objects[i]).sequence
                    < state.next
            &&& forall|i: int, j: int|
                0 <= i < j < state.objects.len() ==> (#[trigger] state.objects[i]).sequence < (
                #[trigger] state.objects[j]).sequence && !(state.objects[i].route
                    == state.objects[j].route && state.objects[i].id == state.objects[j].id)
        },
{
    if forall|i: int, j: int|
        0 <= i < j < state.objects.len() ==> (#[trigger] state.objects[i]).sequence < (
        #[trigger] state.objects[j]).sequence && !(state.objects[i].route
            == state.objects[j].route && state.objects[i].id == state.objects[j].id) {
        assert(forall|i: int, j: int|
            0 <= i < j < state.objects.len() ==> precedes(
                #[trigger] state.objects[i],
                #[trigger] state.objects[j],
            ));
    }
}

} // verus!
