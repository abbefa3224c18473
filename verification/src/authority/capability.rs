//! Signed, device-specific grants for one space and epoch.

use crate::bytes::{be, be_u128, be_u64, extend};
use crate::crypto;
use crate::crypto::degenerate;
use crate::id::SpaceId;
use crate::identity::device::{scoped_signature, scoped_valid, DeviceIdentity, DevicePublicKey};
use crate::text::{copy_bytes, decimal, decimal_text, owned};
use vstd::prelude::*;
use vstd::string::*;
use vstd::utf8::encode_utf8;

verus! {

/// The domain of capability signatures.
pub open spec fn capability_domain() -> Seq<u8> {
    encode_utf8("cyrene/capability/1"@)
}

/// The version of capabilities.
pub const CAPABILITY_VERSION: u8 = 1;

/// Authority granted to a device within one space.
#[derive(Clone, Copy, Debug, PartialEq, Eq, Structural)]
pub enum Permission {
    /// Read and retain space contents, but do not author changes.
    ReadOnly,
    /// Read space contents and author changes.
    ReadWrite,
}

/// An operation checked at the space authorization boundary.
#[derive(Clone, Copy, Debug, PartialEq, Eq, Structural)]
pub enum Operation {
    /// Read or replicate existing content.
    Read,
    /// Author or import a change attributed to this device.
    Write,
}

impl Permission {
    /// Whether a permission allows an operation.
    pub open spec fn permits(self, operation: Operation) -> bool {
        operation == Operation::Read || self == Permission::ReadWrite
    }

    /// The byte that stands for a permission in signed bytes.
    pub open spec fn byte(self) -> u8 {
        match self {
            Permission::ReadOnly => 0,
            Permission::ReadWrite => 1,
        }
    }

    /// Returns whether this permission allows the requested operation.
    pub fn allows(self, operation: Operation) -> (allowed: bool)
        ensures
            allowed == self.permits(operation),
    {
        match (self, operation) {
            (Permission::ReadOnly, Operation::Read) => true,
            (Permission::ReadOnly, Operation::Write) => false,
            (Permission::ReadWrite, _) => true,
        }
    }

    /// Returns the byte that stands for this permission in signed bytes.
    pub(crate) fn tag(self) -> (tag: u8)
        ensures
            tag == self.byte(),
    {
        match self {
            Permission::ReadOnly => 0,
            Permission::ReadWrite => 1,
        }
    }
}

/// The trusted state against which a capability is evaluated.
#[derive(Clone, Copy, Debug, PartialEq, Eq)]
pub struct SpaceAuthority {
    /// Space whose authority is being checked.
    pub space: SpaceId,
    /// Device currently authorized to issue direct capabilities.
    pub issuer: DevicePublicKey,
    /// Current forward-looking membership and encryption epoch.
    pub epoch: u64,
}

/// What a [`SpaceAuthority`] says.
#[verifier::ext_equal]
pub struct AuthorityView {
    /// Space whose authority is being checked.
    pub space: SpaceId,
    /// Device authorized to issue direct capabilities.
    pub issuer: Seq<u8>,
    /// Current epoch.
    pub epoch: u64,
}

impl View for SpaceAuthority {
    type V = AuthorityView;

    open spec fn view(&self) -> AuthorityView {
        AuthorityView { space: self.space, issuer: self.issuer@, epoch: self.epoch }
    }
}

/// A signed, device-specific grant for exactly one space and epoch.
#[derive(Debug, PartialEq, Eq)]
pub struct Capability {
    /// Capability version.
    pub version: u8,
    /// Space that the grant is for.
    pub space: SpaceId,
    /// Authority epoch of the grant.
    pub epoch: u64,
    /// Device that signed the grant.
    pub issuer: DevicePublicKey,
    /// Device that the grant is for.
    pub subject: DevicePublicKey,
    /// Granted permission.
    pub permission: Permission,
    /// First second of validity.
    pub not_before: u64,
    /// First second after validity.
    pub expires_at: u64,
    /// Random bytes that tell grants apart.
    pub nonce: [u8; 16],
    /// Signature of the issuer.
    pub signature: Vec<u8>,
}

/// What a [`Capability`] says.
#[verifier::ext_equal]
pub struct CapabilityView {
    /// Capability version.
    pub version: u8,
    /// Space that the grant is for.
    pub space: SpaceId,
    /// Authority epoch of the grant.
    pub epoch: u64,
    /// Device that signed the grant.
    pub issuer: Seq<u8>,
    /// Device that the grant is for.
    pub subject: Seq<u8>,
    /// Granted permission.
    pub permission: Permission,
    /// First second of validity.
    pub not_before: u64,
    /// First second after validity.
    pub expires_at: u64,
    /// Random bytes that tell grants apart.
    pub nonce: Seq<u8>,
    /// Signature of the issuer.
    pub signature: Seq<u8>,
}

impl View for Capability {
    type V = CapabilityView;

    open spec fn view(&self) -> CapabilityView {
        CapabilityView {
            version: self.version,
            space: self.space,
            epoch: self.epoch,
            issuer: self.issuer@,
            subject: self.subject@,
            permission: self.permission,
            not_before: self.not_before,
            expires_at: self.expires_at,
            nonce: self.nonce@,
            signature: self.signature@,
        }
    }
}

impl Clone for Capability {
    fn clone(&self) -> (copy: Self)
        ensures
            copy@ == self@,
    {
        Capability {
            version: self.version,
            space: self.space,
            epoch: self.epoch,
            issuer: self.issuer,
            subject: self.subject,
            permission: self.permission,
            not_before: self.not_before,
            expires_at: self.expires_at,
            nonce: self.nonce,
            signature: copy_bytes(self.signature.as_slice()),
        }
    }
}

/// A capability issuance or verification failure.
#[derive(Clone, Copy, Debug, PartialEq, Eq, Structural)]
pub enum AuthorityError {
    /// The capability format is unknown.
    UnsupportedVersion(u8),
    /// The requested interval is empty or reversed.
    InvalidValidity,
    /// Secure randomness was unavailable.
    Randomness,
    /// The capability belongs to another space.
    WrongSpace,
    /// The capability is from another authority epoch.
    StaleEpoch,
    /// The issuer or subject is not the expected principal.
    WrongPrincipal,
    /// The capability's validity interval has not begun.
    NotYetValid,
    /// The capability has expired.
    Expired,
    /// The authority signature is invalid.
    InvalidSignature,
    /// The capability does not permit the requested operation.
    Denied,
}

impl AuthorityError {
    /// The human-readable reason.
    pub open spec fn text(self) -> Seq<char> {
        match self {
            AuthorityError::UnsupportedVersion(version) => "capability version "@ + decimal_text(version as nat) + " is unsupported"@,
            AuthorityError::InvalidValidity => "capability expiry must be later than its start"@,
            AuthorityError::Randomness => "secure random generation failed"@,
            AuthorityError::WrongSpace => "the capability belongs to another space"@,
            AuthorityError::StaleEpoch => "the capability is from a stale or future authority epoch"@,
            AuthorityError::WrongPrincipal => "the capability names the wrong principal"@,
            AuthorityError::NotYetValid => "the capability is not valid yet"@,
            AuthorityError::Expired => "the capability has expired"@,
            AuthorityError::InvalidSignature => "the capability signature is invalid"@,
            AuthorityError::Denied => "the capability does not permit this operation"@,
        }
    }

    /// Returns the human-readable reason.
    pub fn message(self) -> (message: String)
        ensures
            message@ == self.text(),
    {
        match self {
            AuthorityError::UnsupportedVersion(version) => {
                let mut text = owned("capability version ");
                text.append(decimal(version as u64).as_str());
                text.append(" is unsupported");
                text
            },
            AuthorityError::InvalidValidity => owned("capability expiry must be later than its start"),
            AuthorityError::Randomness => owned("secure random generation failed"),
            AuthorityError::WrongSpace => owned("the capability belongs to another space"),
            AuthorityError::StaleEpoch => owned("the capability is from a stale or future authority epoch"),
            AuthorityError::WrongPrincipal => owned("the capability names the wrong principal"),
            AuthorityError::NotYetValid => owned("the capability is not valid yet"),
            AuthorityError::Expired => owned("the capability has expired"),
            AuthorityError::InvalidSignature => owned("the capability signature is invalid"),
            AuthorityError::Denied => owned("the capability does not permit this operation"),
        }
    }
}

/// What a capability's signature covers.
pub open spec fn capability_bytes(capability: CapabilityView) -> Seq<u8> {
    seq![capability.version] + be(capability.space.0 as nat, 16) + be(capability.epoch as nat, 8)
        + capability.issuer + capability.subject + seq![capability.permission.byte()] + be(
        capability.not_before as nat,
        8,
    ) + be(capability.expires_at as nat, 8) + capability.nonce
}

impl CapabilityView {
    /// Whether the capability carries its issuer's signature.
    pub open spec fn signed(self) -> bool {
        scoped_valid(self.issuer, capability_domain(), capability_bytes(self), self.signature)
    }

    /// Why the capability does not have the expected scope and principals.
    pub open spec fn scope_refusal(self, authority: AuthorityView, subject: Seq<u8>) -> Option<
        AuthorityError,
    > {
        if self.version != 1 {
            Some(AuthorityError::UnsupportedVersion(self.version))
        } else if self.space != authority.space {
            Some(AuthorityError::WrongSpace)
        } else if self.epoch != authority.epoch {
            Some(AuthorityError::StaleEpoch)
        } else if self.issuer != authority.issuer || self.subject != subject {
            Some(AuthorityError::WrongPrincipal)
        } else {
            None
        }
    }

    /// Why the capability does not authenticate a membership.
    pub open spec fn membership_refusal(self, authority: AuthorityView, subject: Seq<u8>) -> Option<
        AuthorityError,
    > {
        if self.scope_refusal(authority, subject) is Some {
            self.scope_refusal(authority, subject)
        } else if !self.signed() {
            Some(AuthorityError::InvalidSignature)
        } else {
            None
        }
    }

    /// Why the capability does not authorize an operation.
    pub open spec fn authorize_refusal(
        self,
        authority: AuthorityView,
        subject: Seq<u8>,
        operation: Operation,
        now: u64,
    ) -> Option<AuthorityError> {
        if self.scope_refusal(authority, subject) is Some {
            self.scope_refusal(authority, subject)
        } else if now < self.not_before {
            Some(AuthorityError::NotYetValid)
        } else if now >= self.expires_at {
            Some(AuthorityError::Expired)
        } else if !self.signed() {
            Some(AuthorityError::InvalidSignature)
        } else if !self.permission.permits(operation) {
            Some(AuthorityError::Denied)
        } else {
            None
        }
    }
}

/// The capability that an issuer signs.
pub open spec fn issued(
    secret: Seq<u8>,
    public: Seq<u8>,
    space: SpaceId,
    epoch: u64,
    subject: Seq<u8>,
    permission: Permission,
    not_before: u64,
    expires_at: u64,
    nonce: Seq<u8>,
) -> CapabilityView {
    let unsigned = CapabilityView {
        version: 1,
        space,
        epoch,
        issuer: public,
        subject,
        permission,
        not_before,
        expires_at,
        nonce,
        signature: Seq::empty(),
    };
    CapabilityView {
        signature: scoped_signature(secret, capability_domain(), capability_bytes(unsigned)),
        ..unsigned
    }
}

/// What a result without a value says.
pub open spec fn authority_refused<T>(result: Result<T, AuthorityError>) -> Option<AuthorityError> {
    match result {
        Ok(_) => None,
        Err(error) => Some(error),
    }
}

impl Capability {
    /// Issues a direct capability from the space authority to one device.
    ///
    /// The capability carries the issuer's signature, unless that is the
    /// degenerate one that strict verification refuses.
    pub fn issue(
        issuer: &DeviceIdentity,
        space: SpaceId,
        epoch: u64,
        subject: DevicePublicKey,
        permission: Permission,
        not_before: u64,
        expires_at: u64,
    ) -> (capability: Result<Self, AuthorityError>)
        ensures
            match capability {
                Ok(capability) => {
                    &&& not_before < expires_at
                    &&& capability@.nonce.len() == 16
                    &&& capability@ == issued(
                        issuer@,
                        issuer.public(),
                        space,
                        epoch,
                        subject@,
                        permission,
                        not_before,
                        expires_at,
                        capability@.nonce,
                    )
                    &&& !degenerate(capability@.signature) ==> capability@.signed()
                },
                Err(error) => if expires_at <= not_before {
                    error == AuthorityError::InvalidValidity
                } else {
                    error == AuthorityError::Randomness
                },
            },
    {
        if expires_at <= not_before {
            return Err(AuthorityError::InvalidValidity);
        }
        match crypto::random::<16>() {
            Some(nonce) => Ok(
                Capability::sign(
                    issuer,
                    space,
                    epoch,
                    subject,
                    permission,
                    not_before,
                    expires_at,
                    nonce,
                ),
            ),
            None => Err(AuthorityError::Randomness),
        }
    }

    /// Signs the capability that sixteen random bytes tell apart.
    pub fn sign(
        issuer: &DeviceIdentity,
        space: SpaceId,
        epoch: u64,
        subject: DevicePublicKey,
        permission: Permission,
        not_before: u64,
        expires_at: u64,
        nonce: [u8; 16],
    ) -> (capability: Self)
        ensures
            capability@ == issued(
                issuer@,
                issuer.public(),
                space,
                epoch,
                subject@,
                permission,
                not_before,
                expires_at,
                nonce@,
            ),
            !degenerate(capability@.signature) ==> capability@.signed(),
    {
        let mut capability = Capability {
            version: CAPABILITY_VERSION,
            space,
            epoch,
            issuer: issuer.public_key(),
            subject,
            permission,
            not_before,
            expires_at,
            nonce,
            signature: Vec::new(),
        };
        let ghost unsigned = capability@;
        let bytes = capability.signing_bytes();
        let signature = issuer.sign("cyrene/capability/1".as_bytes(), bytes.as_slice());
        capability.signature = copy_bytes(signature.as_slice());
        proof {
            assert(capability_bytes(capability@) == capability_bytes(unsigned));
            assert(capability@ =~= issued(
                issuer@,
                issuer.public(),
                space,
                epoch,
                subject@,
                permission,
                not_before,
                expires_at,
                nonce@,
            ));
        }
        capability
    }

    /// Verifies scope, epoch, lifetime, subject, signature, and permission.
    pub fn authorize(
        &self,
        authority: SpaceAuthority,
        subject: DevicePublicKey,
        operation: Operation,
        now: u64,
    ) -> (result: Result<(), AuthorityError>)
        ensures
            authority_refused(result) == self@.authorize_refusal(
                authority@,
                subject@,
                operation,
                now,
            ),
    {
        self.check_scope(&authority, &subject)?;
        if now < self.not_before {
            return Err(AuthorityError::NotYetValid);
        }
        if now >= self.expires_at {
            return Err(AuthorityError::Expired);
        }
        if !self.check_signature() {
            return Err(AuthorityError::InvalidSignature);
        }
        if !self.permission.allows(operation) {
            return Err(AuthorityError::Denied);
        }
        Ok(())
    }

    /// Authenticates signed membership without applying its old time window.
    ///
    /// This is intentionally narrower than authorization: it exists so a
    /// pinned, currently retained device can prove an older membership while
    /// receiving a replacement epoch. It does not authorize data access.
    pub fn authenticate_membership(&self, authority: SpaceAuthority, subject: DevicePublicKey) -> (result:
        Result<(), AuthorityError>)
        ensures
            authority_refused(result) == self@.membership_refusal(authority@, subject@),
    {
        self.check_scope(&authority, &subject)?;
        if !self.check_signature() {
            return Err(AuthorityError::InvalidSignature);
        }
        Ok(())
    }

    fn check_scope(&self, authority: &SpaceAuthority, subject: &DevicePublicKey) -> (result: Result<
        (),
        AuthorityError,
    >)
        ensures
            authority_refused(result) == self@.scope_refusal(authority@, subject@),
    {
        if self.version != CAPABILITY_VERSION {
            return Err(AuthorityError::UnsupportedVersion(self.version));
        }
        if self.space != authority.space {
            return Err(AuthorityError::WrongSpace);
        }
        if self.epoch != authority.epoch {
            return Err(AuthorityError::StaleEpoch);
        }
        if !self.issuer.same(&authority.issuer) || !self.subject.same(subject) {
            return Err(AuthorityError::WrongPrincipal);
        }
        Ok(())
    }

    fn check_signature(&self) -> (valid: bool)
        ensures
            valid == self@.signed(),
    {
        let bytes = self.signing_bytes();
        self.issuer.verify(
            "cyrene/capability/1".as_bytes(),
            bytes.as_slice(),
            self.signature.as_slice(),
        )
    }

    /// Returns the space named by this untrusted grant.
    pub fn space(&self) -> (space: SpaceId)
        ensures
            space == self@.space,
    {
        self.space
    }

    /// Returns the granted permission after successful authorization.
    pub fn permission(&self) -> (permission: Permission)
        ensures
            permission == self@.permission,
    {
        self.permission
    }

    /// Returns the device named by this untrusted grant.
    pub fn subject(&self) -> (subject: DevicePublicKey)
        ensures
            subject@ == self@.subject,
    {
        self.subject
    }

    /// Returns the device that signed this grant.
    pub fn issuer(&self) -> (issuer: DevicePublicKey)
        ensures
            issuer@ == self@.issuer,
    {
        self.issuer
    }

    /// Returns the forward-looking authority epoch named by this grant.
    pub fn epoch(&self) -> (epoch: u64)
        ensures
            epoch == self@.epoch,
    {
        self.epoch
    }

    fn signing_bytes(&self) -> (bytes: Vec<u8>)
        ensures
            bytes@ == capability_bytes(self@),
    {
        let mut bytes: Vec<u8> = Vec::with_capacity(130);
        bytes.push(self.version);
        extend(&mut bytes, be_u128(self.space.0, 16).as_slice());
        extend(&mut bytes, be_u64(self.epoch).as_slice());
        extend(&mut bytes, self.issuer.0.as_slice());
        extend(&mut bytes, self.subject.0.as_slice());
        bytes.push(self.permission.tag());
        extend(&mut bytes, be_u64(self.not_before).as_slice());
        extend(&mut bytes, be_u64(self.expires_at).as_slice());
        extend(&mut bytes, self.nonce.as_slice());
        assert(bytes@ =~= capability_bytes(self@));
        bytes
    }
}

/// An issued capability authorizes its subject, within its time, for every
/// operation that it permits.
pub proof fn law_issued_capability_authorizes(
    capability: CapabilityView,
    secret: Seq<u8>,
    public: Seq<u8>,
    space: SpaceId,
    epoch: u64,
    subject: Seq<u8>,
    permission: Permission,
    not_before: u64,
    expires_at: u64,
    nonce: Seq<u8>,
    operation: Operation,
    now: u64,
)
    requires
        capability == issued(
            secret,
            public,
            space,
            epoch,
            subject,
            permission,
            not_before,
            expires_at,
            nonce,
        ),
        capability.signed(),
        not_before <= now < expires_at,
        permission.permits(operation),
    ensures
        capability.authorize_refusal(
            (AuthorityView { space, issuer: public, epoch }),
            subject,
            operation,
            now,
        ) is None,
{
}

/// A read-only capability authorizes no write.
pub proof fn law_read_only_never_writes(
    capability: CapabilityView,
    authority: AuthorityView,
    subject: Seq<u8>,
    now: u64,
)
    requires
        capability.permission == Permission::ReadOnly,
    ensures
        capability.authorize_refusal(authority, subject, Operation::Write, now) is Some,
{
}

/// A capability fails closed: it authorizes nothing in another space, another
/// epoch, under another issuer, for another device, outside its time or without
/// its issuer's signature.
pub proof fn law_capability_fails_closed(
    capability: CapabilityView,
    authority: AuthorityView,
    subject: Seq<u8>,
    operation: Operation,
    now: u64,
)
    requires
        capability.authorize_refusal(authority, subject, operation, now) is None,
    ensures
        capability.space == authority.space,
        capability.epoch == authority.epoch,
        capability.issuer == authority.issuer,
        capability.subject == subject,
        capability.not_before <= now < capability.expires_at,
        capability.signed(),
        capability.permission.permits(operation),
        capability.membership_refusal(authority, subject) is None,
{
}

/// A capability's signed bytes tell every field apart.
pub proof fn law_capability_bytes_are_injective(first: CapabilityView, second: CapabilityView)
    requires
        capability_bytes(first) == capability_bytes(second),
        first.issuer.len() == 32,
        first.subject.len() == 32,
        second.issuer.len() == 32,
        second.subject.len() == 32,
    ensures
        first == (CapabilityView { signature: first.signature, ..second }),
{
    let bytes = capability_bytes(first);
    crate::bytes::lemma_be_u128(first.space.0);
    crate::bytes::lemma_be_u128(second.space.0);
    crate::bytes::lemma_be_u64(first.epoch);
    crate::bytes::lemma_be_u64(second.epoch);
    crate::bytes::lemma_be_u64(first.not_before);
    crate::bytes::lemma_be_u64(second.not_before);
    crate::bytes::lemma_be_u64(first.expires_at);
    crate::bytes::lemma_be_u64(second.expires_at);
    assert(bytes[0] == first.version);
    assert(bytes[0] == second.version);
    assert(bytes.subrange(1, 17) =~= be(first.space.0 as nat, 16));
    assert(bytes.subrange(1, 17) =~= be(second.space.0 as nat, 16));
    assert(bytes.subrange(17, 25) =~= be(first.epoch as nat, 8));
    assert(bytes.subrange(17, 25) =~= be(second.epoch as nat, 8));
    assert(bytes.subrange(25, 57) =~= first.issuer);
    assert(bytes.subrange(25, 57) =~= second.issuer);
    assert(bytes.subrange(57, 89) =~= first.subject);
    assert(bytes.subrange(57, 89) =~= second.subject);
    assert(bytes[89] == first.permission.byte());
    assert(bytes[89] == second.permission.byte());
    assert(bytes.subrange(90, 98) =~= be(first.not_before as nat, 8));
    assert(bytes.subrange(90, 98) =~= be(second.not_before as nat, 8));
    assert(bytes.subrange(98, 106) =~= be(first.expires_at as nat, 8));
    assert(bytes.subrange(98, 106) =~= be(second.expires_at as nat, 8));
    assert(bytes.skip(106) =~= first.nonce);
    assert(bytes.skip(106) =~= second.nonce);
}

/// A capability authorizes an operation exactly where it has the current
/// version, names the space, the epoch, the issuer and the device, the time is
/// within its interval, its issuer signed it, and it is a read or the
/// permission is to write.
pub proof fn law_authorization_is_exact(
    capability: CapabilityView,
    authority: AuthorityView,
    subject: Seq<u8>,
    operation: Operation,
    now: u64,
)
    ensures
        capability.authorize_refusal(authority, subject, operation, now) is None <==> {
            &&& capability.version == 1
            &&& capability.space == authority.space
            &&& capability.epoch == authority.epoch
            &&& capability.issuer == authority.issuer
            &&& capability.subject == subject
            &&& capability.not_before <= now
            &&& now < capability.expires_at
            &&& capability.signed()
            &&& operation == Operation::Read || capability.permission == Permission::ReadWrite
        },
        capability.membership_refusal(authority, subject) is None <==> {
            &&& capability.version == 1
            &&& capability.space == authority.space
            &&& capability.epoch == authority.epoch
            &&& capability.issuer == authority.issuer
            &&& capability.subject == subject
            &&& capability.signed()
        },
{
}

/// Each refusal names a reason that holds, the scope before the time, the time
/// before the signature, and the signature before the permission.
pub proof fn law_refusal_names_its_reason(
    capability: CapabilityView,
    authority: AuthorityView,
    subject: Seq<u8>,
    operation: Operation,
    now: u64,
)
    ensures
        ({
            let refusal = capability.authorize_refusal(authority, subject, operation, now);
            let scoped = capability.version == 1 && capability.space == authority.space
                && capability.epoch == authority.epoch && capability.issuer == authority.issuer
                && capability.subject == subject;
            let timely = capability.not_before <= now && now < capability.expires_at;
            &&& refusal == Some(AuthorityError::WrongSpace) <==> capability.version == 1
                && capability.space != authority.space
            &&& refusal == Some(AuthorityError::StaleEpoch) <==> capability.version == 1
                && capability.space == authority.space && capability.epoch != authority.epoch
            &&& refusal == Some(AuthorityError::WrongPrincipal) <==> capability.version == 1
                && capability.space == authority.space && capability.epoch == authority.epoch && (
            capability.issuer != authority.issuer || capability.subject != subject)
            &&& refusal == Some(AuthorityError::NotYetValid) <==> scoped && now
                < capability.not_before
            &&& refusal == Some(AuthorityError::Expired) <==> scoped && now
                >= capability.not_before && now >= capability.expires_at
            &&& refusal == Some(AuthorityError::InvalidSignature) <==> scoped && timely
                && !capability.signed()
            &&& refusal == Some(AuthorityError::Denied) <==> scoped && timely
                && capability.signed() && operation == Operation::Write && capability.permission
                == Permission::ReadOnly
            &&& refusal == Some(AuthorityError::UnsupportedVersion(capability.version))
                <==> capability.version != 1
        }),
{
}

/// An issued capability says what was granted: the space, the epoch, both
/// devices, the permission and the whole interval.
pub proof fn law_issued_capability_says_what_was_granted(
    secret: Seq<u8>,
    public: Seq<u8>,
    space: SpaceId,
    epoch: u64,
    subject: Seq<u8>,
    permission: Permission,
    not_before: u64,
    expires_at: u64,
    nonce: Seq<u8>,
)
    ensures
        ({
            let capability = issued(
                secret,
                public,
                space,
                epoch,
                subject,
                permission,
                not_before,
                expires_at,
                nonce,
            );
            &&& capability.version == 1
            &&& capability.space == space
            &&& capability.epoch == epoch
            &&& capability.issuer == public
            &&& capability.subject == subject
            &&& capability.permission == permission
            &&& capability.not_before == not_before
            &&& capability.expires_at == expires_at
            &&& capability.nonce == nonce
        }),
{
}

/// Every permission is to read, and one of them to write too; the two are
/// written differently in what is signed.
pub proof fn law_permissions(permission: Permission)
    ensures
        permission.permits(Operation::Read),
        permission.permits(Operation::Write) <==> permission == Permission::ReadWrite,
        Permission::ReadOnly.byte() == 0,
        Permission::ReadWrite.byte() == 1,
{
}

} // verus!
