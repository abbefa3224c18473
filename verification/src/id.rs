//! Stable 128-bit identifiers with a sortable textual form.

use vstd::arithmetic::power::*;
use vstd::prelude::*;
use vstd::string::*;
use vstd::utf8::*;

verus! {

/// Number of characters in the textual form of an identifier.
pub const TEXT_LEN: usize = 26;

/// The Crockford base-32 alphabet.
pub open spec fn alphabet() -> Seq<char> {
    "0123456789ABCDEFGHJKMNPQRSTVWXYZ"@
}

/// The textual form of an identifier: 26 base-32 digits, most significant
/// first.
pub open spec fn id_text(value: u128) -> Seq<char> {
    Seq::new(26, |i: int| alphabet()[(value as int / pow(32, (25 - i) as nat)) % 32])
}

/// The base-32 digit that a byte stands for; letters count in either case.
pub open spec fn digit_of(byte: u8) -> Option<int> {
    let upper: int = if 97 <= byte <= 122 { byte - 32 } else { byte as int };
    if exists|i: int| 0 <= i < 32 && #[trigger] alphabet()[i] as int == upper {
        Some(choose|i: int| 0 <= i < 32 && #[trigger] alphabet()[i] as int == upper)
    } else {
        None
    }
}

/// The number that base-32 digits stand for, modulo 2^128.
pub open spec fn digits_value(bytes: Seq<u8>) -> int
    decreases bytes.len(),
{
    if bytes.len() == 0 {
        0
    } else {
        let digit = digit_of(bytes.last());
        (digits_value(bytes.drop_last()) * 32 + digit->0) % 0x1_0000_0000_0000_0000_0000_0000_0000_0000int
    }
}

/// Why a textual identifier was refused.
#[derive(Clone, Copy, Debug, PartialEq, Eq, Structural)]
pub enum DecodeError {
    /// The text does not have 26 bytes.
    InvalidLength,
    /// A byte is no base-32 digit.
    InvalidChar,
}

impl DecodeError {
    /// The human-readable reason.
    pub open spec fn text(self) -> Seq<char> {
        match self {
            DecodeError::InvalidLength => "invalid length"@,
            DecodeError::InvalidChar => "invalid character"@,
        }
    }

    /// Returns the human-readable reason.
    pub fn message(self) -> (message: &'static str)
        ensures
            message@ == self.text(),
    {
        match self {
            DecodeError::InvalidLength => "invalid length",
            DecodeError::InvalidChar => "invalid character",
        }
    }
}

/// What a text stands for as an identifier.
pub open spec fn parsed_id(text: Seq<char>) -> core::result::Result<u128, DecodeError> {
    let bytes = encode_utf8(text);
    if bytes.len() != 26 {
        Err(DecodeError::InvalidLength)
    } else if exists|i: int| 0 <= i < 26 && digit_of(#[trigger] bytes[i]) is None {
        Err(DecodeError::InvalidChar)
    } else {
        Ok(digits_value(bytes) as u128)
    }
}

/// `ulid::Ulid::new` makes an identifier of the current time and random bits;
/// nothing is claimed of its value.
#[verifier::external_body]
fn generate() -> (value: u128) {
    ulid::Ulid::new().0
}

/// `ulid::Ulid::to_string` writes the 128-bit value as 26 base-32 digits.
#[verifier::external_body]
fn encode(value: u128) -> (text: String)
    ensures
        text@ == id_text(value),
{
    ulid::Ulid(value).to_string()
}

/// `ulid::Ulid::from_string` reads 26 base-32 digits of either case, dropping
/// the bits above the 128th, and reports a wrong length before a wrong digit.
#[verifier::external_body]
fn decode(text: &str) -> (value: core::result::Result<u128, DecodeError>)
    ensures
        value == parsed_id(text@),
{
    match ulid::Ulid::from_string(text) {
        Ok(value) => Ok(value.0),
        Err(ulid::DecodeError::InvalidLength) => Err(DecodeError::InvalidLength),
        Err(ulid::DecodeError::InvalidChar) => Err(DecodeError::InvalidChar),
    }
}

/// A stable identifier for an application namespace.
#[derive(Clone, Copy, Debug, PartialEq, Eq, PartialOrd, Ord, Hash, Structural)]
pub struct AppId(pub u128);

/// A stable identifier for a Cyrene space.
#[derive(Clone, Copy, Debug, PartialEq, Eq, PartialOrd, Ord, Hash, Structural)]
pub struct SpaceId(pub u128);

/// A stable identifier for a typed document.
#[derive(Clone, Copy, Debug, PartialEq, Eq, PartialOrd, Ord, Hash, Structural)]
pub struct DocumentId(pub u128);

/// A stable identifier for one durable replica.
#[derive(Clone, Copy, Debug, PartialEq, Eq, PartialOrd, Ord, Hash, Structural)]
pub struct ReplicaId(pub u128);

impl AppId {
    /// Generates a new lexicographically sortable identifier.
    pub fn new() -> (id: Self) {
        AppId(generate())
    }

    /// Restores an identifier from its 128-bit representation.
    pub fn from_u128(value: u128) -> (id: Self)
        ensures
            id == AppId(value),
    {
        AppId(value)
    }

    /// Returns the identifier as an unsigned integer.
    pub fn as_u128(self) -> (value: u128)
        ensures
            value == self.0,
    {
        self.0
    }

    /// Renders the identifier as text.
    pub fn to_string(&self) -> (text: String)
        ensures
            text@ == id_text(self.0),
    {
        encode(self.0)
    }

    /// Reads an identifier from its textual form.
    pub fn parse(text: &str) -> (id: core::result::Result<Self, DecodeError>)
        ensures
            match id {
                Ok(id) => parsed_id(text@) == Ok::<u128, DecodeError>(id.0),
                Err(error) => parsed_id(text@) == Err::<u128, DecodeError>(error),
            },
    {
        match decode(text) {
            Ok(value) => Ok(AppId(value)),
            Err(error) => Err(error),
        }
    }
}

impl Default for AppId {
    fn default() -> (id: Self) {
        AppId::new()
    }
}

impl std::str::FromStr for AppId {
    type Err = DecodeError;

    fn from_str(text: &str) -> (id: core::result::Result<Self, DecodeError>)
        ensures
            match id {
                Ok(id) => parsed_id(text@) == Ok::<u128, DecodeError>(id.0),
                Err(error) => parsed_id(text@) == Err::<u128, DecodeError>(error),
            },
    {
        AppId::parse(text)
    }
}

impl SpaceId {
    /// Generates a new lexicographically sortable identifier.
    pub fn new() -> (id: Self) {
        SpaceId(generate())
    }

    /// Restores an identifier from its 128-bit representation.
    pub fn from_u128(value: u128) -> (id: Self)
        ensures
            id == SpaceId(value),
    {
        SpaceId(value)
    }

    /// Returns the identifier as an unsigned integer.
    pub fn as_u128(self) -> (value: u128)
        ensures
            value == self.0,
    {
        self.0
    }

    /// Renders the identifier as text.
    pub fn to_string(&self) -> (text: String)
        ensures
            text@ == id_text(self.0),
    {
        encode(self.0)
    }

    /// Reads an identifier from its textual form.
    pub fn parse(text: &str) -> (id: core::result::Result<Self, DecodeError>)
        ensures
            match id {
                Ok(id) => parsed_id(text@) == Ok::<u128, DecodeError>(id.0),
                Err(error) => parsed_id(text@) == Err::<u128, DecodeError>(error),
            },
    {
        match decode(text) {
            Ok(value) => Ok(SpaceId(value)),
            Err(error) => Err(error),
        }
    }
}

impl Default for SpaceId {
    fn default() -> (id: Self) {
        SpaceId::new()
    }
}

impl std::str::FromStr for SpaceId {
    type Err = DecodeError;

    fn from_str(text: &str) -> (id: core::result::Result<Self, DecodeError>)
        ensures
            match id {
                Ok(id) => parsed_id(text@) == Ok::<u128, DecodeError>(id.0),
                Err(error) => parsed_id(text@) == Err::<u128, DecodeError>(error),
            },
    {
        SpaceId::parse(text)
    }
}

impl DocumentId {
    /// Generates a new lexicographically sortable identifier.
    pub fn new() -> (id: Self) {
        DocumentId(generate())
    }

    /// Restores an identifier from its 128-bit representation.
    pub fn from_u128(value: u128) -> (id: Self)
        ensures
            id == DocumentId(value),
    {
        DocumentId(value)
    }

    /// Returns the identifier as an unsigned integer.
    pub fn as_u128(self) -> (value: u128)
        ensures
            value == self.0,
    {
        self.0
    }

    /// Renders the identifier as text.
    pub fn to_string(&self) -> (text: String)
        ensures
            text@ == id_text(self.0),
    {
        encode(self.0)
    }

    /// Reads an identifier from its textual form.
    pub fn parse(text: &str) -> (id: core::result::Result<Self, DecodeError>)
        ensures
            match id {
                Ok(id) => parsed_id(text@) == Ok::<u128, DecodeError>(id.0),
                Err(error) => parsed_id(text@) == Err::<u128, DecodeError>(error),
            },
    {
        match decode(text) {
            Ok(value) => Ok(DocumentId(value)),
            Err(error) => Err(error),
        }
    }
}

impl Default for DocumentId {
    fn default() -> (id: Self) {
        DocumentId::new()
    }
}

impl std::str::FromStr for DocumentId {
    type Err = DecodeError;

    fn from_str(text: &str) -> (id: core::result::Result<Self, DecodeError>)
        ensures
            match id {
                Ok(id) => parsed_id(text@) == Ok::<u128, DecodeError>(id.0),
                Err(error) => parsed_id(text@) == Err::<u128, DecodeError>(error),
            },
    {
        DocumentId::parse(text)
    }
}

impl ReplicaId {
    /// Generates a new lexicographically sortable identifier.
    pub fn new() -> (id: Self) {
        ReplicaId(generate())
    }

    /// Restores an identifier from its 128-bit representation.
    pub fn from_u128(value: u128) -> (id: Self)
        ensures
            id == ReplicaId(value),
    {
        ReplicaId(value)
    }

    /// Returns the identifier as an unsigned integer.
    pub fn as_u128(self) -> (value: u128)
        ensures
            value == self.0,
    {
        self.0
    }

    /// Renders the identifier as text.
    pub fn to_string(&self) -> (text: String)
        ensures
            text@ == id_text(self.0),
    {
        encode(self.0)
    }

    /// Reads an identifier from its textual form.
    pub fn parse(text: &str) -> (id: core::result::Result<Self, DecodeError>)
        ensures
            match id {
                Ok(id) => parsed_id(text@) == Ok::<u128, DecodeError>(id.0),
                Err(error) => parsed_id(text@) == Err::<u128, DecodeError>(error),
            },
    {
        match decode(text) {
            Ok(value) => Ok(ReplicaId(value)),
            Err(error) => Err(error),
        }
    }
}

impl Default for ReplicaId {
    fn default() -> (id: Self) {
        ReplicaId::new()
    }
}

impl std::str::FromStr for ReplicaId {
    type Err = DecodeError;

    fn from_str(text: &str) -> (id: core::result::Result<Self, DecodeError>)
        ensures
            match id {
                Ok(id) => parsed_id(text@) == Ok::<u128, DecodeError>(id.0),
                Err(error) => parsed_id(text@) == Err::<u128, DecodeError>(error),
            },
    {
        ReplicaId::parse(text)
    }
}

proof fn lemma_digit(digit: int)
    requires
        0 <= digit < 32,
    ensures
        '\0' <= alphabet()[digit] <= '\u{7f}',
        digit_of(alphabet()[digit] as u8) == Some(digit),
{
    reveal_strlit("0123456789ABCDEFGHJKMNPQRSTVWXYZ");
    let byte = alphabet()[digit] as u8;
    assert(alphabet()[digit] as int == byte as int);
    assert forall|i: int, j: int| 0 <= i < 32 && 0 <= j < 32 && alphabet()[i] as int
        == alphabet()[j] as int implies i == j by {
        reveal_strlit("0123456789ABCDEFGHJKMNPQRSTVWXYZ");
    }
}

proof fn lemma_prefix(value: u128, len: nat)
    requires
        len <= 26,
    ensures
        ({
            let bytes = encode_utf8(id_text(value));
            &&& bytes.len() == 26
            &&& forall|i: int| 0 <= i < 26 ==> #[trigger] bytes[i] == id_text(value)[i] as u8
            &&& digits_value(bytes.take(len as int)) == value as int / pow(32, (26 - len) as nat)
        }),
    decreases len,
{
    let text = id_text(value);
    let bytes = encode_utf8(text);
    assert forall|i: int| 0 <= i < text.len() implies '\0' <= #[trigger] text[i] <= '\u{7f}' by {
        lemma_digit((value as int / pow(32, (25 - i) as nat)) % 32);
    }
    is_ascii_chars_encode_utf8(text);
    if len == 0 {
        assert(bytes.take(0).len() == 0);
        lemma_leading_digit(value);
    } else {
        lemma_prefix(value, (len - 1) as nat);
        let prefix = bytes.take(len as int);
        assert(prefix.drop_last() =~= bytes.take(len - 1));
        let weight = pow(32, (26 - len) as nat);
        let digit = (value as int / weight) % 32;
        assert(prefix.last() == alphabet()[digit] as u8);
        lemma_pow_positive(32, (26 - len) as nat);
        lemma_digit(digit);
        let high = value as int / pow(32, (27 - len) as nat);
        assert(pow(32, (27 - len) as nat) == 32 * weight) by {
            reveal(pow);
        }
        vstd::arithmetic::div_mod::lemma_div_denominator(value as int, weight, 32);
        assert(weight * 32 == 32 * weight);
        assert(high == (value as int / weight) / 32);
        assert(high * 32 + digit == value as int / weight);
        assert(0 <= value as int / weight <= value) by {
            vstd::arithmetic::div_mod::lemma_div_is_ordered_by_denominator(value as int, 1, weight);
            vstd::arithmetic::div_mod::lemma_div_pos_is_pos(value as int, weight);
        }
        vstd::arithmetic::div_mod::lemma_small_mod(
            (value as int / weight) as nat,
            0x1_0000_0000_0000_0000_0000_0000_0000_0000nat,
        );
    }
}

proof fn lemma_leading_digit(value: u128)
    ensures
        value as int / pow(32, 26) == 0,
{
    assert(pow(32, 26) == 0x4_0000_0000_0000_0000_0000_0000_0000_0000int) by {
        reveal_with_fuel(pow, 27);
    }
    assert(value as int / 0x4_0000_0000_0000_0000_0000_0000_0000_0000int == 0);
}

/// Every identifier is read back from its text.
pub proof fn law_text_round_trip(value: u128)
    ensures
        parsed_id(id_text(value)) == Ok::<u128, DecodeError>(value),
{
    lemma_prefix(value, 26);
    let bytes = encode_utf8(id_text(value));
    assert(bytes.take(26) =~= bytes);
    assert(pow(32, 0) == 1) by {
        reveal(pow);
    }
    assert forall|i: int| 0 <= i < 26 implies digit_of(#[trigger] bytes[i]) is Some by {
        assert(bytes[i] == id_text(value)[i] as u8);
        lemma_digit((value as int / pow(32, (25 - i) as nat)) % 32);
    }
}

/// A text has 26 characters of the alphabet, in either case; nothing else is
/// read, and the case makes no difference.
pub proof fn law_identifier_text_is_exact(text: Seq<char>, byte: u8)
    ensures
        forall|value: u128| (#[trigger] id_text(value)).len() == 26,
        parsed_id(text) is Ok <==> encode_utf8(text).len() == 26 && forall|i: int|
            0 <= i < 26 ==> digit_of(#[trigger] encode_utf8(text)[i]) is Some,
        encode_utf8(text).len() != 26 ==> parsed_id(text) == Err::<u128, DecodeError>(
            DecodeError::InvalidLength,
        ),
        97 <= byte <= 122 ==> digit_of(byte) == digit_of((byte - 32) as u8),
{
}

/// An identifier is written in 32 digits without the letters that are taken for
/// others, the greatest first.
pub proof fn law_identifier_digits(value: u128, i: int)
    requires
        0 <= i < 26,
    ensures
        id_text(value)[i] == "0123456789ABCDEFGHJKMNPQRSTVWXYZ"@[(value as int / pow(
            32,
            (25 - i) as nat,
        )) % 32],
{
}

} // verus!
