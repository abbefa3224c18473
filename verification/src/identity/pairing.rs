//! Short-code authenticated pairing of two devices.

use crate::bytes::{be, be_u64, extend, framed, push_part};
use crate::crypto;
use crate::crypto::{
    blake3_derived, blake3_keyed, degenerate, ed25519_point, ed25519_signature, ed25519_verifies,
    exchange_message, exchange_password, exchange_shared, exchange_side, exchanges_agree,
    uppercased, Exchange,
};
use crate::identity::device::{
    check_signature, device_id, protocol, signature_valid, DeviceId, DeviceIdentity,
    DevicePublicKey, PairingError,
};
use crate::rows::lemma_all_kept;
use crate::text::{byte_len, copy_bytes, len_bytes, same_bytes};
use vstd::prelude::*;
use vstd::string::*;
use vstd::utf8::{encode_utf8, is_ascii_chars, is_ascii_chars_encode_utf8};

verus! {

/// The greatest number of bytes in a transport binding or a context.
pub const MAX_FIELD_BYTES: usize = 4096;

/// The unambiguous alphabet of pairing codes.
pub open spec fn code_alphabet() -> Seq<char> {
    "0123456789ABCDEFGHJKMNPQRSTVWXYZ"@
}

/// Whether text is a normalized pairing code: eight bytes, all from the
/// alphabet.
pub open spec fn is_code(text: Seq<char>) -> bool {
    &&& byte_len(text) == 8
    &&& forall|i: int| 0 <= i < 8 ==> is_code_byte(#[trigger] encode_utf8(text)[i])
}

/// Whether a byte is from the code alphabet.
pub open spec fn is_code_byte(byte: u8) -> bool {
    exists|j: int| 0 <= j < 32 && #[trigger] code_alphabet()[j] as u8 == byte
}

/// Text without spaces and hyphens, in upper case.
pub open spec fn normalized(text: Seq<char>) -> Seq<char>
    decreases text.len(),
{
    if text.len() == 0 {
        Seq::empty()
    } else {
        let rest = normalized(text.drop_last());
        if text.last() == ' ' || text.last() == '-' {
            rest
        } else {
            rest + uppercased(text.last())
        }
    }
}

/// The upper-case form of an ASCII character.
pub open spec fn upper_ascii(character: char) -> char {
    if 'a' <= character <= 'z' {
        ((character as int) - 32) as char
    } else {
        character
    }
}

/// Whether a character is neither a space nor a hyphen.
pub open spec fn significant() -> spec_fn(char) -> bool {
    |character: char| character != ' ' && character != '-'
}

/// ASCII text without spaces and hyphens, in upper case.
pub open spec fn folded(text: Seq<char>) -> Seq<char> {
    text.filter(significant()).map_values(|character: char| upper_ascii(character))
}

/// A code in two groups of four.
pub open spec fn rendered(code: Seq<char>) -> Seq<char> {
    code.take(4) + "-"@ + code.skip(4)
}

/// The code that eight random bytes give.
pub open spec fn drawn_code(bytes: Seq<u8>) -> Seq<char> {
    Seq::new(bytes.len(), |i: int| code_alphabet()[bytes[i] as int % 32])
}

/// A human-entered, single-invitation pairing code.
pub struct PairingCode {
    code: String,
}

impl View for PairingCode {
    type V = Seq<char>;

    /// The normalized code.
    closed spec fn view(&self) -> Seq<char> {
        self.code@
    }
}

fn code_byte(byte: u8) -> (found: bool)
    ensures
        found == is_code_byte(byte),
{
    let alphabet = "0123456789ABCDEFGHJKMNPQRSTVWXYZ".as_bytes();
    proof {
        reveal_strlit("0123456789ABCDEFGHJKMNPQRSTVWXYZ");
        is_ascii_chars_encode_utf8("0123456789ABCDEFGHJKMNPQRSTVWXYZ"@);
        assert forall|j: int| 0 <= j < 32 implies alphabet@[j] == #[trigger] code_alphabet()[j] as u8 by {}
    }
    let mut place: usize = 0;
    while place < 32
        invariant
            alphabet@.len() == 32,
            forall|j: int| 0 <= j < 32 ==> alphabet@[j] == #[trigger] code_alphabet()[j] as u8,
            place <= 32,
            forall|j: int| 0 <= j < place ==> #[trigger] code_alphabet()[j] as u8 != byte,
        decreases 32 - place,
    {
        if alphabet[place] == byte {
            assert(code_alphabet()[place as int] as u8 == byte);
            return true;
        }
        place += 1;
    }
    false
}

/// Whether every byte is from the code alphabet.
fn all_code_bytes(bytes: &[u8]) -> (all: bool)
    ensures
        all == forall|i: int| 0 <= i < bytes@.len() ==> is_code_byte(#[trigger] bytes@[i]),
{
    let mut index: usize = 0;
    while index < bytes.len()
        invariant
            index <= bytes@.len(),
            forall|i: int| 0 <= i < index ==> is_code_byte(#[trigger] bytes@[i]),
        decreases bytes@.len() - index,
    {
        if !code_byte(bytes[index]) {
            assert(!is_code_byte(bytes@[index as int]));
            return false;
        }
        index += 1;
    }
    true
}

impl PairingCode {
    /// The code is a normalized pairing code.
    pub closed spec fn wf(self) -> bool {
        is_code(self.code@)
    }

    /// A well-formed code is a normalized pairing code.
    pub proof fn lemma_code(self)
        requires
            self.wf(),
        ensures
            is_code(self@),
    {
    }

    /// Generates an eight-character code with 40 bits of entropy.
    pub fn generate() -> (code: Result<Self, PairingError>)
        ensures
            match code {
                Ok(code) => code.wf() && exists|bytes: Seq<u8>|
                    bytes.len() == 8 && code@ == #[trigger] drawn_code(bytes),
                Err(error) => error == PairingError::Randomness,
            },
    {
        match crypto::random::<8>() {
            Some(random) => Ok(PairingCode::from_random(random)),
            None => Err(PairingError::Randomness),
        }
    }

    /// Makes the code that eight random bytes give.
    pub fn from_random(random: [u8; 8]) -> (code: Self)
        ensures
            code.wf(),
            code@ == drawn_code(random@),
    {
        let mut code = String::new();
        let mut index: usize = 0;
        while index < 8
            invariant
                index <= 8,
                code@ == drawn_code(random@).take(index as int),
            decreases 8 - index,
        {
            let place: usize = (random[index] % 32) as usize;
            proof {
                reveal_strlit("0123456789ABCDEFGHJKMNPQRSTVWXYZ");
            }
            code.push("0123456789ABCDEFGHJKMNPQRSTVWXYZ".get_char(place));
            assert(drawn_code(random@).take(index + 1) =~= drawn_code(random@).take(
                index as int,
            ).push(code_alphabet()[place as int]));
            index += 1;
        }
        proof {
            let text = drawn_code(random@);
            assert(text.take(8) =~= text);
            reveal_strlit("0123456789ABCDEFGHJKMNPQRSTVWXYZ");
            assert forall|i: int| 0 <= i < text.len() implies '\0' <= #[trigger] text[i] <= '\u{7f}' by {}
            is_ascii_chars_encode_utf8(text);
            assert forall|i: int| 0 <= i < 8 implies is_code_byte(#[trigger] encode_utf8(text)[i]) by {
                let j = random@[i] as int % 32;
                assert(code_alphabet()[j] as u8 == encode_utf8(text)[i]) by {
                    assert(text[i] as u8 == encode_utf8(text)[i]);
                }
            }
        }
        PairingCode { code }
    }

    /// Parses a code, ignoring spaces and hyphens and normalizing case.
    pub fn parse(value: &str) -> (code: Result<Self, PairingError>)
        ensures
            match code {
                Ok(code) => code.wf() && is_code(normalized(value@)) && code@ == normalized(value@),
                Err(error) => !is_code(normalized(value@)) && error == PairingError::InvalidMessage,
            },
            is_ascii_chars(value@) ==> match code {
                Ok(code) => is_code(folded(value@)) && code@ == folded(value@),
                Err(_) => !is_code(folded(value@)),
            },
    {
        let mut code = String::new();
        let mut place: usize = 0;
        let len: usize = value.unicode_len();
        assert(value@.take(0) =~= Seq::<char>::empty());
        for character in characters: value.chars()
            invariant
                characters.seq() == value@,
                len == value@.len(),
                place == characters.index(),
                code@ == normalized(value@.take(place as int)),
                forall|i: int|
                    0 <= i < place && value@[i] <= '\u{7f}' && significant()(value@[i])
                        ==> uppercased(#[trigger] value@[i]) == seq![upper_ascii(value@[i])],
        {
            assert(value@.take(place + 1).drop_last() =~= value@.take(place as int));
            assert(value@.take(place + 1).last() == character);
            if character != ' ' && character != '-' {
                let upper = crypto::uppercase(character);
                append_chars(&mut code, &upper);
            }
            place += 1;
        }
        assert(value@.take(value@.len() as int) =~= value@);
        proof {
            if is_ascii_chars(value@) {
                lemma_folded(value@);
            }
        }
        PairingCode::from_normalized(code)
    }

    /// Accepts normalized text that is a code.
    pub fn from_normalized(code: String) -> (accepted: Result<Self, PairingError>)
        ensures
            match accepted {
                Ok(accepted) => accepted.wf() && is_code(code@) && accepted@ == code@,
                Err(error) => !is_code(code@) && error == PairingError::InvalidMessage,
            },
    {
        if len_bytes(code.as_str()) != 8 || !all_code_bytes(code.as_str().as_bytes()) {
            return Err(PairingError::InvalidMessage);
        }
        Ok(PairingCode { code })
    }

    /// Renders the code in two groups of four.
    pub fn to_string(&self) -> (text: String)
        requires
            self.wf(),
        ensures
            text@ == rendered(self@),
            self@.len() == 8,
    {
        proof {
            lemma_code_is_ascii(self.code@);
        }
        let code = self.code.as_str();
        let mut text = code.substring_char(0, 4).to_owned();
        text.append("-");
        text.append(code.substring_char(4, 8));
        assert(self@.subrange(0, 4) =~= self@.take(4));
        assert(self@.subrange(4, 8) =~= self@.skip(4));
        text
    }

    /// Describes the code without revealing it.
    pub fn debug_text(&self) -> (text: String)
        ensures
            text@ == "PairingCode([redacted])"@,
    {
        "PairingCode([redacted])".to_owned()
    }
}

/// ASCII text is normalized one character at a time.
proof fn lemma_folded(text: Seq<char>)
    requires
        forall|i: int|
            0 <= i < text.len() && significant()(text[i]) ==> uppercased(#[trigger] text[i])
                == seq![upper_ascii(text[i])],
    ensures
        normalized(text) == folded(text),
    decreases text.len(),
{
    reveal(Seq::filter);
    if text.len() > 0 {
        let shorter = text.drop_last();
        assert forall|i: int| 0 <= i < shorter.len() && significant()(shorter[i]) implies uppercased(
            #[trigger] shorter[i],
        ) == seq![upper_ascii(shorter[i])] by {
            assert(shorter[i] == text[i]);
        }
        lemma_folded(shorter);
        let last = text[text.len() - 1];
        if significant()(last) {
            assert(uppercased(last) == seq![upper_ascii(last)]);
            assert(normalized(text) =~= folded(text));
        }
    } else {
        assert(normalized(text) =~= folded(text));
    }
}

/// A normalized code is ASCII text that normalization leaves as it is.
proof fn lemma_code_characters(code: Seq<char>)
    requires
        is_code(code),
    ensures
        code.len() == 8,
        is_ascii_chars(code),
        forall|i: int| 0 <= i < 8 ==> significant()(#[trigger] code[i]),
        forall|i: int| 0 <= i < 8 ==> upper_ascii(#[trigger] code[i]) == code[i],
{
    lemma_code_is_ascii(code);
    is_ascii_chars_encode_utf8(code);
    assert forall|i: int| 0 <= i < 8 implies significant()(#[trigger] code[i]) && upper_ascii(code[i])
        == code[i] by {
        let byte = encode_utf8(code)[i];
        assert(is_code_byte(byte));
        let j = choose|j: int| 0 <= j < 32 && #[trigger] code_alphabet()[j] as u8 == byte;
        reveal_strlit("0123456789ABCDEFGHJKMNPQRSTVWXYZ");
        assert('\0' <= code[i] <= '\u{7f}');
        assert(code[i] as u8 == byte);
        assert(code[i] == code_alphabet()[j]);
    }
}

/// The hyphen between two groups is all that normalization removes.
proof fn lemma_groups(code: Seq<char>)
    requires
        code.len() == 8,
        forall|i: int| 0 <= i < 8 ==> significant()(#[trigger] code[i]),
        forall|i: int| 0 <= i < 8 ==> upper_ascii(#[trigger] code[i]) == code[i],
    ensures
        folded(rendered(code)) == code,
{
    reveal_strlit("-");
    let keep = significant();
    let first = code.take(4);
    let second = code.skip(4);
    lemma_all_kept(first, keep);
    lemma_all_kept(second, keep);
    assert("-"@.filter(keep) =~= Seq::<char>::empty()) by {
        reveal(Seq::filter);
        assert("-"@.drop_last() =~= Seq::<char>::empty());
    }
    Seq::filter_distributes_over_add(first + "-"@, second, keep);
    Seq::filter_distributes_over_add(first, "-"@, keep);
    assert(rendered(code).filter(keep) =~= code);
    assert(folded(rendered(code)) =~= code);
}

/// Two groups of ASCII text and a hyphen are ASCII text.
proof fn lemma_rendered_is_ascii(code: Seq<char>)
    requires
        code.len() == 8,
        is_ascii_chars(code),
    ensures
        is_ascii_chars(rendered(code)),
{
    reveal_strlit("-");
    let shown = rendered(code);
    assert forall|i: int| 0 <= i < shown.len() implies '\0' <= #[trigger] shown[i] <= '\u{7f}' by {
        if i < 4 {
            assert(shown[i] == code[i]);
        } else if i > 4 {
            assert(shown[i] == code[i - 1]);
        }
    }
}

/// A rendered code is ASCII text that parses back to the same code.
pub proof fn law_rendered_code_parses_back(code: Seq<char>)
    requires
        is_code(code),
    ensures
        is_ascii_chars(rendered(code)),
        folded(rendered(code)) == code,
{
    lemma_code_characters(code);
    lemma_groups(code);
    lemma_rendered_is_ascii(code);
}

/// A normalized code has eight characters, all of them ASCII.
proof fn lemma_code_is_ascii(text: Seq<char>)
    requires
        is_code(text),
    ensures
        text.len() == 8,
        is_ascii_chars(text),
{
    reveal_strlit("0123456789ABCDEFGHJKMNPQRSTVWXYZ");
    let bytes = encode_utf8(text);
    assert forall|i: int| 0 <= i < bytes.len() implies #[trigger] bytes[i] < 128 by {
        let j = choose|j: int| 0 <= j < 32 && code_alphabet()[j] as u8 == bytes[i];
        assert(code_alphabet()[j] as int <= 127);
    }
    lemma_ascii_bytes(text);
}

/// Text whose bytes are all ASCII has one character for each byte.
pub(crate) proof fn lemma_ascii_bytes(text: Seq<char>)
    requires
        forall|i: int| 0 <= i < encode_utf8(text).len() ==> #[trigger] encode_utf8(text)[i] < 128,
    ensures
        text.len() == encode_utf8(text).len(),
        is_ascii_chars(text),
    decreases text.len(),
{
    vstd::utf8::encode_utf8_valid_utf8(text);
    vstd::utf8::encode_utf8_decode_utf8(text);
    if text.len() > 0 {
        vstd::utf8::encode_utf8_first_scalar(text);
        let bytes = encode_utf8(text);
        let first = vstd::utf8::encode_scalar(text[0] as u32);
        let rest = text.drop_first();
        assert(bytes =~= first + encode_utf8(rest));
        assert(bytes[0] < 128);
        assert forall|i: int| 0 <= i < encode_utf8(rest).len() implies #[trigger] encode_utf8(rest)[i]
            < 128 by {
            assert(bytes[first.len() + i] == encode_utf8(rest)[i]);
        }
        lemma_ascii_bytes(rest);
        vstd::utf8::char_is_scalar(text[0]);
        lemma_ascii_scalar(text[0] as u32);
        assert forall|i: int| 0 <= i < text.len() implies '\0' <= #[trigger] text[i] <= '\u{7f}' by {
            if i > 0 {
                assert(text[i] == rest[i - 1]);
            }
        }
    }
}

proof fn lemma_ascii_scalar(scalar: u32)
    requires
        vstd::utf8::is_scalar(scalar),
        vstd::utf8::encode_scalar(scalar)[0] < 128,
    ensures
        scalar < 128,
        vstd::utf8::encode_scalar(scalar).len() == 1,
{
    if scalar >= 128 {
        assert((0xC0u8 | ((scalar >> 6) & 0x1F) as u8) >= 128u8) by (bit_vector);
        assert((0xE0u8 | ((scalar >> 12) & 0x0F) as u8) >= 128u8) by (bit_vector);
        assert((0xF0u8 | ((scalar >> 18) & 0x07) as u8) >= 128u8) by (bit_vector);
    }
}

/// Appends characters to a string.
fn append_chars(text: &mut String, characters: &Vec<char>)
    ensures
        final(text)@ == old(text)@ + characters@,
{
    let ghost before = text@;
    let mut index: usize = 0;
    assert(before + characters@.take(0) =~= before);
    while index < characters.len()
        invariant
            index <= characters@.len(),
            text@ == before + characters@.take(index as int),
        decreases characters@.len() - index,
    {
        text.push(characters[index]);
        assert(before + characters@.take(index + 1) =~= (before + characters@.take(
            index as int,
        )).push(characters@[index as int]));
        index += 1;
    }
    assert(characters@.take(characters@.len() as int) =~= characters@);
}

/// The inviter's first wire message.
#[derive(Debug, PartialEq, Eq)]
pub struct Offer {
    /// Protocol version.
    pub version: u8,
    /// Durable invitation identifier.
    pub invitation_id: [u8; 16],
    /// Expiry as Unix seconds.
    pub expires_at: u64,
    /// The inviter's public key.
    pub public_key: DevicePublicKey,
    /// The inviter's transport binding.
    pub transport_binding: Vec<u8>,
    /// Opaque context of the inviter.
    pub context: Vec<u8>,
    /// First message of the password-authenticated exchange.
    pub pake_message: Vec<u8>,
    /// The inviter's signature.
    pub signature: Vec<u8>,
}

/// What an [`Offer`] says.
#[verifier::ext_equal]
pub struct OfferView {
    /// Protocol version.
    pub version: u8,
    /// Durable invitation identifier.
    pub invitation_id: Seq<u8>,
    /// Expiry as Unix seconds.
    pub expires_at: u64,
    /// The inviter's public key.
    pub public_key: Seq<u8>,
    /// The inviter's transport binding.
    pub transport_binding: Seq<u8>,
    /// Opaque context of the inviter.
    pub context: Seq<u8>,
    /// First message of the exchange.
    pub pake_message: Seq<u8>,
    /// The inviter's signature.
    pub signature: Seq<u8>,
}

impl View for Offer {
    type V = OfferView;

    open spec fn view(&self) -> OfferView {
        OfferView {
            version: self.version,
            invitation_id: self.invitation_id@,
            expires_at: self.expires_at,
            public_key: self.public_key@,
            transport_binding: self.transport_binding@,
            context: self.context@,
            pake_message: self.pake_message@,
            signature: self.signature@,
        }
    }
}

impl Clone for Offer {
    fn clone(&self) -> (copy: Self)
        ensures
            copy@ == self@,
    {
        Offer {
            version: self.version,
            invitation_id: self.invitation_id,
            expires_at: self.expires_at,
            public_key: self.public_key,
            transport_binding: copy_bytes(self.transport_binding.as_slice()),
            context: copy_bytes(self.context.as_slice()),
            pake_message: copy_bytes(self.pake_message.as_slice()),
            signature: copy_bytes(self.signature.as_slice()),
        }
    }
}

/// The joining device's wire response.
#[derive(Debug, PartialEq, Eq)]
pub struct Answer {
    /// The joiner's public key.
    pub public_key: DevicePublicKey,
    /// The joiner's transport binding.
    pub transport_binding: Vec<u8>,
    /// Opaque context of the joiner.
    pub context: Vec<u8>,
    /// Second message of the password-authenticated exchange.
    pub pake_message: Vec<u8>,
    /// Key confirmation of the joiner.
    pub confirmation: [u8; 32],
    /// The joiner's signature.
    pub signature: Vec<u8>,
}

/// What an [`Answer`] says.
#[verifier::ext_equal]
pub struct AnswerView {
    /// The joiner's public key.
    pub public_key: Seq<u8>,
    /// The joiner's transport binding.
    pub transport_binding: Seq<u8>,
    /// Opaque context of the joiner.
    pub context: Seq<u8>,
    /// Second message of the exchange.
    pub pake_message: Seq<u8>,
    /// Key confirmation of the joiner.
    pub confirmation: Seq<u8>,
    /// The joiner's signature.
    pub signature: Seq<u8>,
}

impl View for Answer {
    type V = AnswerView;

    open spec fn view(&self) -> AnswerView {
        AnswerView {
            public_key: self.public_key@,
            transport_binding: self.transport_binding@,
            context: self.context@,
            pake_message: self.pake_message@,
            confirmation: self.confirmation@,
            signature: self.signature@,
        }
    }
}

impl Clone for Answer {
    fn clone(&self) -> (copy: Self)
        ensures
            copy@ == self@,
    {
        Answer {
            public_key: self.public_key,
            transport_binding: copy_bytes(self.transport_binding.as_slice()),
            context: copy_bytes(self.context.as_slice()),
            pake_message: copy_bytes(self.pake_message.as_slice()),
            confirmation: self.confirmation,
            signature: copy_bytes(self.signature.as_slice()),
        }
    }
}

/// The inviter's final key-confirmation message.
#[derive(Clone, Copy, Debug, PartialEq, Eq)]
pub struct Acknowledgement {
    /// Key confirmation of the inviter.
    pub confirmation: [u8; 32],
}

/// A successfully authenticated peer and pairing session key.
pub struct PairedPeer {
    /// The peer's authenticated public key.
    pub public_key: DevicePublicKey,
    transport_binding: Vec<u8>,
    context: Vec<u8>,
    session_key: [u8; 32],
}

/// What a [`PairedPeer`] holds.
#[verifier::ext_equal]
pub struct PeerView {
    /// The peer's authenticated public key.
    pub public_key: Seq<u8>,
    /// The peer's transport binding.
    pub transport_binding: Seq<u8>,
    /// The peer's context.
    pub context: Seq<u8>,
    /// Key material of the session.
    pub session_key: Seq<u8>,
}

impl View for PairedPeer {
    type V = PeerView;

    closed spec fn view(&self) -> PeerView {
        PeerView {
            public_key: self.public_key@,
            transport_binding: self.transport_binding@,
            context: self.context@,
            session_key: self.session_key@,
        }
    }
}

impl PairedPeer {
    /// Returns the peer's authenticated public key.
    pub fn public_key(&self) -> (key: DevicePublicKey)
        ensures
            key@ == self@.public_key,
    {
        self.public_key
    }

    /// Returns the peer's stable identifier.
    pub fn id(&self) -> (id: DeviceId)
        ensures
            id@ == device_id(self@.public_key),
    {
        self.public_key.id()
    }

    /// Returns key material scoped to this one pairing session.
    pub fn session_key(&self) -> (key: &[u8; 32])
        ensures
            key@ == self@.session_key,
    {
        &self.session_key
    }

    /// Returns the peer's authenticated transport binding.
    ///
    /// For QUIC this is the peer's DER certificate, pinned exactly by the
    /// trust store after pairing.
    pub fn transport_binding(&self) -> (binding: &[u8])
        ensures
            binding@ == self@.transport_binding,
    {
        self.transport_binding.as_slice()
    }

    /// Returns peer-supplied context authenticated by the pairing transcript.
    ///
    /// The identity layer treats this as opaque bounded bytes. Higher layers
    /// use it for versioned device-link or invitation metadata.
    pub fn context(&self) -> (context: &[u8])
        ensures
            context@ == self@.context,
    {
        self.context.as_slice()
    }
}

impl Offer {
    /// Returns the durable invitation identifier.
    pub fn invitation_id(&self) -> (id: [u8; 16])
        ensures
            id@ == self@.invitation_id,
    {
        self.invitation_id
    }

    /// Returns the invitation expiry as Unix seconds.
    pub fn expires_at(&self) -> (expires_at: u64)
        ensures
            expires_at == self@.expires_at,
    {
        self.expires_at
    }
}

/// What an offer's signature covers.
pub open spec fn offer_parts(offer: OfferView) -> Seq<Seq<u8>> {
    seq![
        protocol(),
        encode_utf8("offer"@),
        seq![offer.version],
        offer.invitation_id,
        be(offer.expires_at as nat, 8),
        offer.public_key,
        offer.transport_binding,
        offer.context,
        offer.pake_message,
    ]
}

/// What both sides have said before the joiner confirms.
pub open spec fn transcript_parts(offer: OfferView, answer: AnswerView) -> Seq<Seq<u8>> {
    offer_parts(offer).push(offer.signature).push(answer.public_key).push(
        answer.transport_binding,
    ).push(answer.context).push(answer.pake_message)
}

/// What an answer's signature covers.
pub open spec fn answer_parts(offer: OfferView, answer: AnswerView) -> Seq<Seq<u8>> {
    transcript_parts(offer, answer).push(answer.confirmation)
}

/// The session key of a shared secret and a transcript.
pub open spec fn session_key_of(shared: Seq<u8>, transcript: Seq<u8>) -> Seq<u8> {
    blake3_derived("cyrene pairing session key v1"@, framed(seq![shared, transcript]))
}

/// The confirmation that a role gives of a session key and a transcript.
pub open spec fn confirmation_of(key: Seq<u8>, role: Seq<u8>, transcript: Seq<u8>) -> Seq<u8> {
    blake3_keyed(key, protocol() + role + transcript)
}

/// The role of the joining device.
pub open spec fn joiner_role() -> Seq<u8> {
    encode_utf8("joiner"@)
}

/// The role of the inviting device.
pub open spec fn inviter_role() -> Seq<u8> {
    encode_utf8("inviter"@)
}

/// Why a transport binding is refused.
pub open spec fn binding_refusal(binding: Seq<u8>) -> Option<PairingError> {
    if binding.len() == 0 || binding.len() > 4096 {
        Some(PairingError::InvalidMessage)
    } else {
        None
    }
}

/// Why a context is refused.
pub open spec fn context_refusal(context: Seq<u8>) -> Option<PairingError> {
    if context.len() > 4096 {
        Some(PairingError::InvalidMessage)
    } else {
        None
    }
}

/// Why an offer is refused before its signature is checked.
pub open spec fn offer_refusal(offer: OfferView, now: u64) -> Option<PairingError> {
    if offer.version != 1 || offer.pake_message.len() == 0 {
        Some(PairingError::InvalidMessage)
    } else if binding_refusal(offer.transport_binding) is Some {
        binding_refusal(offer.transport_binding)
    } else if context_refusal(offer.context) is Some {
        context_refusal(offer.context)
    } else if now > offer.expires_at {
        Some(PairingError::Expired)
    } else {
        None
    }
}

/// Why a signature is refused.
pub open spec fn signature_refusal(
    key: Seq<u8>,
    message: Seq<u8>,
    signature: Seq<u8>,
) -> Option<PairingError> {
    if signature.len() != 64 {
        Some(PairingError::InvalidSignature)
    } else if !ed25519_point(key) {
        Some(PairingError::InvalidMessage)
    } else if !signature_valid(key, message, signature) {
        Some(PairingError::InvalidSignature)
    } else {
        None
    }
}

/// What a result without a value says.
pub open spec fn refused<T>(result: Result<T, PairingError>) -> Option<PairingError> {
    match result {
        Ok(_) => None,
        Err(error) => Some(error),
    }
}

fn validate_context(context: &[u8]) -> (result: Result<(), PairingError>)
    ensures
        refused(result) == context_refusal(context@),
{
    if context.len() > MAX_FIELD_BYTES {
        return Err(PairingError::InvalidMessage);
    }
    Ok(())
}

fn validate_transport_binding(binding: &[u8]) -> (result: Result<(), PairingError>)
    ensures
        refused(result) == binding_refusal(binding@),
{
    if binding.len() == 0 || binding.len() > MAX_FIELD_BYTES {
        return Err(PairingError::InvalidMessage);
    }
    Ok(())
}

fn validate_offer(offer: &Offer, now: u64) -> (result: Result<(), PairingError>)
    ensures
        refused(result) == offer_refusal(offer@, now),
{
    if offer.version != 1 || offer.pake_message.len() == 0 {
        return Err(PairingError::InvalidMessage);
    }
    validate_transport_binding(offer.transport_binding.as_slice())?;
    validate_context(offer.context.as_slice())?;
    if now > offer.expires_at {
        return Err(PairingError::Expired);
    }
    Ok(())
}

fn verify_signature(key: &DevicePublicKey, message: &[u8], encoded: &[u8]) -> (result: Result<
    (),
    PairingError,
>)
    ensures
        refused(result) == signature_refusal(key@, message@, encoded@),
{
    if encoded.len() != 64 {
        return Err(PairingError::InvalidSignature);
    }
    if !crypto::is_point(&key.0) {
        return Err(PairingError::InvalidMessage);
    }
    if !check_signature(key, message, encoded) {
        return Err(PairingError::InvalidSignature);
    }
    Ok(())
}

/// The identity under which both sides run the exchange.
pub open spec fn exchange_identity(invitation_id: Seq<u8>) -> Seq<u8> {
    protocol() + encode_utf8("/spake2/"@) + invitation_id
}

fn pairing_context(invitation_id: &[u8; 16]) -> (identity: Vec<u8>)
    ensures
        identity@ == exchange_identity(invitation_id@),
{
    let mut identity: Vec<u8> = Vec::new();
    extend(&mut identity, "cyrene/pairing/1".as_bytes());
    extend(&mut identity, "/spake2/".as_bytes());
    extend(&mut identity, invitation_id.as_slice());
    assert(identity@ =~= exchange_identity(invitation_id@));
    identity
}

fn offer_signing_bytes(offer: &Offer) -> (bytes: Vec<u8>)
    ensures
        bytes@ == framed(offer_parts(offer@)),
{
    let mut bytes: Vec<u8> = Vec::new();
    let ghost p0 = Seq::<Seq<u8>>::empty();
    assert(bytes@ =~= framed(p0));
    push_part(&mut bytes, "cyrene/pairing/1".as_bytes());
    let ghost p1 = p0.push(protocol());
    assert(bytes@ == framed(p1));
    push_part(&mut bytes, "offer".as_bytes());
    let ghost p2 = p1.push(encode_utf8("offer"@));
    assert(bytes@ == framed(p2));
    let version: [u8; 1] = [offer.version];
    push_part(&mut bytes, version.as_slice());
    assert(version@ =~= seq![offer.version]);
    let ghost p3 = p2.push(seq![offer.version]);
    assert(bytes@ == framed(p3));
    push_part(&mut bytes, offer.invitation_id.as_slice());
    let ghost p4 = p3.push(offer.invitation_id@);
    assert(bytes@ == framed(p4));
    push_part(&mut bytes, be_u64(offer.expires_at).as_slice());
    let ghost p5 = p4.push(be(offer.expires_at as nat, 8));
    assert(bytes@ == framed(p5));
    push_part(&mut bytes, offer.public_key.0.as_slice());
    let ghost p6 = p5.push(offer.public_key@);
    assert(bytes@ == framed(p6));
    push_part(&mut bytes, offer.transport_binding.as_slice());
    let ghost p7 = p6.push(offer.transport_binding@);
    assert(bytes@ == framed(p7));
    push_part(&mut bytes, offer.context.as_slice());
    let ghost p8 = p7.push(offer.context@);
    assert(bytes@ == framed(p8));
    push_part(&mut bytes, offer.pake_message.as_slice());
    let ghost p9 = p8.push(offer.pake_message@);
    assert(bytes@ == framed(p9));
    assert(p9 =~= offer_parts(offer@));
    bytes
}

fn transcript_bytes(offer: &Offer, answer: &Answer) -> (bytes: Vec<u8>)
    ensures
        bytes@ == framed(transcript_parts(offer@, answer@)),
{
    let mut bytes = offer_signing_bytes(offer);
    let ghost p0 = offer_parts(offer@);
    push_part(&mut bytes, offer.signature.as_slice());
    let ghost p1 = p0.push(offer.signature@);
    assert(bytes@ == framed(p1));
    push_part(&mut bytes, answer.public_key.0.as_slice());
    let ghost p2 = p1.push(answer.public_key@);
    assert(bytes@ == framed(p2));
    push_part(&mut bytes, answer.transport_binding.as_slice());
    let ghost p3 = p2.push(answer.transport_binding@);
    assert(bytes@ == framed(p3));
    push_part(&mut bytes, answer.context.as_slice());
    let ghost p4 = p3.push(answer.context@);
    assert(bytes@ == framed(p4));
    push_part(&mut bytes, answer.pake_message.as_slice());
    let ghost p5 = p4.push(answer.pake_message@);
    assert(bytes@ == framed(p5));
    bytes
}

fn answer_signing_bytes(offer: &Offer, answer: &Answer) -> (bytes: Vec<u8>)
    ensures
        bytes@ == framed(answer_parts(offer@, answer@)),
{
    let mut bytes = transcript_bytes(offer, answer);
    push_part(&mut bytes, answer.confirmation.as_slice());
    assert(bytes@ == framed(transcript_parts(offer@, answer@).push(answer.confirmation@)));
    bytes
}

fn derive_session_key(shared: &[u8], transcript: &[u8]) -> (key: [u8; 32])
    ensures
        key@ == session_key_of(shared@, transcript@),
{
    let mut material: Vec<u8> = Vec::new();
    let ghost none = Seq::<Seq<u8>>::empty();
    assert(material@ =~= framed(none));
    push_part(&mut material, shared);
    assert(material@ == framed(none.push(shared@)));
    push_part(&mut material, transcript);
    assert(material@ == framed(none.push(shared@).push(transcript@)));
    assert(none.push(shared@).push(transcript@) =~= seq![shared@, transcript@]);
    crypto::derive_key("cyrene pairing session key v1", material.as_slice())
}

fn confirmation(key: &[u8; 32], role: &str, transcript: &[u8]) -> (digest: [u8; 32])
    ensures
        digest@ == confirmation_of(key@, encode_utf8(role@), transcript@),
{
    let mut input: Vec<u8> = Vec::new();
    extend(&mut input, "cyrene/pairing/1".as_bytes());
    extend(&mut input, role.as_bytes());
    extend(&mut input, transcript);
    assert(input@ =~= protocol() + encode_utf8(role@) + transcript@);
    crypto::keyed_hash(key, input.as_slice())
}

/// The offer that an inviter makes.
pub open spec fn offered(
    secret: Seq<u8>,
    public: Seq<u8>,
    invitation_id: Seq<u8>,
    expires_at: u64,
    transport_binding: Seq<u8>,
    context: Seq<u8>,
    pake_message: Seq<u8>,
) -> OfferView {
    let unsigned = OfferView {
        version: 1,
        invitation_id,
        expires_at,
        public_key: public,
        transport_binding,
        context,
        pake_message,
        signature: Seq::empty(),
    };
    OfferView { signature: ed25519_signature(secret, framed(offer_parts(unsigned))), ..unsigned }
}

/// The moment at which an invitation made now expires.
pub open spec fn expiry(now: u64, lifetime: u64) -> u64 {
    if now + lifetime > u64::MAX {
        u64::MAX
    } else {
        (now + lifetime) as u64
    }
}

/// Makes and signs the offer for an exchange that has been started.
pub fn make_offer(
    identity: &DeviceIdentity,
    invitation_id: [u8; 16],
    expires_at: u64,
    transport_binding: &[u8],
    context: &[u8],
    pake_message: Vec<u8>,
) -> (offer: Offer)
    ensures
        offer@ == offered(
            identity@,
            identity.public(),
            invitation_id@,
            expires_at,
            transport_binding@,
            context@,
            pake_message@,
        ),
        !degenerate(offer@.signature) ==> signature_refusal(
            offer@.public_key,
            framed(offer_parts(offer@)),
            offer@.signature,
        ) is None,
{
    let mut offer = Offer {
        version: 1,
        invitation_id,
        expires_at,
        public_key: identity.public_key(),
        transport_binding: copy_bytes(transport_binding),
        context: copy_bytes(context),
        pake_message,
        signature: Vec::new(),
    };
    assert(offer.signature@ =~= Seq::<u8>::empty());
    let ghost unsigned = offer@;
    let bytes = offer_signing_bytes(&offer);
    let signature = identity.sign_raw(bytes.as_slice());
    offer.signature = copy_bytes(signature.as_slice());
    assert(offer_parts(offer@) =~= offer_parts(unsigned));
    offer
}

/// Single-use inviter state.
pub struct Inviter<'a> {
    identity: &'a DeviceIdentity,
    offer: Offer,
    pake: Exchange,
}

impl<'a> Inviter<'a> {
    /// The offer that the inviter made.
    pub closed spec fn offer(self) -> OfferView {
        self.offer@
    }

    /// The running exchange.
    pub closed spec fn exchange(self) -> Exchange {
        self.pake
    }

    /// Creates an invitation that remains valid for `lifetime` seconds after
    /// `now`.
    pub fn start(
        identity: &'a DeviceIdentity,
        code: &PairingCode,
        transport_binding: &[u8],
        now: u64,
        lifetime: u64,
    ) -> (started: Result<(Self, Offer), PairingError>)
        ensures
            match started {
                Ok((inviter, offer)) => {
                    &&& binding_refusal(transport_binding@) is None
                    &&& inviter.offer() == offer@
                    &&& runs_for(inviter.exchange(), code@, offer@.invitation_id)
                    &&& offer@.pake_message == exchange_message(inviter.exchange())
                    &&& offer@.pake_message.len() == 33
                    &&& offer@.pake_message[0] == 0x53
                    &&& offer@.invitation_id.len() == 16
                    &&& offer@ == offered(
                        identity@,
                        identity.public(),
                        offer@.invitation_id,
                        expiry(now, lifetime),
                        transport_binding@,
                        Seq::empty(),
                        offer@.pake_message,
                    )
                    &&& !degenerate(offer@.signature) ==> signature_refusal(
                        offer@.public_key,
                        framed(offer_parts(offer@)),
                        offer@.signature,
                    ) is None
                },
                Err(error) => if binding_refusal(transport_binding@) is Some {
                    Some(error) == binding_refusal(transport_binding@)
                } else {
                    error == PairingError::Randomness
                },
            },
    {
        let nothing: Vec<u8> = Vec::new();
        assert(nothing@ =~= Seq::<u8>::empty());
        Inviter::start_with_context(
            identity,
            code,
            transport_binding,
            nothing.as_slice(),
            now,
            lifetime,
        )
    }

    /// Creates an invitation with opaque, transcript-authenticated context.
    pub fn start_with_context(
        identity: &'a DeviceIdentity,
        code: &PairingCode,
        transport_binding: &[u8],
        context: &[u8],
        now: u64,
        lifetime: u64,
    ) -> (started: Result<(Self, Offer), PairingError>)
        ensures
            match started {
                Ok((inviter, offer)) => {
                    &&& binding_refusal(transport_binding@) is None
                    &&& context_refusal(context@) is None
                    &&& inviter.offer() == offer@
                    &&& runs_for(inviter.exchange(), code@, offer@.invitation_id)
                    &&& offer@.pake_message == exchange_message(inviter.exchange())
                    &&& offer@.pake_message.len() == 33
                    &&& offer@.pake_message[0] == 0x53
                    &&& offer@.invitation_id.len() == 16
                    &&& offer@ == offered(
                        identity@,
                        identity.public(),
                        offer@.invitation_id,
                        expiry(now, lifetime),
                        transport_binding@,
                        context@,
                        offer@.pake_message,
                    )
                    &&& !degenerate(offer@.signature) ==> signature_refusal(
                        offer@.public_key,
                        framed(offer_parts(offer@)),
                        offer@.signature,
                    ) is None
                },
                Err(error) => if binding_refusal(transport_binding@) is Some {
                    Some(error) == binding_refusal(transport_binding@)
                } else if context_refusal(context@) is Some {
                    Some(error) == context_refusal(context@)
                } else {
                    error == PairingError::Randomness
                },
            },
    {
        validate_transport_binding(transport_binding)?;
        validate_context(context)?;
        let invitation_id = match crypto::random::<16>() {
            Some(invitation_id) => invitation_id,
            None => return Err(PairingError::Randomness),
        };
        let expires_at = now.saturating_add(lifetime);
        let (pake, pake_message) = crypto::start_exchange(
            code.code.as_str().as_bytes(),
            pairing_context(&invitation_id).as_slice(),
        );
        let offer = make_offer(
            identity,
            invitation_id,
            expires_at,
            transport_binding,
            context,
            pake_message,
        );
        Ok((Inviter { identity, offer: offer.clone(), pake }, offer))
    }

    /// Authenticates an answer and creates the final acknowledgement.
    pub fn finish(self, answer: &Answer, now: u64) -> (finished: Result<
        (PairedPeer, Acknowledgement),
        PairingError,
    >)
        ensures
            ({
                let offer = self.offer();
                let refusal = answer_refusal(offer, answer@, now);
                if refusal is Some {
                    refused(finished) == refusal
                } else {
                    match exchange_shared(self.exchange(), answer@.pake_message) {
                        None => refused(finished) == Some(PairingError::InvalidMessage),
                        Some(shared) => shared.len() == 32 && completes(
                            offer,
                            answer@,
                            shared,
                            finished,
                        ),
                    }
                }
            }),
            answer_refusal(self.offer(), answer@, now) is None ==> forall|other: Exchange|
                #[trigger] exchanges_agree(self.exchange(), other) && answer@.pake_message
                    == exchange_message(other) ==> {
                    &&& exchange_shared(self.exchange(), answer@.pake_message) is Some
                    &&& exchange_shared(self.exchange(), answer@.pake_message)
                        == exchange_shared(other, exchange_message(self.exchange()))
                },
    {
        validate_offer(&self.offer, now)?;
        let bytes = answer_signing_bytes(&self.offer, answer);
        verify_signature(&answer.public_key, bytes.as_slice(), answer.signature.as_slice())?;
        let offer = self.offer;
        match crypto::finish_exchange(self.pake, answer.pake_message.as_slice()) {
            Some(shared) => {
                complete(&offer, answer, shared.as_slice())
            },
            None => Err(PairingError::InvalidMessage),
        }
    }
}

/// Whether an exchange runs with a code for an invitation.
pub open spec fn runs_for(exchange: Exchange, code: Seq<char>, invitation_id: Seq<u8>) -> bool {
    &&& exchange_password(exchange) == encode_utf8(code)
    &&& exchange_side(exchange) == exchange_identity(invitation_id)
}

/// Why an answer is refused, as far as no shared secret is needed.
pub open spec fn answer_refusal(offer: OfferView, answer: AnswerView, now: u64) -> Option<
    PairingError,
> {
    let signature = signature_refusal(
        answer.public_key,
        framed(answer_parts(offer, answer)),
        answer.signature,
    );
    if offer_refusal(offer, now) is Some {
        offer_refusal(offer, now)
    } else if signature is Some {
        signature
    } else if answer.pake_message.len() != 33 || answer.pake_message[0] != 0x53 {
        Some(PairingError::InvalidMessage)
    } else {
        None
    }
}

/// Whether a result is what an inviter makes of an answer and a shared secret:
/// the peer and the inviter's confirmation if the joiner's confirmation
/// matches, and a failed confirmation otherwise.
pub open spec fn completes(
    offer: OfferView,
    answer: AnswerView,
    shared: Seq<u8>,
    finished: Result<(PairedPeer, Acknowledgement), PairingError>,
) -> bool {
    let transcript = framed(transcript_parts(offer, answer));
    let key = session_key_of(shared, transcript);
    if confirmation_of(key, joiner_role(), transcript) != answer.confirmation {
        refused(finished) == Some(PairingError::ConfirmationFailed)
    } else {
        &&& finished matches Ok((peer, acknowledgement))
        &&& peer@ == (PeerView {
            public_key: answer.public_key,
            transport_binding: answer.transport_binding,
            context: answer.context,
            session_key: key,
        })
        &&& acknowledgement.confirmation@ == confirmation_of(key, inviter_role(), transcript)
    }
}

/// Completes the inviter's side for a shared secret.
pub fn complete(offer: &Offer, answer: &Answer, shared: &[u8]) -> (finished: Result<
    (PairedPeer, Acknowledgement),
    PairingError,
>)
    ensures
        completes(offer@, answer@, shared@, finished),
{
    let transcript = transcript_bytes(offer, answer);
    let session_key = derive_session_key(shared, transcript.as_slice());
    let expected = confirmation(&session_key, "joiner", transcript.as_slice());
    if !same_bytes(expected.as_slice(), answer.confirmation.as_slice()) {
        return Err(PairingError::ConfirmationFailed);
    }
    let acknowledgement = Acknowledgement {
        confirmation: confirmation(&session_key, "inviter", transcript.as_slice()),
    };
    Ok(
        (
            PairedPeer {
                public_key: answer.public_key,
                transport_binding: copy_bytes(answer.transport_binding.as_slice()),
                context: copy_bytes(answer.context.as_slice()),
                session_key,
            },
            acknowledgement,
        ),
    )
}

/// Single-use joining-device state awaiting the final acknowledgement.
pub struct Joiner {
    peer: DevicePublicKey,
    peer_binding: Vec<u8>,
    peer_context: Vec<u8>,
    session_key: [u8; 32],
    transcript: Vec<u8>,
}

/// What a [`Joiner`] holds.
#[verifier::ext_equal]
pub struct JoinerView {
    /// The peer as it will be returned.
    pub peer: PeerView,
    /// What both sides have said.
    pub transcript: Seq<u8>,
}

impl View for Joiner {
    type V = JoinerView;

    closed spec fn view(&self) -> JoinerView {
        JoinerView {
            peer: PeerView {
                public_key: self.peer@,
                transport_binding: self.peer_binding@,
                context: self.peer_context@,
                session_key: self.session_key@,
            },
            transcript: self.transcript@,
        }
    }
}

/// The answer that a joiner makes to an offer for a shared secret.
pub open spec fn answered(
    secret: Seq<u8>,
    public: Seq<u8>,
    transport_binding: Seq<u8>,
    context: Seq<u8>,
    offer: OfferView,
    pake_message: Seq<u8>,
    shared: Seq<u8>,
) -> AnswerView {
    let silent = AnswerView {
        public_key: public,
        transport_binding,
        context,
        pake_message,
        confirmation: Seq::empty(),
        signature: Seq::empty(),
    };
    let transcript = framed(transcript_parts(offer, silent));
    let key = session_key_of(shared, transcript);
    let confirmed = AnswerView {
        confirmation: confirmation_of(key, joiner_role(), transcript),
        ..silent
    };
    AnswerView {
        signature: ed25519_signature(secret, framed(answer_parts(offer, confirmed))),
        ..confirmed
    }
}

/// The state that a joiner keeps after its answer.
pub open spec fn joined(offer: OfferView, answer: AnswerView, shared: Seq<u8>) -> JoinerView {
    let transcript = framed(transcript_parts(offer, answer));
    JoinerView {
        peer: PeerView {
            public_key: offer.public_key,
            transport_binding: offer.transport_binding,
            context: offer.context,
            session_key: session_key_of(shared, transcript),
        },
        transcript,
    }
}

/// Why a joiner refuses to answer, as far as no shared secret is needed.
pub open spec fn join_refusal(
    transport_binding: Seq<u8>,
    context: Seq<u8>,
    offer: OfferView,
    now: u64,
) -> Option<PairingError> {
    let signature = signature_refusal(
        offer.public_key,
        framed(offer_parts(offer)),
        offer.signature,
    );
    if binding_refusal(transport_binding) is Some {
        binding_refusal(transport_binding)
    } else if context_refusal(context) is Some {
        context_refusal(context)
    } else if offer_refusal(offer, now) is Some {
        offer_refusal(offer, now)
    } else if signature is Some {
        signature
    } else if offer.pake_message.len() != 33 || offer.pake_message[0] != 0x53 {
        Some(PairingError::InvalidMessage)
    } else {
        None
    }
}

/// Whether a result is what a joiner makes of an offer, an exchange message of
/// its own and a shared secret.
pub open spec fn joins(
    secret: Seq<u8>,
    public: Seq<u8>,
    transport_binding: Seq<u8>,
    context: Seq<u8>,
    offer: OfferView,
    pake_message: Seq<u8>,
    shared: Seq<u8>,
    joiner: JoinerView,
    answer: AnswerView,
) -> bool {
    &&& answer == answered(
        secret,
        public,
        transport_binding,
        context,
        offer,
        pake_message,
        shared,
    )
    &&& joiner == joined(offer, answer, shared)
}

/// Whether a joiner's result comes of an exchange that runs with a code for the
/// offer's invitation.
pub open spec fn joins_with(
    exchange: Exchange,
    code: Seq<char>,
    secret: Seq<u8>,
    public: Seq<u8>,
    transport_binding: Seq<u8>,
    context: Seq<u8>,
    offer: OfferView,
    joiner: JoinerView,
    answer: AnswerView,
) -> bool {
    &&& runs_for(exchange, code, offer.invitation_id)
    &&& answer.pake_message == exchange_message(exchange)
    &&& exchange_shared(exchange, offer.pake_message) matches Some(shared)
    &&& joins(
        secret,
        public,
        transport_binding,
        context,
        offer,
        answer.pake_message,
        shared,
        joiner,
        answer,
    )
}

/// Makes and signs the answer for a shared secret.
pub fn make_answer(
    identity: &DeviceIdentity,
    transport_binding: &[u8],
    context: &[u8],
    offer: &Offer,
    pake_message: Vec<u8>,
    shared: &[u8],
) -> (made: (Joiner, Answer))
    ensures
        joins(
            identity@,
            identity.public(),
            transport_binding@,
            context@,
            offer@,
            pake_message@,
            shared@,
            made.0@,
            made.1@,
        ),
        !degenerate(made.1@.signature) ==> signature_refusal(
            made.1@.public_key,
            framed(answer_parts(offer@, made.1@)),
            made.1@.signature,
        ) is None,
{
    let mut answer = Answer {
        public_key: identity.public_key(),
        transport_binding: copy_bytes(transport_binding),
        context: copy_bytes(context),
        pake_message,
        confirmation: [0u8; 32],
        signature: Vec::new(),
    };
    let transcript = transcript_bytes(offer, &answer);
    let ghost silent = AnswerView {
        public_key: identity.public(),
        transport_binding: transport_binding@,
        context: context@,
        pake_message: pake_message@,
        confirmation: Seq::empty(),
        signature: Seq::empty(),
    };
    assert(transcript_parts(offer@, answer@) =~= transcript_parts(offer@, silent));
    let session_key = derive_session_key(shared, transcript.as_slice());
    answer.confirmation = confirmation(&session_key, "joiner", transcript.as_slice());
    let ghost confirmed = AnswerView { confirmation: answer.confirmation@, ..silent };
    assert(answer_parts(offer@, answer@) =~= answer_parts(offer@, confirmed));
    let bytes = answer_signing_bytes(offer, &answer);
    let signature = identity.sign_raw(bytes.as_slice());
    answer.signature = copy_bytes(signature.as_slice());
    assert(answer_parts(offer@, answer@) =~= answer_parts(offer@, confirmed));
    assert(transcript_parts(offer@, answer@) =~= transcript_parts(offer@, silent));
    let joiner = Joiner {
        peer: offer.public_key,
        peer_binding: copy_bytes(offer.transport_binding.as_slice()),
        peer_context: copy_bytes(offer.context.as_slice()),
        session_key,
        transcript,
    };
    assert(joiner@ =~= joined(offer@, answer@, shared@));
    (joiner, answer)
}

impl Joiner {
    /// Accepts an offer and prepares a signed, key-confirmed response.
    pub fn start(
        identity: &DeviceIdentity,
        code: &PairingCode,
        transport_binding: &[u8],
        offer: &Offer,
        now: u64,
    ) -> (started: Result<(Self, Answer), PairingError>)
        ensures
            ({
                let refusal = join_refusal(transport_binding@, Seq::empty(), offer@, now);
                match started {
                    Ok((joiner, answer)) => {
                        &&& refusal is None
                        &&& answer@.pake_message.len() == 33
                        &&& answer@.pake_message[0] == 0x53
                        &&& exists|exchange: Exchange| #[trigger]
                            joins_with(
                                exchange,
                                code@,
                                identity@,
                                identity.public(),
                                transport_binding@,
                                Seq::empty(),
                                offer@,
                                joiner@,
                                answer@,
                            )
                        &&& !degenerate(answer@.signature) ==> signature_refusal(
                            answer@.public_key,
                            framed(answer_parts(offer@, answer@)),
                            answer@.signature,
                        ) is None
                    },
                    Err(error) => if refusal is Some {
                        refusal == Some(error)
                    } else {
                        &&& error == PairingError::InvalidMessage
                        &&& exists|exchange: Exchange| #[trigger]
                            runs_for(exchange, code@, offer@.invitation_id) && exchange_shared(
                                exchange,
                                offer@.pake_message,
                            ) is None
                    },
                }
            }),
            join_refusal(transport_binding@, Seq::empty(), offer@, now) is None ==> forall|
                other: Exchange,
            | #[trigger]
                runs_for(other, code@, offer@.invitation_id) && offer@.pake_message
                    == exchange_message(other) ==> started is Ok,
    {
        let nothing: Vec<u8> = Vec::new();
        assert(nothing@ =~= Seq::<u8>::empty());
        Joiner::start_with_context(
            identity,
            code,
            transport_binding,
            nothing.as_slice(),
            offer,
            now,
        )
    }

    /// Accepts an offer with opaque, transcript-authenticated local context.
    pub fn start_with_context(
        identity: &DeviceIdentity,
        code: &PairingCode,
        transport_binding: &[u8],
        context: &[u8],
        offer: &Offer,
        now: u64,
    ) -> (started: Result<(Self, Answer), PairingError>)
        ensures
            ({
                let refusal = join_refusal(transport_binding@, context@, offer@, now);
                match started {
                    Ok((joiner, answer)) => {
                        &&& refusal is None
                        &&& answer@.pake_message.len() == 33
                        &&& answer@.pake_message[0] == 0x53
                        &&& exists|exchange: Exchange| #[trigger]
                            joins_with(
                                exchange,
                                code@,
                                identity@,
                                identity.public(),
                                transport_binding@,
                                context@,
                                offer@,
                                joiner@,
                                answer@,
                            )
                        &&& !degenerate(answer@.signature) ==> signature_refusal(
                            answer@.public_key,
                            framed(answer_parts(offer@, answer@)),
                            answer@.signature,
                        ) is None
                    },
                    Err(error) => if refusal is Some {
                        refusal == Some(error)
                    } else {
                        &&& error == PairingError::InvalidMessage
                        &&& exists|exchange: Exchange| #[trigger]
                            runs_for(exchange, code@, offer@.invitation_id) && exchange_shared(
                                exchange,
                                offer@.pake_message,
                            ) is None
                    },
                }
            }),
            join_refusal(transport_binding@, context@, offer@, now) is None ==> forall|
                other: Exchange,
            | #[trigger]
                runs_for(other, code@, offer@.invitation_id) && offer@.pake_message
                    == exchange_message(other) ==> started is Ok,
    {
        validate_transport_binding(transport_binding)?;
        validate_context(context)?;
        validate_offer(offer, now)?;
        let bytes = offer_signing_bytes(offer);
        verify_signature(&offer.public_key, bytes.as_slice(), offer.signature.as_slice())?;
        let (pake, pake_message) = crypto::start_exchange(
            code.code.as_str().as_bytes(),
            pairing_context(&offer.invitation_id).as_slice(),
        );
        assert(runs_for(pake, code@, offer@.invitation_id));
        proof {
            assert forall|other: Exchange| #[trigger]
                runs_for(other, code@, offer@.invitation_id) implies exchanges_agree(
                pake,
                other,
            ) by {}
        }
        match crypto::finish_exchange(pake, offer.pake_message.as_slice()) {
            Some(shared) => {
                let made = make_answer(
                    identity,
                    transport_binding,
                    context,
                    offer,
                    pake_message,
                    shared.as_slice(),
                );
                assert(joins_with(
                    pake,
                    code@,
                    identity@,
                    identity.public(),
                    transport_binding@,
                    context@,
                    offer@,
                    made.0@,
                    made.1@,
                ));
                Ok(made)
            },
            None => Err(PairingError::InvalidMessage),
        }
    }

    /// Verifies the inviter's final key confirmation.
    pub fn finish(self, acknowledgement: &Acknowledgement) -> (peer: Result<PairedPeer, PairingError>)
        ensures
            if confirmation_of(self@.peer.session_key, inviter_role(), self@.transcript)
                == acknowledgement.confirmation@ {
                peer matches Ok(peer) && peer@ == self@.peer
            } else {
                refused(peer) == Some(PairingError::ConfirmationFailed)
            },
    {
        let expected = confirmation(&self.session_key, "inviter", self.transcript.as_slice());
        if !same_bytes(expected.as_slice(), acknowledgement.confirmation.as_slice()) {
            return Err(PairingError::ConfirmationFailed);
        }
        Ok(
            PairedPeer {
                public_key: self.peer,
                transport_binding: self.peer_binding,
                context: self.peer_context,
                session_key: self.session_key,
            },
        )
    }
}

/// Two devices that share a secret pair: the inviter accepts the joiner's
/// answer, both hold the same session key, each holds the other's key, binding
/// and context, and the joiner accepts the inviter's acknowledgement.
pub proof fn law_shared_secret_pairs(
    secret: Seq<u8>,
    public: Seq<u8>,
    transport_binding: Seq<u8>,
    context: Seq<u8>,
    offer: OfferView,
    pake_message: Seq<u8>,
    shared: Seq<u8>,
    joiner: JoinerView,
    answer: AnswerView,
    finished: Result<(PairedPeer, Acknowledgement), PairingError>,
)
    requires
        joins(
            secret,
            public,
            transport_binding,
            context,
            offer,
            pake_message,
            shared,
            joiner,
            answer,
        ),
        completes(offer, answer, shared, finished),
    ensures
        finished is Ok,
        ({
            let (peer, acknowledgement) = finished->Ok_0;
            &&& peer@.session_key == joiner.peer.session_key
            &&& peer@.public_key == public
            &&& peer@.transport_binding == transport_binding
            &&& peer@.context == context
            &&& joiner.peer.public_key == offer.public_key
            &&& joiner.peer.transport_binding == offer.transport_binding
            &&& joiner.peer.context == offer.context
            &&& acknowledgement.confirmation@ == confirmation_of(
                joiner.peer.session_key,
                inviter_role(),
                joiner.transcript,
            )
        }),
{
    let silent = AnswerView {
        public_key: public,
        transport_binding,
        context,
        pake_message,
        confirmation: Seq::empty(),
        signature: Seq::empty(),
    };
    assert(transcript_parts(offer, answer) =~= transcript_parts(offer, silent));
}

/// Two devices that use the same code pair: where a joiner has answered an
/// inviter's offer with the code of the invitation, its signature is accepted
/// and nothing has expired, the inviter completes, and both hold the same
/// session key.
pub proof fn law_same_code_pairs(
    inviting: Exchange,
    joining: Exchange,
    code: Seq<char>,
    secret: Seq<u8>,
    public: Seq<u8>,
    transport_binding: Seq<u8>,
    context: Seq<u8>,
    offer: OfferView,
    joiner: JoinerView,
    answer: AnswerView,
    shared: Seq<u8>,
    finished: Result<(PairedPeer, Acknowledgement), PairingError>,
)
    requires
        runs_for(inviting, code, offer.invitation_id),
        offer.pake_message == exchange_message(inviting),
        joins_with(
            joining,
            code,
            secret,
            public,
            transport_binding,
            context,
            offer,
            joiner,
            answer,
        ),
        exchange_shared(inviting, answer.pake_message) == Some(shared),
        exchange_shared(joining, exchange_message(inviting)) == Some(shared),
        completes(offer, answer, shared, finished),
    ensures
        exchanges_agree(inviting, joining),
        answer.pake_message == exchange_message(joining),
        finished is Ok,
        finished->Ok_0.0@.session_key == joiner.peer.session_key,
        finished->Ok_0.0@.public_key == public,
        finished->Ok_0.1.confirmation@ == confirmation_of(
            joiner.peer.session_key,
            inviter_role(),
            joiner.transcript,
        ),
{
    law_shared_secret_pairs(
        secret,
        public,
        transport_binding,
        context,
        offer,
        answer.pake_message,
        shared,
        joiner,
        answer,
        finished,
    );
}

/// The transcript binds everything that both sides have said: two exchanges
/// with the same transcript agree on every field that either side sent before
/// the joiner's confirmation.
pub proof fn law_transcript_binds_both_sides(
    first_offer: OfferView,
    first_answer: AnswerView,
    second_offer: OfferView,
    second_answer: AnswerView,
)
    requires
        framed(transcript_parts(first_offer, first_answer)) == framed(
            transcript_parts(second_offer, second_answer),
        ),
        forall|i: int|
            0 <= i < 14 ==> (#[trigger] transcript_parts(first_offer, first_answer)[i]).len()
                <= u64::MAX,
        forall|i: int|
            0 <= i < 14 ==> (#[trigger] transcript_parts(second_offer, second_answer)[i]).len()
                <= u64::MAX,
    ensures
        first_offer == second_offer,
        first_answer.public_key == second_answer.public_key,
        first_answer.transport_binding == second_answer.transport_binding,
        first_answer.context == second_answer.context,
        first_answer.pake_message == second_answer.pake_message,
{
    let first = transcript_parts(first_offer, first_answer);
    let second = transcript_parts(second_offer, second_answer);
    crate::bytes::law_framing_is_injective(first, second);
    assert(first[2] == second[2]);
    assert(seq![first_offer.version][0] == seq![second_offer.version][0]);
    assert(first[3] == second[3]);
    assert(first[4] == second[4]);
    crate::bytes::lemma_be_u64(first_offer.expires_at);
    crate::bytes::lemma_be_u64(second_offer.expires_at);
    assert(first[5] == second[5]);
    assert(first[6] == second[6]);
    assert(first[7] == second[7]);
    assert(first[8] == second[8]);
    assert(first[9] == second[9]);
    assert(first[10] == second[10]);
    assert(first[11] == second[11]);
    assert(first[12] == second[12]);
    assert(first[13] == second[13]);
}

/// A pairing offer is acceptable exactly where it has the current version and a
/// key exchange message, its transport binding has between 1 and 4096 bytes and
/// its context at most 4096, and it has not run out.
pub proof fn law_offer_is_accepted_exactly(offer: OfferView, now: u64)
    ensures
        ({
            let formed = offer.version == 1 && offer.pake_message.len() > 0 && 1
                <= offer.transport_binding.len() <= 4096 && offer.context.len() <= 4096;
            &&& offer_refusal(offer, now) is None <==> formed && now <= offer.expires_at
            &&& offer_refusal(offer, now) == Some(PairingError::Expired) <==> formed && now
                > offer.expires_at
            &&& offer_refusal(offer, now) == Some(PairingError::InvalidMessage) <==> !formed
        }),
{
}

/// An offer is joined exactly where both sides' bindings and contexts are within
/// their bounds, the offer is acceptable, its device signed it, and its key
/// exchange message is one of a symmetric exchange.
pub proof fn law_offer_is_joined_exactly(
    transport_binding: Seq<u8>,
    context: Seq<u8>,
    offer: OfferView,
    now: u64,
)
    ensures
        join_refusal(transport_binding, context, offer, now) is None <==> {
            &&& 1 <= transport_binding.len() <= 4096
            &&& context.len() <= 4096
            &&& offer_refusal(offer, now) is None
            &&& ed25519_point(offer.public_key)
            &&& offer.signature.len() == 64
            &&& ed25519_verifies(offer.public_key, framed(offer_parts(offer)), offer.signature)
            &&& offer.pake_message.len() == 33
            &&& offer.pake_message[0] == 0x53
        },
{
}

/// An answer is acceptable exactly where the offer still is, the answering
/// device signed it for that offer, and its key exchange message is one of a
/// symmetric exchange.
pub proof fn law_answer_is_accepted_exactly(offer: OfferView, answer: AnswerView, now: u64)
    ensures
        answer_refusal(offer, answer, now) is None <==> {
            &&& offer_refusal(offer, now) is None
            &&& ed25519_point(answer.public_key)
            &&& answer.signature.len() == 64
            &&& ed25519_verifies(
                answer.public_key,
                framed(answer_parts(offer, answer)),
                answer.signature,
            )
            &&& answer.pake_message.len() == 33
            &&& answer.pake_message[0] == 0x53
        },
        now > offer.expires_at ==> answer_refusal(offer, answer, now) is Some,
{
}

/// An offer lasts for its lifetime from now, or to the end of time.
pub proof fn law_offer_lasts_for_its_lifetime(now: u64, lifetime: u64)
    ensures
        now + lifetime <= u64::MAX ==> expiry(now, lifetime) == now + lifetime,
        now + lifetime > u64::MAX ==> expiry(now, lifetime) == u64::MAX,
{
}

/// A signed offer says what was offered.
pub proof fn law_offer_says_what_was_offered(
    secret: Seq<u8>,
    public: Seq<u8>,
    invitation_id: Seq<u8>,
    expires_at: u64,
    transport_binding: Seq<u8>,
    context: Seq<u8>,
    pake_message: Seq<u8>,
)
    ensures
        ({
            let offer = offered(
                secret,
                public,
                invitation_id,
                expires_at,
                transport_binding,
                context,
                pake_message,
            );
            &&& offer.version == 1
            &&& offer.invitation_id == invitation_id
            &&& offer.expires_at == expires_at
            &&& offer.public_key == public
            &&& offer.transport_binding == transport_binding
            &&& offer.context == context
            &&& offer.pake_message == pake_message
            &&& offer.signature == ed25519_signature(secret, framed(offer_parts(offer)))
        }),
{
    let offer = offered(
        secret,
        public,
        invitation_id,
        expires_at,
        transport_binding,
        context,
        pake_message,
    );
    let unsigned = OfferView { signature: Seq::empty(), ..offer };
    assert(offer_parts(offer) =~= offer_parts(unsigned));
}

/// The two sides confirm in different words, so that neither can send back what
/// it received.
pub proof fn law_sides_confirm_differently(transcript: Seq<u8>)
    ensures
        protocol() + joiner_role() + transcript != protocol() + inviter_role() + transcript,
{
    reveal_strlit("joiner");
    reveal_strlit("inviter");
    vstd::utf8::is_ascii_chars_encode_utf8("joiner"@);
    vstd::utf8::is_ascii_chars_encode_utf8("inviter"@);
    let at = protocol().len() as int;
    assert((protocol() + joiner_role() + transcript)[at] == joiner_role()[0]);
    assert((protocol() + inviter_role() + transcript)[at] == inviter_role()[0]);
}

/// A pairing completes for the inviter exactly where the joiner's confirmation
/// is that of the shared key over what both sides said; the peer is then the
/// one that answered.
pub proof fn law_pairing_completes_exactly(
    offer: OfferView,
    answer: AnswerView,
    shared: Seq<u8>,
    finished: Result<(PairedPeer, Acknowledgement), PairingError>,
)
    requires
        completes(offer, answer, shared, finished),
    ensures
        ({
            let transcript = framed(transcript_parts(offer, answer));
            let key = session_key_of(shared, transcript);
            let confirmed = answer.confirmation == blake3_keyed(
                key,
                protocol() + joiner_role() + transcript,
            );
            &&& finished is Ok <==> confirmed
            &&& !confirmed ==> refused(finished) == Some(PairingError::ConfirmationFailed)
            &&& finished matches Ok((peer, acknowledgement)) ==> {
                &&& peer@.public_key == answer.public_key
                &&& peer@.transport_binding == answer.transport_binding
                &&& peer@.context == answer.context
                &&& peer@.session_key == key
                &&& acknowledgement.confirmation@ == blake3_keyed(
                    key,
                    protocol() + inviter_role() + transcript,
                )
            }
        }),
{
}

/// A code is made of digits and capital letters, without the letters that are
/// taken for others.
pub proof fn law_code_alphabet_is_unambiguous(byte: u8)
    ensures
        is_code_byte(byte) <==> 48 <= byte <= 57 || (65 <= byte <= 90 && byte != 73 && byte != 76
            && byte != 79 && byte != 85),
{
    reveal_strlit("0123456789ABCDEFGHJKMNPQRSTVWXYZ");
    assert(code_alphabet()[0] as u8 == 48);
    assert(code_alphabet()[1] as u8 == 49);
    assert(code_alphabet()[2] as u8 == 50);
    assert(code_alphabet()[3] as u8 == 51);
    assert(code_alphabet()[4] as u8 == 52);
    assert(code_alphabet()[5] as u8 == 53);
    assert(code_alphabet()[6] as u8 == 54);
    assert(code_alphabet()[7] as u8 == 55);
    assert(code_alphabet()[8] as u8 == 56);
    assert(code_alphabet()[9] as u8 == 57);
    assert(code_alphabet()[10] as u8 == 65);
    assert(code_alphabet()[11] as u8 == 66);
    assert(code_alphabet()[12] as u8 == 67);
    assert(code_alphabet()[13] as u8 == 68);
    assert(code_alphabet()[14] as u8 == 69);
    assert(code_alphabet()[15] as u8 == 70);
    assert(code_alphabet()[16] as u8 == 71);
    assert(code_alphabet()[17] as u8 == 72);
    assert(code_alphabet()[18] as u8 == 74);
    assert(code_alphabet()[19] as u8 == 75);
    assert(code_alphabet()[20] as u8 == 77);
    assert(code_alphabet()[21] as u8 == 78);
    assert(code_alphabet()[22] as u8 == 80);
    assert(code_alphabet()[23] as u8 == 81);
    assert(code_alphabet()[24] as u8 == 82);
    assert(code_alphabet()[25] as u8 == 83);
    assert(code_alphabet()[26] as u8 == 84);
    assert(code_alphabet()[27] as u8 == 86);
    assert(code_alphabet()[28] as u8 == 87);
    assert(code_alphabet()[29] as u8 == 88);
    assert(code_alphabet()[30] as u8 == 89);
    assert(code_alphabet()[31] as u8 == 90);
    if is_code_byte(byte) {
        let j = choose|j: int| 0 <= j < 32 && #[trigger] code_alphabet()[j] as u8 == byte;
        assert(j == 0 ==> byte == 48);
        assert(j == 1 ==> byte == 49);
        assert(j == 2 ==> byte == 50);
        assert(j == 3 ==> byte == 51);
        assert(j == 4 ==> byte == 52);
        assert(j == 5 ==> byte == 53);
        assert(j == 6 ==> byte == 54);
        assert(j == 7 ==> byte == 55);
        assert(j == 8 ==> byte == 56);
        assert(j == 9 ==> byte == 57);
        assert(j == 10 ==> byte == 65);
        assert(j == 11 ==> byte == 66);
        assert(j == 12 ==> byte == 67);
        assert(j == 13 ==> byte == 68);
        assert(j == 14 ==> byte == 69);
        assert(j == 15 ==> byte == 70);
        assert(j == 16 ==> byte == 71);
        assert(j == 17 ==> byte == 72);
        assert(j == 18 ==> byte == 74);
        assert(j == 19 ==> byte == 75);
        assert(j == 20 ==> byte == 77);
        assert(j == 21 ==> byte == 78);
        assert(j == 22 ==> byte == 80);
        assert(j == 23 ==> byte == 81);
        assert(j == 24 ==> byte == 82);
        assert(j == 25 ==> byte == 83);
        assert(j == 26 ==> byte == 84);
        assert(j == 27 ==> byte == 86);
        assert(j == 28 ==> byte == 87);
        assert(j == 29 ==> byte == 88);
        assert(j == 30 ==> byte == 89);
        assert(j == 31 ==> byte == 90);
    }
}

/// Reading a code leaves out spaces and hyphens, takes small letters as capital
/// ones, and keeps everything else in order.
pub proof fn law_code_is_read_without_spacing_and_case(
    first: Seq<char>,
    second: Seq<char>,
    character: char,
)
    ensures
        folded(Seq::empty()) == Seq::<char>::empty(),
        folded(first + second) == folded(first) + folded(second),
        folded(seq![character]) == if character == ' ' || character == '-' {
            Seq::empty()
        } else if 'a' <= character <= 'z' {
            seq![((character as int) - 32) as char]
        } else {
            seq![character]
        },
{
    reveal(Seq::filter);
    assert(folded(Seq::empty()) =~= Seq::<char>::empty());
    Seq::filter_distributes_over_add(first, second, significant());
    assert(folded(first + second) =~= folded(first) + folded(second));
    let one = seq![character];
    assert(one.drop_last() =~= Seq::<char>::empty());
    assert(one.last() == character);
    assert(one.drop_last().filter(significant()) =~= Seq::<char>::empty());
    if significant()(character) {
        assert(one.filter(significant()) =~= one);
    } else {
        assert(one.filter(significant()) =~= Seq::<char>::empty());
    }
    assert(folded(one) =~= if character == ' ' || character == '-' {
        Seq::empty()
    } else if 'a' <= character <= 'z' {
        seq![((character as int) - 32) as char]
    } else {
        seq![character]
    });
}

/// A drawn code has one character for each byte, the one that the byte counts to
/// in the alphabet.
pub proof fn law_drawn_code_counts_in_the_alphabet(bytes: Seq<u8>, i: int)
    requires
        0 <= i < bytes.len(),
    ensures
        drawn_code(bytes).len() == bytes.len(),
        drawn_code(bytes)[i] == "0123456789ABCDEFGHJKMNPQRSTVWXYZ"@[bytes[i] as int % 32],
{
}

/// A code is shown in two groups of four.
pub proof fn law_code_is_shown_in_two_groups(code: Seq<char>)
    requires
        code.len() == 8,
    ensures
        rendered(code).len() == 9,
        rendered(code)[4] == '-',
        rendered(code).take(4) == code.take(4),
        rendered(code).skip(5) == code.skip(4),
{
    reveal_strlit("-");
    assert(rendered(code).take(4) =~= code.take(4));
    assert(rendered(code).skip(5) =~= code.skip(4));
}

/// Each invitation has a key exchange of its own.
pub proof fn law_exchange_is_of_one_invitation(first: Seq<u8>, second: Seq<u8>)
    requires
        exchange_identity(first) == exchange_identity(second),
    ensures
        first == second,
{
    let at = (protocol() + encode_utf8("/spake2/"@)).len() as int;
    assert(exchange_identity(first).skip(at) =~= first);
    assert(exchange_identity(second).skip(at) =~= second);
}

/// An answer says who answers, over which transport and with what context, and
/// the joiner takes the inviter for its peer.
pub proof fn law_answer_says_who_answers(
    secret: Seq<u8>,
    public: Seq<u8>,
    transport_binding: Seq<u8>,
    context: Seq<u8>,
    offer: OfferView,
    pake_message: Seq<u8>,
    shared: Seq<u8>,
)
    ensures
        ({
            let answer = answered(
                secret,
                public,
                transport_binding,
                context,
                offer,
                pake_message,
                shared,
            );
            let joiner = joined(offer, answer, shared);
            &&& answer.public_key == public
            &&& answer.transport_binding == transport_binding
            &&& answer.context == context
            &&& answer.pake_message == pake_message
            &&& joiner.peer.public_key == offer.public_key
            &&& joiner.peer.transport_binding == offer.transport_binding
            &&& joiner.peer.context == offer.context
            &&& joiner.transcript == framed(transcript_parts(offer, answer))
            &&& joiner.peer.session_key == session_key_of(shared, joiner.transcript)
        }),
{
}

} // verus!
