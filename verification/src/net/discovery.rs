//! Advertisements of nearby endpoints.
//!
//! Discovery says only where a device claims to be; it grants no trust.

use super::certificate::CertificatePin;
use super::error::NetError;
use crate::bytes::{hex, hex_char, hex_text};
use crate::identity::device::{device_id, DeviceId, DevicePublicKey};
use crate::ordmap::{ascending, Key, OrdMap, Rank};
use crate::text::{optional, owned, same_bytes, same_text};
use vstd::prelude::*;
use vstd::string::*;

verus! {

/// The mDNS service type of every endpoint.
pub const SERVICE_TYPE: &'static str = "_cyrene._udp.local.";

/// The version that an advertisement carries.
pub const PROTOCOL_VERSION: &'static str = "1";

/// An IP address.
#[derive(Clone, Copy, Debug, PartialEq, Eq, Structural)]
pub enum IpAddress {
    /// An IPv4 address in host order.
    V4(u32),
    /// An IPv6 address in host order.
    V6(u128),
}

impl IpAddress {
    /// Whether one address comes strictly before another: IPv4 first, then by
    /// the address.
    pub open spec fn precedes(self, other: IpAddress) -> bool {
        match (self, other) {
            (IpAddress::V4(a), IpAddress::V4(b)) => a < b,
            (IpAddress::V4(_), IpAddress::V6(_)) => true,
            (IpAddress::V6(_), IpAddress::V4(_)) => false,
            (IpAddress::V6(a), IpAddress::V6(b)) => a < b,
        }
    }

    fn is_before(self, other: IpAddress) -> (before: bool)
        ensures
            before == self.precedes(other),
    {
        match (self, other) {
            (IpAddress::V4(a), IpAddress::V4(b)) => a < b,
            (IpAddress::V4(_), IpAddress::V6(_)) => true,
            (IpAddress::V6(_), IpAddress::V4(_)) => false,
            (IpAddress::V6(a), IpAddress::V6(b)) => a < b,
        }
    }
}

/// A socket address of an endpoint.
#[derive(Clone, Copy, Debug, PartialEq, Eq, Structural)]
pub struct PeerAddress {
    /// IP address.
    pub ip: IpAddress,
    /// UDP port.
    pub port: u16,
}

impl View for PeerAddress {
    type V = PeerAddress;

    open spec fn view(&self) -> PeerAddress {
        *self
    }
}

impl Key for PeerAddress {
    open spec fn before(a: PeerAddress, b: PeerAddress) -> bool {
        a.ip.precedes(b.ip) || (a.ip == b.ip && a.port < b.port)
    }

    proof fn ordered(a: PeerAddress, b: PeerAddress, c: PeerAddress) {
    }

    fn rank(&self, other: &Self) -> (rank: Rank) {
        proof {
            assert(<PeerAddress as Key>::before(self@, other@) == (self.ip.precedes(other.ip) || (
            self.ip == other.ip && self.port < other.port)));
            assert(<PeerAddress as Key>::before(other@, self@) == (other.ip.precedes(self.ip) || (
            other.ip == self.ip && other.port < self.port)));
        }
        if self.ip.is_before(other.ip) {
            Rank::Before
        } else if other.ip.is_before(self.ip) {
            Rank::After
        } else if self.port < other.port {
            Rank::Before
        } else if other.port < self.port {
            Rank::After
        } else {
            Rank::Same
        }
    }

    fn duplicate(&self) -> (copy: Self) {
        *self
    }
}

/// One untrusted LAN advertisement resolved through mDNS.
///
/// Discovery says only where a device claims to be. Call [`Self::matches`] with
/// an already paired identity and certificate pin before connecting.
#[derive(Debug, PartialEq, Eq)]
pub struct DiscoveredPeer {
    /// Claimed device identity.
    pub device_id: DeviceId,
    /// Claimed QUIC certificate pin.
    pub certificate_pin: CertificatePin,
    /// Resolved socket addresses for the QUIC endpoint.
    pub addresses: Vec<PeerAddress>,
}

impl DiscoveredPeer {
    /// Returns whether this advertisement exactly matches durable paired trust.
    pub fn matches(&self, public_key: DevicePublicKey, certificate_pin: CertificatePin) -> (matching:
        bool)
        ensures
            matching == (self.device_id@ == device_id(public_key@) && self.certificate_pin@
                == certificate_pin@),
    {
        let id = public_key.id();
        same_bytes(self.device_id.0.as_slice(), id.0.as_slice()) && self.certificate_pin.same(
            &certificate_pin,
        )
    }
}

/// What an endpoint advertises.
#[derive(Debug, PartialEq, Eq)]
pub struct Advertisement {
    /// Service instance: the first sixteen digits of the device identity.
    pub instance: String,
    /// Host name of the instance.
    pub hostname: String,
    /// Device identity in hexadecimal.
    pub device: String,
    /// Certificate pin in hexadecimal.
    pub pin: String,
    /// UDP port.
    pub port: u16,
}

/// The reason for refusing to advertise port zero.
pub open spec fn unbound_port() -> Seq<char> {
    "cannot advertise an unbound port"@
}

/// Describes a device identity, certificate pin and QUIC port for local links.
///
/// Discovery does not grant trust. The advertised identity and pin must
/// already match a peer's durable pairing record before use.
pub fn advertisement(device: DeviceId, certificate_pin: CertificatePin, port: u16) -> (described:
    Result<Advertisement, NetError>)
    ensures
        match described {
            Ok(described) => {
                &&& port != 0
                &&& described.device@ == hex_text(device@)
                &&& described.pin@ == hex_text(certificate_pin@)
                &&& described.instance@ == hex_text(device@).take(16)
                &&& described.hostname@ == hex_text(device@).take(16) + ".local."@
                &&& described.port == port
            },
            Err(error) => port == 0 && (error matches NetError::Discovery(reason) && reason@
                == unbound_port()),
        },
{
    if port == 0 {
        return Err(NetError::Discovery(owned("cannot advertise an unbound port")));
    }
    let device_hex = encode_hex(device.0.as_slice());
    let pin_hex = encode_hex(certificate_pin.0.as_slice());
    proof {
        lemma_hex_len(device@);
    }
    let instance = owned(device_hex.as_str().substring_char(0, 16));
    let mut hostname = owned(instance.as_str());
    hostname.append(".local.");
    Ok(Advertisement { instance, hostname, device: device_hex, pin: pin_hex, port })
}

/// Writes bytes as lower-case hexadecimal text.
pub fn encode_hex(bytes: &[u8]) -> (text: String)
    ensures
        text@ == hex_text(bytes@),
{
    hex(bytes)
}

/// The value of one hexadecimal digit, upper or lower case.
pub open spec fn hex_value(digit: char) -> Option<int> {
    if '0' <= digit && digit <= '9' {
        Some(digit as int - '0' as int)
    } else if 'a' <= digit && digit <= 'f' {
        Some(digit as int - 'a' as int + 10)
    } else if 'A' <= digit && digit <= 'F' {
        Some(digit as int - 'A' as int + 10)
    } else {
        None
    }
}

/// The value of two characters: two hexadecimal digits, or a plus sign and one
/// digit.
pub open spec fn pair_value(high: char, low: char) -> Option<int> {
    match hex_value(low) {
        Some(units) => if high == '+' {
            Some(units)
        } else {
            match hex_value(high) {
                Some(sixteens) => Some(sixteens * 16 + units),
                None => None,
            }
        },
        None => None,
    }
}

/// Whether text holds the hexadecimal form of some bytes.
pub open spec fn hex_of(text: Seq<char>, bytes: Seq<u8>) -> bool {
    &&& text.len() == 2 * bytes.len()
    &&& forall|i: int|
        0 <= i < bytes.len() ==> pair_value(text[2 * i], text[2 * i + 1]) == Some(
            #[trigger] bytes[i] as int,
        )
}

pub(crate) fn digit_value(digit: char) -> (value: Option<u8>)
    ensures
        match value {
            Some(value) => hex_value(digit) == Some(value as int) && value < 16,
            None => hex_value(digit) is None,
        },
{
    let code: u32 = digit as u32;
    if code >= 48 && code <= 57 {
        Some((code - 48) as u8)
    } else if code >= 97 && code <= 102 {
        Some((code - 87) as u8)
    } else if code >= 65 && code <= 70 {
        Some((code - 55) as u8)
    } else {
        None
    }
}

/// Reads exactly `N` bytes from hexadecimal text.
pub fn decode_hex<const N: usize>(encoded: &str) -> (decoded: Option<[u8; N]>)
    ensures
        match decoded {
            Some(bytes) => hex_of(encoded@, bytes@),
            None => forall|bytes: Seq<u8>| bytes.len() == N ==> !hex_of(encoded@, bytes),
        },
{
    let len: usize = encoded.unicode_len();
    if len % 2 != 0 || len / 2 != N {
        return None;
    }
    let mut decoded: [u8; N] = [0u8; N];
    let mut index: usize = 0;
    while index < N
        invariant
            index <= N,
            encoded@.len() == 2 * N,
            encoded@.len() <= usize::MAX,
            forall|i: int|
                0 <= i < index ==> pair_value(encoded@[2 * i], encoded@[2 * i + 1]) == Some(
                    #[trigger] decoded@[i] as int,
                ),
        decreases N - index,
    {
        let high = encoded.get_char(index * 2);
        let low = encoded.get_char(index * 2 + 1);
        let units: u8 = match digit_value(low) {
            Some(units) => units,
            None => {
                assert forall|bytes: Seq<u8>| bytes.len() == N implies !hex_of(encoded@, bytes) by {
                    let unused = bytes[index as int];
                }
                return None;
            },
        };
        if high == '+' {
            decoded[index] = units;
        } else {
            match digit_value(high) {
                Some(sixteens) => {
                    decoded[index] = sixteens * 16 + units;
                },
                None => {
                    assert forall|bytes: Seq<u8>| bytes.len() == N implies !hex_of(
                        encoded@,
                        bytes,
                    ) by {
                        let unused = bytes[index as int];
                    }
                    return None;
                },
            }
        }
        index += 1;
    }
    Some(decoded)
}

/// Copies every address with a port, without duplicates, in ascending order.
fn endpoint_addresses(addresses: &[IpAddress], port: u16) -> (endpoints: Vec<PeerAddress>)
    ensures
        endpoints_of(addresses@, port, endpoints@),
{
    let mut known: OrdMap<PeerAddress, ()> = OrdMap::new();
    let mut index: usize = 0;
    while index < addresses.len()
        invariant
            index <= addresses@.len(),
            known.wf(),
            forall|endpoint: PeerAddress| #[trigger]
                known@.contains_key(endpoint) <==> endpoint.port == port && addresses@.take(
                    index as int,
                ).contains(endpoint.ip),
        decreases addresses@.len() - index,
    {
        let ghost before = known@;
        let endpoint = PeerAddress { ip: addresses[index], port };
        let former = known.insert(endpoint, ());
        proof {
            let shorter = addresses@.take(index as int);
            let longer = addresses@.take(index + 1);
            assert(longer =~= shorter.push(addresses@[index as int]));
            assert forall|other: PeerAddress| #[trigger]
                known@.contains_key(other) <==> other.port == port && longer.contains(
                    other.ip,
                ) by {
                assert(longer[index as int] == addresses@[index as int]);
                if shorter.contains(other.ip) {
                    let i = choose|i: int| 0 <= i < shorter.len() && shorter[i] == other.ip;
                    assert(longer[i] == other.ip);
                }
                if longer.contains(other.ip) && other.ip != addresses@[index as int] {
                    let i = choose|i: int| 0 <= i < longer.len() && longer[i] == other.ip;
                    assert(shorter[i] == other.ip);
                }
            }
        }
        index += 1;
    }
    let mut endpoints: Vec<PeerAddress> = Vec::new();
    proof {
        known.lemma_keys();
        assert(addresses@.take(addresses@.len() as int) =~= addresses@);
    }
    let mut position: usize = 0;
    while position < known.len()
        invariant
            known.wf(),
            position <= known.keys().len(),
            endpoints@ =~= known.keys().take(position as int),
        decreases known.keys().len() - position,
    {
        endpoints.push(*known.key_at(position));
        position += 1;
    }
    proof {
        assert(endpoints@ =~= known.keys());
        assert forall|endpoint: PeerAddress| #[trigger]
            endpoints@.contains(endpoint) <==> endpoint.port == port && addresses@.contains(
                endpoint.ip,
            ) by {
            assert(known@.contains_key(endpoint) <==> known.keys().contains(endpoint)) by {
                if known.keys().contains(endpoint) {
                    let i = choose|i: int| 0 <= i < known.keys().len() && known.keys()[i] == endpoint;
                    assert(known@.contains_key(known.keys()[i]));
                }
            }
        }
    }
    endpoints
}

/// Whether endpoints are the addresses with a port, without duplicates, in
/// ascending order.
pub open spec fn endpoints_of(
    addresses: Seq<IpAddress>,
    port: u16,
    endpoints: Seq<PeerAddress>,
) -> bool {
    &&& ascending::<PeerAddress>(endpoints)
    &&& forall|endpoint: PeerAddress| #[trigger]
        endpoints.contains(endpoint) <==> endpoint.port == port && addresses.contains(endpoint.ip)
}

/// Whether a resolved service is a well-formed advertisement of this version.
pub open spec fn well_formed(
    version: Option<Seq<char>>,
    device: Option<Seq<char>>,
    pin: Option<Seq<char>>,
    addresses: Seq<IpAddress>,
) -> bool {
    &&& version == Some("1"@)
    &&& device matches Some(device)
    &&& pin matches Some(pin)
    &&& exists|bytes: Seq<u8>| bytes.len() == 32 && hex_of(device, bytes)
    &&& exists|bytes: Seq<u8>| bytes.len() == 32 && hex_of(pin, bytes)
    &&& addresses.len() > 0
}

/// Reads a resolved service from its properties, addresses and port.
///
/// Malformed and version-incompatible advertisements are ignored.
pub fn decode_service(
    version: Option<&str>,
    device: Option<&str>,
    pin: Option<&str>,
    addresses: &[IpAddress],
    port: u16,
) -> (peer: Option<DiscoveredPeer>)
    ensures
        match peer {
            Some(peer) => {
                &&& well_formed(optional(version), optional(device), optional(pin), addresses@)
                &&& hex_of(optional(device)->0, peer.device_id@)
                &&& hex_of(optional(pin)->0, peer.certificate_pin@)
                &&& endpoints_of(addresses@, port, peer.addresses@)
            },
            None => !well_formed(
                optional(version),
                optional(device),
                optional(pin),
                addresses@,
            ),
        },
{
    match version {
        Some(version) => {
            if !same_text(version, PROTOCOL_VERSION) {
                return None;
            }
        },
        None => {
            return None;
        },
    }
    let device_id: [u8; 32] = match device {
        Some(device) => match decode_hex::<32>(device) {
            Some(bytes) => bytes,
            None => {
                return None;
            },
        },
        None => {
            return None;
        },
    };
    assert(hex_of(optional(device)->0, device_id@));
    let certificate_pin: [u8; 32] = match pin {
        Some(pin) => match decode_hex::<32>(pin) {
            Some(bytes) => bytes,
            None => {
                return None;
            },
        },
        None => {
            return None;
        },
    };
    assert(hex_of(optional(pin)->0, certificate_pin@));
    if addresses.len() == 0 {
        return None;
    }
    Some(
        DiscoveredPeer {
            device_id: DeviceId::from_bytes(device_id),
            certificate_pin: CertificatePin::from_bytes(certificate_pin),
            addresses: endpoint_addresses(addresses, port),
        },
    )
}

pub(crate) proof fn lemma_hex_len(bytes: Seq<u8>)
    ensures
        hex_text(bytes).len() == 2 * bytes.len(),
    decreases bytes.len(),
{
    if bytes.len() > 0 {
        lemma_hex_len(bytes.drop_last());
    }
}

/// Hexadecimal text reads back as the bytes it was written from, and as no
/// others.
pub proof fn law_hex_round_trip(bytes: Seq<u8>, read: Seq<u8>)
    ensures
        hex_of(hex_text(bytes), bytes),
        hex_of(hex_text(bytes), read) ==> read == bytes,
    decreases bytes.len(),
{
    lemma_hex_len(bytes);
    if bytes.len() > 0 {
        let shorter = bytes.drop_last();
        let last = bytes.last();
        law_hex_round_trip(shorter, shorter);
        lemma_hex_len(shorter);
        let text = hex_text(bytes);
        assert forall|i: int| 0 <= i < bytes.len() implies pair_value(text[2 * i], text[2 * i + 1])
            == Some(#[trigger] bytes[i] as int) by {
            if i < shorter.len() {
                assert(shorter[i] == bytes[i]);
                assert(text[2 * i] == hex_text(shorter)[2 * i]);
                assert(text[2 * i + 1] == hex_text(shorter)[2 * i + 1]);
            } else {
                assert(text[2 * i] == hex_char(last as int / 16));
                assert(text[2 * i + 1] == hex_char(last as int % 16));
            }
        }
    }
    if hex_of(hex_text(bytes), read) {
        assert forall|i: int| 0 <= i < bytes.len() implies read[i] == bytes[i] by {
            let text = hex_text(bytes);
            assert(pair_value(text[2 * i], text[2 * i + 1]) == Some(bytes[i] as int));
            assert(pair_value(text[2 * i], text[2 * i + 1]) == Some(read[i] as int));
        }
        assert(read =~= bytes);
    }
}

/// An advertisement that a device makes is one that others read back as its
/// identity and pin.
pub proof fn law_advertisement_is_read_back(
    device: Seq<u8>,
    pin: Seq<u8>,
    addresses: Seq<IpAddress>,
)
    requires
        device.len() == 32,
        pin.len() == 32,
        addresses.len() > 0,
    ensures
        well_formed(Some("1"@), Some(hex_text(device)), Some(hex_text(pin)), addresses),
        forall|read: Seq<u8>| hex_of(hex_text(device), read) ==> read == device,
        forall|read: Seq<u8>| hex_of(hex_text(pin), read) ==> read == pin,
{
    law_hex_round_trip(device, device);
    law_hex_round_trip(pin, pin);
    assert forall|read: Seq<u8>| hex_of(hex_text(device), read) implies read == device by {
        law_hex_round_trip(device, read);
    }
    assert forall|read: Seq<u8>| hex_of(hex_text(pin), read) implies read == pin by {
        law_hex_round_trip(pin, read);
    }
}

/// A hexadecimal digit counts by its place in the alphabet, in either case, and
/// nothing else is one.
pub proof fn law_hexadecimal_digits(digit: char)
    ensures
        '0' <= digit <= '9' ==> hex_value(digit) == Some(digit as int - 48),
        'a' <= digit <= 'f' ==> hex_value(digit) == Some(digit as int - 87),
        'A' <= digit <= 'F' ==> hex_value(digit) == Some(digit as int - 55),
        hex_value(digit) is None <==> !('0' <= digit <= '9' || 'a' <= digit <= 'f' || 'A' <= digit
            <= 'F'),
{
}

/// An advertisement is read exactly where it has the first version, a device and
/// a certificate pin of 32 hexadecimal bytes each, and an address.
pub proof fn law_advertisement_is_exact(
    version: Option<Seq<char>>,
    device: Option<Seq<char>>,
    pin: Option<Seq<char>>,
    addresses: Seq<IpAddress>,
)
    ensures
        well_formed(version, device, pin, addresses) ==> version == Some("1"@) && device is Some
            && pin is Some && device->0.len() == 64 && pin->0.len() == 64 && addresses.len() > 0,
        version != Some("1"@) || device is None || pin is None || addresses.len() == 0
            ==> !well_formed(version, device, pin, addresses),
        forall|first: Seq<u8>, second: Seq<u8>|
            version == Some("1"@) && device is Some && pin is Some && addresses.len() > 0
                && first.len() == 32 && second.len() == 32 && #[trigger] hex_of(device->0, first)
                && #[trigger] hex_of(pin->0, second) ==> well_formed(
                version,
                device,
                pin,
                addresses,
            ),
{
}

/// The endpoints of an advertisement are its addresses with its port, each once
/// and in order, and no others.
pub proof fn law_endpoints_are_exact(
    addresses: Seq<IpAddress>,
    port: u16,
    endpoints: Seq<PeerAddress>,
    ip: IpAddress,
)
    requires
        endpoints_of(addresses, port, endpoints),
    ensures
        endpoints.contains((PeerAddress { ip, port })) <==> addresses.contains(ip),
        forall|i: int| 0 <= i < endpoints.len() ==> (#[trigger] endpoints[i]).port == port,
        forall|i: int, j: int|
            0 <= i < j < endpoints.len() ==> (#[trigger] endpoints[i]).ip.precedes(
                (#[trigger] endpoints[j]).ip,
            ),
{
    assert forall|i: int| 0 <= i < endpoints.len() implies (#[trigger] endpoints[i]).port
        == port by {
        assert(endpoints.contains(endpoints[i]));
    }
    assert forall|i: int, j: int| 0 <= i < j < endpoints.len() implies (
    #[trigger] endpoints[i]).ip.precedes((#[trigger] endpoints[j]).ip) by {
        assert(<PeerAddress as Key>::before(endpoints[i], endpoints[j]));
        assert(endpoints[i].port == port && endpoints[j].port == port);
    }
}

/// Addresses of the fourth version come before those of the sixth, and those of
/// one version by their numbers.
pub proof fn law_addresses_are_ordered(a: IpAddress, b: IpAddress)
    ensures
        a matches IpAddress::V4(x) ==> (b matches IpAddress::V4(y) ==> (a.precedes(b) <==> x < y)),
        a matches IpAddress::V6(x) ==> (b matches IpAddress::V6(y) ==> (a.precedes(b) <==> x < y)),
        a is V4 && b is V6 ==> a.precedes(b) && !b.precedes(a),
{
}

} // verus!
