//! Addresses: `host:port` text and the binary forms it takes on the wire.
//!
//! Both tunnels carry an address as a type byte followed by a fixed-size IP
//! address or a length-prefixed name, and a port. They differ in the type
//! bytes alone.
use crate::text;
use crate::wire;
use vstd::prelude::*;
use vstd::slice::slice_subrange;
use vstd::utf8::*;

verus! {

/// A host that is written as an IP address.
#[derive(Debug, Clone, Copy, PartialEq, Eq)]
pub enum IpLiteral {
    V4([u8; 4]),
    V6([u8; 16]),
}

/// An address read from the wire.
#[derive(Debug, Clone, PartialEq, Eq)]
pub enum Address {
    /// No address was given.
    Unset,
    V4([u8; 4], u16),
    V6([u8; 16], u16),
    Domain(String, u16),
}

/// What an [`Address`] stands for.
pub enum AddressView {
    Unset,
    V4(Seq<u8>, u16),
    V6(Seq<u8>, u16),
    Domain(Seq<char>, u16),
}

impl View for Address {
    type V = AddressView;

    open spec fn view(&self) -> AddressView {
        match self {
            Address::Unset => AddressView::Unset,
            Address::V4(ip, port) => AddressView::V4(ip@, *port),
            Address::V6(ip, port) => AddressView::V6(ip@, *port),
            Address::Domain(host, port) => AddressView::Domain(host@, *port),
        }
    }
}

/// The type bytes of a protocol's addresses.
#[derive(Debug, Clone, Copy, PartialEq, Eq, Structural)]
pub struct AddrCodes {
    pub none: u8,
    pub v4: u8,
    pub v6: u8,
    pub domain: u8,
}

impl AddrCodes {
    /// Whether the four type bytes can be told apart.
    pub open spec fn distinct(self) -> bool {
        &&& self.none != self.v4
        &&& self.none != self.v6
        &&& self.none != self.domain
        &&& self.v4 != self.v6
        &&& self.v4 != self.domain
        &&& self.v6 != self.domain
    }
}

/// The longest name that fits behind its one-byte length.
pub const MAX_NAME_LEN: usize = 255;

/// The host and the port of a `host:port` text, split at the last colon. A
/// text without a colon, or with something else than a 16-bit number behind
/// it, has neither.
pub open spec fn host_port(addr: Seq<char>) -> Option<(Seq<char>, u16)> {
    match text::rsplit_once(addr, ':') {
        None => None,
        Some((host, port)) => match text::number(port, 0xFFFF) {
            Ok(n) => Some((host, n as u16)),
            Err(_) => None,
        },
    }
}

/// The address that `addr` names, given what its host reads as when taken for
/// an IP address. A host name too long for its length byte counts as unset.
pub open spec fn named_address(addr: Seq<char>, ip: Option<IpLiteral>) -> AddressView {
    match host_port(addr) {
        None => AddressView::Unset,
        Some((host, port)) => match ip {
            Some(IpLiteral::V4(o)) => AddressView::V4(o@, port),
            Some(IpLiteral::V6(o)) => AddressView::V6(o@, port),
            None => if encode_utf8(host).len() > MAX_NAME_LEN {
                AddressView::Unset
            } else {
                AddressView::Domain(host, port)
            },
        },
    }
}

/// The bytes of an address.
pub open spec fn address_bytes(codes: AddrCodes, a: AddressView) -> Seq<u8> {
    match a {
        AddressView::Unset => seq![codes.none],
        AddressView::V4(ip, port) => seq![codes.v4] + ip + wire::be16(port),
        AddressView::V6(ip, port) => seq![codes.v6] + ip + wire::be16(port),
        AddressView::Domain(host, port) => seq![codes.domain, encode_utf8(host).len() as u8]
            + encode_utf8(host) + wire::be16(port),
    }
}

/// The address at the start of `data` and how many bytes it takes up.
pub open spec fn address_at(codes: AddrCodes, data: Seq<u8>) -> Option<(AddressView, nat)> {
    if data.len() == 0 {
        None
    } else if data[0] == codes.none {
        Some((AddressView::Unset, 1))
    } else if data[0] == codes.v4 {
        if data.len() < 7 {
            None
        } else {
            Some((AddressView::V4(data.subrange(1, 5), wire::u16_at(data, 5)), 7))
        }
    } else if data[0] == codes.v6 {
        if data.len() < 19 {
            None
        } else {
            Some((AddressView::V6(data.subrange(1, 17), wire::u16_at(data, 17)), 19))
        }
    } else if data[0] == codes.domain {
        if data.len() < 2 {
            None
        } else {
            let n = data[1] as int;
            if data.len() < 2 + n + 2 {
                None
            } else {
                Some(
                    (
                        AddressView::Domain(
                            text::lossy(data.subrange(2, 2 + n)),
                            wire::u16_at(data, 2 + n),
                        ),
                        (2 + n + 2) as nat,
                    ),
                )
            }
        }
    } else {
        None
    }
}

/// Splits `host:port` text at the last colon.
pub fn split_host_port(addr: &str) -> (r: Option<(String, u16)>)
    ensures
        match r {
            Some((host, port)) => host_port(addr@) == Some((host@, port)),
            None => host_port(addr@) is None,
        },
{
    let chars: Vec<char> = text::chars_of(addr);
    match text::cut_last(chars.as_slice(), ':') {
        None => None,
        Some((host, port)) => match text::parse_number(port, 0xFFFF) {
            Ok(n) => Some((text::text_of(host), n as u16)),
            Err(_) => None,
        },
    }
}

/// Encodes `host:port` text with the given type bytes. `ip` is what the host
/// reads as when taken for an IP address.
pub fn encode_addr(codes: AddrCodes, addr: &str, ip: Option<IpLiteral>) -> (r: Vec<u8>)
    ensures
        r@ == address_bytes(codes, named_address(addr@, ip)),
{
    let mut out: Vec<u8> = Vec::new();
    let (host, port) = match split_host_port(addr) {
        Some(v) => v,
        None => {
            out.push(codes.none);
            return out;
        },
    };
    match ip {
        Some(IpLiteral::V4(o)) => {
            out.push(codes.v4);
            wire::append_bytes(&mut out, o.as_slice());
            wire::append_be16(&mut out, port);
        },
        Some(IpLiteral::V6(o)) => {
            out.push(codes.v6);
            wire::append_bytes(&mut out, o.as_slice());
            wire::append_be16(&mut out, port);
        },
        None => {
            let name: &[u8] = host.as_str().as_bytes();
            if name.len() > MAX_NAME_LEN {
                out.push(codes.none);
            } else {
                out.push(codes.domain);
                out.push(name.len() as u8);
                wire::append_bytes(&mut out, name);
                wire::append_be16(&mut out, port);
            }
        },
    }
    assert(out@ =~= address_bytes(codes, named_address(addr@, ip)));
    out
}

/// Decodes the address at the start of `data`. Returns it with the number of
/// bytes it takes up, or nothing where `data` does not start with one.
pub fn decode_addr(codes: AddrCodes, data: &[u8]) -> (r: Option<(Address, usize)>)
    ensures
        match r {
            Some((a, n)) => address_at(codes, data@) == Some((a@, n as nat)),
            None => address_at(codes, data@) is None,
        },
{
    if data.len() == 0 {
        return None;
    }
    let kind: u8 = data[0];
    if kind == codes.none {
        Some((Address::Unset, 1))
    } else if kind == codes.v4 {
        if data.len() < 7 {
            return None;
        }
        let ip: [u8; 4] = [data[1], data[2], data[3], data[4]];
        assert(ip@ =~= data@.subrange(1, 5));
        Some((Address::V4(ip, wire::read_be16(data, 5)), 7))
    } else if kind == codes.v6 {
        if data.len() < 19 {
            return None;
        }
        let ip: [u8; 16] = [
            data[1],
            data[2],
            data[3],
            data[4],
            data[5],
            data[6],
            data[7],
            data[8],
            data[9],
            data[10],
            data[11],
            data[12],
            data[13],
            data[14],
            data[15],
            data[16],
        ];
        assert(ip@ =~= data@.subrange(1, 17));
        Some((Address::V6(ip, wire::read_be16(data, 17)), 19))
    } else if kind == codes.domain {
        if data.len() < 2 {
            return None;
        }
        let n: usize = data[1] as usize;
        if data.len() < 2 + n + 2 {
            return None;
        }
        let host: String = text::lossy_text(slice_subrange(data, 2, 2 + n));
        Some((Address::Domain(host, wire::read_be16(data, 2 + n)), 2 + n + 2))
    } else {
        None
    }
}

/// An encoded address decodes to what it was made of, and its length, whatever
/// follows it.
pub proof fn law_address_round_trip(
    codes: AddrCodes,
    addr: Seq<char>,
    ip: Option<IpLiteral>,
    rest: Seq<u8>,
)
    requires
        codes.distinct(),
    ensures
        ({
            let a = named_address(addr, ip);
            let bytes = address_bytes(codes, a);
            address_at(codes, bytes + rest) == Some((a, bytes.len()))
        }),
{
    let a = named_address(addr, ip);
    let bytes = address_bytes(codes, a);
    let data = bytes + rest;
    match a {
        AddressView::Unset => {},
        AddressView::V4(o, port) => {
            assert(data.subrange(1, 5) =~= o);
            assert(data.subrange(5, 7) =~= wire::be16(port));
            wire::lemma_be16_at(data, 5, port);
        },
        AddressView::V6(o, port) => {
            assert(data.subrange(1, 17) =~= o);
            assert(data.subrange(17, 19) =~= wire::be16(port));
            wire::lemma_be16_at(data, 17, port);
        },
        AddressView::Domain(host, port) => {
            let name = encode_utf8(host);
            let n = name.len() as int;
            assert(data[1] == n);
            assert(data.subrange(2, 2 + n) =~= name);
            assert(data.subrange(2 + n, 4 + n) =~= wire::be16(port));
            wire::lemma_be16_at(data, 2 + n, port);
            encode_utf8_valid_utf8(host);
            encode_utf8_decode_utf8(host);
        },
    }
}

/// A decoded address never takes up more bytes than there are, and at least
/// one; the bytes behind it do not matter.
pub proof fn law_address_is_prefix(codes: AddrCodes, data: Seq<u8>, rest: Seq<u8>)
    ensures
        address_at(codes, data) matches Some((a, n)) ==> 1 <= n <= data.len() && address_at(
            codes,
            data.take(n as int) + rest,
        ) == Some((a, n)),
{
    if let Some((a, n)) = address_at(codes, data) {
        let other = data.take(n as int) + rest;
        assert(other[0] == data[0]);
        if data[0] == codes.none {
        } else if data[0] == codes.v4 {
            assert(other.subrange(1, 5) =~= data.subrange(1, 5));
            assert(other[5] == data[5] && other[6] == data[6]);
        } else if data[0] == codes.v6 {
            assert(other.subrange(1, 17) =~= data.subrange(1, 17));
            assert(other[17] == data[17] && other[18] == data[18]);
        } else {
            let len = data[1] as int;
            assert(other[1] == data[1]);
            assert(other.subrange(2, 2 + len) =~= data.subrange(2, 2 + len));
            assert(other[2 + len] == data[2 + len] && other[3 + len] == data[3 + len]);
        }
    }
}

/// An address text names the host in front of its last colon and the port
/// behind it. One without a colon, or with anything but a number up to 65535
/// behind it, names nothing.
pub proof fn law_host_port(text: Seq<char>, host: Seq<char>, port: Seq<char>)
    ensures
        !text.contains(':') ==> host_port(text) is None,
        !port.contains(':') ==> (match text::number(port, 65535) {
            Ok(n) => host_port(host + seq![':'] + port) == Some((host, n as u16)),
            Err(_) => host_port(host + seq![':'] + port) is None,
        }),
{
    text::law_rsplit_once(text, ':', host, port);
}

/// What an address text stands for on the wire: its IP address where the host
/// is one, else its name; and the port. A text that names no host and port, or
/// a name of more than 255 bytes, stands for no address.
pub proof fn law_named_address(addr: Seq<char>, ip: Option<IpLiteral>)
    ensures
        host_port(addr) is None ==> named_address(addr, ip) == AddressView::Unset,
        host_port(addr) matches Some((host, port)) ==> {
            &&& ip matches Some(IpLiteral::V4(o)) ==> named_address(addr, ip) == AddressView::V4(
                o@,
                port,
            )
            &&& ip matches Some(IpLiteral::V6(o)) ==> named_address(addr, ip) == AddressView::V6(
                o@,
                port,
            )
            &&& ip is None && encode_utf8(host).len() <= 255 ==> named_address(addr, ip)
                == AddressView::Domain(host, port)
            &&& ip is None && encode_utf8(host).len() > 255 ==> named_address(addr, ip)
                == AddressView::Unset
        },
{
}

/// The bytes of an address: its type, then four or sixteen bytes, or the length
/// of the name and the name; then the port, with its high byte first.
pub proof fn law_address_layout(codes: AddrCodes, ip: Seq<u8>, name: Seq<char>, port: u16)
    ensures
        address_bytes(codes, AddressView::Unset) == seq![codes.none],
        address_bytes(codes, AddressView::V4(ip, port)) == seq![codes.v4] + ip + seq![
            (port / 256) as u8,
            (port % 256) as u8,
        ],
        address_bytes(codes, AddressView::V6(ip, port)) == seq![codes.v6] + ip + seq![
            (port / 256) as u8,
            (port % 256) as u8,
        ],
        encode_utf8(name).len() <= 255 ==> address_bytes(codes, AddressView::Domain(name, port))
            == seq![codes.domain, encode_utf8(name).len() as u8] + encode_utf8(name) + seq![
            (port / 256) as u8,
            (port % 256) as u8,
        ],
{
}

/// What is no address is not read as one: nothing at all, an unknown type, or
/// bytes that end before the address does.
pub proof fn law_no_address_is_refused(codes: AddrCodes, data: Seq<u8>)
    requires
        codes.distinct(),
    ensures
        data.len() == 0 ==> address_at(codes, data) is None,
        data.len() > 0 && data[0] != codes.none && data[0] != codes.v4 && data[0] != codes.v6
            && data[0] != codes.domain ==> address_at(codes, data) is None,
        data.len() > 0 && data[0] == codes.none ==> address_at(codes, data) == Some(
            (AddressView::Unset, 1nat),
        ),
        data.len() > 0 && data[0] == codes.v4 ==> (address_at(codes, data) is Some <==> data.len()
            >= 7),
        data.len() > 0 && data[0] == codes.v6 ==> (address_at(codes, data) is Some <==> data.len()
            >= 19),
        data.len() > 0 && data[0] == codes.domain ==> (address_at(codes, data) is Some
            <==> data.len() >= 2 && data.len() >= 4 + data[1]),
{
}

/// What an address on the wire says: four or sixteen bytes, or a name of as
/// many bytes as its length says, and the port behind them with its high byte
/// first.
pub proof fn law_address_values(codes: AddrCodes, data: Seq<u8>)
    requires
        codes.distinct(),
        data.len() > 0,
    ensures
        data[0] == codes.v4 && data.len() >= 7 ==> (address_at(codes, data) matches Some((a, n))
            && n == 7 && (a matches AddressView::V4(ip, port) && ip == data.subrange(1, 5) && port
            == data[5] * 256 + data[6])),
        data[0] == codes.v6 && data.len() >= 19 ==> (address_at(codes, data) matches Some((a, n))
            && n == 19 && (a matches AddressView::V6(ip, port) && ip == data.subrange(1, 17)
            && port == data[17] * 256 + data[18])),
        data[0] == codes.domain && data.len() >= 2 && data.len() >= 4 + data[1] ==> (address_at(
            codes,
            data,
        ) matches Some((a, n)) && n == 4 + data[1] && (a matches AddressView::Domain(host, port)
            && host == text::lossy(data.subrange(2, 2 + data[1] as int)) && port == data[2
            + data[1]] * 256 + data[3 + data[1]])),
{
}

} // verus!
