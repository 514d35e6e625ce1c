//! Commands on the wire: packets and their fragments, dissociation and
//! heartbeats.
use crate::addr;
use crate::addr::AddrCodes;
use crate::addr::Address;
use crate::addr::IpLiteral;
use crate::wire;
use vstd::prelude::*;
use vstd::slice::slice_subrange;

verus! {

pub const TUIC_VERSION: u8 = 5;

pub const TYPE_AUTHENTICATE: u8 = 0x00;

pub const TYPE_PACKET: u8 = 0x02;

pub const TYPE_DISSOCIATE: u8 = 0x03;

pub const TYPE_HEARTBEAT: u8 = 0x04;

/// No address follows.
pub const ADDR_NONE: u8 = 0xFF;

pub const ADDR_FQDN: u8 = 0x00;

pub const ADDR_IPV4: u8 = 0x01;

pub const ADDR_IPV6: u8 = 0x02;

/// The length of a packet without its payload, when it carries no address.
pub const PACKET_HEADER_MIN: usize = 10;

/// The largest payload of a packet where the connection does not tell how
/// large a datagram may be.
pub const DEFAULT_DATAGRAM_PAYLOAD: usize = 1200;

/// The address types of packets.
pub open spec fn tuic_codes() -> AddrCodes {
    AddrCodes { none: ADDR_NONE, v4: ADDR_IPV4, v6: ADDR_IPV6, domain: ADDR_FQDN }
}

/// A packet, whole or a fragment of one.
pub struct PacketView {
    /// The association that the packet belongs to.
    pub assoc_id: u16,
    /// The packet that a fragment belongs to.
    pub pkt_id: u16,
    /// The number of fragments of the packet.
    pub frag_total: u8,
    /// Which of them this is.
    pub frag_id: u8,
    pub payload: Seq<u8>,
}

/// The bytes of a packet without an address. Its length field has 16 bits, so
/// a payload of 65536 bytes or more goes out behind a length that does not
/// describe it.
pub open spec fn packet_bytes(p: PacketView) -> Seq<u8> {
    seq![TYPE_PACKET] + wire::be16(p.assoc_id) + wire::be16(p.pkt_id) + seq![
        p.frag_total,
        p.frag_id,
    ] + wire::be16(wire::low16(p.payload.len())) + seq![ADDR_NONE] + p.payload
}

/// The packet that `data` holds. Whatever follows the payload is ignored.
pub open spec fn packet_in(data: Seq<u8>) -> Option<PacketView> {
    if data.len() < PACKET_HEADER_MIN || data[0] != TYPE_PACKET {
        None
    } else {
        let size = wire::u16_at(data, 7) as int;
        match addr::address_at(tuic_codes(), data.skip(9)) {
            None => None,
            Some((_, addr_len)) => {
                let start = 9 + addr_len as int;
                if data[5] == 0 || data[6] >= data[5] || start + size > data.len() {
                    None
                } else {
                    Some(
                        PacketView {
                            assoc_id: wire::u16_at(data, 1),
                            pkt_id: wire::u16_at(data, 3),
                            frag_total: data[5],
                            frag_id: data[6],
                            payload: data.subrange(start, start + size),
                        },
                    )
                }
            },
        }
    }
}

/// The number of fragments of a payload that is too large for one packet. The
/// field that carries it has 8 bits.
pub open spec fn fragment_count(len: nat, max: nat) -> u8 {
    (wire::piece_count(len, max) % 256) as u8
}

/// The packets that carry a payload: one where it fits, fragments where it
/// does not.
pub open spec fn packets_for(assoc_id: u16, pkt_id: u16, payload: Seq<u8>, max: nat) -> Seq<
    PacketView,
> {
    if payload.len() <= max {
        seq![PacketView { assoc_id, pkt_id, frag_total: 1, frag_id: 0, payload }]
    } else {
        let total = fragment_count(payload.len(), max);
        Seq::new(
            total as nat,
            |i: int|
                PacketView {
                    assoc_id,
                    pkt_id,
                    frag_total: total,
                    frag_id: i as u8,
                    payload: wire::piece(payload, max, i),
                },
        )
    }
}

/// Whether all packets are of the association at hand, with payloads that fit
/// the length field.
pub open spec fn sendable(packets: Seq<PacketView>, assoc_id: u16) -> bool {
    forall|k: int|
        0 <= k < packets.len() ==> (#[trigger] packets[k]).assoc_id == assoc_id
            && packets[k].payload.len() <= 0xFFFF
}

/// The bytes of packets, one byte string for each.
pub open spec fn bytes_of(packets: Seq<PacketView>) -> Seq<Seq<u8>> {
    packets.map_values(|p: PacketView| packet_bytes(p))
}

/// What a list of byte strings holds.
pub open spec fn byte_views(v: Seq<Vec<u8>>) -> Seq<Seq<u8>> {
    v.map_values(|b: Vec<u8>| b@)
}

/// The id that comes `k` after the given one. Ids come round again after the
/// last.
pub open spec fn later_id(id: u16, k: nat) -> u16 {
    ((id + k) % 0x1_0000) as u16
}

/// The ids that one side of a connection gives to its packets, one after the
/// other.
#[derive(Debug, Clone, Copy)]
pub struct PacketIds {
    /// The id of the next packet.
    pub next: u16,
}

impl PacketIds {
    /// No packet has an id yet.
    pub fn new() -> (r: PacketIds)
        ensures
            r.next == 0,
    {
        PacketIds { next: 0 }
    }

    /// The id of the next packet. Ids come round again after the last.
    pub fn take(&mut self) -> (r: u16)
        ensures
            r == old(self).next,
            final(self).next == later_id(old(self).next, 1),
    {
        let id: u16 = self.next;
        self.next = id.wrapping_add(1);
        id
    }

    /// Builds the packets that carry a payload, under the next id.
    pub fn cut(&mut self, assoc_id: u16, payload: &[u8], max_payload: usize) -> (r: Vec<Vec<u8>>)
        requires
            payload.len() > 0 ==> max_payload > 0,
        ensures
            byte_views(r@) == bytes_of(
                packets_for(assoc_id, old(self).next, payload@, max_payload as nat),
            ),
            final(self).next == later_id(old(self).next, 1),
    {
        let id: u16 = self.take();
        build_packet_maybe_fragmented(assoc_id, id, payload, max_payload)
    }
}

/// Encodes `host:port` text for a packet, or no address where `addr` has no
/// host and port. `ip` is what the host reads as when taken for an IP address.
pub fn encode_tuic_addr(addr: &str, ip: Option<IpLiteral>) -> (r: Vec<u8>)
    ensures
        r@ == addr::address_bytes(tuic_codes(), addr::named_address(addr@, ip)),
{
    addr::encode_addr(
        AddrCodes { none: ADDR_NONE, v4: ADDR_IPV4, v6: ADDR_IPV6, domain: ADDR_FQDN },
        addr,
        ip,
    )
}

/// Decodes the address at the start of `data`. Returns it with the number of
/// bytes it takes up.
pub fn decode_tuic_addr(data: &[u8]) -> (r: Option<(Address, usize)>)
    ensures
        match r {
            Some((a, n)) => addr::address_at(tuic_codes(), data@) == Some((a@, n as nat)),
            None => addr::address_at(tuic_codes(), data@) is None,
        },
{
    addr::decode_addr(
        AddrCodes { none: ADDR_NONE, v4: ADDR_IPV4, v6: ADDR_IPV6, domain: ADDR_FQDN },
        data,
    )
}

/// The largest payload of a packet, given how large a datagram may be.
pub open spec fn payload_limit(max_datagram_size: Option<usize>) -> nat {
    match max_datagram_size {
        Some(n) => if n > PACKET_HEADER_MIN {
            (n - PACKET_HEADER_MIN) as nat
        } else {
            0
        },
        None => DEFAULT_DATAGRAM_PAYLOAD as nat,
    }
}

/// The largest payload of a packet, given how large a datagram may be.
pub fn datagram_payload_limit(max_datagram_size: Option<usize>) -> (r: usize)
    ensures
        r == payload_limit(max_datagram_size),
{
    match max_datagram_size {
        Some(n) => if n > PACKET_HEADER_MIN {
            n - PACKET_HEADER_MIN
        } else {
            0
        },
        None => DEFAULT_DATAGRAM_PAYLOAD,
    }
}

/// Builds a fragment of a packet.
pub fn build_packet_fragment(
    assoc_id: u16,
    pkt_id: u16,
    frag_total: u8,
    frag_id: u8,
    payload: &[u8],
) -> (r: Vec<u8>)
    ensures
        r@ == packet_bytes(
            (PacketView { assoc_id, pkt_id, frag_total, frag_id, payload: payload@ }),
        ),
{
    let address: Vec<u8> = encode_tuic_addr("", None);
    proof {
        reveal_strlit("");
        assert(crate::text::rsplit_once(""@, ':') is None);
    }
    let mut b: Vec<u8> = Vec::new();
    b.push(TYPE_PACKET);
    wire::append_be16(&mut b, assoc_id);
    wire::append_be16(&mut b, pkt_id);
    b.push(frag_total);
    b.push(frag_id);
    wire::append_be16(&mut b, wire::length_field(payload.len()));
    wire::append_bytes(&mut b, address.as_slice());
    wire::append_bytes(&mut b, payload);
    assert(b@ =~= packet_bytes(
        (PacketView { assoc_id, pkt_id, frag_total, frag_id, payload: payload@ }),
    ));
    b
}

/// Builds a packet that is not cut up.
pub fn build_packet(assoc_id: u16, pkt_id: u16, payload: &[u8]) -> (r: Vec<u8>)
    ensures
        r@ == packet_bytes(
            (PacketView { assoc_id, pkt_id, frag_total: 1, frag_id: 0, payload: payload@ }),
        ),
{
    build_packet_fragment(assoc_id, pkt_id, 1, 0, payload)
}

/// Builds the packets that carry a payload: one where it fits into
/// `max_payload` bytes, fragments where it does not.
pub fn build_packet_maybe_fragmented(
    assoc_id: u16,
    pkt_id: u16,
    payload: &[u8],
    max_payload: usize,
) -> (r: Vec<Vec<u8>>)
    requires
        payload.len() > 0 ==> max_payload > 0,
    ensures
        byte_views(r@) == bytes_of(packets_for(assoc_id, pkt_id, payload@, max_payload as nat)),
{
    let ghost packets = packets_for(assoc_id, pkt_id, payload@, max_payload as nat);
    let ghost expected = bytes_of(packets);
    let mut out: Vec<Vec<u8>> = Vec::new();
    if payload.len() <= max_payload {
        out.push(build_packet(assoc_id, pkt_id, payload));
        assert(byte_views(out@) =~= expected);
        return out;
    }
    let pieces: usize = (payload.len() - 1) / max_payload + 1;
    let frag_total: u8 = (pieces % 256) as u8;
    let mut frag_id: u8 = 0;
    while frag_id < frag_total
        invariant
            max_payload < payload.len(),
            max_payload > 0,
            pieces == wire::piece_count(payload@.len(), max_payload as nat),
            frag_total == fragment_count(payload@.len(), max_payload as nat),
            frag_total <= pieces,
            frag_id <= frag_total,
            out.len() == frag_id,
            packets == packets_for(assoc_id, pkt_id, payload@, max_payload as nat),
            expected == bytes_of(packets),
            forall|k: int| 0 <= k < frag_id ==> (#[trigger] out@[k])@ == expected[k],
        decreases frag_total - frag_id,
    {
        proof {
            wire::lemma_piece_start(payload@.len(), max_payload as nat, frag_id as int);
        }
        let start: usize = frag_id as usize * max_payload;
        let end: usize = if payload.len() - start > max_payload {
            start + max_payload
        } else {
            payload.len()
        };
        let part: &[u8] = slice_subrange(payload, start, end);
        assert(part@ =~= wire::piece(payload@, max_payload as nat, frag_id as int));
        let built: Vec<u8> = build_packet_fragment(assoc_id, pkt_id, frag_total, frag_id, part);
        assert(packets[frag_id as int].frag_id == frag_id);
        assert(built@ == expected[frag_id as int]);
        out.push(built);
        frag_id = frag_id + 1;
    }
    assert(byte_views(out@) =~= expected);
    out
}

/// Reads a packet.
pub fn parse_packet<'a>(data: &'a [u8]) -> (r: Option<(u16, u16, u8, u8, &'a [u8])>)
    ensures
        match r {
            Some((assoc_id, pkt_id, frag_total, frag_id, payload)) => packet_in(data@) == Some(
                PacketView { assoc_id, pkt_id, frag_total, frag_id, payload: payload@ },
            ),
            None => packet_in(data@) is None,
        },
{
    if data.len() < PACKET_HEADER_MIN || data[0] != TYPE_PACKET {
        return None;
    }
    let assoc_id: u16 = wire::read_be16(data, 1);
    let pkt_id: u16 = wire::read_be16(data, 3);
    let frag_total: u8 = data[5];
    let frag_id: u8 = data[6];
    let size: usize = wire::read_be16(data, 7) as usize;
    let addr_data: &[u8] = slice_subrange(data, 9, data.len());
    assert(addr_data@ =~= data@.skip(9));
    let addr_len: usize = match decode_tuic_addr(addr_data) {
        Some((_, n)) => n,
        None => {
            return None;
        },
    };
    proof {
        addr::law_address_is_prefix(tuic_codes(), data@.skip(9), Seq::empty());
    }
    let payload_start: usize = 9 + addr_len;
    if frag_total == 0 || frag_id >= frag_total {
        return None;
    }
    if size > data.len() - payload_start {
        return None;
    }
    let payload: &'a [u8] = slice_subrange(data, payload_start, payload_start + size);
    Some((assoc_id, pkt_id, frag_total, frag_id, payload))
}

/// Builds the command that ends an association.
pub fn build_dissociate(assoc_id: u16) -> (r: Vec<u8>)
    ensures
        r@ == seq![TYPE_DISSOCIATE] + wire::be16(assoc_id),
        r@ == seq![0x03u8, (assoc_id / 256) as u8, (assoc_id % 256) as u8],
{
    let mut b: Vec<u8> = Vec::new();
    b.push(TYPE_DISSOCIATE);
    wire::append_be16(&mut b, assoc_id);
    assert(b@ =~= seq![TYPE_DISSOCIATE] + wire::be16(assoc_id));
    b
}

/// Builds a heartbeat.
pub fn build_heartbeat() -> (r: Vec<u8>)
    ensures
        r@ == seq![TYPE_HEARTBEAT],
        r@ == seq![0x04u8],
{
    let mut b: Vec<u8> = Vec::new();
    b.push(TYPE_HEARTBEAT);
    assert(b@ =~= seq![TYPE_HEARTBEAT]);
    b
}

/// The fields of a packet that stand in front of its payload.
proof fn lemma_packet_header(p: PacketView, data: Seq<u8>)
    requires
        data.len() >= PACKET_HEADER_MIN,
        data.take(10) == packet_bytes(p).take(10),
    ensures
        data[0] == TYPE_PACKET,
        wire::u16_at(data, 1) == p.assoc_id,
        wire::u16_at(data, 3) == p.pkt_id,
        data[5] == p.frag_total,
        data[6] == p.frag_id,
        wire::u16_at(data, 7) == wire::low16(p.payload.len()),
        data.skip(9)[0] == ADDR_NONE,
{
    let built = packet_bytes(p);
    assert forall|i: int| 0 <= i < 10 implies #[trigger] data[i] == built[i] by {
        assert(data.take(10)[i] == built.take(10)[i]);
    }
    assert(data.subrange(1, 3) =~= wire::be16(p.assoc_id));
    wire::lemma_be16_at(data, 1, p.assoc_id);
    assert(data.subrange(3, 5) =~= wire::be16(p.pkt_id));
    wire::lemma_be16_at(data, 3, p.pkt_id);
    assert(data.subrange(7, 9) =~= wire::be16(wire::low16(p.payload.len())));
    wire::lemma_be16_at(data, 7, wire::low16(p.payload.len()));
}

/// A packet reads back as what it was built from, whatever follows it, as long
/// as its payload fits the length field and its fragment is one of those
/// announced.
pub proof fn law_packet_round_trip(p: PacketView, rest: Seq<u8>)
    requires
        p.payload.len() <= 0xFFFF,
        p.frag_id < p.frag_total,
    ensures
        packet_in(packet_bytes(p) + rest) == Some(p),
        packet_in(packet_bytes(p)) == Some(p),
{
    let built = packet_bytes(p);
    let end = 10 + p.payload.len() as int;
    assert((built + rest).take(10) =~= built.take(10));
    lemma_packet_header(p, built + rest);
    assert((built + rest).subrange(10, end) =~= p.payload);
    lemma_packet_header(p, built);
    assert(built.subrange(10, end) =~= p.payload);
}

/// A packet that is cut off is refused, wherever it is cut off.
pub proof fn law_cut_off_packet_is_refused(p: PacketView, n: int)
    requires
        p.payload.len() <= 0xFFFF,
        0 <= n < packet_bytes(p).len(),
    ensures
        packet_in(packet_bytes(p).take(n)) is None,
{
    let data = packet_bytes(p).take(n);
    if n >= PACKET_HEADER_MIN {
        assert(data.take(10) =~= packet_bytes(p).take(10));
        lemma_packet_header(p, data);
    }
}

/// Fragments cover the payload: put together in order they are the payload,
/// none is larger than allowed, and each knows its place and their number. A
/// payload of more than 255 fragments cannot be sent.
pub proof fn law_fragments_cover_payload(
    assoc_id: u16,
    pkt_id: u16,
    payload: Seq<u8>,
    max: nat,
)
    requires
        max > 0,
        payload.len() <= 255 * max,
    ensures
        ({
            let packets = packets_for(assoc_id, pkt_id, payload, max);
            &&& 1 <= packets.len() <= 255
            &&& wire::joined(packets.map_values(|p: PacketView| p.payload)) == payload
            &&& forall|i: int|
                0 <= i < packets.len() ==> {
                    &&& (#[trigger] packets[i]).assoc_id == assoc_id
                    &&& packets[i].pkt_id == pkt_id
                    &&& packets[i].frag_total == packets.len()
                    &&& packets[i].frag_id == i
                    &&& packets[i].payload.len() <= max
                }
        }),
{
    let packets = packets_for(assoc_id, pkt_id, payload, max);
    let parts = packets.map_values(|p: PacketView| p.payload);
    if payload.len() <= max {
        reveal_with_fuel(wire::joined, 2);
        assert(parts =~= seq![payload]);
        assert(parts.skip(1) =~= Seq::<Seq<u8>>::empty());
        assert(wire::joined(parts) =~= payload);
    } else {
        let n = wire::piece_count(payload.len(), max);
        let len = payload.len();
        assert(1 <= (len - 1) / (max as int) + 1 <= 255) by (nonlinear_arith)
            requires
                max > 0,
                0 < len <= 255 * max,
        ;
        wire::law_pieces_make_whole(payload, max);
        assert(parts =~= wire::pieces(payload, max));
        assert forall|i: int| 0 <= i < packets.len() implies (#[trigger] packets[i]).payload.len()
            <= max by {
            assert(packets[i].payload == wire::pieces(payload, max)[i]);
        }
    }
}

/// Ids count on from the first, step by step.
pub proof fn law_ids_count_on(first: u16, k: nat)
    ensures
        later_id(first, 0) == first,
        later_id(later_id(first, k), 1) == later_id(first, k + 1),
        later_id(first, 1) == (if first == 65535 {
            0
        } else {
            first + 1
        }),
{
}

/// The same id is given again only after 65536 packets: where a packet gets an
/// id, none of the 65535 before it got it.
pub proof fn law_ids_differ(first: u16, j: nat, k: nat)
    requires
        j < k < j + 0x1_0000,
    ensures
        later_id(first, j) != later_id(first, k),
{
}

/// An address put into a packet reads back as what it was made of, whatever
/// follows it.
pub proof fn law_tuic_address_round_trip(addr: Seq<char>, ip: Option<IpLiteral>, rest: Seq<u8>)
    ensures
        ({
            let a = addr::named_address(addr, ip);
            let bytes = addr::address_bytes(tuic_codes(), a);
            addr::address_at(tuic_codes(), bytes + rest) == Some((a, bytes.len()))
        }),
{
    addr::law_address_round_trip(tuic_codes(), addr, ip, rest);
}

/// A payload within the limit makes a packet that fits into a datagram, and one
/// byte more would not, as long as a datagram has room for a packet at all;
/// where it has none the limit is 0.
pub proof fn law_limit_fits_datagram(size: usize, p: PacketView)
    ensures
        size >= 10 ==> (p.payload.len() <= payload_limit(Some(size)) <==> packet_bytes(p).len()
            <= size),
        size < 10 ==> payload_limit(Some(size)) == 0,
        payload_limit(None) == 1200,
{
}

/// Fragments are as large as they may be: all but the last have the largest
/// size allowed, and a payload that fits is not cut at all.
pub proof fn law_fragments_are_full(
    assoc_id: u16,
    pkt_id: u16,
    payload: Seq<u8>,
    max: nat,
    i: int,
)
    requires
        max > 0,
        payload.len() <= 255 * max,
        0 <= i < packets_for(assoc_id, pkt_id, payload, max).len(),
    ensures
        payload.len() <= max ==> packets_for(assoc_id, pkt_id, payload, max).len() == 1
            && packets_for(assoc_id, pkt_id, payload, max)[0].payload == payload,
        i < packets_for(assoc_id, pkt_id, payload, max).len() - 1 ==> packets_for(
            assoc_id,
            pkt_id,
            payload,
            max,
        )[i].payload.len() == max,
        packets_for(assoc_id, pkt_id, payload, max)[i].payload.len() > 0 || payload.len() == 0,
{
    law_fragments_cover_payload(assoc_id, pkt_id, payload, max);
    if payload.len() > max {
        let len = payload.len();
        assert(1 <= (len - 1) / (max as int) + 1 <= 255) by (nonlinear_arith)
            requires
                max > 0,
                0 < len <= 255 * max,
        ;
        wire::law_pieces_are_full(payload, max, i);
        assert(packets_for(assoc_id, pkt_id, payload, max)[i].payload == wire::pieces(
            payload,
            max,
        )[i]);
    }
}

/// A packet may carry an address of any form in front of its payload, which
/// does not matter to its reader.
pub proof fn law_address_does_not_matter(
    p: PacketView,
    addr: Seq<char>,
    ip: Option<IpLiteral>,
    rest: Seq<u8>,
)
    requires
        p.payload.len() <= 0xFFFF,
        p.frag_id < p.frag_total,
    ensures
        ({
            let a = addr::address_bytes(tuic_codes(), addr::named_address(addr, ip));
            let head = seq![TYPE_PACKET] + wire::be16(p.assoc_id) + wire::be16(p.pkt_id) + seq![
                p.frag_total,
                p.frag_id,
            ] + wire::be16(p.payload.len() as u16);
            packet_in(head + a + p.payload + rest) == Some(p)
        }),
{
    let a = addr::address_bytes(tuic_codes(), addr::named_address(addr, ip));
    let head = seq![TYPE_PACKET] + wire::be16(p.assoc_id) + wire::be16(p.pkt_id) + seq![
        p.frag_total,
        p.frag_id,
    ] + wire::be16(p.payload.len() as u16);
    let data = head + a + p.payload + rest;
    addr::law_address_round_trip(tuic_codes(), addr, ip, p.payload + rest);
    assert(data.skip(9) =~= a + (p.payload + rest));
    assert(data.subrange(1, 3) =~= wire::be16(p.assoc_id));
    wire::lemma_be16_at(data, 1, p.assoc_id);
    assert(data.subrange(3, 5) =~= wire::be16(p.pkt_id));
    wire::lemma_be16_at(data, 3, p.pkt_id);
    assert(data.subrange(7, 9) =~= wire::be16(p.payload.len() as u16));
    wire::lemma_be16_at(data, 7, p.payload.len() as u16);
    let start = 9 + a.len() as int;
    assert(a.len() >= 1);
    assert(data.subrange(start, start + p.payload.len() as int) =~= p.payload);
}

/// A packet is refused that announces no fragments, or counts itself beyond
/// those announced, or has another type.
pub proof fn law_bad_packets_are_refused(data: Seq<u8>)
    ensures
        data.len() < 10 ==> packet_in(data) is None,
        data.len() >= 10 && data[0] != 0x02 ==> packet_in(data) is None,
        data.len() >= 10 && data[5] == 0 ==> packet_in(data) is None,
        data.len() >= 10 && data[6] >= data[5] ==> packet_in(data) is None,
        packet_in(data) matches Some(p) ==> p.assoc_id == data[1] * 256 + data[2] && p.pkt_id
            == data[3] * 256 + data[4] && p.frag_total == data[5] && p.frag_id == data[6]
            && p.payload.len() == data[7] * 256 + data[8],
{
}

/// The bytes of a packet: its type, the ids of its association and of itself,
/// the number of fragments and which of them this is, the length of the
/// payload, the mark for no address, and the payload; high bytes first.
pub proof fn law_packet_layout(p: PacketView)
    requires
        p.payload.len() <= 0xFFFF,
    ensures
        ({
            let b = packet_bytes(p);
            &&& b.len() == 10 + p.payload.len()
            &&& b[0] == 0x02
            &&& b[1] * 256 + b[2] == p.assoc_id
            &&& b[3] * 256 + b[4] == p.pkt_id
            &&& b[5] == p.frag_total
            &&& b[6] == p.frag_id
            &&& b[7] * 256 + b[8] == p.payload.len()
            &&& b[9] == 0xFF
            &&& b.skip(10) == p.payload
        }),
{
    assert(packet_bytes(p).skip(10) =~= p.payload);
}

/// Packets tell addresses apart by the bytes 0xFF for none, 1 and 2 for IP
/// addresses of four and sixteen bytes, and 0 for names.
pub proof fn law_tuic_codes()
    ensures
        tuic_codes().none == 0xFF,
        tuic_codes().v4 == 1,
        tuic_codes().v6 == 2,
        tuic_codes().domain == 0,
{
}

/// A payload that fits goes out as one whole packet. One that does not is cut
/// into as many fragments as are needed, of which the field for their number
/// keeps the remainder by 256. `n` is the number of fragments needed.
pub proof fn law_fragment_number(
    assoc_id: u16,
    pkt_id: u16,
    payload: Seq<u8>,
    max: nat,
    n: nat,
)
    ensures
        payload.len() <= max ==> packets_for(assoc_id, pkt_id, payload, max) == seq![
            PacketView { assoc_id, pkt_id, frag_total: 1, frag_id: 0, payload },
        ],
        payload.len() > max > 0 && (n - 1) * max < payload.len() <= n * max ==> packets_for(
            assoc_id,
            pkt_id,
            payload,
            max,
        ).len() == n % 256,
{
    let len = payload.len();
    if len > max > 0 && (n - 1) * max < len <= n * max {
        assert((len - 1) / (max as int) == n - 1) by (nonlinear_arith)
            requires
                max > 0,
                (n - 1) * max < len <= n * max,
        ;
    }
}

/// A packet is read if and only if it is one, its address can be read, its
/// fragment is one of those announced, and all of its payload is there; the
/// payload is then what follows the address.
pub proof fn law_packet_is_read(data: Seq<u8>)
    ensures
        packet_in(data) is Some <==> data.len() >= 10 && data[0] == 0x02 && data[6] < data[5] && (
        addr::address_at(tuic_codes(), data.skip(9)) matches Some((_, n)) && 9 + n + data[7] * 256
            + data[8] <= data.len()),
        packet_in(data) matches Some(p) ==> (addr::address_at(tuic_codes(), data.skip(9))
            matches Some((_, n)) && p.payload == data.subrange(
            9 + n as int,
            9 + n as int + data[7] * 256 + data[8],
        )),
{
}

} // verus!
