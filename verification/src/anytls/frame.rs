//! Session frames: a command byte, a stream id, a length, and data.
use crate::addr;
use crate::addr::AddrCodes;
use crate::addr::Address;
use crate::addr::IpLiteral;
use crate::wire;
use vstd::prelude::*;
use vstd::slice::slice_subrange;

verus! {

/// Padding: to be skipped.
pub const CMD_WASTE: u8 = 0;

/// Opens a stream.
pub const CMD_SYN: u8 = 1;

/// Carries data of a stream.
pub const CMD_PSH: u8 = 2;

/// Ends a stream.
pub const CMD_FIN: u8 = 3;

/// The client introduces itself.
pub const CMD_SETTINGS: u8 = 4;

/// Something went wrong; the session ends.
pub const CMD_ALERT: u8 = 5;

/// The server hands out another padding scheme.
pub const CMD_UPDATE_PADDING_SCHEME: u8 = 6;

/// The answer to [`CMD_SYN`].
pub const CMD_SYNACK: u8 = 7;

/// Asks the peer for a sign of life.
pub const CMD_HEART_REQUEST: u8 = 8;

/// The answer to [`CMD_HEART_REQUEST`].
pub const CMD_HEART_RESPONSE: u8 = 9;

/// The answer to [`CMD_SETTINGS`].
pub const CMD_SERVER_SETTINGS: u8 = 10;

/// The length of a frame without its data: command, stream id and length.
pub const FRAME_HEADER_LEN: usize = 7;

/// The largest number of data bytes that the length field of a frame can
/// describe.
pub const MAX_FRAME_DATA: usize = 0xFFFF;

/// No address follows.
pub const ATYP_NONE: u8 = 0x00;

pub const ATYP_IPV4: u8 = 0x01;

pub const ATYP_DOMAIN: u8 = 0x03;

pub const ATYP_IPV6: u8 = 0x04;

/// The address types of session frames.
pub open spec fn socks_codes() -> AddrCodes {
    AddrCodes { none: ATYP_NONE, v4: ATYP_IPV4, v6: ATYP_IPV6, domain: ATYP_DOMAIN }
}

/// The header of a frame.
#[derive(Debug, Clone, Copy, PartialEq, Eq, Structural)]
pub struct FrameHeader {
    pub cmd: u8,
    pub stream_id: u32,
    /// The number of data bytes that follow.
    pub len: u16,
}

/// A frame as its reader sees it.
pub struct FrameView {
    pub cmd: u8,
    pub stream_id: u32,
    pub data: Seq<u8>,
}

/// The bytes of a frame. Its length field has 16 bits and describes up to
/// [`MAX_FRAME_DATA`] bytes; longer data is cut up first, by [`data_frames`].
pub open spec fn frame_bytes(cmd: u8, stream_id: u32, data: Seq<u8>) -> Seq<u8> {
    seq![cmd] + wire::be32(stream_id) + wire::be16(wire::low16(data.len())) + data
}

/// The header that `hdr` spells.
pub open spec fn header_of(hdr: Seq<u8>) -> FrameHeader {
    FrameHeader { cmd: hdr[0], stream_id: wire::u32_at(hdr, 1), len: wire::u16_at(hdr, 5) }
}

/// The frame at the start of `bytes` and its length, once it is there whole.
pub open spec fn frame_at(bytes: Seq<u8>) -> Option<(FrameView, nat)> {
    if bytes.len() < FRAME_HEADER_LEN {
        None
    } else {
        let h = header_of(bytes.take(7));
        if bytes.len() < 7 + h.len {
            None
        } else {
            Some(
                (
                    FrameView {
                        cmd: h.cmd,
                        stream_id: h.stream_id,
                        data: bytes.subrange(7, 7 + h.len),
                    },
                    (7 + h.len) as nat,
                ),
            )
        }
    }
}

/// The whole frames that a reader of `bytes` sees, in order.
pub open spec fn frames_in(bytes: Seq<u8>) -> Seq<FrameView>
    decreases bytes.len(),
{
    match frame_at(bytes) {
        None => Seq::empty(),
        Some((f, n)) => seq![f] + frames_in(bytes.skip(n as int)),
    }
}

/// The bytes of frames sent one after the other.
pub open spec fn frames_bytes(frames: Seq<FrameView>) -> Seq<u8>
    decreases frames.len(),
{
    if frames.len() == 0 {
        Seq::empty()
    } else {
        frame_bytes(frames[0].cmd, frames[0].stream_id, frames[0].data) + frames_bytes(
            frames.skip(1),
        )
    }
}

/// Whether the data of every frame fits its length field.
pub open spec fn all_sendable(frames: Seq<FrameView>) -> bool {
    forall|i: int| 0 <= i < frames.len() ==> (#[trigger] frames[i]).data.len() <= 0xFFFF
}

/// The pieces that stream data is cut into, so that each fits a frame.
pub open spec fn data_chunks(data: Seq<u8>) -> Seq<Seq<u8>> {
    wire::pieces(data, MAX_FRAME_DATA as nat)
}

/// The frames that carry `chunks` on a stream.
pub open spec fn chunk_frames(stream_id: u32, chunks: Seq<Seq<u8>>) -> Seq<FrameView> {
    chunks.map_values(|c: Seq<u8>| FrameView { cmd: CMD_PSH, stream_id, data: c })
}

/// The pieces of all reads from a connection, in order.
pub open spec fn read_chunks(reads: Seq<Seq<u8>>) -> Seq<Seq<u8>>
    decreases reads.len(),
{
    if reads.len() == 0 {
        Seq::empty()
    } else {
        data_chunks(reads[0]) + read_chunks(reads.skip(1))
    }
}

/// The frame that ends a stream.
pub open spec fn fin_frame(stream_id: u32) -> FrameView {
    FrameView { cmd: CMD_FIN, stream_id, data: Seq::empty() }
}

/// The frames that carry what was read from a connection, and then end the
/// stream.
pub open spec fn stream_frames(stream_id: u32, reads: Seq<Seq<u8>>) -> Seq<FrameView> {
    chunk_frames(stream_id, read_chunks(reads)).push(fin_frame(stream_id))
}

/// The frames of one stream, in order.
pub open spec fn frames_of_stream(frames: Seq<FrameView>, stream_id: u32) -> Seq<FrameView>
    decreases frames.len(),
{
    if frames.len() == 0 {
        Seq::empty()
    } else if frames[0].stream_id == stream_id {
        seq![frames[0]] + frames_of_stream(frames.skip(1), stream_id)
    } else {
        frames_of_stream(frames.skip(1), stream_id)
    }
}

/// Builds a frame.
pub fn encode_frame(cmd: u8, stream_id: u32, data: &[u8]) -> (r: Vec<u8>)
    ensures
        r@ == frame_bytes(cmd, stream_id, data@),
{
    let mut buf: Vec<u8> = Vec::new();
    buf.push(cmd);
    wire::append_be32(&mut buf, stream_id);
    wire::append_be16(&mut buf, wire::length_field(data.len()));
    wire::append_bytes(&mut buf, data);
    assert(buf@ =~= frame_bytes(cmd, stream_id, data@));
    buf
}

/// Builds the frames that carry data of any length on a stream.
pub fn data_frames(stream_id: u32, data: &[u8]) -> (r: Vec<u8>)
    ensures
        r@ == frames_bytes(
            data_chunks(data@).map_values(
                |c: Seq<u8>| FrameView { cmd: CMD_PSH, stream_id, data: c },
            ),
        ),
{
    let ghost max = MAX_FRAME_DATA as nat;
    let ghost chunks = data_chunks(data@);
    let ghost frames = chunk_frames(stream_id, chunks);
    let mut out: Vec<u8> = Vec::new();
    let mut start: usize = 0;
    let ghost mut k: int = 0;
    assert(frames.skip(0) =~= frames);
    assert(out@ + frames_bytes(frames) =~= frames_bytes(frames));
    while start < data.len()
        invariant
            max == MAX_FRAME_DATA,
            chunks == data_chunks(data@),
            frames == chunk_frames(stream_id, chunks),
            start <= data.len(),
            0 <= k <= frames.len(),
            start < data.len() ==> start == k * 0xFFFF,
            start == data.len() ==> k == frames.len(),
            out@ + frames_bytes(frames.skip(k)) == frames_bytes(frames),
        decreases data.len() - start,
    {
        let end: usize = if data.len() - start > MAX_FRAME_DATA {
            start + MAX_FRAME_DATA
        } else {
            data.len()
        };
        let part: &[u8] = slice_subrange(data, start, end);
        assert(part@ =~= wire::piece(data@, max, k));
        let built: Vec<u8> = encode_frame(CMD_PSH, stream_id, part);
        let ghost before = out@;
        wire::append_bytes(&mut out, built.as_slice());
        proof {
            assert(k < chunks.len());
            assert(frames.skip(k)[0] == frames[k]);
            assert(frames[k].data == part@);
            assert(frames.skip(k).skip(1) =~= frames.skip(k + 1));
            let rest = frames_bytes(frames.skip(k + 1));
            assert(out@ + rest =~= before + (built@ + rest));
            k = k + 1;
        }
        start = end;
    }
    assert(frames.skip(k).len() == 0);
    assert(out@ + frames_bytes(frames.skip(k)) =~= out@);
    out
}

/// Reads the header of a frame.
pub fn decode_header(hdr: &[u8; 7]) -> (r: FrameHeader)
    ensures
        r == header_of(hdr@),
        r.cmd == hdr@[0],
        r.stream_id == hdr@[1] * 0x100_0000 + hdr@[2] * 0x1_0000 + hdr@[3] * 0x100 + hdr@[4],
        r.len == hdr@[5] * 0x100 + hdr@[6],
{
    let b: &[u8] = hdr.as_slice();
    FrameHeader { cmd: b[0], stream_id: wire::read_be32(b, 1), len: wire::read_be16(b, 5) }
}

/// Encodes `host:port` text for a frame, or no address where `addr` has no
/// host and port. `ip` is what the host reads as when taken for an IP address.
pub fn encode_socks_addr(addr: &str, ip: Option<IpLiteral>) -> (r: Vec<u8>)
    ensures
        r@ == addr::address_bytes(socks_codes(), addr::named_address(addr@, ip)),
{
    addr::encode_addr(
        AddrCodes { none: ATYP_NONE, v4: ATYP_IPV4, v6: ATYP_IPV6, domain: ATYP_DOMAIN },
        addr,
        ip,
    )
}

/// Decodes the address at the start of the data of a frame. Returns it with
/// the number of bytes it takes up.
pub fn decode_socks_addr(data: &[u8]) -> (r: Option<(Address, usize)>)
    ensures
        match r {
            Some((a, n)) => addr::address_at(socks_codes(), data@) == Some((a@, n as nat)),
            None => addr::address_at(socks_codes(), data@) is None,
        },
{
    addr::decode_addr(
        AddrCodes { none: ATYP_NONE, v4: ATYP_IPV4, v6: ATYP_IPV6, domain: ATYP_DOMAIN },
        data,
    )
}

/// A frame reads back as what it was built from, whatever follows it, as long
/// as its data fits the length field.
pub proof fn law_frame_round_trip(cmd: u8, stream_id: u32, data: Seq<u8>, rest: Seq<u8>)
    requires
        data.len() <= 0xFFFF,
    ensures
        frame_at(frame_bytes(cmd, stream_id, data) + rest) == Some(
            ((FrameView { cmd, stream_id, data }), 7 + data.len()),
        ),
{
    let bytes = frame_bytes(cmd, stream_id, data) + rest;
    let hdr = bytes.take(7);
    assert(hdr.subrange(1, 5) =~= wire::be32(stream_id));
    wire::lemma_be32_at(hdr, 1, stream_id);
    assert(hdr.subrange(5, 7) =~= wire::be16(wire::low16(data.len())));
    wire::lemma_be16_at(hdr, 5, wire::low16(data.len()));
    assert(bytes.subrange(7, 7 + data.len() as int) =~= data);
}

proof fn lemma_first_frame(f: FrameView, more: Seq<u8>)
    requires
        f.data.len() <= 0xFFFF,
    ensures
        frames_in(frame_bytes(f.cmd, f.stream_id, f.data) + more) == seq![f] + frames_in(more),
{
    let first = frame_bytes(f.cmd, f.stream_id, f.data);
    law_frame_round_trip(f.cmd, f.stream_id, f.data, more);
    assert(first.len() == 7 + f.data.len());
    assert((first + more).skip(7 + f.data.len() as int) =~= more);
}

/// A reader sees the frames that were sent, all of them and in order, and then
/// whatever the bytes behind them hold.
pub proof fn law_frame_stream(frames: Seq<FrameView>, rest: Seq<u8>)
    requires
        all_sendable(frames),
    ensures
        frames_in(frames_bytes(frames) + rest) == frames + frames_in(rest),
    decreases frames.len(),
{
    if frames.len() == 0 {
        assert(frames_bytes(frames) + rest =~= rest);
        assert(frames + frames_in(rest) =~= frames_in(rest));
    } else {
        let f = frames[0];
        let first = frame_bytes(f.cmd, f.stream_id, f.data);
        let tail = frames.skip(1);
        let more = frames_bytes(tail) + rest;
        assert(frames_bytes(frames) + rest =~= first + more);
        lemma_first_frame(f, more);
        law_frame_stream(tail, rest);
        assert(frames + frames_in(rest) =~= seq![f] + (tail + frames_in(rest)));
    }
}

/// Frames sent in two goes are the frames of both.
pub proof fn lemma_frames_bytes_add(a: Seq<FrameView>, b: Seq<FrameView>)
    ensures
        frames_bytes(a + b) == frames_bytes(a) + frames_bytes(b),
    decreases a.len(),
{
    if a.len() == 0 {
        assert(a + b =~= b);
        assert(frames_bytes(a) + frames_bytes(b) =~= frames_bytes(b));
    } else {
        assert((a + b).skip(1) =~= a.skip(1) + b);
        lemma_frames_bytes_add(a.skip(1), b);
        let first = frame_bytes(a[0].cmd, a[0].stream_id, a[0].data);
        assert(frames_bytes(a + b) =~= frames_bytes(a) + frames_bytes(b));
    }
}

/// An address put into a frame reads back as what it was made of, whatever
/// follows it.
pub proof fn law_socks_address_round_trip(
    addr: Seq<char>,
    ip: Option<IpLiteral>,
    rest: Seq<u8>,
)
    ensures
        ({
            let a = addr::named_address(addr, ip);
            let bytes = addr::address_bytes(socks_codes(), a);
            addr::address_at(socks_codes(), bytes + rest) == Some((a, bytes.len()))
        }),
{
    addr::law_address_round_trip(socks_codes(), addr, ip, rest);
}

/// The pieces of data fit their frames.
proof fn lemma_chunks_sendable(stream_id: u32, data: Seq<u8>)
    ensures
        all_sendable(chunk_frames(stream_id, data_chunks(data))),
        wire::joined(data_chunks(data)) == data,
{
    wire::law_pieces_make_whole(data, MAX_FRAME_DATA as nat);
    let frames = chunk_frames(stream_id, data_chunks(data));
    assert forall|i: int| 0 <= i < frames.len() implies (#[trigger] frames[i]).data.len()
        <= 0xFFFF by {
        assert(frames[i].data == wire::pieces(data, MAX_FRAME_DATA as nat)[i]);
    }
}

/// Stream data of any length comes back from the frames that carry it: a
/// reader sees just those frames, whatever follows them, and their data put
/// together is what was sent.
pub proof fn law_data_frames(stream_id: u32, data: Seq<u8>, rest: Seq<u8>)
    ensures
        wire::joined(data_chunks(data)) == data,
        frames_in(frames_bytes(chunk_frames(stream_id, data_chunks(data))) + rest) == chunk_frames(
            stream_id,
            data_chunks(data),
        ) + frames_in(rest),
{
    lemma_chunks_sendable(stream_id, data);
    law_frame_stream(chunk_frames(stream_id, data_chunks(data)), rest);
}

/// The frames of a stream fit, and carry all that was read.
pub proof fn lemma_stream_frames(stream_id: u32, reads: Seq<Seq<u8>>)
    ensures
        all_sendable(stream_frames(stream_id, reads)),
        wire::joined(read_chunks(reads)) == wire::joined(reads),
    decreases reads.len(),
{
    let frames = stream_frames(stream_id, reads);
    if reads.len() > 0 {
        let first = data_chunks(reads[0]);
        let tail = reads.skip(1);
        lemma_chunks_sendable(stream_id, reads[0]);
        lemma_stream_frames(stream_id, tail);
        wire::lemma_joined_add(first, read_chunks(tail));
        assert forall|i: int| 0 <= i < frames.len() implies (#[trigger] frames[i]).data.len()
            <= 0xFFFF by {
            if i < first.len() {
                assert(frames[i] == chunk_frames(stream_id, first)[i]);
            } else {
                assert(frames[i] == stream_frames(stream_id, tail)[i - first.len()]);
            }
        }
    }
}

/// What was read from a connection comes back from the frames of its stream,
/// whatever the lengths of the reads: a reader sees data frames that, put
/// together, are what was read, and then one empty frame that ends the stream.
pub proof fn law_reads_come_back(stream_id: u32, reads: Seq<Seq<u8>>, rest: Seq<u8>)
    ensures
        frames_in(frames_bytes(stream_frames(stream_id, reads)) + rest) == stream_frames(
            stream_id,
            reads,
        ) + frames_in(rest),
        wire::joined(read_chunks(reads)) == wire::joined(reads),
{
    lemma_stream_frames(stream_id, reads);
    law_frame_stream(stream_frames(stream_id, reads), rest);
}

/// The bytes of a frame: its command, its stream id in four bytes and the
/// length of its data in two, high bytes first, and then the data.
pub proof fn law_frame_layout(cmd: u8, stream_id: u32, data: Seq<u8>)
    requires
        data.len() <= 0xFFFF,
    ensures
        ({
            let bytes = frame_bytes(cmd, stream_id, data);
            &&& bytes.len() == 7 + data.len()
            &&& bytes[0] == cmd
            &&& bytes[1] * 0x100_0000 + bytes[2] * 0x1_0000 + bytes[3] * 0x100 + bytes[4]
                == stream_id
            &&& bytes[5] * 0x100 + bytes[6] == data.len()
            &&& bytes.skip(7) == data
        }),
{
    let bytes = frame_bytes(cmd, stream_id, data);
    assert(bytes.subrange(1, 5) =~= wire::be32(stream_id));
    wire::lemma_be32_at(bytes, 1, stream_id);
    assert(bytes.skip(7) =~= data);
}

/// A frame that has not arrived whole is not seen yet.
pub proof fn law_cut_off_frame_waits(cmd: u8, stream_id: u32, data: Seq<u8>, n: int)
    requires
        data.len() <= 0xFFFF,
        0 <= n < 7 + data.len(),
    ensures
        frame_at(frame_bytes(cmd, stream_id, data).take(n)) is None,
        frames_in(frame_bytes(cmd, stream_id, data).take(n)).len() == 0,
{
    let bytes = frame_bytes(cmd, stream_id, data);
    let part = bytes.take(n);
    if n >= 7 {
        let hdr = part.take(7);
        assert(hdr.subrange(5, 7) =~= wire::be16(wire::low16(data.len())));
        wire::lemma_be16_at(hdr, 5, wire::low16(data.len()));
    }
}

/// Session frames tell addresses apart by the bytes 0 for none, 1 and 4 for IP
/// addresses of four and sixteen bytes, and 3 for names.
pub proof fn law_socks_codes()
    ensures
        socks_codes().none == 0,
        socks_codes().v4 == 1,
        socks_codes().domain == 3,
        socks_codes().v6 == 4,
{
}

/// Data is cut into frames only where it has to be: all frames but the last are
/// full, nothing is sent for no data, and up to 65535 bytes go into one frame.
pub proof fn law_data_fills_frames(data: Seq<u8>, i: int)
    ensures
        data.len() == 0 ==> data_chunks(data).len() == 0,
        0 < data.len() <= 0xFFFF ==> data_chunks(data) == seq![data],
        0 <= i < data_chunks(data).len() - 1 ==> data_chunks(data)[i].len() == 0xFFFF,
        0 <= i < data_chunks(data).len() ==> 0 < data_chunks(data)[i].len() <= 0xFFFF,
{
    let chunks = data_chunks(data);
    if 0 < data.len() <= 0xFFFF {
        assert(chunks[0] =~= data);
        assert(chunks =~= seq![data]);
    }
    if 0 <= i < chunks.len() {
        assert(i * 0xFFFF <= data.len() - 1);
        assert(chunks[i] == wire::piece(data, 0xFFFF, i));
    }
}

/// What carries stream data: data frames of that stream with the pieces in
/// order, and an empty frame that ends it.
pub proof fn law_stream_frames(stream_id: u32, reads: Seq<Seq<u8>>, i: int)
    ensures
        stream_frames(stream_id, reads).len() == read_chunks(reads).len() + 1,
        stream_frames(stream_id, reads).last() == (FrameView {
            cmd: 3,
            stream_id,
            data: Seq::empty(),
        }),
        0 <= i < read_chunks(reads).len() ==> stream_frames(stream_id, reads)[i] == (FrameView {
            cmd: 2,
            stream_id,
            data: read_chunks(reads)[i],
        }),
{
}

/// A frame is seen once its header of 7 bytes and all of its data are there; it
/// is then what they say.
pub proof fn law_frame_is_read(bytes: Seq<u8>)
    ensures
        frame_at(bytes) is Some <==> bytes.len() >= 7 && bytes.len() >= 7 + bytes[5] * 256
            + bytes[6],
        frame_at(bytes) matches Some((f, n)) ==> {
            &&& n == 7 + bytes[5] * 256 + bytes[6]
            &&& f.cmd == bytes[0]
            &&& f.stream_id == bytes[1] * 0x100_0000 + bytes[2] * 0x1_0000 + bytes[3] * 0x100
                + bytes[4]
            &&& f.data == bytes.subrange(7, n as int)
        },
{
}

/// Data is cut read by read: the pieces of each read follow those of the reads
/// before it.
pub proof fn law_reads_are_cut_in_order(reads: Seq<Seq<u8>>)
    ensures
        reads.len() == 0 ==> read_chunks(reads).len() == 0,
        reads.len() > 0 ==> read_chunks(reads) == data_chunks(reads[0]) + read_chunks(
            reads.skip(1),
        ),
{
}

} // verus!
