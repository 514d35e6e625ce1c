//! What a session carries from end to end: from the client's packets, through
//! padding and framing, to what the server does.
use crate::anytls::auth;
use crate::anytls::client;
use crate::anytls::client::ClientActionView;
use crate::anytls::client::ClientView;
use crate::anytls::client::StreamEventView;
use crate::anytls::frame;
use crate::anytls::frame::FrameView;
use crate::anytls::server;
use crate::anytls::server::ServerActionView;
use crate::anytls::server::ServerView;
use crate::anytls::writer;
use crate::anytls::writer::PaddedWriter;
use crate::digest;
use crate::padding::SchemeTable;
use crate::wire;
use vstd::prelude::*;
use vstd::utf8::*;

verus! {

/// One packet that a client writes: its frames, the scheme in force, and the
/// sizes chosen for it.
pub struct Packet {
    pub frames: Seq<FrameView>,
    pub scheme: SchemeTable,
    pub targets: Seq<u32>,
}

/// The bytes that `packets` become on the wire.
pub open spec fn sent(writer: PaddedWriter, packets: Seq<Packet>) -> Seq<u8>
    decreases packets.len(),
{
    if packets.len() == 0 {
        Seq::empty()
    } else {
        let p = packets[0];
        wire::joined(writer.writes(p.scheme, p.targets, frame::frames_bytes(p.frames))) + sent(
            writer.after(p.scheme),
            packets.skip(1),
        )
    }
}

/// The frames of `packets`, in order.
pub open spec fn frames_sent(packets: Seq<Packet>) -> Seq<FrameView>
    decreases packets.len(),
{
    if packets.len() == 0 {
        Seq::empty()
    } else {
        packets[0].frames + frames_sent(packets.skip(1))
    }
}

/// `frames` without those that are padding.
pub open spec fn without_padding(frames: Seq<FrameView>) -> Seq<FrameView>
    decreases frames.len(),
{
    if frames.len() == 0 {
        Seq::empty()
    } else if frames[0].cmd == frame::CMD_WASTE {
        without_padding(frames.skip(1))
    } else {
        seq![frames[0]] + without_padding(frames.skip(1))
    }
}

proof fn lemma_without_padding_add(a: Seq<FrameView>, b: Seq<FrameView>)
    ensures
        without_padding(a + b) == without_padding(a) + without_padding(b),
    decreases a.len(),
{
    if a.len() == 0 {
        assert(a + b =~= b);
        assert(without_padding(a) + without_padding(b) =~= without_padding(b));
    } else {
        assert((a + b).skip(1) =~= a.skip(1) + b);
        lemma_without_padding_add(a.skip(1), b);
        assert(without_padding(a + b) =~= without_padding(a) + without_padding(b));
    }
}

proof fn lemma_all_padding(fillers: Seq<FrameView>)
    requires
        forall|i: int|
            0 <= i < fillers.len() ==> (#[trigger] fillers[i]).cmd == frame::CMD_WASTE,
    ensures
        without_padding(fillers) == Seq::<FrameView>::empty(),
    decreases fillers.len(),
{
    if fillers.len() > 0 {
        assert(fillers[0].cmd == frame::CMD_WASTE);
        assert forall|i: int| 0 <= i < fillers.skip(1).len() implies (#[trigger] fillers.skip(
            1,
        )[i]).cmd == frame::CMD_WASTE by {
            assert(fillers.skip(1)[i] == fillers[i + 1]);
        }
        lemma_all_padding(fillers.skip(1));
    }
}

/// A reader of a padded session sees the frames of all packets, in order, and
/// padding frames between them, whatever the schemes and the sizes chosen. The
/// bytes sent are these frames and nothing else: none is cut off.
pub proof fn law_packets_arrive(writer: PaddedWriter, packets: Seq<Packet>)
    requires
        frame::all_sendable(frames_sent(packets)),
    ensures
        without_padding(frame::frames_in(sent(writer, packets))) == without_padding(
            frames_sent(packets),
        ),
        frame::frames_bytes(frame::frames_in(sent(writer, packets))) == sent(writer, packets),
    decreases packets.len(),
{
    if packets.len() == 0 {
        assert(frame::frames_in(Seq::empty()) =~= Seq::<FrameView>::empty());
    } else {
        let p = packets[0];
        let rest = sent(writer.after(p.scheme), packets.skip(1));
        let all = frames_sent(packets);
        let later = frames_sent(packets.skip(1));
        assert forall|i: int| 0 <= i < p.frames.len() implies (#[trigger] p.frames[i]).data.len()
            <= 0xFFFF by {
            assert(all[i] == p.frames[i]);
        }
        assert forall|i: int| 0 <= i < later.len() implies (#[trigger] later[i]).data.len()
            <= 0xFFFF by {
            assert(all[p.frames.len() + i] == later[i]);
        }
        let fillers = writer::law_padding_is_transparent(
            writer,
            p.scheme,
            p.targets,
            p.frames,
            rest,
        );
        law_packets_arrive(writer.after(p.scheme), packets.skip(1));
        frame::lemma_frames_bytes_add(p.frames + fillers, frame::frames_in(rest));
        lemma_without_padding_add(p.frames + fillers, frame::frames_in(rest));
        lemma_without_padding_add(p.frames, fillers);
        lemma_all_padding(fillers);
        lemma_without_padding_add(p.frames, frames_sent(packets.skip(1)));
        assert(without_padding(p.frames) + Seq::<FrameView>::empty() =~= without_padding(
            p.frames,
        ));
    }
}

/// A server that sees padding frames ends up where it would without them, and
/// passes on the same data.
proof fn lemma_serve_without_padding<T>(s: ServerView<T>, frames: Seq<FrameView>, stream_id: u32)
    ensures
        server::serve_all(s, frames).0 == server::serve_all(s, without_padding(frames)).0,
        server::forwarded(server::serve_all(s, frames).1, stream_id) == server::forwarded(
            server::serve_all(s, without_padding(frames)).1,
            stream_id,
        ),
    decreases frames.len(),
{
    if frames.len() > 0 {
        let f = frames[0];
        let rest = frames.skip(1);
        server::lemma_forwarded_cons(s.action(f), server::serve_all(s.after(f), rest).1, stream_id);
        lemma_serve_without_padding(s.after(f), rest, stream_id);
        if f.cmd != frame::CMD_WASTE {
            let own = without_padding(rest);
            assert((seq![f] + own).skip(1) =~= own);
            server::lemma_forwarded_cons(
                s.action(f),
                server::serve_all(s.after(f), own).1,
                stream_id,
            );
        }
    }
}

proof fn lemma_forwards<T>(stream_id: u32, chunks: Seq<Seq<u8>>, last: ServerActionView<T>)
    requires
        last is Finish,
    ensures
        server::forwarded(
            chunks.map_values(
                |c: Seq<u8>| ServerActionView::<T>::Forward(stream_id, c),
            ).push(last),
            stream_id,
        ) == chunks,
    decreases chunks.len(),
{
    let all = chunks.map_values(
        |c: Seq<u8>| ServerActionView::<T>::Forward(stream_id, c),
    ).push(last);
    reveal_with_fuel(server::forwarded, 2);
    if chunks.len() == 0 {
        assert(all.skip(1) =~= Seq::<ServerActionView<T>>::empty());
        assert(chunks =~= Seq::<Seq<u8>>::empty());
    } else {
        let tail = chunks.skip(1).map_values(
            |c: Seq<u8>| ServerActionView::<T>::Forward(stream_id, c),
        ).push(last);
        assert(all =~= seq![ServerActionView::<T>::Forward(stream_id, chunks[0])] + tail);
        server::lemma_forwarded_cons(
            ServerActionView::<T>::Forward(stream_id, chunks[0]),
            tail,
            stream_id,
        );
        lemma_forwards(stream_id, chunks.skip(1), last);
        assert(seq![chunks[0]] + chunks.skip(1) =~= chunks);
    }
}

/// What a client uploads on an open stream reaches the backend: all that it
/// read, unchanged and in order, and then the end of the stream, whatever the
/// lengths of the reads, however their frames are spread over packets, and
/// whatever padding is mixed in.
pub proof fn law_upload_through_padding<T>(
    s: ServerView<T>,
    stream_id: u32,
    reads: Seq<Seq<u8>>,
    writer: PaddedWriter,
    packets: Seq<Packet>,
)
    requires
        s.streams.contains_key(stream_id),
        frames_sent(packets) == frame::stream_frames(stream_id, reads),
    ensures
        wire::joined(
            server::forwarded(
                server::serve_all(s, frame::frames_in(sent(writer, packets))).1,
                stream_id,
            ),
        ) == wire::joined(reads),
        server::serve_all(s, frame::frames_in(sent(writer, packets))).0 == (ServerView {
            streams: s.streams.remove(stream_id),
            ..s
        }),
{
    let seen = frame::frames_in(sent(writer, packets));
    let frames = frame::stream_frames(stream_id, reads);
    let chunks = frame::read_chunks(reads);
    frame::lemma_stream_frames(stream_id, reads);
    law_packets_arrive(writer, packets);
    lemma_serve_without_padding(s, seen, stream_id);
    lemma_serve_without_padding(s, frames, stream_id);
    server::law_upload_reaches_backend(s, stream_id, reads);
    lemma_forwards::<T>(stream_id, chunks, ServerActionView::Finish(s.streams[stream_id]));
}

/// A dialed session is served: behind the authentication message the server
/// finds the hash of the client's password, and in the first packet, padded or
/// not, the settings that it answers and the request for the first stream.
/// (A scheme is named by the 16 bytes of a digest.)
pub proof fn law_dial_is_served<T>(
    s: ServerView<T>,
    hash: Seq<u8>,
    pad: Seq<u8>,
    raw: Seq<char>,
    scheme: SchemeTable,
    targets: Seq<u32>,
)
    requires
        s.streams.dom().len() < server::MAX_STREAMS_PER_SESSION,
        hash.len() == 32,
    ensures
        digest::md5_of(encode_utf8(raw)).len() == 16 ==> {
            let writer = PaddedWriter { packet_index: 1, cached_stop: None };
            let message = auth::auth_bytes(hash, pad);
            let bytes = message + wire::joined(
                writer.writes(scheme, targets, auth::first_packet_bytes(raw)),
            );
            &&& auth::auth_at(bytes) == Some((hash, message.len()))
            &&& server::serve_all(
                s,
                without_padding(frame::frames_in(bytes.skip(message.len() as int))),
            ).1 == seq![
                ServerActionView::<T>::Require(server::settings_answer()),
                ServerActionView::Connect(auth::FIRST_STREAM),
            ]
        },
{
    if digest::md5_of(encode_utf8(raw)).len() == 16 {
        let writer = PaddedWriter { packet_index: 1, cached_stop: None };
        let packet = auth::first_packet_bytes(raw);
        let wire_bytes = wire::joined(writer.writes(scheme, targets, packet));
        let message = auth::auth_bytes(hash, pad);
        auth::law_auth_round_trip(hash, pad, wire_bytes);
        assert((message + wire_bytes).skip(message.len() as int) =~= wire_bytes);
        server::law_first_packet_opens_stream(s, raw);
        let frames = server::lemma_first_packet_frames(raw);
        let p = Packet { frames, scheme, targets };
        let packets = seq![p];
        reveal_with_fuel(sent, 2);
        reveal_with_fuel(frames_sent, 2);
        reveal_with_fuel(without_padding, 3);
        assert(packets.skip(1) =~= Seq::<Packet>::empty());
        assert(frames_sent(packets) =~= frames);
        law_packets_arrive(writer, packets);
        assert(sent(writer, packets) =~= wire_bytes);
        assert(frames.skip(1) =~= seq![frames[1]]);
        assert(frames.skip(1).skip(1) =~= Seq::<FrameView>::empty());
        assert(without_padding(frames) =~= frames);
    }
}

proof fn lemma_deliveries<T>(stream_id: u32, chunks: Seq<Seq<u8>>, last: ClientActionView<T>)
    requires
        last is Finish,
    ensures
        client::delivered(
            chunks.map_values(
                |c: Seq<u8>| ClientActionView::<T>::Deliver(stream_id, StreamEventView::Data(c)),
            ).push(last),
            stream_id,
        ) == chunks,
    decreases chunks.len(),
{
    let all = chunks.map_values(
        |c: Seq<u8>| ClientActionView::<T>::Deliver(stream_id, StreamEventView::Data(c)),
    ).push(last);
    reveal_with_fuel(client::delivered, 2);
    if chunks.len() == 0 {
        assert(all.skip(1) =~= Seq::<ClientActionView<T>>::empty());
        assert(chunks =~= Seq::<Seq<u8>>::empty());
    } else {
        let tail = chunks.skip(1).map_values(
            |c: Seq<u8>| ClientActionView::<T>::Deliver(stream_id, StreamEventView::Data(c)),
        ).push(last);
        let first = ClientActionView::<T>::Deliver(stream_id, StreamEventView::Data(chunks[0]));
        assert(all =~= seq![first] + tail);
        client::lemma_delivered_cons(first, tail, stream_id);
        lemma_deliveries(stream_id, chunks.skip(1), last);
        assert(seq![chunks[0]] + chunks.skip(1) =~= chunks);
    }
}

/// What a backend sends on a stream reaches the client's side of it: all that
/// the server read, unchanged and in order, whatever the lengths of the reads,
/// and then the end of the stream.
pub proof fn law_download_arrives<T>(s: ClientView<T>, stream_id: u32, reads: Seq<Seq<u8>>)
    requires
        s.streams.contains_key(stream_id),
    ensures
        ({
            let bytes = frame::frames_bytes(frame::stream_frames(stream_id, reads));
            let (end, actions) = client::receive_all(s, frame::frames_in(bytes));
            &&& wire::joined(client::delivered(actions, stream_id)) == wire::joined(reads)
            &&& end == (ClientView { streams: s.streams.remove(stream_id), ..s })
        }),
{
    let frames = frame::stream_frames(stream_id, reads);
    let chunks = frame::read_chunks(reads);
    frame::law_reads_come_back(stream_id, reads, Seq::empty());
    assert(frame::frames_bytes(frames) + Seq::<u8>::empty() =~= frame::frames_bytes(frames));
    assert(frames + frame::frames_in(Seq::empty()) =~= frames);
    client::law_download_reaches_stream(s, stream_id, reads);
    lemma_deliveries::<T>(stream_id, chunks, ClientActionView::Finish(s.streams[stream_id]));
}

/// One frame alone on the wire is seen as itself.
proof fn lemma_one_frame(f: FrameView)
    requires
        f.data.len() <= 0xFFFF,
    ensures
        frame::frames_in(frame::frame_bytes(f.cmd, f.stream_id, f.data)) == seq![f],
{
    let one = seq![f];
    let bytes = frame::frame_bytes(f.cmd, f.stream_id, f.data);
    frame::law_frame_stream(one, Seq::empty());
    assert(frame::frames_bytes(one) == bytes) by {
        assert(one.skip(1) =~= Seq::<FrameView>::empty());
        assert(frame::frames_bytes(one.skip(1)) =~= Seq::<u8>::empty());
        assert(bytes + Seq::<u8>::empty() =~= bytes);
    }
    assert(bytes + Seq::<u8>::empty() =~= bytes);
    assert(one + frame::frames_in(Seq::empty()) =~= one);
}

/// What a client makes of one frame.
proof fn lemma_receive_one<T>(s: ClientView<T>, f: FrameView)
    ensures
        client::receive_all(s, seq![f]) == (s.after(f), seq![s.action(f)]),
{
    let action = s.action(f);
    let after = s.after(f);
    assert(seq![f].skip(1) =~= Seq::<FrameView>::empty());
    assert(client::receive_all(after, Seq::empty()) == (
        after,
        Seq::<ClientActionView<T>>::empty(),
    ));
    assert(seq![action] + Seq::<ClientActionView<T>>::empty() =~= seq![action]);
}

/// A refused stream learns why: the server's answer reaches the side that asked
/// for it, with the message in it, and the session goes on as it was. (The
/// message must fit into a frame.)
pub proof fn law_refusal_arrives<T>(s: ClientView<T>, stream_id: u32, reason: Seq<char>)
    requires
        s.streams.contains_key(stream_id),
    ensures
        client::receive_all(s, frame::frames_in(server::too_many_streams(stream_id))) == (
            s,
            seq![
                ClientActionView::<T>::Deliver(
                    stream_id,
                    StreamEventView::SynAck(Err("too many streams"@)),
                ),
            ],
        ),
        encode_utf8("failed to connect to target: "@ + reason).len() <= 0xFFFF
            ==> client::receive_all(
            s,
            frame::frames_in(server::connect_failure(stream_id, reason)),
        ) == (
            s,
            seq![
                ClientActionView::<T>::Deliver(
                    stream_id,
                    StreamEventView::SynAck(Err("failed to connect to target: "@ + reason)),
                ),
            ],
        ),
{
    let full = "too many streams"@;
    let failed = "failed to connect to target: "@ + reason;
    reveal_strlit("too many streams");
    is_ascii_chars_encode_utf8(full);
    client::law_refusal_is_understood(reason);
    let first = FrameView { cmd: frame::CMD_SYNACK, stream_id, data: encode_utf8(full) };
    lemma_one_frame(first);
    lemma_receive_one(s, first);
    if encode_utf8(failed).len() <= 0xFFFF {
        let second = FrameView { cmd: frame::CMD_SYNACK, stream_id, data: encode_utf8(failed) };
        lemma_one_frame(second);
        lemma_receive_one(s, second);
    }
}

} // verus!
