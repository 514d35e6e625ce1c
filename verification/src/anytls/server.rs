//! The server side of a session: what to do with each frame that a client
//! sends.
//!
//! A session keeps a handle of the caller's for each open stream. The caller
//! performs the actions: it connects, forwards, answers and closes.
use crate::addr;
use crate::addr::IpLiteral;
use crate::anytls::auth;
use crate::anytls::frame;
use crate::anytls::frame::FrameView;
use crate::default_scheme;
use crate::digest;
use crate::padding::PaddingScheme;
use crate::wire;
use std::collections::HashMap;
use vstd::prelude::*;
use vstd::utf8::*;

verus! {

/// The largest number of streams that a session may have open at a time.
pub const MAX_STREAMS_PER_SESSION: usize = 256;

/// One authenticated session.
pub struct ServerSession<T> {
    /// The address that all streams of the session are connected to.
    pub backend: String,
    /// Whether the client has sent its settings.
    pub settings_received: bool,
    /// The open streams, by their ids.
    pub streams: HashMap<u32, T>,
}

/// What a [`ServerSession`] stands for.
#[verifier::ext_equal]
#[verifier::reject_recursive_types(T)]
pub struct ServerView<T> {
    pub backend: Seq<char>,
    pub settings_received: bool,
    pub streams: Map<u32, T>,
}

impl<T> View for ServerSession<T> {
    type V = ServerView<T>;

    open spec fn view(&self) -> ServerView<T> {
        ServerView {
            backend: self.backend@,
            settings_received: self.settings_received,
            streams: self.streams@,
        }
    }
}

/// What the caller is to do next.
pub enum ServerAction<T> {
    /// Nothing.
    Ignore,
    /// Send these bytes; go on even if that fails.
    Answer(Vec<u8>),
    /// Send these bytes; end the session if that fails.
    Require(Vec<u8>),
    /// Send these bytes, then end the session.
    Refuse(Vec<u8>),
    /// Connect a new stream to the backend, then report how that went.
    Connect(u32),
    /// Pass data on to the backend of a stream.
    Forward(u32, Vec<u8>),
    /// Tell the backend of a stream that no more data follows. The stream is
    /// no longer open.
    Finish(T),
    /// End the session.
    End,
}

/// What a [`ServerAction`] stands for.
pub enum ServerActionView<T> {
    Ignore,
    Answer(Seq<u8>),
    Require(Seq<u8>),
    Refuse(Seq<u8>),
    Connect(u32),
    Forward(u32, Seq<u8>),
    Finish(T),
    End,
}

impl<T> View for ServerAction<T> {
    type V = ServerActionView<T>;

    open spec fn view(&self) -> ServerActionView<T> {
        match self {
            ServerAction::Ignore => ServerActionView::Ignore,
            ServerAction::Answer(b) => ServerActionView::Answer(b@),
            ServerAction::Require(b) => ServerActionView::Require(b@),
            ServerAction::Refuse(b) => ServerActionView::Refuse(b@),
            ServerAction::Connect(id) => ServerActionView::Connect(*id),
            ServerAction::Forward(id, b) => ServerActionView::Forward(*id, b@),
            ServerAction::Finish(h) => ServerActionView::Finish(*h),
            ServerAction::End => ServerActionView::End,
        }
    }
}

/// The answer to a client's settings.
pub open spec fn settings_answer() -> Seq<u8> {
    frame::frame_bytes(
        frame::CMD_SERVER_SETTINGS,
        0,
        encode_utf8(auth::server_settings(auth::scheme_name(default_scheme::default_text()))),
    )
}

/// The answer to a request for a stream that comes before the settings.
pub open spec fn early_stream_alert() -> Seq<u8> {
    frame::frame_bytes(
        frame::CMD_ALERT,
        0,
        encode_utf8("cmdSYN received before cmdSettings"@),
    )
}

/// The answer to a request for a stream beyond the limit.
pub open spec fn too_many_streams(stream_id: u32) -> Seq<u8> {
    frame::frame_bytes(frame::CMD_SYNACK, stream_id, encode_utf8("too many streams"@))
}

/// The answer to a request for a stream whose backend cannot be reached.
pub open spec fn connect_failure(stream_id: u32, reason: Seq<char>) -> Seq<u8> {
    frame::frame_bytes(
        frame::CMD_SYNACK,
        stream_id,
        encode_utf8("failed to connect to target: "@ + reason),
    )
}

/// The answer to a request for a stream that is now connected.
pub open spec fn connect_success(
    stream_id: u32,
    backend: Seq<char>,
    ip: Option<IpLiteral>,
) -> Seq<u8> {
    frame::frame_bytes(
        frame::CMD_SYNACK,
        stream_id,
        addr::address_bytes(frame::socks_codes(), addr::named_address(backend, ip)),
    )
}

impl<T> ServerView<T> {
    /// What a frame makes of the session.
    pub open spec fn after(self, f: FrameView) -> ServerView<T> {
        if f.cmd == frame::CMD_SETTINGS {
            ServerView { settings_received: true, ..self }
        } else if f.cmd == frame::CMD_FIN {
            ServerView { streams: self.streams.remove(f.stream_id), ..self }
        } else {
            self
        }
    }

    /// What a frame asks the caller to do.
    pub open spec fn action(self, f: FrameView) -> ServerActionView<T> {
        if f.cmd == frame::CMD_SETTINGS {
            ServerActionView::Require(settings_answer())
        } else if f.cmd == frame::CMD_SYN {
            if !self.settings_received {
                ServerActionView::Refuse(early_stream_alert())
            } else if self.streams.dom().len() >= MAX_STREAMS_PER_SESSION {
                ServerActionView::Answer(too_many_streams(f.stream_id))
            } else {
                ServerActionView::Connect(f.stream_id)
            }
        } else if f.cmd == frame::CMD_PSH {
            if self.streams.contains_key(f.stream_id) {
                ServerActionView::Forward(f.stream_id, f.data)
            } else {
                ServerActionView::Ignore
            }
        } else if f.cmd == frame::CMD_FIN {
            if self.streams.contains_key(f.stream_id) {
                ServerActionView::Finish(self.streams[f.stream_id])
            } else {
                ServerActionView::Ignore
            }
        } else if f.cmd == frame::CMD_HEART_REQUEST {
            ServerActionView::Answer(
                frame::frame_bytes(frame::CMD_HEART_RESPONSE, 0, Seq::empty()),
            )
        } else if f.cmd == frame::CMD_ALERT {
            ServerActionView::End
        } else {
            ServerActionView::Ignore
        }
    }
}

impl<T> ServerSession<T> {
    /// The session of a client that is to be relayed to `backend`.
    pub fn new(backend: String) -> (r: ServerSession<T>)
        ensures
            r@ == (ServerView::<T> {
                backend: backend@,
                settings_received: false,
                streams: Map::empty(),
            }),
    {
        ServerSession { backend, settings_received: false, streams: HashMap::new() }
    }

    /// Takes in a frame.
    pub fn on_frame(&mut self, cmd: u8, stream_id: u32, data: Vec<u8>) -> (r: ServerAction<T>)
        ensures
            final(self)@ == old(self)@.after((FrameView { cmd, stream_id, data: data@ })),
            r@ == old(self)@.action((FrameView { cmd, stream_id, data: data@ })),
    {
        if cmd == frame::CMD_SETTINGS {
            self.settings_received = true;
            let scheme: PaddingScheme = PaddingScheme::default_scheme();
            ServerAction::Require(auth::server_settings_frame(&scheme))
        } else if cmd == frame::CMD_SYN {
            if !self.settings_received {
                ServerAction::Refuse(
                    frame::encode_frame(
                        frame::CMD_ALERT,
                        0,
                        "cmdSYN received before cmdSettings".as_bytes(),
                    ),
                )
            } else if self.streams.len() >= MAX_STREAMS_PER_SESSION {
                ServerAction::Answer(
                    frame::encode_frame(
                        frame::CMD_SYNACK,
                        stream_id,
                        "too many streams".as_bytes(),
                    ),
                )
            } else {
                ServerAction::Connect(stream_id)
            }
        } else if cmd == frame::CMD_PSH {
            if self.streams.contains_key(&stream_id) {
                ServerAction::Forward(stream_id, data)
            } else {
                ServerAction::Ignore
            }
        } else if cmd == frame::CMD_FIN {
            let ghost before = self.streams@;
            match self.streams.remove(&stream_id) {
                Some(h) => ServerAction::Finish(h),
                None => {
                    assert(before.remove(stream_id) =~= before);
                    ServerAction::Ignore
                },
            }
        } else if cmd == frame::CMD_HEART_REQUEST {
            let empty: Vec<u8> = Vec::new();
            ServerAction::Answer(
                frame::encode_frame(frame::CMD_HEART_RESPONSE, 0, empty.as_slice()),
            )
        } else if cmd == frame::CMD_ALERT {
            ServerAction::End
        } else {
            ServerAction::Ignore
        }
    }

    /// Takes note that a stream is connected, and returns the answer to send.
    /// `ip` is what the backend's host reads as when taken for an IP address.
    pub fn connected(&mut self, stream_id: u32, handle: T, ip: Option<IpLiteral>) -> (r: Vec<u8>)
        ensures
            final(self)@ == (ServerView {
                streams: old(self)@.streams.insert(stream_id, handle),
                ..old(self)@
            }),
            r@ == connect_success(stream_id, old(self)@.backend, ip),
    {
        self.streams.insert(stream_id, handle);
        let address: Vec<u8> = frame::encode_socks_addr(self.backend.as_str(), ip);
        frame::encode_frame(frame::CMD_SYNACK, stream_id, address.as_slice())
    }

    /// The handle of an open stream.
    pub fn stream(&self, stream_id: u32) -> (r: Option<&T>)
        ensures
            match r {
                Some(h) => self@.streams.contains_key(stream_id) && self@.streams[stream_id] == *h,
                None => !self@.streams.contains_key(stream_id),
            },
    {
        self.streams.get(&stream_id)
    }

    /// Takes note that both directions of a stream are done.
    pub fn stream_ended(&mut self, stream_id: u32)
        ensures
            final(self)@ == (ServerView {
                streams: old(self)@.streams.remove(stream_id),
                ..old(self)@
            }),
    {
        self.streams.remove(&stream_id);
    }

    /// Ends the session. Returns the streams that were still open; their
    /// backends are to be told that no more data follows.
    pub fn close(&mut self) -> (r: HashMap<u32, T>)
        ensures
            r@ == old(self)@.streams,
            final(self)@ == (ServerView { streams: Map::empty(), ..old(self)@ }),
    {
        let mut open: HashMap<u32, T> = HashMap::new();
        std::mem::swap(&mut open, &mut self.streams);
        open
    }
}

/// The answer to send when the backend of a new stream cannot be reached.
pub fn connect_failed(stream_id: u32, reason: &str) -> (r: Vec<u8>)
    ensures
        r@ == connect_failure(stream_id, reason@),
{
    let mut msg: String = "failed to connect to target: ".to_owned();
    msg.append(reason);
    frame::encode_frame(frame::CMD_SYNACK, stream_id, msg.as_str().as_bytes())
}

/// A session never has more streams open than the limit: only a request that
/// finds room leads to a connection, and taking note of one adds at most one
/// stream.
pub proof fn law_stream_limit<T>(s: ServerView<T>, f: FrameView, handle: T)
    requires
        s.streams.dom().finite(),
        s.streams.dom().len() <= MAX_STREAMS_PER_SESSION,
    ensures
        s.after(f).streams.dom().len() <= MAX_STREAMS_PER_SESSION,
        s.action(f) matches ServerActionView::Connect(id) ==> s.after(f).streams.insert(
            id,
            handle,
        ).dom().len() <= MAX_STREAMS_PER_SESSION,
{
    assert(s.streams.remove(f.stream_id).dom() =~= s.streams.dom().remove(f.stream_id));
    assert(s.streams.insert(f.stream_id, handle).dom() =~= s.streams.dom().insert(f.stream_id));
}

/// The session and the actions after a run of frames.
pub open spec fn serve_all<T>(s: ServerView<T>, frames: Seq<FrameView>) -> (
    ServerView<T>,
    Seq<ServerActionView<T>>,
)
    decreases frames.len(),
{
    if frames.len() == 0 {
        (s, Seq::empty())
    } else {
        let (end, actions) = serve_all(s.after(frames[0]), frames.skip(1));
        (end, seq![s.action(frames[0])] + actions)
    }
}

/// What a client sends on an open stream reaches its backend: all that was
/// read, unchanged and in order, whatever the lengths of the reads, and then
/// the end of the data.
pub proof fn law_upload_reaches_backend<T>(s: ServerView<T>, stream_id: u32, reads: Seq<Seq<u8>>)
    requires
        s.streams.contains_key(stream_id),
    ensures
        serve_all(s, frame::stream_frames(stream_id, reads)).0 == (ServerView {
            streams: s.streams.remove(stream_id),
            ..s
        }),
        serve_all(s, frame::stream_frames(stream_id, reads)).1 == frame::read_chunks(
            reads,
        ).map_values(|c: Seq<u8>| ServerActionView::<T>::Forward(stream_id, c)).push(
            ServerActionView::Finish(s.streams[stream_id]),
        ),
        wire::joined(frame::read_chunks(reads)) == wire::joined(reads),
{
    lemma_chunks_reach_backend(s, stream_id, frame::read_chunks(reads));
    frame::lemma_stream_frames(stream_id, reads);
}

proof fn lemma_chunks_reach_backend<T>(s: ServerView<T>, stream_id: u32, chunks: Seq<Seq<u8>>)
    requires
        s.streams.contains_key(stream_id),
    ensures
        ({
            let frames = frame::chunk_frames(stream_id, chunks).push(frame::fin_frame(stream_id));
            &&& serve_all(s, frames).0 == (ServerView {
                streams: s.streams.remove(stream_id),
                ..s
            })
            &&& serve_all(s, frames).1 == chunks.map_values(
                |c: Seq<u8>| ServerActionView::<T>::Forward(stream_id, c),
            ).push(ServerActionView::Finish(s.streams[stream_id]))
        }),
    decreases chunks.len(),
{
    let frames = frame::chunk_frames(stream_id, chunks).push(frame::fin_frame(stream_id));
    let expected = chunks.map_values(
        |c: Seq<u8>| ServerActionView::<T>::Forward(stream_id, c),
    ).push(ServerActionView::Finish(s.streams[stream_id]));
    reveal_with_fuel(serve_all, 2);
    if chunks.len() == 0 {
        assert(frames.skip(1) =~= Seq::<FrameView>::empty());
        assert(serve_all(s, frames).1 =~= expected);
    } else {
        let rest = chunks.skip(1);
        assert(frames.skip(1) =~= frame::chunk_frames(stream_id, rest).push(
            frame::fin_frame(stream_id),
        ));
        lemma_chunks_reach_backend(s, stream_id, rest);
        assert(serve_all(s, frames).1 =~= expected);
    }
}

/// Padding frames change nothing and ask for nothing.
pub proof fn law_padding_is_ignored<T>(s: ServerView<T>, f: FrameView)
    requires
        f.cmd == frame::CMD_WASTE,
    ensures
        s.after(f) == s,
        s.action(f) == ServerActionView::<T>::Ignore,
{
}

/// The first packet of a client is two frames: its settings and the request for
/// the first stream. (A scheme is named by the 16 bytes of a digest.)
pub(crate) proof fn lemma_first_packet_frames(raw: Seq<char>) -> (frames: Seq<FrameView>)
    ensures
        digest::md5_of(encode_utf8(raw)).len() == 16 ==> {
            &&& frames.len() == 2
            &&& frames[0].cmd == frame::CMD_SETTINGS
            &&& frames[1].cmd == frame::CMD_SYN
            &&& frames[1].stream_id == auth::FIRST_STREAM
            &&& frame::all_sendable(frames)
            &&& frame::frames_bytes(frames) == auth::first_packet_bytes(raw)
            &&& frame::frames_in(auth::first_packet_bytes(raw)) == frames
        },
{
    let head = "v=2\nclient=anyst/0.1.0\npadding-md5="@;
    let name = auth::scheme_name(raw);
    let settings = auth::client_settings(name);
    let first = FrameView { cmd: frame::CMD_SETTINGS, stream_id: 0, data: encode_utf8(settings) };
    let second = FrameView {
        cmd: frame::CMD_SYN,
        stream_id: auth::FIRST_STREAM,
        data: seq![frame::ATYP_NONE],
    };
    let both = seq![first, second];
    if digest::md5_of(encode_utf8(raw)).len() == 16 {
        reveal_strlit("v=2\nclient=anyst/0.1.0\npadding-md5=");
        reveal_strlit("\n");
        assert forall|i: int| 0 <= i < name.len() implies '\0' <= #[trigger] name[i]
            <= '\u{7f}' by {
            let d = digest::md5_of(encode_utf8(raw))[i / 2] as int;
            assert(0 <= d / 16 < 16 && 0 <= d % 16 < 16);
        }
        assert forall|i: int| 0 <= i < settings.len() implies '\0' <= #[trigger] settings[i]
            <= '\u{7f}' by {
            if i < head.len() {
                assert(settings[i] == head[i]);
            } else if i < head.len() + name.len() {
                assert(settings[i] == name[i - head.len()]);
            }
        }
        is_ascii_chars_encode_utf8(settings);
        reveal_with_fuel(frame::frames_bytes, 3);
        assert(both.skip(1) =~= seq![second]);
        assert(both.skip(1).skip(1) =~= Seq::<FrameView>::empty());
        assert(frame::frames_bytes(both) =~= auth::first_packet_bytes(raw));
        frame::law_frame_stream(both, Seq::empty());
        assert(frame::frames_bytes(both) + Seq::<u8>::empty() =~= frame::frames_bytes(both));
        assert(both + frame::frames_in(Seq::empty()) =~= both);
    }
    both
}

/// The first packet of a client introduces it and opens its first stream: the
/// server answers the settings and connects. (A scheme is named by the 16
/// bytes of a digest.)
pub proof fn law_first_packet_opens_stream<T>(s: ServerView<T>, raw: Seq<char>)
    requires
        s.streams.dom().len() < MAX_STREAMS_PER_SESSION,
    ensures
        digest::md5_of(encode_utf8(raw)).len() == 16 ==> {
            let frames = frame::frames_in(auth::first_packet_bytes(raw));
            &&& serve_all(s, frames).0 == (ServerView { settings_received: true, ..s })
            &&& serve_all(s, frames).1 == seq![
                ServerActionView::<T>::Require(settings_answer()),
                ServerActionView::Connect(auth::FIRST_STREAM),
            ]
        },
{
    let both = lemma_first_packet_frames(raw);
    if digest::md5_of(encode_utf8(raw)).len() == 16 {
        lemma_settings_then_stream(s, both);
    }
}

proof fn lemma_settings_then_stream<T>(s: ServerView<T>, frames: Seq<FrameView>)
    requires
        s.streams.dom().len() < MAX_STREAMS_PER_SESSION,
        frames.len() == 2,
        frames[0].cmd == frame::CMD_SETTINGS,
        frames[1].cmd == frame::CMD_SYN,
    ensures
        serve_all(s, frames).0 == (ServerView { settings_received: true, ..s }),
        serve_all(s, frames).1 == seq![
            ServerActionView::<T>::Require(settings_answer()),
            ServerActionView::Connect(frames[1].stream_id),
        ],
{
    let second = frames.skip(1);
    let none = second.skip(1);
    let s1 = s.after(frames[0]);
    let s2 = s1.after(second[0]);
    assert(serve_all(s2, none) == (s2, Seq::<ServerActionView<T>>::empty()));
    assert(serve_all(s1, second).1 =~= seq![s1.action(second[0])]);
    assert(serve_all(s, frames).1 =~= seq![s.action(frames[0]), s1.action(second[0])]);
}

/// The data that `actions` pass on to the backend of a stream, in order.
pub open spec fn forwarded<T>(actions: Seq<ServerActionView<T>>, stream_id: u32) -> Seq<Seq<u8>>
    decreases actions.len(),
{
    if actions.len() == 0 {
        Seq::empty()
    } else {
        let rest = forwarded(actions.skip(1), stream_id);
        match actions[0] {
            ServerActionView::Forward(id, data) => if id == stream_id {
                seq![data] + rest
            } else {
                rest
            },
            _ => rest,
        }
    }
}

pub(crate) proof fn lemma_forwarded_cons<T>(
    head: ServerActionView<T>,
    tail: Seq<ServerActionView<T>>,
    stream_id: u32,
)
    ensures
        forwarded(seq![head] + tail, stream_id) == (match head {
            ServerActionView::Forward(id, data) => if id == stream_id {
                seq![data] + forwarded(tail, stream_id)
            } else {
                forwarded(tail, stream_id)
            },
            _ => forwarded(tail, stream_id),
        }),
{
    assert((seq![head] + tail).skip(1) =~= tail);
}

/// Streams that share a session do not mix: what reaches the backend of one
/// is what would reach it if its frames were the only ones.
pub proof fn law_streams_do_not_mix<T>(s: ServerView<T>, frames: Seq<FrameView>, stream_id: u32)
    ensures
        forwarded(serve_all(s, frames).1, stream_id) == forwarded(
            serve_all(s, frame::frames_of_stream(frames, stream_id)).1,
            stream_id,
        ),
{
    lemma_do_not_mix(s, s, frames, stream_id);
}

proof fn lemma_do_not_mix<T>(
    s: ServerView<T>,
    alone: ServerView<T>,
    frames: Seq<FrameView>,
    stream_id: u32,
)
    requires
        s.streams.contains_key(stream_id) <==> alone.streams.contains_key(stream_id),
    ensures
        forwarded(serve_all(s, frames).1, stream_id) == forwarded(
            serve_all(alone, frame::frames_of_stream(frames, stream_id)).1,
            stream_id,
        ),
    decreases frames.len(),
{
    if frames.len() > 0 {
        let f = frames[0];
        let rest = frames.skip(1);
        let own = frame::frames_of_stream(rest, stream_id);
        lemma_forwarded_cons(s.action(f), serve_all(s.after(f), rest).1, stream_id);
        if f.stream_id == stream_id {
            lemma_do_not_mix(s.after(f), alone.after(f), rest, stream_id);
            lemma_forwarded_cons(alone.action(f), serve_all(alone.after(f), own).1, stream_id);
            assert((seq![f] + own).skip(1) =~= own);
        } else {
            lemma_do_not_mix(s.after(f), alone, rest, stream_id);
        }
    }
}

/// A session keeps its backend: whatever the client sends, all of its streams
/// are connected to the address that its password led to.
pub proof fn law_backend_is_fixed<T>(s: ServerView<T>, frames: Seq<FrameView>)
    ensures
        serve_all(s, frames).0.backend == s.backend,
    decreases frames.len(),
{
    if frames.len() > 0 {
        law_backend_is_fixed(s.after(frames[0]), frames.skip(1));
    }
}

/// A client that introduces itself is answered: with the protocol version, the
/// name of the server, and the digest of the built-in padding scheme. Its
/// streams stay as they are.
pub proof fn law_settings_are_answered<T>(s: ServerView<T>, f: FrameView)
    requires
        f.cmd == 4,
    ensures
        s.after(f).settings_received,
        s.after(f).streams == s.streams,
        s.action(f) == ServerActionView::<T>::Require(
            frame::frame_bytes(
                10,
                0,
                encode_utf8(
                    "v=2\nserver=anyst/0.1.0\npadding-md5="@ + digest::hex_lower(
                        digest::md5_of(encode_utf8(default_scheme::default_text())),
                    ) + "\n"@,
                ),
            ),
        ),
{
}

/// A stream is connected if and only if the client has introduced itself and
/// has fewer than 256 streams open; a client that has not is cut off, and one
/// with more is told so. A request by itself opens nothing.
pub proof fn law_stream_requests<T>(s: ServerView<T>, f: FrameView)
    requires
        f.cmd == 1,
    ensures
        s.after(f) == s,
        s.settings_received && s.streams.dom().len() < 256 <==> s.action(f)
            == ServerActionView::<T>::Connect(f.stream_id),
        !s.settings_received ==> s.action(f) == ServerActionView::<T>::Refuse(
            frame::frame_bytes(5, 0, encode_utf8("cmdSYN received before cmdSettings"@)),
        ),
        s.settings_received && s.streams.dom().len() >= 256 ==> s.action(f)
            == ServerActionView::<T>::Answer(
            frame::frame_bytes(7, f.stream_id, encode_utf8("too many streams"@)),
        ),
{
}

/// Data goes to the backend of its own stream, and the end of a stream to that
/// stream alone; both are ignored where no such stream is open. No other stream
/// is touched.
pub proof fn law_open_streams_are_served<T>(s: ServerView<T>, f: FrameView, other: u32)
    requires
        f.cmd == 2 || f.cmd == 3,
    ensures
        !s.streams.contains_key(f.stream_id) ==> s.after(f) == s && s.action(f)
            == ServerActionView::<T>::Ignore,
        s.streams.contains_key(f.stream_id) && f.cmd == 2 ==> s.after(f) == s && s.action(f)
            == ServerActionView::<T>::Forward(f.stream_id, f.data),
        s.streams.contains_key(f.stream_id) && f.cmd == 3 ==> !s.after(f).streams.contains_key(
            f.stream_id,
        ) && s.action(f) == ServerActionView::<T>::Finish(s.streams[f.stream_id]),
        s.after(f).settings_received == s.settings_received,
        other != f.stream_id ==> s.after(f).streams.contains_key(other)
            == s.streams.contains_key(other),
        other != f.stream_id && s.streams.contains_key(other) ==> s.after(f).streams[other]
            == s.streams[other],
{
    if !s.streams.contains_key(f.stream_id) {
        assert(s.streams.remove(f.stream_id) =~= s.streams);
    }
}

/// A sign of life is given when asked for, an alert ends the session, and
/// whatever else a client sends is ignored. None of it changes the session.
pub proof fn law_other_frames<T>(s: ServerView<T>, f: FrameView)
    requires
        f.cmd != 1 && f.cmd != 2 && f.cmd != 3 && f.cmd != 4,
    ensures
        s.after(f) == s,
        f.cmd == 8 ==> s.action(f) == ServerActionView::<T>::Answer(
            frame::frame_bytes(9, 0, Seq::empty()),
        ),
        f.cmd == 5 ==> s.action(f) == ServerActionView::<T>::End,
        f.cmd != 8 && f.cmd != 5 ==> s.action(f) == ServerActionView::<T>::Ignore,
{
}

/// The answer to a connected stream is a frame of that stream, and the address
/// in it is the one that the backend's text names.
pub proof fn law_answer_names_backend(
    stream_id: u32,
    backend: Seq<char>,
    ip: Option<IpLiteral>,
    rest: Seq<u8>,
)
    ensures
        frame::frame_at(connect_success(stream_id, backend, ip) + rest) matches Some((f, n))
            && f.cmd == 7 && f.stream_id == stream_id && n == connect_success(
            stream_id,
            backend,
            ip,
        ).len() && addr::address_at(frame::socks_codes(), f.data) == Some(
            (addr::named_address(backend, ip), f.data.len()),
        ),
{
    let data = addr::address_bytes(frame::socks_codes(), addr::named_address(backend, ip));
    addr::law_address_round_trip(frame::socks_codes(), backend, ip, Seq::empty());
    assert(data + Seq::<u8>::empty() =~= data);
    assert(data.len() <= 0xFFFF);
    frame::law_frame_round_trip(7, stream_id, data, rest);
}

/// The answer to a stream whose backend cannot be reached is a frame of that
/// stream that says so, with the reason. (The message must fit into a frame.)
pub proof fn law_failure_names_reason(stream_id: u32, reason: Seq<char>, rest: Seq<u8>)
    ensures
        encode_utf8("failed to connect to target: "@ + reason).len() <= 0xFFFF ==> (
        frame::frame_at(connect_failure(stream_id, reason) + rest) matches Some((f, n)) && f.cmd
            == 7 && f.stream_id == stream_id && decode_utf8(f.data)
            == "failed to connect to target: "@ + reason),
{
    let message = "failed to connect to target: "@ + reason;
    if encode_utf8(message).len() <= 0xFFFF {
        frame::law_frame_round_trip(7, stream_id, encode_utf8(message), rest);
        encode_utf8_decode_utf8(message);
    }
}

} // verus!
