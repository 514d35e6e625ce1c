//! The client side of a session: its streams, and what to do with each frame
//! that a server sends.
//!
//! A session keeps a handle of the caller's for each stream that can still
//! receive. The caller performs the actions: it delivers, answers and closes.
use crate::addr;
use crate::anytls::auth;
use crate::anytls::frame;
use crate::anytls::frame::FrameView;
use crate::config::TunnelConfig;
use crate::padding;
use crate::padding::PaddingScheme;
use crate::padding::SchemeError;
use crate::padding::SchemeErrorView;
use crate::padding::SchemeTable;
use crate::text;
use crate::wire;
use std::collections::HashMap;
use vstd::prelude::*;
use vstd::utf8::*;

verus! {

/// What a client needs to know of its tunnel.
#[derive(Debug, Clone)]
pub struct ClientSettings {
    /// The server to connect to.
    pub remote: String,
    /// The server name to ask for.
    pub sni: String,
    /// The password to authenticate with.
    pub password: String,
    /// Whether to skip certificate verification.
    pub insecure: bool,
}

impl ClientSettings {
    /// Picks out what a client needs: the first remote and its password.
    pub fn new(cfg: &TunnelConfig) -> (r: ClientSettings)
        requires
            cfg.remotes@.len() > 0,
        ensures
            r.remote@ == cfg@.remotes[0].addr,
            r.password@ == cfg@.remotes[0].password,
            r.sni@ == cfg@.name(),
            r.insecure == cfg.insecure,
    {
        ClientSettings {
            remote: cfg.remotes[0].addr.clone(),
            sni: cfg.server_name(),
            password: cfg.remotes[0].password.clone(),
            insecure: cfg.insecure,
        }
    }
}

/// What a stream receives.
#[derive(Debug)]
pub enum StreamEvent {
    /// The server's answer to the request for the stream: connected, or a
    /// message that says why not.
    SynAck(Result<(), String>),
    /// Data from the backend.
    Data(Vec<u8>),
    /// No more data follows.
    Fin,
}

/// What a [`StreamEvent`] stands for.
pub enum StreamEventView {
    SynAck(Result<(), Seq<char>>),
    Data(Seq<u8>),
    Fin,
}

impl View for StreamEvent {
    type V = StreamEventView;

    open spec fn view(&self) -> StreamEventView {
        match self {
            StreamEvent::SynAck(Ok(_)) => StreamEventView::SynAck(Ok(())),
            StreamEvent::SynAck(Err(m)) => StreamEventView::SynAck(Err(m@)),
            StreamEvent::Data(b) => StreamEventView::Data(b@),
            StreamEvent::Fin => StreamEventView::Fin,
        }
    }
}

/// What the caller is to do next.
pub enum ClientAction<T> {
    /// Nothing.
    Ignore,
    /// Hand an event to a stream.
    Deliver(u32, StreamEvent),
    /// Tell a stream that no more data follows. It receives nothing more.
    Finish(T),
    /// Send these bytes.
    Answer(Vec<u8>),
    /// Use this padding scheme from now on.
    NewScheme(PaddingScheme),
    /// The server sent a padding scheme that cannot be read.
    BadScheme(SchemeError),
    /// End the session.
    Close,
}

/// What a [`ClientAction`] stands for.
pub enum ClientActionView<T> {
    Ignore,
    Deliver(u32, StreamEventView),
    Finish(T),
    Answer(Seq<u8>),
    /// The table of a scheme and its text.
    NewScheme(SchemeTable, Seq<char>),
    BadScheme(SchemeErrorView),
    Close,
}

impl<T> View for ClientAction<T> {
    type V = ClientActionView<T>;

    open spec fn view(&self) -> ClientActionView<T> {
        match self {
            ClientAction::Ignore => ClientActionView::Ignore,
            ClientAction::Deliver(id, e) => ClientActionView::Deliver(*id, e@),
            ClientAction::Finish(h) => ClientActionView::Finish(*h),
            ClientAction::Answer(b) => ClientActionView::Answer(b@),
            ClientAction::NewScheme(s) => ClientActionView::NewScheme(s@, s.raw@),
            ClientAction::BadScheme(e) => ClientActionView::BadScheme(e@),
            ClientAction::Close => ClientActionView::Close,
        }
    }
}

/// How the wait for the answer to a new stream ended.
#[derive(Debug)]
pub enum Waited {
    /// An event came.
    Event(StreamEvent),
    /// The session went away.
    Gone,
    /// No event came in time.
    TimedOut,
}

/// Why a stream could not be opened.
#[derive(Debug)]
pub enum OpenError {
    /// The request could not be sent.
    WriterGone,
    /// The server refused, with this message.
    Rejected(String),
    /// The session ended before the server answered.
    Closed,
    /// The server did not answer in time.
    TimedOut,
}

/// What an [`OpenError`] stands for.
pub enum OpenErrorView {
    WriterGone,
    Rejected(Seq<char>),
    Closed,
    TimedOut,
}

impl View for OpenError {
    type V = OpenErrorView;

    open spec fn view(&self) -> OpenErrorView {
        match self {
            OpenError::WriterGone => OpenErrorView::WriterGone,
            OpenError::Rejected(m) => OpenErrorView::Rejected(m@),
            OpenError::Closed => OpenErrorView::Closed,
            OpenError::TimedOut => OpenErrorView::TimedOut,
        }
    }
}

impl OpenErrorView {
    /// The message shown for this error.
    pub open spec fn message_text(self) -> Seq<char> {
        match self {
            OpenErrorView::WriterGone => "session writer gone"@,
            OpenErrorView::Rejected(m) => "server rejected stream: "@ + m,
            OpenErrorView::Closed => "session closed before SYNACK"@,
            OpenErrorView::TimedOut => "timed out waiting for SYNACK"@,
        }
    }
}

impl OpenError {
    /// The message shown for this error.
    pub fn message(&self) -> (r: String)
        ensures
            r@ == self@.message_text(),
            self matches OpenError::Rejected(m) ==> r@ == "server rejected stream: "@ + m@,
    {
        match self {
            OpenError::WriterGone => "session writer gone".to_owned(),
            OpenError::Rejected(m) => {
                let mut msg: String = "server rejected stream: ".to_owned();
                msg.append(m.as_str());
                msg
            },
            OpenError::Closed => "session closed before SYNACK".to_owned(),
            OpenError::TimedOut => "timed out waiting for SYNACK".to_owned(),
        }
    }
}

/// The outcome of opening a stream, by how the wait for its answer ended.
pub open spec fn open_outcome(waited: Waited) -> Result<(), OpenErrorView> {
    match waited {
        Waited::Event(StreamEvent::SynAck(Ok(_))) => Ok(()),
        Waited::Event(StreamEvent::SynAck(Err(m))) => Err(OpenErrorView::Rejected(m@)),
        Waited::Event(_) => Err(OpenErrorView::Closed),
        Waited::Gone => Err(OpenErrorView::Closed),
        Waited::TimedOut => Err(OpenErrorView::TimedOut),
    }
}

/// What the data of an answer to a new stream says: an address, or nothing at
/// all, means that the stream is connected; anything else is a message that
/// says why not.
pub open spec fn synack_result(data: Seq<u8>) -> Result<(), Seq<char>> {
    if addr::address_at(frame::socks_codes(), data) is Some || data.len() == 0 {
        Ok(())
    } else {
        Err(text::lossy(data))
    }
}

/// What the data of a scheme update asks for. Data that is not text is
/// ignored.
pub open spec fn scheme_update<T>(data: Seq<u8>) -> ClientActionView<T> {
    if valid_utf8(data) {
        match padding::scheme_of(decode_utf8(data)) {
            Ok(table) => ClientActionView::NewScheme(table, decode_utf8(data)),
            Err(e) => ClientActionView::BadScheme(e),
        }
    } else {
        ClientActionView::Ignore
    }
}

/// One session with a server.
pub struct ClientSession<T> {
    /// The streams that can still receive, by their ids.
    pub streams: HashMap<u32, T>,
    /// The id of the next stream.
    pub next_stream_id: u32,
    /// The number of streams in use.
    pub active_streams: u32,
    /// Whether the session has ended.
    pub closed: bool,
}

/// What a [`ClientSession`] stands for.
#[verifier::ext_equal]
#[verifier::reject_recursive_types(T)]
pub struct ClientView<T> {
    pub streams: Map<u32, T>,
    pub next_stream_id: u32,
    pub active_streams: u32,
    pub closed: bool,
}

impl<T> View for ClientSession<T> {
    type V = ClientView<T>;

    open spec fn view(&self) -> ClientView<T> {
        ClientView {
            streams: self.streams@,
            next_stream_id: self.next_stream_id,
            active_streams: self.active_streams,
            closed: self.closed,
        }
    }
}

/// The number behind `n`; counters start over at their end.
pub open spec fn one_up(n: u32) -> u32 {
    if n == u32::MAX {
        0
    } else {
        (n + 1) as u32
    }
}

/// The number in front of `n`; counters start over at their end.
pub open spec fn one_down(n: u32) -> u32 {
    if n == 0 {
        u32::MAX
    } else {
        (n - 1) as u32
    }
}

impl<T> ClientView<T> {
    /// The session of a server that was just dialed: its first stream is open
    /// already.
    pub open spec fn dialed(handle: T) -> ClientView<T> {
        ClientView {
            streams: Map::empty().insert(auth::FIRST_STREAM, handle),
            next_stream_id: 1,
            active_streams: 1,
            closed: false,
        }
    }

    /// The session with one more stream.
    pub open spec fn begun(self, handle: T) -> ClientView<T> {
        ClientView {
            streams: self.streams.insert(self.next_stream_id, handle),
            next_stream_id: one_up(self.next_stream_id),
            active_streams: one_up(self.active_streams),
            closed: self.closed,
        }
    }

    /// The session without a stream that was in use.
    pub open spec fn ended(self, stream_id: u32) -> ClientView<T> {
        ClientView {
            streams: self.streams.remove(stream_id),
            active_streams: one_down(self.active_streams),
            ..self
        }
    }

    /// Whether the session can wait for another stream.
    pub open spec fn idle(self) -> bool {
        !self.closed && self.active_streams == 0
    }

    /// What a frame makes of the session.
    pub open spec fn after(self, f: FrameView) -> ClientView<T> {
        if f.cmd == frame::CMD_FIN {
            ClientView { streams: self.streams.remove(f.stream_id), ..self }
        } else {
            self
        }
    }

    /// What a frame asks the caller to do.
    pub open spec fn action(self, f: FrameView) -> ClientActionView<T> {
        let known = self.streams.contains_key(f.stream_id);
        if f.cmd == frame::CMD_SYNACK {
            if known {
                ClientActionView::Deliver(
                    f.stream_id,
                    StreamEventView::SynAck(synack_result(f.data)),
                )
            } else {
                ClientActionView::Ignore
            }
        } else if f.cmd == frame::CMD_PSH {
            if known {
                ClientActionView::Deliver(f.stream_id, StreamEventView::Data(f.data))
            } else {
                ClientActionView::Ignore
            }
        } else if f.cmd == frame::CMD_FIN {
            if known {
                ClientActionView::Finish(self.streams[f.stream_id])
            } else {
                ClientActionView::Ignore
            }
        } else if f.cmd == frame::CMD_ALERT {
            ClientActionView::Close
        } else if f.cmd == frame::CMD_UPDATE_PADDING_SCHEME {
            scheme_update(f.data)
        } else if f.cmd == frame::CMD_HEART_REQUEST {
            ClientActionView::Answer(
                frame::frame_bytes(frame::CMD_HEART_RESPONSE, 0, Seq::empty()),
            )
        } else {
            ClientActionView::Ignore
        }
    }
}

/// Reads the answer to a new stream.
pub fn read_synack(data: &[u8]) -> (r: Result<(), String>)
    ensures
        match r {
            Ok(_) => synack_result(data@) is Ok,
            Err(m) => synack_result(data@) == Err::<(), Seq<char>>(m@),
        },
{
    if frame::decode_socks_addr(data).is_some() {
        Ok(())
    } else if data.len() == 0 {
        Ok(())
    } else {
        Err(text::lossy_text(data))
    }
}

impl<T> ClientSession<T> {
    /// The session of a server that was just dialed.
    pub fn dialed(handle: T) -> (r: ClientSession<T>)
        ensures
            r@ == ClientView::dialed(handle),
    {
        let mut streams: HashMap<u32, T> = HashMap::new();
        streams.insert(auth::FIRST_STREAM, handle);
        ClientSession { streams, next_stream_id: 1, active_streams: 1, closed: false }
    }

    /// Adds a stream. Returns its id and the request to send for it.
    pub fn begin_stream(&mut self, handle: T) -> (r: (u32, Vec<u8>))
        ensures
            final(self)@ == old(self)@.begun(handle),
            r.0 == old(self)@.next_stream_id,
            r.1@ == frame::frame_bytes(frame::CMD_SYN, r.0, seq![frame::ATYP_NONE]),
    {
        let stream_id: u32 = self.next_stream_id;
        self.next_stream_id = stream_id.wrapping_add(1);
        self.streams.insert(stream_id, handle);
        self.active_streams = self.active_streams.wrapping_add(1);
        let none: [u8; 1] = [frame::ATYP_NONE];
        assert(none@ =~= seq![frame::ATYP_NONE]);
        (stream_id, frame::encode_frame(frame::CMD_SYN, stream_id, none.as_slice()))
    }

    /// Takes a stream out of use.
    pub fn end_stream(&mut self, stream_id: u32)
        ensures
            final(self)@ == old(self)@.ended(stream_id),
    {
        self.streams.remove(&stream_id);
        self.active_streams = self.active_streams.wrapping_sub(1);
    }

    /// Settles whether a new stream is open, by how the wait for its answer
    /// ended. A stream that is not is taken out of use.
    pub fn finish_open(&mut self, stream_id: u32, waited: Waited) -> (r: Result<(), OpenError>)
        ensures
            match r {
                Ok(_) => open_outcome(waited) is Ok && final(self)@ == old(self)@,
                Err(e) => open_outcome(waited) == Err::<(), OpenErrorView>(e@) && final(self)@
                    == old(self)@.ended(stream_id),
            },
    {
        let error: OpenError = match waited {
            Waited::Event(StreamEvent::SynAck(Ok(_))) => {
                return Ok(());
            },
            Waited::Event(StreamEvent::SynAck(Err(m))) => OpenError::Rejected(m),
            Waited::Event(_) => OpenError::Closed,
            Waited::Gone => OpenError::Closed,
            Waited::TimedOut => OpenError::TimedOut,
        };
        self.end_stream(stream_id);
        Err(error)
    }

    /// Takes a new stream out of use whose request could not be sent.
    pub fn abandon_open(&mut self, stream_id: u32) -> (r: OpenError)
        ensures
            r@ == OpenErrorView::WriterGone,
            final(self)@ == old(self)@.ended(stream_id),
    {
        self.end_stream(stream_id);
        OpenError::WriterGone
    }

    /// The handle of a stream that can still receive.
    pub fn stream(&self, stream_id: u32) -> (r: Option<&T>)
        ensures
            match r {
                Some(h) => self@.streams.contains_key(stream_id) && self@.streams[stream_id] == *h,
                None => !self@.streams.contains_key(stream_id),
            },
    {
        self.streams.get(&stream_id)
    }

    /// Takes in a frame.
    pub fn on_frame(&mut self, cmd: u8, stream_id: u32, data: Vec<u8>) -> (r: ClientAction<T>)
        ensures
            final(self)@ == old(self)@.after((FrameView { cmd, stream_id, data: data@ })),
            r@ == old(self)@.action((FrameView { cmd, stream_id, data: data@ })),
    {
        if cmd == frame::CMD_SYNACK {
            if self.streams.contains_key(&stream_id) {
                let result: Result<(), String> = read_synack(data.as_slice());
                ClientAction::Deliver(stream_id, StreamEvent::SynAck(result))
            } else {
                ClientAction::Ignore
            }
        } else if cmd == frame::CMD_PSH {
            if self.streams.contains_key(&stream_id) {
                ClientAction::Deliver(stream_id, StreamEvent::Data(data))
            } else {
                ClientAction::Ignore
            }
        } else if cmd == frame::CMD_FIN {
            let ghost before = self.streams@;
            match self.streams.remove(&stream_id) {
                Some(h) => ClientAction::Finish(h),
                None => {
                    assert(before.remove(stream_id) =~= before);
                    ClientAction::Ignore
                },
            }
        } else if cmd == frame::CMD_ALERT {
            ClientAction::Close
        } else if cmd == frame::CMD_UPDATE_PADDING_SCHEME {
            match text::utf8_text(data) {
                Some(raw) => match PaddingScheme::parse(raw.as_str()) {
                    Ok(scheme) => ClientAction::NewScheme(scheme),
                    Err(e) => ClientAction::BadScheme(e),
                },
                None => ClientAction::Ignore,
            }
        } else if cmd == frame::CMD_HEART_REQUEST {
            let empty: Vec<u8> = Vec::new();
            ClientAction::Answer(
                frame::encode_frame(frame::CMD_HEART_RESPONSE, 0, empty.as_slice()),
            )
        } else {
            ClientAction::Ignore
        }
    }

    /// Whether the session can wait for another stream.
    pub fn is_idle(&self) -> (r: bool)
        ensures
            r == self@.idle(),
    {
        !self.closed && self.active_streams == 0
    }

    /// Ends the session from this side. Tells whether it had not ended
    /// before.
    pub fn close(&mut self) -> (r: bool)
        ensures
            r == !old(self)@.closed,
            final(self)@ == (ClientView { closed: true, ..old(self)@ }),
    {
        let open: bool = !self.closed;
        self.closed = true;
        open
    }

    /// Takes note that the server went away. Returns the streams that could
    /// still receive; they are to be told that no more data follows.
    pub fn disconnected(&mut self) -> (r: HashMap<u32, T>)
        ensures
            r@ == old(self)@.streams,
            final(self)@ == (ClientView { streams: Map::empty(), closed: true, ..old(self)@ }),
    {
        self.closed = true;
        let mut open: HashMap<u32, T> = HashMap::new();
        std::mem::swap(&mut open, &mut self.streams);
        open
    }
}

/// Opening a stream and taking it out of use again leaves the other streams
/// and their number as they were.
pub proof fn law_begin_then_end<T>(s: ClientView<T>, handle: T)
    requires
        !s.streams.contains_key(s.next_stream_id),
    ensures
        s.begun(handle).ended(s.next_stream_id).streams == s.streams,
        s.begun(handle).ended(s.next_stream_id).active_streams == s.active_streams,
        s.begun(handle).ended(s.next_stream_id).closed == s.closed,
{
    assert(s.begun(handle).ended(s.next_stream_id).streams =~= s.streams);
}

/// A session is idle again once its first stream is done.
pub proof fn law_first_stream_done<T>(handle: T)
    ensures
        !ClientView::<T>::dialed(handle).idle(),
        ClientView::<T>::dialed(handle).ended(auth::FIRST_STREAM).idle(),
        ClientView::<T>::dialed(handle).ended(auth::FIRST_STREAM).streams == Map::<
            u32,
            T,
        >::empty(),
{
    assert(ClientView::<T>::dialed(handle).ended(auth::FIRST_STREAM).streams =~= Map::<
        u32,
        T,
    >::empty());
}

/// A client takes the answer to a connected stream for what it is, whatever
/// the backend's address.
pub proof fn law_success_is_understood(
    backend: Seq<char>,
    ip: Option<addr::IpLiteral>,
)
    ensures
        synack_result(
            addr::address_bytes(frame::socks_codes(), addr::named_address(backend, ip)),
        ) is Ok,
{
    let bytes = addr::address_bytes(frame::socks_codes(), addr::named_address(backend, ip));
    addr::law_address_round_trip(frame::socks_codes(), backend, ip, Seq::empty());
    assert(bytes + Seq::<u8>::empty() =~= bytes);
}

/// The session and the actions after a run of frames.
pub open spec fn receive_all<T>(s: ClientView<T>, frames: Seq<FrameView>) -> (
    ClientView<T>,
    Seq<ClientActionView<T>>,
)
    decreases frames.len(),
{
    if frames.len() == 0 {
        (s, Seq::empty())
    } else {
        let (end, actions) = receive_all(s.after(frames[0]), frames.skip(1));
        (end, seq![s.action(frames[0])] + actions)
    }
}

/// What a server sends on a stream reaches it: all that was read, unchanged and
/// in order, whatever the lengths of the reads, and then the end of the data.
pub proof fn law_download_reaches_stream<T>(
    s: ClientView<T>,
    stream_id: u32,
    reads: Seq<Seq<u8>>,
)
    requires
        s.streams.contains_key(stream_id),
    ensures
        receive_all(s, frame::stream_frames(stream_id, reads)).0 == (ClientView {
            streams: s.streams.remove(stream_id),
            ..s
        }),
        receive_all(s, frame::stream_frames(stream_id, reads)).1 == frame::read_chunks(
            reads,
        ).map_values(
            |c: Seq<u8>| ClientActionView::<T>::Deliver(stream_id, StreamEventView::Data(c)),
        ).push(ClientActionView::Finish(s.streams[stream_id])),
        wire::joined(frame::read_chunks(reads)) == wire::joined(reads),
{
    lemma_chunks_reach_stream(s, stream_id, frame::read_chunks(reads));
    frame::lemma_stream_frames(stream_id, reads);
}

proof fn lemma_chunks_reach_stream<T>(s: ClientView<T>, stream_id: u32, chunks: Seq<Seq<u8>>)
    requires
        s.streams.contains_key(stream_id),
    ensures
        ({
            let frames = frame::chunk_frames(stream_id, chunks).push(frame::fin_frame(stream_id));
            &&& receive_all(s, frames).0 == (ClientView {
                streams: s.streams.remove(stream_id),
                ..s
            })
            &&& receive_all(s, frames).1 == chunks.map_values(
                |c: Seq<u8>| ClientActionView::<T>::Deliver(stream_id, StreamEventView::Data(c)),
            ).push(ClientActionView::Finish(s.streams[stream_id]))
        }),
    decreases chunks.len(),
{
    let frames = frame::chunk_frames(stream_id, chunks).push(frame::fin_frame(stream_id));
    let expected = chunks.map_values(
        |c: Seq<u8>| ClientActionView::<T>::Deliver(stream_id, StreamEventView::Data(c)),
    ).push(ClientActionView::Finish(s.streams[stream_id]));
    reveal_with_fuel(receive_all, 2);
    if chunks.len() == 0 {
        assert(frames.skip(1) =~= Seq::<FrameView>::empty());
        assert(receive_all(s, frames).1 =~= expected);
    } else {
        let rest = chunks.skip(1);
        assert(frames.skip(1) =~= frame::chunk_frames(stream_id, rest).push(
            frame::fin_frame(stream_id),
        ));
        lemma_chunks_reach_stream(s, stream_id, rest);
        assert(receive_all(s, frames).1 =~= expected);
    }
}

/// A text that starts with an ASCII character above the address types reads
/// as a refusal that says just that.
proof fn lemma_message_is_refusal(message: Seq<char>)
    requires
        message.len() > 0,
        0x04 < message[0] as u32 && (message[0] as u32) < 0x80,
    ensures
        synack_result(encode_utf8(message)) == Err::<(), Seq<char>>(message),
{
    let data = encode_utf8(message);
    let first = message[0] as u32;
    assert(first < 0x80 ==> (first & 0x7F) as u8 == first) by (bit_vector);
    assert(data[0] == encode_scalar(first)[0]);
    encode_utf8_valid_utf8(message);
    encode_utf8_decode_utf8(message);
}

/// A client takes a refused stream for what it is, and learns the reason: that
/// there are too many streams, or why the backend could not be reached.
pub proof fn law_refusal_is_understood(reason: Seq<char>)
    ensures
        synack_result(encode_utf8("too many streams"@)) == Err::<(), Seq<char>>(
            "too many streams"@,
        ),
        synack_result(encode_utf8("failed to connect to target: "@ + reason)) == Err::<
            (),
            Seq<char>,
        >("failed to connect to target: "@ + reason),
{
    reveal_strlit("too many streams");
    reveal_strlit("failed to connect to target: ");
    lemma_message_is_refusal("too many streams"@);
    let message = "failed to connect to target: "@ + reason;
    assert(message[0] == 'f');
    lemma_message_is_refusal(message);
}

/// The data that `actions` hand to a stream, in order.
pub open spec fn delivered<T>(actions: Seq<ClientActionView<T>>, stream_id: u32) -> Seq<Seq<u8>>
    decreases actions.len(),
{
    if actions.len() == 0 {
        Seq::empty()
    } else {
        let rest = delivered(actions.skip(1), stream_id);
        match actions[0] {
            ClientActionView::Deliver(id, StreamEventView::Data(data)) => if id == stream_id {
                seq![data] + rest
            } else {
                rest
            },
            _ => rest,
        }
    }
}

pub(crate) proof fn lemma_delivered_cons<T>(
    head: ClientActionView<T>,
    tail: Seq<ClientActionView<T>>,
    stream_id: u32,
)
    ensures
        delivered(seq![head] + tail, stream_id) == (match head {
            ClientActionView::Deliver(id, StreamEventView::Data(data)) => if id == stream_id {
                seq![data] + delivered(tail, stream_id)
            } else {
                delivered(tail, stream_id)
            },
            _ => delivered(tail, stream_id),
        }),
{
    assert((seq![head] + tail).skip(1) =~= tail);
}

/// Streams that share a session do not mix: what one receives is what it would
/// receive if its frames were the only ones.
pub proof fn law_streams_do_not_mix<T>(s: ClientView<T>, frames: Seq<FrameView>, stream_id: u32)
    ensures
        delivered(receive_all(s, frames).1, stream_id) == delivered(
            receive_all(s, frame::frames_of_stream(frames, stream_id)).1,
            stream_id,
        ),
{
    lemma_do_not_mix(s, s, frames, stream_id);
}

proof fn lemma_do_not_mix<T>(
    s: ClientView<T>,
    alone: ClientView<T>,
    frames: Seq<FrameView>,
    stream_id: u32,
)
    requires
        s.streams.contains_key(stream_id) <==> alone.streams.contains_key(stream_id),
    ensures
        delivered(receive_all(s, frames).1, stream_id) == delivered(
            receive_all(alone, frame::frames_of_stream(frames, stream_id)).1,
            stream_id,
        ),
    decreases frames.len(),
{
    if frames.len() > 0 {
        let f = frames[0];
        let rest = frames.skip(1);
        let own = frame::frames_of_stream(rest, stream_id);
        lemma_delivered_cons(s.action(f), receive_all(s.after(f), rest).1, stream_id);
        if f.stream_id == stream_id {
            lemma_do_not_mix(s.after(f), alone.after(f), rest, stream_id);
            lemma_delivered_cons(alone.action(f), receive_all(alone.after(f), own).1, stream_id);
            assert((seq![f] + own).skip(1) =~= own);
        } else {
            lemma_do_not_mix(s.after(f), alone, rest, stream_id);
        }
    }
}

/// A session that has ended is never put to use again: nothing reopens it.
pub proof fn law_closed_is_final<T>(s: ClientView<T>, f: FrameView, handle: T, stream_id: u32)
    requires
        s.closed,
    ensures
        !s.idle(),
        s.after(f).closed,
        s.begun(handle).closed,
        s.ended(stream_id).closed,
{
}

/// A dialed session has its first stream, and that one alone.
pub proof fn law_dialed_session<T>(handle: T, id: u32)
    ensures
        ClientView::<T>::dialed(handle).streams.contains_key(id) <==> id == 1,
        ClientView::<T>::dialed(handle).streams[1] == handle,
        ClientView::<T>::dialed(handle).next_stream_id == 1,
        ClientView::<T>::dialed(handle).active_streams == 1,
        !ClientView::<T>::dialed(handle).closed,
{
}

/// A new stream gets the next id, and ids and streams in use are counted up by
/// one; of a stream that ends the use is counted down by one, and the next id
/// stays what it is. The other streams stay as they are.
pub proof fn law_streams_are_counted<T>(s: ClientView<T>, handle: T, id: u32, other: u32)
    ensures
        s.begun(handle).streams.contains_key(s.next_stream_id),
        s.begun(handle).streams[s.next_stream_id] == handle,
        s.begun(handle).next_stream_id == (s.next_stream_id + 1) % 0x1_0000_0000,
        s.begun(handle).active_streams == (s.active_streams + 1) % 0x1_0000_0000,
        s.begun(handle).closed == s.closed,
        other != s.next_stream_id ==> s.begun(handle).streams.contains_key(other)
            == s.streams.contains_key(other),
        other != s.next_stream_id && s.streams.contains_key(other) ==> s.begun(
            handle,
        ).streams[other] == s.streams[other],
        !s.ended(id).streams.contains_key(id),
        s.ended(id).next_stream_id == s.next_stream_id,
        s.active_streams > 0 ==> s.ended(id).active_streams == s.active_streams - 1,
        s.active_streams == 0 ==> s.ended(id).active_streams == 0xFFFF_FFFF,
        s.ended(id).closed == s.closed,
        other != id ==> s.ended(id).streams.contains_key(other) == s.streams.contains_key(other),
        other != id && s.streams.contains_key(other) ==> s.ended(id).streams[other]
            == s.streams[other],
{
}

/// A session can wait for another stream if and only if it is open and none of
/// its streams is in use.
pub proof fn law_idle_sessions<T>(s: ClientView<T>)
    ensures
        s.idle() <==> !s.closed && s.active_streams == 0,
{
}

/// What comes for a stream goes to that stream: the answer to its request, its
/// data, and its end, behind which it receives nothing more. All is ignored
/// where no such stream is open, and no other stream is touched.
pub proof fn law_stream_receives_its_own<T>(s: ClientView<T>, f: FrameView, other: u32)
    requires
        f.cmd == 7 || f.cmd == 2 || f.cmd == 3,
    ensures
        !s.streams.contains_key(f.stream_id) ==> s.after(f) == s && s.action(f)
            == ClientActionView::<T>::Ignore,
        s.streams.contains_key(f.stream_id) && f.cmd == 7 ==> s.after(f) == s && s.action(f)
            == ClientActionView::<T>::Deliver(
            f.stream_id,
            StreamEventView::SynAck(synack_result(f.data)),
        ),
        s.streams.contains_key(f.stream_id) && f.cmd == 2 ==> s.after(f) == s && s.action(f)
            == ClientActionView::<T>::Deliver(f.stream_id, StreamEventView::Data(f.data)),
        s.streams.contains_key(f.stream_id) && f.cmd == 3 ==> !s.after(f).streams.contains_key(
            f.stream_id,
        ) && s.action(f) == ClientActionView::<T>::Finish(s.streams[f.stream_id]),
        s.after(f).next_stream_id == s.next_stream_id,
        s.after(f).active_streams == s.active_streams,
        s.after(f).closed == s.closed,
        other != f.stream_id ==> s.after(f).streams.contains_key(other)
            == s.streams.contains_key(other),
        other != f.stream_id && s.streams.contains_key(other) ==> s.after(f).streams[other]
            == s.streams[other],
{
    if !s.streams.contains_key(f.stream_id) {
        assert(s.streams.remove(f.stream_id) =~= s.streams);
    }
}

/// A sign of life is given when asked for, an alert ends the session, and
/// whatever else a server sends but padding schemes and what is meant for a
/// stream is ignored. None of it changes the session.
pub proof fn law_other_frames<T>(s: ClientView<T>, f: FrameView)
    requires
        f.cmd != 7 && f.cmd != 2 && f.cmd != 3,
    ensures
        s.after(f) == s,
        f.cmd == 8 ==> s.action(f) == ClientActionView::<T>::Answer(
            frame::frame_bytes(9, 0, Seq::empty()),
        ),
        f.cmd == 5 ==> s.action(f) == ClientActionView::<T>::Close,
        f.cmd != 8 && f.cmd != 5 && f.cmd != 6 ==> s.action(f) == ClientActionView::<T>::Ignore,
{
}

/// A padding scheme that the server hands out is used if it can be read, and
/// what is wrong with it is reported if it cannot. Bytes that are not text are
/// ignored.
pub proof fn law_schemes_are_taken_over<T>(s: ClientView<T>, f: FrameView, raw: Seq<char>)
    requires
        f.cmd == 6,
    ensures
        !valid_utf8(f.data) ==> s.action(f) == ClientActionView::<T>::Ignore,
        f.data == encode_utf8(raw) ==> (match padding::scheme_of(raw) {
            Ok(table) => s.action(f) == ClientActionView::<T>::NewScheme(table, raw),
            Err(e) => s.action(f) == ClientActionView::<T>::BadScheme(e),
        }),
{
    encode_utf8_valid_utf8(raw);
    encode_utf8_decode_utf8(raw);
}

/// A stream is connected if and only if the answer to its request is empty or
/// starts with an address; any other answer is the reason why not.
pub proof fn law_answers_are_understood(data: Seq<u8>)
    ensures
        synack_result(data) is Ok <==> data.len() == 0 || addr::address_at(
            frame::socks_codes(),
            data,
        ) is Some,
        synack_result(data) matches Err(m) ==> (valid_utf8(data) ==> m == decode_utf8(data)) && (
        !valid_utf8(data) ==> m == text::utf8_lossy(data)),
{
}

/// A stream is open if and only if the wait for its answer ended with one that
/// says so. A refusal is passed on with its reason; anything else that came, or
/// a session that went away, means that it was closed; and silence is told
/// from both.
pub proof fn law_open_outcomes(waited: Waited)
    ensures
        open_outcome(waited) is Ok <==> (waited matches Waited::Event(e) && (e
            matches StreamEvent::SynAck(r) && r is Ok)),
        waited is TimedOut <==> open_outcome(waited) == Err::<(), OpenErrorView>(
            OpenErrorView::TimedOut,
        ),
        waited is Gone ==> open_outcome(waited) == Err::<(), OpenErrorView>(OpenErrorView::Closed),
        waited matches Waited::Event(e) ==> {
            &&& e is Data || e is Fin ==> open_outcome(waited) == Err::<(), OpenErrorView>(
                OpenErrorView::Closed,
            )
            &&& e matches StreamEvent::SynAck(Err(m)) ==> open_outcome(waited) == Err::<
                (),
                OpenErrorView,
            >(OpenErrorView::Rejected(m@))
        },
{
}

} // verus!
