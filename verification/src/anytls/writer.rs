//! The client's padded writer: turns each packet into the writes that go to
//! the TLS session.
use crate::anytls::frame;
use crate::anytls::frame::FrameView;
use crate::padding;
use crate::padding::Chunk;
use crate::padding::ChunkView;
use crate::padding::PaddingScheme;
use crate::padding::SchemeTable;
use crate::padding::Segment;
use crate::wire;
use vstd::prelude::*;

verus! {

/// One write to the TLS session.
#[derive(Debug, Clone, PartialEq, Eq)]
pub enum WireWrite<'a> {
    /// Bytes of the packet.
    Data(&'a [u8]),
    /// Whole frames of padding.
    Filler(Vec<u8>),
}

impl<'a> View for WireWrite<'a> {
    type V = Seq<u8>;

    open spec fn view(&self) -> Seq<u8> {
        match self {
            WireWrite::Data(b) => b@,
            WireWrite::Filler(v) => v@,
        }
    }
}

impl<'a> WireWrite<'a> {
    /// The bytes to write.
    pub fn bytes(&self) -> (r: &[u8])
        ensures
            r@ == self@,
    {
        match self {
            WireWrite::Data(b) => b,
            WireWrite::Filler(v) => v.as_slice(),
        }
    }
}

/// What a list of writes stands for.
pub open spec fn write_views<'a>(v: Seq<WireWrite<'a>>) -> Seq<Seq<u8>> {
    v.map_values(|w: WireWrite<'a>| w@)
}

/// A padding frame that takes up `n` bytes.
pub open spec fn waste_frame(n: nat) -> FrameView {
    FrameView {
        cmd: frame::CMD_WASTE,
        stream_id: 0,
        data: wire::zero_bytes((n - frame::FRAME_HEADER_LEN) as nat),
    }
}

/// The size of the first of the padding frames that together take up `n`
/// bytes: as large as its length field allows, but so that what is left can
/// hold a frame header.
pub open spec fn first_filler(n: nat) -> nat {
    if n <= 7 + 0xFFFF {
        n
    } else if n - 7 < 7 + 0xFFFF {
        (n - 7) as nat
    } else {
        7 + 0xFFFF
    }
}

/// The padding frames that a filler of `n` bytes becomes: one, or several
/// where one cannot be that long. A filler too small to hold a frame header is
/// left out.
pub open spec fn filler(n: nat) -> Seq<FrameView>
    decreases n,
{
    if n < frame::FRAME_HEADER_LEN {
        Seq::empty()
    } else if n <= 7 + 0xFFFF {
        seq![waste_frame(n)]
    } else {
        seq![waste_frame(first_filler(n))] + filler((n - first_filler(n)) as nat)
    }
}

/// The writes that carry out a plan.
pub open spec fn writes_of(chunks: Seq<ChunkView>) -> Seq<Seq<u8>>
    decreases chunks.len(),
{
    if chunks.len() == 0 {
        Seq::empty()
    } else {
        match chunks[0] {
            ChunkView::Real(b) => seq![b] + writes_of(chunks.skip(1)),
            ChunkView::Waste(n) => if n >= frame::FRAME_HEADER_LEN {
                seq![frame::frames_bytes(filler(n))] + writes_of(chunks.skip(1))
            } else {
                writes_of(chunks.skip(1))
            },
        }
    }
}

/// The state of the writer of one session.
#[derive(Debug, Clone, Copy, PartialEq, Eq, Structural)]
pub struct PaddedWriter {
    /// The index of the next packet.
    pub packet_index: u32,
    /// The stop index of the scheme that the last padded packet went by.
    pub cached_stop: Option<u32>,
}

impl PaddedWriter {
    /// Whether padding is over: packets pass through, and the scheme is no
    /// longer looked at.
    pub open spec fn done(self) -> bool {
        self.cached_stop matches Some(s) && self.packet_index >= s
    }

    /// The writes for the next packet, given the sizes chosen for it.
    pub open spec fn writes(self, scheme: SchemeTable, targets: Seq<u32>, data: Seq<u8>) -> Seq<
        Seq<u8>,
    > {
        if self.done() {
            seq![data]
        } else {
            writes_of(padding::packet_plan(scheme, self.packet_index, targets, data))
        }
    }

    /// The writer once a packet is written.
    pub open spec fn after(self, scheme: SchemeTable) -> PaddedWriter {
        PaddedWriter {
            packet_index: if self.packet_index < u32::MAX {
                (self.packet_index + 1) as u32
            } else {
                u32::MAX
            },
            cached_stop: if self.done() {
                self.cached_stop
            } else {
                Some(scheme.stop)
            },
        }
    }

    /// The writer of a new session. Packet 0 is the authentication, so it
    /// starts at packet 1.
    pub fn new() -> (r: PaddedWriter)
        ensures
            r == (PaddedWriter { packet_index: 1, cached_stop: None }),
    {
        PaddedWriter { packet_index: 1, cached_stop: None }
    }

    /// Whether padding is over.
    pub fn is_done(&self) -> (r: bool)
        ensures
            r == self.done(),
    {
        match self.cached_stop {
            Some(s) => self.packet_index >= s,
            None => false,
        }
    }

    fn advance(&mut self, stop: u32)
        ensures
            *final(self) == (PaddedWriter {
                packet_index: if old(self).packet_index < u32::MAX {
                    (old(self).packet_index + 1) as u32
                } else {
                    u32::MAX
                },
                cached_stop: if old(self).done() {
                    old(self).cached_stop
                } else {
                    Some(stop)
                },
            }),
    {
        if !self.is_done() {
            self.cached_stop = Some(stop);
        }
        if self.packet_index < u32::MAX {
            self.packet_index = self.packet_index + 1;
        }
    }

    /// The writes for the next packet, with the given choice of sizes.
    pub fn next_write_with<'a>(
        &mut self,
        scheme: &PaddingScheme,
        targets: &[u32],
        data: &'a [u8],
    ) -> (r: Vec<WireWrite<'a>>)
        requires
            padding::rule_for(scheme@, old(self).packet_index) matches Some(segs) ==> targets.len()
                == segs.len(),
        ensures
            write_views(r@) == old(self).writes(scheme@, targets@, data@),
            *final(self) == old(self).after(scheme@),
    {
        let mut out: Vec<WireWrite<'a>> = Vec::new();
        if self.is_done() {
            out.push(WireWrite::Data(data));
            assert(write_views(out@) =~= seq![data@]);
        } else {
            let chunks: Vec<Chunk<'a>> = padding::plan_write_with(
                scheme,
                self.packet_index,
                targets,
                data,
            );
            out = carry_out(chunks);
        }
        self.advance(scheme.stop);
        out
    }

    /// The writes for the next packet, with a random choice of sizes where the
    /// scheme leaves one.
    pub fn next_write<'a>(&mut self, scheme: &PaddingScheme, data: &'a [u8]) -> (r: Vec<
        WireWrite<'a>,
    >)
        ensures
            old(self).done() ==> write_views(r@) == seq![data@],
            !old(self).done() ==> exists|targets: Seq<u32>|
                padding::packet_targets_fit(scheme@, old(self).packet_index, targets)
                    && write_views(r@) == #[trigger] old(self).writes(scheme@, targets, data@),
            *final(self) == old(self).after(scheme@),
    {
        let targets: Vec<u32> = scheme.pick_targets(self.packet_index);
        self.next_write_with(scheme, targets.as_slice(), data)
    }
}

/// Builds the padding frames that together take up `n` bytes.
fn build_filler(n: usize) -> (r: Vec<u8>)
    ensures
        r@ == frame::frames_bytes(filler(n as nat)),
{
    let mut out: Vec<u8> = Vec::new();
    let mut left: usize = n;
    let ghost all = frame::frames_bytes(filler(n as nat));
    assert(out@ + all =~= all);
    while left >= frame::FRAME_HEADER_LEN
        invariant
            all == frame::frames_bytes(filler(n as nat)),
            out@ + frame::frames_bytes(filler(left as nat)) == all,
        decreases left,
    {
        let size: usize = if left <= frame::FRAME_HEADER_LEN + frame::MAX_FRAME_DATA {
            left
        } else if left - frame::FRAME_HEADER_LEN < frame::FRAME_HEADER_LEN
            + frame::MAX_FRAME_DATA {
            left - frame::FRAME_HEADER_LEN
        } else {
            frame::FRAME_HEADER_LEN + frame::MAX_FRAME_DATA
        };
        let body: Vec<u8> = wire::zeros(size - frame::FRAME_HEADER_LEN);
        let built: Vec<u8> = frame::encode_frame(frame::CMD_WASTE, 0, body.as_slice());
        let ghost before = out@;
        wire::append_bytes(&mut out, built.as_slice());
        proof {
            let rest = filler((left - size) as nat);
            let f = waste_frame(size as nat);
            assert(filler(left as nat) =~= seq![f] + rest);
            lemma_filler_cons(f, rest);
            let tail = frame::frames_bytes(rest);
            assert(out@ + tail =~= before + (built@ + tail));
        }
        left = left - size;
    }
    assert(frame::frames_bytes(filler(left as nat)) =~= Seq::<u8>::empty());
    assert(out@ + Seq::<u8>::empty() =~= out@);
    out
}

/// The writes that carry out `chunks`.
fn carry_out<'a>(chunks: Vec<Chunk<'a>>) -> (r: Vec<WireWrite<'a>>)
    ensures
        write_views(r@) == writes_of(padding::chunk_views(chunks@)),
{
    let ghost all = padding::chunk_views(chunks@);
    let mut out: Vec<WireWrite<'a>> = Vec::new();
    let mut i: usize = 0;
    assert(all.skip(0) =~= all);
    assert(write_views(out@) + writes_of(all) =~= writes_of(all));
    while i < chunks.len()
        invariant
            i <= chunks.len(),
            all == padding::chunk_views(chunks@),
            write_views(out@) + writes_of(all.skip(i as int)) == writes_of(all),
        decreases chunks.len() - i,
    {
        let ghost before = write_views(out@);
        let ghost rest = writes_of(all.skip(i + 1));
        assert(all.skip(i as int)[0] == chunks@[i as int]@);
        assert(all.skip(i as int).skip(1) =~= all.skip(i + 1));
        match chunks[i] {
            Chunk::Real(b) => {
                out.push(WireWrite::Data(b));
                assert(write_views(out@) =~= before.push(b@));
                assert(write_views(out@) + rest =~= before + (seq![b@] + rest));
            },
            Chunk::Waste(n) => {
                if n >= frame::FRAME_HEADER_LEN {
                    let bytes: Vec<u8> = build_filler(n);
                    let ghost w = bytes@;
                    out.push(WireWrite::Filler(bytes));
                    assert(write_views(out@) =~= before.push(w));
                    assert(write_views(out@) + rest =~= before + (seq![w] + rest));
                }
            },
        }
        i = i + 1;
    }
    assert(all.skip(i as int).len() == 0);
    assert(write_views(out@) + writes_of(all.skip(i as int)) =~= write_views(out@));
    out
}

/// The padding frames of a plan.
pub open spec fn filler_frames(chunks: Seq<ChunkView>) -> Seq<FrameView>
    decreases chunks.len(),
{
    if chunks.len() == 0 {
        Seq::empty()
    } else {
        match chunks[0] {
            ChunkView::Real(_) => filler_frames(chunks.skip(1)),
            ChunkView::Waste(n) => filler(n) + filler_frames(chunks.skip(1)),
        }
    }
}

proof fn lemma_writes_cons(head: ChunkView, tail: Seq<ChunkView>)
    ensures
        wire::joined(writes_of(seq![head] + tail)) == (match head {
            ChunkView::Real(b) => b + wire::joined(writes_of(tail)),
            ChunkView::Waste(n) => frame::frames_bytes(filler(n)) + wire::joined(writes_of(tail)),
        }),
        filler_frames(seq![head] + tail) == (match head {
            ChunkView::Real(_) => filler_frames(tail),
            ChunkView::Waste(n) => filler(n) + filler_frames(tail),
        }),
{
    let rest = writes_of(tail);
    assert((seq![head] + tail).skip(1) =~= tail);
    match head {
        ChunkView::Real(b) => {
            assert((seq![b] + rest).skip(1) =~= rest);
        },
        ChunkView::Waste(n) => {
            let w = frame::frames_bytes(filler(n));
            if n >= frame::FRAME_HEADER_LEN {
                assert((seq![w] + rest).skip(1) =~= rest);
            } else {
                assert(w =~= Seq::<u8>::empty());
                assert(w + wire::joined(rest) =~= wire::joined(rest));
            }
        },
    }
}

proof fn lemma_filler_cons(f: FrameView, tail: Seq<FrameView>)
    ensures
        frame::frames_bytes(seq![f] + tail) == frame::frame_bytes(f.cmd, f.stream_id, f.data)
            + frame::frames_bytes(tail),
{
    assert((seq![f] + tail).skip(1) =~= tail);
}

/// On the wire a plan is its data, followed by its padding frames.
proof fn lemma_plan_on_wire(segs: Seq<Segment>, targets: Seq<u32>, data: Seq<u8>)
    ensures
        wire::joined(writes_of(padding::plan(segs, targets, data))) == data + frame::frames_bytes(
            filler_frames(padding::plan(segs, targets, data)),
        ),
    decreases segs.len(),
{
    let none = Seq::<ChunkView>::empty();
    let whole = ChunkView::Real(data);
    lemma_writes_cons(whole, none);
    assert(seq![whole] + none =~= seq![whole]);
    let all = padding::plan(segs, targets, data);
    let nothing = Seq::<u8>::empty();
    assert(frame::frames_bytes(Seq::empty()) =~= nothing);
    assert(data + nothing =~= data);
    if segs.len() == 0 {
        if data.len() == 0 {
            assert(data + nothing =~= nothing);
        }
    } else {
        match segs[0] {
            Segment::Check => {
                if data.len() == 0 {
                    assert(data + nothing =~= nothing);
                } else {
                    lemma_plan_on_wire(segs.skip(1), targets.skip(1), data);
                }
            },
            Segment::Range(_, _) => {
                let t = targets[0] as int;
                if data.len() >= t {
                    let rest = padding::plan(segs.skip(1), targets.skip(1), data.skip(t));
                    lemma_plan_on_wire(segs.skip(1), targets.skip(1), data.skip(t));
                    lemma_writes_cons(ChunkView::Real(data.take(t)), rest);
                    let fill = frame::frames_bytes(filler_frames(rest));
                    assert(data.take(t) + (data.skip(t) + fill) =~= data + fill);
                } else {
                    let rest = padding::plan(segs.skip(1), targets.skip(1), Seq::empty());
                    let n = (t - data.len()) as nat;
                    let waste = ChunkView::Waste(n);
                    lemma_plan_on_wire(segs.skip(1), targets.skip(1), Seq::empty());
                    lemma_writes_cons(waste, rest);
                    let fill = frame::frames_bytes(filler_frames(rest));
                    assert(nothing + fill =~= fill);
                    frame::lemma_frames_bytes_add(filler(n), filler_frames(rest));
                    if data.len() > 0 {
                        lemma_writes_cons(whole, seq![waste] + rest);
                        assert(seq![whole] + seq![waste] + rest =~= seq![whole] + (seq![waste]
                            + rest));
                    } else {
                        assert(none + seq![waste] + rest =~= seq![waste] + rest);
                        assert(data + frame::frames_bytes(filler_frames(all))
                            =~= frame::frames_bytes(filler_frames(all)));
                    }
                }
            },
        }
    }
}

/// Whether all frames are padding that fits its length field.
spec fn all_waste(frames: Seq<FrameView>) -> bool {
    forall|i: int|
        0 <= i < frames.len() ==> (#[trigger] frames[i]).cmd == frame::CMD_WASTE
            && frames[i].data.len() <= 0xFFFF
}

proof fn lemma_all_waste_add(a: Seq<FrameView>, b: Seq<FrameView>)
    requires
        all_waste(a),
        all_waste(b),
    ensures
        all_waste(a + b),
{
    assert forall|i: int| 0 <= i < (a + b).len() implies (#[trigger] (a + b)[i]).cmd
        == frame::CMD_WASTE && (a + b)[i].data.len() <= 0xFFFF by {
        if i < a.len() {
            assert((a + b)[i] == a[i]);
        } else {
            assert((a + b)[i] == b[i - a.len()]);
        }
    }
}

proof fn lemma_filler_is_waste(n: nat)
    ensures
        all_waste(filler(n)),
        n >= frame::FRAME_HEADER_LEN ==> frame::frames_bytes(filler(n)).len() == n,
        n < frame::FRAME_HEADER_LEN ==> frame::frames_bytes(filler(n)).len() == 0,
    decreases n,
{
    if n >= frame::FRAME_HEADER_LEN {
        let size = first_filler(n);
        let rest = (n - size) as nat;
        let f = waste_frame(size);
        lemma_filler_is_waste(rest);
        assert(filler(n) =~= seq![f] + filler(rest));
        lemma_filler_cons(f, filler(rest));
        lemma_all_waste_add(seq![f], filler(rest));
    }
}

proof fn lemma_filler_frames(chunks: Seq<ChunkView>)
    ensures
        all_waste(filler_frames(chunks)),
    decreases chunks.len(),
{
    if chunks.len() > 0 {
        lemma_filler_frames(chunks.skip(1));
        if let ChunkView::Waste(n) = chunks[0] {
            lemma_filler_is_waste(n);
            lemma_all_waste_add(filler(n), filler_frames(chunks.skip(1)));
        }
    }
}

/// Padding is invisible to the reader: of a packet made of whole frames it sees
/// those frames, then nothing but padding frames, and then whatever comes
/// next, whatever the scheme and the sizes chosen. Nothing but these frames is
/// written.
pub proof fn law_padding_is_transparent(
    writer: PaddedWriter,
    scheme: SchemeTable,
    targets: Seq<u32>,
    frames: Seq<FrameView>,
    rest: Seq<u8>,
) -> (fillers: Seq<FrameView>)
    requires
        frame::all_sendable(frames),
    ensures
        frame::frames_in(
            wire::joined(writer.writes(scheme, targets, frame::frames_bytes(frames))) + rest,
        ) == frames + fillers + frame::frames_in(rest),
        wire::joined(writer.writes(scheme, targets, frame::frames_bytes(frames)))
            == frame::frames_bytes(frames + fillers),
        forall|i: int|
            0 <= i < fillers.len() ==> (#[trigger] fillers[i]).cmd == frame::CMD_WASTE,
{
    let data = frame::frames_bytes(frames);
    let sent = wire::joined(writer.writes(scheme, targets, data));
    let nothing = Seq::<FrameView>::empty();
    if writer.done() {
        reveal_with_fuel(wire::joined, 2);
        assert(seq![data].skip(1) =~= Seq::<Seq<u8>>::empty());
        assert(sent =~= data);
        frame::law_frame_stream(frames, rest);
        assert(frames + nothing =~= frames);
        nothing
    } else {
        let chunks = padding::packet_plan(scheme, writer.packet_index, targets, data);
        let fillers = filler_frames(chunks);
        match padding::rule_for(scheme, writer.packet_index) {
            None => {
                lemma_writes_cons(ChunkView::Real(data), Seq::empty());
                assert(seq![ChunkView::Real(data)] + Seq::<ChunkView>::empty() =~= chunks);
                assert(sent =~= data + frame::frames_bytes(fillers));
            },
            Some(segs) => {
                lemma_plan_on_wire(segs, targets, data);
            },
        }
        lemma_filler_frames(chunks);
        frame::lemma_frames_bytes_add(frames, fillers);
        let both = frames + fillers;
        assert forall|i: int| 0 <= i < both.len() implies (#[trigger] both[i]).data.len()
            <= 0xFFFF by {
            if i < frames.len() {
                assert(both[i] == frames[i]);
            } else {
                assert(both[i] == fillers[i - frames.len()]);
            }
        }
        frame::law_frame_stream(both, rest);
        fillers
    }
}

/// The number of bytes in the fillers of a plan that are too small for a frame
/// header.
pub open spec fn left_out(chunks: Seq<ChunkView>) -> nat
    decreases chunks.len(),
{
    if chunks.len() == 0 {
        0
    } else {
        left_out(chunks.skip(1)) + match chunks[0] {
            ChunkView::Waste(n) => if n < frame::FRAME_HEADER_LEN {
                n
            } else {
                0
            },
            ChunkView::Real(_) => 0,
        }
    }
}

/// What goes to the wire is as long as the plan calls for, but for the fillers
/// that are too small for a frame header.
pub proof fn law_written_size(chunks: Seq<ChunkView>)
    ensures
        wire::joined(writes_of(chunks)).len() + left_out(chunks) == padding::planned_len(chunks),
    decreases chunks.len(),
{
    if chunks.len() > 0 {
        let tail = chunks.skip(1);
        assert(seq![chunks[0]] + tail =~= chunks);
        lemma_writes_cons(chunks[0], tail);
        law_written_size(tail);
        if let ChunkView::Waste(n) = chunks[0] {
            lemma_filler_is_waste(n);
        }
    }
}

/// The writer that writes packet `k` of a session, when all packets before it
/// went by the same scheme.
pub open spec fn writer_at(scheme: SchemeTable, k: nat) -> PaddedWriter
    decreases k,
{
    if k <= 1 {
        PaddedWriter { packet_index: 1, cached_stop: None }
    } else {
        writer_at(scheme, (k - 1) as nat).after(scheme)
    }
}

proof fn lemma_writer_at(scheme: SchemeTable, k: nat)
    requires
        1 <= k <= u32::MAX,
    ensures
        writer_at(scheme, k).packet_index == k,
        writer_at(scheme, k).cached_stop == (if k == 1 {
            None
        } else {
            Some(scheme.stop)
        }),
    decreases k,
{
    if k > 1 {
        lemma_writer_at(scheme, (k - 1) as nat);
    }
}

proof fn lemma_one_write(data: Seq<u8>)
    ensures
        writes_of(seq![ChunkView::Real(data)]) == seq![data],
{
    let one = seq![ChunkView::Real(data)];
    assert(one.skip(1) =~= Seq::<ChunkView>::empty());
    assert(writes_of(one.skip(1)) =~= Seq::<Seq<u8>>::empty());
    assert(seq![data] + Seq::<Seq<u8>>::empty() =~= seq![data]);
}

/// Packets are counted: packet `k` of a session goes out by rule `k` of its
/// scheme, for every `k` from 1 on, and from the stop index on in one piece.
pub proof fn law_packets_go_by_their_rules(
    scheme: SchemeTable,
    k: nat,
    targets: Seq<u32>,
    data: Seq<u8>,
)
    requires
        1 <= k <= u32::MAX,
    ensures
        k < scheme.stop && scheme.rules.contains_key(k as u32) ==> writer_at(scheme, k).writes(
            scheme,
            targets,
            data,
        ) == writes_of(padding::plan(scheme.rules[k as u32], targets, data)),
        !(k < scheme.stop && scheme.rules.contains_key(k as u32)) ==> writer_at(scheme, k).writes(
            scheme,
            targets,
            data,
        ) == seq![data],
{
    lemma_writer_at(scheme, k);
    lemma_one_write(data);
}

/// The scheme in force decides how the next packet goes out, until the packets
/// reach its stop index. From there on they go out in one piece, whatever
/// scheme comes later.
pub proof fn law_padding_ends_for_good(
    writer: PaddedWriter,
    scheme: SchemeTable,
    later: SchemeTable,
    targets: Seq<u32>,
    data: Seq<u8>,
)
    ensures
        writer.done() ==> writer.writes(later, targets, data) == seq![data] && writer.after(
            later,
        ).done(),
        !writer.done() ==> writer.writes(scheme, targets, data) == writes_of(
            padding::packet_plan(scheme, writer.packet_index, targets, data),
        ),
        !writer.done() && writer.packet_index < u32::MAX ==> (writer.after(scheme).done()
            <==> writer.packet_index + 1 >= scheme.stop),
        writer.packet_index < u32::MAX ==> writer.after(scheme).packet_index
            == writer.packet_index + 1,
        writer.packet_index == u32::MAX ==> writer.after(scheme).packet_index == u32::MAX,
        !(PaddedWriter { packet_index: 1, cached_stop: None }).done(),
{
}

/// A filler becomes padding frames of zeros that together are just as long, and
/// one frame alone where one can be that long. A filler of fewer than 7 bytes
/// becomes nothing.
pub proof fn law_filler_frames(n: nat, i: int)
    ensures
        n < 7 ==> filler(n).len() == 0,
        n >= 7 ==> frame::frames_bytes(filler(n)).len() == n,
        7 <= n <= 7 + 0xFFFF ==> filler(n).len() == 1,
        0 <= i < filler(n).len() ==> {
            &&& filler(n)[i].cmd == 0
            &&& filler(n)[i].stream_id == 0
            &&& filler(n)[i].data.len() <= 0xFFFF
            &&& filler(n)[i].data == Seq::new(filler(n)[i].data.len(), |j: int| 0u8)
        },
    decreases n,
{
    lemma_filler_is_waste(n);
    if n > 7 + 0xFFFF && 0 <= i < filler(n).len() {
        let rest = (n - first_filler(n)) as nat;
        assert(filler(n) =~= seq![waste_frame(first_filler(n))] + filler(rest));
        law_filler_frames(rest, i - 1);
        if i > 0 {
            assert(filler(n)[i] == filler(rest)[i - 1]);
        }
    }
}

/// A plan is carried out chunk by chunk: data as one write, a filler as one
/// write of its padding frames, and a filler of fewer than 7 bytes as none.
pub proof fn law_chunks_are_written(chunks: Seq<ChunkView>)
    ensures
        chunks.len() == 0 ==> writes_of(chunks).len() == 0,
        chunks.len() > 0 ==> (match chunks[0] {
            ChunkView::Real(b) => writes_of(chunks) == seq![b] + writes_of(chunks.skip(1)),
            ChunkView::Waste(n) => if n < 7 {
                writes_of(chunks) == writes_of(chunks.skip(1))
            } else {
                writes_of(chunks) == seq![frame::frames_bytes(filler(n))] + writes_of(
                    chunks.skip(1),
                )
            },
        }),
{
}

/// A filler takes no more frames than it needs. `k` is that number: a frame has
/// at most 65542 bytes.
pub proof fn law_filler_needs_few_frames(n: nat, k: nat)
    requires
        n >= 7,
        (k - 1) * 65542 < n <= k * 65542,
    ensures
        filler(n).len() == k,
    decreases n,
{
    if n > 7 + 0xFFFF {
        let rest = (n - first_filler(n)) as nat;
        law_filler_needs_few_frames(rest, (k - 1) as nat);
    }
}

} // verus!
