//! The client side of a connection: what to do with each command that a server
//! sends.
use crate::tuic::packet;
use crate::tuic::packet::PacketView;
use crate::tuic::reassembly;
use crate::tuic::reassembly::BufferView;
use crate::tuic::reassembly::Reassembler;
use vstd::prelude::*;

verus! {

/// How often old incomplete packets are looked for, in nanoseconds.
pub const CLEANUP_INTERVAL: u64 = 5_000_000_000;

/// The association that a client uses.
pub const CLIENT_ASSOCIATION: u16 = 1;

/// What a client keeps of the packets that it receives. Times are in
/// nanoseconds on the caller's clock.
pub struct ClientReceiver {
    /// The client's association.
    pub assoc_id: u16,
    /// The packets that are not complete yet.
    pub reassembly: Reassembler,
    /// When old incomplete packets were last looked for.
    pub last_cleanup: u64,
}

/// What a [`ClientReceiver`] stands for.
#[verifier::ext_equal]
pub struct ReceiverView {
    pub assoc_id: u16,
    pub reassembly: Map<u16, BufferView>,
    pub last_cleanup: u64,
}

impl View for ClientReceiver {
    type V = ReceiverView;

    open spec fn view(&self) -> ReceiverView {
        ReceiverView {
            assoc_id: self.assoc_id,
            reassembly: self.reassembly@,
            last_cleanup: self.last_cleanup,
        }
    }
}

/// What the caller is to do next.
pub enum ClientCommand {
    /// Nothing.
    Ignore,
    /// Nothing: a packet cannot be read.
    Malformed,
    /// Hand a payload to the local peer, if there is one yet.
    Deliver(Vec<u8>),
    /// Nothing yet: more fragments are to come.
    Held,
    /// Nothing: no command has this type.
    Unknown(u8),
}

/// What a [`ClientCommand`] stands for.
pub enum ClientCommandView {
    Ignore,
    Malformed,
    Deliver(Seq<u8>),
    Held,
    Unknown(u8),
}

impl View for ClientCommand {
    type V = ClientCommandView;

    open spec fn view(&self) -> ClientCommandView {
        match self {
            ClientCommand::Ignore => ClientCommandView::Ignore,
            ClientCommand::Malformed => ClientCommandView::Malformed,
            ClientCommand::Deliver(b) => ClientCommandView::Deliver(b@),
            ClientCommand::Held => ClientCommandView::Held,
            ClientCommand::Unknown(t) => ClientCommandView::Unknown(*t),
        }
    }
}

/// Whether a packet may lead to `after` and `command`.
pub open spec fn receive_packet(
    state: ReceiverView,
    now: u64,
    p: PacketView,
    after: ReceiverView,
    command: ClientCommandView,
) -> bool {
    if p.assoc_id != state.assoc_id {
        after == state && command == ClientCommandView::Ignore
    } else if p.frag_total == 1 {
        after == state && command == ClientCommandView::Deliver(p.payload)
    } else {
        &&& after == (ReceiverView { reassembly: after.reassembly, ..state })
        &&& reassembly::fragment_step(
            state.reassembly,
            now,
            p.pkt_id,
            p.frag_total,
            p.frag_id,
            p.payload,
            (
                after.reassembly,
                match command {
                    ClientCommandView::Deliver(b) => Some(b),
                    _ => None,
                },
            ),
        )
        &&& command is Held || command is Deliver
    }
}

/// Whether a command may lead to `after` and `command`.
pub open spec fn receive_step(
    state: ReceiverView,
    now: u64,
    data: Seq<u8>,
    after: ReceiverView,
    command: ClientCommandView,
) -> bool {
    if data.len() == 0 || data[0] == packet::TYPE_HEARTBEAT {
        after == state && command == ClientCommandView::Ignore
    } else if data[0] == packet::TYPE_PACKET {
        match packet::packet_in(data) {
            None => after == state && command == ClientCommandView::Malformed,
            Some(p) => receive_packet(state, now, p, after, command),
        }
    } else {
        after == state && command == ClientCommandView::Unknown(data[0])
    }
}

/// The receiver once it looked for old incomplete packets, which it does from
/// time to time.
pub open spec fn cleaned(state: ReceiverView, now: u64) -> ReceiverView {
    if reassembly::outlived(state.last_cleanup, now, CLEANUP_INTERVAL) {
        ReceiverView {
            reassembly: reassembly::fresh_buffers(state.reassembly, now),
            last_cleanup: now,
            ..state
        }
    } else {
        state
    }
}

impl ClientReceiver {
    /// The incomplete packets are well-formed.
    pub open spec fn wf(&self) -> bool {
        self.reassembly.wf()
    }

    /// A receiver for the given association.
    pub fn new(assoc_id: u16, now: u64) -> (r: ClientReceiver)
        ensures
            r.wf(),
            r@ == (ReceiverView { assoc_id, reassembly: Map::empty(), last_cleanup: now }),
    {
        ClientReceiver { assoc_id, reassembly: Reassembler::new(), last_cleanup: now }
    }

    /// Looks for old incomplete packets, if it is time to.
    pub fn tick(&mut self, now: u64)
        requires
            old(self).wf(),
        ensures
            final(self).wf(),
            final(self)@ == cleaned(old(self)@, now),
    {
        if now > self.last_cleanup && now - self.last_cleanup > CLEANUP_INTERVAL {
            self.reassembly.sweep(now);
            self.last_cleanup = now;
        }
    }

    /// Takes in a command.
    pub fn on_command(&mut self, now: u64, data: &[u8]) -> (r: ClientCommand)
        requires
            old(self).wf(),
        ensures
            final(self).wf(),
            receive_step(old(self)@, now, data@, final(self)@, r@),
    {
        if data.len() == 0 || data[0] == packet::TYPE_HEARTBEAT {
            return ClientCommand::Ignore;
        }
        if data[0] != packet::TYPE_PACKET {
            return ClientCommand::Unknown(data[0]);
        }
        match packet::parse_packet(data) {
            None => ClientCommand::Malformed,
            Some((assoc_id, pkt_id, frag_total, frag_id, payload)) => {
                if assoc_id != self.assoc_id {
                    ClientCommand::Ignore
                } else if frag_total == 1 {
                    ClientCommand::Deliver(vstd::slice::slice_to_vec(payload))
                } else {
                    match self.reassembly.add_fragment(now, pkt_id, frag_total, frag_id, payload) {
                        Some(b) => ClientCommand::Deliver(b),
                        None => ClientCommand::Held,
                    }
                }
            },
        }
    }
}

/// A client never takes a packet of another association for its own.
pub proof fn law_other_associations_are_ignored(
    state: ReceiverView,
    now: u64,
    p: PacketView,
    after: ReceiverView,
    command: ClientCommandView,
)
    requires
        p.payload.len() <= 0xFFFF,
        p.frag_id < p.frag_total,
        p.assoc_id != state.assoc_id,
        receive_step(state, now, packet::packet_bytes(p), after, command),
    ensures
        after == state,
        command == ClientCommandView::Ignore,
{
    packet::law_packet_round_trip(p, Seq::empty());
}

/// Something that happens to a receiver.
pub enum Event {
    /// A command comes in.
    Command(Seq<u8>),
    /// It is time to look for old incomplete packets.
    Tick,
}

/// Whether an event may lead to `after` and `command`. What is no command asks
/// for nothing.
pub open spec fn event_step(
    state: ReceiverView,
    now: u64,
    event: Event,
    after: ReceiverView,
    command: ClientCommandView,
) -> bool {
    match event {
        Event::Command(data) => receive_step(state, now, data, after, command),
        Event::Tick => after == cleaned(state, now) && command == ClientCommandView::Ignore,
    }
}

/// Events that happen one after the other, and what each of them leads to.
pub struct Run {
    /// The receiver at the start.
    pub start: ReceiverView,
    pub times: Seq<u64>,
    pub events: Seq<Event>,
    /// The receiver after each event.
    pub afters: Seq<ReceiverView>,
    /// What each event asks for.
    pub commands: Seq<ClientCommandView>,
}

impl Run {
    /// The receiver before event `t`.
    pub open spec fn before(self, t: int) -> ReceiverView {
        if t == 0 {
            self.start
        } else {
            self.afters[t - 1]
        }
    }

    /// Whether each event may lead to what follows it.
    pub open spec fn possible(self) -> bool {
        &&& self.times.len() == self.events.len()
        &&& self.afters.len() == self.events.len()
        &&& self.commands.len() == self.events.len()
        &&& forall|t: int|
            0 <= t < self.events.len() ==> event_step(
                self.before(t),
                self.times[t],
                self.events[t],
                #[trigger] self.afters[t],
                self.commands[t],
            )
    }
}

/// Whether an event has nothing to do with the buffer of a packet: it is no
/// packet, or one of another association, or one that is whole or has another
/// id.
pub open spec fn unrelated(event: Event, assoc_id: u16, pkt_id: u16) -> bool {
    match event {
        Event::Command(data) => packet::packet_in(data) matches Some(p) ==> p.assoc_id != assoc_id
            || p.frag_total == 1 || p.pkt_id != pkt_id,
        Event::Tick => true,
    }
}

/// Whether the events of a run are the arrivals of `packets`, each of them once
/// as `owner` tells, and others that have nothing to do with them; and the
/// others do not make the buffer give way.
pub open spec fn carries(
    run: Run,
    packets: Seq<PacketView>,
    pkt_id: u16,
    owner: Seq<Option<int>>,
) -> bool {
    &&& owner.len() == run.events.len()
    &&& reassembly::each_once(owner, packets.len())
    &&& forall|t: int|
        0 <= t < owner.len() ==> match #[trigger] owner[t] {
            Some(i) => run.events[t] == Event::Command(packet::packet_bytes(packets[i])),
            None => unrelated(run.events[t], run.start.assoc_id, pkt_id) && (run.before(
                t,
            ).reassembly.contains_key(pkt_id) ==> run.afters[t].reassembly.contains_key(pkt_id)),
        }
}

/// What a command hands on.
spec fn payload_of(command: ClientCommandView) -> Option<Seq<u8>> {
    match command {
        ClientCommandView::Deliver(b) => Some(b),
        _ => None,
    }
}

/// The association of a receiver stays what it is.
proof fn lemma_same_association(run: Run, t: int)
    requires
        run.possible(),
        0 <= t <= run.events.len(),
    ensures
        run.before(t).assoc_id == run.start.assoc_id,
    decreases t,
{
    if t > 0 {
        lemma_same_association(run, t - 1);
        assert(event_step(
            run.before(t - 1),
            run.times[t - 1],
            run.events[t - 1],
            run.afters[t - 1],
            run.commands[t - 1],
        ));
    }
}

/// What one event of a run makes of a packet's buffer.
proof fn lemma_step(
    run: Run,
    packets: Seq<PacketView>,
    pkt_id: u16,
    owner: Seq<Option<int>>,
    t: int,
)
    requires
        reassembly::fragments_of(packets, pkt_id),
        packet::sendable(packets, run.start.assoc_id),
        run.possible(),
        carries(run, packets, pkt_id, owner),
        0 <= t < owner.len(),
    ensures
        match owner[t] {
            None => reassembly::pending(run.afters[t].reassembly, pkt_id) == reassembly::pending(
                run.before(t).reassembly,
                pkt_id,
            ),
            Some(i) => {
                &&& run.commands[t] == (match payload_of(run.commands[t]) {
                    Some(b) => ClientCommandView::Deliver(b),
                    None => ClientCommandView::Held,
                })
                &&& if packets.len() == 1 {
                    &&& run.afters[t] == run.before(t)
                    &&& payload_of(run.commands[t]) == Some(packets[i].payload)
                } else {
                    (
                        reassembly::pending(run.afters[t].reassembly, pkt_id),
                        payload_of(run.commands[t]),
                    ) == reassembly::own_step(
                        reassembly::pending(run.before(t).reassembly, pkt_id),
                        run.times[t],
                        packets[i],
                    )
                }
            },
        },
{
    let before = run.before(t);
    let after = run.afters[t];
    lemma_same_association(run, t);
    assert(event_step(before, run.times[t], run.events[t], after, run.commands[t]));
    match owner[t] {
        None => {
            if let Event::Command(data) = run.events[t] {
                if let Some(p) = packet::packet_in(data) {
                    if p.assoc_id == run.start.assoc_id && p.frag_total != 1 {
                        reassembly::lemma_other_step(
                            before.reassembly,
                            run.times[t],
                            p,
                            (after.reassembly, payload_of(run.commands[t])),
                            pkt_id,
                        );
                    }
                }
            }
        },
        Some(i) => {
            let p = packets[i];
            packet::law_packet_round_trip(p, Seq::empty());
            assert(packet::packet_bytes(p)[0] == packet::TYPE_PACKET);
            if packets.len() > 1 {
                reassembly::lemma_own_step(
                    before.reassembly,
                    run.times[t],
                    p,
                    (after.reassembly, payload_of(run.commands[t])),
                );
            }
        },
    }
}

/// While a whole packet comes in, no buffer appears for it.
proof fn lemma_no_buffer(
    run: Run,
    packets: Seq<PacketView>,
    pkt_id: u16,
    owner: Seq<Option<int>>,
    t: int,
)
    requires
        !run.start.reassembly.contains_key(pkt_id),
        packets.len() == 1,
        reassembly::fragments_of(packets, pkt_id),
        packet::sendable(packets, run.start.assoc_id),
        run.possible(),
        carries(run, packets, pkt_id, owner),
        0 <= t <= owner.len(),
    ensures
        !run.before(t).reassembly.contains_key(pkt_id),
    decreases t,
{
    if t > 0 {
        lemma_no_buffer(run, packets, pkt_id, owner, t - 1);
        lemma_step(run, packets, pkt_id, owner, t - 1);
    }
}

proof fn lemma_several(
    run: Run,
    packets: Seq<PacketView>,
    pkt_id: u16,
    owner: Seq<Option<int>>,
)
    requires
        !run.start.reassembly.contains_key(pkt_id),
        packets.len() >= 2,
        reassembly::fragments_of(packets, pkt_id),
        packet::sendable(packets, run.start.assoc_id),
        run.possible(),
        carries(run, packets, pkt_id, owner),
    ensures
        payload_of(run.commands.last()) == Some(reassembly::whole_payload(packets)),
        !run.afters.last().reassembly.contains_key(pkt_id),
        forall|t: int|
            0 <= t < owner.len() - 1 && #[trigger] owner[t] is Some ==> payload_of(
                run.commands[t],
            ) is None,
{
    let m = owner.len() as int;
    let buffers = Seq::new(
        (m + 1) as nat,
        |t: int| reassembly::pending(run.before(t).reassembly, pkt_id),
    );
    let outs = Seq::new(m as nat, |t: int| payload_of(run.commands[t]));
    assert(reassembly::follows(packets, owner, run.times, buffers, outs)) by {
        assert forall|t: int| 0 <= t < owner.len() implies match #[trigger] owner[t] {
            None => buffers[t + 1] == buffers[t],
            Some(i) => (buffers[t + 1], outs[t]) == reassembly::own_step(
                buffers[t],
                run.times[t],
                packets[i],
            ),
        } by {
            lemma_step(run, packets, pkt_id, owner, t);
        }
    }
    reassembly::lemma_collect(packets, pkt_id, owner, run.times, buffers, outs);
    assert(buffers[m] == reassembly::pending(run.afters[m - 1].reassembly, pkt_id));
    assert(outs[m - 1] == payload_of(run.commands[m - 1]));
    assert forall|t: int| 0 <= t < owner.len() - 1 && #[trigger] owner[t] is Some implies
        payload_of(run.commands[t]) is None by {
        assert(outs[t] == payload_of(run.commands[t]));
    }
}

/// A packet reaches the local peer, whole or in fragments: whatever the order
/// in which its fragments come in, and whatever else happens in between, the
/// last of them leads to their payloads, put together in their places, being
/// delivered once; those before it are held; and no buffer is left. (There must
/// be no buffer for the packet yet, and it may not be lost meanwhile.)
pub proof fn law_fragments_reach_peer(
    run: Run,
    packets: Seq<PacketView>,
    pkt_id: u16,
    owner: Seq<Option<int>>,
)
    requires
        !run.start.reassembly.contains_key(pkt_id),
        reassembly::fragments_of(packets, pkt_id),
        packet::sendable(packets, run.start.assoc_id),
        run.possible(),
        carries(run, packets, pkt_id, owner),
    ensures
        run.commands.len() > 0,
        run.commands.last() == ClientCommandView::Deliver(reassembly::whole_payload(packets)),
        !run.afters.last().reassembly.contains_key(pkt_id),
        forall|t: int|
            0 <= t < owner.len() - 1 && #[trigger] owner[t] is Some ==> run.commands[t]
                == ClientCommandView::Held,
{
    let last = owner.len() - 1;
    assert(owner[last] is Some);
    lemma_step(run, packets, pkt_id, owner, last);
    if packets.len() == 1 {
        reassembly::lemma_only_fragment(packets);
        reassembly::lemma_only_event(owner);
        lemma_no_buffer(run, packets, pkt_id, owner, last + 1);
    } else {
        lemma_several(run, packets, pkt_id, owner);
        assert forall|t: int| 0 <= t < owner.len() - 1 && #[trigger] owner[t] is Some implies
            run.commands[t] == ClientCommandView::Held by {
            lemma_step(run, packets, pkt_id, owner, t);
        }
    }
}

/// A whole packet of the client's association is delivered at once, and nothing
/// else changes.
pub proof fn law_whole_packet_is_delivered(
    state: ReceiverView,
    now: u64,
    data: Seq<u8>,
    after: ReceiverView,
    command: ClientCommandView,
)
    requires
        packet::packet_in(data) matches Some(p) && p.frag_total == 1 && p.assoc_id
            == state.assoc_id,
        receive_step(state, now, data, after, command),
    ensures
        after == state,
        command == ClientCommandView::Deliver((packet::packet_in(data)->0).payload),
{
}

/// A datagram reaches the local peer: whatever the order in which its packets
/// come in, and whatever else happens in between, the last of them leads to the
/// payload being delivered, once and unchanged; those before it are held; and
/// no buffer is left. (There must be no buffer for the packet yet; it may not
/// be lost meanwhile; and the payload must fit into 255 packets.)
pub proof fn law_datagram_reaches_peer(
    run: Run,
    pkt_id: u16,
    payload: Seq<u8>,
    max: nat,
    owner: Seq<Option<int>>,
)
    requires
        !run.start.reassembly.contains_key(pkt_id),
        0 < max <= 0xFFFF,
        payload.len() <= 255 * max,
        run.possible(),
        carries(
            run,
            packet::packets_for(run.start.assoc_id, pkt_id, payload, max),
            pkt_id,
            owner,
        ),
    ensures
        run.commands.len() > 0,
        run.commands.last() == ClientCommandView::Deliver(payload),
        !run.afters.last().reassembly.contains_key(pkt_id),
        forall|t: int|
            0 <= t < owner.len() - 1 && #[trigger] owner[t] is Some ==> run.commands[t]
                == ClientCommandView::Held,
{
    let packets = packet::packets_for(run.start.assoc_id, pkt_id, payload, max);
    packet::law_fragments_cover_payload(run.start.assoc_id, pkt_id, payload, max);
    reassembly::law_payload_reassembles(run.start.assoc_id, pkt_id, payload, max);
    law_fragments_reach_peer(run, packets, pkt_id, owner);
}

/// What is no packet that can be read changes nothing: nothing at all and
/// heartbeats are ignored, and of anything else the caller is told what it was.
pub proof fn law_other_commands_change_nothing(
    state: ReceiverView,
    now: u64,
    data: Seq<u8>,
    after: ReceiverView,
    command: ClientCommandView,
)
    requires
        receive_step(state, now, data, after, command),
    ensures
        data.len() == 0 ==> after == state && command == ClientCommandView::Ignore,
        data.len() > 0 && data[0] == 0x04 ==> after == state && command
            == ClientCommandView::Ignore,
        data.len() > 0 && data[0] == 0x02 && packet::packet_in(data) is None ==> after == state
            && command == ClientCommandView::Malformed,
        data.len() > 0 && data[0] != 0x02 && data[0] != 0x04 ==> after == state && command
            == ClientCommandView::Unknown(data[0]),
{
}

/// A packet of the client's association is used, be it whole or a fragment: it
/// is delivered or held, and the association and the time of the last clean-up
/// stay what they are.
pub proof fn law_own_packets_are_used(
    state: ReceiverView,
    now: u64,
    data: Seq<u8>,
    after: ReceiverView,
    command: ClientCommandView,
)
    requires
        packet::packet_in(data) matches Some(p) && p.assoc_id == state.assoc_id,
        receive_step(state, now, data, after, command),
    ensures
        command is Held || command is Deliver,
        after.assoc_id == state.assoc_id,
        after.last_cleanup == state.last_cleanup,
{
}

/// Old incomplete packets are looked for once more than 5 seconds have passed
/// since the last time; then those that have been incomplete for more than 10
/// seconds are dropped, and no others. Before that nothing changes.
pub proof fn law_cleanup_goes_by_time(state: ReceiverView, now: u64, pkt_id: u16)
    ensures
        now <= state.last_cleanup + 5_000_000_000 ==> cleaned(state, now) == state,
        cleaned(state, now).assoc_id == state.assoc_id,
        now > state.last_cleanup + 5_000_000_000 ==> {
            let after = cleaned(state, now);
            &&& after.last_cleanup == now
            &&& after.reassembly.contains_key(pkt_id) <==> state.reassembly.contains_key(pkt_id)
                && now <= state.reassembly[pkt_id].created + 10_000_000_000
            &&& after.reassembly.contains_key(pkt_id) ==> after.reassembly[pkt_id]
                == state.reassembly[pkt_id]
        },
{
}

/// A fragment of the client's association goes to the buffers, and what they
/// complete, and nothing else, is delivered.
pub proof fn law_fragments_are_collected(
    state: ReceiverView,
    now: u64,
    data: Seq<u8>,
    after: ReceiverView,
    command: ClientCommandView,
)
    requires
        packet::packet_in(data) matches Some(p) && p.frag_total != 1 && p.assoc_id
            == state.assoc_id,
        receive_step(state, now, data, after, command),
    ensures
        ({
            let p = packet::packet_in(data)->0;
            exists|whole: Option<Seq<u8>>|
                {
                    &&& #[trigger] reassembly::fragment_step(
                        state.reassembly,
                        now,
                        p.pkt_id,
                        p.frag_total,
                        p.frag_id,
                        p.payload,
                        (after.reassembly, whole),
                    )
                    &&& command == (match whole {
                        Some(b) => ClientCommandView::Deliver(b),
                        None => ClientCommandView::Held,
                    })
                }
        }),
{
    let p = packet::packet_in(data)->0;
    assert(reassembly::fragment_step(
        state.reassembly,
        now,
        p.pkt_id,
        p.frag_total,
        p.frag_id,
        p.payload,
        (after.reassembly, payload_of(command)),
    ));
}

} // verus!
