//! What happens on the server side of a connection over time: from the packets
//! that come in, whatever their order and whatever else happens meanwhile, to
//! what is forwarded.
use crate::tuic::packet;
use crate::tuic::packet::PacketView;
use crate::tuic::reassembly;
use crate::tuic::reassembly::BufferView;
use crate::tuic::server;
use crate::tuic::server::AssocView;
use crate::tuic::server::RelayMode;
use crate::tuic::server::ServerCommandView;
use vstd::prelude::*;

verus! {

/// Something that happens to the associations of a connection.
pub enum Event<T> {
    /// A command comes in.
    Command(RelayMode, Seq<u8>),
    /// An association is bound, whose packets are forwarded to this address.
    Bound(u16, RelayMode, Seq<char>, T),
    /// An association's backend went away.
    Forgotten(u16),
    /// What has been there for too long is dropped.
    Swept,
}

/// Whether an event may lead to `after` and `command`. What is no command asks
/// for nothing.
pub open spec fn event_step<T>(
    table: Map<u16, AssocView<T>>,
    now: u64,
    event: Event<T>,
    after: Map<u16, AssocView<T>>,
    command: ServerCommandView<T>,
) -> bool {
    match event {
        Event::Command(mode, data) => server::dispatch_step(
            table,
            now,
            mode,
            data,
            after,
            command,
        ),
        Event::Bound(id, mode, remote, handle) => {
            &&& after == table.insert(id, server::new_assoc(now, mode, remote, handle))
            &&& command == ServerCommandView::<T>::Ignore
        },
        Event::Forgotten(id) => {
            &&& after == table.remove(id)
            &&& command == ServerCommandView::<T>::Ignore
        },
        Event::Swept => {
            &&& after == server::live_assocs(table, now)
            &&& command == ServerCommandView::<T>::Ignore
        },
    }
}

/// Events that happen one after the other, and what each of them leads to.
pub struct Run<T> {
    /// The associations at the start.
    pub start: Map<u16, AssocView<T>>,
    pub times: Seq<u64>,
    pub events: Seq<Event<T>>,
    /// The associations after each event.
    pub afters: Seq<Map<u16, AssocView<T>>>,
    /// What each event asks for.
    pub commands: Seq<ServerCommandView<T>>,
}

impl<T> Run<T> {
    /// The associations before event `t`.
    pub open spec fn before(self, t: int) -> Map<u16, AssocView<T>> {
        if t == 0 {
            self.start
        } else {
            self.afters[t - 1]
        }
    }

    /// Whether each event may lead to what follows it.
    pub open spec fn possible(self) -> bool {
        &&& self.times.len() == self.events.len()
        &&& self.afters.len() == self.events.len()
        &&& self.commands.len() == self.events.len()
        &&& forall|t: int|
            0 <= t < self.events.len() ==> event_step(
                self.before(t),
                self.times[t],
                self.events[t],
                #[trigger] self.afters[t],
                self.commands[t],
            )
    }
}

/// Whatever happens on a connection and whatever a client sends, all that is
/// forwarded goes to the backend that the client's password led to, and to no
/// other. (Associations are bound to it alone.)
pub proof fn law_connection_reaches_one_backend<T>(run: Run<T>, backend: Seq<char>, t: int)
    requires
        server::all_to(run.start, backend),
        run.possible(),
        forall|u: int|
            0 <= u < run.events.len() ==> (#[trigger] run.events[u] matches Event::Bound(
                _,
                _,
                remote,
                _,
            ) ==> remote == backend),
        0 <= t < run.events.len(),
    ensures
        server::all_to(run.afters[t], backend),
        run.commands[t] matches ServerCommandView::Forward(_, to, _) ==> to == backend,
    decreases t,
{
    if t > 0 {
        law_connection_reaches_one_backend(run, backend, t - 1);
    }
    let before = run.before(t);
    assert(server::all_to(before, backend));
    assert(event_step(before, run.times[t], run.events[t], run.afters[t], run.commands[t]));
    match run.events[t] {
        Event::Command(mode, data) => {
            server::law_commands_keep_backend(
                backend,
                before,
                run.times[t],
                mode,
                data,
                run.afters[t],
                run.commands[t],
            );
        },
        _ => {},
    }
}

/// Whether an event has nothing to do with the buffer of a packet: it is about
/// another association, or a packet that is whole or has another id, or it
/// only drops what is old.
pub open spec fn unrelated<T>(event: Event<T>, assoc_id: u16, pkt_id: u16) -> bool {
    match event {
        Event::Command(_, data) => {
            ||| server::addressed(data) != Some(assoc_id)
            ||| data.len() > 0 && data[0] == packet::TYPE_PACKET && (packet::packet_in(data)
                matches Some(p) && (p.frag_total == 1 || p.pkt_id != pkt_id))
        },
        Event::Bound(id, _, _, _) => id != assoc_id,
        Event::Forgotten(id) => id != assoc_id,
        Event::Swept => true,
    }
}

/// Whether the association at hand has a buffer for a packet.
pub open spec fn holds<T>(table: Map<u16, AssocView<T>>, assoc_id: u16, pkt_id: u16) -> bool {
    table.contains_key(assoc_id) && table[assoc_id].reassembly.contains_key(pkt_id)
}

/// Whether from one table to the next neither the association nor its buffer
/// for a packet is lost.
pub open spec fn keeps<T>(
    before: Map<u16, AssocView<T>>,
    after: Map<u16, AssocView<T>>,
    assoc_id: u16,
    pkt_id: u16,
) -> bool {
    &&& before.contains_key(assoc_id) ==> after.contains_key(assoc_id)
    &&& holds(before, assoc_id, pkt_id) ==> holds(after, assoc_id, pkt_id)
}

/// Whether an event is the arrival of a packet.
pub open spec fn brings<T>(event: Event<T>, p: PacketView) -> bool {
    event matches Event::Command(_, data) && data == packet::packet_bytes(p)
}

/// Whether the events of a run are the arrivals of `packets`, each of them once
/// as `owner` tells, and others that have nothing to do with them; and the
/// others neither end the association nor make the buffer give way.
pub open spec fn carries<T>(
    run: Run<T>,
    packets: Seq<PacketView>,
    assoc_id: u16,
    pkt_id: u16,
    owner: Seq<Option<int>>,
) -> bool {
    &&& owner.len() == run.events.len()
    &&& reassembly::each_once(owner, packets.len())
    &&& forall|t: int|
        0 <= t < owner.len() ==> match #[trigger] owner[t] {
            Some(i) => brings(run.events[t], packets[i]),
            None => unrelated(run.events[t], assoc_id, pkt_id) && keeps(
                run.before(t),
                run.afters[t],
                assoc_id,
                pkt_id,
            ),
        }
}

/// The buffer of a packet.
spec fn buffer_of<T>(table: Map<u16, AssocView<T>>, assoc_id: u16, pkt_id: u16) -> Option<
    BufferView,
> {
    reassembly::pending(table[assoc_id].reassembly, pkt_id)
}

/// What a command hands on.
spec fn payload_of<T>(command: ServerCommandView<T>) -> Option<Seq<u8>> {
    match command {
        ServerCommandView::Forward(_, _, b) => Some(b),
        _ => None,
    }
}

/// What the arrival of a packet makes of its buffer.
proof fn lemma_own_event<T>(
    before: Map<u16, AssocView<T>>,
    now: u64,
    event: Event<T>,
    after: Map<u16, AssocView<T>>,
    command: ServerCommandView<T>,
    p: PacketView,
)
    requires
        before.contains_key(p.assoc_id),
        event_step(before, now, event, after, command),
        brings(event, p),
        p.payload.len() <= 0xFFFF,
        p.frag_id < p.frag_total,
    ensures
        after.contains_key(p.assoc_id),
        after[p.assoc_id].remote == before[p.assoc_id].remote,
        command == (match payload_of(command) {
            Some(b) => ServerCommandView::<T>::Forward(p.assoc_id, before[p.assoc_id].remote, b),
            None => ServerCommandView::<T>::Held(p.assoc_id),
        }),
        if p.frag_total == 1 {
            &&& buffer_of(after, p.assoc_id, p.pkt_id) == buffer_of(before, p.assoc_id, p.pkt_id)
            &&& payload_of(command) == Some(p.payload)
        } else {
            (buffer_of(after, p.assoc_id, p.pkt_id), payload_of(command)) == reassembly::own_step(
                buffer_of(before, p.assoc_id, p.pkt_id),
                now,
                p,
            )
        },
{
    packet::law_packet_round_trip(p, Seq::empty());
    assert(packet::packet_bytes(p)[0] == packet::TYPE_PACKET);
    if p.frag_total != 1 {
        reassembly::lemma_own_step(
            before[p.assoc_id].reassembly,
            now,
            p,
            (after[p.assoc_id].reassembly, payload_of(command)),
        );
    }
}

/// What has nothing to do with a packet leaves its buffer alone.
proof fn lemma_other_event<T>(
    before: Map<u16, AssocView<T>>,
    now: u64,
    event: Event<T>,
    after: Map<u16, AssocView<T>>,
    command: ServerCommandView<T>,
    assoc_id: u16,
    pkt_id: u16,
)
    requires
        before.contains_key(assoc_id),
        event_step(before, now, event, after, command),
        unrelated(event, assoc_id, pkt_id),
        keeps(before, after, assoc_id, pkt_id),
    ensures
        after.contains_key(assoc_id),
        after[assoc_id].remote == before[assoc_id].remote,
        buffer_of(after, assoc_id, pkt_id) == buffer_of(before, assoc_id, pkt_id),
{
    if let Event::Command(mode, data) = event {
        if server::addressed(data) != Some(assoc_id) {
            server::law_other_associations_untouched(
                before,
                now,
                mode,
                data,
                after,
                command,
                assoc_id,
            );
        } else {
            let p = packet::packet_in(data)->0;
            if p.frag_total != 1 {
                reassembly::lemma_other_step(
                    before[assoc_id].reassembly,
                    now,
                    p,
                    (after[assoc_id].reassembly, payload_of(command)),
                    pkt_id,
                );
            }
        }
    }
}

/// What stands before each event of a run, as far as it concerns a packet.
proof fn lemma_run<T>(
    run: Run<T>,
    packets: Seq<PacketView>,
    assoc_id: u16,
    pkt_id: u16,
    owner: Seq<Option<int>>,
    t: int,
)
    requires
        run.start.contains_key(assoc_id),
        reassembly::fragments_of(packets, pkt_id),
        packet::sendable(packets, assoc_id),
        run.possible(),
        carries(run, packets, assoc_id, pkt_id, owner),
        0 <= t <= owner.len(),
    ensures
        run.before(t).contains_key(assoc_id),
        run.before(t)[assoc_id].remote == run.start[assoc_id].remote,
    decreases t,
{
    if t > 0 {
        lemma_run(run, packets, assoc_id, pkt_id, owner, t - 1);
        lemma_step(run, packets, assoc_id, pkt_id, owner, t - 1);
    }
}

/// What one event of a run makes of a packet's buffer.
proof fn lemma_step<T>(
    run: Run<T>,
    packets: Seq<PacketView>,
    assoc_id: u16,
    pkt_id: u16,
    owner: Seq<Option<int>>,
    t: int,
)
    requires
        run.before(t).contains_key(assoc_id),
        run.before(t)[assoc_id].remote == run.start[assoc_id].remote,
        reassembly::fragments_of(packets, pkt_id),
        packet::sendable(packets, assoc_id),
        run.possible(),
        carries(run, packets, assoc_id, pkt_id, owner),
        0 <= t < owner.len(),
    ensures
        run.afters[t].contains_key(assoc_id),
        run.afters[t][assoc_id].remote == run.start[assoc_id].remote,
        match owner[t] {
            None => buffer_of(run.afters[t], assoc_id, pkt_id) == buffer_of(
                run.before(t),
                assoc_id,
                pkt_id,
            ),
            Some(i) => {
                &&& run.commands[t] == (match payload_of(run.commands[t]) {
                    Some(b) => ServerCommandView::<T>::Forward(
                        assoc_id,
                        run.start[assoc_id].remote,
                        b,
                    ),
                    None => ServerCommandView::<T>::Held(assoc_id),
                })
                &&& if packets.len() == 1 {
                    &&& buffer_of(run.afters[t], assoc_id, pkt_id) == buffer_of(
                        run.before(t),
                        assoc_id,
                        pkt_id,
                    )
                    &&& payload_of(run.commands[t]) == Some(packets[i].payload)
                } else {
                    (buffer_of(run.afters[t], assoc_id, pkt_id), payload_of(run.commands[t]))
                        == reassembly::own_step(
                        buffer_of(run.before(t), assoc_id, pkt_id),
                        run.times[t],
                        packets[i],
                    )
                }
            },
        },
{
    assert(event_step(
        run.before(t),
        run.times[t],
        run.events[t],
        run.afters[t],
        run.commands[t],
    ));
    match owner[t] {
        None => {
            lemma_other_event(
                run.before(t),
                run.times[t],
                run.events[t],
                run.afters[t],
                run.commands[t],
                assoc_id,
                pkt_id,
            );
        },
        Some(i) => {
            assert(0 <= i < packets.len());
            assert(packets[i].assoc_id == assoc_id && packets[i].pkt_id == pkt_id);
            lemma_own_event(
                run.before(t),
                run.times[t],
                run.events[t],
                run.afters[t],
                run.commands[t],
                packets[i],
            );
        },
    }
}

/// While a whole packet comes in, no buffer appears for it.
proof fn lemma_no_buffer<T>(
    run: Run<T>,
    packets: Seq<PacketView>,
    assoc_id: u16,
    pkt_id: u16,
    owner: Seq<Option<int>>,
    t: int,
)
    requires
        run.start.contains_key(assoc_id),
        !holds(run.start, assoc_id, pkt_id),
        packets.len() == 1,
        reassembly::fragments_of(packets, pkt_id),
        packet::sendable(packets, assoc_id),
        run.possible(),
        carries(run, packets, assoc_id, pkt_id, owner),
        0 <= t <= owner.len(),
    ensures
        buffer_of(run.before(t), assoc_id, pkt_id) is None,
    decreases t,
{
    if t > 0 {
        lemma_no_buffer(run, packets, assoc_id, pkt_id, owner, t - 1);
        lemma_run(run, packets, assoc_id, pkt_id, owner, t - 1);
        lemma_step(run, packets, assoc_id, pkt_id, owner, t - 1);
    }
}

proof fn lemma_several<T>(
    run: Run<T>,
    packets: Seq<PacketView>,
    assoc_id: u16,
    pkt_id: u16,
    owner: Seq<Option<int>>,
)
    requires
        run.start.contains_key(assoc_id),
        !holds(run.start, assoc_id, pkt_id),
        packets.len() >= 2,
        reassembly::fragments_of(packets, pkt_id),
        packet::sendable(packets, assoc_id),
        run.possible(),
        carries(run, packets, assoc_id, pkt_id, owner),
    ensures
        payload_of(run.commands.last()) == Some(reassembly::whole_payload(packets)),
        buffer_of(run.afters.last(), assoc_id, pkt_id) is None,
        forall|t: int|
            0 <= t < owner.len() - 1 && #[trigger] owner[t] is Some ==> payload_of(
                run.commands[t],
            ) is None,
{
    let m = owner.len() as int;
    let buffers = Seq::new((m + 1) as nat, |t: int| buffer_of(run.before(t), assoc_id, pkt_id));
    let outs = Seq::new(m as nat, |t: int| payload_of(run.commands[t]));
    assert(reassembly::follows(packets, owner, run.times, buffers, outs)) by {
        assert forall|t: int| 0 <= t < owner.len() implies match #[trigger] owner[t] {
            None => buffers[t + 1] == buffers[t],
            Some(i) => (buffers[t + 1], outs[t]) == reassembly::own_step(
                buffers[t],
                run.times[t],
                packets[i],
            ),
        } by {
            lemma_run(run, packets, assoc_id, pkt_id, owner, t);
            lemma_step(run, packets, assoc_id, pkt_id, owner, t);
        }
    }
    reassembly::lemma_collect(packets, pkt_id, owner, run.times, buffers, outs);
    assert(buffers[m] == buffer_of(run.afters[m - 1], assoc_id, pkt_id));
    assert(outs[m - 1] == payload_of(run.commands[m - 1]));
    assert forall|t: int| 0 <= t < owner.len() - 1 && #[trigger] owner[t] is Some implies
        payload_of(run.commands[t]) is None by {
        assert(outs[t] == payload_of(run.commands[t]));
    }
}

/// A packet reaches the backend, whole or in fragments: whatever the order in
/// which its fragments come in, and whatever else happens in between, the last
/// of them leads to their payloads, put together in their places, being
/// forwarded once, to the association's address; those before it are held; and
/// no buffer is left. (The association must exist, and have no buffer for the
/// packet yet; and neither may be lost meanwhile.)
pub proof fn law_fragments_reach_backend<T>(
    run: Run<T>,
    packets: Seq<PacketView>,
    assoc_id: u16,
    pkt_id: u16,
    owner: Seq<Option<int>>,
)
    requires
        run.start.contains_key(assoc_id),
        !holds(run.start, assoc_id, pkt_id),
        reassembly::fragments_of(packets, pkt_id),
        packet::sendable(packets, assoc_id),
        run.possible(),
        carries(run, packets, assoc_id, pkt_id, owner),
    ensures
        run.commands.len() > 0,
        run.commands.last() == ServerCommandView::<T>::Forward(
            assoc_id,
            run.start[assoc_id].remote,
            reassembly::whole_payload(packets),
        ),
        run.afters.last().contains_key(assoc_id),
        !holds(run.afters.last(), assoc_id, pkt_id),
        forall|t: int|
            0 <= t < owner.len() - 1 && #[trigger] owner[t] is Some ==> run.commands[t]
                == ServerCommandView::<T>::Held(assoc_id),
{
    let last = owner.len() - 1;
    assert(owner[last] is Some);
    lemma_run(run, packets, assoc_id, pkt_id, owner, last);
    lemma_step(run, packets, assoc_id, pkt_id, owner, last);
    if packets.len() == 1 {
        reassembly::lemma_only_fragment(packets);
        reassembly::lemma_only_event(owner);
        lemma_no_buffer(run, packets, assoc_id, pkt_id, owner, last + 1);
    } else {
        lemma_several(run, packets, assoc_id, pkt_id, owner);
        assert forall|t: int| 0 <= t < owner.len() - 1 && #[trigger] owner[t] is Some implies
            run.commands[t] == ServerCommandView::<T>::Held(assoc_id) by {
            lemma_run(run, packets, assoc_id, pkt_id, owner, t);
            lemma_step(run, packets, assoc_id, pkt_id, owner, t);
        }
    }
}

/// A datagram reaches the backend: whatever the order in which its packets
/// come in, and whatever else happens in between, the last of them leads to the
/// payload being forwarded, once and unchanged, to the association's address;
/// those before it are held; and no buffer is left. (The association must
/// exist, and have no buffer for the packet yet; neither may be lost meanwhile;
/// and the payload must fit into 255 packets.)
pub proof fn law_datagram_reaches_backend<T>(
    run: Run<T>,
    assoc_id: u16,
    pkt_id: u16,
    payload: Seq<u8>,
    max: nat,
    owner: Seq<Option<int>>,
)
    requires
        run.start.contains_key(assoc_id),
        !holds(run.start, assoc_id, pkt_id),
        0 < max <= 0xFFFF,
        payload.len() <= 255 * max,
        run.possible(),
        carries(
            run,
            packet::packets_for(assoc_id, pkt_id, payload, max),
            assoc_id,
            pkt_id,
            owner,
        ),
    ensures
        run.commands.len() > 0,
        run.commands.last() == ServerCommandView::<T>::Forward(
            assoc_id,
            run.start[assoc_id].remote,
            payload,
        ),
        run.afters.last().contains_key(assoc_id),
        !holds(run.afters.last(), assoc_id, pkt_id),
        forall|t: int|
            0 <= t < owner.len() - 1 && #[trigger] owner[t] is Some ==> run.commands[t]
                == ServerCommandView::<T>::Held(assoc_id),
{
    let packets = packet::packets_for(assoc_id, pkt_id, payload, max);
    packet::law_fragments_cover_payload(assoc_id, pkt_id, payload, max);
    reassembly::law_payload_reassembles(assoc_id, pkt_id, payload, max);
    law_fragments_reach_backend(run, packets, assoc_id, pkt_id, owner);
}

/// The first packet of a client's first datagram leads to the datagram being
/// relayed: it asks for a socket, and once the association is bound and the
/// packet taken in again, the datagram reaches the backend, in however many
/// fragments, in whatever order they come, and whatever else happens in
/// between. Its payload is forwarded with the last of them, once, to the
/// address that the association was bound to; the others are held.
pub proof fn law_first_datagram_reaches_backend<T>(
    table: Map<u16, AssocView<T>>,
    now: u64,
    mode: RelayMode,
    after: Map<u16, AssocView<T>>,
    command: ServerCommandView<T>,
    remote: Seq<char>,
    handle: T,
    bound_at: u64,
    run: Run<T>,
    packets: Seq<PacketView>,
    assoc_id: u16,
    pkt_id: u16,
    owner: Seq<Option<int>>,
)
    requires
        !table.contains_key(assoc_id),
        table.dom().len() < 128,
        reassembly::fragments_of(packets, pkt_id),
        packet::sendable(packets, assoc_id),
        reassembly::each_once(owner, packets.len()),
        owner[0] is Some,
        server::dispatch_step(
            table,
            now,
            mode,
            packet::packet_bytes(packets[owner[0]->0]),
            after,
            command,
        ),
        run.start == after.insert(
            assoc_id,
            server::new_assoc(bound_at, mode, remote, handle),
        ),
        run.possible(),
        carries(run, packets, assoc_id, pkt_id, owner),
    ensures
        after == table,
        command == ServerCommandView::<T>::Bind(assoc_id),
        run.commands.len() > 0,
        run.commands.last() == ServerCommandView::<T>::Forward(
            assoc_id,
            remote,
            reassembly::whole_payload(packets),
        ),
        !holds(run.afters.last(), assoc_id, pkt_id),
        forall|t: int|
            0 <= t < owner.len() - 1 && #[trigger] owner[t] is Some ==> run.commands[t]
                == ServerCommandView::<T>::Held(assoc_id),
{
    let first = packets[owner[0]->0];
    packet::law_packet_round_trip(first, Seq::empty());
    server::law_first_packet_asks_for_socket(
        table,
        now,
        mode,
        packet::packet_bytes(first),
        after,
        command,
    );
    law_fragments_reach_backend(run, packets, assoc_id, pkt_id, owner);
}

/// A client's first datagram reaches the backend, whatever its size: the packet
/// that comes first asks for a socket, and once that is bound and the packet
/// taken in again, the payload is forwarded, once and unchanged. (It must fit
/// into 255 packets.)
pub proof fn law_first_payload_reaches_backend<T>(
    table: Map<u16, AssocView<T>>,
    now: u64,
    mode: RelayMode,
    after: Map<u16, AssocView<T>>,
    command: ServerCommandView<T>,
    remote: Seq<char>,
    handle: T,
    bound_at: u64,
    run: Run<T>,
    assoc_id: u16,
    pkt_id: u16,
    payload: Seq<u8>,
    max: nat,
    owner: Seq<Option<int>>,
)
    requires
        !table.contains_key(assoc_id),
        table.dom().len() < 128,
        0 < max <= 0xFFFF,
        payload.len() <= 255 * max,
        owner.len() > 0,
        owner[0] is Some,
        server::dispatch_step(
            table,
            now,
            mode,
            packet::packet_bytes(
                packet::packets_for(assoc_id, pkt_id, payload, max)[owner[0]->0],
            ),
            after,
            command,
        ),
        run.start == after.insert(
            assoc_id,
            server::new_assoc(bound_at, mode, remote, handle),
        ),
        run.possible(),
        carries(
            run,
            packet::packets_for(assoc_id, pkt_id, payload, max),
            assoc_id,
            pkt_id,
            owner,
        ),
    ensures
        command == ServerCommandView::<T>::Bind(assoc_id),
        run.commands.len() > 0,
        run.commands.last() == ServerCommandView::<T>::Forward(assoc_id, remote, payload),
        forall|t: int|
            0 <= t < owner.len() - 1 && #[trigger] owner[t] is Some ==> run.commands[t]
                == ServerCommandView::<T>::Held(assoc_id),
{
    let packets = packet::packets_for(assoc_id, pkt_id, payload, max);
    packet::law_fragments_cover_payload(assoc_id, pkt_id, payload, max);
    reassembly::law_payload_reassembles(assoc_id, pkt_id, payload, max);
    law_first_datagram_reaches_backend(
        table,
        now,
        mode,
        after,
        command,
        remote,
        handle,
        bound_at,
        run,
        packets,
        assoc_id,
        pkt_id,
        owner,
    );
}

} // verus!
