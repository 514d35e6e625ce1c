//! The client side of a connection as its local peers see it: what they send
//! goes out as packets, and what comes back goes to the one that sent last.
use crate::tuic::client;
use crate::tuic::client::ClientCommand;
use crate::tuic::client::ClientCommandView;
use crate::tuic::client::ClientReceiver;
use crate::tuic::client::ReceiverView;
use crate::tuic::packet;
use crate::tuic::packet::PacketIds;
use crate::tuic::packet::PacketView;
use vstd::prelude::*;

verus! {

/// The client side of a connection. `P` is what the caller knows a local peer
/// by, such as its address. Times are in nanoseconds on the caller's clock.
pub struct LocalRelay<P> {
    /// What is kept of the packets that come back.
    pub receiver: ClientReceiver,
    /// The ids of the packets that go out.
    pub ids: PacketIds,
    /// The largest payload of a packet.
    pub limit: usize,
    /// The local peer that sent last.
    pub last_peer: Option<P>,
}

/// What a [`LocalRelay`] stands for.
pub struct LocalView<P> {
    pub receiver: ReceiverView,
    /// The id of the next datagram.
    pub next_id: u16,
    pub limit: nat,
    pub last_peer: Option<P>,
}

impl<P> View for LocalRelay<P> {
    type V = LocalView<P>;

    open spec fn view(&self) -> LocalView<P> {
        LocalView {
            receiver: self.receiver@,
            next_id: self.ids.next,
            limit: self.limit as nat,
            last_peer: self.last_peer,
        }
    }
}

/// What the caller is to do next.
pub enum LocalAction<P> {
    /// Nothing.
    Ignore,
    /// Nothing: a packet cannot be read.
    Malformed,
    /// Send a payload to a local peer, if there is one yet.
    Deliver(Option<P>, Vec<u8>),
    /// Nothing yet: more fragments are to come.
    Held,
    /// Nothing: no command has this type.
    Unknown(u8),
}

/// What a [`LocalAction`] stands for, or what a datagram of a local peer asks
/// for.
pub enum LocalActionView<P> {
    Ignore,
    Malformed,
    Deliver(Option<P>, Seq<u8>),
    Held,
    Unknown(u8),
    /// Send these packets to the server, in this order.
    Send(Seq<Seq<u8>>),
}

impl<P> View for LocalAction<P> {
    type V = LocalActionView<P>;

    open spec fn view(&self) -> LocalActionView<P> {
        match self {
            LocalAction::Ignore => LocalActionView::Ignore,
            LocalAction::Malformed => LocalActionView::Malformed,
            LocalAction::Deliver(to, b) => LocalActionView::Deliver(*to, b@),
            LocalAction::Held => LocalActionView::Held,
            LocalAction::Unknown(t) => LocalActionView::Unknown(*t),
        }
    }
}

/// What a command asks for, once it is known who is to get what it delivers.
pub open spec fn addressed_to<P>(command: ClientCommandView, peer: Option<P>) -> LocalActionView<
    P,
> {
    match command {
        ClientCommandView::Ignore => LocalActionView::Ignore,
        ClientCommandView::Malformed => LocalActionView::Malformed,
        ClientCommandView::Deliver(b) => LocalActionView::Deliver(peer, b),
        ClientCommandView::Held => LocalActionView::Held,
        ClientCommandView::Unknown(t) => LocalActionView::Unknown(t),
    }
}

/// What an action leaves of the command that it came from.
pub open spec fn unaddressed<P>(action: LocalActionView<P>) -> ClientCommandView {
    match action {
        LocalActionView::Ignore => ClientCommandView::Ignore,
        LocalActionView::Malformed => ClientCommandView::Malformed,
        LocalActionView::Deliver(_, b) => ClientCommandView::Deliver(b),
        LocalActionView::Held => ClientCommandView::Held,
        LocalActionView::Unknown(t) => ClientCommandView::Unknown(t),
        LocalActionView::Send(_) => ClientCommandView::Ignore,
    }
}

impl<P> LocalView<P> {
    /// The packets that a datagram of a local peer becomes.
    pub open spec fn packets(self, payload: Seq<u8>) -> Seq<PacketView> {
        packet::packets_for(self.receiver.assoc_id, self.next_id, payload, self.limit)
    }

    /// The relay once a local peer sent a datagram.
    pub open spec fn after_datagram(self, peer: P) -> LocalView<P> {
        LocalView {
            next_id: packet::later_id(self.next_id, 1),
            last_peer: Some(peer),
            ..self
        }
    }
}

/// Whether a command from the server may lead to `after` and `action`: what it
/// delivers goes to the peer that sent last.
pub open spec fn command_step<P>(
    state: LocalView<P>,
    now: u64,
    data: Seq<u8>,
    after: LocalView<P>,
    action: LocalActionView<P>,
) -> bool {
    &&& client::receive_step(state.receiver, now, data, after.receiver, unaddressed(action))
    &&& action == addressed_to(unaddressed(action), state.last_peer)
    &&& after == (LocalView { receiver: after.receiver, ..state })
}

impl<P: Copy> LocalRelay<P> {
    /// The incomplete packets are well-formed.
    pub open spec fn wf(&self) -> bool {
        self.receiver.wf()
    }

    /// A relay for the given association, of which no peer has sent yet, on a
    /// connection whose datagrams may be this large.
    pub fn new(assoc_id: u16, max_datagram_size: Option<usize>, now: u64) -> (r: LocalRelay<P>)
        ensures
            r.wf(),
            r@ == (LocalView::<P> {
                receiver: ReceiverView { assoc_id, reassembly: Map::empty(), last_cleanup: now },
                next_id: 0,
                limit: packet::payload_limit(max_datagram_size),
                last_peer: None,
            }),
    {
        LocalRelay {
            receiver: ClientReceiver::new(assoc_id, now),
            ids: PacketIds::new(),
            limit: packet::datagram_payload_limit(max_datagram_size),
            last_peer: None,
        }
    }

    /// Takes in a datagram of a local peer. Returns its packets, which are to be
    /// sent to the server in this order.
    pub fn on_datagram(&mut self, peer: P, payload: &[u8]) -> (r: Vec<Vec<u8>>)
        requires
            old(self).wf(),
            payload.len() > 0 ==> old(self)@.limit > 0,
        ensures
            final(self).wf(),
            final(self)@ == old(self)@.after_datagram(peer),
            packet::byte_views(r@) == packet::bytes_of(old(self)@.packets(payload@)),
    {
        self.last_peer = Some(peer);
        self.ids.cut(self.receiver.assoc_id, payload, self.limit)
    }

    /// Takes in a command from the server.
    pub fn on_command(&mut self, now: u64, data: &[u8]) -> (r: LocalAction<P>)
        requires
            old(self).wf(),
        ensures
            final(self).wf(),
            command_step(old(self)@, now, data@, final(self)@, r@),
    {
        match self.receiver.on_command(now, data) {
            ClientCommand::Ignore => LocalAction::Ignore,
            ClientCommand::Malformed => LocalAction::Malformed,
            ClientCommand::Deliver(b) => LocalAction::Deliver(self.last_peer, b),
            ClientCommand::Held => LocalAction::Held,
            ClientCommand::Unknown(t) => LocalAction::Unknown(t),
        }
    }

    /// Looks for old incomplete packets, if it is time to.
    pub fn tick(&mut self, now: u64)
        requires
            old(self).wf(),
        ensures
            final(self).wf(),
            final(self)@ == (LocalView {
                receiver: client::cleaned(old(self)@.receiver, now),
                ..old(self)@
            }),
    {
        self.receiver.tick(now);
    }
}

/// Something that happens to a relay.
pub enum Event<P> {
    /// A local peer sends a datagram.
    Datagram(P, Seq<u8>),
    /// A command comes in from the server.
    Command(Seq<u8>),
    /// It is time to look for old incomplete packets.
    Tick,
}

/// Whether an event may lead to `after` and `action`.
pub open spec fn event_step<P>(
    state: LocalView<P>,
    now: u64,
    event: Event<P>,
    after: LocalView<P>,
    action: LocalActionView<P>,
) -> bool {
    match event {
        Event::Datagram(peer, payload) => {
            &&& after == state.after_datagram(peer)
            &&& action == LocalActionView::<P>::Send(packet::bytes_of(state.packets(payload)))
        },
        Event::Command(data) => command_step(state, now, data, after, action),
        Event::Tick => {
            &&& after == (LocalView { receiver: client::cleaned(state.receiver, now), ..state })
            &&& action == LocalActionView::<P>::Ignore
        },
    }
}

/// Events that happen one after the other, and what each of them leads to.
pub struct Run<P> {
    /// The relay at the start.
    pub start: LocalView<P>,
    pub times: Seq<u64>,
    pub events: Seq<Event<P>>,
    /// The relay after each event.
    pub afters: Seq<LocalView<P>>,
    /// What each event asks for.
    pub actions: Seq<LocalActionView<P>>,
}

impl<P> Run<P> {
    /// The relay before event `t`.
    pub open spec fn before(self, t: int) -> LocalView<P> {
        if t == 0 {
            self.start
        } else {
            self.afters[t - 1]
        }
    }

    /// Whether each event may lead to what follows it.
    pub open spec fn possible(self) -> bool {
        &&& self.times.len() == self.events.len()
        &&& self.afters.len() == self.events.len()
        &&& self.actions.len() == self.events.len()
        &&& forall|t: int|
            0 <= t < self.events.len() ==> event_step(
                self.before(t),
                self.times[t],
                self.events[t],
                #[trigger] self.afters[t],
                self.actions[t],
            )
    }

    /// How many datagrams local peers sent before event `t`.
    pub open spec fn datagrams_before(self, t: int) -> nat
        decreases t,
    {
        if t <= 0 {
            0
        } else {
            self.datagrams_before(t - 1) + (if self.events[t - 1] is Datagram {
                1nat
            } else {
                0nat
            })
        }
    }

    /// The peer that sent last before event `t`.
    pub open spec fn sender_before(self, t: int) -> Option<P>
        decreases t,
    {
        if t <= 0 {
            self.start.last_peer
        } else {
            match self.events[t - 1] {
                Event::Datagram(peer, _) => Some(peer),
                _ => self.sender_before(t - 1),
            }
        }
    }

    /// All packets that were sent before event `t`, in the order in which they
    /// were.
    pub open spec fn sent_before(self, t: int) -> Seq<Seq<u8>>
        decreases t,
    {
        if t <= 0 {
            Seq::empty()
        } else {
            match self.actions[t - 1] {
                LocalActionView::Send(packets) => self.sent_before(t - 1) + packets,
                _ => self.sent_before(t - 1),
            }
        }
    }
}

/// What one event makes of the counter, the association, the limit and the
/// last peer.
proof fn lemma_event<P>(
    state: LocalView<P>,
    now: u64,
    event: Event<P>,
    after: LocalView<P>,
    action: LocalActionView<P>,
)
    requires
        event_step(state, now, event, after, action),
    ensures
        after.limit == state.limit,
        after.receiver.assoc_id == state.receiver.assoc_id,
        match event {
            Event::Datagram(peer, _) => after.next_id == packet::later_id(state.next_id, 1)
                && after.last_peer == Some(peer),
            _ => after.next_id == state.next_id && after.last_peer == state.last_peer,
        },
{
}

/// What the events before `t` left of the counter, the association, the limit
/// and the last peer.
proof fn lemma_before<P>(run: Run<P>, t: int)
    requires
        run.possible(),
        0 <= t <= run.events.len(),
    ensures
        run.before(t).next_id == packet::later_id(run.start.next_id, run.datagrams_before(t)),
        run.before(t).last_peer == run.sender_before(t),
        run.before(t).limit == run.start.limit,
        run.before(t).receiver.assoc_id == run.start.receiver.assoc_id,
    decreases t,
{
    if t == 0 {
        packet::law_ids_count_on(run.start.next_id, 0);
    } else {
        lemma_before(run, t - 1);
        packet::law_ids_count_on(run.start.next_id, run.datagrams_before(t - 1));
        lemma_event(
            run.before(t - 1),
            run.times[t - 1],
            run.events[t - 1],
            run.afters[t - 1],
            run.actions[t - 1],
        );
    }
}

/// What local peers send goes out in order: a datagram becomes the packets of
/// the next id, which follow all packets sent before, and its sender is then
/// the peer that sent last. Ids count the datagrams alone, whatever else
/// happens, and come round again after the last.
pub proof fn law_datagrams_go_out<P>(run: Run<P>, t: int)
    requires
        run.possible(),
        0 <= t < run.events.len(),
    ensures
        match run.events[t] {
            Event::Datagram(peer, payload) => {
                &&& run.sent_before(t + 1) == run.sent_before(t) + packet::bytes_of(
                    packet::packets_for(
                        run.start.receiver.assoc_id,
                        packet::later_id(run.start.next_id, run.datagrams_before(t)),
                        payload,
                        run.start.limit,
                    ),
                )
                &&& run.afters[t].last_peer == Some(peer)
            },
            _ => {
                &&& run.sent_before(t + 1) == run.sent_before(t)
                &&& run.afters[t].last_peer == run.before(t).last_peer
            },
        },
{
    lemma_before(run, t);
    assert(event_step(
        run.before(t),
        run.times[t],
        run.events[t],
        run.afters[t],
        run.actions[t],
    ));
}

/// The packets of datagrams that local peers send one after the other: those of
/// the first under the first id, those of the next under the next id, and so
/// on.
pub open spec fn packets_of_all<P>(
    assoc_id: u16,
    first: u16,
    datagrams: Seq<(P, Seq<u8>)>,
    limit: nat,
) -> Seq<Seq<u8>>
    decreases datagrams.len(),
{
    if datagrams.len() == 0 {
        Seq::empty()
    } else {
        packets_of_all(assoc_id, first, datagrams.drop_last(), limit) + packet::bytes_of(
            packet::packets_for(
                assoc_id,
                packet::later_id(first, (datagrams.len() - 1) as nat),
                datagrams.last().1,
                limit,
            ),
        )
    }
}

proof fn lemma_packets_of_next<P>(
    assoc_id: u16,
    first: u16,
    datagrams: Seq<(P, Seq<u8>)>,
    limit: nat,
    k: int,
)
    requires
        0 <= k < datagrams.len(),
    ensures
        packets_of_all(assoc_id, first, datagrams.take(k + 1), limit) == packets_of_all(
            assoc_id,
            first,
            datagrams.take(k),
            limit,
        ) + packet::bytes_of(
            packet::packets_for(
                assoc_id,
                packet::later_id(first, k as nat),
                datagrams[k].1,
                limit,
            ),
        ),
{
    let upto = datagrams.take(k + 1);
    assert(upto.drop_last() =~= datagrams.take(k));
    assert(upto.last() == datagrams[k]);
}

/// Of datagrams that local peers send one after the other, the `k`-th goes out
/// as the packets of the id that is `k` after the first, behind those of the
/// datagrams before it; and once it is handled, its sender is the peer that
/// sent last.
pub proof fn law_local_datagrams<P>(run: Run<P>, datagrams: Seq<(P, Seq<u8>)>, k: int)
    requires
        run.possible(),
        run.events == datagrams.map_values(
            |d: (P, Seq<u8>)| Event::<P>::Datagram(d.0, d.1),
        ),
        0 <= k < datagrams.len(),
    ensures
        run.sent_before(k + 1) == run.sent_before(k) + packet::bytes_of(
            packet::packets_for(
                run.start.receiver.assoc_id,
                packet::later_id(run.start.next_id, k as nat),
                datagrams[k].1,
                run.start.limit,
            ),
        ),
        run.sent_before(k + 1) == packets_of_all(
            run.start.receiver.assoc_id,
            run.start.next_id,
            datagrams.take(k + 1),
            run.start.limit,
        ),
        run.afters[k].last_peer == Some(datagrams[k].0),
    decreases k,
{
    lemma_all_datagrams(run, datagrams, k);
    assert(run.events[k] == Event::<P>::Datagram(datagrams[k].0, datagrams[k].1));
    law_datagrams_go_out(run, k);
    lemma_packets_of_next(
        run.start.receiver.assoc_id,
        run.start.next_id,
        datagrams,
        run.start.limit,
        k,
    );
    if k > 0 {
        law_local_datagrams(run, datagrams, k - 1);
    } else {
        assert(datagrams.take(0).len() == 0);
    }
}

proof fn lemma_all_datagrams<P>(run: Run<P>, datagrams: Seq<(P, Seq<u8>)>, k: int)
    requires
        run.events == datagrams.map_values(
            |d: (P, Seq<u8>)| Event::<P>::Datagram(d.0, d.1),
        ),
        0 <= k <= datagrams.len(),
    ensures
        run.datagrams_before(k) == k,
    decreases k,
{
    if k > 0 {
        lemma_all_datagrams(run, datagrams, k - 1);
        assert(run.events[k - 1] is Datagram);
    }
}

/// Answers go to the peer that sent last: what is delivered is for the sender
/// of the last datagram before it, if there was one.
pub proof fn law_answers_go_to_last_sender<P>(run: Run<P>, t: int)
    requires
        run.possible(),
        0 <= t < run.events.len(),
    ensures
        run.actions[t] matches LocalActionView::Deliver(to, _) ==> to == run.sender_before(t),
{
    lemma_before(run, t);
    assert(event_step(
        run.before(t),
        run.times[t],
        run.events[t],
        run.afters[t],
        run.actions[t],
    ));
}

/// An event as the receiver sees it. Of what local peers send it sees nothing.
pub open spec fn seen_by_receiver<P>(event: Event<P>) -> client::Event {
    match event {
        Event::Datagram(_, _) => client::Event::Command(Seq::empty()),
        Event::Command(data) => client::Event::Command(data),
        Event::Tick => client::Event::Tick,
    }
}

/// A run as the receiver sees it.
pub open spec fn receiver_run<P>(run: Run<P>) -> client::Run {
    client::Run {
        start: run.start.receiver,
        times: run.times,
        events: run.events.map_values(|e: Event<P>| seen_by_receiver(e)),
        afters: run.afters.map_values(|v: LocalView<P>| v.receiver),
        commands: run.actions.map_values(|a: LocalActionView<P>| unaddressed(a)),
    }
}

proof fn lemma_receiver_run<P>(run: Run<P>)
    requires
        run.possible(),
    ensures
        receiver_run(run).possible(),
{
    let seen = receiver_run(run);
    assert forall|t: int| 0 <= t < seen.events.len() implies client::event_step(
        seen.before(t),
        seen.times[t],
        seen.events[t],
        #[trigger] seen.afters[t],
        seen.commands[t],
    ) by {
        assert(event_step(
            run.before(t),
            run.times[t],
            run.events[t],
            run.afters[t],
            run.actions[t],
        ));
        assert(seen.before(t) == run.before(t).receiver);
    }
}

/// An answer reaches the peer that sent last: whatever the order in which its
/// packets come in, and whatever else happens in between, the last of them
/// leads to the payload being delivered, once and unchanged, to the sender of
/// the last datagram before it. (There must be no buffer for the packet yet; it
/// may not be lost meanwhile; and the payload must fit into 255 packets.)
pub proof fn law_answer_reaches_last_sender<P>(
    run: Run<P>,
    pkt_id: u16,
    payload: Seq<u8>,
    max: nat,
    owner: Seq<Option<int>>,
)
    requires
        !run.start.receiver.reassembly.contains_key(pkt_id),
        0 < max <= 0xFFFF,
        payload.len() <= 255 * max,
        run.possible(),
        client::carries(
            receiver_run(run),
            packet::packets_for(run.start.receiver.assoc_id, pkt_id, payload, max),
            pkt_id,
            owner,
        ),
    ensures
        run.actions.len() > 0,
        run.actions.last() == LocalActionView::Deliver(
            run.sender_before(run.events.len() - 1),
            payload,
        ),
        !run.afters.last().receiver.reassembly.contains_key(pkt_id),
        forall|t: int|
            0 <= t < owner.len() - 1 && #[trigger] owner[t] is Some ==> run.actions[t]
                == LocalActionView::<P>::Held,
{
    let seen = receiver_run(run);
    let last = owner.len() - 1;
    lemma_receiver_run(run);
    client::law_datagram_reaches_peer(seen, pkt_id, payload, max, owner);
    assert(seen.commands[last] == unaddressed(run.actions[last]));
    assert(seen.afters[last] == run.afters[last].receiver);
    law_answers_go_to_last_sender(run, last);
    assert forall|t: int| 0 <= t < owner.len() - 1 && #[trigger] owner[t] is Some implies
        run.actions[t] == LocalActionView::<P>::Held by {
        assert(seen.commands[t] == unaddressed(run.actions[t]));
    }
}

/// A command from the server is for the receiver: what it makes of it is what
/// the caller is asked for, with the peer that sent last where something is
/// delivered. Neither the ids of datagrams nor that peer change.
pub proof fn law_commands_reach_receiver<P>(
    state: LocalView<P>,
    now: u64,
    data: Seq<u8>,
    after: LocalView<P>,
    action: LocalActionView<P>,
)
    requires
        command_step(state, now, data, after, action),
    ensures
        after.next_id == state.next_id,
        after.limit == state.limit,
        after.last_peer == state.last_peer,
        exists|command: ClientCommandView|
            {
                &&& #[trigger] client::receive_step(
                    state.receiver,
                    now,
                    data,
                    after.receiver,
                    command,
                )
                &&& match command {
                    ClientCommandView::Ignore => action == LocalActionView::<P>::Ignore,
                    ClientCommandView::Malformed => action == LocalActionView::<P>::Malformed,
                    ClientCommandView::Deliver(b) => action == LocalActionView::<P>::Deliver(
                        state.last_peer,
                        b,
                    ),
                    ClientCommandView::Held => action == LocalActionView::<P>::Held,
                    ClientCommandView::Unknown(t) => action == LocalActionView::<P>::Unknown(t),
                }
            },
{
    assert(client::receive_step(
        state.receiver,
        now,
        data,
        after.receiver,
        unaddressed(action),
    ));
}

} // verus!
