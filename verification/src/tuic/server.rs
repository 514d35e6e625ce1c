//! The server side of a connection: its associations, and what to do with each
//! command that a client sends.
//!
//! An association keeps a handle of the caller's, such as a socket. The caller
//! performs the actions: it binds, forwards and closes.
use crate::tuic::packet;
use crate::tuic::packet::PacketIds;
use crate::tuic::packet::PacketView;
use crate::tuic::reassembly;
use crate::tuic::reassembly::BufferView;
use crate::tuic::reassembly::Reassembler;
use crate::wire;
use std::collections::HashMap;
use vstd::prelude::*;

verus! {

/// How long an association may stay unused, in nanoseconds.
pub const DISSOCIATE_TIMEOUT: u64 = 60_000_000_000;

/// The largest number of associations of a connection.
pub const MAX_ASSOCIATIONS: usize = 128;

/// How a command travelled, and how answers to it are to travel.
#[derive(Debug, Clone, Copy, PartialEq, Eq, Structural)]
pub enum RelayMode {
    Datagram,
    Stream,
}

/// One association. Times are in nanoseconds on the caller's clock.
pub struct ServerAssoc<T> {
    pub handle: T,
    /// The address that the association's packets are forwarded to.
    pub remote: String,
    /// How the last packet came.
    pub mode: RelayMode,
    /// When the last packet came.
    pub last_seen: u64,
    /// The packets that are not complete yet.
    pub reassembly: Reassembler,
}

/// What a [`ServerAssoc`] stands for.
pub struct AssocView<T> {
    pub handle: T,
    pub remote: Seq<char>,
    pub mode: RelayMode,
    pub last_seen: u64,
    pub reassembly: Map<u16, BufferView>,
}

impl<T> View for ServerAssoc<T> {
    type V = AssocView<T>;

    open spec fn view(&self) -> AssocView<T> {
        AssocView {
            handle: self.handle,
            remote: self.remote@,
            mode: self.mode,
            last_seen: self.last_seen,
            reassembly: self.reassembly@,
        }
    }
}

impl<T> AssocView<T> {
    /// The association once a packet came.
    pub open spec fn seen(self, now: u64, mode: RelayMode) -> AssocView<T> {
        AssocView { mode, last_seen: now, ..self }
    }
}

/// An association that was just bound.
pub open spec fn new_assoc<T>(now: u64, mode: RelayMode, remote: Seq<char>, handle: T) -> AssocView<
    T,
> {
    AssocView { handle, remote, mode, last_seen: now, reassembly: Map::empty() }
}

/// What the caller is to do next.
pub enum ServerCommand<T> {
    /// Nothing.
    Ignore,
    /// Nothing: a packet cannot be read.
    Malformed,
    /// Nothing: a packet is for a new association, but there are too many.
    LimitReached,
    /// Bind a socket for a new association, take note of it, and take in the
    /// command again.
    Bind(u16),
    /// Send a payload to this address from the socket of an association.
    Forward(u16, String, Vec<u8>),
    /// Nothing yet: more fragments are to come.
    Held(u16),
    /// Close what belonged to an association that is gone now.
    Dissociated(T),
    /// Nothing: no command has this type.
    Unknown(u8),
}

/// What a [`ServerCommand`] stands for.
pub enum ServerCommandView<T> {
    Ignore,
    Malformed,
    LimitReached,
    Bind(u16),
    Forward(u16, Seq<char>, Seq<u8>),
    Held(u16),
    Dissociated(T),
    Unknown(u8),
}

impl<T> View for ServerCommand<T> {
    type V = ServerCommandView<T>;

    open spec fn view(&self) -> ServerCommandView<T> {
        match self {
            ServerCommand::Ignore => ServerCommandView::Ignore,
            ServerCommand::Malformed => ServerCommandView::Malformed,
            ServerCommand::LimitReached => ServerCommandView::LimitReached,
            ServerCommand::Bind(id) => ServerCommandView::Bind(*id),
            ServerCommand::Forward(id, to, b) => ServerCommandView::Forward(*id, to@, b@),
            ServerCommand::Held(id) => ServerCommandView::Held(*id),
            ServerCommand::Dissociated(h) => ServerCommandView::Dissociated(*h),
            ServerCommand::Unknown(t) => ServerCommandView::Unknown(*t),
        }
    }
}

/// The associations of one connection, by their ids.
pub struct Associations<T> {
    pub assocs: HashMap<u16, ServerAssoc<T>>,
}

/// What a table of associations stands for.
pub open spec fn assoc_views<T>(m: Map<u16, ServerAssoc<T>>) -> Map<u16, AssocView<T>> {
    Map::new(|k: u16| m.contains_key(k), |k: u16| m[k]@)
}

impl<T> View for Associations<T> {
    type V = Map<u16, AssocView<T>>;

    open spec fn view(&self) -> Map<u16, AssocView<T>> {
        assoc_views(self.assocs@)
    }
}

/// Whether a packet for the association at hand may lead to `after` and
/// `command`: a whole packet is forwarded, a fragment is put in its place.
pub open spec fn packet_step<T>(
    table: Map<u16, AssocView<T>>,
    now: u64,
    mode: RelayMode,
    p: PacketView,
    after: Map<u16, AssocView<T>>,
    command: ServerCommandView<T>,
) -> bool {
    let assoc = table[p.assoc_id];
    if p.frag_total == 1 {
        &&& after == table.insert(p.assoc_id, assoc.seen(now, mode))
        &&& command == ServerCommandView::<T>::Forward(p.assoc_id, assoc.remote, p.payload)
    } else {
        &&& after.contains_key(p.assoc_id)
        &&& after == table.insert(
            p.assoc_id,
            AssocView {
                reassembly: after[p.assoc_id].reassembly,
                ..assoc.seen(now, mode)
            },
        )
        &&& reassembly::fragment_step(
            assoc.reassembly,
            now,
            p.pkt_id,
            p.frag_total,
            p.frag_id,
            p.payload,
            (
                after[p.assoc_id].reassembly,
                match command {
                    ServerCommandView::Forward(_, _, b) => Some(b),
                    _ => None,
                },
            ),
        )
        &&& (command == ServerCommandView::<T>::Held(p.assoc_id) || (command
            matches ServerCommandView::Forward(id, to, _) && id == p.assoc_id && to
            == assoc.remote))
    }
}

/// Whether a command may lead to `after` and `command`.
pub open spec fn dispatch_step<T>(
    table: Map<u16, AssocView<T>>,
    now: u64,
    mode: RelayMode,
    data: Seq<u8>,
    after: Map<u16, AssocView<T>>,
    command: ServerCommandView<T>,
) -> bool {
    if data.len() == 0 || data[0] == packet::TYPE_HEARTBEAT {
        after == table && command == ServerCommandView::<T>::Ignore
    } else if data[0] == packet::TYPE_PACKET {
        match packet::packet_in(data) {
            None => after == table && command == ServerCommandView::<T>::Malformed,
            Some(p) => if table.contains_key(p.assoc_id) {
                packet_step(table, now, mode, p, after, command)
            } else if table.dom().len() >= MAX_ASSOCIATIONS {
                after == table && command == ServerCommandView::<T>::LimitReached
            } else {
                after == table && command == ServerCommandView::<T>::Bind(p.assoc_id)
            },
        }
    } else if data[0] == packet::TYPE_DISSOCIATE {
        if data.len() >= 3 && table.contains_key(wire::u16_at(data, 1)) {
            &&& after == table.remove(wire::u16_at(data, 1))
            &&& command == ServerCommandView::<T>::Dissociated(
                table[wire::u16_at(data, 1)].handle,
            )
        } else {
            after == table && command == ServerCommandView::<T>::Ignore
        }
    } else {
        after == table && command == ServerCommandView::<T>::Unknown(data[0])
    }
}

/// Whether an association has been unused for too long.
pub open spec fn unused<T>(a: AssocView<T>, now: u64) -> bool {
    reassembly::outlived(a.last_seen, now, DISSOCIATE_TIMEOUT)
}

/// The associations that have not been unused for too long, without the
/// packets that have been incomplete for too long.
pub open spec fn live_assocs<T>(table: Map<u16, AssocView<T>>, now: u64) -> Map<
    u16,
    AssocView<T>,
> {
    Map::new(
        |k: u16| table.contains_key(k) && !unused(table[k], now),
        |k: u16|
            AssocView {
                reassembly: reassembly::fresh_buffers(table[k].reassembly, now),
                ..table[k]
            },
    )
}

/// The handles of the associations among `keys` that have been unused for too
/// long.
pub open spec fn dropped_handles<T>(
    table: Map<u16, AssocView<T>>,
    keys: Seq<u16>,
    now: u64,
) -> Seq<T> {
    keys.filter(|k: u16| unused(table[k], now)).map_values(|k: u16| table[k].handle)
}

impl<T> Associations<T> {
    /// Every association's packets are well-formed.
    pub open spec fn wf(&self) -> bool {
        forall|k: u16| #[trigger]
            self.assocs@.contains_key(k) ==> self.assocs@[k].reassembly.wf()
    }

    /// No associations.
    pub fn new() -> (r: Associations<T>)
        ensures
            r.wf(),
            r@ == Map::<u16, AssocView<T>>::empty(),
    {
        let r = Associations { assocs: HashMap::new() };
        assert(r@ =~= Map::<u16, AssocView<T>>::empty());
        r
    }

    /// Takes in a command.
    pub fn dispatch(&mut self, now: u64, mode: RelayMode, data: &[u8]) -> (r: ServerCommand<T>)
        requires
            old(self).wf(),
        ensures
            final(self).wf(),
            dispatch_step(old(self)@, now, mode, data@, final(self)@, r@),
    {
        if data.len() == 0 || data[0] == packet::TYPE_HEARTBEAT {
            return ServerCommand::Ignore;
        }
        if data[0] == packet::TYPE_PACKET {
            match packet::parse_packet(data) {
                None => ServerCommand::Malformed,
                Some((assoc_id, pkt_id, frag_total, frag_id, payload)) => self.on_packet(
                    now,
                    mode,
                    assoc_id,
                    pkt_id,
                    frag_total,
                    frag_id,
                    payload,
                ),
            }
        } else if data[0] == packet::TYPE_DISSOCIATE {
            if data.len() < 3 {
                return ServerCommand::Ignore;
            }
            let assoc_id: u16 = wire::read_be16(data, 1);
            let ghost before = self@;
            match self.assocs.remove(&assoc_id) {
                Some(a) => {
                    assert(self@ =~= before.remove(assoc_id));
                    ServerCommand::Dissociated(a.handle)
                },
                None => {
                    assert(self@ =~= before);
                    ServerCommand::Ignore
                },
            }
        } else {
            ServerCommand::Unknown(data[0])
        }
    }

    fn on_packet(
        &mut self,
        now: u64,
        mode: RelayMode,
        assoc_id: u16,
        pkt_id: u16,
        frag_total: u8,
        frag_id: u8,
        payload: &[u8],
    ) -> (r: ServerCommand<T>)
        requires
            old(self).wf(),
        ensures
            final(self).wf(),
            ({
                let p = PacketView { assoc_id, pkt_id, frag_total, frag_id, payload: payload@ };
                if old(self)@.contains_key(assoc_id) {
                    packet_step(old(self)@, now, mode, p, final(self)@, r@)
                } else if old(self)@.dom().len() >= MAX_ASSOCIATIONS {
                    final(self)@ == old(self)@ && r@ == ServerCommandView::<T>::LimitReached
                } else {
                    final(self)@ == old(self)@ && r@ == ServerCommandView::<T>::Bind(assoc_id)
                }
            }),
    {
        let ghost before = self@;
        proof {
            lemma_views_dom(self.assocs@);
        }
        let mut assoc: ServerAssoc<T> = match self.assocs.remove(&assoc_id) {
            Some(a) => a,
            None => {
                assert(self@ =~= before);
                if self.assocs.len() >= MAX_ASSOCIATIONS {
                    return ServerCommand::LimitReached;
                }
                return ServerCommand::Bind(assoc_id);
            },
        };
        assoc.mode = mode;
        assoc.last_seen = now;
        let remote: String = assoc.remote.clone();
        if frag_total == 1 {
            self.assocs.insert(assoc_id, assoc);
            assert(self@ =~= before.insert(assoc_id, before[assoc_id].seen(now, mode)));
            ServerCommand::Forward(assoc_id, remote, vstd::slice::slice_to_vec(payload))
        } else {
            let whole: Option<Vec<u8>> = assoc.reassembly.add_fragment(
                now,
                pkt_id,
                frag_total,
                frag_id,
                payload,
            );
            let ghost buffers = assoc.reassembly@;
            self.assocs.insert(assoc_id, assoc);
            assert(self@ =~= before.insert(
                assoc_id,
                AssocView { reassembly: buffers, ..before[assoc_id].seen(now, mode) },
            ));
            match whole {
                Some(b) => ServerCommand::Forward(assoc_id, remote, b),
                None => ServerCommand::Held(assoc_id),
            }
        }
    }

    /// Takes note of a new association, whose packets are forwarded to
    /// `remote`.
    pub fn bound(
        &mut self,
        now: u64,
        assoc_id: u16,
        mode: RelayMode,
        remote: String,
        handle: T,
    )
        requires
            old(self).wf(),
        ensures
            final(self).wf(),
            final(self)@ == old(self)@.insert(
                assoc_id,
                new_assoc(now, mode, remote@, handle),
            ),
    {
        let ghost before = self@;
        let assoc = ServerAssoc {
            handle,
            remote,
            mode,
            last_seen: now,
            reassembly: Reassembler::new(),
        };
        self.assocs.insert(assoc_id, assoc);
        assert(self@ =~= before.insert(assoc_id, assoc@));
    }

    /// The handle of an association.
    pub fn handle(&self, assoc_id: u16) -> (r: Option<&T>)
        ensures
            match r {
                Some(h) => self@.contains_key(assoc_id) && self@[assoc_id].handle == *h,
                None => !self@.contains_key(assoc_id),
            },
    {
        match self.assocs.get(&assoc_id) {
            Some(a) => Some(&a.handle),
            None => None,
        }
    }

    /// How answers of an association are to travel.
    pub fn mode(&self, assoc_id: u16) -> (r: Option<RelayMode>)
        ensures
            match r {
                Some(m) => self@.contains_key(assoc_id) && self@[assoc_id].mode == m,
                None => !self@.contains_key(assoc_id),
            },
    {
        match self.assocs.get(&assoc_id) {
            Some(a) => Some(a.mode),
            None => None,
        }
    }

    /// Removes an association whose backend went away.
    pub fn forget(&mut self, assoc_id: u16) -> (r: Option<T>)
        requires
            old(self).wf(),
        ensures
            final(self).wf(),
            final(self)@ == old(self)@.remove(assoc_id),
            match r {
                Some(h) => old(self)@.contains_key(assoc_id) && old(self)@[assoc_id].handle == h,
                None => !old(self)@.contains_key(assoc_id),
            },
    {
        let ghost before = self@;
        let r = match self.assocs.remove(&assoc_id) {
            Some(a) => Some(a.handle),
            None => None,
        };
        assert(self@ =~= before.remove(assoc_id));
        r
    }

    /// The ids of all associations.
    fn ids(&self) -> (r: Vec<u16>)
        ensures
            r@.no_duplicates(),
            r@.to_set() == self@.dom(),
    {
        let mut keys: Vec<u16> = Vec::new();
        for k in it: self.assocs.keys()
            invariant
                keys@ == it.seq().unref().take(it.index() as int),
                it.seq().unref().to_set() == self.assocs@.dom(),
                it.seq().no_duplicates(),
                it.index() == it.seq().len() ==> keys@ == it.seq().unref(),
        {
            keys.push(*k);
        }
        proof {
            lemma_views_dom(self.assocs@);
        }
        keys
    }

    /// Drops the packets that have been incomplete for too long and the
    /// associations that have been unused for too long. Returns the handles of
    /// those associations, in no particular order; they are to be closed.
    pub fn sweep(&mut self, now: u64) -> (r: Vec<T>)
        requires
            old(self).wf(),
        ensures
            final(self).wf(),
            final(self)@ == live_assocs(old(self)@, now),
            exists|keys: Seq<u16>|
                {
                    &&& keys.no_duplicates()
                    &&& keys.to_set() == old(self)@.dom()
                    &&& r@ == #[trigger] dropped_handles(old(self)@, keys, now)
                },
    {
        let ghost table = self@;
        let keys: Vec<u16> = self.ids();
        let mut closed: Vec<T> = Vec::new();
        let mut i: usize = 0;
        proof {
            lemma_dropped_start(table, keys@, now);
            lemma_part_swept_start(table, keys@, now);
        }
        while i < keys.len()
            invariant
                i <= keys.len(),
                self.wf(),
                table == old(self)@,
                keys@.no_duplicates(),
                keys@.to_set() == table.dom(),
                self@ == part_swept(table, keys@.take(i as int), now),
                closed@ == dropped_handles(table, keys@.take(i as int), now),
            decreases keys.len() - i,
        {
            let k: u16 = keys[i];
            let ghost done = keys@.take(i as int);
            assert(keys@.take(i + 1) =~= done.push(k));
            proof {
                assert(keys@.to_set().contains(k));
                assert(!done.contains(k)) by {
                    if done.contains(k) {
                        let j = choose|j: int| 0 <= j < done.len() && done[j] == k;
                        assert(keys@[j] == keys@[i as int]);
                    }
                }
                lemma_dropped_step(table, done, k, now);
                assert forall|j: u16| #[trigger] done.push(k).contains(j) <==> done.contains(j)
                    || j == k by {
                    vstd::seq_lib::lemma_seq_contains_after_push(done, k, j);
                }
            }
            let ghost held = self.assocs@;
            assert(self@.contains_key(k) && self@[k] == table[k]);
            assert(held.contains_key(k) && held[k]@ == table[k]);
            match self.assocs.remove(&k) {
                Some(mut a) => {
                    assert(a@ == table[k]);
                    a.reassembly.sweep(now);
                    if now > a.last_seen && now - a.last_seen > DISSOCIATE_TIMEOUT {
                        closed.push(a.handle);
                    } else {
                        self.assocs.insert(k, a);
                    }
                },
                None => {},
            }
            proof {
                let prev = part_swept(table, done, now);
                let goal = part_swept(table, done.push(k), now);
                assert(assoc_views(held) == prev);
                assert forall|j: u16| #[trigger] self@.contains_key(j) <==> goal.contains_key(
                    j,
                ) by {
                    assert(prev.contains_key(j) <==> held.contains_key(j));
                    assert(done.push(k).contains(j) <==> done.contains(j) || j == k);
                }
                assert forall|j: u16| #[trigger] self@.contains_key(j) implies self@[j]
                    == goal[j] by {
                    assert(done.push(k).contains(j) <==> done.contains(j) || j == k);
                    if j != k {
                        assert(held.contains_key(j));
                        assert(held[j]@ == prev[j]);
                    }
                }
                assert(self@ =~= goal);
            }
            i = i + 1;
        }
        assert(keys@.take(i as int) =~= keys@);
        assert forall|k: u16| #[trigger] table.contains_key(k) implies keys@.contains(k) by {
            assert(keys@.to_set().contains(k));
        }
        assert(self@ =~= live_assocs(table, now));
        closed
    }

    /// Ends all associations. Returns them; what belonged to them is to be
    /// closed.
    pub fn close(&mut self) -> (r: HashMap<u16, ServerAssoc<T>>)
        ensures
            final(self).wf(),
            assoc_views(r@) == old(self)@,
            final(self)@ == Map::<u16, AssocView<T>>::empty(),
    {
        let mut open: HashMap<u16, ServerAssoc<T>> = HashMap::new();
        std::mem::swap(&mut open, &mut self.assocs);
        assert(self@ =~= Map::<u16, AssocView<T>>::empty());
        open
    }
}

/// An authenticated connection: the backend that it is bound to, its
/// associations, and the ids of its answers.
pub struct Connection<T> {
    /// The address that every packet of the connection is forwarded to.
    pub backend: String,
    pub assocs: Associations<T>,
    /// The ids of the packets that go back.
    pub ids: PacketIds,
}

/// What a [`Connection`] stands for.
pub struct ConnectionView<T> {
    pub backend: Seq<char>,
    pub assocs: Map<u16, AssocView<T>>,
    /// The id of the next answer.
    pub next_id: u16,
}

impl<T> View for Connection<T> {
    type V = ConnectionView<T>;

    open spec fn view(&self) -> ConnectionView<T> {
        ConnectionView { backend: self.backend@, assocs: self.assocs@, next_id: self.ids.next }
    }
}

/// Whether all associations forward to `backend`.
pub open spec fn all_to<T>(table: Map<u16, AssocView<T>>, backend: Seq<char>) -> bool {
    forall|k: u16| #[trigger] table.contains_key(k) ==> table[k].remote == backend
}

impl<T> Connection<T> {
    /// The associations are well-formed, and all forward to the backend.
    pub open spec fn wf(&self) -> bool {
        &&& self.assocs.wf()
        &&& all_to(self@.assocs, self@.backend)
    }

    /// A connection that authentication bound to `backend`.
    pub fn new(backend: String) -> (r: Connection<T>)
        ensures
            r.wf(),
            r@.backend == backend@,
            r@.assocs == Map::<u16, AssocView<T>>::empty(),
            r@.next_id == 0,
    {
        Connection { backend, assocs: Associations::new(), ids: PacketIds::new() }
    }

    /// Takes in a command. What it forwards goes to the backend of the
    /// connection.
    pub fn dispatch(&mut self, now: u64, mode: RelayMode, data: &[u8]) -> (r: ServerCommand<T>)
        requires
            old(self).wf(),
        ensures
            final(self).wf(),
            final(self)@.backend == old(self)@.backend,
            final(self)@.next_id == old(self)@.next_id,
            dispatch_step(old(self)@.assocs, now, mode, data@, final(self)@.assocs, r@),
            r@ matches ServerCommandView::Forward(_, to, _) ==> to == old(self)@.backend,
    {
        let ghost before = self@;
        let r = self.assocs.dispatch(now, mode, data);
        proof {
            law_commands_keep_backend(
                before.backend,
                before.assocs,
                now,
                mode,
                data@,
                self@.assocs,
                r@,
            );
        }
        r
    }

    /// Takes note of a new association, which forwards to the backend of the
    /// connection.
    pub fn bound(&mut self, now: u64, assoc_id: u16, mode: RelayMode, handle: T)
        requires
            old(self).wf(),
        ensures
            final(self).wf(),
            final(self)@.backend == old(self)@.backend,
            final(self)@.next_id == old(self)@.next_id,
            final(self)@.assocs == old(self)@.assocs.insert(
                assoc_id,
                new_assoc(now, mode, old(self)@.backend, handle),
            ),
    {
        let backend: String = self.backend.clone();
        self.assocs.bound(now, assoc_id, mode, backend, handle);
    }

    /// Removes an association whose backend went away.
    pub fn forget(&mut self, assoc_id: u16) -> (r: Option<T>)
        requires
            old(self).wf(),
        ensures
            final(self).wf(),
            final(self)@.backend == old(self)@.backend,
            final(self)@.next_id == old(self)@.next_id,
            final(self)@.assocs == old(self)@.assocs.remove(assoc_id),
            match r {
                Some(h) => old(self)@.assocs.contains_key(assoc_id)
                    && old(self)@.assocs[assoc_id].handle == h,
                None => !old(self)@.assocs.contains_key(assoc_id),
            },
    {
        self.assocs.forget(assoc_id)
    }

    /// Drops what has been there for too long; see [`Associations::sweep`].
    pub fn sweep(&mut self, now: u64) -> (r: Vec<T>)
        requires
            old(self).wf(),
        ensures
            final(self).wf(),
            final(self)@.backend == old(self)@.backend,
            final(self)@.next_id == old(self)@.next_id,
            final(self)@.assocs == live_assocs(old(self)@.assocs, now),
            exists|keys: Seq<u16>|
                {
                    &&& keys.no_duplicates()
                    &&& keys.to_set() == old(self)@.assocs.dom()
                    &&& r@ == #[trigger] dropped_handles(old(self)@.assocs, keys, now)
                },
    {
        self.assocs.sweep(now)
    }

    /// Builds the packets that carry what the backend sent to an association
    /// back to the client, and tells how they are to travel: as the last packet
    /// of the association came. `last_mode` is how that was, where the
    /// association is gone.
    pub fn reply(
        &mut self,
        assoc_id: u16,
        last_mode: RelayMode,
        payload: &[u8],
        max_payload: usize,
    ) -> (r: (RelayMode, Vec<Vec<u8>>))
        requires
            old(self).wf(),
            payload.len() > 0 ==> max_payload > 0,
        ensures
            final(self).wf(),
            final(self)@ == (ConnectionView {
                next_id: packet::later_id(old(self)@.next_id, 1),
                ..old(self)@
            }),
            r.0 == reply_mode(old(self)@.assocs, assoc_id, last_mode),
            packet::byte_views(r.1@) == packet::bytes_of(
                packet::packets_for(
                    assoc_id,
                    old(self)@.next_id,
                    payload@,
                    max_payload as nat,
                ),
            ),
    {
        let mode: RelayMode = match self.assocs.mode(assoc_id) {
            Some(m) => m,
            None => last_mode,
        };
        (mode, self.ids.cut(assoc_id, payload, max_payload))
    }

    /// Ends all associations; see [`Associations::close`].
    pub fn close(&mut self) -> (r: HashMap<u16, ServerAssoc<T>>)
        requires
            old(self).wf(),
        ensures
            final(self).wf(),
            final(self)@ == (ConnectionView {
                assocs: Map::<u16, AssocView<T>>::empty(),
                ..old(self)@
            }),
            assoc_views(r@) == old(self)@.assocs,
    {
        self.assocs.close()
    }
}

/// How answers of an association are to travel; as `last_mode` says where it is
/// gone.
pub open spec fn reply_mode<T>(
    table: Map<u16, AssocView<T>>,
    assoc_id: u16,
    last_mode: RelayMode,
) -> RelayMode {
    if table.contains_key(assoc_id) {
        table[assoc_id].mode
    } else {
        last_mode
    }
}

/// The associations once those among `done` are swept.
spec fn part_swept<T>(table: Map<u16, AssocView<T>>, done: Seq<u16>, now: u64) -> Map<
    u16,
    AssocView<T>,
> {
    Map::new(
        |k: u16| table.contains_key(k) && !(done.contains(k) && unused(table[k], now)),
        |k: u16|
            if done.contains(k) {
                AssocView {
                    reassembly: reassembly::fresh_buffers(table[k].reassembly, now),
                    ..table[k]
                }
            } else {
                table[k]
            },
    )
}

proof fn lemma_part_swept_start<T>(table: Map<u16, AssocView<T>>, keys: Seq<u16>, now: u64)
    ensures
        part_swept(table, keys.take(0), now) == table,
{
    assert(part_swept(table, keys.take(0), now) =~= table);
}

proof fn lemma_dropped_start<T>(table: Map<u16, AssocView<T>>, keys: Seq<u16>, now: u64)
    ensures
        dropped_handles(table, keys.take(0), now) == Seq::<T>::empty(),
{
    reveal(Seq::filter);
    assert(dropped_handles(table, keys.take(0), now) =~= Seq::<T>::empty());
}

proof fn lemma_dropped_step<T>(table: Map<u16, AssocView<T>>, done: Seq<u16>, k: u16, now: u64)
    ensures
        dropped_handles(table, done.push(k), now) == (if unused(table[k], now) {
            dropped_handles(table, done, now).push(table[k].handle)
        } else {
            dropped_handles(table, done, now)
        }),
{
    reveal(Seq::filter);
    assert(done.push(k).drop_last() =~= done);
    if unused(table[k], now) {
        assert(dropped_handles(table, done.push(k), now) =~= dropped_handles(
            table,
            done,
            now,
        ).push(table[k].handle));
    }
}

/// A table and what it stands for have the same keys.
proof fn lemma_views_dom<T>(m: Map<u16, ServerAssoc<T>>)
    ensures
        assoc_views(m).dom() == m.dom(),
{
    assert(assoc_views(m).dom() =~= m.dom());
}

/// The association that a command is for, if it is for one.
pub open spec fn addressed(data: Seq<u8>) -> Option<u16> {
    if data.len() > 0 && data[0] == packet::TYPE_PACKET {
        match packet::packet_in(data) {
            Some(p) => Some(p.assoc_id),
            None => None,
        }
    } else if data.len() >= 3 && data[0] == packet::TYPE_DISSOCIATE {
        Some(wire::u16_at(data, 1))
    } else {
        None
    }
}

/// A connection never has more associations than the limit: no command adds
/// one, and a socket is asked for only where there is room.
pub proof fn law_association_limit<T>(
    table: Map<u16, AssocView<T>>,
    now: u64,
    mode: RelayMode,
    data: Seq<u8>,
    after: Map<u16, AssocView<T>>,
    command: ServerCommandView<T>,
    assoc: AssocView<T>,
)
    requires
        table.dom().finite(),
        table.dom().len() <= MAX_ASSOCIATIONS,
        dispatch_step(table, now, mode, data, after, command),
    ensures
        after.dom().subset_of(table.dom()),
        after.dom().len() <= MAX_ASSOCIATIONS,
        command matches ServerCommandView::Bind(id) ==> after.insert(id, assoc).dom().len()
            <= MAX_ASSOCIATIONS,
{
    vstd::set_lib::lemma_len_subset(after.dom(), table.dom());
    if let ServerCommandView::Bind(id) = command {
        assert(after.insert(id, assoc).dom() =~= after.dom().insert(id));
    }
}

/// A command leaves every association alone but the one that it is for.
pub proof fn law_other_associations_untouched<T>(
    table: Map<u16, AssocView<T>>,
    now: u64,
    mode: RelayMode,
    data: Seq<u8>,
    after: Map<u16, AssocView<T>>,
    command: ServerCommandView<T>,
    other: u16,
)
    requires
        dispatch_step(table, now, mode, data, after, command),
        addressed(data) != Some(other),
    ensures
        after.contains_key(other) <==> table.contains_key(other),
        table.contains_key(other) ==> after[other] == table[other],
{
}

/// What a client ends is gone: the command that it builds for it removes the
/// association, and no other.
pub proof fn law_dissociate<T>(
    table: Map<u16, AssocView<T>>,
    now: u64,
    mode: RelayMode,
    assoc_id: u16,
    after: Map<u16, AssocView<T>>,
    command: ServerCommandView<T>,
)
    requires
        dispatch_step(
            table,
            now,
            mode,
            seq![packet::TYPE_DISSOCIATE] + wire::be16(assoc_id),
            after,
            command,
        ),
    ensures
        after == table.remove(assoc_id),
        command == (if table.contains_key(assoc_id) {
            ServerCommandView::Dissociated(table[assoc_id].handle)
        } else {
            ServerCommandView::Ignore
        }),
{
    let data = seq![packet::TYPE_DISSOCIATE] + wire::be16(assoc_id);
    assert(data.subrange(1, 3) =~= wire::be16(assoc_id));
    wire::lemma_be16_at(data, 1, assoc_id);
    if !table.contains_key(assoc_id) {
        assert(table.remove(assoc_id) =~= table);
    }
}

/// No command changes where the packets of a connection go: what is forwarded
/// goes to its backend, and so will what is forwarded later.
pub proof fn law_commands_keep_backend<T>(
    backend: Seq<char>,
    table: Map<u16, AssocView<T>>,
    now: u64,
    mode: RelayMode,
    data: Seq<u8>,
    after: Map<u16, AssocView<T>>,
    command: ServerCommandView<T>,
)
    requires
        all_to(table, backend),
        dispatch_step(table, now, mode, data, after, command),
    ensures
        all_to(after, backend),
        command matches ServerCommandView::Forward(_, to, _) ==> to == backend,
{
    if data.len() > 0 && data[0] == packet::TYPE_PACKET {
        if let Some(p) = packet::packet_in(data) {
            if table.contains_key(p.assoc_id) {
                assert(table[p.assoc_id].remote == backend);
            }
        }
    }
}

/// Answers travel as the last packet came: once a packet is taken in, answers
/// of its association go the way that it went.
pub proof fn law_answers_travel_as_packets_came<T>(
    table: Map<u16, AssocView<T>>,
    now: u64,
    mode: RelayMode,
    data: Seq<u8>,
    after: Map<u16, AssocView<T>>,
    command: ServerCommandView<T>,
    last_mode: RelayMode,
)
    requires
        packet::packet_in(data) matches Some(p) && table.contains_key(p.assoc_id),
        dispatch_step(table, now, mode, data, after, command),
    ensures
        reply_mode(after, (packet::packet_in(data)->0).assoc_id, last_mode) == mode,
{
}

/// A whole packet is relayed at once: the payload is forwarded to the address
/// of its association, which then has the packet's mode. Its incomplete packets
/// are as they were, and all other associations are too.
pub proof fn law_whole_packet_is_relayed<T>(
    table: Map<u16, AssocView<T>>,
    now: u64,
    mode: RelayMode,
    data: Seq<u8>,
    after: Map<u16, AssocView<T>>,
    command: ServerCommandView<T>,
)
    requires
        packet::packet_in(data) matches Some(p) && p.frag_total == 1 && table.contains_key(
            p.assoc_id,
        ),
        dispatch_step(table, now, mode, data, after, command),
    ensures
        ({
            let p = packet::packet_in(data)->0;
            let a = p.assoc_id;
            &&& command == ServerCommandView::<T>::Forward(a, table[a].remote, p.payload)
            &&& after == table.insert(a, AssocView { mode, last_seen: now, ..table[a] })
        }),
{
}

/// A whole packet for a new association is relayed too, as long as there is
/// room: a socket is asked for, and once the association is bound, taking in
/// the packet again forwards its payload to the address that the association
/// was bound to. The association then has the packet's mode and no incomplete
/// packets, and all other associations are as they were.
pub proof fn law_new_association_is_relayed<T>(
    table: Map<u16, AssocView<T>>,
    now: u64,
    mode: RelayMode,
    data: Seq<u8>,
    after: Map<u16, AssocView<T>>,
    command: ServerCommandView<T>,
    remote: Seq<char>,
    handle: T,
    again: u64,
    end: Map<u16, AssocView<T>>,
    last: ServerCommandView<T>,
)
    requires
        packet::packet_in(data) matches Some(p) && p.frag_total == 1 && !table.contains_key(
            p.assoc_id,
        ),
        table.dom().len() < MAX_ASSOCIATIONS,
        dispatch_step(table, now, mode, data, after, command),
        dispatch_step(
            after.insert(
                (packet::packet_in(data)->0).assoc_id,
                new_assoc(now, mode, remote, handle),
            ),
            again,
            mode,
            data,
            end,
            last,
        ),
    ensures
        ({
            let p = packet::packet_in(data)->0;
            let a = p.assoc_id;
            &&& after == table
            &&& command == ServerCommandView::<T>::Bind(a)
            &&& last == ServerCommandView::<T>::Forward(a, remote, p.payload)
            &&& end == table.insert(a, new_assoc(again, mode, remote, handle))
        }),
{
    let p = packet::packet_in(data)->0;
    let bound = new_assoc(now, mode, remote, handle);
    let seen = new_assoc(again, mode, remote, handle);
    assert(bound.seen(again, mode) == seen);
    assert(table.insert(p.assoc_id, bound).insert(p.assoc_id, seen) =~= table.insert(
        p.assoc_id,
        seen,
    ));
}

/// The first packet of an association asks for a socket, be it whole or a
/// fragment, as long as there is room; and nothing else happens yet. With 128
/// associations there is no room, and the packet is dropped.
pub proof fn law_first_packet_asks_for_socket<T>(
    table: Map<u16, AssocView<T>>,
    now: u64,
    mode: RelayMode,
    data: Seq<u8>,
    after: Map<u16, AssocView<T>>,
    command: ServerCommandView<T>,
)
    requires
        packet::packet_in(data) matches Some(p) && !table.contains_key(p.assoc_id),
        dispatch_step(table, now, mode, data, after, command),
    ensures
        after == table,
        table.dom().len() < 128 ==> command == ServerCommandView::<T>::Bind(
            (packet::packet_in(data)->0).assoc_id,
        ),
        table.dom().len() >= 128 ==> command == ServerCommandView::<T>::LimitReached,
{
}

/// A packet of a known association, be it whole or a fragment, is used: it is
/// forwarded or held, in the name of its association; it marks the association
/// as used now and in its mode; and it changes neither socket nor address, nor
/// any other association.
pub proof fn law_packet_marks_association<T>(
    table: Map<u16, AssocView<T>>,
    now: u64,
    mode: RelayMode,
    data: Seq<u8>,
    after: Map<u16, AssocView<T>>,
    command: ServerCommandView<T>,
    other: u16,
)
    requires
        packet::packet_in(data) matches Some(p) && table.contains_key(p.assoc_id),
        dispatch_step(table, now, mode, data, after, command),
    ensures
        ({
            let a = (packet::packet_in(data)->0).assoc_id;
            &&& after.contains_key(a)
            &&& after[a].mode == mode
            &&& after[a].last_seen == now
            &&& after[a].handle == table[a].handle
            &&& after[a].remote == table[a].remote
            &&& after.dom() == table.dom()
            &&& other != a && table.contains_key(other) ==> after[other] == table[other]
            &&& command == ServerCommandView::<T>::Held(a) || (command
                matches ServerCommandView::Forward(id, to, _) && id == a && to == table[a].remote)
        }),
{
    let a = (packet::packet_in(data)->0).assoc_id;
    assert(after.dom() =~= table.dom());
}

/// What is neither a packet that can be read nor the end of an association
/// changes nothing: nothing at all and heartbeats are ignored, and of anything
/// else the caller is told what it was.
pub proof fn law_other_commands_change_nothing<T>(
    table: Map<u16, AssocView<T>>,
    now: u64,
    mode: RelayMode,
    data: Seq<u8>,
    after: Map<u16, AssocView<T>>,
    command: ServerCommandView<T>,
)
    requires
        dispatch_step(table, now, mode, data, after, command),
    ensures
        data.len() == 0 ==> after == table && command == ServerCommandView::<T>::Ignore,
        data.len() > 0 && data[0] == 0x04 ==> after == table && command
            == ServerCommandView::<T>::Ignore,
        data.len() > 0 && data[0] == 0x02 && packet::packet_in(data) is None ==> after == table
            && command == ServerCommandView::<T>::Malformed,
        data.len() > 0 && data[0] == 0x03 && data.len() < 3 ==> after == table && command
            == ServerCommandView::<T>::Ignore,
        data.len() > 0 && data[0] != 0x02 && data[0] != 0x03 && data[0] != 0x04 ==> after == table
            && command == ServerCommandView::<T>::Unknown(data[0]),
{
}

/// A sweep drops the associations that have been unused for more than 60
/// seconds and keeps all others as they are, but for packets that have been
/// incomplete for more than 10 seconds.
pub proof fn law_sweep_goes_by_use<T>(
    table: Map<u16, AssocView<T>>,
    now: u64,
    assoc_id: u16,
    pkt_id: u16,
)
    ensures
        live_assocs(table, now).contains_key(assoc_id) <==> table.contains_key(assoc_id) && now
            <= table[assoc_id].last_seen + 60_000_000_000,
        live_assocs(table, now).contains_key(assoc_id) ==> {
            let before = table[assoc_id];
            let after = live_assocs(table, now)[assoc_id];
            &&& after.handle == before.handle
            &&& after.remote == before.remote
            &&& after.mode == before.mode
            &&& after.last_seen == before.last_seen
            &&& after.reassembly.contains_key(pkt_id) <==> before.reassembly.contains_key(pkt_id)
                && now <= before.reassembly[pkt_id].created + 10_000_000_000
            &&& after.reassembly.contains_key(pkt_id) ==> after.reassembly[pkt_id]
                == before.reassembly[pkt_id]
        },
{
}

/// A sweep hands back the socket of each association that has been unused for
/// more than 60 seconds, once, and no other.
pub proof fn law_sweep_closes_unused<T>(
    table: Map<u16, AssocView<T>>,
    keys: Seq<u16>,
    k: u16,
    now: u64,
)
    ensures
        dropped_handles(table, Seq::empty(), now) == Seq::<T>::empty(),
        now - table[k].last_seen > 60_000_000_000 ==> dropped_handles(table, keys.push(k), now)
            == dropped_handles(table, keys, now).push(table[k].handle),
        now - table[k].last_seen <= 60_000_000_000 ==> dropped_handles(table, keys.push(k), now)
            == dropped_handles(table, keys, now),
{
    lemma_dropped_start(table, keys, now);
    assert(keys.take(0) =~= Seq::<u16>::empty());
    lemma_dropped_step(table, keys, k, now);
}

/// An answer travels as the last packet of its association came, and where the
/// association is gone as the caller last knew it.
pub proof fn law_answers_of_gone_associations<T>(
    table: Map<u16, AssocView<T>>,
    assoc_id: u16,
    last_mode: RelayMode,
)
    ensures
        !table.contains_key(assoc_id) ==> reply_mode(table, assoc_id, last_mode) == last_mode,
        table.contains_key(assoc_id) ==> reply_mode(table, assoc_id, last_mode)
            == table[assoc_id].mode,
{
}

/// What ends an association: three bytes, of which the last two name it;
/// whatever follows them does not matter.
pub proof fn law_dissociate_names_association<T>(
    table: Map<u16, AssocView<T>>,
    now: u64,
    mode: RelayMode,
    data: Seq<u8>,
    after: Map<u16, AssocView<T>>,
    command: ServerCommandView<T>,
    assoc_id: u16,
)
    requires
        data.len() >= 3,
        data[0] == 0x03,
        assoc_id == data[1] * 256 + data[2],
        dispatch_step(table, now, mode, data, after, command),
    ensures
        after == table.remove(assoc_id),
        table.contains_key(assoc_id) ==> command == ServerCommandView::<T>::Dissociated(
            table[assoc_id].handle,
        ),
        !table.contains_key(assoc_id) ==> command == ServerCommandView::<T>::Ignore,
{
    if !table.contains_key(assoc_id) {
        assert(table.remove(assoc_id) =~= table);
    }
}

/// A fragment of a known association goes to the buffers of that association,
/// and what they complete, and nothing else, is forwarded.
pub proof fn law_fragments_are_collected<T>(
    table: Map<u16, AssocView<T>>,
    now: u64,
    mode: RelayMode,
    data: Seq<u8>,
    after: Map<u16, AssocView<T>>,
    command: ServerCommandView<T>,
)
    requires
        packet::packet_in(data) matches Some(p) && p.frag_total != 1 && table.contains_key(
            p.assoc_id,
        ),
        dispatch_step(table, now, mode, data, after, command),
    ensures
        ({
            let p = packet::packet_in(data)->0;
            let a = p.assoc_id;
            exists|whole: Option<Seq<u8>>|
                {
                    &&& #[trigger] reassembly::fragment_step(
                        table[a].reassembly,
                        now,
                        p.pkt_id,
                        p.frag_total,
                        p.frag_id,
                        p.payload,
                        (after[a].reassembly, whole),
                    )
                    &&& command == (match whole {
                        Some(b) => ServerCommandView::<T>::Forward(a, table[a].remote, b),
                        None => ServerCommandView::<T>::Held(a),
                    })
                }
        }),
{
    let p = packet::packet_in(data)->0;
    let whole = match command {
        ServerCommandView::Forward(_, _, b) => Some(b),
        _ => None,
    };
    assert(reassembly::fragment_step(
        table[p.assoc_id].reassembly,
        now,
        p.pkt_id,
        p.frag_total,
        p.frag_id,
        p.payload,
        (after[p.assoc_id].reassembly, whole),
    ));
}

} // verus!
