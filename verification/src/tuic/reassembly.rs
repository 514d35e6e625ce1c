//! Putting fragmented packets back together.
use crate::tuic::packet;
use crate::tuic::packet::PacketView;
use crate::wire;
use std::collections::HashMap;
use vstd::prelude::*;

verus! {

/// How long a packet may stay incomplete, in nanoseconds.
pub const REASSEMBLY_TIMEOUT: u64 = 10_000_000_000;

/// The largest number of incomplete packets kept.
pub const MAX_REASSEMBLY_BUFFERS: usize = 64;

/// The fragments of one packet. Times are in nanoseconds on the caller's
/// clock.
pub struct ReassemblyBuffer {
    pub fragments: Vec<Option<Vec<u8>>>,
    /// The number of fragments of the packet.
    pub total: u8,
    /// How many of them are here.
    pub received: u8,
    /// When the first of them came.
    pub created: u64,
}

/// What a [`ReassemblyBuffer`] stands for.
#[verifier::ext_equal]
pub struct BufferView {
    /// The fragments in their places, as far as they are here.
    pub slots: Seq<Option<Seq<u8>>>,
    pub created: u64,
}

/// What an optional byte string stands for.
pub open spec fn slot_view(f: Option<Vec<u8>>) -> Option<Seq<u8>> {
    match f {
        Some(v) => Some(v@),
        None => None,
    }
}

impl View for ReassemblyBuffer {
    type V = BufferView;

    open spec fn view(&self) -> BufferView {
        BufferView {
            slots: self.fragments@.map_values(|f: Option<Vec<u8>>| slot_view(f)),
            created: self.created,
        }
    }
}

/// How many slots are filled.
pub open spec fn filled_count(slots: Seq<Option<Seq<u8>>>) -> nat
    decreases slots.len(),
{
    if slots.len() == 0 {
        0
    } else {
        filled_count(slots.drop_last()) + (if slots.last() is Some {
            1nat
        } else {
            0nat
        })
    }
}

/// Whether every slot is filled.
pub open spec fn complete(slots: Seq<Option<Seq<u8>>>) -> bool {
    forall|i: int| 0 <= i < slots.len() ==> #[trigger] slots[i] is Some
}

/// The filled slots, put together in order.
pub open spec fn present(slots: Seq<Option<Seq<u8>>>) -> Seq<u8>
    decreases slots.len(),
{
    if slots.len() == 0 {
        Seq::empty()
    } else {
        (match slots[0] {
            Some(b) => b,
            None => Seq::empty(),
        }) + present(slots.skip(1))
    }
}

/// `n` slots with nothing in them.
pub open spec fn empty_slots(n: nat) -> Seq<Option<Seq<u8>>> {
    Seq::new(n, |i: int| None)
}

/// Whether a fragment has a place that is still free.
pub open spec fn accepts(slots: Seq<Option<Seq<u8>>>, frag_id: u8) -> bool {
    frag_id < slots.len() && slots[frag_id as int] is None
}

/// The slots once a fragment came in. One without a place, or whose place is
/// taken, is dropped.
pub open spec fn with_fragment(
    slots: Seq<Option<Seq<u8>>>,
    frag_id: u8,
    payload: Seq<u8>,
) -> Seq<Option<Seq<u8>>> {
    if accepts(slots, frag_id) {
        slots.update(frag_id as int, Some(payload))
    } else {
        slots
    }
}

/// Whether something from `created` has been there for longer than `timeout`.
pub open spec fn outlived(created: u64, now: u64, timeout: u64) -> bool {
    now - created > timeout
}

impl ReassemblyBuffer {
    /// There is a slot for each fragment, and the filled ones are counted.
    pub open spec fn wf(&self) -> bool {
        &&& self.fragments@.len() == self.total
        &&& self.received == filled_count(self@.slots)
    }

    /// A buffer for a packet of `total` fragments.
    pub fn new(total: u8, now: u64) -> (r: ReassemblyBuffer)
        ensures
            r.wf(),
            r@ == (BufferView { slots: empty_slots(total as nat), created: now }),
    {
        let mut fragments: Vec<Option<Vec<u8>>> = Vec::new();
        let mut i: u8 = 0;
        while i < total
            invariant
                i <= total,
                fragments.len() == i,
                forall|k: int| 0 <= k < i ==> #[trigger] fragments@[k] is None,
            decreases total - i,
        {
            fragments.push(None);
            i = i + 1;
        }
        let r = ReassemblyBuffer { fragments, total, received: 0, created: now };
        assert(r@.slots =~= empty_slots(total as nat));
        proof {
            lemma_empty_count(total as nat);
        }
        r
    }

    /// Takes in a fragment. Tells whether it made the packet complete.
    pub fn insert(&mut self, frag_id: u8, payload: &[u8]) -> (r: bool)
        requires
            old(self).wf(),
        ensures
            final(self).wf(),
            final(self)@ == (BufferView {
                slots: with_fragment(old(self)@.slots, frag_id, payload@),
                created: old(self)@.created,
            }),
            r == (accepts(old(self)@.slots, frag_id) && complete(final(self)@.slots)),
    {
        let ghost slots = self@.slots;
        if frag_id >= self.total || self.fragments[frag_id as usize].is_some() {
            return false;
        }
        proof {
            lemma_count_update(slots, frag_id as int, payload@);
            lemma_count_bound(slots.update(frag_id as int, Some(payload@)));
        }
        let copy: Vec<u8> = vstd::slice::slice_to_vec(payload);
        self.fragments[frag_id as usize] = Some(copy);
        assert(self@.slots =~= slots.update(frag_id as int, Some(payload@)));
        self.received = self.received + 1;
        proof {
            lemma_count_complete(self@.slots);
        }
        self.received == self.total
    }

    /// The fragments put together in order.
    pub fn assemble(self) -> (r: Vec<u8>)
        ensures
            r@ == present(self@.slots),
    {
        let ghost slots = self@.slots;
        let mut out: Vec<u8> = Vec::new();
        let mut i: usize = 0;
        assert(slots.skip(0) =~= slots);
        assert(out@ + present(slots) =~= present(slots));
        while i < self.fragments.len()
            invariant
                i <= self.fragments.len(),
                slots == self@.slots,
                out@ + present(slots.skip(i as int)) == present(slots),
            decreases self.fragments.len() - i,
        {
            let ghost before = out@;
            let ghost rest = present(slots.skip(i + 1));
            assert(slots.skip(i as int)[0] == slot_view(self.fragments@[i as int]));
            assert(slots.skip(i as int).skip(1) =~= slots.skip(i + 1));
            match &self.fragments[i] {
                Some(data) => {
                    wire::append_bytes(&mut out, data.as_slice());
                    assert(out@ + rest =~= before + (data@ + rest));
                },
                None => {
                    assert(out@ + rest =~= before + (Seq::<u8>::empty() + rest));
                },
            }
            i = i + 1;
        }
        assert(slots.skip(i as int).len() == 0);
        assert(out@ + present(slots.skip(i as int)) =~= out@);
        out
    }

    /// Whether the packet has been incomplete for too long.
    pub fn is_stale(&self, now: u64) -> (r: bool)
        ensures
            r == outlived(self@.created, now, REASSEMBLY_TIMEOUT),
    {
        now > self.created && now - self.created > REASSEMBLY_TIMEOUT
    }
}

proof fn lemma_empty_count(n: nat)
    ensures
        filled_count(empty_slots(n)) == 0,
    decreases n,
{
    if n > 0 {
        assert(empty_slots(n).drop_last() =~= empty_slots((n - 1) as nat));
        lemma_empty_count((n - 1) as nat);
    }
}

proof fn lemma_count_bound(slots: Seq<Option<Seq<u8>>>)
    ensures
        filled_count(slots) <= slots.len(),
    decreases slots.len(),
{
    if slots.len() > 0 {
        lemma_count_bound(slots.drop_last());
    }
}

proof fn lemma_count_update(slots: Seq<Option<Seq<u8>>>, i: int, b: Seq<u8>)
    requires
        0 <= i < slots.len(),
        slots[i] is None,
    ensures
        filled_count(slots.update(i, Some(b))) == filled_count(slots) + 1,
    decreases slots.len(),
{
    let after = slots.update(i, Some(b));
    if i == slots.len() - 1 {
        assert(after.drop_last() =~= slots.drop_last());
    } else {
        assert(after.drop_last() =~= slots.drop_last().update(i, Some(b)));
        lemma_count_update(slots.drop_last(), i, b);
    }
}

proof fn lemma_count_complete(slots: Seq<Option<Seq<u8>>>)
    ensures
        filled_count(slots) == slots.len() <==> complete(slots),
    decreases slots.len(),
{
    if slots.len() > 0 {
        let init = slots.drop_last();
        lemma_count_bound(init);
        lemma_count_complete(init);
        if complete(slots) {
            assert forall|i: int| 0 <= i < init.len() implies #[trigger] init[i] is Some by {
                assert(init[i] == slots[i]);
            }
            assert(slots[slots.len() - 1] is Some);
        } else {
            let i = choose|i: int| 0 <= i < slots.len() && !(#[trigger] slots[i] is Some);
            if i < init.len() {
                assert(init[i] == slots[i]);
            }
        }
    }
}

/// The incomplete packets of one association, by their ids.
pub struct Reassembler {
    pub buffers: HashMap<u16, ReassemblyBuffer>,
}

/// What a table of buffers stands for.
pub open spec fn buffer_views(m: Map<u16, ReassemblyBuffer>) -> Map<u16, BufferView> {
    Map::new(|k: u16| m.contains_key(k), |k: u16| m[k]@)
}

impl View for Reassembler {
    type V = Map<u16, BufferView>;

    open spec fn view(&self) -> Map<u16, BufferView> {
        buffer_views(self.buffers@)
    }
}

/// The table without a packet of another number of fragments under this id.
pub open spec fn matching_only(
    table: Map<u16, BufferView>,
    pkt_id: u16,
    frag_total: u8,
) -> Map<u16, BufferView> {
    if table.contains_key(pkt_id) && table[pkt_id].slots.len() != frag_total {
        table.remove(pkt_id)
    } else {
        table
    }
}

/// Whether a packet has to give way before one under this id can come in.
pub open spec fn crowded(table: Map<u16, BufferView>, pkt_id: u16) -> bool {
    table.dom().len() >= MAX_REASSEMBLY_BUFFERS && !table.contains_key(pkt_id)
}

/// Whether no packet in the table is older than the one under `k`.
pub open spec fn oldest(table: Map<u16, BufferView>, k: u16) -> bool {
    &&& table.contains_key(k)
    &&& forall|j: u16| #[trigger] table.contains_key(j) ==> table[k].created <= table[j].created
}

/// The buffer that a fragment goes to: the one under its id, or a new one.
pub open spec fn buffer_for(
    table: Map<u16, BufferView>,
    now: u64,
    pkt_id: u16,
    frag_total: u8,
) -> BufferView {
    if table.contains_key(pkt_id) {
        table[pkt_id]
    } else {
        BufferView { slots: empty_slots(frag_total as nat), created: now }
    }
}

/// The table and the packet, if it is now complete, once a fragment is put in
/// its place. A complete packet leaves the table.
pub open spec fn settled(
    table: Map<u16, BufferView>,
    now: u64,
    pkt_id: u16,
    frag_total: u8,
    frag_id: u8,
    payload: Seq<u8>,
) -> (Map<u16, BufferView>, Option<Seq<u8>>) {
    let buffer = buffer_for(table, now, pkt_id, frag_total);
    let slots = with_fragment(buffer.slots, frag_id, payload);
    if accepts(buffer.slots, frag_id) && complete(slots) {
        (table.remove(pkt_id), Some(present(slots)))
    } else {
        (table.insert(pkt_id, BufferView { slots, created: buffer.created }), None)
    }
}

/// Whether `after` is what a fragment may make of `table`: where the table is
/// crowded, one of the oldest packets gives way.
pub open spec fn fragment_step(
    table: Map<u16, BufferView>,
    now: u64,
    pkt_id: u16,
    frag_total: u8,
    frag_id: u8,
    payload: Seq<u8>,
    after: (Map<u16, BufferView>, Option<Seq<u8>>),
) -> bool {
    let kept = matching_only(table, pkt_id, frag_total);
    if crowded(kept, pkt_id) {
        exists|k: u16| #[trigger]
            oldest(kept, k) && after == settled(
                kept.remove(k),
                now,
                pkt_id,
                frag_total,
                frag_id,
                payload,
            )
    } else {
        after == settled(kept, now, pkt_id, frag_total, frag_id, payload)
    }
}

/// The packets that have not been incomplete for too long.
pub open spec fn fresh_buffers(table: Map<u16, BufferView>, now: u64) -> Map<u16, BufferView> {
    Map::new(
        |k: u16| table.contains_key(k) && !outlived(table[k].created, now, REASSEMBLY_TIMEOUT),
        |k: u16| table[k],
    )
}

/// What an optional byte string stands for.
pub open spec fn bytes_view(b: Option<Vec<u8>>) -> Option<Seq<u8>> {
    match b {
        Some(v) => Some(v@),
        None => None,
    }
}

impl Reassembler {
    /// Every buffer is well-formed, and there are not too many.
    pub open spec fn wf(&self) -> bool {
        &&& forall|k: u16| #[trigger] self.buffers@.contains_key(k) ==> self.buffers@[k].wf()
        &&& self@.dom().finite()
        &&& self@.dom().len() <= MAX_REASSEMBLY_BUFFERS
    }

    /// No packets.
    pub fn new() -> (r: Reassembler)
        ensures
            r.wf(),
            r@ == Map::<u16, BufferView>::empty(),
    {
        let r = Reassembler { buffers: HashMap::new() };
        assert(r@ =~= Map::<u16, BufferView>::empty());
        r
    }

    /// The id of one of the oldest packets, if there are any.
    fn oldest_key(&self) -> (r: Option<u16>)
        ensures
            match r {
                Some(k) => oldest(self@, k),
                None => self.buffers@.dom().len() == 0,
            },
    {
        let ghost table = self.buffers@;
        let mut found: Option<(u16, u64)> = None;
        for (k, b) in it: self.buffers.iter()
            invariant
                table == self.buffers@,
                it.seq().len() == table.dom().len(),
                forall|i: int|
                    0 <= i < it.seq().len() ==> table.contains_key(*(#[trigger] it.seq()[i]).0)
                        && table[*it.seq()[i].0] == *it.seq()[i].1,
                forall|k: u16| #[trigger]
                    table.contains_key(k) ==> it.seq().contains((&k, &table[k])),
                it.index() > 0 ==> found is Some,
                found matches Some((key, created)) ==> table.contains_key(key)
                    && table[key].created == created && forall|i: int|
                    0 <= i < it.index() ==> created <= (#[trigger] it.seq()[i]).1.created,
        {
            assert(table.contains_key(*it.seq()[it.index() as int].0));
            match found {
                Some((_, created)) => {
                    if b.created < created {
                        found = Some((*k, b.created));
                    }
                },
                None => {
                    found = Some((*k, b.created));
                },
            }
        }
        match found {
            Some((key, created)) => {
                assert forall|j: u16| #[trigger] self@.contains_key(j) implies self@[key].created
                    <= self@[j].created by {
                    assert(table.contains_key(j));
                }
                Some(key)
            },
            None => None,
        }
    }

    /// Takes in a fragment. Returns the packet if it is complete now.
    pub fn add_fragment(
        &mut self,
        now: u64,
        pkt_id: u16,
        frag_total: u8,
        frag_id: u8,
        payload: &[u8],
    ) -> (r: Option<Vec<u8>>)
        requires
            old(self).wf(),
        ensures
            final(self).wf(),
            fragment_step(
                old(self)@,
                now,
                pkt_id,
                frag_total,
                frag_id,
                payload@,
                (final(self)@, bytes_view(r)),
            ),
    {
        let ghost start = self@;
        proof {
            lemma_views_dom(self.buffers@);
        }
        let other: bool = match self.buffers.get(&pkt_id) {
            Some(existing) => existing.total != frag_total,
            None => false,
        };
        if other {
            self.buffers.remove(&pkt_id);
        }
        let ghost kept = matching_only(start, pkt_id, frag_total);
        assert(self@ =~= kept);
        proof {
            lemma_views_dom(self.buffers@);
        }
        if self.buffers.len() >= MAX_REASSEMBLY_BUFFERS && !self.buffers.contains_key(&pkt_id) {
            match self.oldest_key() {
                Some(k) => {
                    self.buffers.remove(&k);
                    assert(self@ =~= kept.remove(k));
                    proof {
                        lemma_views_dom(self.buffers@);
                    }
                },
                None => {},
            }
        }
        let ghost room = self@;
        assert(!crowded(room, pkt_id));
        let mut buffer: ReassemblyBuffer = match self.buffers.remove(&pkt_id) {
            Some(b) => b,
            None => ReassemblyBuffer::new(frag_total, now),
        };
        assert(self@ =~= room.remove(pkt_id));
        assert(buffer@ == buffer_for(room, now, pkt_id, frag_total));
        if buffer.insert(frag_id, payload) {
            proof {
                lemma_views_dom(self.buffers@);
            }
            Some(buffer.assemble())
        } else {
            self.buffers.insert(pkt_id, buffer);
            proof {
                lemma_views_dom(self.buffers@);
            }
            assert(self@ =~= settled(room, now, pkt_id, frag_total, frag_id, payload@).0);
            None
        }
    }

    /// Drops the packets that have been incomplete for too long.
    pub fn sweep(&mut self, now: u64)
        requires
            old(self).wf(),
        ensures
            final(self).wf(),
            final(self)@ == fresh_buffers(old(self)@, now),
    {
        let ghost table = self.buffers@;
        let mut stale: Vec<u16> = Vec::new();
        for (k, b) in it: self.buffers.iter()
            invariant
                table == self.buffers@,
                forall|i: int|
                    0 <= i < it.seq().len() ==> table.contains_key(*(#[trigger] it.seq()[i]).0)
                        && table[*it.seq()[i].0] == *it.seq()[i].1,
                forall|k: u16| #[trigger]
                    table.contains_key(k) ==> it.seq().contains((&k, &table[k])),
                forall|i: int|
                    0 <= i < it.index() && outlived(
                        (#[trigger] it.seq()[i]).1.created,
                        now,
                        REASSEMBLY_TIMEOUT,
                    ) ==> stale@.contains(*it.seq()[i].0),
                forall|k: u16| #[trigger]
                    stale@.contains(k) ==> table.contains_key(k) && outlived(
                        table[k].created,
                        now,
                        REASSEMBLY_TIMEOUT,
                    ),
        {
            assert(table.contains_key(*it.seq()[it.index() as int].0));
            let ghost before = stale@;
            if b.is_stale(now) {
                stale.push(*k);
                assert forall|j: u16| #[trigger] stale@.contains(j) <==> before.contains(j) || j
                    == *k by {
                    vstd::seq_lib::lemma_seq_contains_after_push(before, *k, j);
                }
            }
        }
        let ghost all = stale@;
        assert(forall|k: u16| #[trigger]
            all.contains(k) <==> table.contains_key(k) && outlived(
                table[k].created,
                now,
                REASSEMBLY_TIMEOUT,
            ));
        let mut i: usize = 0;
        while i < stale.len()
            invariant
                i <= stale.len(),
                stale@ == all,
                forall|k: u16| #[trigger]
                    self.buffers@.contains_key(k) <==> table.contains_key(k) && !all.take(
                        i as int,
                    ).contains(k),
                forall|k: u16| #[trigger]
                    self.buffers@.contains_key(k) ==> self.buffers@[k] == table[k],
            decreases stale.len() - i,
        {
            self.buffers.remove(&stale[i]);
            assert(all.take(i + 1) =~= all.take(i as int).push(all[i as int]));
            assert forall|k: u16| all.take(i + 1).contains(k) <==> all.take(i as int).contains(k)
                || k == all[i as int] by {
                vstd::seq_lib::lemma_seq_contains_after_push(
                    all.take(i as int),
                    all[i as int],
                    k,
                );
            }
            i = i + 1;
        }
        assert(all.take(i as int) =~= all);
        assert(self@ =~= fresh_buffers(old(self)@, now));
        proof {
            assert(self@.dom().subset_of(old(self)@.dom()));
            vstd::set_lib::lemma_len_subset(self@.dom(), old(self)@.dom());
        }
    }
}

/// A table and what it stands for have the same keys.
proof fn lemma_views_dom(m: Map<u16, ReassemblyBuffer>)
    ensures
        buffer_views(m).dom() == m.dom(),
{
    assert(buffer_views(m).dom() =~= m.dom());
}

/// Whether `steps` are what taking in `packets`, one after the other at the
/// given times, may make of `table`.
pub open spec fn fed(
    table: Map<u16, BufferView>,
    times: Seq<u64>,
    packets: Seq<PacketView>,
    steps: Seq<(Map<u16, BufferView>, Option<Seq<u8>>)>,
) -> bool {
    &&& times.len() == packets.len()
    &&& steps.len() == packets.len()
    &&& forall|i: int|
        0 <= i < packets.len() ==> fragment_step(
            if i == 0 {
                table
            } else {
                steps[i - 1].0
            },
            times[i],
            packets[i].pkt_id,
            packets[i].frag_total,
            packets[i].frag_id,
            packets[i].payload,
            #[trigger] steps[i],
        )
}

proof fn lemma_present_all(slots: Seq<Option<Seq<u8>>>, parts: Seq<Seq<u8>>)
    requires
        slots.len() == parts.len(),
        forall|i: int| 0 <= i < slots.len() ==> #[trigger] slots[i] == Some(parts[i]),
    ensures
        present(slots) == wire::joined(parts),
    decreases slots.len(),
{
    if slots.len() > 0 {
        assert(slots[0] == Some(parts[0]));
        assert forall|i: int| 0 <= i < slots.skip(1).len() implies #[trigger] slots.skip(1)[i]
            == Some(parts.skip(1)[i]) by {
            assert(slots.skip(1)[i] == slots[i + 1]);
        }
        lemma_present_all(slots.skip(1), parts.skip(1));
    }
}

/// Whether `packets` are all the fragments of one packet, in their places.
pub open spec fn fragments_of(packets: Seq<PacketView>, pkt_id: u16) -> bool {
    &&& 1 <= packets.len() <= 255
    &&& forall|i: int|
        0 <= i < packets.len() ==> (#[trigger] packets[i]).pkt_id == pkt_id
            && packets[i].frag_total == packets.len() && packets[i].frag_id == i
}

/// The payloads of fragments, put together in their places.
pub open spec fn whole_payload(packets: Seq<PacketView>) -> Seq<u8> {
    wire::joined(packets.map_values(|p: PacketView| p.payload))
}

/// Whether, of a run of events of which each may be the arrival of one of `n`
/// fragments, every fragment arrives once, and the last event is one of them.
pub open spec fn each_once(owner: Seq<Option<int>>, n: nat) -> bool {
    &&& owner.len() > 0
    &&& owner.last() is Some
    &&& forall|t: int|
        0 <= t < owner.len() ==> (#[trigger] owner[t] matches Some(i) ==> 0 <= i < n)
    &&& forall|t: int, u: int|
        0 <= t < u < owner.len() && #[trigger] owner[t] is Some ==> owner[t] != #[trigger] owner[u]
    &&& forall|i: int| 0 <= i < n ==> #[trigger] owner.contains(Some(i))
}

/// The buffer under an id, if there is one.
pub open spec fn pending(table: Map<u16, BufferView>, pkt_id: u16) -> Option<BufferView> {
    if table.contains_key(pkt_id) {
        Some(table[pkt_id])
    } else {
        None
    }
}

/// What a fragment makes of the buffer of its packet, and the packet if it is
/// complete now.
pub open spec fn own_step(before: Option<BufferView>, now: u64, p: PacketView) -> (
    Option<BufferView>,
    Option<Seq<u8>>,
) {
    let buffer = match before {
        Some(b) => if b.slots.len() == p.frag_total {
            b
        } else {
            BufferView { slots: empty_slots(p.frag_total as nat), created: now }
        },
        None => BufferView { slots: empty_slots(p.frag_total as nat), created: now },
    };
    let slots = with_fragment(buffer.slots, p.frag_id, p.payload);
    if accepts(buffer.slots, p.frag_id) && complete(slots) {
        (None, Some(present(slots)))
    } else {
        (Some(BufferView { slots, created: buffer.created }), None)
    }
}

/// A fragment goes to the buffer of its packet alone, crowded table or not.
pub(crate) proof fn lemma_own_step(
    table: Map<u16, BufferView>,
    now: u64,
    p: PacketView,
    after: (Map<u16, BufferView>, Option<Seq<u8>>),
)
    requires
        fragment_step(table, now, p.pkt_id, p.frag_total, p.frag_id, p.payload, after),
    ensures
        (pending(after.0, p.pkt_id), after.1) == own_step(pending(table, p.pkt_id), now, p),
{
    let kept = matching_only(table, p.pkt_id, p.frag_total);
    if crowded(kept, p.pkt_id) {
        let k = choose|k: u16| #[trigger]
            oldest(kept, k) && after == settled(
                kept.remove(k),
                now,
                p.pkt_id,
                p.frag_total,
                p.frag_id,
                p.payload,
            );
        assert(k != p.pkt_id);
    }
}

/// A fragment of another packet leaves a buffer alone, unless the buffer has
/// to give way.
pub(crate) proof fn lemma_other_step(
    table: Map<u16, BufferView>,
    now: u64,
    p: PacketView,
    after: (Map<u16, BufferView>, Option<Seq<u8>>),
    pkt_id: u16,
)
    requires
        fragment_step(table, now, p.pkt_id, p.frag_total, p.frag_id, p.payload, after),
        p.pkt_id != pkt_id,
        table.contains_key(pkt_id) ==> after.0.contains_key(pkt_id),
    ensures
        pending(after.0, pkt_id) == pending(table, pkt_id),
{
}

/// The slots of a packet after the first `j` events.
spec fn arrived(packets: Seq<PacketView>, owner: Seq<Option<int>>, j: int) -> Seq<
    Option<Seq<u8>>,
> {
    Seq::new(
        packets.len(),
        |i: int|
            if owner.take(j).contains(Some(i)) {
                Some(packets[i].payload)
            } else {
                None
            },
    )
}

spec fn slots_of(buffer: Option<BufferView>, n: nat) -> Seq<Option<Seq<u8>>> {
    match buffer {
        Some(b) => b.slots,
        None => empty_slots(n),
    }
}

/// Whether `buffers` and `outs` follow the buffer of a packet through a run of
/// events: `buffers[t]` is what stands before event `t`.
pub(crate) open spec fn follows(
    packets: Seq<PacketView>,
    owner: Seq<Option<int>>,
    times: Seq<u64>,
    buffers: Seq<Option<BufferView>>,
    outs: Seq<Option<Seq<u8>>>,
) -> bool {
    &&& buffers.len() == owner.len() + 1
    &&& outs.len() == owner.len()
    &&& buffers[0] is None
    &&& forall|t: int|
        0 <= t < owner.len() ==> match #[trigger] owner[t] {
            None => buffers[t + 1] == buffers[t],
            Some(i) => (buffers[t + 1], outs[t]) == own_step(buffers[t], times[t], packets[i]),
        }
}

proof fn lemma_arrived_step(packets: Seq<PacketView>, owner: Seq<Option<int>>, j: int)
    requires
        0 <= j < owner.len(),
        owner[j] matches Some(i) ==> 0 <= i < packets.len(),
    ensures
        arrived(packets, owner, j + 1) == (match owner[j] {
            None => arrived(packets, owner, j),
            Some(i) => arrived(packets, owner, j).update(i, Some(packets[i].payload)),
        }),
{
    let before = owner.take(j);
    let after = owner.take(j + 1);
    assert(after =~= before.push(owner[j]));
    assert forall|x: Option<int>| #[trigger] after.contains(x) <==> before.contains(x) || x
        == owner[j] by {
        if before.contains(x) {
            let k = choose|k: int| 0 <= k < before.len() && before[k] == x;
            assert(after[k] == x);
        }
        if x == owner[j] {
            assert(after[j] == x);
        }
        if after.contains(x) {
            let k = choose|k: int| 0 <= k < after.len() && after[k] == x;
            if k < j {
                assert(before[k] == x);
            }
        }
    }
    match owner[j] {
        None => {
            assert(arrived(packets, owner, j + 1) =~= arrived(packets, owner, j));
        },
        Some(i) => {
            assert(arrived(packets, owner, j + 1) =~= arrived(packets, owner, j).update(
                i,
                Some(packets[i].payload),
            ));
        },
    }
}

/// What one event makes of the buffer, as long as a fragment is missing.
proof fn lemma_follow_step(
    packets: Seq<PacketView>,
    pkt_id: u16,
    owner: Seq<Option<int>>,
    times: Seq<u64>,
    buffers: Seq<Option<BufferView>>,
    outs: Seq<Option<Seq<u8>>>,
    j: int,
)
    requires
        fragments_of(packets, pkt_id),
        each_once(owner, packets.len()),
        follows(packets, owner, times, buffers, outs),
        0 <= j < owner.len(),
        slots_of(buffers[j], packets.len()) == arrived(packets, owner, j),
    ensures
        j < owner.len() - 1 ==> slots_of(buffers[j + 1], packets.len()) == arrived(
            packets,
            owner,
            j + 1,
        ) && (owner[j] is Some ==> outs[j] is None),
        j == owner.len() - 1 ==> buffers[j + 1] is None && outs[j] == Some(
            whole_payload(packets),
        ),
{
    let n = packets.len();
    let last = owner.len() - 1;
    let slots = arrived(packets, owner, j);
    let next = arrived(packets, owner, j + 1);
    lemma_arrived_step(packets, owner, j);
    if let Some(i) = owner[j] {
        let p = packets[i];
        assert(slots.len() == n);
        assert(!owner.take(j).contains(Some(i))) by {
            let seen = owner.take(j);
            if seen.contains(Some(i)) {
                let k = choose|k: int| 0 <= k < seen.len() && seen[k] == Some(i);
                assert(owner[k] == owner[j]);
            }
        }
        assert(accepts(slots, p.frag_id));
        assert(with_fragment(slots, p.frag_id, p.payload) == next);
        if j < last {
            let m = owner[last]->0;
            assert(next[m] is None) by {
                let seen = owner.take(j + 1);
                if seen.contains(Some(m)) {
                    let k = choose|k: int| 0 <= k < seen.len() && seen[k] == Some(m);
                    assert(owner[k] == owner[last]);
                }
            }
        } else {
            assert(owner.take(j + 1) =~= owner);
            let parts = packets.map_values(|p: PacketView| p.payload);
            assert forall|k: int| 0 <= k < next.len() implies #[trigger] next[k] == Some(
                parts[k],
            ) by {
                assert(owner.contains(Some(k)));
            }
            lemma_present_all(next, parts);
        }
    }
}

proof fn lemma_follow(
    packets: Seq<PacketView>,
    pkt_id: u16,
    owner: Seq<Option<int>>,
    times: Seq<u64>,
    buffers: Seq<Option<BufferView>>,
    outs: Seq<Option<Seq<u8>>>,
    j: int,
)
    requires
        fragments_of(packets, pkt_id),
        each_once(owner, packets.len()),
        follows(packets, owner, times, buffers, outs),
        0 <= j < owner.len(),
    ensures
        slots_of(buffers[j], packets.len()) == arrived(packets, owner, j),
    decreases j,
{
    if j == 0 {
        assert(owner.take(0) =~= Seq::<Option<int>>::empty());
        assert(arrived(packets, owner, 0) =~= empty_slots(packets.len()));
    } else {
        lemma_follow(packets, pkt_id, owner, times, buffers, outs, j - 1);
        lemma_follow_step(packets, pkt_id, owner, times, buffers, outs, j - 1);
    }
}

/// Whatever the order of its fragments and whatever comes in between, a packet
/// is complete with the last of them, and not before.
pub(crate) proof fn lemma_collect(
    packets: Seq<PacketView>,
    pkt_id: u16,
    owner: Seq<Option<int>>,
    times: Seq<u64>,
    buffers: Seq<Option<BufferView>>,
    outs: Seq<Option<Seq<u8>>>,
)
    requires
        fragments_of(packets, pkt_id),
        each_once(owner, packets.len()),
        follows(packets, owner, times, buffers, outs),
    ensures
        buffers.last() is None,
        outs.last() == Some(whole_payload(packets)),
        forall|t: int|
            0 <= t < owner.len() - 1 && #[trigger] owner[t] is Some ==> outs[t] is None,
{
    let last = owner.len() - 1;
    lemma_follow(packets, pkt_id, owner, times, buffers, outs, last);
    lemma_follow_step(packets, pkt_id, owner, times, buffers, outs, last);
    assert forall|t: int| 0 <= t < owner.len() - 1 && #[trigger] owner[t] is Some implies outs[t]
        is None by {
        lemma_follow(packets, pkt_id, owner, times, buffers, outs, t);
        lemma_follow_step(packets, pkt_id, owner, times, buffers, outs, t);
    }
}

/// A fragmented packet arrives whole: whatever the order in which its
/// fragments come in, and whatever fragments of other packets come in between,
/// the last of them yields the payloads of all, put together in their places,
/// those before it yield nothing, and no buffer is left. (`owner` tells which
/// of the fragments each arrival is, if it is one of them. The packet's id must
/// be free, and its buffer must not have to give way meanwhile.)
pub proof fn law_fragments_reassemble(
    table: Map<u16, BufferView>,
    times: Seq<u64>,
    arriving: Seq<PacketView>,
    steps: Seq<(Map<u16, BufferView>, Option<Seq<u8>>)>,
    packets: Seq<PacketView>,
    pkt_id: u16,
    owner: Seq<Option<int>>,
)
    requires
        !table.contains_key(pkt_id),
        fragments_of(packets, pkt_id),
        each_once(owner, packets.len()),
        owner.len() == arriving.len(),
        fed(table, times, arriving, steps),
        forall|t: int|
            0 <= t < owner.len() ==> match #[trigger] owner[t] {
                Some(i) => arriving[t] == packets[i],
                None => arriving[t].pkt_id != pkt_id,
            },
        forall|t: int|
            0 < t < owner.len() && #[trigger] owner[t] is None && steps[t - 1].0.contains_key(
                pkt_id,
            ) ==> steps[t].0.contains_key(pkt_id),
    ensures
        steps.len() > 0,
        steps.last().1 == Some(whole_payload(packets)),
        !steps.last().0.contains_key(pkt_id),
        forall|t: int|
            0 <= t < owner.len() - 1 && #[trigger] owner[t] is Some ==> steps[t].1 is None,
{
    let m = owner.len() as int;
    let buffers = Seq::new(
        (m + 1) as nat,
        |t: int|
            pending(
                if t == 0 {
                    table
                } else {
                    steps[t - 1].0
                },
                pkt_id,
            ),
    );
    let outs = Seq::new(m as nat, |t: int| steps[t].1);
    assert forall|t: int| 0 <= t < owner.len() implies match #[trigger] owner[t] {
        None => buffers[t + 1] == buffers[t],
        Some(i) => (buffers[t + 1], outs[t]) == own_step(buffers[t], times[t], packets[i]),
    } by {
        let prev = if t == 0 {
            table
        } else {
            steps[t - 1].0
        };
        assert(fragment_step(
            prev,
            times[t],
            arriving[t].pkt_id,
            arriving[t].frag_total,
            arriving[t].frag_id,
            arriving[t].payload,
            steps[t],
        ));
        match owner[t] {
            None => {
                lemma_other_step(prev, times[t], arriving[t], steps[t], pkt_id);
            },
            Some(i) => {
                lemma_own_step(prev, times[t], arriving[t], steps[t]);
            },
        }
    }
    lemma_collect(packets, pkt_id, owner, times, buffers, outs);
}

/// Where there is one fragment, only the last event is its arrival.
pub(crate) proof fn lemma_only_event(owner: Seq<Option<int>>)
    requires
        each_once(owner, 1),
    ensures
        owner.last() == Some(0int),
        forall|t: int| 0 <= t < owner.len() - 1 ==> #[trigger] owner[t] is None,
{
    let last = owner.len() - 1;
    assert(owner[last] == Some(0int));
    assert forall|t: int| 0 <= t < owner.len() - 1 implies #[trigger] owner[t] is None by {
        if owner[t] is Some {
            assert(owner[t] != owner[last]);
        }
    }
}

/// A packet that is not cut up is its only fragment.
pub(crate) proof fn lemma_only_fragment(packets: Seq<PacketView>)
    requires
        packets.len() == 1,
    ensures
        whole_payload(packets) == packets[0].payload,
{
    let parts = packets.map_values(|p: PacketView| p.payload);
    assert(parts[0] == packets[0].payload);
    assert(parts.skip(1) =~= Seq::<Seq<u8>>::empty());
    assert(wire::joined(parts.skip(1)) =~= Seq::<u8>::empty());
    assert(wire::joined(parts) =~= parts[0]);
}

/// Fragments of one packet change nothing but its own buffer, as long as there
/// is room for it. So once it is complete, the table is as it was.
pub proof fn law_only_own_buffer_changes(
    table: Map<u16, BufferView>,
    times: Seq<u64>,
    arriving: Seq<PacketView>,
    steps: Seq<(Map<u16, BufferView>, Option<Seq<u8>>)>,
    pkt_id: u16,
    j: int,
)
    requires
        table.dom().finite(),
        table.dom().len() < MAX_REASSEMBLY_BUFFERS,
        !table.contains_key(pkt_id),
        fed(table, times, arriving, steps),
        forall|t: int| 0 <= t < arriving.len() ==> (#[trigger] arriving[t]).pkt_id == pkt_id,
        0 <= j < steps.len(),
    ensures
        steps[j].0.remove(pkt_id) == table,
        steps[j].1 is Some ==> steps[j].0 == table,
    decreases j,
{
    let prev = if j == 0 {
        table
    } else {
        steps[j - 1].0
    };
    if j > 0 {
        law_only_own_buffer_changes(table, times, arriving, steps, pkt_id, j - 1);
    } else {
        assert(table.remove(pkt_id) =~= table);
    }
    let p = arriving[j];
    assert(p.pkt_id == pkt_id);
    let kept = matching_only(prev, pkt_id, p.frag_total);
    assert(kept.remove(pkt_id) =~= table);
    if !kept.contains_key(pkt_id) {
        assert(kept =~= table);
    }
    assert(!crowded(kept, pkt_id));
    assert(steps[j] == settled(kept, times[j], pkt_id, p.frag_total, p.frag_id, p.payload));
    assert(steps[j].0.remove(pkt_id) =~= table);
}

/// The fragments that a payload is cut into are those of one packet, and the
/// payload is what they make.
pub proof fn law_payload_reassembles(assoc_id: u16, pkt_id: u16, payload: Seq<u8>, max: nat)
    requires
        max > 0,
        payload.len() <= 255 * max,
    ensures
        fragments_of(packet::packets_for(assoc_id, pkt_id, payload, max), pkt_id),
        whole_payload(packet::packets_for(assoc_id, pkt_id, payload, max)) == payload,
{
    packet::law_fragments_cover_payload(assoc_id, pkt_id, payload, max);
}

/// A fragment that comes again is dropped, whatever it holds.
pub proof fn law_first_fragment_wins(
    slots: Seq<Option<Seq<u8>>>,
    frag_id: u8,
    first: Seq<u8>,
    second: Seq<u8>,
)
    ensures
        with_fragment(with_fragment(slots, frag_id, first), frag_id, second) == with_fragment(
            slots,
            frag_id,
            first,
        ),
{
}

/// A fragment leaves the other packets alone, except that in a crowded table
/// one of the oldest gives way.
pub proof fn law_other_packets_untouched(
    table: Map<u16, BufferView>,
    now: u64,
    p: PacketView,
    after: (Map<u16, BufferView>, Option<Seq<u8>>),
    other: u16,
)
    requires
        fragment_step(table, now, p.pkt_id, p.frag_total, p.frag_id, p.payload, after),
        other != p.pkt_id,
        table.contains_key(other),
    ensures
        (after.0.contains_key(other) && after.0[other] == table[other]) || (crowded(
            matching_only(table, p.pkt_id, p.frag_total),
            p.pkt_id,
        ) && oldest(matching_only(table, p.pkt_id, p.frag_total), other)),
{
}

/// Packets that have been incomplete for more than 10 seconds are dropped, and
/// all others stay as they are.
pub proof fn law_sweep_goes_by_age(table: Map<u16, BufferView>, now: u64, pkt_id: u16)
    ensures
        fresh_buffers(table, now).contains_key(pkt_id) <==> table.contains_key(pkt_id) && now
            <= table[pkt_id].created + 10_000_000_000,
        fresh_buffers(table, now).contains_key(pkt_id) ==> fresh_buffers(table, now)[pkt_id]
            == table[pkt_id],
{
}

/// A fragment is kept in its place. The first of a packet opens a buffer that
/// is as old as that fragment; so does one that announces another number of
/// fragments than those before it, which are then forgotten. All other places,
/// and the age of a buffer that was there, stay as they were. A place that is
/// taken keeps what it has. The packet leaves the table when, and only when,
/// its last free place is taken.
pub proof fn law_fragment_takes_its_place(
    table: Map<u16, BufferView>,
    now: u64,
    p: PacketView,
    after: (Map<u16, BufferView>, Option<Seq<u8>>),
)
    requires
        fragment_step(table, now, p.pkt_id, p.frag_total, p.frag_id, p.payload, after),
        p.frag_id < p.frag_total,
    ensures
        ({
            let known = table.contains_key(p.pkt_id) && table[p.pkt_id].slots.len()
                == p.frag_total;
            let old_slots = table[p.pkt_id].slots;
            let taken = known && old_slots[p.frag_id as int] is Some;
            let last = !taken && (forall|i: int|
                0 <= i < p.frag_total && i != p.frag_id ==> known && #[trigger] old_slots[i]
                    is Some);
            &&& after.1 is Some <==> last
            &&& after.0.contains_key(p.pkt_id) <==> !last
            &&& after.0.contains_key(p.pkt_id) ==> {
                let b = after.0[p.pkt_id];
                &&& b.slots.len() == p.frag_total
                &&& b.created == (if known {
                    table[p.pkt_id].created
                } else {
                    now
                })
                &&& b.slots[p.frag_id as int] == (if taken {
                    old_slots[p.frag_id as int]
                } else {
                    Some(p.payload)
                })
                &&& forall|i: int|
                    0 <= i < p.frag_total && i != p.frag_id ==> #[trigger] b.slots[i] == (
                    if known {
                        old_slots[i]
                    } else {
                        None
                    })
            }
        }),
{
    lemma_own_step(table, now, p, after);
    let known = table.contains_key(p.pkt_id) && table[p.pkt_id].slots.len() == p.frag_total;
    let old_slots = table[p.pkt_id].slots;
    let start = if known {
        old_slots
    } else {
        empty_slots(p.frag_total as nat)
    };
    let slots = with_fragment(start, p.frag_id, p.payload);
    let last = !(known && old_slots[p.frag_id as int] is Some) && (forall|i: int|
        0 <= i < p.frag_total && i != p.frag_id ==> known && #[trigger] old_slots[i] is Some);
    if last {
        assert forall|i: int| 0 <= i < slots.len() implies #[trigger] slots[i] is Some by {
            if i != p.frag_id {
                assert(known && old_slots[i] is Some);
            }
        }
    } else if accepts(start, p.frag_id) && complete(slots) {
        assert forall|i: int| 0 <= i < p.frag_total && i != p.frag_id implies known
            && #[trigger] old_slots[i] is Some by {
            assert(slots[i] is Some);
        }
    }
}

/// A packet gives way only where 64 others are incomplete already, and then
/// none of them is older; and only one does.
pub proof fn law_only_oldest_gives_way(
    table: Map<u16, BufferView>,
    now: u64,
    p: PacketView,
    after: (Map<u16, BufferView>, Option<Seq<u8>>),
    lost: u16,
    other: u16,
)
    requires
        fragment_step(table, now, p.pkt_id, p.frag_total, p.frag_id, p.payload, after),
        table.dom().finite(),
        table.dom().len() <= 64,
        lost != p.pkt_id,
        other != p.pkt_id,
        table.contains_key(lost),
        table.contains_key(other),
        !after.0.contains_key(lost),
    ensures
        table.dom().len() == 64,
        !table.contains_key(p.pkt_id),
        table[lost].created <= table[other].created,
        other != lost ==> after.0.contains_key(other) && after.0[other] == table[other],
{
    let kept = matching_only(table, p.pkt_id, p.frag_total);
    assert(crowded(kept, p.pkt_id));
    if table.contains_key(p.pkt_id) {
        assert(table.remove(p.pkt_id).dom() =~= table.dom().remove(p.pkt_id));
    }
    let k = choose|k: u16| #[trigger]
        oldest(kept, k) && after == settled(
            kept.remove(k),
            now,
            p.pkt_id,
            p.frag_total,
            p.frag_id,
            p.payload,
        );
    assert(k == lost);
    assert(kept.contains_key(other));
}

/// There are never more than 64 incomplete packets.
pub proof fn law_buffer_limit(
    table: Map<u16, BufferView>,
    now: u64,
    p: PacketView,
    after: (Map<u16, BufferView>, Option<Seq<u8>>),
)
    requires
        fragment_step(table, now, p.pkt_id, p.frag_total, p.frag_id, p.payload, after),
        table.dom().finite(),
        table.dom().len() <= 64,
    ensures
        after.0.dom().finite(),
        after.0.dom().len() <= 64,
{
    let kept = matching_only(table, p.pkt_id, p.frag_total);
    assert(table.remove(p.pkt_id).dom() =~= table.dom().remove(p.pkt_id));
    let base = if crowded(kept, p.pkt_id) {
        let k = choose|k: u16| #[trigger]
            oldest(kept, k) && after == settled(
                kept.remove(k),
                now,
                p.pkt_id,
                p.frag_total,
                p.frag_id,
                p.payload,
            );
        assert(kept.remove(k).dom() =~= kept.dom().remove(k));
        kept.remove(k)
    } else {
        kept
    };
    let buffer = buffer_for(base, now, p.pkt_id, p.frag_total);
    let slots = with_fragment(buffer.slots, p.frag_id, p.payload);
    let grown = BufferView { slots, created: buffer.created };
    assert(base.remove(p.pkt_id).dom() =~= base.dom().remove(p.pkt_id));
    assert(base.insert(p.pkt_id, grown).dom() =~= base.dom().insert(p.pkt_id));
}

/// What a place contributes to a packet.
pub open spec fn in_place(f: Option<Seq<u8>>) -> Seq<u8> {
    match f {
        Some(b) => b,
        None => Seq::empty(),
    }
}

/// Fragments are put together in the order of their places; a place without one
/// contributes nothing.
pub proof fn law_places_make_packet(slots: Seq<Option<Seq<u8>>>)
    ensures
        present(slots) == wire::joined(slots.map_values(|f: Option<Seq<u8>>| in_place(f))),
    decreases slots.len(),
{
    let parts = slots.map_values(|f: Option<Seq<u8>>| in_place(f));
    if slots.len() > 0 {
        law_places_make_packet(slots.skip(1));
        assert(parts.skip(1) =~= slots.skip(1).map_values(|f: Option<Seq<u8>>| in_place(f)));
    }
}

/// A fragment goes to its place if that is there and free; else it is dropped.
/// It never touches another place.
pub proof fn law_places_are_filled_once(
    slots: Seq<Option<Seq<u8>>>,
    frag_id: u8,
    payload: Seq<u8>,
    i: int,
)
    ensures
        frag_id >= slots.len() ==> with_fragment(slots, frag_id, payload) == slots,
        frag_id < slots.len() && slots[frag_id as int] is Some ==> with_fragment(
            slots,
            frag_id,
            payload,
        ) == slots,
        frag_id < slots.len() && slots[frag_id as int] is None ==> with_fragment(
            slots,
            frag_id,
            payload,
        )[frag_id as int] == Some(payload),
        with_fragment(slots, frag_id, payload).len() == slots.len(),
        0 <= i < slots.len() && i != frag_id ==> with_fragment(slots, frag_id, payload)[i]
            == slots[i],
        accepts(slots, frag_id) <==> frag_id < slots.len() && slots[frag_id as int] is None,
{
}

/// A packet that becomes complete is what its places hold, in their order, with
/// the last fragment in its own.
pub proof fn law_complete_packet(
    table: Map<u16, BufferView>,
    now: u64,
    p: PacketView,
    after: (Map<u16, BufferView>, Option<Seq<u8>>),
)
    requires
        fragment_step(table, now, p.pkt_id, p.frag_total, p.frag_id, p.payload, after),
        p.frag_id < p.frag_total,
        after.1 is Some,
    ensures
        after.1 == Some(
            wire::joined(
                Seq::new(
                    p.frag_total as nat,
                    |i: int|
                        if i == p.frag_id {
                            p.payload
                        } else {
                            table[p.pkt_id].slots[i]->0
                        },
                ),
            ),
        ),
{
    law_fragment_takes_its_place(table, now, p, after);
    lemma_own_step(table, now, p, after);
    let known = table.contains_key(p.pkt_id) && table[p.pkt_id].slots.len() == p.frag_total;
    let old_slots = table[p.pkt_id].slots;
    let start = if known {
        old_slots
    } else {
        empty_slots(p.frag_total as nat)
    };
    let slots = with_fragment(start, p.frag_id, p.payload);
    law_places_make_packet(slots);
    assert forall|i: int| 0 <= i < p.frag_total && i != p.frag_id implies known
        && #[trigger] old_slots[i] is Some by {}
    assert(slots.map_values(|f: Option<Seq<u8>>| in_place(f)) =~= Seq::new(
        p.frag_total as nat,
        |i: int|
            if i == p.frag_id {
                p.payload
            } else {
                table[p.pkt_id].slots[i]->0
            },
    ));
}

} // verus!
