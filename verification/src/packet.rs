//! Assembling one client's payload.
//!
//! **Not a game-developer surface.** A game receives [`TickObservation`]
//! through [`ClientGame::observed`](crate::game::ClientGame::observed) and
//! never assembles or decodes payloads.
//!
//! A payload consists of a header, then despawns, then state records, each
//! with the tag the game gave its entity.
//!
//! Despawns come first because they are few and cheap, and because a client
//! that drops before it adds never holds more ghosts than the server thinks it
//! does.

use vstd::prelude::*;
use vstd::slice::slice_subrange;

use crate::codec::RecordCodec;
use crate::config::World;
use crate::entity::EntityId;
use crate::le;
use crate::le::{push_u16, push_u32, read_u16, read_u32};
use crate::pos::Pos3;

verus! {

/// Bytes a despawn occupies: just [`EntityId`]. A client already
/// holds the position it is being told to forget.
pub const DESPAWN_BYTES: usize = 4;

/// Bytes a tag occupies behind its record.
pub const TAG_BYTES: usize = 2;

/// Fixed-size preamble.
///
/// Sixteen bytes. The sequence number is used but acknowledgments are not
/// yet implemented.
#[derive(Clone, Copy, Debug, PartialEq, Eq, Structural)]
pub struct PacketHeader {
    /// Which tick's snapshot this was built from.
    pub tick: u32,
    /// Counts up once per packet sent to this client, and wraps.
    pub sequence: u16,
    /// Highest sequence received from this client. Zero until acks exist.
    pub ack: u16,
    /// The thirty-two sequences before `ack`, one bit each. Zero until acks
    /// exist.
    pub ack_bits: u32,
    /// Despawn records in this packet.
    pub despawns: u16,
    /// Entity records in this packet.
    pub updates: u16,
}

impl Default for PacketHeader {
    fn default() -> (h: PacketHeader)
        ensures
            h == (PacketHeader {
                tick: 0,
                sequence: 0,
                ack: 0,
                ack_bits: 0,
                despawns: 0,
                updates: 0,
            }),
    {
        PacketHeader { tick: 0, sequence: 0, ack: 0, ack_bits: 0, despawns: 0, updates: 0 }
    }
}

impl PacketHeader {
    /// The header's width on the wire.
    pub const BYTES: usize = 16;

    /// The header on the wire.
    pub open spec fn wire(self) -> Seq<u8> {
        le::le_bytes(self.tick as nat, 4) + le::le_bytes(self.sequence as nat, 2) + le::le_bytes(
            self.ack as nat,
            2,
        ) + le::le_bytes(self.ack_bits as nat, 4) + le::le_bytes(self.despawns as nat, 2)
            + le::le_bytes(self.updates as nat, 2)
    }

    /// The header at the front of a buffer.
    pub open spec fn of(buf: Seq<u8>) -> PacketHeader {
        PacketHeader {
            tick: le::from_le(buf.subrange(0, 4)) as u32,
            sequence: le::from_le(buf.subrange(4, 6)) as u16,
            ack: le::from_le(buf.subrange(6, 8)) as u16,
            ack_bits: le::from_le(buf.subrange(8, 12)) as u32,
            despawns: le::from_le(buf.subrange(12, 14)) as u16,
            updates: le::from_le(buf.subrange(14, 16)) as u16,
        }
    }

    /// Appends the header. Little-endian, like everything else on this wire.
    pub fn encode(&self, out: &mut Vec<u8>)
        ensures
            final(out)@ == old(out)@ + self.wire(),
    {
        push_u32(out, self.tick);
        push_u16(out, self.sequence);
        push_u16(out, self.ack);
        push_u32(out, self.ack_bits);
        push_u16(out, self.despawns);
        push_u16(out, self.updates);
        assert(out@ =~= old(out)@ + self.wire());
    }

    /// `None` if `buf` is shorter than a header.
    pub fn decode(buf: &[u8]) -> (h: Option<PacketHeader>)
        ensures
            h == if buf@.len() < 16 {
                None
            } else {
                Some(PacketHeader::of(buf@))
            },
    {
        if buf.len() < PacketHeader::BYTES {
            return None;
        }
        Some(
            PacketHeader {
                tick: read_u32(buf, 0),
                sequence: read_u16(buf, 4),
                ack: read_u16(buf, 6),
                ack_bits: read_u32(buf, 8),
                despawns: read_u16(buf, 12),
                updates: read_u16(buf, 14),
            },
        )
    }
}

/// Reading a header gives back what was written, whatever comes after it.
pub proof fn law_a_header_round_trips(h: PacketHeader, rest: Seq<u8>)
    ensures
        h.wire().len() == 16,
        PacketHeader::of(h.wire() + rest) == h,
{
    let a = le::le_bytes(h.tick as nat, 4);
    let b = le::le_bytes(h.sequence as nat, 2);
    let c = le::le_bytes(h.ack as nat, 2);
    let d = le::le_bytes(h.ack_bits as nat, 4);
    let e = le::le_bytes(h.despawns as nat, 2);
    let f = le::le_bytes(h.updates as nat, 2);
    le::lemma_span();
    le::lemma_le_len(h.tick as nat, 4);
    le::lemma_le_len(h.sequence as nat, 2);
    le::lemma_le_len(h.ack as nat, 2);
    le::lemma_le_len(h.ack_bits as nat, 4);
    le::lemma_le_len(h.despawns as nat, 2);
    le::lemma_le_len(h.updates as nat, 2);
    le::lemma_from_le_of_le(h.tick as nat, 4);
    le::lemma_from_le_of_le(h.sequence as nat, 2);
    le::lemma_from_le_of_le(h.ack as nat, 2);
    le::lemma_from_le_of_le(h.ack_bits as nat, 4);
    le::lemma_from_le_of_le(h.despawns as nat, 2);
    le::lemma_from_le_of_le(h.updates as nat, 2);
    let all = h.wire() + rest;
    assert(all.subrange(0, 4) =~= a);
    assert(all.subrange(4, 6) =~= b);
    assert(all.subrange(6, 8) =~= c);
    assert(all.subrange(8, 12) =~= d);
    assert(all.subrange(12, 14) =~= e);
    assert(all.subrange(14, 16) =~= f);
}

/// A run of despawns on the wire.
pub open spec fn despawns_bytes(ids: Seq<EntityId>) -> Seq<u8>
    decreases ids.len(),
{
    if ids.len() == 0 {
        Seq::empty()
    } else {
        despawns_bytes(ids.drop_last()) + le::le_bytes(ids.last().0 as nat, 4)
    }
}

/// One update on the wire: a record and a tag.
pub open spec fn update_bytes(w: World, u: (EntityId, Pos3, u16)) -> Seq<u8> {
    w.record(u.0, u.1) + le::le_bytes(u.2 as nat, 2)
}

/// A run of updates on the wire.
pub open spec fn updates_bytes(w: World, updates: Seq<(EntityId, Pos3, u16)>) -> Seq<u8>
    decreases updates.len(),
{
    if updates.len() == 0 {
        Seq::empty()
    } else {
        updates_bytes(w, updates.drop_last()) + update_bytes(w, updates.last())
    }
}

/// Bytes one update takes.
pub open spec fn stride(w: World) -> int {
    4int + w.position_bytes() + 2
}

/// A whole payload.
pub open spec fn payload_bytes(
    w: World,
    tick: u32,
    sequence: u16,
    despawns: Seq<EntityId>,
    updates: Seq<(EntityId, Pos3, u16)>,
) -> Seq<u8> {
    (PacketHeader {
        tick,
        sequence,
        ack: 0,
        ack_bits: 0,
        despawns: despawns.len() as u16,
        updates: updates.len() as u16,
    }).wire() + despawns_bytes(despawns) + updates_bytes(w, updates)
}

/// Builds payloads into a buffer it keeps.
///
/// Held per worker thread and reused across viewers for a single
/// allocation.
#[derive(Debug, Clone)]
pub struct PacketWriter {
    codec: RecordCodec,
    buf: Vec<u8>,
}

impl View for PacketWriter {
    type V = Seq<u8>;

    closed spec fn view(&self) -> Seq<u8> {
        self.buf@
    }
}

impl PacketWriter {
    /// The world positions are in.
    pub closed spec fn world(&self) -> World {
        self.codec.world()
    }

    /// Whether the codec is sound.
    pub closed spec fn wf(&self) -> bool {
        self.codec.wf()
    }

    /// A writer for packets of this width, in this world's layout.
    pub fn new(codec: RecordCodec, payload_bytes: usize) -> (w: PacketWriter)
        requires
            codec.wf(),
        ensures
            w.wf(),
            w.world() == codec.world(),
            w@ == Seq::<u8>::empty(),
    {
        PacketWriter { codec, buf: Vec::with_capacity(payload_bytes) }
    }

    /// Assembles one payload and returns it.
    ///
    /// `despawns` and `updates` are written in full: a caller is responsible
    /// for having sized them, and each has to be countable in 16 bits.
    ///
    /// The returned slice borrows this writer's buffer, so the next call
    /// overwrites it.
    pub fn build(
        &mut self,
        tick: u32,
        sequence: u16,
        despawns: &[EntityId],
        updates: &[(EntityId, Pos3, u16)],
    ) -> (payload: &[u8])
        requires
            old(self).wf(),
            despawns@.len() <= u16::MAX,
            updates@.len() <= u16::MAX,
        ensures
            final(self).wf(),
            final(self).world() == old(self).world(),
            final(self)@ == payload_bytes(
                old(self).world(),
                tick,
                sequence,
                despawns@,
                updates@,
            ),
            payload@ == final(self)@,
    {
        let ghost w = self.world();
        self.buf.clear();
        let header = PacketHeader {
            tick,
            sequence,
            ack: 0,
            ack_bits: 0,
            despawns: despawns.len() as u16,
            updates: updates.len() as u16,
        };
        header.encode(&mut self.buf);
        let ghost head = self.buf@;
        assert(head =~= header.wire());
        let mut i: usize = 0;
        assert(despawns@.take(0) =~= Seq::empty());
        assert(self.buf@ =~= head + despawns_bytes(despawns@.take(0)));
        while i < despawns.len()
            invariant
                i <= despawns@.len(),
                self.wf(),
                self.world() == w,
                self.buf@ == head + despawns_bytes(despawns@.take(i as int)),
            decreases despawns@.len() - i,
        {
            let ghost before = self.buf@;
            push_u32(&mut self.buf, despawns[i].raw());
            proof {
                let more = despawns@.take(i + 1);
                assert(more.drop_last() =~= despawns@.take(i as int));
                assert(self.buf@ =~= head + despawns_bytes(more));
            }
            i = i + 1;
        }
        assert(despawns@.take(i as int) =~= despawns@);
        let ghost front = self.buf@;
        let mut k: usize = 0;
        assert(updates@.take(0) =~= Seq::empty());
        assert(self.buf@ =~= front + updates_bytes(w, updates@.take(0)));
        while k < updates.len()
            invariant
                k <= updates@.len(),
                self.wf(),
                self.world() == w,
                self.buf@ == front + updates_bytes(w, updates@.take(k as int)),
            decreases updates@.len() - k,
        {
            let (id, pos, tag) = updates[k];
            self.codec.encode(id, pos, &mut self.buf);
            push_u16(&mut self.buf, tag);
            proof {
                let more = updates@.take(k + 1);
                assert(more.drop_last() =~= updates@.take(k as int));
                assert(self.buf@ =~= front + updates_bytes(w, more));
            }
            k = k + 1;
        }
        assert(updates@.take(k as int) =~= updates@);
        self.buf.as_slice()
    }

    /// The payload most recently built, until the next call overwrites it.
    pub fn payload(&self) -> (payload: &[u8])
        ensures
            payload@ == self@,
    {
        self.buf.as_slice()
    }
}

/// How long a payload with this header is.
pub open spec fn claimed(w: World, h: PacketHeader) -> int {
    16 + h.despawns * 4 + h.updates * stride(w)
}

/// Whether a buffer holds a header and the body its counts claim.
pub open spec fn readable(w: World, buf: Seq<u8>) -> bool {
    &&& buf.len() >= 16
    &&& buf.len() >= claimed(w, PacketHeader::of(buf))
}

/// The despawn at a place in a payload.
pub open spec fn despawn_at(buf: Seq<u8>, k: int) -> EntityId {
    EntityId(le::from_le(buf.subrange(16 + k * 4, 20 + k * 4)) as u32)
}

/// The update at a place in a payload.
pub open spec fn update_at(w: World, buf: Seq<u8>, k: int) -> (EntityId, Pos3, u16) {
    let at = 16 + PacketHeader::of(buf).despawns * 4 + k * stride(w);
    let end = 4 + w.position_bytes() as int;
    (
        EntityId(le::from_le(buf.subrange(at, at + 4)) as u32),
        w.unpacked(le::from_le(buf.subrange(at + 4, at + end))),
        le::from_le(buf.subrange(at + end, at + end + 2)) as u16,
    )
}

/// What one entity saw on one tick: which to forget, and where the rest are.
///
/// A borrowed view over a payload that has already arrived. It does no I/O and
/// owns no buffer — reading it is walking bytes somebody else received.
///
/// Every one of these is a single tick's worth, and says which tick in
/// [`tick`](Self::tick).
///
/// This is what [`ClientGame::observed`](crate::game::ClientGame::observed)
/// receives.
pub struct TickObservation<'a> {
    codec: &'a RecordCodec,
    header: PacketHeader,
    buf: &'a [u8],
}

impl<'a> TickObservation<'a> {
    /// The payload read.
    pub closed spec fn bytes(&self) -> Seq<u8> {
        self.buf@
    }

    /// The world positions are in.
    pub closed spec fn world(&self) -> World {
        self.codec.world()
    }

    /// Whether the payload holds what its header claims.
    pub closed spec fn wf(&self) -> bool {
        &&& self.codec.wf()
        &&& readable(self.codec.world(), self.buf@)
        &&& self.header == PacketHeader::of(self.buf@)
    }

    /// `None` if `buf` is too short to hold the header and the body its counts
    /// claim.
    pub fn new(codec: &'a RecordCodec, buf: &'a [u8]) -> (r: Option<TickObservation<'a>>)
        requires
            codec.wf(),
        ensures
            match r {
                Some(o) => o.wf() && readable(codec.world(), buf@) && o.bytes() == buf@
                    && o.world() == codec.world(),
                None => !readable(codec.world(), buf@),
            },
    {
        let header = match PacketHeader::decode(buf) {
            Some(header) => header,
            None => return None,
        };
        let each: usize = codec.record_bytes() + TAG_BYTES;
        assert(header.updates * each <= 65535 * 18) by (nonlinear_arith)
            requires
                header.updates <= 65535,
                each <= 18,
        ;
        let want: usize = PacketHeader::BYTES + header.despawns as usize * DESPAWN_BYTES
            + header.updates as usize * each;
        if buf.len() < want {
            return None;
        }
        Some(TickObservation { codec, header, buf })
    }

    /// Which tick this observation was built from.
    ///
    /// A region stamps every payload with the tick whose snapshot produced it.
    /// Two observations from the same region compare by this.
    pub fn tick(&self) -> (tick: u32)
        requires
            self.wf(),
        ensures
            tick == PacketHeader::of(self.bytes()).tick,
    {
        self.header.tick
    }

    /// The whole preamble, which is umwelt's own bookkeeping: sequence numbers
    /// and the acknowledgment fields nothing populates yet.
    pub fn header(&self) -> (h: PacketHeader)
        requires
            self.wf(),
        ensures
            h == PacketHeader::of(self.bytes()),
    {
        self.header
    }

    /// Entities the client should drop.
    pub fn despawns(&self) -> (ids: Vec<EntityId>)
        requires
            self.wf(),
        ensures
            ids@.len() == PacketHeader::of(self.bytes()).despawns,
            forall|k: int|
                0 <= k < ids@.len() ==> #[trigger] ids@[k] == despawn_at(self.bytes(), k),
    {
        let mut ids: Vec<EntityId> = Vec::new();
        let n: usize = self.header.despawns as usize;
        let mut k: usize = 0;
        proof {
            let s = stride(self.world());
            assert(0 <= self.header.updates * s) by (nonlinear_arith)
                requires
                    s >= 0,
            ;
        }
        while k < n
            invariant
                k <= n,
                n == self.header.despawns,
                self.wf(),
                16 + n * 4 <= self.buf@.len(),
                ids@.len() == k,
                forall|j: int|
                    0 <= j < k ==> #[trigger] ids@[j] == despawn_at(self.bytes(), j),
            decreases n - k,
        {
            let raw: u32 = read_u32(self.buf, PacketHeader::BYTES + k * DESPAWN_BYTES);
            ids.push(EntityId::from_raw(raw));
            k = k + 1;
        }
        ids
    }

    /// Positions and tags the client should adopt. An entity it does not hold
    /// is one it is being told about for the first time.
    pub fn updates(&self) -> (out: Vec<(EntityId, Pos3, u16)>)
        requires
            self.wf(),
        ensures
            out@.len() == PacketHeader::of(self.bytes()).updates,
            forall|k: int|
                0 <= k < out@.len() ==> #[trigger] out@[k] == update_at(
                    self.world(),
                    self.bytes(),
                    k,
                ),
    {
        let mut out: Vec<(EntityId, Pos3, u16)> = Vec::new();
        let n: usize = self.header.updates as usize;
        let record: usize = self.codec.record_bytes();
        let each: usize = record + TAG_BYTES;
        let base: usize = PacketHeader::BYTES + self.header.despawns as usize * DESPAWN_BYTES;
        let len: usize = self.buf.len();
        let mut k: usize = 0;
        let mut at: usize = base;
        assert(0 * each == 0);
        while k < n
            invariant
                k <= n,
                n == self.header.updates,
                record == 4 + self.world().position_bytes(),
                4 <= record <= 16,
                each == record + 2,
                base == 16 + self.header.despawns * 4,
                self.wf(),
                base + n * each <= len,
                len == self.buf@.len(),
                at == base + k * each,
                out@.len() == k,
                forall|j: int|
                    0 <= j < k ==> #[trigger] out@[j] == update_at(
                        self.world(),
                        self.bytes(),
                        j,
                    ),
            decreases n - k,
        {
            assert((k + 1) * each <= n * each) by (nonlinear_arith)
                requires
                    k + 1 <= n,
            ;
            assert((k + 1) * each == k * each + each) by (nonlinear_arith);
            let here = slice_subrange(self.buf, at, at + record);
            let tag: u16 = read_u16(self.buf, at + record);
            if let Some((id, pos)) = self.codec.decode(here) {
                proof {
                    let w = self.world();
                    let b = self.bytes();
                    assert(here@.take(4) =~= b.subrange(at as int, at + 4));
                    assert(here@.subrange(4, record as int) =~= b.subrange(
                        at + 4,
                        at + record,
                    ));
                    assert((id, pos, tag) == update_at(w, b, k as int));
                }
                out.push((id, pos, tag));
            }
            at = at + each;
            k = k + 1;
        }
        out
    }
}

proof fn lemma_despawns(ids: Seq<EntityId>)
    ensures
        despawns_bytes(ids).len() == 4 * ids.len(),
        forall|k: int|
            0 <= k < ids.len() ==> despawns_bytes(ids).subrange(4 * k, 4 * k + 4) == le::le_bytes(
                (#[trigger] ids[k]).0 as nat,
                4,
            ),
    decreases ids.len(),
{
    if ids.len() > 0 {
        let front = ids.drop_last();
        lemma_despawns(front);
        le::lemma_le_len(ids.last().0 as nat, 4);
        assert forall|k: int| 0 <= k < ids.len() implies despawns_bytes(ids).subrange(
            4 * k,
            4 * k + 4,
        ) == le::le_bytes((#[trigger] ids[k]).0 as nat, 4) by {
            if k < front.len() {
                assert(front[k] == ids[k]);
                assert(despawns_bytes(ids).subrange(4 * k, 4 * k + 4) =~= despawns_bytes(
                    front,
                ).subrange(4 * k, 4 * k + 4));
            } else {
                assert(despawns_bytes(ids).subrange(4 * k, 4 * k + 4) =~= le::le_bytes(
                    ids.last().0 as nat,
                    4,
                ));
            }
        }
    }
}

proof fn lemma_update_len(w: World, u: (EntityId, Pos3, u16))
    ensures
        update_bytes(w, u).len() == stride(w),
{
    le::lemma_le_len(u.0.0 as nat, 4);
    le::lemma_le_len(w.packed(w.clamp(u.1)), w.position_bytes());
    le::lemma_le_len(u.2 as nat, 2);
}

proof fn lemma_updates(w: World, updates: Seq<(EntityId, Pos3, u16)>)
    ensures
        updates_bytes(w, updates).len() == updates.len() * stride(w),
        forall|k: int|
            0 <= k < updates.len() ==> updates_bytes(w, updates).subrange(
                k * stride(w),
                k * stride(w) + stride(w),
            ) == update_bytes(w, #[trigger] updates[k]),
    decreases updates.len(),
{
    let s = stride(w);
    if updates.len() > 0 {
        let front = updates.drop_last();
        lemma_updates(w, front);
        lemma_update_len(w, updates.last());
        assert(updates.len() * s == front.len() * s + s) by (nonlinear_arith)
            requires
                updates.len() == front.len() + 1,
        ;
        assert forall|k: int| 0 <= k < updates.len() implies updates_bytes(w, updates).subrange(
            k * s,
            k * s + s,
        ) == update_bytes(w, #[trigger] updates[k]) by {
            if k < front.len() {
                assert(front[k] == updates[k]);
                assert(0 <= k * s && k * s + s <= front.len() * s) by (nonlinear_arith)
                    requires
                        0 <= k,
                        k + 1 <= front.len(),
                        s >= 0,
                ;
                assert(updates_bytes(w, updates).subrange(k * s, k * s + s) =~= updates_bytes(
                    w,
                    front,
                ).subrange(k * s, k * s + s));
            } else {
                assert(0 <= front.len() * s) by (nonlinear_arith)
                    requires
                        s >= 0,
                ;
                assert(updates_bytes(w, updates).subrange(k * s, k * s + s) =~= update_bytes(
                    w,
                    updates.last(),
                ));
            }
        }
    } else {
        assert(0 * s == 0);
    }
}

/// A payload whose positions are inside the world reads back as exactly what
/// was put in it, in order.
pub proof fn law_a_payload_round_trips(
    w: World,
    tick: u32,
    sequence: u16,
    despawns: Seq<EntityId>,
    updates: Seq<(EntityId, Pos3, u16)>,
)
    requires
        w.valid(),
        despawns.len() <= u16::MAX,
        updates.len() <= u16::MAX,
        forall|k: int| 0 <= k < updates.len() ==> w.contains((#[trigger] updates[k]).1),
    ensures
        ({
            let p = payload_bytes(w, tick, sequence, despawns, updates);
            let h = PacketHeader::of(p);
            &&& p.len() == 16 + 4 * despawns.len() + updates.len() * stride(w)
            &&& readable(w, p)
            &&& h.tick == tick
            &&& h.sequence == sequence
            &&& h.despawns == despawns.len()
            &&& h.updates == updates.len()
            &&& forall|k: int|
                0 <= k < despawns.len() ==> despawn_at(p, k) == #[trigger] despawns[k]
            &&& forall|k: int|
                0 <= k < updates.len() ==> update_at(w, p, k) == #[trigger] updates[k]
        }),
{
    let p = payload_bytes(w, tick, sequence, despawns, updates);
    let h = PacketHeader {
        tick,
        sequence,
        ack: 0,
        ack_bits: 0,
        despawns: despawns.len() as u16,
        updates: updates.len() as u16,
    };
    let ds = despawns_bytes(despawns);
    let us = updates_bytes(w, updates);
    law_a_header_round_trips(h, ds + us);
    assert(p =~= h.wire() + (ds + us));
    lemma_despawns(despawns);
    lemma_updates(w, updates);
    let s = stride(w);
    let width = w.position_bytes();
    le::lemma_span();
    assert forall|k: int| 0 <= k < despawns.len() implies despawn_at(p, k)
        == #[trigger] despawns[k] by {
        let id = despawns[k];
        assert(p.subrange(16 + k * 4, 20 + k * 4) =~= ds.subrange(4 * k, 4 * k + 4));
        le::lemma_from_le_of_le(id.0 as nat, 4);
    }
    assert forall|k: int| 0 <= k < updates.len() implies update_at(w, p, k)
        == #[trigger] updates[k] by {
        let u = updates[k];
        assert(0 <= k * s && k * s + s <= updates.len() * s) by (nonlinear_arith)
            requires
                0 <= k,
                k + 1 <= updates.len(),
                s >= 0,
        ;
        let at = 16 + despawns.len() * 4 + k * s;
        let end = 4int + width;
        let one = update_bytes(w, u);
        lemma_update_len(w, u);
        assert(us.subrange(k * s, k * s + s) == one);
        assert(p.subrange(at, at + s) =~= us.subrange(k * s, k * s + s));
        crate::codec::law_a_record_round_trips(w, u.0, u.1);
        let record = w.record(u.0, u.1);
        assert(one.subrange(0, end) =~= record);
        assert(p.subrange(at, at + 4) =~= record.take(4)) by {
            assert forall|i: int| 0 <= i < 4 implies p.subrange(at, at + 4)[i]
                == record.take(4)[i] by {
                assert(p.subrange(at, at + s)[i] == one[i]);
            }
        }
        assert(p.subrange(at + 4, at + end) =~= record.subrange(4, end)) by {
            assert forall|i: int| 0 <= i < width implies p.subrange(at + 4, at + end)[i]
                == record.subrange(4, end)[i] by {
                assert(p.subrange(at, at + s)[i + 4] == one[i + 4]);
            }
        }
        assert(p.subrange(at + end, at + end + 2) =~= le::le_bytes(u.2 as nat, 2)) by {
            le::lemma_le_len(u.2 as nat, 2);
            assert forall|i: int| 0 <= i < 2 implies p.subrange(at + end, at + end + 2)[i]
                == le::le_bytes(u.2 as nat, 2)[i] by {
                assert(p.subrange(at, at + s)[i + end] == one[i + end]);
            }
        }
        le::lemma_from_le_of_le(u.2 as nat, 2);
    }
}

/// A payload cut short is not read at all.
pub proof fn law_a_truncated_payload_is_refused(
    w: World,
    tick: u32,
    sequence: u16,
    despawns: Seq<EntityId>,
    updates: Seq<(EntityId, Pos3, u16)>,
    cut: int,
)
    requires
        despawns.len() <= u16::MAX,
        updates.len() <= u16::MAX,
        0 <= cut < payload_bytes(w, tick, sequence, despawns, updates).len(),
    ensures
        !readable(w, payload_bytes(w, tick, sequence, despawns, updates).take(cut)),
{
    let p = payload_bytes(w, tick, sequence, despawns, updates);
    let h = PacketHeader {
        tick,
        sequence,
        ack: 0,
        ack_bits: 0,
        despawns: despawns.len() as u16,
        updates: updates.len() as u16,
    };
    let rest = despawns_bytes(despawns) + updates_bytes(w, updates);
    assert(p =~= h.wire() + rest);
    lemma_despawns(despawns);
    lemma_updates(w, updates);
    law_a_header_round_trips(h, rest);
    if cut >= 16 {
        let left = rest.take(cut - 16);
        law_a_header_round_trips(h, left);
        assert(p.take(cut) =~= h.wire() + left);
    }
}

/// A header is sixteen bytes: the tick in four, the sequence and the
/// acknowledgment in two each, the acknowledged before it in four, and how many
/// despawns and how many updates follow in two each.
pub proof fn law_a_header_is_laid_out_in_order(h: PacketHeader)
    ensures
        ({
            let b = h.wire();
            &&& b.len() == 16
            &&& le::from_le(b.subrange(0, 4)) == h.tick
            &&& le::from_le(b.subrange(4, 6)) == h.sequence
            &&& le::from_le(b.subrange(6, 8)) == h.ack
            &&& le::from_le(b.subrange(8, 12)) == h.ack_bits
            &&& le::from_le(b.subrange(12, 14)) == h.despawns
            &&& le::from_le(b.subrange(14, 16)) == h.updates
        }),
{
    law_a_header_round_trips(h, Seq::empty());
    assert(h.wire() + Seq::<u8>::empty() =~= h.wire());
    le::lemma_span();
    le::lemma_from_le_bound(h.wire().subrange(0, 4));
    le::lemma_from_le_bound(h.wire().subrange(4, 6));
    le::lemma_from_le_bound(h.wire().subrange(6, 8));
    le::lemma_from_le_bound(h.wire().subrange(8, 12));
    le::lemma_from_le_bound(h.wire().subrange(12, 14));
    le::lemma_from_le_bound(h.wire().subrange(14, 16));
}

/// A payload is its header, then the despawns, four bytes of id each, and then
/// the updates: for each its record and behind that its tag in two bytes.
/// Nothing is acknowledged in it.
pub proof fn law_a_payload_is_laid_out_in_order(
    w: World,
    tick: u32,
    sequence: u16,
    despawns: Seq<EntityId>,
    updates: Seq<(EntityId, Pos3, u16)>,
    k: int,
)
    requires
        despawns.len() <= u16::MAX,
        updates.len() <= u16::MAX,
    ensures
        ({
            let p = payload_bytes(w, tick, sequence, despawns, updates);
            let each = 4 + w.position_bytes() + 2;
            let at = 16 + 4 * despawns.len() + k * each;
            &&& p.len() == 16 + 4 * despawns.len() + updates.len() * each
            &&& le::from_le(p.subrange(0, 4)) == tick
            &&& le::from_le(p.subrange(4, 6)) == sequence
            &&& le::from_le(p.subrange(6, 8)) == 0
            &&& le::from_le(p.subrange(8, 12)) == 0
            &&& le::from_le(p.subrange(12, 14)) == despawns.len()
            &&& le::from_le(p.subrange(14, 16)) == updates.len()
            &&& 0 <= k < despawns.len() ==> le::from_le(p.subrange(16 + 4 * k, 20 + 4 * k))
                == despawns[k].0
            &&& 0 <= k < updates.len() ==> p.subrange(at, at + each - 2) == w.record(
                updates[k].0,
                updates[k].1,
            )
            &&& 0 <= k < updates.len() ==> le::from_le(p.subrange(at + each - 2, at + each))
                == updates[k].2
        }),
{
    let p = payload_bytes(w, tick, sequence, despawns, updates);
    let h = PacketHeader {
        tick,
        sequence,
        ack: 0,
        ack_bits: 0,
        despawns: despawns.len() as u16,
        updates: updates.len() as u16,
    };
    let ds = despawns_bytes(despawns);
    let us = updates_bytes(w, updates);
    law_a_header_is_laid_out_in_order(h);
    lemma_despawns(despawns);
    lemma_updates(w, updates);
    let s = stride(w);
    le::lemma_span();
    assert(p =~= h.wire() + (ds + us));
    assert(p.subrange(0, 4) =~= h.wire().subrange(0, 4));
    assert(p.subrange(4, 6) =~= h.wire().subrange(4, 6));
    assert(p.subrange(6, 8) =~= h.wire().subrange(6, 8));
    assert(p.subrange(8, 12) =~= h.wire().subrange(8, 12));
    assert(p.subrange(12, 14) =~= h.wire().subrange(12, 14));
    assert(p.subrange(14, 16) =~= h.wire().subrange(14, 16));
    if 0 <= k < despawns.len() {
        assert(p.subrange(16 + 4 * k, 20 + 4 * k) =~= ds.subrange(4 * k, 4 * k + 4));
        assert(despawns[k] == despawns[k]);
        le::lemma_from_le_of_le(despawns[k].0 as nat, 4);
    }
    if 0 <= k < updates.len() {
        let u = updates[k];
        assert(0 <= k * s && k * s + s <= updates.len() * s) by (nonlinear_arith)
            requires
                0 <= k,
                k + 1 <= updates.len(),
                s >= 0,
        ;
        let at = 16 + 4 * despawns.len() + k * s;
        let one = update_bytes(w, u);
        lemma_update_len(w, u);
        le::lemma_le_len(u.2 as nat, 2);
        le::lemma_from_le_of_le(u.2 as nat, 2);
        assert(us.subrange(k * s, k * s + s) == one);
        assert(p.subrange(at, at + s) =~= one);
        assert(one.subrange(0, s - 2) =~= w.record(u.0, u.1));
        assert(one.subrange(s - 2, s) =~= le::le_bytes(u.2 as nat, 2));
        assert(p.subrange(at, at + s - 2) =~= one.subrange(0, s - 2)) by {
            let (a, b) = (p.subrange(at, at + s - 2), one.subrange(0, s - 2));
            assert forall|i: int| 0 <= i < a.len() implies #[trigger] a[i] == b[i] by {
                assert(p.subrange(at, at + s)[i] == one[i]);
            }
        }
        assert(p.subrange(at + s - 2, at + s) =~= one.subrange(s - 2, s)) by {
            let (a, b) = (p.subrange(at + s - 2, at + s), one.subrange(s - 2, s));
            assert forall|i: int| 0 <= i < a.len() implies #[trigger] a[i] == b[i] by {
                assert(p.subrange(at, at + s)[i + s - 2] == one[i + s - 2]);
            }
        }
    }
}

} // verus!
