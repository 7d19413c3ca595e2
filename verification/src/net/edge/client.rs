//! A game client's side of the link.
//!
//! [`EdgeClient`] is what a game developer holds. Which message rides a
//! reliable stream and which rides a datagram is umwelt's decision, not the
//! consumer's: a lost move is superseded within a tick and a lost spawn is not
//! recoverable by anything, and that is a property of the message rather than
//! a choice at the call site.
//!
//! This is the counterpart of
//! [`RegionClient`](crate::net::region::client::RegionClient), and the two are
//! as separate as the links they speak for.

use vstd::prelude::*;
use vstd::slice::slice_to_vec;

use crate::entity::{EntityId, EntityKind};
use crate::id::{EntityHandle, RegionId};
use crate::net::edge::protocol;
use crate::net::edge::protocol::{EdgeInfo, Framer, FromClient, ToClient};
use crate::net::octets;
use crate::net::octets::{copied, octets, past};
use crate::pos::WorldPos;

verus! {

/// What an edge sent this client.
#[derive(Debug)]
pub enum FromEdge {
    /// How to read a region's packets.
    Region(EdgeInfo),
    /// A region allocated an id for the entity this handle asked for. Until
    /// this arrives the handle is the only name for it, which is the point of
    /// having one.
    Spawned {
        /// The handle that asked.
        handle: EntityHandle,
        /// Where it ended up.
        region: RegionId,
        /// What that region calls it.
        entity: EntityId,
    },
    /// Gone, whatever caused it — including a despawn this client never asked
    /// for, because a region's own game can despawn anything.
    Removed {
        /// The handle that named it.
        handle: EntityHandle,
    },
    /// One packet.
    State {
        /// Whose view it is.
        handle: EntityHandle,
        /// Which region built it.
        region: RegionId,
        /// The packet.
        packet: bytes::Bytes,
    },
    /// The game's own bytes, which umwelt did not read.
    Message(Vec<u8>),
    /// An entity arrived in its destination region.
    Teleported {
        /// The handle that asked.
        handle: EntityHandle,
        /// Where it ended up.
        region: RegionId,
    },
    /// A teleport did not complete.
    TeleportFailed {
        /// The handle that asked.
        handle: EntityHandle,
        /// The destination that was refused or unreachable.
        region: RegionId,
    },
}

impl FromEdge {
    /// Whether this says what a message says.
    pub open spec fn says(self, m: ToClient<'_>) -> bool {
        match (self, m) {
            (FromEdge::Region(a), ToClient::Region(b)) => a == b,
            (
                FromEdge::Spawned { handle: h, region: r, entity: e },
                ToClient::Spawned { handle: i, region: s, entity: f },
            ) => h == i && r == s && e == f,
            (FromEdge::Removed { handle: h }, ToClient::Removed { handle: i }) => h == i,
            (
                FromEdge::State { handle: h, region: r, packet: a },
                ToClient::State { handle: i, region: s, packet: b },
            ) => h == i && r == s && octets::held(a) == b@,
            (FromEdge::Message(a), ToClient::Message(b)) => a@ == b@,
            (
                FromEdge::Teleported { handle: h, region: r },
                ToClient::Teleported { handle: i, region: s },
            ) => h == i && r == s,
            (
                FromEdge::TeleportFailed { handle: h, region: r },
                ToClient::TeleportFailed { handle: i, region: s },
            ) => h == i && r == s,
            _ => false,
        }
    }

    /// Whether this says what a body does.
    pub open spec fn reads(self, body: Seq<u8>) -> bool {
        exists|m: ToClient<'_>| #[trigger] m.wire() == protocol::rewritten(body) && self.says(m)
    }

    /// A message kept past the bytes it was read from.
    pub fn owned(message: ToClient<'_>) -> (kept: FromEdge)
        ensures
            kept.says(message),
    {
        match message {
            ToClient::Region(info) => FromEdge::Region(info),
            ToClient::Spawned { handle, region, entity } => FromEdge::Spawned {
                handle,
                region,
                entity,
            },
            ToClient::Removed { handle } => FromEdge::Removed { handle },
            ToClient::State { handle, region, packet } => FromEdge::State {
                handle,
                region,
                packet: copied(packet),
            },
            ToClient::Message(body) => FromEdge::Message(slice_to_vec(body)),
            ToClient::Teleported { handle, region } => FromEdge::Teleported { handle, region },
            ToClient::TeleportFailed { handle, region } => FromEdge::TeleportFailed {
                handle,
                region,
            },
        }
    }

    /// Reads what a stream carried. `None` for a message that does not decode:
    /// one bad message says nothing about the next.
    pub fn decode(body: &[u8]) -> (r: Option<FromEdge>)
        ensures
            match r {
                Some(kept) => ToClient::refusal(body@) is None && kept.reads(body@),
                None => ToClient::refusal(body@) is Some,
            },
    {
        match ToClient::decode(body) {
            Ok(m) => {
                let ghost read = m;
                let kept = FromEdge::owned(m);
                assert(read.wire() == protocol::rewritten(body@) && kept.says(read));
                Some(kept)
            },
            Err(_) => None,
        }
    }

    /// Reads what a datagram carried. A state packet is sliced rather than
    /// copied: it is the whole point of this path and it arrives counted.
    pub fn in_datagram(datagram: &bytes::Bytes) -> (r: Option<FromEdge>)
        ensures
            match r {
                Some(kept) => ToClient::refusal(octets::held(*datagram)) is None && kept.reads(
                    octets::held(*datagram),
                ),
                None => ToClient::refusal(octets::held(*datagram)) is Some,
            },
    {
        let body = octets(datagram);
        match ToClient::decode(body) {
            Ok(m) => {
                let ghost read = m;
                let kept = match m {
                    ToClient::State { handle, region, packet } => {
                        proof {
                            protocol::lemma_state_packet(read, handle, region, packet@, body@);
                        }
                        let at: usize = body.len() - packet.len();
                        FromEdge::State { handle, region, packet: past(datagram, at) }
                    },
                    other => FromEdge::owned(other),
                };
                assert(read.wire() == protocol::rewritten(body@) && kept.says(read));
                Some(kept)
            },
            Err(_) => None,
        }
    }
}

/// The bodies of a list that decode.
pub open spec fn readable(bodies: Seq<Seq<u8>>) -> Seq<Seq<u8>>
    decreases bodies.len(),
{
    if bodies.len() == 0 {
        Seq::empty()
    } else if ToClient::refusal(bodies.last()) is Some {
        readable(bodies.drop_last())
    } else {
        readable(bodies.drop_last()).push(bodies.last())
    }
}

/// Takes bytes read off the stream: what they complete, in order, and whether
/// the connection has to go. A body that does not decode is dropped, because
/// one bad message says nothing about the next; a length this end will not
/// allocate for cannot be resynchronized past.
pub fn read_stream(framer: &mut Framer, bytes: &[u8]) -> (r: (Vec<FromEdge>, bool))
    requires
        old(framer).wf(),
    ensures
        final(framer).wf(),
        final(framer)@ == protocol::leftover(old(framer)@ + bytes@),
        r.1 == (protocol::front(protocol::leftover(old(framer)@ + bytes@)) is TooLong),
        ({
            let bodies = readable(protocol::messages(old(framer)@ + bytes@));
            &&& r.0@.len() == bodies.len()
            &&& forall|i: int|
                0 <= i < bodies.len() ==> (#[trigger] r.0@[i]).reads(bodies[i])
        }),
{
    framer.push(bytes);
    let (bodies, broken) = framer.take_all();
    let ghost all = bodies@.map_values(|b: Vec<u8>| b@);
    let mut kept: Vec<FromEdge> = Vec::new();
    let mut i: usize = 0;
    while i < bodies.len()
        invariant
            i <= bodies@.len(),
            all == bodies@.map_values(|b: Vec<u8>| b@),
            kept@.len() == readable(all.take(i as int)).len(),
            forall|k: int|
                0 <= k < kept@.len() ==> (#[trigger] kept@[k]).reads(
                    readable(all.take(i as int))[k],
                ),
        decreases bodies@.len() - i,
    {
        let ghost had = kept@;
        let ghost front = readable(all.take(i as int));
        assert(all.take(i + 1).drop_last() =~= all.take(i as int));
        assert(all.take(i + 1).last() == bodies@[i as int]@);
        if let Some(one) = FromEdge::decode(bodies[i].as_slice()) {
            kept.push(one);
            proof {
                let now = readable(all.take(i + 1));
                assert(now == front.push(bodies@[i as int]@));
                assert forall|k: int| 0 <= k < kept@.len() implies (#[trigger] kept@[k]).reads(
                    now[k],
                ) by {
                    if k < had.len() {
                        assert(kept@[k] == had[k] && now[k] == front[k]);
                    }
                }
            }
        }
        i = i + 1;
    }
    assert(all.take(i as int) =~= all);
    (kept, broken)
}

/// One game client's side of its link to an edge.
///
/// Handles are this connection's own names, spent once and never reused, so a
/// stale one names nothing rather than something else.
#[derive(Clone, Copy, Debug)]
pub struct EdgeClient {
    upcoming: u32,
}

/// The handle after one, where 32 bits wrap.
pub open spec fn next_handle(h: u32) -> u32 {
    if h == u32::MAX {
        0
    } else {
        (h + 1) as u32
    }
}

/// A message as it goes on the stream, behind its length.
fn reliable(message: &FromClient) -> (framed: Vec<u8>)
    ensures
        framed@ == protocol::framed(message.wire()),
{
    let mut body: Vec<u8> = Vec::new();
    message.encode(&mut body);
    let mut framed: Vec<u8> = Vec::new();
    Framer::frame(body.as_slice(), &mut framed);
    framed
}

/// A message as it goes in a datagram.
fn datagram(message: &FromClient) -> (body: Vec<u8>)
    ensures
        body@ == message.wire(),
{
    let mut body: Vec<u8> = Vec::new();
    message.encode(&mut body);
    body
}

impl EdgeClient {
    /// The handle the next entity asked for will go by.
    pub closed spec fn handle(&self) -> u32 {
        self.upcoming
    }

    /// Nothing asked for yet.
    pub fn new() -> (c: EdgeClient)
        ensures
            c.handle() == 1,
    {
        EdgeClient { upcoming: 1 }
    }

    /// The next handle.
    fn mint(&mut self) -> (h: EntityHandle)
        ensures
            h.0 == old(self).handle(),
            final(self).handle() == next_handle(old(self).handle()),
    {
        let h = EntityHandle::from_raw(self.upcoming);
        self.upcoming = self.upcoming.wrapping_add(1);
        h
    }

    /// Asks for an entity, in the region the map puts the position in.
    ///
    /// Returns the handle to name it by from here on, valid at once: a move
    /// sent under it before the region answers is held by the edge and sent
    /// when the id arrives. The id itself comes back as [`FromEdge::Spawned`].
    pub fn spawn(&mut self, at: WorldPos, kind: EntityKind) -> (r: (EntityHandle, Vec<u8>))
        ensures
            r.0.0 == old(self).handle(),
            final(self).handle() == next_handle(old(self).handle()),
            r.1@ == protocol::framed(
                (FromClient::Spawn { handle: r.0, position: at, kind }).wire(),
            ),
    {
        let handle = self.mint();
        (handle, reliable(&FromClient::Spawn { handle, position: at, kind }))
    }

    /// As [`spawn`](Self::spawn), into a named region.
    pub fn spawn_into(&mut self, region: RegionId, at: WorldPos, kind: EntityKind) -> (r: (
        EntityHandle,
        Vec<u8>,
    ))
        ensures
            r.0.0 == old(self).handle(),
            final(self).handle() == next_handle(old(self).handle()),
            r.1@ == protocol::framed(
                (FromClient::SpawnInto { handle: r.0, region, position: at, kind }).wire(),
            ),
    {
        let handle = self.mint();
        (handle, reliable(&FromClient::SpawnInto { handle, region, position: at, kind }))
    }

    /// Sends a new absolute position, in a datagram.
    ///
    /// Latest-only: a lost one is superseded by the next, and waiting for a
    /// retransmission of a position two ticks stale helps nobody.
    pub fn move_entity(&self, handle: EntityHandle, to: WorldPos) -> (body: Vec<u8>)
        ensures
            body@ == (FromClient::Move { handle, position: to }).wire(),
    {
        datagram(&FromClient::Move { handle, position: to })
    }

    /// Several at once. Each is its own datagram, since each has to fit one.
    pub fn move_entities(&self, moves: &[(EntityHandle, WorldPos)]) -> (bodies: Vec<Vec<u8>>)
        ensures
            bodies@.len() == moves@.len(),
            forall|i: int|
                0 <= i < moves@.len() ==> (#[trigger] bodies@[i])@ == (FromClient::Move {
                    handle: moves@[i].0,
                    position: moves@[i].1,
                }).wire(),
    {
        let mut bodies: Vec<Vec<u8>> = Vec::new();
        let mut i: usize = 0;
        while i < moves.len()
            invariant
                i <= moves@.len(),
                bodies@.len() == i,
                forall|j: int|
                    0 <= j < i ==> (#[trigger] bodies@[j])@ == (FromClient::Move {
                        handle: moves@[j].0,
                        position: moves@[j].1,
                    }).wire(),
            decreases moves@.len() - i,
        {
            let (handle, to) = moves[i];
            bodies.push(self.move_entity(handle, to));
            i = i + 1;
        }
        bodies
    }

    /// Gives an entity back. The edge confirms with [`FromEdge::Removed`].
    pub fn despawn(&self, handle: EntityHandle) -> (framed: Vec<u8>)
        ensures
            framed@ == protocol::framed((FromClient::Despawn { handle }).wire()),
    {
        reliable(&FromClient::Despawn { handle })
    }

    /// The game's own bytes, reliable and ordered. umwelt does not read them.
    pub fn send(&self, body: &[u8]) -> (framed: Vec<u8>)
        ensures
            framed@ == protocol::framed(seq![protocol::KIND_MESSAGE] + body@),
    {
        reliable(&FromClient::Message(slice_to_vec(body)))
    }

    /// The game's own bytes on a datagram, for anything latest-only.
    pub fn send_datagram(&self, body: &[u8]) -> (out: Vec<u8>)
        ensures
            out@ == seq![protocol::KIND_MESSAGE] + body@,
    {
        datagram(&FromClient::Message(slice_to_vec(body)))
    }
}

/// Handles count up by one from each to the next.
pub proof fn law_handles_count_up(h: u32)
    ensures
        h < u32::MAX ==> next_handle(h) == h + 1,
        next_handle(h) != h,
{
}

/// Of what a stream carried, exactly the bodies that are not refused are read,
/// in order.
pub proof fn law_a_bad_message_says_nothing_of_the_next(bodies: Seq<Seq<u8>>)
    ensures
        readable(bodies) == bodies.filter(|b: Seq<u8>| ToClient::refusal(b) is None),
    decreases bodies.len(),
{
    reveal(Seq::filter);
    if bodies.len() > 0 {
        law_a_bad_message_says_nothing_of_the_next(bodies.drop_last());
    }
}

} // verus!
