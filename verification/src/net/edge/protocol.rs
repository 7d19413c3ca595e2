//! What a game client and its edge say to each other.
//!
//! A different protocol from [`crate::net::region`], and deliberately not
//! sharing types with it. That one runs between peers deployed together; this
//! one runs to many clients on someone else's machine, updated on someone
//! else's schedule.
//!
//! umwelt owns the movement and lifetime vocabulary here because that is what
//! it replicates. Everything else a game says to its clients rides in
//! [`FromClient::Message`] and [`ToClient::Message`] as bytes umwelt does not
//! read.
//!
//! # Framing
//!
//! A QUIC datagram carries exactly one message, so the body is the frame. A
//! QUIC stream is a byte sequence, so each message is prefixed with its length
//! as a `u32`. Both carry the same bodies, and the leading kind byte says which
//! message it is either way.

use vstd::prelude::*;
use vstd::slice::{slice_subrange, slice_to_vec};

use crate::entity::{EntityId, EntityKind, Role};
use crate::id::{EntityHandle, RegionId};
use crate::le;
use crate::le::{push_i32, push_i64, push_u32, push_wide, read_u32};
use crate::map::Placement;
use crate::net::error::NetError;
use crate::net::region::protocol as region;
use crate::net::wire::Cursor;
use crate::pos::WorldPos;

verus! {

// One kind space across both directions, so a message is never ambiguous
// about which way it was meant to travel. A consumer reads [`FromClient`] and
// [`ToClient`], never the tag in front of one.
/// [`FromClient::Spawn`].
pub const KIND_SPAWN: u8 = 1;

/// [`FromClient::Move`].
pub const KIND_MOVE: u8 = 2;

/// [`FromClient::Despawn`].
pub const KIND_DESPAWN: u8 = 3;

/// [`ToClient::Spawned`].
pub const KIND_SPAWNED: u8 = 4;

/// [`ToClient::Removed`].
pub const KIND_REMOVED: u8 = 5;

/// [`ToClient::State`].
pub const KIND_STATE: u8 = 6;

/// The consumer's own, and the only kind that travels both ways.
pub const KIND_MESSAGE: u8 = 7;

/// [`ToClient::Region`].
pub const KIND_REGION: u8 = 8;

/// [`FromClient::Moves`].
pub const KIND_MOVES: u8 = 9;

/// [`FromClient::Teleport`].
pub const KIND_TELEPORT: u8 = 10;

/// [`ToClient::Teleported`].
pub const KIND_TELEPORTED: u8 = 11;

/// [`ToClient::TeleportFailed`].
pub const KIND_TELEPORT_FAILED: u8 = 12;

/// [`FromClient::EntityMessage`].
pub const KIND_ENTITY_MESSAGE: u8 = 13;

/// [`FromClient::TeleportInto`].
pub const KIND_TELEPORT_INTO: u8 = 14;

/// [`FromClient::SpawnInto`].
pub const KIND_SPAWN_INTO: u8 = 15;

/// What this link calls a kind.
pub open spec fn name_of(kind: u8) -> &'static str {
    if kind == KIND_SPAWN {
        "spawn"
    } else if kind == KIND_MOVE {
        "move"
    } else if kind == KIND_DESPAWN {
        "despawn"
    } else if kind == KIND_SPAWNED {
        "spawned"
    } else if kind == KIND_REMOVED {
        "removed"
    } else if kind == KIND_STATE {
        "state"
    } else if kind == KIND_MESSAGE {
        "message"
    } else if kind == KIND_REGION {
        "region"
    } else if kind == KIND_MOVES {
        "moves"
    } else if kind == KIND_TELEPORT {
        "teleport"
    } else if kind == KIND_TELEPORTED {
        "teleported"
    } else if kind == KIND_TELEPORT_FAILED {
        "teleport failed"
    } else if kind == KIND_ENTITY_MESSAGE {
        "entity message"
    } else if kind == KIND_TELEPORT_INTO {
        "teleport into"
    } else if kind == KIND_SPAWN_INTO {
        "spawn into"
    } else {
        "unknown"
    }
}

/// Names a kind for an error message, without echoing the peer's bytes.
///
/// This link's own table. The region link numbers its messages separately, and
/// the same byte names something different there.
pub fn kind_name(kind: u8) -> (name: &'static str)
    ensures
        name == name_of(kind),
{
    match kind {
        KIND_SPAWN => "spawn",
        KIND_MOVE => "move",
        KIND_DESPAWN => "despawn",
        KIND_SPAWNED => "spawned",
        KIND_REMOVED => "removed",
        KIND_STATE => "state",
        KIND_MESSAGE => "message",
        KIND_REGION => "region",
        KIND_MOVES => "moves",
        KIND_TELEPORT => "teleport",
        KIND_TELEPORTED => "teleported",
        KIND_TELEPORT_FAILED => "teleport failed",
        KIND_ENTITY_MESSAGE => "entity message",
        KIND_TELEPORT_INTO => "teleport into",
        KIND_SPAWN_INTO => "spawn into",
        _ => "unknown",
    }
}

/// The largest body either end will frame on a stream.
///
/// A client that announces a longer one is disconnected rather than trusted: a
/// length prefix from an untrusted peer is otherwise an allocation it chooses.
pub const MAX_MESSAGE_BYTES: usize = 65536;

/// A [`WorldPos`] on this wire: three little-endian `i64`.
pub const WORLD_BYTES: usize = 24;

/// Bytes one move in a batch takes: a handle and a position.
pub const MOVE_BYTES: usize = 28;

/// Bytes a batch spends before its first move: the kind byte and the count.
pub const MOVES_HEADER_BYTES: usize = 5;

/// Most moves one [`FromClient::Moves`] may carry: as many as fit beside the
/// header in 1200 bytes.
///
/// A decoder has to bound what it allocates for a claimed count, so this is
/// fixed. A *sender* sizes each batch against what its connection says a
/// datagram may carry and takes whichever is smaller — a path with a smaller
/// MTU than this assumes would otherwise have every batch refused.
pub const MAX_MOVES_PER_DATAGRAM: usize = 42;

/// What a client is told about a region: only what it needs to read that
/// region's packets.
///
/// The two extents are the whole of the wire layout: horizontal bits come from
/// the region size and vertical bits from the extent.
#[derive(Clone, Copy, Debug, PartialEq, Eq, Structural)]
pub struct EdgeInfo {
    /// Which region.
    pub region: RegionId,
    /// Its horizontal extent, in meters.
    pub region_size_m: i32,
    /// Its vertical extent, in meters.
    pub vertical_extent_m: i32,
    /// Where the region sits on the world map, or `None` for a region off
    /// the map, whose world frame is its own. This is the frame the client
    /// rebuilds world positions with.
    pub placement: Option<Placement>,
}

impl EdgeInfo {
    /// Its width on the wire: the three fields, a flag byte, and a placement
    /// written whether or not the flag is set.
    pub const BYTES: usize = 21;
}

/// What a game client sends its edge.
///
/// A client names entities by a handle it chose, not by the id a region
/// allocated, so it can move one the instant it asks for it. The edge maps
/// handles to regions and ids.
#[derive(Clone, Debug, PartialEq, Eq)]
pub enum FromClient {
    /// Asks for an entity, in the region the map puts the position in.
    ///
    /// The handle is spent once and is this connection's name for it from here
    /// on.
    Spawn {
        /// This connection's name for it from here on.
        handle: EntityHandle,
        /// Where to put it, in world coordinates. The edge finds the region
        /// on the map; a position no placed region covers is refused.
        position: WorldPos,
        /// What is behind it.
        kind: EntityKind,
    },
    /// Asks for an entity in a named region, which is the one way to start
    /// in a region off the map. `position` is in that region's frame: the
    /// map's if it is placed, its own if not.
    SpawnInto {
        /// This connection's name for it from here on.
        handle: EntityHandle,
        /// The region to start in.
        region: RegionId,
        /// Where to put it, in the region's frame.
        position: WorldPos,
        /// What is behind it.
        kind: EntityKind,
    },
    /// A new absolute position. Latest-only, so this rides a datagram.
    Move {
        /// Which entity.
        handle: EntityHandle,
        /// Where it is now, in world coordinates.
        position: WorldPos,
    },
    /// Several new positions at once, which is what a client with more than a
    /// handful of entities sends. Latest-only, so this rides a datagram too.
    Moves(Vec<(EntityHandle, WorldPos)>),
    /// Gives an entity back.
    Despawn {
        /// Which entity.
        handle: EntityHandle,
    },
    /// The game's own bytes. umwelt does not read them.
    Message(Vec<u8>),
    /// The game's own bytes, addressed to the region an entity lives in.
    /// The edge resolves the handle and relays automatically.
    EntityMessage {
        /// Which entity this message is from.
        handle: EntityHandle,
        /// The game's own bytes.
        body: Vec<u8>,
    },
    /// Asks the edge to teleport an entity to a world position, which the edge
    /// resolves through the map. The handle stays valid throughout: moves sent
    /// during the transition are held at the edge and forwarded when the
    /// destination confirms.
    Teleport {
        /// Which entity.
        handle: EntityHandle,
        /// Where to put it, in world coordinates.
        at: WorldPos,
    },
    /// Asks the edge to teleport an entity into a named region, which is the
    /// one door into a region off the map. `at` is in that region's frame:
    /// the map's if it is placed, its own if not.
    TeleportInto {
        /// Which entity.
        handle: EntityHandle,
        /// The destination region.
        region: RegionId,
        /// Where to put it, in the destination's frame.
        at: WorldPos,
    },
}

/// A world position on the wire.
pub open spec fn world_bytes(at: WorldPos) -> Seq<u8> {
    le::le_i64(at.x) + le::le_i64(at.y) + le::le_i64(at.z)
}

/// A run of moves on the wire.
pub open spec fn moves_bytes(moves: Seq<(EntityHandle, WorldPos)>) -> Seq<u8>
    decreases moves.len(),
{
    if moves.len() == 0 {
        Seq::empty()
    } else {
        moves_bytes(moves.drop_last()) + le::le_bytes(moves.last().0.0 as nat, 4) + world_bytes(
            moves.last().1,
        )
    }
}

/// The fault of a body that should be `n` bytes.
pub open spec fn sized(body: Seq<u8>, n: int, what: &'static str) -> Option<NetError> {
    if body.len() == n {
        None
    } else {
        Some(NetError::Malformed(what))
    }
}

/// The fault of a body that should be a kind behind `n` bytes.
pub open spec fn kinded(body: Seq<u8>, n: int, what: &'static str) -> Option<NetError> {
    if body.len() < n + 3 {
        Some(NetError::Malformed(what))
    } else if body[n] > 1 {
        Some(NetError::Malformed("entity kind role"))
    } else {
        sized(body, n + 3, what)
    }
}

/// The fault of a body that should be at least `n` bytes.
pub open spec fn at_least(body: Seq<u8>, n: int, what: &'static str) -> Option<NetError> {
    if body.len() < n {
        Some(NetError::Malformed(what))
    } else {
        None
    }
}

/// The fault of a body that should be a batch of moves.
pub open spec fn batched(body: Seq<u8>) -> Option<NetError> {
    if body.len() < 4 {
        Some(NetError::Malformed("client moves"))
    } else if le::from_le(body.take(4)) > MAX_MOVES_PER_DATAGRAM {
        Some(NetError::Malformed("client moves count"))
    } else {
        sized(body, 4 + 28 * le::from_le(body.take(4)) as int, "client moves")
    }
}

impl FromClient {
    /// The message as bytes.
    pub open spec fn wire(self) -> Seq<u8> {
        match self {
            FromClient::Spawn { handle, position, kind } => seq![KIND_SPAWN] + (le::le_bytes(
                handle.0 as nat,
                4,
            ) + world_bytes(position) + region::kind_bytes(kind)),
            FromClient::SpawnInto { handle, region, position, kind } => seq![KIND_SPAWN_INTO] + (
            le::le_bytes(handle.0 as nat, 4) + le::le_bytes(region.0 as nat, 4) + world_bytes(
                position,
            ) + region::kind_bytes(kind)),
            FromClient::Move { handle, position } => seq![KIND_MOVE] + (le::le_bytes(
                handle.0 as nat,
                4,
            ) + world_bytes(position)),
            FromClient::Moves(moves) => seq![KIND_MOVES] + (le::le_bytes(moves@.len(), 4)
                + moves_bytes(moves@)),
            FromClient::Despawn { handle } => seq![KIND_DESPAWN] + le::le_bytes(
                handle.0 as nat,
                4,
            ),
            FromClient::Message(body) => seq![KIND_MESSAGE] + body@,
            FromClient::EntityMessage { handle, body } => seq![KIND_ENTITY_MESSAGE] + (
            le::le_bytes(handle.0 as nat, 4) + body@),
            FromClient::Teleport { handle, at } => seq![KIND_TELEPORT] + (le::le_bytes(
                handle.0 as nat,
                4,
            ) + world_bytes(at)),
            FromClient::TeleportInto { handle, region, at } => seq![KIND_TELEPORT_INTO] + (
            le::le_bytes(handle.0 as nat, 4) + le::le_bytes(region.0 as nat, 4) + world_bytes(at)),
        }
    }

    /// Whether a decoder takes this message: it asks for something a client
    /// may ask for, in a batch no larger than the cap.
    pub open spec fn sendable(self) -> bool {
        match self {
            FromClient::Spawn { handle, position, kind } => kind.role != Role::Shadow,
            FromClient::SpawnInto { handle, region, position, kind } => kind.role
                != Role::Shadow,
            FromClient::Moves(moves) => moves@.len() <= MAX_MOVES_PER_DATAGRAM,
            _ => true,
        }
    }

    /// Whether two messages say the same thing.
    pub open spec fn same(self, other: FromClient) -> bool {
        match (self, other) {
            (FromClient::Moves(a), FromClient::Moves(b)) => a@ == b@,
            (FromClient::Message(a), FromClient::Message(b)) => a@ == b@,
            (
                FromClient::EntityMessage { handle: h, body: a },
                FromClient::EntityMessage { handle: i, body: b },
            ) => h == i && a@ == b@,
            _ => self == other,
        }
    }

    /// The handle a message asks to teleport, if it asks for that.
    pub open spec fn leaving(self) -> Option<EntityHandle> {
        match self {
            FromClient::Teleport { handle, .. } => Some(handle),
            FromClient::TeleportInto { handle, .. } => Some(handle),
            _ => None,
        }
    }

    /// Why a frame is refused, if it is.
    pub open spec fn refusal(frame: Seq<u8>) -> Option<NetError> {
        let body = frame.skip(1);
        if frame.len() == 0 {
            Some(NetError::Malformed("client message"))
        } else if frame[0] == KIND_SPAWN {
            kinded(body, 28, "client spawn")
        } else if frame[0] == KIND_SPAWN_INTO {
            kinded(body, 32, "client spawn into")
        } else if frame[0] == KIND_MOVE {
            sized(body, 28, "client move")
        } else if frame[0] == KIND_MOVES {
            batched(body)
        } else if frame[0] == KIND_DESPAWN {
            sized(body, 4, "client despawn")
        } else if frame[0] == KIND_MESSAGE {
            None
        } else if frame[0] == KIND_ENTITY_MESSAGE {
            at_least(body, 4, "client entity message")
        } else if frame[0] == KIND_TELEPORT {
            sized(body, 28, "client teleport")
        } else if frame[0] == KIND_TELEPORT_INTO {
            sized(body, 32, "client teleport into")
        } else {
            Some(
                NetError::Unexpected {
                    expected: "a client command",
                    got: frame[0],
                    name: name_of(frame[0]),
                },
            )
        }
    }

    /// Whether this is latest-only.
    pub open spec fn latest_only(self) -> bool {
        self is Move || self is Moves
    }

    /// Whether this is latest-only, and so belongs on a datagram rather than
    /// the stream. A lost `Move` is superseded within a tick; a lost `Spawn`
    /// is not recoverable by anything.
    pub fn is_latest_only(&self) -> (b: bool)
        ensures
            b == self.latest_only(),
    {
        match self {
            FromClient::Move { .. } => true,
            FromClient::Moves(_) => true,
            _ => false,
        }
    }

    /// Replaces `out` with the encoded message.
    pub fn encode(&self, out: &mut Vec<u8>)
        ensures
            final(out)@ == self.wire(),
    {
        out.clear();
        match self {
            FromClient::Spawn { handle, position, kind } => {
                out.push(KIND_SPAWN);
                push_u32(out, handle.raw());
                put_world(*position, out);
                kind.encode_wire(out);
            },
            FromClient::SpawnInto { handle, region, position, kind } => {
                out.push(KIND_SPAWN_INTO);
                push_u32(out, handle.raw());
                push_u32(out, region.raw());
                put_world(*position, out);
                kind.encode_wire(out);
            },
            FromClient::Move { handle, position } => {
                out.push(KIND_MOVE);
                push_u32(out, handle.raw());
                put_world(*position, out);
            },
            FromClient::Moves(moves) => {
                out.push(KIND_MOVES);
                push_wide(out, moves.len() as u128, 4);
                let ghost head = out@;
                let mut i: usize = 0;
                assert(moves@.take(0) =~= Seq::empty());
                assert(out@ =~= head + moves_bytes(moves@.take(0)));
                while i < moves.len()
                    invariant
                        i <= moves@.len(),
                        out@ == head + moves_bytes(moves@.take(i as int)),
                    decreases moves@.len() - i,
                {
                    let (handle, position) = moves[i];
                    push_u32(out, handle.raw());
                    put_world(position, out);
                    proof {
                        assert(moves@.take(i + 1).drop_last() =~= moves@.take(i as int));
                        assert(out@ =~= head + moves_bytes(moves@.take(i + 1)));
                    }
                    i = i + 1;
                }
                assert(moves@.take(i as int) =~= moves@);
            },
            FromClient::Despawn { handle } => {
                out.push(KIND_DESPAWN);
                push_u32(out, handle.raw());
            },
            FromClient::Message(body) => {
                out.push(KIND_MESSAGE);
                out.extend_from_slice(body.as_slice());
            },
            FromClient::EntityMessage { handle, body } => {
                out.push(KIND_ENTITY_MESSAGE);
                push_u32(out, handle.raw());
                out.extend_from_slice(body.as_slice());
            },
            FromClient::Teleport { handle, at } => {
                out.push(KIND_TELEPORT);
                push_u32(out, handle.raw());
                put_world(*at, out);
            },
            FromClient::TeleportInto { handle, region, at } => {
                out.push(KIND_TELEPORT_INTO);
                push_u32(out, handle.raw());
                push_u32(out, region.raw());
                put_world(*at, out);
            },
        }
        assert(out@ =~= self.wire());
    }

    /// Reads one back from a whole frame.
    pub fn decode(frame: &[u8]) -> (r: Result<FromClient, NetError>)
        ensures
            match r {
                Ok(m) => FromClient::refusal(frame@) is None && m.wire() == frame@
                    && m.sendable(),
                Err(e) => FromClient::refusal(frame@) == Some(e),
            },
    {
        if frame.len() == 0 {
            return Err(NetError::Malformed("client message"));
        }
        let kind: u8 = frame[0];
        let body = slice_subrange(frame, 1, frame.len());
        assert(body@ =~= frame@.skip(1));
        assert(frame@ =~= seq![kind] + body@);
        match kind {
            KIND_SPAWN => {
                let mut c = Cursor::new(body, "client spawn");
                let handle = EntityHandle::from_raw(c.u32()?);
                let position = get_world(&mut c)?;
                let kind = EntityKind::decode_wire(&mut c)?;
                c.finish()?;
                let m = FromClient::Spawn { handle, position, kind };
                assert(m.wire() =~= frame@);
                Ok(m)
            },
            KIND_SPAWN_INTO => {
                let mut c = Cursor::new(body, "client spawn into");
                let handle = EntityHandle::from_raw(c.u32()?);
                let region = RegionId::from_raw(c.u32()?);
                let position = get_world(&mut c)?;
                let kind = EntityKind::decode_wire(&mut c)?;
                c.finish()?;
                let m = FromClient::SpawnInto { handle, region, position, kind };
                assert(m.wire() =~= frame@);
                Ok(m)
            },
            KIND_MOVE => {
                let mut c = Cursor::new(body, "client move");
                let handle = EntityHandle::from_raw(c.u32()?);
                let position = get_world(&mut c)?;
                c.finish()?;
                let m = FromClient::Move { handle, position };
                assert(m.wire() =~= frame@);
                Ok(m)
            },
            KIND_MOVES => decode_moves(frame, body),
            KIND_DESPAWN => {
                let mut c = Cursor::new(body, "client despawn");
                let handle = EntityHandle::from_raw(c.u32()?);
                c.finish()?;
                let m = FromClient::Despawn { handle };
                assert(m.wire() =~= frame@);
                Ok(m)
            },
            KIND_MESSAGE => Ok(FromClient::Message(slice_to_vec(body))),
            KIND_ENTITY_MESSAGE => {
                let mut c = Cursor::new(body, "client entity message");
                let handle = EntityHandle::from_raw(c.u32()?);
                let said = slice_to_vec(c.rest());
                let m = FromClient::EntityMessage { handle, body: said };
                assert(m.wire() =~= frame@);
                Ok(m)
            },
            KIND_TELEPORT => {
                let mut c = Cursor::new(body, "client teleport");
                let handle = EntityHandle::from_raw(c.u32()?);
                let at = get_world(&mut c)?;
                c.finish()?;
                let m = FromClient::Teleport { handle, at };
                assert(m.wire() =~= frame@);
                Ok(m)
            },
            KIND_TELEPORT_INTO => {
                let mut c = Cursor::new(body, "client teleport into");
                let handle = EntityHandle::from_raw(c.u32()?);
                let region = RegionId::from_raw(c.u32()?);
                let at = get_world(&mut c)?;
                c.finish()?;
                let m = FromClient::TeleportInto { handle, region, at };
                assert(m.wire() =~= frame@);
                Ok(m)
            },
            got => Err(
                NetError::Unexpected { expected: "a client command", got, name: kind_name(got) },
            ),
        }
    }
}

/// Reads a batch of moves.
fn decode_moves(frame: &[u8], body: &[u8]) -> (r: Result<FromClient, NetError>)
    requires
        frame@ == seq![KIND_MOVES] + body@,
    ensures
        match r {
            Ok(m) => batched(body@) is None && m.wire() == frame@ && m.sendable(),
            Err(e) => batched(body@) == Some(e),
        },
{
    let mut c = Cursor::new(body, "client moves");
    let count: u32 = c.u32()?;
    assert(body@.subrange(0, 4) =~= body@.take(4));
    // The cap bounds what a decoder allocates for a claimed count, so it does
    // not move to suit a caller.
    if count as usize > MAX_MOVES_PER_DATAGRAM {
        return Err(NetError::Malformed("client moves count"));
    }
    let ghost head = le::le_bytes(count as nat, 4);
    let mut moves: Vec<(EntityHandle, WorldPos)> = Vec::with_capacity(count as usize);
    let mut i: u32 = 0;
    assert(c.done() =~= head + moves_bytes(moves@));
    while i < count
        invariant
            i <= count <= MAX_MOVES_PER_DATAGRAM,
            moves@.len() == i,
            c.wf(),
            c.body() == body@,
            c.what() == "client moves",
            c.at() == 4 + 28 * i,
            c.done() == head + moves_bytes(moves@),
            body@.len() >= 4,
            count == le::from_le(body@.take(4)),
        decreases count - i,
    {
        let handle = EntityHandle::from_raw(c.u32()?);
        let position = get_world(&mut c)?;
        let ghost before = moves@;
        moves.push((handle, position));
        proof {
            assert(moves@.drop_last() =~= before);
            assert(c.done() =~= head + moves_bytes(moves@));
        }
        i = i + 1;
    }
    c.finish()?;
    let m = FromClient::Moves(moves);
    assert(m.wire() =~= frame@);
    Ok(m)
}

fn put_world(at: WorldPos, out: &mut Vec<u8>)
    ensures
        final(out)@ == old(out)@ + world_bytes(at),
{
    push_i64(out, at.x);
    push_i64(out, at.y);
    push_i64(out, at.z);
    assert(out@ =~= old(out)@ + world_bytes(at));
}

fn get_world(c: &mut Cursor<'_>) -> (r: Result<WorldPos, NetError>)
    requires
        old(c).wf(),
    ensures
        final(c).wf(),
        final(c).body() == old(c).body(),
        final(c).what() == old(c).what(),
        (r is Err) == (old(c).at() + 24 > old(c).body().len()),
        match r {
            Ok(w) => final(c).at() == old(c).at() + 24 && final(c).done() == old(c).done()
                + world_bytes(w),
            Err(e) => e == old(c).fault(),
        },
{
    let x: i64 = c.i64()?;
    let y: i64 = c.i64()?;
    let z: i64 = c.i64()?;
    let w = WorldPos::from_raw(x, y, z);
    assert(c.done() =~= old(c).done() + world_bytes(w));
    Ok(w)
}

/// What an edge sends a game client.
///
/// `State` carries the region's packet exactly as the region built it. The edge
/// routed on the four-byte avatar in front of it and replaces those bytes with
/// the handle and the region the packet came from, which is not a decode:
/// authoritative state does not lose authority by passing through a relay.
#[derive(Clone, Debug, PartialEq, Eq)]
pub enum ToClient<'a> {
    /// How to read a region's packets, sent before anything else about that
    /// region.
    ///
    /// Not sent at connect time, because an edge has no home region: it learns
    /// which regions a client cares about when the client asks for one.
    Region(EdgeInfo),
    /// A region allocated an id for the entity this handle asked for.
    Spawned {
        /// The handle that asked.
        handle: EntityHandle,
        /// Where it ended up.
        region: RegionId,
        /// What that region calls it.
        entity: EntityId,
    },
    /// Gone, whatever caused it.
    Removed {
        /// The handle that named it.
        handle: EntityHandle,
    },
    /// What one of this client's entities can see. Named by the handle that
    /// asked for it: the edge knows which avatar a packet was built for and
    /// which of this client's handles that is.
    ///
    /// Latest-only, so this rides a datagram.
    State {
        /// Which of this client's entities is looking. Near a seam the same
        /// handle receives packets from two regions, its own and its
        /// shadow's.
        handle: EntityHandle,
        /// Which region built it, and so which frame its positions are in.
        region: RegionId,
        /// The region's packet, untouched except for the bytes in front.
        packet: &'a [u8],
    },
    /// The game's own, which umwelt does not read.
    Message(&'a [u8]),
    /// An entity arrived in its destination region. The handle is the same one
    /// the client has always held. Preceded by a `Spawned` that carries the new
    /// region and entity id.
    Teleported {
        /// The handle that asked.
        handle: EntityHandle,
        /// Where it ended up.
        region: RegionId,
    },
    /// A teleport did not complete. The entity stays in its origin region.
    TeleportFailed {
        /// The handle that asked.
        handle: EntityHandle,
        /// The destination that was refused or unreachable.
        region: RegionId,
    },
}

/// What a client is told about a region, on the wire.
pub open spec fn info_bytes(info: EdgeInfo) -> Seq<u8> {
    let at = match info.placement {
        Some(p) => p,
        None => Placement { col: 0, row: 0 },
    };
    le::le_bytes(info.region.0 as nat, 4) + le::le_i32(info.region_size_m) + le::le_i32(
        info.vertical_extent_m,
    ) + seq![
        if info.placement is Some {
            1u8
        } else {
            0u8
        },
    ] + le::le_i32(at.col) + le::le_i32(at.row)
}

/// A frame as the message in it would be written. Only a region with no
/// placement can be written another way: the placement behind a clear flag is
/// not read.
pub open spec fn rewritten(frame: Seq<u8>) -> Seq<u8> {
    if frame.len() == 22 && frame[0] == KIND_REGION && frame[13] == 0 {
        frame.take(14) + le::le_i32(0) + le::le_i32(0)
    } else {
        frame
    }
}

/// The fault of a body that should be what a client is told about a region.
pub open spec fn described(body: Seq<u8>) -> Option<NetError> {
    if body.len() != 21 {
        Some(NetError::Malformed("region info"))
    } else if body[12] > 1 {
        Some(NetError::Malformed("region placement flag"))
    } else {
        None
    }
}

impl<'a> ToClient<'a> {
    /// The message as bytes.
    pub open spec fn wire(self) -> Seq<u8> {
        match self {
            ToClient::Region(info) => seq![KIND_REGION] + info_bytes(info),
            ToClient::Spawned { handle, region, entity } => seq![KIND_SPAWNED] + (le::le_bytes(
                handle.0 as nat,
                4,
            ) + le::le_bytes(region.0 as nat, 4) + le::le_bytes(entity.0 as nat, 4)),
            ToClient::Removed { handle } => seq![KIND_REMOVED] + le::le_bytes(
                handle.0 as nat,
                4,
            ),
            ToClient::State { handle, region, packet } => seq![KIND_STATE] + (le::le_bytes(
                handle.0 as nat,
                4,
            ) + le::le_bytes(region.0 as nat, 4) + packet@),
            ToClient::Message(body) => seq![KIND_MESSAGE] + body@,
            ToClient::Teleported { handle, region } => seq![KIND_TELEPORTED] + (le::le_bytes(
                handle.0 as nat,
                4,
            ) + le::le_bytes(region.0 as nat, 4)),
            ToClient::TeleportFailed { handle, region } => seq![KIND_TELEPORT_FAILED] + (
            le::le_bytes(handle.0 as nat, 4) + le::le_bytes(region.0 as nat, 4)),
        }
    }

    /// Whether two messages say the same thing.
    pub open spec fn same(self, other: ToClient<'_>) -> bool {
        match (self, other) {
            (
                ToClient::State { handle: h, region: r, packet: a },
                ToClient::State { handle: i, region: s, packet: b },
            ) => h == i && r == s && a@ == b@,
            (ToClient::Message(a), ToClient::Message(b)) => a@ == b@,
            (ToClient::Region(a), ToClient::Region(b)) => a == b,
            (
                ToClient::Spawned { handle: h, region: r, entity: e },
                ToClient::Spawned { handle: i, region: s, entity: f },
            ) => h == i && r == s && e == f,
            (ToClient::Removed { handle: h }, ToClient::Removed { handle: i }) => h == i,
            (
                ToClient::Teleported { handle: h, region: r },
                ToClient::Teleported { handle: i, region: s },
            ) => h == i && r == s,
            (
                ToClient::TeleportFailed { handle: h, region: r },
                ToClient::TeleportFailed { handle: i, region: s },
            ) => h == i && r == s,
            _ => false,
        }
    }

    /// Why a frame is refused, if it is.
    pub open spec fn refusal(frame: Seq<u8>) -> Option<NetError> {
        let body = frame.skip(1);
        if frame.len() == 0 {
            Some(NetError::Malformed("edge message"))
        } else if frame[0] == KIND_REGION {
            described(body)
        } else if frame[0] == KIND_SPAWNED {
            sized(body, 12, "spawned")
        } else if frame[0] == KIND_REMOVED {
            sized(body, 4, "removed")
        } else if frame[0] == KIND_STATE {
            at_least(body, 8, "state")
        } else if frame[0] == KIND_MESSAGE {
            None
        } else if frame[0] == KIND_TELEPORTED {
            sized(body, 8, "teleported")
        } else if frame[0] == KIND_TELEPORT_FAILED {
            sized(body, 8, "teleport failed")
        } else {
            Some(
                NetError::Unexpected {
                    expected: "an edge message",
                    got: frame[0],
                    name: name_of(frame[0]),
                },
            )
        }
    }

    /// Whether this is latest-only, and so belongs on a datagram.
    pub fn is_latest_only(&self) -> (b: bool)
        ensures
            b == (self is State),
    {
        match self {
            ToClient::State { .. } => true,
            _ => false,
        }
    }

    /// Replaces `out` with the encoded message.
    pub fn encode(&self, out: &mut Vec<u8>)
        ensures
            final(out)@ == self.wire(),
    {
        out.clear();
        self.encode_onto(out);
        assert(out@ =~= self.wire());
    }

    /// Appends, so a caller framing on a stream can reserve the length prefix
    /// first and fill it in after, rather than encoding into one buffer and
    /// copying into another to put four bytes in front.
    pub fn encode_onto(&self, out: &mut Vec<u8>)
        ensures
            final(out)@ == old(out)@ + self.wire(),
    {
        match self {
            ToClient::Region(info) => {
                out.push(KIND_REGION);
                push_u32(out, info.region.raw());
                push_i32(out, info.region_size_m);
                push_i32(out, info.vertical_extent_m);
                match info.placement {
                    Some(at) => {
                        out.push(1);
                        push_i32(out, at.col);
                        push_i32(out, at.row);
                    },
                    None => {
                        out.push(0);
                        push_i32(out, 0);
                        push_i32(out, 0);
                    },
                }
            },
            ToClient::Spawned { handle, region, entity } => {
                out.push(KIND_SPAWNED);
                push_u32(out, handle.raw());
                push_u32(out, region.raw());
                push_u32(out, entity.raw());
            },
            ToClient::Removed { handle } => {
                out.push(KIND_REMOVED);
                push_u32(out, handle.raw());
            },
            ToClient::State { handle, region, packet } => {
                out.push(KIND_STATE);
                push_u32(out, handle.raw());
                push_u32(out, region.raw());
                out.extend_from_slice(packet);
            },
            ToClient::Message(body) => {
                out.push(KIND_MESSAGE);
                out.extend_from_slice(body);
            },
            ToClient::Teleported { handle, region } => {
                out.push(KIND_TELEPORTED);
                push_u32(out, handle.raw());
                push_u32(out, region.raw());
            },
            ToClient::TeleportFailed { handle, region } => {
                out.push(KIND_TELEPORT_FAILED);
                push_u32(out, handle.raw());
                push_u32(out, region.raw());
            },
        }
        assert(out@ =~= old(out)@ + self.wire());
    }

    /// Reads one back, borrowing the frame rather than copying it.
    pub fn decode(frame: &'a [u8]) -> (r: Result<ToClient<'a>, NetError>)
        ensures
            match r {
                Ok(m) => ToClient::refusal(frame@) is None && m.wire() == rewritten(frame@),
                Err(e) => ToClient::refusal(frame@) == Some(e),
            },
    {
        if frame.len() == 0 {
            return Err(NetError::Malformed("edge message"));
        }
        let kind: u8 = frame[0];
        let body = slice_subrange(frame, 1, frame.len());
        assert(body@ =~= frame@.skip(1));
        assert(frame@ =~= seq![kind] + body@);
        match kind {
            KIND_REGION => {
                let mut c = Cursor::new(body, "region info");
                let region = RegionId::from_raw(c.u32()?);
                let region_size_m: i32 = c.i32()?;
                let vertical_extent_m: i32 = c.i32()?;
                let placed: u8 = c.u8()?;
                let ghost front = c.done();
                let col: i32 = c.i32()?;
                let row: i32 = c.i32()?;
                c.finish()?;
                let placement = match placed {
                    0 => None,
                    1 => Some(Placement { col, row }),
                    _ => return Err(NetError::Malformed("region placement flag")),
                };
                let m = ToClient::Region(
                    EdgeInfo { region, region_size_m, vertical_extent_m, placement },
                );
                proof {
                    assert(front == body@.take(13));
                    assert(frame@.take(14) =~= seq![kind] + body@.take(13));
                    assert(m.wire() =~= rewritten(frame@));
                }
                Ok(m)
            },
            KIND_SPAWNED => {
                let mut c = Cursor::new(body, "spawned");
                let handle = EntityHandle::from_raw(c.u32()?);
                let region = RegionId::from_raw(c.u32()?);
                let entity = EntityId::from_raw(c.u32()?);
                c.finish()?;
                let m = ToClient::Spawned { handle, region, entity };
                assert(m.wire() =~= frame@);
                Ok(m)
            },
            KIND_REMOVED => {
                let mut c = Cursor::new(body, "removed");
                let handle = EntityHandle::from_raw(c.u32()?);
                c.finish()?;
                let m = ToClient::Removed { handle };
                assert(m.wire() =~= frame@);
                Ok(m)
            },
            KIND_STATE => {
                let mut c = Cursor::new(body, "state");
                let handle = EntityHandle::from_raw(c.u32()?);
                let region = RegionId::from_raw(c.u32()?);
                let m = ToClient::State { handle, region, packet: c.rest() };
                assert(m.wire() =~= frame@);
                Ok(m)
            },
            KIND_MESSAGE => Ok(ToClient::Message(body)),
            KIND_TELEPORTED => {
                let mut c = Cursor::new(body, "teleported");
                let handle = EntityHandle::from_raw(c.u32()?);
                let region = RegionId::from_raw(c.u32()?);
                c.finish()?;
                let m = ToClient::Teleported { handle, region };
                assert(m.wire() =~= frame@);
                Ok(m)
            },
            KIND_TELEPORT_FAILED => {
                let mut c = Cursor::new(body, "teleport failed");
                let handle = EntityHandle::from_raw(c.u32()?);
                let region = RegionId::from_raw(c.u32()?);
                c.finish()?;
                let m = ToClient::TeleportFailed { handle, region };
                assert(m.wire() =~= frame@);
                Ok(m)
            },
            got => Err(
                NetError::Unexpected { expected: "an edge message", got, name: kind_name(got) },
            ),
        }
    }
}

// ---------------------------------------------------------------------------
// Framing
// ---------------------------------------------------------------------------

/// A body behind its length.
pub open spec fn framed(body: Seq<u8>) -> Seq<u8> {
    le::le_bytes(body.len(), 4) + body
}

/// What the front of a stream holds.
pub enum Front {
    /// Not yet a whole message.
    Waiting,
    /// A length past [`MAX_MESSAGE_BYTES`].
    TooLong,
    /// A message, and what comes after it.
    Message {
        /// The message's body.
        body: Seq<u8>,
        /// The bytes behind it.
        rest: Seq<u8>,
    },
}

/// What the front of a run of bytes holds.
pub open spec fn front(s: Seq<u8>) -> Front {
    if s.len() < 4 {
        Front::Waiting
    } else {
        let len = le::from_le(s.take(4)) as int;
        if len > MAX_MESSAGE_BYTES {
            Front::TooLong
        } else if s.len() < 4 + len {
            Front::Waiting
        } else {
            Front::Message { body: s.subrange(4, 4 + len), rest: s.skip(4 + len) }
        }
    }
}

/// Reads length-prefixed messages off a QUIC stream.
///
/// A stream is a byte sequence with no message boundaries, so each body is
/// preceded by its length. A length past [`MAX_MESSAGE_BYTES`] is refused
/// rather than allocated: on this link the peer is not trusted, and a length
/// prefix it chose is otherwise an allocation it chose.
#[derive(Debug)]
pub struct Framer {
    buf: Vec<u8>,
    /// How far into `buf` has been handed out. Taking a message advances this
    /// rather than removing bytes from the front, because removing them moves
    /// everything behind down and one read holding many messages would pay
    /// that per message. The dead prefix is reclaimed once per read instead.
    at: usize,
}

impl View for Framer {
    type V = Seq<u8>;

    /// The bytes read off the stream and not yet handed out.
    closed spec fn view(&self) -> Seq<u8> {
        self.buf@.skip(self.at as int)
    }
}

impl Default for Framer {
    /// Holding no partial frame.
    fn default() -> (f: Framer)
        ensures
            f.wf(),
            f@ == Seq::<u8>::empty(),
    {
        Framer::new()
    }
}

impl Framer {
    /// What has been handed out was there.
    pub closed spec fn wf(&self) -> bool {
        self.at <= self.buf@.len()
    }

    /// Holding no partial frame.
    pub fn new() -> (f: Framer)
        ensures
            f.wf(),
            f@ == Seq::<u8>::empty(),
    {
        let f = Framer { buf: Vec::new(), at: 0 };
        assert(f@ =~= Seq::<u8>::empty());
        f
    }

    /// Writes one framed message into `out`, which is cleared first.
    pub fn frame(body: &[u8], out: &mut Vec<u8>)
        ensures
            final(out)@ == framed(body@),
    {
        out.clear();
        push_wide(out, body.len() as u128, 4);
        out.extend_from_slice(body);
        assert(out@ =~= framed(body@));
    }

    /// Adds bytes read off the stream.
    ///
    /// Whatever previous reads handed out is dropped here, so the buffer is
    /// compacted once per read rather than once per message taken from it.
    pub fn push(&mut self, bytes: &[u8])
        requires
            old(self).wf(),
        ensures
            final(self).wf(),
            final(self)@ == old(self)@ + bytes@,
    {
        if self.at > 0 {
            let left = slice_to_vec(
                slice_subrange(self.buf.as_slice(), self.at, self.buf.len()),
            );
            self.buf = left;
            self.at = 0;
        }
        self.buf.extend_from_slice(bytes);
        assert(self@ =~= old(self)@ + bytes@);
    }

    /// Takes the next complete message, if one has arrived.
    ///
    /// `Err` means the peer announced a body longer than
    /// [`MAX_MESSAGE_BYTES`], which is not recoverable: the stream cannot be
    /// resynchronized, so the caller drops the connection.
    pub fn take(&mut self) -> (r: Result<Option<Vec<u8>>, NetError>)
        requires
            old(self).wf(),
        ensures
            final(self).wf(),
            match front(old(self)@) {
                Front::Waiting => r == Ok::<Option<Vec<u8>>, NetError>(None) && final(self)@
                    == old(self)@,
                Front::TooLong => r == Err::<Option<Vec<u8>>, NetError>(
                    NetError::Malformed("client frame length"),
                ) && final(self)@ == old(self)@,
                Front::Message { body, rest } => r is Ok && r->Ok_0 is Some && r->Ok_0->0@
                    == body && final(self)@ == rest,
            },
    {
        let head: usize = self.at;
        let waiting: usize = self.buf.len() - head;
        if waiting < 4 {
            return Ok(None);
        }
        let len: usize = read_u32(self.buf.as_slice(), head) as usize;
        assert(self@.take(4) =~= self.buf@.subrange(head as int, head + 4));
        if len > MAX_MESSAGE_BYTES {
            return Err(NetError::Malformed("client frame length"));
        }
        if waiting < 4 + len {
            return Ok(None);
        }
        let body = slice_to_vec(slice_subrange(self.buf.as_slice(), head + 4, head + 4 + len));
        assert(body@ =~= self@.subrange(4, 4 + len));
        self.at = head + 4 + len;
        assert(self@ =~= old(self)@.skip(4 + len));
        Ok(Some(body))
    }

    /// Takes every complete message that has arrived, in order, and says
    /// whether the stream is past saving: a length longer than
    /// [`MAX_MESSAGE_BYTES`] comes next.
    pub fn take_all(&mut self) -> (r: (Vec<Vec<u8>>, bool))
        requires
            old(self).wf(),
        ensures
            final(self).wf(),
            r.0@.map_values(|b: Vec<u8>| b@) == messages(old(self)@),
            final(self)@ == leftover(old(self)@),
            r.1 == (front(leftover(old(self)@)) is TooLong),
    {
        let mut bodies: Vec<Vec<u8>> = Vec::new();
        assert(bodies@.map_values(|b: Vec<u8>| b@) + messages(self@) =~= messages(self@));
        loop
            invariant
                self.wf(),
                bodies@.map_values(|b: Vec<u8>| b@) + messages(self@) == messages(old(self)@),
                leftover(self@) == leftover(old(self)@),
            decreases self@.len(),
        {
            let ghost before = self@;
            match self.take() {
                Ok(Some(body)) => {
                    let ghost had = bodies@;
                    let ghost one = body@;
                    bodies.push(body);
                    proof {
                        assert(self@.len() < before.len());
                        assert(bodies@.map_values(|b: Vec<u8>| b@) =~= had.map_values(
                            |b: Vec<u8>| b@,
                        ).push(one));
                        assert(had.map_values(|b: Vec<u8>| b@).push(one) + messages(self@)
                            =~= had.map_values(|b: Vec<u8>| b@) + (seq![one] + messages(self@)));
                    }
                },
                Ok(None) => {
                    assert(bodies@.map_values(|b: Vec<u8>| b@) =~= messages(old(self)@));
                    return (bodies, false);
                },
                Err(_) => {
                    assert(bodies@.map_values(|b: Vec<u8>| b@) =~= messages(old(self)@));
                    return (bodies, true);
                },
            }
        }
    }
}

// ---------------------------------------------------------------------------
// Laws
// ---------------------------------------------------------------------------

/// Every message of a stream, in order.
pub open spec fn messages(s: Seq<u8>) -> Seq<Seq<u8>>
    decreases s.len(),
{
    match front(s) {
        Front::Message { body, rest } => if rest.len() < s.len() {
            seq![body] + messages(rest)
        } else {
            Seq::empty()
        },
        _ => Seq::empty(),
    }
}

/// What a stream still holds once every message has been taken off it.
pub open spec fn leftover(s: Seq<u8>) -> Seq<u8>
    decreases s.len(),
{
    match front(s) {
        Front::Message { body, rest } => if rest.len() < s.len() {
            leftover(rest)
        } else {
            s
        },
        _ => s,
    }
}

/// Bodies framed one behind the other.
pub open spec fn stream(bodies: Seq<Seq<u8>>) -> Seq<u8>
    decreases bodies.len(),
{
    if bodies.len() == 0 {
        Seq::empty()
    } else {
        framed(bodies[0]) + stream(bodies.skip(1))
    }
}

/// A framed body comes off the front of a stream whole, and leaves what was
/// behind it.
pub proof fn law_a_framed_message_comes_off(body: Seq<u8>, rest: Seq<u8>)
    requires
        body.len() <= MAX_MESSAGE_BYTES,
    ensures
        front(framed(body) + rest) == (Front::Message { body, rest }),
{
    let s = framed(body) + rest;
    le::lemma_le_len(body.len(), 4);
    le::lemma_span();
    le::lemma_from_le_of_le(body.len(), 4);
    assert(s.take(4) =~= le::le_bytes(body.len(), 4));
    assert(s.subrange(4, 4 + body.len() as int) =~= body);
    assert(s.skip(4 + body.len() as int) =~= rest);
}

/// Bodies framed one behind the other come off in order, and nothing is left.
pub proof fn law_a_burst_comes_off_in_order(bodies: Seq<Seq<u8>>)
    requires
        forall|i: int| 0 <= i < bodies.len() ==> (#[trigger] bodies[i]).len() <= MAX_MESSAGE_BYTES,
    ensures
        messages(stream(bodies)) == bodies,
        leftover(stream(bodies)) == Seq::<u8>::empty(),
    decreases bodies.len(),
{
    if bodies.len() > 0 {
        law_a_framed_message_comes_off(bodies[0], stream(bodies.skip(1)));
        le::lemma_le_len(bodies[0].len(), 4);
        law_a_burst_comes_off_in_order(bodies.skip(1));
        assert(seq![bodies[0]] + bodies.skip(1) =~= bodies);
    } else {
        assert(messages(stream(bodies)) =~= bodies);
    }
}

/// Where a stream is cut into reads changes nothing: the messages of the first
/// read, then those of what it left with the second read behind it, are the
/// messages of both reads together.
pub proof fn law_reads_may_split_anywhere(a: Seq<u8>, b: Seq<u8>)
    ensures
        messages(a + b) == messages(a) + messages(leftover(a) + b),
        leftover(a + b) == leftover(leftover(a) + b),
    decreases a.len(),
{
    match front(a) {
        Front::Message { body, rest } => {
            let len = le::from_le(a.take(4)) as int;
            assert((a + b).take(4) =~= a.take(4));
            assert((a + b).subrange(4, 4 + len) =~= body);
            assert((a + b).skip(4 + len) =~= rest + b);
            law_reads_may_split_anywhere(rest, b);
            assert(messages(a + b) =~= messages(a) + messages(leftover(a) + b));
        },
        _ => {
            assert(messages(a + b) =~= messages(a) + messages(leftover(a) + b));
        },
    }
}

/// A batch of moves is as long as its count says.
pub proof fn lemma_moves_len(moves: Seq<(EntityHandle, WorldPos)>)
    ensures
        moves_bytes(moves).len() == 28 * moves.len(),
    decreases moves.len(),
{
    if moves.len() > 0 {
        lemma_moves_len(moves.drop_last());
        le::lemma_le_len(moves.last().0.0 as nat, 4);
        lemma_world(moves.last().1);
    }
}

/// A world position is 24 bytes.
pub proof fn lemma_world(at: WorldPos)
    ensures
        world_bytes(at).len() == 24,
{
    le::lemma_le_i64(at.x);
    le::lemma_le_i64(at.y);
    le::lemma_le_i64(at.z);
}

/// A world position is read back as it was written.
proof fn lemma_world_injective(a: WorldPos, b: WorldPos)
    requires
        world_bytes(a) == world_bytes(b),
    ensures
        a == b,
{
    le::lemma_le_i64(a.x);
    le::lemma_le_i64(a.y);
    le::lemma_le_i64(a.z);
    le::lemma_le_i64(b.x);
    le::lemma_le_i64(b.y);
    le::lemma_le_i64(b.z);
    le::lemma_same_back(
        le::le_i64(a.x) + le::le_i64(a.y),
        le::le_i64(a.z),
        le::le_i64(b.x) + le::le_i64(b.y),
        le::le_i64(b.z),
    );
    le::lemma_same_back(le::le_i64(a.x), le::le_i64(a.y), le::le_i64(b.x), le::le_i64(b.y));
}

/// A batch of moves is read back as it was written.
proof fn lemma_moves_injective(
    a: Seq<(EntityHandle, WorldPos)>,
    b: Seq<(EntityHandle, WorldPos)>,
)
    requires
        a.len() == b.len(),
        moves_bytes(a) == moves_bytes(b),
    ensures
        a == b,
    decreases a.len(),
{
    if a.len() > 0 {
        let (x, y) = (a.last(), b.last());
        lemma_world(x.1);
        lemma_world(y.1);
        le::lemma_le_len(x.0.0 as nat, 4);
        le::lemma_le_len(y.0.0 as nat, 4);
        le::lemma_same_back(
            moves_bytes(a.drop_last()) + le::le_bytes(x.0.0 as nat, 4),
            world_bytes(x.1),
            moves_bytes(b.drop_last()) + le::le_bytes(y.0.0 as nat, 4),
            world_bytes(y.1),
        );
        le::lemma_same_back(
            moves_bytes(a.drop_last()),
            le::le_bytes(x.0.0 as nat, 4),
            moves_bytes(b.drop_last()),
            le::le_bytes(y.0.0 as nat, 4),
        );
        le::lemma_u32_injective(x.0.0, y.0.0);
        lemma_world_injective(x.1, y.1);
        lemma_moves_injective(a.drop_last(), b.drop_last());
        assert(a =~= a.drop_last().push(x));
        assert(b =~= b.drop_last().push(y));
    } else {
        assert(a =~= b);
    }
}

/// The kind byte of a client's message.
pub open spec fn client_kind(m: FromClient) -> u8 {
    match m {
        FromClient::Spawn { .. } => KIND_SPAWN,
        FromClient::SpawnInto { .. } => KIND_SPAWN_INTO,
        FromClient::Move { .. } => KIND_MOVE,
        FromClient::Moves(_) => KIND_MOVES,
        FromClient::Despawn { .. } => KIND_DESPAWN,
        FromClient::Message(_) => KIND_MESSAGE,
        FromClient::EntityMessage { .. } => KIND_ENTITY_MESSAGE,
        FromClient::Teleport { .. } => KIND_TELEPORT,
        FromClient::TeleportInto { .. } => KIND_TELEPORT_INTO,
    }
}

/// How long a client's message is.
pub open spec fn client_len(m: FromClient) -> nat {
    match m {
        FromClient::Spawn { .. } => 32,
        FromClient::SpawnInto { .. } => 36,
        FromClient::Move { .. } => 29,
        FromClient::Moves(moves) => 5 + 28 * moves@.len(),
        FromClient::Despawn { .. } => 5,
        FromClient::Message(body) => 1 + body@.len(),
        FromClient::EntityMessage { handle, body } => 5 + body@.len(),
        FromClient::Teleport { .. } => 29,
        FromClient::TeleportInto { .. } => 33,
    }
}

/// A client's message opens with its kind and is as long as its shape says.
proof fn lemma_client_shape(m: FromClient)
    ensures
        m.wire().len() == client_len(m),
        m.wire()[0] == client_kind(m),
{
    match m {
        FromClient::Spawn { handle, position, kind } => {
            le::lemma_le_len(handle.0 as nat, 4);
            lemma_world(position);
            le::lemma_le_len(kind.tag as nat, 2);
        },
        FromClient::SpawnInto { handle, region, position, kind } => {
            le::lemma_le_len(handle.0 as nat, 4);
            le::lemma_le_len(region.0 as nat, 4);
            lemma_world(position);
            le::lemma_le_len(kind.tag as nat, 2);
        },
        FromClient::Move { handle, position } => {
            le::lemma_le_len(handle.0 as nat, 4);
            lemma_world(position);
        },
        FromClient::Moves(moves) => {
            le::lemma_le_len(moves@.len(), 4);
            lemma_moves_len(moves@);
        },
        FromClient::Despawn { handle } => {
            le::lemma_le_len(handle.0 as nat, 4);
        },
        FromClient::Message(body) => {},
        FromClient::EntityMessage { handle, body } => {
            le::lemma_le_len(handle.0 as nat, 4);
        },
        FromClient::Teleport { handle, at } => {
            le::lemma_le_len(handle.0 as nat, 4);
            lemma_world(at);
        },
        FromClient::TeleportInto { handle, region, at } => {
            le::lemma_le_len(handle.0 as nat, 4);
            le::lemma_le_len(region.0 as nat, 4);
            lemma_world(at);
        },
    }
}

/// A message a client may send is taken, and only a message that says the same
/// thing is written the same way: what is read back is what was written.
pub proof fn law_client_messages_round_trip(m: FromClient, back: FromClient)
    requires
        m.sendable(),
        back.sendable(),
        back.wire() == m.wire(),
    ensures
        FromClient::refusal(m.wire()) is None,
        back.same(m),
{
    lemma_client_accepted(m);
    lemma_client_shape(m);
    lemma_client_shape(back);
    let w = m.wire();
    match (m, back) {
        (
            FromClient::Spawn { handle: h, position: p, kind: k },
            FromClient::Spawn { handle: i, position: q, kind: l },
        ) => {
            let (a, b) = (le::le_bytes(h.0 as nat, 4), le::le_bytes(i.0 as nat, 4));
            le::lemma_le_len(h.0 as nat, 4);
            le::lemma_le_len(i.0 as nat, 4);
            lemma_world(p);
            lemma_world(q);
            le::lemma_same_front(
                seq![KIND_SPAWN],
                a + world_bytes(p) + region::kind_bytes(k),
                seq![KIND_SPAWN],
                b + world_bytes(q) + region::kind_bytes(l),
            );
            le::lemma_same_front(
                a + world_bytes(p),
                region::kind_bytes(k),
                b + world_bytes(q),
                region::kind_bytes(l),
            );
            le::lemma_same_front(a, world_bytes(p), b, world_bytes(q));
            le::lemma_u32_injective(h.0, i.0);
            lemma_world_injective(p, q);
            region::lemma_kind_injective(k, l);
        },
        (
            FromClient::SpawnInto { handle: h, region: r, position: p, kind: k },
            FromClient::SpawnInto { handle: i, region: s, position: q, kind: l },
        ) => {
            let (a, b) = (le::le_bytes(h.0 as nat, 4), le::le_bytes(i.0 as nat, 4));
            let (c, d) = (le::le_bytes(r.0 as nat, 4), le::le_bytes(s.0 as nat, 4));
            le::lemma_le_len(h.0 as nat, 4);
            le::lemma_le_len(i.0 as nat, 4);
            le::lemma_le_len(r.0 as nat, 4);
            le::lemma_le_len(s.0 as nat, 4);
            lemma_world(p);
            lemma_world(q);
            le::lemma_same_front(
                seq![KIND_SPAWN_INTO],
                a + c + world_bytes(p) + region::kind_bytes(k),
                seq![KIND_SPAWN_INTO],
                b + d + world_bytes(q) + region::kind_bytes(l),
            );
            le::lemma_same_front(
                a + c + world_bytes(p),
                region::kind_bytes(k),
                b + d + world_bytes(q),
                region::kind_bytes(l),
            );
            le::lemma_same_front(a + c, world_bytes(p), b + d, world_bytes(q));
            le::lemma_same_front(a, c, b, d);
            le::lemma_u32_injective(h.0, i.0);
            le::lemma_u32_injective(r.0, s.0);
            lemma_world_injective(p, q);
            region::lemma_kind_injective(k, l);
        },
        (
            FromClient::Move { handle: h, position: p },
            FromClient::Move { handle: i, position: q },
        ) => {
            lemma_placed_injective(KIND_MOVE, h, p, i, q);
        },
        (FromClient::Moves(x), FromClient::Moves(y)) => {
            let (a, b) = (le::le_bytes(x@.len(), 4), le::le_bytes(y@.len(), 4));
            le::lemma_le_len(x@.len(), 4);
            le::lemma_le_len(y@.len(), 4);
            le::lemma_same_front(
                seq![KIND_MOVES],
                a + moves_bytes(x@),
                seq![KIND_MOVES],
                b + moves_bytes(y@),
            );
            le::lemma_same_front(a, moves_bytes(x@), b, moves_bytes(y@));
            le::lemma_span();
            le::lemma_le_injective(x@.len(), y@.len(), 4);
            lemma_moves_injective(x@, y@);
        },
        (FromClient::Despawn { handle: h }, FromClient::Despawn { handle: i }) => {
            le::lemma_same_front(
                seq![KIND_DESPAWN],
                le::le_bytes(h.0 as nat, 4),
                seq![KIND_DESPAWN],
                le::le_bytes(i.0 as nat, 4),
            );
            le::lemma_u32_injective(h.0, i.0);
        },
        (FromClient::Message(x), FromClient::Message(y)) => {
            le::lemma_same_front(seq![KIND_MESSAGE], x@, seq![KIND_MESSAGE], y@);
        },
        (
            FromClient::EntityMessage { handle: h, body: x },
            FromClient::EntityMessage { handle: i, body: y },
        ) => {
            let (a, b) = (le::le_bytes(h.0 as nat, 4), le::le_bytes(i.0 as nat, 4));
            le::lemma_le_len(h.0 as nat, 4);
            le::lemma_le_len(i.0 as nat, 4);
            le::lemma_same_front(
                seq![KIND_ENTITY_MESSAGE],
                a + x@,
                seq![KIND_ENTITY_MESSAGE],
                b + y@,
            );
            le::lemma_same_front(a, x@, b, y@);
            le::lemma_u32_injective(h.0, i.0);
        },
        (
            FromClient::Teleport { handle: h, at: p },
            FromClient::Teleport { handle: i, at: q },
        ) => {
            lemma_placed_injective(KIND_TELEPORT, h, p, i, q);
        },
        (
            FromClient::TeleportInto { handle: h, region: r, at: p },
            FromClient::TeleportInto { handle: i, region: s, at: q },
        ) => {
            let (a, b) = (le::le_bytes(h.0 as nat, 4), le::le_bytes(i.0 as nat, 4));
            let (c, d) = (le::le_bytes(r.0 as nat, 4), le::le_bytes(s.0 as nat, 4));
            le::lemma_le_len(h.0 as nat, 4);
            le::lemma_le_len(i.0 as nat, 4);
            le::lemma_le_len(r.0 as nat, 4);
            le::lemma_le_len(s.0 as nat, 4);
            le::lemma_same_front(
                seq![KIND_TELEPORT_INTO],
                a + c + world_bytes(p),
                seq![KIND_TELEPORT_INTO],
                b + d + world_bytes(q),
            );
            le::lemma_same_front(a + c, world_bytes(p), b + d, world_bytes(q));
            le::lemma_same_front(a, c, b, d);
            le::lemma_u32_injective(h.0, i.0);
            le::lemma_u32_injective(r.0, s.0);
            lemma_world_injective(p, q);
        },
        _ => {
            assert(client_kind(m) == client_kind(back));
        },
    }
}

/// A handle and a position are read back as they were written.
proof fn lemma_placed_injective(
    kind: u8,
    h: EntityHandle,
    p: WorldPos,
    i: EntityHandle,
    q: WorldPos,
)
    requires
        seq![kind] + (le::le_bytes(h.0 as nat, 4) + world_bytes(p)) == seq![kind] + (le::le_bytes(
            i.0 as nat,
            4,
        ) + world_bytes(q)),
    ensures
        h == i,
        p == q,
{
    let (a, b) = (le::le_bytes(h.0 as nat, 4), le::le_bytes(i.0 as nat, 4));
    le::lemma_le_len(h.0 as nat, 4);
    le::lemma_le_len(i.0 as nat, 4);
    le::lemma_same_front(seq![kind], a + world_bytes(p), seq![kind], b + world_bytes(q));
    le::lemma_same_front(a, world_bytes(p), b, world_bytes(q));
    le::lemma_u32_injective(h.0, i.0);
    lemma_world_injective(p, q);
}

/// A message a client may send is not refused.
proof fn lemma_client_accepted(m: FromClient)
    requires
        m.sendable(),
    ensures
        FromClient::refusal(m.wire()) is None,
{
    lemma_client_shape(m);
    let w = m.wire();
    let body = w.skip(1);
    match m {
        FromClient::Spawn { handle, position, kind } => {
            le::lemma_le_len(handle.0 as nat, 4);
            lemma_world(position);
            assert(body[28] == kind.role_byte());
        },
        FromClient::SpawnInto { handle, region, position, kind } => {
            le::lemma_le_len(handle.0 as nat, 4);
            le::lemma_le_len(region.0 as nat, 4);
            lemma_world(position);
            assert(body[32] == kind.role_byte());
        },
        FromClient::Moves(moves) => {
            le::lemma_le_len(moves@.len(), 4);
            assert(body.take(4) =~= le::le_bytes(moves@.len(), 4));
            le::lemma_span();
            le::lemma_from_le_of_le(moves@.len(), 4);
        },
        _ => {},
    }
}

/// A client message cut short is refused, unless it is the game's own bytes,
/// which have no shape: a shorter run of those is a shorter message.
pub proof fn law_a_truncated_client_message_is_refused(m: FromClient, cut: int)
    requires
        m.sendable(),
        0 <= cut < m.wire().len(),
        !(m is Message),
        m is EntityMessage ==> cut < 5,
    ensures
        FromClient::refusal(m.wire().take(cut)) is Some,
{
    lemma_client_shape(m);
    let w = m.wire();
    let t = w.take(cut);
    if cut > 0 {
        assert(t[0] == w[0]);
        assert(t.skip(1).len() == cut - 1);
        if let FromClient::Moves(moves) = m {
            le::lemma_le_len(moves@.len(), 4);
            le::lemma_span();
            le::lemma_from_le_of_le(moves@.len(), 4);
            if cut >= 5 {
                assert(t.skip(1).take(4) =~= le::le_bytes(moves@.len(), 4));
            }
        }
    }
}

/// A byte too many and a client message is refused, unless it is the game's
/// own bytes.
pub proof fn law_trailing_client_bytes_are_refused(m: FromClient, extra: u8)
    requires
        m.sendable(),
        !(m is Message),
        !(m is EntityMessage),
    ensures
        FromClient::refusal(m.wire().push(extra)) is Some,
{
    lemma_client_shape(m);
    let w = m.wire();
    let t = w.push(extra);
    assert(t[0] == w[0]);
    assert(t.skip(1).len() == w.len());
    if let FromClient::Moves(moves) = m {
        le::lemma_le_len(moves@.len(), 4);
        le::lemma_span();
        le::lemma_from_le_of_le(moves@.len(), 4);
        assert(t.skip(1).take(4) =~= le::le_bytes(moves@.len(), 4));
    }
}

/// A full batch of moves fits one datagram.
pub proof fn law_a_full_batch_fits_a_datagram(m: FromClient)
    requires
        m is Moves,
        m.sendable(),
    ensures
        m.wire().len() <= 1200,
{
    lemma_client_shape(m);
}

/// The kind byte of an edge's message.
pub open spec fn edge_kind(m: ToClient<'_>) -> u8 {
    match m {
        ToClient::Region(_) => KIND_REGION,
        ToClient::Spawned { .. } => KIND_SPAWNED,
        ToClient::Removed { .. } => KIND_REMOVED,
        ToClient::State { .. } => KIND_STATE,
        ToClient::Message(_) => KIND_MESSAGE,
        ToClient::Teleported { .. } => KIND_TELEPORTED,
        ToClient::TeleportFailed { .. } => KIND_TELEPORT_FAILED,
    }
}

/// How long an edge's message is.
pub open spec fn edge_len(m: ToClient<'_>) -> nat {
    match m {
        ToClient::Region(_) => 22,
        ToClient::Spawned { .. } => 13,
        ToClient::Removed { .. } => 5,
        ToClient::State { handle, region, packet } => 9 + packet@.len(),
        ToClient::Message(body) => 1 + body@.len(),
        ToClient::Teleported { .. } => 9,
        ToClient::TeleportFailed { .. } => 9,
    }
}

/// What a client is told about a region is 21 bytes, its flag the thirteenth.
proof fn lemma_info(info: EdgeInfo)
    ensures
        info_bytes(info).len() == 21,
        info_bytes(info)[12] == if info.placement is Some {
            1u8
        } else {
            0u8
        },
{
    let at = match info.placement {
        Some(p) => p,
        None => Placement { col: 0, row: 0 },
    };
    le::lemma_le_len(info.region.0 as nat, 4);
    le::lemma_le_i32(info.region_size_m);
    le::lemma_le_i32(info.vertical_extent_m);
    le::lemma_le_i32(at.col);
    le::lemma_le_i32(at.row);
}

/// An edge's message opens with its kind and is as long as its shape says.
proof fn lemma_edge_shape(m: ToClient<'_>)
    ensures
        m.wire().len() == edge_len(m),
        m.wire()[0] == edge_kind(m),
{
    match m {
        ToClient::Region(info) => {
            lemma_info(info);
        },
        ToClient::Spawned { handle, region, entity } => {
            le::lemma_le_len(handle.0 as nat, 4);
            le::lemma_le_len(region.0 as nat, 4);
            le::lemma_le_len(entity.0 as nat, 4);
        },
        ToClient::Removed { handle } => {
            le::lemma_le_len(handle.0 as nat, 4);
        },
        ToClient::State { handle, region, packet } => {
            le::lemma_le_len(handle.0 as nat, 4);
            le::lemma_le_len(region.0 as nat, 4);
        },
        ToClient::Message(body) => {},
        ToClient::Teleported { handle, region } => {
            le::lemma_le_len(handle.0 as nat, 4);
            le::lemma_le_len(region.0 as nat, 4);
        },
        ToClient::TeleportFailed { handle, region } => {
            le::lemma_le_len(handle.0 as nat, 4);
            le::lemma_le_len(region.0 as nat, 4);
        },
    }
}

/// What a client is told about a region is read back as it was written.
proof fn lemma_info_injective(x: EdgeInfo, y: EdgeInfo)
    requires
        info_bytes(x) == info_bytes(y),
    ensures
        x == y,
{
    lemma_info(x);
    lemma_info(y);
    let p = match x.placement {
        Some(p) => p,
        None => Placement { col: 0, row: 0 },
    };
    let q = match y.placement {
        Some(p) => p,
        None => Placement { col: 0, row: 0 },
    };
    le::lemma_le_len(x.region.0 as nat, 4);
    le::lemma_le_len(y.region.0 as nat, 4);
    le::lemma_le_i32(x.region_size_m);
    le::lemma_le_i32(y.region_size_m);
    le::lemma_le_i32(x.vertical_extent_m);
    le::lemma_le_i32(y.vertical_extent_m);
    le::lemma_le_i32(p.col);
    le::lemma_le_i32(q.col);
    le::lemma_le_i32(p.row);
    le::lemma_le_i32(q.row);
    let (a0, b0) = (le::le_bytes(x.region.0 as nat, 4), le::le_bytes(y.region.0 as nat, 4));
    let (a1, b1) = (a0 + le::le_i32(x.region_size_m), b0 + le::le_i32(y.region_size_m));
    let (a2, b2) = (
        a1 + le::le_i32(x.vertical_extent_m),
        b1 + le::le_i32(y.vertical_extent_m),
    );
    let (f, g) = (
        seq![
            if x.placement is Some {
                1u8
            } else {
                0u8
            },
        ],
        seq![
            if y.placement is Some {
                1u8
            } else {
                0u8
            },
        ],
    );
    le::lemma_same_back(
        a2 + f + le::le_i32(p.col),
        le::le_i32(p.row),
        b2 + g + le::le_i32(q.col),
        le::le_i32(q.row),
    );
    le::lemma_same_back(a2 + f, le::le_i32(p.col), b2 + g, le::le_i32(q.col));
    le::lemma_same_back(a2, f, b2, g);
    le::lemma_same_back(
        a1,
        le::le_i32(x.vertical_extent_m),
        b1,
        le::le_i32(y.vertical_extent_m),
    );
    le::lemma_same_back(a0, le::le_i32(x.region_size_m), b0, le::le_i32(y.region_size_m));
    le::lemma_u32_injective(x.region.0, y.region.0);
}

/// An edge's message is taken, and only a message that says the same thing is
/// written the same way: what is read back is what was written.
pub proof fn law_edge_messages_round_trip(m: ToClient<'_>, back: ToClient<'_>)
    requires
        back.wire() == rewritten(m.wire()),
    ensures
        ToClient::refusal(m.wire()) is None,
        rewritten(m.wire()) == m.wire(),
        back.same(m),
{
    lemma_edge_shape(m);
    lemma_edge_shape(back);
    let w = m.wire();
    if let ToClient::Region(info) = m {
        lemma_info(info);
        assert(w.skip(1) =~= info_bytes(info));
        assert(w[13] == info_bytes(info)[12]);
        if info.placement is None {
            le::lemma_le_i32(0);
            assert(w.take(14) + le::le_i32(0) + le::le_i32(0) =~= w) by {
                let h = le::le_bytes(info.region.0 as nat, 4) + le::le_i32(info.region_size_m)
                    + le::le_i32(info.vertical_extent_m) + seq![0u8];
                le::lemma_le_len(info.region.0 as nat, 4);
                le::lemma_le_i32(info.region_size_m);
                le::lemma_le_i32(info.vertical_extent_m);
                assert(w.take(14) =~= seq![KIND_REGION] + h);
            }
        }
    }
    match (m, back) {
        (ToClient::Region(x), ToClient::Region(y)) => {
            le::lemma_same_front(
                seq![KIND_REGION],
                info_bytes(x),
                seq![KIND_REGION],
                info_bytes(y),
            );
            lemma_info_injective(x, y);
        },
        (
            ToClient::Spawned { handle: h, region: r, entity: e },
            ToClient::Spawned { handle: i, region: s, entity: f },
        ) => {
            lemma_named_injective(
                KIND_SPAWNED,
                h,
                r,
                le::le_bytes(e.0 as nat, 4),
                i,
                s,
                le::le_bytes(f.0 as nat, 4),
            );
            le::lemma_u32_injective(e.0, f.0);
        },
        (ToClient::Removed { handle: h }, ToClient::Removed { handle: i }) => {
            le::lemma_same_front(
                seq![KIND_REMOVED],
                le::le_bytes(h.0 as nat, 4),
                seq![KIND_REMOVED],
                le::le_bytes(i.0 as nat, 4),
            );
            le::lemma_u32_injective(h.0, i.0);
        },
        (
            ToClient::State { handle: h, region: r, packet: x },
            ToClient::State { handle: i, region: s, packet: y },
        ) => {
            lemma_named_injective(KIND_STATE, h, r, x@, i, s, y@);
        },
        (ToClient::Message(x), ToClient::Message(y)) => {
            le::lemma_same_front(seq![KIND_MESSAGE], x@, seq![KIND_MESSAGE], y@);
        },
        (
            ToClient::Teleported { handle: h, region: r },
            ToClient::Teleported { handle: i, region: s },
        ) => {
            lemma_bare_injective(KIND_TELEPORTED, h, r, i, s);
        },
        (
            ToClient::TeleportFailed { handle: h, region: r },
            ToClient::TeleportFailed { handle: i, region: s },
        ) => {
            lemma_bare_injective(KIND_TELEPORT_FAILED, h, r, i, s);
        },
        _ => {
            assert(edge_kind(m) == edge_kind(back));
        },
    }
}

/// A handle, a region and a tail are read back as they were written.
proof fn lemma_named_injective(
    kind: u8,
    h: EntityHandle,
    r: RegionId,
    x: Seq<u8>,
    i: EntityHandle,
    s: RegionId,
    y: Seq<u8>,
)
    requires
        seq![kind] + (le::le_bytes(h.0 as nat, 4) + le::le_bytes(r.0 as nat, 4) + x) == seq![kind]
            + (le::le_bytes(i.0 as nat, 4) + le::le_bytes(s.0 as nat, 4) + y),
    ensures
        h == i,
        r == s,
        x == y,
{
    let (a, b) = (le::le_bytes(h.0 as nat, 4), le::le_bytes(i.0 as nat, 4));
    let (c, d) = (le::le_bytes(r.0 as nat, 4), le::le_bytes(s.0 as nat, 4));
    le::lemma_le_len(h.0 as nat, 4);
    le::lemma_le_len(i.0 as nat, 4);
    le::lemma_le_len(r.0 as nat, 4);
    le::lemma_le_len(s.0 as nat, 4);
    le::lemma_same_front(seq![kind], a + c + x, seq![kind], b + d + y);
    le::lemma_same_front(a + c, x, b + d, y);
    le::lemma_same_front(a, c, b, d);
    le::lemma_u32_injective(h.0, i.0);
    le::lemma_u32_injective(r.0, s.0);
}

/// A handle and a region are read back as they were written.
proof fn lemma_bare_injective(
    kind: u8,
    h: EntityHandle,
    r: RegionId,
    i: EntityHandle,
    s: RegionId,
)
    requires
        seq![kind] + (le::le_bytes(h.0 as nat, 4) + le::le_bytes(r.0 as nat, 4)) == seq![kind] + (
        le::le_bytes(i.0 as nat, 4) + le::le_bytes(s.0 as nat, 4)),
    ensures
        h == i,
        r == s,
{
    let (a, b) = (le::le_bytes(h.0 as nat, 4), le::le_bytes(i.0 as nat, 4));
    let (c, d) = (le::le_bytes(r.0 as nat, 4), le::le_bytes(s.0 as nat, 4));
    le::lemma_le_len(h.0 as nat, 4);
    le::lemma_le_len(i.0 as nat, 4);
    le::lemma_same_front(seq![kind], a + c, seq![kind], b + d);
    le::lemma_same_front(a, c, b, d);
    le::lemma_u32_injective(h.0, i.0);
    le::lemma_u32_injective(r.0, s.0);
}

/// A message going the wrong way is refused, unless it is the game's own
/// bytes, the only kind that travels both ways.
pub proof fn law_a_message_going_the_wrong_way_is_refused(up: FromClient, down: ToClient<'_>)
    ensures
        !(up is Message) ==> ToClient::refusal(up.wire()) is Some,
        !(down is Message) ==> FromClient::refusal(down.wire()) is Some,
{
    lemma_client_shape(up);
    lemma_edge_shape(down);
}

/// A state message's packet is the end of what it was read from.
pub proof fn lemma_state_packet(
    m: ToClient<'_>,
    handle: EntityHandle,
    region: RegionId,
    packet: Seq<u8>,
    frame: Seq<u8>,
)
    requires
        m matches ToClient::State { handle: h, region: r, packet: p } && h == handle && r == region
            && p@ == packet,
        m.wire() == rewritten(frame),
        ToClient::refusal(frame) is None,
    ensures
        packet.len() <= frame.len(),
        frame.skip(frame.len() - packet.len()) == packet,
{
    let head = le::le_bytes(handle.0 as nat, 4) + le::le_bytes(region.0 as nat, 4);
    le::lemma_le_len(handle.0 as nat, 4);
    le::lemma_le_len(region.0 as nat, 4);
    assert(m.wire() =~= seq![KIND_STATE] + (head + packet));
    assert(m.wire()[0] == KIND_STATE);
    assert(frame == m.wire());
    assert(frame.skip(frame.len() - packet.len()) =~= packet);
}

// ---------------------------------------------------------------------------
// Where each field is
// ---------------------------------------------------------------------------

/// Whether eight bytes an axis at a place in a message hold a world position.
pub open spec fn holds_world(s: Seq<u8>, at: int, p: WorldPos) -> bool {
    &&& le::holds_i64(s, at, p.x)
    &&& le::holds_i64(s, at + 8, p.y)
    &&& le::holds_i64(s, at + 16, p.z)
}

proof fn lemma_holds_world(s: Seq<u8>, at: int, p: WorldPos)
    requires
        0 <= at,
        at + 24 <= s.len(),
        s.subrange(at, at + 24) == world_bytes(p),
    ensures
        holds_world(s, at, p),
{
    let b = s.subrange(at, at + 24);
    le::lemma_span();
    le::lemma_le_i64(p.x);
    le::lemma_le_i64(p.y);
    le::lemma_le_i64(p.z);
    assert(b.subrange(0, 8) =~= le::le_i64(p.x));
    assert(b.subrange(8, 16) =~= le::le_i64(p.y));
    assert(b.subrange(16, 24) =~= le::le_i64(p.z));
    assert(s.subrange(at, at + 8) =~= b.subrange(0, 8));
    assert(s.subrange(at + 8, at + 16) =~= b.subrange(8, 16));
    assert(s.subrange(at + 16, at + 24) =~= b.subrange(16, 24));
    le::lemma_holds(s, at, 8, le::bits64(p.x));
    le::lemma_holds(s, at + 8, 8, le::bits64(p.y));
    le::lemma_holds(s, at + 16, 8, le::bits64(p.z));
}

/// The role byte of what is behind an entity.
pub open spec fn role_number(kind: EntityKind) -> u8 {
    match kind.role {
        Role::Unattended => 0,
        Role::Observer => 1,
        Role::Shadow => 2,
    }
}

/// What a client sends: one byte of which message it is; the handle it is
/// about, in four bytes; the region it names, if it names one, in four; the
/// position, in eight bytes an axis; and for a spawn the role, in one byte, and
/// the tag, in two. A message's own bytes come last, as they are.
pub proof fn law_client_messages_are_laid_out_in_order(m: FromClient, k: int)
    requires
        m matches FromClient::Moves(moves) ==> moves@.len() <= u32::MAX,
    ensures
        ({
            let b = m.wire();
            match m {
                FromClient::Spawn { handle, position, kind } => {
                    &&& b.len() == 32 && b[0] == 1
                    &&& le::holds(b, 1, 4, handle.0 as int)
                    &&& holds_world(b, 5, position)
                    &&& b[29] == role_number(kind)
                    &&& le::holds(b, 30, 2, kind.tag as int)
                },
                FromClient::SpawnInto { handle, region, position, kind } => {
                    &&& b.len() == 36 && b[0] == 15
                    &&& le::holds(b, 1, 4, handle.0 as int)
                    &&& le::holds(b, 5, 4, region.0 as int)
                    &&& holds_world(b, 9, position)
                    &&& b[33] == role_number(kind)
                    &&& le::holds(b, 34, 2, kind.tag as int)
                },
                FromClient::Move { handle, position } => {
                    &&& b.len() == 29 && b[0] == 2
                    &&& le::holds(b, 1, 4, handle.0 as int)
                    &&& holds_world(b, 5, position)
                },
                FromClient::Moves(moves) => {
                    &&& b.len() == 5 + 28 * moves@.len() && b[0] == 9
                    &&& le::holds(b, 1, 4, moves@.len() as int)
                    &&& 0 <= k < moves@.len() ==> le::holds(
                        b,
                        5 + 28 * k,
                        4,
                        moves@[k].0.0 as int,
                    ) && holds_world(b, 9 + 28 * k, moves@[k].1)
                },
                FromClient::Despawn { handle } => {
                    &&& b.len() == 5 && b[0] == 3
                    &&& le::holds(b, 1, 4, handle.0 as int)
                },
                FromClient::Message(body) => {
                    &&& b.len() == 1 + body@.len() && b[0] == 7
                    &&& b.skip(1) == body@
                },
                FromClient::EntityMessage { handle, body } => {
                    &&& b.len() == 5 + body@.len() && b[0] == 13
                    &&& le::holds(b, 1, 4, handle.0 as int)
                    &&& b.skip(5) == body@
                },
                FromClient::Teleport { handle, at } => {
                    &&& b.len() == 29 && b[0] == 10
                    &&& le::holds(b, 1, 4, handle.0 as int)
                    &&& holds_world(b, 5, at)
                },
                FromClient::TeleportInto { handle, region, at } => {
                    &&& b.len() == 33 && b[0] == 14
                    &&& le::holds(b, 1, 4, handle.0 as int)
                    &&& le::holds(b, 5, 4, region.0 as int)
                    &&& holds_world(b, 9, at)
                },
            }
        }),
{
    let b = m.wire();
    le::lemma_span();
    match m {
        FromClient::Spawn { handle, position, kind } => {
            le::lemma_le_len(handle.0 as nat, 4);
            le::lemma_le_len(kind.tag as nat, 2);
            lemma_world(position);
            assert(b.subrange(1, 5) =~= le::le_bytes(handle.0 as nat, 4));
            assert(b.subrange(5, 29) =~= world_bytes(position));
            assert(b.subrange(30, 32) =~= le::le_bytes(kind.tag as nat, 2));
            le::lemma_holds(b, 1, 4, handle.0 as nat);
            lemma_holds_world(b, 5, position);
            le::lemma_holds(b, 30, 2, kind.tag as nat);
        },
        FromClient::SpawnInto { handle, region, position, kind } => {
            le::lemma_le_len(handle.0 as nat, 4);
            le::lemma_le_len(region.0 as nat, 4);
            le::lemma_le_len(kind.tag as nat, 2);
            lemma_world(position);
            assert(b.subrange(1, 5) =~= le::le_bytes(handle.0 as nat, 4));
            assert(b.subrange(5, 9) =~= le::le_bytes(region.0 as nat, 4));
            assert(b.subrange(9, 33) =~= world_bytes(position));
            assert(b.subrange(34, 36) =~= le::le_bytes(kind.tag as nat, 2));
            le::lemma_holds(b, 1, 4, handle.0 as nat);
            le::lemma_holds(b, 5, 4, region.0 as nat);
            lemma_holds_world(b, 9, position);
            le::lemma_holds(b, 34, 2, kind.tag as nat);
        },
        FromClient::Move { handle, position } => {
            le::lemma_le_len(handle.0 as nat, 4);
            lemma_world(position);
            assert(b.subrange(1, 5) =~= le::le_bytes(handle.0 as nat, 4));
            assert(b.subrange(5, 29) =~= world_bytes(position));
            le::lemma_holds(b, 1, 4, handle.0 as nat);
            lemma_holds_world(b, 5, position);
        },
        FromClient::Moves(moves) => {
            le::lemma_le_len(moves@.len(), 4);
            lemma_moves_len(moves@);
            assert(b.subrange(1, 5) =~= le::le_bytes(moves@.len(), 4));
            le::lemma_holds(b, 1, 4, moves@.len());
            if 0 <= k < moves@.len() {
                lemma_move_at(moves@, k);
                let one = moves_bytes(moves@).subrange(28 * k, 28 * k + 28);
                le::lemma_le_len(moves@[k].0.0 as nat, 4);
                lemma_world(moves@[k].1);
                assert(b.subrange(5 + 28 * k, 9 + 28 * k) =~= one.subrange(0, 4));
                assert(b.subrange(9 + 28 * k, 33 + 28 * k) =~= one.subrange(4, 28));
                assert(one.subrange(0, 4) =~= le::le_bytes(moves@[k].0.0 as nat, 4));
                assert(one.subrange(4, 28) =~= world_bytes(moves@[k].1));
                le::lemma_holds(b, 5 + 28 * k, 4, moves@[k].0.0 as nat);
                lemma_holds_world(b, 9 + 28 * k, moves@[k].1);
            }
        },
        FromClient::Despawn { handle } => {
            le::lemma_le_len(handle.0 as nat, 4);
            assert(b.subrange(1, 5) =~= le::le_bytes(handle.0 as nat, 4));
            le::lemma_holds(b, 1, 4, handle.0 as nat);
        },
        FromClient::Message(body) => {
            assert(b.skip(1) =~= body@);
        },
        FromClient::EntityMessage { handle, body } => {
            le::lemma_le_len(handle.0 as nat, 4);
            assert(b.subrange(1, 5) =~= le::le_bytes(handle.0 as nat, 4));
            assert(b.skip(5) =~= body@);
            le::lemma_holds(b, 1, 4, handle.0 as nat);
        },
        FromClient::Teleport { handle, at } => {
            le::lemma_le_len(handle.0 as nat, 4);
            lemma_world(at);
            assert(b.subrange(1, 5) =~= le::le_bytes(handle.0 as nat, 4));
            assert(b.subrange(5, 29) =~= world_bytes(at));
            le::lemma_holds(b, 1, 4, handle.0 as nat);
            lemma_holds_world(b, 5, at);
        },
        FromClient::TeleportInto { handle, region, at } => {
            le::lemma_le_len(handle.0 as nat, 4);
            le::lemma_le_len(region.0 as nat, 4);
            lemma_world(at);
            assert(b.subrange(1, 5) =~= le::le_bytes(handle.0 as nat, 4));
            assert(b.subrange(5, 9) =~= le::le_bytes(region.0 as nat, 4));
            assert(b.subrange(9, 33) =~= world_bytes(at));
            le::lemma_holds(b, 1, 4, handle.0 as nat);
            le::lemma_holds(b, 5, 4, region.0 as nat);
            lemma_holds_world(b, 9, at);
        },
    }
}

proof fn lemma_move_at(moves: Seq<(EntityHandle, WorldPos)>, k: int)
    requires
        0 <= k < moves.len(),
    ensures
        moves_bytes(moves).len() == 28 * moves.len(),
        moves_bytes(moves).subrange(28 * k, 28 * k + 28) == le::le_bytes(
            moves[k].0.0 as nat,
            4,
        ) + world_bytes(moves[k].1),
    decreases moves.len(),
{
    let front = moves.drop_last();
    let last = moves.last();
    lemma_moves_len(moves);
    lemma_moves_len(front);
    le::lemma_le_len(last.0.0 as nat, 4);
    lemma_world(last.1);
    if k < front.len() {
        lemma_move_at(front, k);
        assert(moves_bytes(moves).subrange(28 * k, 28 * k + 28) =~= moves_bytes(front).subrange(
            28 * k,
            28 * k + 28,
        ));
    } else {
        assert(moves_bytes(moves).subrange(28 * k, 28 * k + 28) =~= le::le_bytes(
            last.0.0 as nat,
            4,
        ) + world_bytes(last.1));
    }
}

/// What an edge sends: one byte of which message it is, then, in four bytes
/// each, the handle it is about, the region, and the entity's id there, as far
/// as it speaks of them; what it carries comes last, as it is. A region's own
/// description is its id, its two extents in metres, whether it is placed, and
/// the square it is placed in.
pub proof fn law_edge_messages_are_laid_out_in_order(m: ToClient<'_>)
    ensures
        ({
            let b = m.wire();
            match m {
                ToClient::Region(info) => {
                    &&& b.len() == 22 && b[0] == 8
                    &&& le::holds(b, 1, 4, info.region.0 as int)
                    &&& le::holds_i32(b, 5, info.region_size_m)
                    &&& le::holds_i32(b, 9, info.vertical_extent_m)
                    &&& match info.placement {
                        Some(p) => b[13] == 1 && le::holds_i32(b, 14, p.col) && le::holds_i32(
                            b,
                            18,
                            p.row,
                        ),
                        None => b[13] == 0 && le::holds_i32(b, 14, 0) && le::holds_i32(b, 18, 0),
                    }
                },
                ToClient::Spawned { handle, region, entity } => {
                    &&& b.len() == 13 && b[0] == 4
                    &&& le::holds(b, 1, 4, handle.0 as int)
                    &&& le::holds(b, 5, 4, region.0 as int)
                    &&& le::holds(b, 9, 4, entity.0 as int)
                },
                ToClient::Removed { handle } => {
                    &&& b.len() == 5 && b[0] == 5
                    &&& le::holds(b, 1, 4, handle.0 as int)
                },
                ToClient::State { handle, region, packet } => {
                    &&& b.len() == 9 + packet@.len() && b[0] == 6
                    &&& le::holds(b, 1, 4, handle.0 as int)
                    &&& le::holds(b, 5, 4, region.0 as int)
                    &&& b.skip(9) == packet@
                },
                ToClient::Message(body) => {
                    &&& b.len() == 1 + body@.len() && b[0] == 7
                    &&& b.skip(1) == body@
                },
                ToClient::Teleported { handle, region } => {
                    &&& b.len() == 9 && b[0] == 11
                    &&& le::holds(b, 1, 4, handle.0 as int)
                    &&& le::holds(b, 5, 4, region.0 as int)
                },
                ToClient::TeleportFailed { handle, region } => {
                    &&& b.len() == 9 && b[0] == 12
                    &&& le::holds(b, 1, 4, handle.0 as int)
                    &&& le::holds(b, 5, 4, region.0 as int)
                },
            }
        }),
{
    let b = m.wire();
    le::lemma_span();
    match m {
        ToClient::Region(info) => {
            let at = match info.placement {
                Some(p) => p,
                None => Placement { col: 0, row: 0 },
            };
            le::lemma_le_len(info.region.0 as nat, 4);
            le::lemma_le_i32(info.region_size_m);
            le::lemma_le_i32(info.vertical_extent_m);
            le::lemma_le_i32(at.col);
            le::lemma_le_i32(at.row);
            assert(b.subrange(1, 5) =~= le::le_bytes(info.region.0 as nat, 4));
            assert(b.subrange(5, 9) =~= le::le_i32(info.region_size_m));
            assert(b.subrange(9, 13) =~= le::le_i32(info.vertical_extent_m));
            assert(b.subrange(14, 18) =~= le::le_i32(at.col));
            assert(b.subrange(18, 22) =~= le::le_i32(at.row));
            le::lemma_holds(b, 1, 4, info.region.0 as nat);
            le::lemma_holds(b, 5, 4, le::bits32(info.region_size_m));
            le::lemma_holds(b, 9, 4, le::bits32(info.vertical_extent_m));
            le::lemma_holds(b, 14, 4, le::bits32(at.col));
            le::lemma_holds(b, 18, 4, le::bits32(at.row));
        },
        ToClient::Spawned { handle, region, entity } => {
            le::lemma_le_len(handle.0 as nat, 4);
            le::lemma_le_len(region.0 as nat, 4);
            le::lemma_le_len(entity.0 as nat, 4);
            assert(b.subrange(1, 5) =~= le::le_bytes(handle.0 as nat, 4));
            assert(b.subrange(5, 9) =~= le::le_bytes(region.0 as nat, 4));
            assert(b.subrange(9, 13) =~= le::le_bytes(entity.0 as nat, 4));
            le::lemma_holds(b, 1, 4, handle.0 as nat);
            le::lemma_holds(b, 5, 4, region.0 as nat);
            le::lemma_holds(b, 9, 4, entity.0 as nat);
        },
        ToClient::Removed { handle } => {
            le::lemma_le_len(handle.0 as nat, 4);
            assert(b.subrange(1, 5) =~= le::le_bytes(handle.0 as nat, 4));
            le::lemma_holds(b, 1, 4, handle.0 as nat);
        },
        ToClient::State { handle, region, packet } => {
            le::lemma_le_len(handle.0 as nat, 4);
            le::lemma_le_len(region.0 as nat, 4);
            assert(b.subrange(1, 5) =~= le::le_bytes(handle.0 as nat, 4));
            assert(b.subrange(5, 9) =~= le::le_bytes(region.0 as nat, 4));
            assert(b.skip(9) =~= packet@);
            le::lemma_holds(b, 1, 4, handle.0 as nat);
            le::lemma_holds(b, 5, 4, region.0 as nat);
        },
        ToClient::Message(body) => {
            assert(b.skip(1) =~= body@);
        },
        ToClient::Teleported { handle, region } => {
            le::lemma_le_len(handle.0 as nat, 4);
            le::lemma_le_len(region.0 as nat, 4);
            assert(b.subrange(1, 5) =~= le::le_bytes(handle.0 as nat, 4));
            assert(b.subrange(5, 9) =~= le::le_bytes(region.0 as nat, 4));
            le::lemma_holds(b, 1, 4, handle.0 as nat);
            le::lemma_holds(b, 5, 4, region.0 as nat);
        },
        ToClient::TeleportFailed { handle, region } => {
            le::lemma_le_len(handle.0 as nat, 4);
            le::lemma_le_len(region.0 as nat, 4);
            assert(b.subrange(1, 5) =~= le::le_bytes(handle.0 as nat, 4));
            assert(b.subrange(5, 9) =~= le::le_bytes(region.0 as nat, 4));
            le::lemma_holds(b, 1, 4, handle.0 as nat);
            le::lemma_holds(b, 5, 4, region.0 as nat);
        },
    }
}

} // verus!
