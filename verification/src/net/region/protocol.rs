//! The messages on the region-to-edge link.
//!
//! A message belongs to the protocol, not to whichever end happens to send it.
//! Each is named for what it carries.
//!
//! NATS delivers whole messages, so there is no framing here: a message is a
//! one-byte kind followed by its body. Which subject it arrived on says which
//! direction it traveled and, for a command, which edge sent it.

use vstd::prelude::*;
use vstd::slice::slice_to_vec;

use crate::config;
use crate::config::{World, WorldConfig, WorldConfigBuilder, MAX_CELLS_PER_AXIS};
use crate::entity::{EntityId, EntityKind, Role};
use crate::fixed;
use crate::fixed::Fixed;
use crate::id::RegionId;
use crate::le;
use crate::le::{push_i32, push_u16, push_u32, push_u64, push_wide};
use crate::net::error::NetError;
use crate::net::version::{ProtocolVersion, ServerVersion};
use crate::net::wire::Cursor;
use crate::pos::Pos3;

verus! {

// ---------------------------------------------------------------------------
// Frame kinds
// ---------------------------------------------------------------------------

/// [`SpawnEntities`].
pub const KIND_SPAWN_ENTITIES: u8 = 1;

/// [`MoveEntities`].
pub const KIND_MOVE_ENTITIES: u8 = 2;

/// [`DespawnEntities`].
pub const KIND_DESPAWN_ENTITIES: u8 = 3;

/// An edge saying it is still there.
pub const KIND_KEEPALIVE: u8 = 4;

/// [`GameMessage`].
pub const KIND_GAME_MESSAGE: u8 = 5;

/// What this link calls a kind.
pub open spec fn name_of(kind: u8) -> &'static str {
    if kind == KIND_SPAWN_ENTITIES {
        "spawn entities"
    } else if kind == KIND_MOVE_ENTITIES {
        "move entities"
    } else if kind == KIND_DESPAWN_ENTITIES {
        "despawn entities"
    } else if kind == KIND_KEEPALIVE {
        "keepalive"
    } else if kind == KIND_GAME_MESSAGE {
        "game message"
    } else {
        "unknown"
    }
}

/// Names a frame kind for an error message, without echoing the peer's bytes.
pub fn kind_name(kind: u8) -> (name: &'static str)
    ensures
        name == name_of(kind),
{
    match kind {
        KIND_SPAWN_ENTITIES => "spawn entities",
        KIND_MOVE_ENTITIES => "move entities",
        KIND_DESPAWN_ENTITIES => "despawn entities",
        KIND_KEEPALIVE => "keepalive",
        KIND_GAME_MESSAGE => "game message",
        _ => "unknown",
    }
}

// ---------------------------------------------------------------------------
// Protocol version
// ---------------------------------------------------------------------------

/// What this build speaks. Exact match required, in both directions.
///
/// There is no negotiation and no compatibility window. Region and edge deploy
/// together, so a version skew is a deployment mistake to fail loudly on rather
/// than a condition to tolerate.
///
/// This versions the region-to-edge protocol only. The edge-to-game-client
/// protocol will carry its own, and the two are not required to move together.
pub fn protocol_version() -> (v: ProtocolVersion)
    ensures
        v == ProtocolVersion(1),
{
    ProtocolVersion::from_raw(1)
}

// ---------------------------------------------------------------------------
// World parameters
// ---------------------------------------------------------------------------

/// A [`WorldConfig`] reduced to what the builder authors, plus its digest.
///
/// A `WorldConfig` is mostly derived values, so carrying the five authored ones
/// and letting the other end derive the rest keeps one derivation rather than
/// two. Carrying the derived fields would mean a peer could hold a config this
/// crate's builder would never produce.
///
/// The five are whole meters because
/// [`WorldConfigBuilder`] takes whole meters, so nothing is lost in the round
/// trip for a config built through it. A config built some other way is caught
/// by the digest rather than silently approximated.
#[derive(Clone, Copy, Debug, PartialEq, Eq, Structural)]
pub struct WorldParams {
    /// The region's horizontal extent, in meters.
    pub region_size_m: i32,
    /// Its vertical extent, in meters.
    pub vertical_extent_m: i32,
    /// How far an observer sees, in meters.
    pub horizontal_view_radius_m: i32,
    /// The horizontal speed cap, in meters per second.
    pub max_horizontal_speed_m_per_sec: i32,
    /// Ticks per second.
    pub tick_hz: u32,
    /// [`WorldConfig::protocol_hash`] of the config these came from.
    pub protocol_hash: u64,
}

/// Whether so many meters fit fixed point.
fn fits(m: i32) -> (b: bool)
    ensures
        b == fixed::fits_i32(m * 1024),
{
    let raw: i64 = m as i64 * 1024;
    i32::MIN as i64 <= raw && raw <= i32::MAX as i64
}

impl WorldParams {
    /// Its width on the wire.
    pub const BYTES: usize = 28;

    /// The parameters of a world.
    pub open spec fn of(w: World) -> WorldParams {
        WorldParams {
            region_size_m: (w.region_size / 1024) as i32,
            vertical_extent_m: (w.vertical_extent / 1024) as i32,
            horizontal_view_radius_m: (w.view_radius / 1024) as i32,
            max_horizontal_speed_m_per_sec: (w.max_speed / 1024) as i32,
            tick_hz: w.tick_hz as u32,
            protocol_hash: w.protocol_hash(),
        }
    }

    /// The builder the five numbers set up.
    pub open spec fn builder(self) -> WorldConfigBuilder {
        WorldConfigBuilder {
            region_size: Some(Fixed((self.region_size_m * 1024) as i32)),
            vertical_extent: Some(Fixed((self.vertical_extent_m * 1024) as i32)),
            horizontal_view_radius: Some(Fixed((self.horizontal_view_radius_m * 1024) as i32)),
            max_horizontal_speed: Some(
                Fixed((self.max_horizontal_speed_m_per_sec * 1024) as i32),
            ),
            tick_hz: Some(self.tick_hz),
        }
    }

    /// Whether the five numbers are within what the fixed-point type and a
    /// region's count of cells can express.
    pub open spec fn expressible(self) -> bool {
        &&& fixed::fits_i32(self.region_size_m * 1024)
        &&& fixed::fits_i32(self.vertical_extent_m * 1024)
        &&& fixed::fits_i32(self.horizontal_view_radius_m * 1024)
        &&& fixed::fits_i32(self.max_horizontal_speed_m_per_sec * 1024)
        &&& self.builder().misshapen() is None ==> self.builder().world().cells_per_axis()
            <= MAX_CELLS_PER_AXIS
    }

    /// The parameters on the wire.
    pub open spec fn wire(self) -> Seq<u8> {
        le::le_i32(self.region_size_m) + le::le_i32(self.vertical_extent_m) + le::le_i32(
            self.horizontal_view_radius_m,
        ) + le::le_i32(self.max_horizontal_speed_m_per_sec) + le::le_bytes(self.tick_hz as nat, 4)
            + le::le_bytes(self.protocol_hash as nat, 8)
    }

    /// The five authored numbers, plus the digest of everything they imply.
    pub fn from_config(cfg: &WorldConfig) -> (p: WorldParams)
        ensures
            p == WorldParams::of(cfg@),
    {
        proof {
            use_type_invariant(cfg);
        }
        WorldParams {
            region_size_m: cfg.region_size().floor_meters(),
            vertical_extent_m: cfg.vertical_extent().floor_meters(),
            horizontal_view_radius_m: cfg.horizontal_view_radius().floor_meters(),
            max_horizontal_speed_m_per_sec: cfg.max_horizontal_speed().floor_meters(),
            tick_hz: cfg.tick_hz(),
            protocol_hash: cfg.protocol_hash(),
        }
    }

    /// Whether every length fits fixed point, and the cells can be counted.
    pub fn is_expressible(&self) -> (b: bool)
        ensures
            b == self.expressible(),
    {
        if !fits(self.region_size_m) || !fits(self.vertical_extent_m) || !fits(
            self.horizontal_view_radius_m,
        ) || !fits(self.max_horizontal_speed_m_per_sec) {
            return false;
        }
        WorldConfig::builder().region_size_m(self.region_size_m).vertical_extent_m(
            self.vertical_extent_m,
        ).horizontal_view_radius_m(
            self.horizontal_view_radius_m,
        ).max_horizontal_speed_m_per_sec(self.max_horizontal_speed_m_per_sec).tick_hz(
            self.tick_hz,
        ).countable()
    }

    /// Rebuilds the config, then checks it decodes packets the same way.
    ///
    /// Two distinct failures. [`NetError::Config`] means the parameters do not
    /// describe a valid world at all. [`NetError::ConfigMismatch`] means they
    /// build, but into a world whose wire layout differs from the region's,
    /// which is what would turn its packets into garbage on this side.
    pub fn to_config(&self) -> (r: Result<WorldConfig, NetError>)
        requires
            self.expressible(),
        ensures
            match r {
                Ok(cfg) => {
                    &&& self.builder().refusal() is None
                    &&& cfg@ == self.builder().world()
                    &&& cfg@.protocol_hash() == self.protocol_hash
                },
                Err(NetError::Config(e)) => self.builder().refusal() == Some(e),
                Err(e) => {
                    &&& self.builder().refusal() is None
                    &&& self.builder().world().protocol_hash() != self.protocol_hash
                    &&& e == (NetError::ConfigMismatch {
                        ours: self.builder().world().protocol_hash(),
                        theirs: self.protocol_hash,
                    })
                },
            },
    {
        let built = WorldConfig::builder().region_size_m(self.region_size_m).vertical_extent_m(
            self.vertical_extent_m,
        ).horizontal_view_radius_m(
            self.horizontal_view_radius_m,
        ).max_horizontal_speed_m_per_sec(self.max_horizontal_speed_m_per_sec).tick_hz(
            self.tick_hz,
        ).build();
        match built {
            Err(e) => Err(NetError::Config(e)),
            Ok(cfg) => {
                if cfg.protocol_hash() != self.protocol_hash {
                    return Err(
                        NetError::ConfigMismatch {
                            ours: cfg.protocol_hash(),
                            theirs: self.protocol_hash,
                        },
                    );
                }
                Ok(cfg)
            },
        }
    }

    /// Appends the encoded parameters.
    pub fn encode(&self, out: &mut Vec<u8>)
        ensures
            final(out)@ == old(out)@ + self.wire(),
    {
        push_i32(out, self.region_size_m);
        push_i32(out, self.vertical_extent_m);
        push_i32(out, self.horizontal_view_radius_m);
        push_i32(out, self.max_horizontal_speed_m_per_sec);
        push_u32(out, self.tick_hz);
        push_u64(out, self.protocol_hash);
        assert(out@ =~= old(out)@ + self.wire());
    }

    /// Reads the parameters out of a body.
    pub fn decode(c: &mut Cursor<'_>) -> (r: Result<WorldParams, NetError>)
        requires
            old(c).wf(),
        ensures
            final(c).wf(),
            final(c).body() == old(c).body(),
            final(c).what() == old(c).what(),
            (r is Err) == (old(c).at() + 28 > old(c).body().len()),
            match r {
                Ok(p) => final(c).at() == old(c).at() + 28 && final(c).done() == old(c).done()
                    + p.wire(),
                Err(e) => e == old(c).fault(),
            },
    {
        let region_size_m: i32 = c.i32()?;
        let vertical_extent_m: i32 = c.i32()?;
        let horizontal_view_radius_m: i32 = c.i32()?;
        let max_horizontal_speed_m_per_sec: i32 = c.i32()?;
        let tick_hz: u32 = c.u32()?;
        let protocol_hash: u64 = c.u64()?;
        let p = WorldParams {
            region_size_m,
            vertical_extent_m,
            horizontal_view_radius_m,
            max_horizontal_speed_m_per_sec,
            tick_hz,
            protocol_hash,
        };
        assert(c.done() =~= old(c).done() + p.wire());
        Ok(p)
    }
}

// ---------------------------------------------------------------------------
// Messages
// ---------------------------------------------------------------------------

/// Describes the server and the region it owns. The reply on the info
/// subject.
#[derive(Clone, Copy, Debug, PartialEq, Eq, Structural)]
pub struct ServerInfo {
    /// What this region speaks. There is no handshake to check it in, so it
    /// travels here and the edge refuses a region it cannot talk to.
    pub protocol: ProtocolVersion,
    /// The crate version the region runs. Informational.
    pub server: ServerVersion,
    /// Which region answered.
    pub region: RegionId,
    /// The world it runs, for the asker to rebuild and check.
    pub params: WorldParams,
}

/// A crate version on the wire.
pub open spec fn version_bytes(v: ServerVersion) -> Seq<u8> {
    le::le_bytes(v.major as nat, 2) + le::le_bytes(v.minor as nat, 2) + le::le_bytes(
        v.patch as nat,
        2,
    )
}

/// Appends a crate version.
pub fn put_version(v: ServerVersion, out: &mut Vec<u8>)
    ensures
        final(out)@ == old(out)@ + version_bytes(v),
{
    push_u16(out, v.major);
    push_u16(out, v.minor);
    push_u16(out, v.patch);
    assert(out@ =~= old(out)@ + version_bytes(v));
}

/// Reads a crate version out of a body.
pub fn get_version(c: &mut Cursor<'_>) -> (r: Result<ServerVersion, NetError>)
    requires
        old(c).wf(),
    ensures
        final(c).wf(),
        final(c).body() == old(c).body(),
        final(c).what() == old(c).what(),
        (r is Err) == (old(c).at() + 6 > old(c).body().len()),
        match r {
            Ok(v) => final(c).at() == old(c).at() + 6 && final(c).done() == old(c).done()
                + version_bytes(v),
            Err(e) => e == old(c).fault(),
        },
{
    let major: u16 = c.u16()?;
    let minor: u16 = c.u16()?;
    let patch: u16 = c.u16()?;
    let v = ServerVersion { major, minor, patch };
    assert(c.done() =~= old(c).done() + version_bytes(v));
    Ok(v)
}

impl ServerInfo {
    /// Its width on the wire.
    pub const BYTES: usize = 40;

    /// The message as bytes.
    pub open spec fn wire(self) -> Seq<u8> {
        le::le_bytes(self.protocol.0 as nat, 2) + version_bytes(self.server) + le::le_bytes(
            self.region.0 as nat,
            4,
        ) + self.params.wire()
    }

    /// Replaces `out` with the encoded message.
    pub fn encode(&self, out: &mut Vec<u8>)
        ensures
            final(out)@ == self.wire(),
    {
        out.clear();
        push_u16(out, self.protocol.raw());
        put_version(self.server, out);
        push_u32(out, self.region.raw());
        self.params.encode(out);
        assert(out@ =~= self.wire());
    }

    /// Reads one back.
    pub fn decode(body: &[u8]) -> (r: Result<ServerInfo, NetError>)
        ensures
            match r {
                Ok(m) => m.wire() == body@ && body@.len() == ServerInfo::BYTES,
                Err(e) => body@.len() != ServerInfo::BYTES && e == NetError::Malformed(
                    "server info",
                ),
            },
    {
        let mut c = Cursor::new(body, "server info");
        let protocol = ProtocolVersion::from_raw(c.u16()?);
        let server = get_version(&mut c)?;
        let region = RegionId::from_raw(c.u32()?);
        let params = WorldParams::decode(&mut c)?;
        c.finish()?;
        let m = ServerInfo { protocol, server, region, params };
        assert(m.wire() =~= body@);
        Ok(m)
    }
}

// ---------------------------------------------------------------------------
// Session messages
// ---------------------------------------------------------------------------

/// Most bytes one message body may carry.
///
/// NATS enforces its own maximum payload, well above this. Keeping messages
/// small bounds the buffer a decoder allocates for a claimed count, and makes a
/// large spawn or move batch arrive as several messages rather than one.
pub const MAX_MESSAGE_BYTES: usize = 4096;

/// Bytes one spawn request takes: three raw [`Fixed`] axes, the role byte, the
/// game-defined tag, and the caller's token.
pub const SPAWN_BYTES: usize = 23;

/// Bytes one move takes: an id, and three raw [`Fixed`] axes.
///
/// Raw fixed point rather than the packed wire record, because this is the
/// authoritative position going *into* the simulation.
pub const MOVE_BYTES: usize = 16;

/// Most bytes a game message body may carry. The five overhead bytes are the
/// kind and the entity id.
pub const MAX_GAME_MESSAGE_BODY: usize = 4091;

/// Most entities one [`SpawnEntities`] may ask for. The five bytes are the kind
/// and the count.
///
/// An edge wanting more sends more messages. The cap bounds the buffer a
/// decoder allocates for a claimed count, so it does not move to suit a
/// caller.
pub const MAX_SPAWN_PER_MESSAGE: usize = (MAX_MESSAGE_BYTES - 5) / SPAWN_BYTES;

/// Most moves one [`MoveEntities`] may carry. Same bargain.
pub const MAX_MOVES_PER_MESSAGE: usize = (MAX_MESSAGE_BYTES - 5) / MOVE_BYTES;

/// Most entities one [`DespawnEntities`] may give up. Same bargain.
pub const MAX_DESPAWN_PER_MESSAGE: usize = (MAX_MESSAGE_BYTES - 5) / 4;

/// A kind on the wire: the role byte, then the tag.
pub open spec fn kind_bytes(k: EntityKind) -> Seq<u8> {
    seq![k.role_byte()] + le::le_bytes(k.tag as nat, 2)
}

impl EntityKind {
    /// Three bytes on the wire: role, then tag as little-endian u16.
    pub fn encode_wire(self, out: &mut Vec<u8>)
        ensures
            final(out)@ == old(out)@ + kind_bytes(self),
    {
        out.push(self.role());
        push_u16(out, self.tag());
        assert(out@ =~= old(out)@ + kind_bytes(self));
    }

    /// Reads three bytes: role, then tag as little-endian u16. An observer or
    /// an unattended entity is what a peer may ask for, and no other role.
    pub fn decode_wire(c: &mut Cursor<'_>) -> (r: Result<EntityKind, NetError>)
        requires
            old(c).wf(),
        ensures
            final(c).wf(),
            final(c).body() == old(c).body(),
            final(c).what() == old(c).what(),
            match r {
                Ok(k) => {
                    &&& k.role != Role::Shadow
                    &&& old(c).at() + 3 <= old(c).body().len()
                    &&& final(c).at() == old(c).at() + 3
                    &&& final(c).done() == old(c).done() + kind_bytes(k)
                    &&& old(c).body()[old(c).at()] <= 1
                },
                Err(e) => if old(c).at() + 3 > old(c).body().len() {
                    e == old(c).fault()
                } else {
                    old(c).body()[old(c).at()] > 1 && e == NetError::Malformed("entity kind role")
                },
            },
    {
        let role: u8 = c.u8()?;
        let tag: u16 = c.u16()?;
        match role {
            0 => {
                let k = EntityKind::unattended(tag);
                assert(c.done() =~= old(c).done() + kind_bytes(k));
                Ok(k)
            },
            1 => {
                let k = EntityKind::observer(tag);
                assert(c.done() =~= old(c).done() + kind_bytes(k));
                Ok(k)
            },
            _ => Err(NetError::Malformed("entity kind role")),
        }
    }
}

/// A position on the wire: three raw axes.
pub open spec fn pos_bytes(p: Pos3) -> Seq<u8> {
    le::le_i32(p.x.0) + le::le_i32(p.y.0) + le::le_i32(p.z.0)
}

/// Appends a position.
pub fn put_pos(p: Pos3, out: &mut Vec<u8>)
    ensures
        final(out)@ == old(out)@ + pos_bytes(p),
{
    push_i32(out, p.x.raw());
    push_i32(out, p.y.raw());
    push_i32(out, p.z.raw());
    assert(out@ =~= old(out)@ + pos_bytes(p));
}

/// Reads a position out of a body.
pub fn get_pos(c: &mut Cursor<'_>) -> (r: Result<Pos3, NetError>)
    requires
        old(c).wf(),
    ensures
        final(c).wf(),
        final(c).body() == old(c).body(),
        final(c).what() == old(c).what(),
        (r is Err) == (old(c).at() + 12 > old(c).body().len()),
        match r {
            Ok(p) => final(c).at() == old(c).at() + 12 && final(c).done() == old(c).done()
                + pos_bytes(p),
            Err(e) => e == old(c).fault(),
        },
{
    let x: i32 = c.i32()?;
    let y: i32 = c.i32()?;
    let z: i32 = c.i32()?;
    let p = Pos3::new(Fixed::from_raw(x), Fixed::from_raw(y), Fixed::from_raw(z));
    assert(c.done() =~= old(c).done() + pos_bytes(p));
    Ok(p)
}

/// One entity an edge is asking for.
#[derive(Clone, Copy, Debug, PartialEq, Eq, Structural)]
pub struct Spawn {
    /// Where to put it.
    pub position: Pos3,
    /// What is behind it, which decides whether it observes.
    pub kind: EntityKind,
    /// Opaque to the region, echoed back on the presence message that reports
    /// the entity. It exists because a presence subject says which edge owns
    /// an entity and nothing more: an edge that asked for three avatars in one
    /// message has no other way to tell which arrival belongs to which of its
    /// game clients. In practice it is the handle the edge already holds for
    /// that client.
    pub token: u64,
}

/// One spawn request on the wire.
pub open spec fn spawn_bytes(s: Spawn) -> Seq<u8> {
    pos_bytes(s.position) + kind_bytes(s.kind) + le::le_bytes(s.token as nat, 8)
}

/// A run of spawn requests on the wire.
pub open spec fn spawns_bytes(spawns: Seq<Spawn>) -> Seq<u8>
    decreases spawns.len(),
{
    if spawns.len() == 0 {
        Seq::empty()
    } else {
        spawns_bytes(spawns.drop_last()) + spawn_bytes(spawns.last())
    }
}

/// The fault of a body that should be `n` spawn requests from `at` on.
pub open spec fn spawns_fault(body: Seq<u8>, at: int, n: nat) -> Option<NetError>
    decreases n,
{
    if n == 0 {
        if at == body.len() {
            None
        } else {
            Some(NetError::Malformed("spawn entities"))
        }
    } else if body.len() < at + 15 {
        Some(NetError::Malformed("spawn entities"))
    } else if body[at + 12] > 1 {
        Some(NetError::Malformed("entity kind role"))
    } else if body.len() < at + 23 {
        Some(NetError::Malformed("spawn entities"))
    } else {
        spawns_fault(body, at + 23, (n - 1) as nat)
    }
}

/// Asks the region to create entities this edge will manage.
///
/// The region allocates the ids, since entity identity is its to hand out, and
/// records the asking edge as their owner in the same step. The ids come back
/// as presence, not as a reply.
///
/// Positions travel with the request rather than the edge spawning at a default
/// and moving afterward. A crowd that appears at one point and scatters on the
/// next tick is a region-wide teleport, and the odometer and the subscription
/// update both assume entities move at most
/// [`max_horizontal_speed`](crate::WorldConfig::max_horizontal_speed).
#[derive(Clone, Debug, PartialEq, Eq)]
pub struct SpawnEntities {
    /// What to create. At most [`MAX_SPAWN_PER_MESSAGE`].
    pub spawns: Vec<Spawn>,
}

/// What asking for one entity of a kind at each position is, each tokened with
/// its index.
pub open spec fn spawn_each(positions: Seq<Pos3>, kind: EntityKind) -> Seq<Spawn> {
    Seq::new(
        positions.len(),
        |i: int| Spawn { position: positions[i], kind, token: i as u64 },
    )
}

/// Asks for one entity of a kind at each position, each tokened with its index.
fn ask_each(positions: &[Pos3], kind: EntityKind) -> (m: SpawnEntities)
    ensures
        m.spawns@ == spawn_each(positions@, kind),
{
    let mut spawns: Vec<Spawn> = Vec::with_capacity(positions.len());
    let mut n: usize = 0;
    while n < positions.len()
        invariant
            n <= positions@.len(),
            spawns@ == spawn_each(positions@, kind).take(n as int),
        decreases positions@.len() - n,
    {
        spawns.push(Spawn { position: positions[n], kind, token: n as u64 });
        n = n + 1;
        assert(spawns@ =~= spawn_each(positions@, kind).take(n as int));
    }
    assert(spawns@ =~= spawn_each(positions@, kind));
    SpawnEntities { spawns }
}

impl SpawnEntities {
    /// Every entity an observer with tag 0, which is what a crowd of players
    /// is. Each is tokened with its index in `positions`, which is enough to
    /// match up one batch and no use across two.
    pub fn observers(positions: &[Pos3]) -> (m: SpawnEntities)
        ensures
            m.spawns@ == spawn_each(
                positions@,
                EntityKind { role: Role::Observer, tag: 0 },
            ),
    {
        ask_each(positions, EntityKind::observer(0))
    }

    /// Every entity unattended with tag 0, which is what a flight of
    /// projectiles or a herd of wildlife is. Tokened like
    /// [`observers`](Self::observers).
    pub fn unattended(positions: &[Pos3]) -> (m: SpawnEntities)
        ensures
            m.spawns@ == spawn_each(
                positions@,
                EntityKind { role: Role::Unattended, tag: 0 },
            ),
    {
        ask_each(positions, EntityKind::unattended(0))
    }

    /// The message's body, behind the kind byte.
    pub open spec fn wire(self) -> Seq<u8> {
        le::le_bytes(self.spawns@.len(), 4) + spawns_bytes(self.spawns@)
    }

    /// Why a body is refused, if it is.
    pub open spec fn refusal(body: Seq<u8>) -> Option<NetError> {
        if body.len() < 4 {
            Some(NetError::Malformed("spawn entities"))
        } else if le::from_le(body.take(4)) > MAX_SPAWN_PER_MESSAGE {
            Some(NetError::Malformed("spawn entities count"))
        } else {
            spawns_fault(body, 4, le::from_le(body.take(4)))
        }
    }

    /// Replaces `out` with the encoded message, its kind byte first.
    pub fn encode(&self, out: &mut Vec<u8>)
        ensures
            final(out)@ == seq![KIND_SPAWN_ENTITIES] + self.wire(),
    {
        out.clear();
        out.push(KIND_SPAWN_ENTITIES);
        push_wide(out, self.spawns.len() as u128, 4);
        let ghost head = out@;
        let mut i: usize = 0;
        assert(self.spawns@.take(0) =~= Seq::empty());
        assert(out@ =~= head + spawns_bytes(self.spawns@.take(0)));
        while i < self.spawns.len()
            invariant
                i <= self.spawns@.len(),
                out@ == head + spawns_bytes(self.spawns@.take(i as int)),
            decreases self.spawns@.len() - i,
        {
            let s = self.spawns[i];
            put_pos(s.position, out);
            s.kind.encode_wire(out);
            push_u64(out, s.token);
            proof {
                assert(self.spawns@.take(i + 1).drop_last() =~= self.spawns@.take(i as int));
                assert(out@ =~= head + spawns_bytes(self.spawns@.take(i + 1)));
            }
            i = i + 1;
        }
        assert(self.spawns@.take(i as int) =~= self.spawns@);
        assert(out@ =~= seq![KIND_SPAWN_ENTITIES] + self.wire());
    }

    /// Reads one back from the body behind the kind byte.
    pub fn decode(body: &[u8]) -> (r: Result<SpawnEntities, NetError>)
        ensures
            match r {
                Ok(m) => SpawnEntities::refusal(body@) is None && m.wire() == body@
                    && m.takeable(),
                Err(e) => SpawnEntities::refusal(body@) == Some(e),
            },
    {
        let mut c = Cursor::new(body, "spawn entities");
        let len: u32 = c.u32()?;
        assert(body@.subrange(0, 4) =~= body@.take(4));
        if len as usize > MAX_SPAWN_PER_MESSAGE {
            return Err(NetError::Malformed("spawn entities count"));
        }
        let ghost head = le::le_bytes(len as nat, 4);
        let mut spawns: Vec<Spawn> = Vec::with_capacity(len as usize);
        let mut i: u32 = 0;
        assert(c.done() =~= head + spawns_bytes(spawns@));
        while i < len
            invariant
                i <= len <= MAX_SPAWN_PER_MESSAGE,
                spawns@.len() == i,
                forall|k: int| 0 <= k < i ==> (#[trigger] spawns@[k]).kind.role != Role::Shadow,
                c.wf(),
                c.body() == body@,
                c.what() == "spawn entities",
                c.at() == 4 + 23 * i,
                c.done() == head + spawns_bytes(spawns@),
                body@.len() >= 4,
                len == le::from_le(body@.take(4)),
                SpawnEntities::refusal(body@) == spawns_fault(body@, c.at(), (len - i) as nat),
            decreases len - i,
        {
            let position = get_pos(&mut c)?;
            let kind = EntityKind::decode_wire(&mut c)?;
            let token: u64 = c.u64()?;
            let ghost before = spawns@;
            spawns.push(Spawn { position, kind, token });
            proof {
                assert(spawns@.drop_last() =~= before);
                assert(c.done() =~= head + spawns_bytes(spawns@));
            }
            i = i + 1;
        }
        c.finish()?;
        let m = SpawnEntities { spawns };
        assert(m.wire() =~= body@);
        Ok(m)
    }

    /// Whether a decoder takes this message.
    pub open spec fn takeable(self) -> bool {
        &&& self.spawns@.len() <= MAX_SPAWN_PER_MESSAGE
        &&& forall|k: int|
            0 <= k < self.spawns@.len() ==> (#[trigger] self.spawns@[k]).kind.role != Role::Shadow
    }
}

/// An entity appearing in or leaving a region.
///
/// Published on the presence subject of the edge that owns it, whatever caused
/// the change: an edge asking, the consumer's game despawning, or an edge
/// being expired and its entities orphaned. An edge that only ever hears about
/// what it asked for cannot know when something it owns has gone.
#[derive(Clone, Copy, Debug, PartialEq, Eq, Structural)]
pub enum Presence {
    /// Now exists and is managed by the edge this was published for. `token`
    /// is what that edge sent on the [`Spawn`] that asked for it.
    Added {
        /// The id this region allocated.
        entity: EntityId,
        /// Echoed from the spawn that asked, so an edge can tell which of its
        /// requests this answers.
        token: u64,
    },
    /// No longer exists.
    Removed {
        /// The id that is gone.
        entity: EntityId,
    },
}

/// The byte in front of [`Presence::Added`].
pub const PRESENCE_ADDED: u8 = 1;

/// The byte in front of [`Presence::Removed`].
pub const PRESENCE_REMOVED: u8 = 2;

impl Presence {
    /// Its width on the wire, at most.
    pub const BYTES: usize = 13;

    /// The message as bytes.
    pub open spec fn wire(self) -> Seq<u8> {
        match self {
            Presence::Added { entity, token } => seq![PRESENCE_ADDED] + le::le_bytes(
                entity.0 as nat,
                4,
            ) + le::le_bytes(token as nat, 8),
            Presence::Removed { entity } => seq![PRESENCE_REMOVED] + le::le_bytes(
                entity.0 as nat,
                4,
            ),
        }
    }

    /// Why a body is refused, if it is.
    pub open spec fn refusal(body: Seq<u8>) -> Option<NetError> {
        if body.len() < 5 {
            Some(NetError::Malformed("presence"))
        } else if body[0] == PRESENCE_ADDED {
            if body.len() == 13 {
                None
            } else {
                Some(NetError::Malformed("presence"))
            }
        } else if body[0] == PRESENCE_REMOVED {
            if body.len() == 5 {
                None
            } else {
                Some(NetError::Malformed("presence"))
            }
        } else {
            Some(NetError::Malformed("presence kind"))
        }
    }

    /// Replaces `out` with the encoded message.
    pub fn encode(&self, out: &mut Vec<u8>)
        ensures
            final(out)@ == self.wire(),
    {
        out.clear();
        match self {
            Presence::Added { entity, token } => {
                out.push(PRESENCE_ADDED);
                push_u32(out, entity.raw());
                push_u64(out, *token);
            },
            Presence::Removed { entity } => {
                out.push(PRESENCE_REMOVED);
                push_u32(out, entity.raw());
            },
        }
        assert(out@ =~= self.wire());
    }

    /// Reads one back.
    pub fn decode(body: &[u8]) -> (r: Result<Presence, NetError>)
        ensures
            match r {
                Ok(m) => Presence::refusal(body@) is None && m.wire() == body@,
                Err(e) => Presence::refusal(body@) == Some(e),
            },
    {
        let mut c = Cursor::new(body, "presence");
        let what: u8 = c.u8()?;
        let entity = EntityId::from_raw(c.u32()?);
        let got = match what {
            PRESENCE_ADDED => {
                let token: u64 = c.u64()?;
                Presence::Added { entity, token }
            },
            PRESENCE_REMOVED => Presence::Removed { entity },
            _ => return Err(NetError::Malformed("presence kind")),
        };
        c.finish()?;
        assert(got.wire() =~= body@);
        Ok(got)
    }
}

/// One move on the wire.
pub open spec fn move_bytes(m: (EntityId, Pos3)) -> Seq<u8> {
    le::le_bytes(m.0.0 as nat, 4) + pos_bytes(m.1)
}

/// A run of moves on the wire.
pub open spec fn moves_bytes(moves: Seq<(EntityId, Pos3)>) -> Seq<u8>
    decreases moves.len(),
{
    if moves.len() == 0 {
        Seq::empty()
    } else {
        moves_bytes(moves.drop_last()) + move_bytes(moves.last())
    }
}

/// Why a body of `width`-byte records behind a count is refused, if it is.
pub open spec fn counted(
    body: Seq<u8>,
    width: int,
    max: int,
    what: &'static str,
    over: &'static str,
) -> Option<NetError> {
    if body.len() < 4 {
        Some(NetError::Malformed(what))
    } else if le::from_le(body.take(4)) > max {
        Some(NetError::Malformed(over))
    } else if body.len() != 4 + width * le::from_le(body.take(4)) as int {
        Some(NetError::Malformed(what))
    } else {
        None
    }
}

/// New absolute positions for entities this edge manages.
///
/// Absolute rather than a delta, so a lost or reordered message costs one tick
/// of staleness rather than corrupting a position permanently. Applying one is
/// idempotent for the same reason.
#[derive(Clone, Debug, PartialEq, Eq)]
pub struct MoveEntities {
    /// Where to put each. At most [`MAX_MOVES_PER_MESSAGE`].
    pub moves: Vec<(EntityId, Pos3)>,
}

impl MoveEntities {
    /// The message's body, behind the kind byte.
    pub open spec fn wire(self) -> Seq<u8> {
        le::le_bytes(self.moves@.len(), 4) + moves_bytes(self.moves@)
    }

    /// Why a body is refused, if it is.
    pub open spec fn refusal(body: Seq<u8>) -> Option<NetError> {
        counted(body, 16, MAX_MOVES_PER_MESSAGE as int, "move entities", "move entities count")
    }

    /// Replaces `out` with the encoded message, its kind byte first.
    pub fn encode(&self, out: &mut Vec<u8>)
        ensures
            final(out)@ == seq![KIND_MOVE_ENTITIES] + self.wire(),
    {
        out.clear();
        out.push(KIND_MOVE_ENTITIES);
        push_wide(out, self.moves.len() as u128, 4);
        let ghost head = out@;
        let mut i: usize = 0;
        assert(self.moves@.take(0) =~= Seq::empty());
        assert(out@ =~= head + moves_bytes(self.moves@.take(0)));
        while i < self.moves.len()
            invariant
                i <= self.moves@.len(),
                out@ == head + moves_bytes(self.moves@.take(i as int)),
            decreases self.moves@.len() - i,
        {
            let (id, pos) = self.moves[i];
            push_u32(out, id.raw());
            put_pos(pos, out);
            proof {
                assert(self.moves@.take(i + 1).drop_last() =~= self.moves@.take(i as int));
                assert(out@ =~= head + moves_bytes(self.moves@.take(i + 1)));
            }
            i = i + 1;
        }
        assert(self.moves@.take(i as int) =~= self.moves@);
        assert(out@ =~= seq![KIND_MOVE_ENTITIES] + self.wire());
    }

    /// Reads one back from the body behind the kind byte.
    pub fn decode(body: &[u8]) -> (r: Result<MoveEntities, NetError>)
        ensures
            match r {
                Ok(m) => MoveEntities::refusal(body@) is None && m.wire() == body@
                    && m.moves@.len() <= MAX_MOVES_PER_MESSAGE,
                Err(e) => MoveEntities::refusal(body@) == Some(e),
            },
    {
        let mut c = Cursor::new(body, "move entities");
        let len: u32 = c.u32()?;
        assert(body@.subrange(0, 4) =~= body@.take(4));
        if len as usize > MAX_MOVES_PER_MESSAGE {
            return Err(NetError::Malformed("move entities count"));
        }
        let ghost head = le::le_bytes(len as nat, 4);
        let mut moves: Vec<(EntityId, Pos3)> = Vec::with_capacity(len as usize);
        let mut i: u32 = 0;
        assert(c.done() =~= head + moves_bytes(moves@));
        while i < len
            invariant
                i <= len <= MAX_MOVES_PER_MESSAGE,
                moves@.len() == i,
                c.wf(),
                c.body() == body@,
                c.what() == "move entities",
                c.at() == 4 + 16 * i,
                c.done() == head + moves_bytes(moves@),
                body@.len() >= 4,
                len == le::from_le(body@.take(4)),
            decreases len - i,
        {
            let id = EntityId::from_raw(c.u32()?);
            let pos = get_pos(&mut c)?;
            let ghost before = moves@;
            moves.push((id, pos));
            proof {
                assert(moves@.drop_last() =~= before);
                assert(c.done() =~= head + moves_bytes(moves@));
            }
            i = i + 1;
        }
        c.finish()?;
        let m = MoveEntities { moves };
        assert(m.wire() =~= body@);
        Ok(m)
    }
}

/// A run of ids on the wire.
pub open spec fn ids_bytes(ids: Seq<EntityId>) -> Seq<u8>
    decreases ids.len(),
{
    if ids.len() == 0 {
        Seq::empty()
    } else {
        ids_bytes(ids.drop_last()) + le::le_bytes(ids.last().0 as nat, 4)
    }
}

/// Gives entities back, because the game clients behind them have gone.
///
/// An edge's population is not fixed. Clients connect and disconnect, so the
/// edge that spawned an entity is the one that has to say when it is finished
/// with it. The region despawns the entity, unregisters the viewer watching it,
/// and frees the ownership record.
///
/// An edge that detaches entirely gives up everything it held without sending
/// this: the region cannot leave entities alive with no connection behind them.
#[derive(Clone, Debug, PartialEq, Eq)]
pub struct DespawnEntities {
    /// What to remove. At most [`MAX_DESPAWN_PER_MESSAGE`].
    pub ids: Vec<EntityId>,
}

impl DespawnEntities {
    /// The message's body, behind the kind byte.
    pub open spec fn wire(self) -> Seq<u8> {
        le::le_bytes(self.ids@.len(), 4) + ids_bytes(self.ids@)
    }

    /// Why a body is refused, if it is.
    pub open spec fn refusal(body: Seq<u8>) -> Option<NetError> {
        counted(
            body,
            4,
            MAX_DESPAWN_PER_MESSAGE as int,
            "despawn entities",
            "despawn entities count",
        )
    }

    /// Replaces `out` with the encoded message, its kind byte first.
    pub fn encode(&self, out: &mut Vec<u8>)
        ensures
            final(out)@ == seq![KIND_DESPAWN_ENTITIES] + self.wire(),
    {
        out.clear();
        out.push(KIND_DESPAWN_ENTITIES);
        push_wide(out, self.ids.len() as u128, 4);
        let ghost head = out@;
        let mut i: usize = 0;
        assert(self.ids@.take(0) =~= Seq::empty());
        assert(out@ =~= head + ids_bytes(self.ids@.take(0)));
        while i < self.ids.len()
            invariant
                i <= self.ids@.len(),
                out@ == head + ids_bytes(self.ids@.take(i as int)),
            decreases self.ids@.len() - i,
        {
            push_u32(out, self.ids[i].raw());
            proof {
                assert(self.ids@.take(i + 1).drop_last() =~= self.ids@.take(i as int));
                assert(out@ =~= head + ids_bytes(self.ids@.take(i + 1)));
            }
            i = i + 1;
        }
        assert(self.ids@.take(i as int) =~= self.ids@);
        assert(out@ =~= seq![KIND_DESPAWN_ENTITIES] + self.wire());
    }

    /// Reads one back from the body behind the kind byte.
    pub fn decode(body: &[u8]) -> (r: Result<DespawnEntities, NetError>)
        ensures
            match r {
                Ok(m) => DespawnEntities::refusal(body@) is None && m.wire() == body@
                    && m.ids@.len() <= MAX_DESPAWN_PER_MESSAGE,
                Err(e) => DespawnEntities::refusal(body@) == Some(e),
            },
    {
        let mut c = Cursor::new(body, "despawn entities");
        let len: u32 = c.u32()?;
        assert(body@.subrange(0, 4) =~= body@.take(4));
        if len as usize > MAX_DESPAWN_PER_MESSAGE {
            return Err(NetError::Malformed("despawn entities count"));
        }
        let ghost head = le::le_bytes(len as nat, 4);
        let mut ids: Vec<EntityId> = Vec::with_capacity(len as usize);
        let mut i: u32 = 0;
        assert(c.done() =~= head + ids_bytes(ids@));
        while i < len
            invariant
                i <= len <= MAX_DESPAWN_PER_MESSAGE,
                ids@.len() == i,
                c.wf(),
                c.body() == body@,
                c.what() == "despawn entities",
                c.at() == 4 + 4 * i,
                c.done() == head + ids_bytes(ids@),
                body@.len() >= 4,
                len == le::from_le(body@.take(4)),
            decreases len - i,
        {
            let id = EntityId::from_raw(c.u32()?);
            let ghost before = ids@;
            ids.push(id);
            proof {
                assert(ids@.drop_last() =~= before);
                assert(c.done() =~= head + ids_bytes(ids@));
            }
            i = i + 1;
        }
        c.finish()?;
        let m = DespawnEntities { ids };
        assert(m.wire() =~= body@);
        Ok(m)
    }
}

/// Opaque bytes from a game client, forwarded by an edge to the region.
///
/// The entity is the sender's entity in this region. The region validates that
/// the sending edge manages it before delivering the message to the game.
#[derive(Clone, Debug, PartialEq, Eq)]
pub struct GameMessage {
    /// The sender's entity in this region.
    pub entity: EntityId,
    /// The game's own bytes. At most [`MAX_GAME_MESSAGE_BODY`].
    pub body: Vec<u8>,
}

impl GameMessage {
    /// The message's body, behind the kind byte.
    pub open spec fn wire(self) -> Seq<u8> {
        le::le_bytes(self.entity.0 as nat, 4) + self.body@
    }

    /// Why a body is refused, if it is.
    pub open spec fn refusal(body: Seq<u8>) -> Option<NetError> {
        if body.len() < 4 {
            Some(NetError::Malformed("game message"))
        } else if body.len() > 4 + MAX_GAME_MESSAGE_BODY {
            Some(NetError::Malformed("game message body too large"))
        } else {
            None
        }
    }

    /// Replaces `out` with the encoded message, its kind byte first.
    pub fn encode(&self, out: &mut Vec<u8>)
        ensures
            final(out)@ == seq![KIND_GAME_MESSAGE] + self.wire(),
    {
        out.clear();
        out.push(KIND_GAME_MESSAGE);
        push_u32(out, self.entity.raw());
        out.extend_from_slice(self.body.as_slice());
        assert(out@ =~= seq![KIND_GAME_MESSAGE] + self.wire());
    }

    /// Reads one back from the body behind the kind byte.
    pub fn decode(body: &[u8]) -> (r: Result<GameMessage, NetError>)
        ensures
            match r {
                Ok(m) => GameMessage::refusal(body@) is None && m.wire() == body@,
                Err(e) => GameMessage::refusal(body@) == Some(e),
            },
    {
        let mut c = Cursor::new(body, "game message");
        let entity = EntityId::from_raw(c.u32()?);
        let rest = c.rest();
        if rest.len() > MAX_GAME_MESSAGE_BODY {
            return Err(NetError::Malformed("game message body too large"));
        }
        let m = GameMessage { entity, body: slice_to_vec(rest) };
        assert(m.wire() =~= body@);
        Ok(m)
    }
}

/// A position is twelve bytes.
pub proof fn lemma_pos(p: Pos3)
    ensures
        pos_bytes(p).len() == 12,
{
    le::lemma_le_i32(p.x.0);
    le::lemma_le_i32(p.y.0);
    le::lemma_le_i32(p.z.0);
}

/// A position is read back as it was written.
pub proof fn lemma_pos_injective(a: Pos3, b: Pos3)
    requires
        pos_bytes(a) == pos_bytes(b),
    ensures
        a == b,
{
    le::lemma_le_i32(a.x.0);
    le::lemma_le_i32(a.y.0);
    le::lemma_le_i32(a.z.0);
    le::lemma_le_i32(b.x.0);
    le::lemma_le_i32(b.y.0);
    le::lemma_le_i32(b.z.0);
    le::lemma_same_back(
        le::le_i32(a.x.0) + le::le_i32(a.y.0),
        le::le_i32(a.z.0),
        le::le_i32(b.x.0) + le::le_i32(b.y.0),
        le::le_i32(b.z.0),
    );
    le::lemma_same_back(le::le_i32(a.x.0), le::le_i32(a.y.0), le::le_i32(b.x.0), le::le_i32(b.y.0));
}

/// A kind is read back as it was written.
pub proof fn lemma_kind_injective(a: EntityKind, b: EntityKind)
    requires
        kind_bytes(a) == kind_bytes(b),
    ensures
        a == b,
{
    let (x, y) = (kind_bytes(a), kind_bytes(b));
    assert(x[0] == a.role_byte() && y[0] == b.role_byte());
    le::lemma_le_len(a.tag as nat, 2);
    le::lemma_le_len(b.tag as nat, 2);
    le::lemma_same_front(
        seq![a.role_byte()],
        le::le_bytes(a.tag as nat, 2),
        seq![b.role_byte()],
        le::le_bytes(b.tag as nat, 2),
    );
    le::lemma_span();
    le::lemma_le_injective(a.tag as nat, b.tag as nat, 2);
}

/// World parameters are 28 bytes.
proof fn lemma_params(p: WorldParams)
    ensures
        p.wire().len() == WorldParams::BYTES,
{
    le::lemma_le_i32(p.region_size_m);
    le::lemma_le_i32(p.vertical_extent_m);
    le::lemma_le_i32(p.horizontal_view_radius_m);
    le::lemma_le_i32(p.max_horizontal_speed_m_per_sec);
    le::lemma_le_len(p.tick_hz as nat, 4);
    le::lemma_le_len(p.protocol_hash as nat, 8);
}

/// World parameters are read back as they were written.
proof fn lemma_params_injective(a: WorldParams, b: WorldParams)
    requires
        a.wire() == b.wire(),
    ensures
        a == b,
{
    le::lemma_le_i32(a.region_size_m);
    le::lemma_le_i32(a.vertical_extent_m);
    le::lemma_le_i32(a.horizontal_view_radius_m);
    le::lemma_le_i32(a.max_horizontal_speed_m_per_sec);
    le::lemma_le_i32(b.region_size_m);
    le::lemma_le_i32(b.vertical_extent_m);
    le::lemma_le_i32(b.horizontal_view_radius_m);
    le::lemma_le_i32(b.max_horizontal_speed_m_per_sec);
    le::lemma_le_len(a.tick_hz as nat, 4);
    le::lemma_le_len(a.protocol_hash as nat, 8);
    le::lemma_le_len(b.tick_hz as nat, 4);
    le::lemma_le_len(b.protocol_hash as nat, 8);
    let (a1, b1) = (le::le_i32(a.region_size_m), le::le_i32(b.region_size_m));
    let (a2, b2) = (a1 + le::le_i32(a.vertical_extent_m), b1 + le::le_i32(b.vertical_extent_m));
    let (a3, b3) = (
        a2 + le::le_i32(a.horizontal_view_radius_m),
        b2 + le::le_i32(b.horizontal_view_radius_m),
    );
    let (a4, b4) = (
        a3 + le::le_i32(a.max_horizontal_speed_m_per_sec),
        b3 + le::le_i32(b.max_horizontal_speed_m_per_sec),
    );
    let (a5, b5) = (a4 + le::le_bytes(a.tick_hz as nat, 4), b4 + le::le_bytes(b.tick_hz as nat, 4));
    le::lemma_same_back(
        a5,
        le::le_bytes(a.protocol_hash as nat, 8),
        b5,
        le::le_bytes(b.protocol_hash as nat, 8),
    );
    le::lemma_same_back(a4, le::le_bytes(a.tick_hz as nat, 4), b4, le::le_bytes(b.tick_hz as nat, 4));
    le::lemma_same_back(
        a3,
        le::le_i32(a.max_horizontal_speed_m_per_sec),
        b3,
        le::le_i32(b.max_horizontal_speed_m_per_sec),
    );
    le::lemma_same_back(
        a2,
        le::le_i32(a.horizontal_view_radius_m),
        b2,
        le::le_i32(b.horizontal_view_radius_m),
    );
    le::lemma_same_back(a1, le::le_i32(a.vertical_extent_m), b1, le::le_i32(b.vertical_extent_m));
    le::lemma_u64_injective(a.protocol_hash, b.protocol_hash);
    le::lemma_u32_injective(a.tick_hz, b.tick_hz);
}

/// A version is read back as it was written, from six bytes.
pub proof fn lemma_version_injective(a: ServerVersion, b: ServerVersion)
    ensures
        version_bytes(a).len() == 6,
        version_bytes(a) == version_bytes(b) ==> a == b,
{
    le::lemma_le_len(a.major as nat, 2);
    le::lemma_le_len(a.minor as nat, 2);
    le::lemma_le_len(a.patch as nat, 2);
    if version_bytes(a) == version_bytes(b) {
        le::lemma_le_len(b.major as nat, 2);
        le::lemma_le_len(b.minor as nat, 2);
        le::lemma_le_len(b.patch as nat, 2);
        let (a1, b1) = (le::le_bytes(a.major as nat, 2), le::le_bytes(b.major as nat, 2));
        let (a2, b2) = (le::le_bytes(a.minor as nat, 2), le::le_bytes(b.minor as nat, 2));
        le::lemma_same_back(
            a1 + a2,
            le::le_bytes(a.patch as nat, 2),
            b1 + b2,
            le::le_bytes(b.patch as nat, 2),
        );
        le::lemma_same_back(a1, a2, b1, b2);
        le::lemma_u16_injective(a.major, b.major);
        le::lemma_u16_injective(a.minor, b.minor);
        le::lemma_u16_injective(a.patch, b.patch);
    }
}

/// A server's description comes back off the wire as it went on, and takes the
/// one length that is not refused: cut short or followed by more it is.
pub proof fn law_server_info_round_trips(m: ServerInfo, back: ServerInfo)
    requires
        back.wire() == m.wire(),
    ensures
        m.wire().len() == ServerInfo::BYTES,
        back == m,
{
    lemma_params(m.params);
    lemma_params(back.params);
    le::lemma_le_len(m.protocol.0 as nat, 2);
    le::lemma_le_len(back.protocol.0 as nat, 2);
    le::lemma_le_len(m.region.0 as nat, 4);
    le::lemma_le_len(back.region.0 as nat, 4);
    lemma_version_injective(m.server, back.server);
    lemma_version_injective(back.server, m.server);
    let (a1, b1) = (le::le_bytes(m.protocol.0 as nat, 2), le::le_bytes(back.protocol.0 as nat, 2));
    let (a2, b2) = (version_bytes(m.server), version_bytes(back.server));
    let (a3, b3) = (le::le_bytes(m.region.0 as nat, 4), le::le_bytes(back.region.0 as nat, 4));
    le::lemma_same_back(a1 + a2 + a3, m.params.wire(), b1 + b2 + b3, back.params.wire());
    le::lemma_same_back(a1 + a2, a3, b1 + b2, b3);
    le::lemma_same_back(a1, a2, b1, b2);
    lemma_params_injective(m.params, back.params);
    le::lemma_u16_injective(m.protocol.0, back.protocol.0);
    le::lemma_u32_injective(m.region.0, back.region.0);
}

/// Parameters rebuild the world they were taken from, for every world the
/// builder can author: one whose numbers are whole meters and whose cell is
/// the one its view radius gives.
pub proof fn law_params_rebuild_their_world(w: World)
    requires
        w.valid(),
        w.region_size % 1024 == 0,
        w.vertical_extent % 1024 == 0,
        w.view_radius % 1024 == 0,
        w.max_speed % 1024 == 0,
        w.cell_size == config::derived_cell_size(w.view_radius),
    ensures
        WorldParams::of(w).builder().world() == w,
        WorldParams::of(w).expressible(),
        WorldParams::of(w).builder().refusal() is None,
        WorldParams::of(w).protocol_hash == w.protocol_hash(),
{
}

/// A run of spawn requests is as long as its count says, each role where it
/// belongs.
proof fn lemma_spawns(spawns: Seq<Spawn>)
    ensures
        spawns_bytes(spawns).len() == 23 * spawns.len(),
        forall|k: int|
            0 <= k < spawns.len() ==> spawns_bytes(spawns)[23 * k + 12]
                == (#[trigger] spawns[k]).kind.role_byte(),
    decreases spawns.len(),
{
    if spawns.len() > 0 {
        let (front, s) = (spawns.drop_last(), spawns.last());
        lemma_spawns(front);
        lemma_pos(s.position);
        le::lemma_le_len(s.kind.tag as nat, 2);
        le::lemma_le_len(s.token as nat, 8);
        assert(spawn_bytes(s)[12] == s.kind.role_byte());
        assert forall|k: int| 0 <= k < spawns.len() implies spawns_bytes(spawns)[23 * k + 12] == (
        #[trigger] spawns[k]).kind.role_byte() by {
            if k < front.len() {
                assert(front[k] == spawns[k]);
                assert(spawns_bytes(spawns)[23 * k + 12] == spawns_bytes(front)[23 * k + 12]);
            } else {
                assert(spawns_bytes(spawns)[23 * k + 12] == spawn_bytes(s)[12]);
            }
        }
    }
}

/// A run of spawn requests with no fault in it has exactly the length its
/// count says.
proof fn lemma_spawns_fault(body: Seq<u8>, at: int, n: nat)
    requires
        spawns_fault(body, at, n) is None,
    ensures
        body.len() == at + 23 * n,
    decreases n,
{
    if n > 0 {
        lemma_spawns_fault(body, at + 23, (n - 1) as nat);
    }
}

/// A run of spawn requests of the right length, and of roles a peer may ask
/// for, has no fault in it.
proof fn lemma_spawns_taken(body: Seq<u8>, at: int, n: nat)
    requires
        body.len() == at + 23 * n,
        forall|k: int| 0 <= k < n ==> body[#[trigger] role_at(at, k)] <= 1,
    ensures
        spawns_fault(body, at, n) is None,
    decreases n,
{
    if n > 0 {
        assert(body[role_at(at, 0)] <= 1);
        assert forall|k: int| 0 <= k < n - 1 implies body[#[trigger] role_at(at + 23, k)] <= 1 by {
            assert(role_at(at + 23, k) == role_at(at, k + 1));
        }
        lemma_spawns_taken(body, at + 23, (n - 1) as nat);
    }
}

/// Where the role byte of request `k` is, in a run of them from `at` on.
spec fn role_at(at: int, k: int) -> int {
    at + 23 * k + 12
}

/// A run of spawn requests is read back as it was written.
proof fn lemma_spawns_injective(a: Seq<Spawn>, b: Seq<Spawn>)
    requires
        a.len() == b.len(),
        spawns_bytes(a) == spawns_bytes(b),
    ensures
        a == b,
    decreases a.len(),
{
    if a.len() > 0 {
        let (x, y) = (a.last(), b.last());
        lemma_spawns(a);
        lemma_spawns(b);
        lemma_spawns(a.drop_last());
        lemma_spawns(b.drop_last());
        le::lemma_same_back(
            spawns_bytes(a.drop_last()),
            spawn_bytes(x),
            spawns_bytes(b.drop_last()),
            spawn_bytes(y),
        );
        lemma_spawn_injective(x, y);
        lemma_spawns_injective(a.drop_last(), b.drop_last());
        assert(a =~= a.drop_last().push(x));
        assert(b =~= b.drop_last().push(y));
    } else {
        assert(a =~= b);
    }
}

/// One spawn request is read back as it was written.
proof fn lemma_spawn_injective(x: Spawn, y: Spawn)
    requires
        spawn_bytes(x) == spawn_bytes(y),
    ensures
        x == y,
{
    lemma_pos(x.position);
    lemma_pos(y.position);
    le::lemma_le_len(x.token as nat, 8);
    le::lemma_le_len(y.token as nat, 8);
    le::lemma_le_len(x.kind.tag as nat, 2);
    le::lemma_le_len(y.kind.tag as nat, 2);
    le::lemma_same_back(
        pos_bytes(x.position) + kind_bytes(x.kind),
        le::le_bytes(x.token as nat, 8),
        pos_bytes(y.position) + kind_bytes(y.kind),
        le::le_bytes(y.token as nat, 8),
    );
    le::lemma_same_front(
        pos_bytes(x.position),
        kind_bytes(x.kind),
        pos_bytes(y.position),
        kind_bytes(y.kind),
    );
    lemma_pos_injective(x.position, y.position);
    lemma_kind_injective(x.kind, y.kind);
    le::lemma_u64_injective(x.token, y.token);
}

/// The count in front of a message's records is read back as it was written.
proof fn lemma_count(n: nat, records: Seq<u8>)
    requires
        n <= MAX_MESSAGE_BYTES,
    ensures
        (le::le_bytes(n, 4) + records).len() == 4 + records.len(),
        (le::le_bytes(n, 4) + records).take(4) == le::le_bytes(n, 4),
        le::from_le(le::le_bytes(n, 4)) == n,
{
    le::lemma_le_len(n, 4);
    le::lemma_span();
    le::lemma_from_le_of_le(n, 4);
    assert((le::le_bytes(n, 4) + records).take(4) =~= le::le_bytes(n, 4));
}

/// A spawn request a peer may send is taken, and comes back as it went on:
/// every position, kind and token.
pub proof fn law_spawn_requests_round_trip(m: SpawnEntities, back: SpawnEntities)
    requires
        m.takeable(),
        back.takeable(),
        back.wire() == m.wire(),
    ensures
        SpawnEntities::refusal(m.wire()) is None,
        back.spawns@ == m.spawns@,
{
    let (a, b) = (m.spawns@, back.spawns@);
    lemma_count(a.len(), spawns_bytes(a));
    lemma_count(b.len(), spawns_bytes(b));
    lemma_spawns(a);
    lemma_spawns(b);
    let w = m.wire();
    assert forall|k: int| 0 <= k < a.len() implies w[#[trigger] role_at(4, k)] <= 1 by {
        assert(w[role_at(4, k)] == spawns_bytes(a)[23 * k + 12]);
        assert(a[k].kind.role != Role::Shadow);
    }
    lemma_spawns_taken(w, 4, a.len());
    le::lemma_same_front(
        le::le_bytes(a.len(), 4),
        spawns_bytes(a),
        le::le_bytes(b.len(), 4),
        spawns_bytes(b),
    );
    lemma_spawns_injective(a, b);
}

/// A spawn request cut short, or followed by more, is refused.
pub proof fn law_a_spawn_request_of_another_length_is_refused(
    m: SpawnEntities,
    cut: int,
    more: Seq<u8>,
)
    requires
        m.takeable(),
        0 <= cut < m.wire().len(),
        more.len() > 0,
    ensures
        SpawnEntities::refusal(m.wire().take(cut)) is Some,
        SpawnEntities::refusal(m.wire() + more) is Some,
{
    let n = m.spawns@.len();
    lemma_count(n, spawns_bytes(m.spawns@));
    lemma_spawns(m.spawns@);
    let t = m.wire().take(cut);
    if cut >= 4 {
        assert(t.take(4) =~= le::le_bytes(n, 4));
        if SpawnEntities::refusal(t) is None {
            lemma_spawns_fault(t, 4, n);
        }
    }
    let u = m.wire() + more;
    assert(u.take(4) =~= le::le_bytes(n, 4));
    if SpawnEntities::refusal(u) is None {
        lemma_spawns_fault(u, 4, n);
    }
}

/// A run of moves is as long as its count says.
proof fn lemma_moves(moves: Seq<(EntityId, Pos3)>)
    ensures
        moves_bytes(moves).len() == 16 * moves.len(),
    decreases moves.len(),
{
    if moves.len() > 0 {
        lemma_moves(moves.drop_last());
        lemma_pos(moves.last().1);
        le::lemma_le_len(moves.last().0.0 as nat, 4);
    }
}

/// A run of moves is read back as it was written.
proof fn lemma_moves_injective(a: Seq<(EntityId, Pos3)>, b: Seq<(EntityId, Pos3)>)
    requires
        a.len() == b.len(),
        moves_bytes(a) == moves_bytes(b),
    ensures
        a == b,
    decreases a.len(),
{
    if a.len() > 0 {
        let (x, y) = (a.last(), b.last());
        lemma_pos(x.1);
        lemma_pos(y.1);
        le::lemma_le_len(x.0.0 as nat, 4);
        le::lemma_le_len(y.0.0 as nat, 4);
        le::lemma_same_back(
            moves_bytes(a.drop_last()),
            move_bytes(x),
            moves_bytes(b.drop_last()),
            move_bytes(y),
        );
        le::lemma_same_front(
            le::le_bytes(x.0.0 as nat, 4),
            pos_bytes(x.1),
            le::le_bytes(y.0.0 as nat, 4),
            pos_bytes(y.1),
        );
        le::lemma_u32_injective(x.0.0, y.0.0);
        lemma_pos_injective(x.1, y.1);
        lemma_moves_injective(a.drop_last(), b.drop_last());
        assert(a =~= a.drop_last().push(x));
        assert(b =~= b.drop_last().push(y));
    } else {
        assert(a =~= b);
    }
}

/// Moves within the cap are taken, and come back exactly: a position survives
/// the wire unchanged.
pub proof fn law_moves_round_trip(m: MoveEntities, back: MoveEntities)
    requires
        m.moves@.len() <= MAX_MOVES_PER_MESSAGE,
        back.moves@.len() <= MAX_MOVES_PER_MESSAGE,
        back.wire() == m.wire(),
    ensures
        MoveEntities::refusal(m.wire()) is None,
        back.moves@ == m.moves@,
{
    let (a, b) = (m.moves@, back.moves@);
    lemma_count(a.len(), moves_bytes(a));
    lemma_count(b.len(), moves_bytes(b));
    lemma_moves(a);
    lemma_moves(b);
    le::lemma_same_front(
        le::le_bytes(a.len(), 4),
        moves_bytes(a),
        le::le_bytes(b.len(), 4),
        moves_bytes(b),
    );
    lemma_moves_injective(a, b);
}

/// Moves cut short, or followed by more, are refused.
pub proof fn law_moves_of_another_length_are_refused(m: MoveEntities, cut: int, more: Seq<u8>)
    requires
        m.moves@.len() <= MAX_MOVES_PER_MESSAGE,
        0 <= cut < m.wire().len(),
        more.len() > 0,
    ensures
        MoveEntities::refusal(m.wire().take(cut)) is Some,
        MoveEntities::refusal(m.wire() + more) is Some,
{
    let n = m.moves@.len();
    lemma_count(n, moves_bytes(m.moves@));
    lemma_moves(m.moves@);
    if cut >= 4 {
        assert(m.wire().take(cut).take(4) =~= le::le_bytes(n, 4));
    }
    assert((m.wire() + more).take(4) =~= le::le_bytes(n, 4));
}

/// A run of ids is as long as its count says.
proof fn lemma_ids(ids: Seq<EntityId>)
    ensures
        ids_bytes(ids).len() == 4 * ids.len(),
    decreases ids.len(),
{
    if ids.len() > 0 {
        lemma_ids(ids.drop_last());
        le::lemma_le_len(ids.last().0 as nat, 4);
    }
}

/// A run of ids is read back as it was written.
proof fn lemma_ids_injective(a: Seq<EntityId>, b: Seq<EntityId>)
    requires
        a.len() == b.len(),
        ids_bytes(a) == ids_bytes(b),
    ensures
        a == b,
    decreases a.len(),
{
    if a.len() > 0 {
        let (x, y) = (a.last(), b.last());
        le::lemma_le_len(x.0 as nat, 4);
        le::lemma_le_len(y.0 as nat, 4);
        le::lemma_same_back(
            ids_bytes(a.drop_last()),
            le::le_bytes(x.0 as nat, 4),
            ids_bytes(b.drop_last()),
            le::le_bytes(y.0 as nat, 4),
        );
        le::lemma_u32_injective(x.0, y.0);
        lemma_ids_injective(a.drop_last(), b.drop_last());
        assert(a =~= a.drop_last().push(x));
        assert(b =~= b.drop_last().push(y));
    } else {
        assert(a =~= b);
    }
}

/// Despawns within the cap are taken, and come back as they went on.
pub proof fn law_despawns_round_trip(m: DespawnEntities, back: DespawnEntities)
    requires
        m.ids@.len() <= MAX_DESPAWN_PER_MESSAGE,
        back.ids@.len() <= MAX_DESPAWN_PER_MESSAGE,
        back.wire() == m.wire(),
    ensures
        DespawnEntities::refusal(m.wire()) is None,
        back.ids@ == m.ids@,
{
    let (a, b) = (m.ids@, back.ids@);
    lemma_count(a.len(), ids_bytes(a));
    lemma_count(b.len(), ids_bytes(b));
    lemma_ids(a);
    lemma_ids(b);
    le::lemma_same_front(
        le::le_bytes(a.len(), 4),
        ids_bytes(a),
        le::le_bytes(b.len(), 4),
        ids_bytes(b),
    );
    lemma_ids_injective(a, b);
}

/// Despawns cut short, or followed by more, are refused.
pub proof fn law_despawns_of_another_length_are_refused(
    m: DespawnEntities,
    cut: int,
    more: Seq<u8>,
)
    requires
        m.ids@.len() <= MAX_DESPAWN_PER_MESSAGE,
        0 <= cut < m.wire().len(),
        more.len() > 0,
    ensures
        DespawnEntities::refusal(m.wire().take(cut)) is Some,
        DespawnEntities::refusal(m.wire() + more) is Some,
{
    let n = m.ids@.len();
    lemma_count(n, ids_bytes(m.ids@));
    lemma_ids(m.ids@);
    if cut >= 4 {
        assert(m.wire().take(cut).take(4) =~= le::le_bytes(n, 4));
    }
    assert((m.wire() + more).take(4) =~= le::le_bytes(n, 4));
}

/// A game's message within the cap is taken, and comes back as it went on.
pub proof fn law_game_messages_round_trip(m: GameMessage, back: GameMessage)
    requires
        m.body@.len() <= MAX_GAME_MESSAGE_BODY,
        back.wire() == m.wire(),
    ensures
        GameMessage::refusal(m.wire()) is None,
        back.entity == m.entity,
        back.body@ == m.body@,
{
    le::lemma_le_len(m.entity.0 as nat, 4);
    le::lemma_le_len(back.entity.0 as nat, 4);
    le::lemma_same_front(
        le::le_bytes(m.entity.0 as nat, 4),
        m.body@,
        le::le_bytes(back.entity.0 as nat, 4),
        back.body@,
    );
    le::lemma_u32_injective(m.entity.0, back.entity.0);
}

/// Every presence is taken, and comes back as it went on.
pub proof fn law_presence_round_trips(m: Presence, back: Presence)
    requires
        back.wire() == m.wire(),
    ensures
        Presence::refusal(m.wire()) is None,
        m.wire().len() <= Presence::BYTES,
        back == m,
{
    assert(m.wire()[0] == back.wire()[0]);
    match (m, back) {
        (
            Presence::Added { entity: e, token: t },
            Presence::Added { entity: f, token: u },
        ) => {
            le::lemma_le_len(e.0 as nat, 4);
            le::lemma_le_len(f.0 as nat, 4);
            le::lemma_le_len(t as nat, 8);
            le::lemma_le_len(u as nat, 8);
            le::lemma_same_back(
                seq![PRESENCE_ADDED] + le::le_bytes(e.0 as nat, 4),
                le::le_bytes(t as nat, 8),
                seq![PRESENCE_ADDED] + le::le_bytes(f.0 as nat, 4),
                le::le_bytes(u as nat, 8),
            );
            le::lemma_same_front(
                seq![PRESENCE_ADDED],
                le::le_bytes(e.0 as nat, 4),
                seq![PRESENCE_ADDED],
                le::le_bytes(f.0 as nat, 4),
            );
            le::lemma_u32_injective(e.0, f.0);
            le::lemma_u64_injective(t, u);
        },
        (Presence::Removed { entity: e }, Presence::Removed { entity: f }) => {
            le::lemma_le_len(e.0 as nat, 4);
            le::lemma_le_len(f.0 as nat, 4);
            le::lemma_same_front(
                seq![PRESENCE_REMOVED],
                le::le_bytes(e.0 as nat, 4),
                seq![PRESENCE_REMOVED],
                le::le_bytes(f.0 as nat, 4),
            );
            le::lemma_u32_injective(e.0, f.0);
        },
        _ => {
            assert(false);
        },
    }
}

/// A presence cut short, or followed by more, is refused.
pub proof fn law_presence_of_another_length_is_refused(m: Presence, cut: int, more: Seq<u8>)
    requires
        0 <= cut < m.wire().len(),
        more.len() > 0,
    ensures
        Presence::refusal(m.wire().take(cut)) is Some,
        Presence::refusal(m.wire() + more) is Some,
{
    match m {
        Presence::Added { entity, token } => {
            le::lemma_le_len(entity.0 as nat, 4);
            le::lemma_le_len(token as nat, 8);
        },
        Presence::Removed { entity } => {
            le::lemma_le_len(entity.0 as nat, 4);
        },
    }
    if cut > 0 {
        assert(m.wire().take(cut)[0] == m.wire()[0]);
    }
    assert((m.wire() + more)[0] == m.wire()[0]);
}

/// A full message of each kind fits under the cap, its kind byte with it.
pub proof fn law_a_full_message_fits(
    spawns: SpawnEntities,
    moves: MoveEntities,
    despawns: DespawnEntities,
    game: GameMessage,
)
    requires
        spawns.spawns@.len() <= MAX_SPAWN_PER_MESSAGE,
        moves.moves@.len() <= MAX_MOVES_PER_MESSAGE,
        despawns.ids@.len() <= MAX_DESPAWN_PER_MESSAGE,
        game.body@.len() <= MAX_GAME_MESSAGE_BODY,
    ensures
        1 + spawns.wire().len() <= MAX_MESSAGE_BYTES,
        1 + moves.wire().len() <= MAX_MESSAGE_BYTES,
        1 + despawns.wire().len() <= MAX_MESSAGE_BYTES,
        1 + game.wire().len() <= MAX_MESSAGE_BYTES,
{
    lemma_count(spawns.spawns@.len(), spawns_bytes(spawns.spawns@));
    lemma_count(moves.moves@.len(), moves_bytes(moves.moves@));
    lemma_count(despawns.ids@.len(), ids_bytes(despawns.ids@));
    lemma_spawns(spawns.spawns@);
    lemma_moves(moves.moves@);
    lemma_ids(despawns.ids@);
    le::lemma_le_len(game.entity.0 as nat, 4);
}

/// The spawn requests a body holds.
pub open spec fn spawns_in(body: Seq<u8>) -> Seq<Spawn> {
    choose|s: Seq<Spawn>|
        s.len() <= MAX_SPAWN_PER_MESSAGE && #[trigger] (le::le_bytes(s.len(), 4) + spawns_bytes(s))
            == body
}

/// What a body holds is what was written into it.
pub proof fn lemma_spawns_in(s: Seq<Spawn>)
    requires
        s.len() <= MAX_SPAWN_PER_MESSAGE,
    ensures
        spawns_in(le::le_bytes(s.len(), 4) + spawns_bytes(s)) == s,
{
    let body = le::le_bytes(s.len(), 4) + spawns_bytes(s);
    let t = spawns_in(body);
    lemma_count(s.len(), spawns_bytes(s));
    lemma_count(t.len(), spawns_bytes(t));
    le::lemma_same_front(
        le::le_bytes(s.len(), 4),
        spawns_bytes(s),
        le::le_bytes(t.len(), 4),
        spawns_bytes(t),
    );
    lemma_spawns_injective(s, t);
}

/// The moves a body holds.
pub open spec fn moves_in(body: Seq<u8>) -> Seq<(EntityId, Pos3)> {
    choose|s: Seq<(EntityId, Pos3)>|
        s.len() <= MAX_MOVES_PER_MESSAGE && #[trigger] (le::le_bytes(s.len(), 4) + moves_bytes(s))
            == body
}

/// What a body holds is what was written into it.
pub proof fn lemma_moves_in(s: Seq<(EntityId, Pos3)>)
    requires
        s.len() <= MAX_MOVES_PER_MESSAGE,
    ensures
        moves_in(le::le_bytes(s.len(), 4) + moves_bytes(s)) == s,
{
    let body = le::le_bytes(s.len(), 4) + moves_bytes(s);
    let t = moves_in(body);
    lemma_count(s.len(), moves_bytes(s));
    lemma_count(t.len(), moves_bytes(t));
    le::lemma_same_front(
        le::le_bytes(s.len(), 4),
        moves_bytes(s),
        le::le_bytes(t.len(), 4),
        moves_bytes(t),
    );
    lemma_moves_injective(s, t);
}

/// The ids a body holds.
pub open spec fn ids_in(body: Seq<u8>) -> Seq<EntityId> {
    choose|s: Seq<EntityId>|
        s.len() <= MAX_DESPAWN_PER_MESSAGE && #[trigger] (le::le_bytes(s.len(), 4) + ids_bytes(s))
            == body
}

/// What a body holds is what was written into it.
pub proof fn lemma_ids_in(s: Seq<EntityId>)
    requires
        s.len() <= MAX_DESPAWN_PER_MESSAGE,
    ensures
        ids_in(le::le_bytes(s.len(), 4) + ids_bytes(s)) == s,
{
    let body = le::le_bytes(s.len(), 4) + ids_bytes(s);
    let t = ids_in(body);
    lemma_count(s.len(), ids_bytes(s));
    lemma_count(t.len(), ids_bytes(t));
    le::lemma_same_front(
        le::le_bytes(s.len(), 4),
        ids_bytes(s),
        le::le_bytes(t.len(), 4),
        ids_bytes(t),
    );
    lemma_ids_injective(s, t);
}

// ---------------------------------------------------------------------------
// Where each field is
// ---------------------------------------------------------------------------

/// A world's parameters: four lengths in metres, of the region, its height, the
/// view and the speed, then the tick rate, four bytes each, and the digest in
/// eight.
pub proof fn law_world_params_are_laid_out_in_order(p: WorldParams)
    ensures
        ({
            let b = p.wire();
            &&& b.len() == 28
            &&& le::holds_i32(b, 0, p.region_size_m)
            &&& le::holds_i32(b, 4, p.vertical_extent_m)
            &&& le::holds_i32(b, 8, p.horizontal_view_radius_m)
            &&& le::holds_i32(b, 12, p.max_horizontal_speed_m_per_sec)
            &&& le::holds(b, 16, 4, p.tick_hz as int)
            &&& le::holds(b, 20, 8, p.protocol_hash as int)
        }),
{
    let b = p.wire();
    le::lemma_span();
    le::lemma_le_i32(p.region_size_m);
    le::lemma_le_i32(p.vertical_extent_m);
    le::lemma_le_i32(p.horizontal_view_radius_m);
    le::lemma_le_i32(p.max_horizontal_speed_m_per_sec);
    le::lemma_le_len(p.tick_hz as nat, 4);
    le::lemma_le_len(p.protocol_hash as nat, 8);
    assert(b.subrange(0, 4) =~= le::le_i32(p.region_size_m));
    assert(b.subrange(4, 8) =~= le::le_i32(p.vertical_extent_m));
    assert(b.subrange(8, 12) =~= le::le_i32(p.horizontal_view_radius_m));
    assert(b.subrange(12, 16) =~= le::le_i32(p.max_horizontal_speed_m_per_sec));
    assert(b.subrange(16, 20) =~= le::le_bytes(p.tick_hz as nat, 4));
    assert(b.subrange(20, 28) =~= le::le_bytes(p.protocol_hash as nat, 8));
    le::lemma_holds(b, 0, 4, le::bits32(p.region_size_m));
    le::lemma_holds(b, 4, 4, le::bits32(p.vertical_extent_m));
    le::lemma_holds(b, 8, 4, le::bits32(p.horizontal_view_radius_m));
    le::lemma_holds(b, 12, 4, le::bits32(p.max_horizontal_speed_m_per_sec));
    le::lemma_holds(b, 16, 4, p.tick_hz as nat);
    le::lemma_holds(b, 20, 8, p.protocol_hash as nat);
}

/// What a region says it is: the protocol in two bytes, the version it runs in
/// two bytes for each of its three numbers, its id in four, and its world's
/// parameters.
pub proof fn law_server_info_is_laid_out_in_order(m: ServerInfo)
    ensures
        ({
            let b = m.wire();
            &&& b.len() == 40
            &&& le::holds(b, 0, 2, m.protocol.0 as int)
            &&& le::holds(b, 2, 2, m.server.major as int)
            &&& le::holds(b, 4, 2, m.server.minor as int)
            &&& le::holds(b, 6, 2, m.server.patch as int)
            &&& le::holds(b, 8, 4, m.region.0 as int)
            &&& b.subrange(12, 40) == m.params.wire()
        }),
{
    let b = m.wire();
    law_world_params_are_laid_out_in_order(m.params);
    le::lemma_span();
    le::lemma_le_len(m.protocol.0 as nat, 2);
    le::lemma_le_len(m.server.major as nat, 2);
    le::lemma_le_len(m.server.minor as nat, 2);
    le::lemma_le_len(m.server.patch as nat, 2);
    le::lemma_le_len(m.region.0 as nat, 4);
    assert(b.subrange(0, 2) =~= le::le_bytes(m.protocol.0 as nat, 2));
    assert(b.subrange(2, 4) =~= le::le_bytes(m.server.major as nat, 2));
    assert(b.subrange(4, 6) =~= le::le_bytes(m.server.minor as nat, 2));
    assert(b.subrange(6, 8) =~= le::le_bytes(m.server.patch as nat, 2));
    assert(b.subrange(8, 12) =~= le::le_bytes(m.region.0 as nat, 4));
    assert(b.subrange(12, 40) =~= m.params.wire());
    le::lemma_holds(b, 0, 2, m.protocol.0 as nat);
    le::lemma_holds(b, 2, 2, m.server.major as nat);
    le::lemma_holds(b, 4, 2, m.server.minor as nat);
    le::lemma_holds(b, 6, 2, m.server.patch as nat);
    le::lemma_holds(b, 8, 4, m.region.0 as nat);
}

/// A report of an entity: one byte of which report it is, the entity in four
/// bytes, and for one that appeared the token it was asked for with, in eight.
pub proof fn law_presence_is_laid_out_in_order(what: Presence)
    ensures
        match what {
            Presence::Added { entity, token } => {
                let b = what.wire();
                &&& b.len() == 13 && b[0] == 1
                &&& le::holds(b, 1, 4, entity.0 as int)
                &&& le::holds(b, 5, 8, token as int)
            },
            Presence::Removed { entity } => {
                let b = what.wire();
                &&& b.len() == 5 && b[0] == 2
                &&& le::holds(b, 1, 4, entity.0 as int)
            },
        },
{
    let b = what.wire();
    le::lemma_span();
    match what {
        Presence::Added { entity, token } => {
            le::lemma_le_len(entity.0 as nat, 4);
            le::lemma_le_len(token as nat, 8);
            assert(b.subrange(1, 5) =~= le::le_bytes(entity.0 as nat, 4));
            assert(b.subrange(5, 13) =~= le::le_bytes(token as nat, 8));
            le::lemma_holds(b, 1, 4, entity.0 as nat);
            le::lemma_holds(b, 5, 8, token as nat);
        },
        Presence::Removed { entity } => {
            le::lemma_le_len(entity.0 as nat, 4);
            assert(b.subrange(1, 5) =~= le::le_bytes(entity.0 as nat, 4));
            le::lemma_holds(b, 1, 4, entity.0 as nat);
        },
    }
}

/// One spawn: where, in four bytes an axis, its role in one byte, its tag in
/// two, and its token in eight. One move: the entity in four bytes and where,
/// in four bytes an axis.
pub proof fn law_a_spawn_and_a_move_are_laid_out_in_order(s: Spawn, m: (EntityId, Pos3))
    ensures
        ({
            let b = spawn_bytes(s);
            &&& b.len() == 23
            &&& le::holds_i32(b, 0, s.position.x.0)
            &&& le::holds_i32(b, 4, s.position.y.0)
            &&& le::holds_i32(b, 8, s.position.z.0)
            &&& b[12] == match s.kind.role {
                Role::Unattended => 0u8,
                Role::Observer => 1u8,
                Role::Shadow => 2u8,
            }
            &&& le::holds(b, 13, 2, s.kind.tag as int)
            &&& le::holds(b, 15, 8, s.token as int)
        }),
        ({
            let b = move_bytes(m);
            &&& b.len() == 16
            &&& le::holds(b, 0, 4, m.0.0 as int)
            &&& le::holds_i32(b, 4, m.1.x.0)
            &&& le::holds_i32(b, 8, m.1.y.0)
            &&& le::holds_i32(b, 12, m.1.z.0)
        }),
{
    le::lemma_span();
    let b = spawn_bytes(s);
    let p = s.position;
    le::lemma_le_i32(p.x.0);
    le::lemma_le_i32(p.y.0);
    le::lemma_le_i32(p.z.0);
    le::lemma_le_len(s.kind.tag as nat, 2);
    le::lemma_le_len(s.token as nat, 8);
    assert(b.subrange(0, 4) =~= le::le_i32(p.x.0));
    assert(b.subrange(4, 8) =~= le::le_i32(p.y.0));
    assert(b.subrange(8, 12) =~= le::le_i32(p.z.0));
    assert(b.subrange(13, 15) =~= le::le_bytes(s.kind.tag as nat, 2));
    assert(b.subrange(15, 23) =~= le::le_bytes(s.token as nat, 8));
    le::lemma_holds(b, 0, 4, le::bits32(p.x.0));
    le::lemma_holds(b, 4, 4, le::bits32(p.y.0));
    le::lemma_holds(b, 8, 4, le::bits32(p.z.0));
    le::lemma_holds(b, 13, 2, s.kind.tag as nat);
    le::lemma_holds(b, 15, 8, s.token as nat);
    let c = move_bytes(m);
    let q = m.1;
    le::lemma_le_i32(q.x.0);
    le::lemma_le_i32(q.y.0);
    le::lemma_le_i32(q.z.0);
    le::lemma_le_len(m.0.0 as nat, 4);
    assert(c.subrange(0, 4) =~= le::le_bytes(m.0.0 as nat, 4));
    assert(c.subrange(4, 8) =~= le::le_i32(q.x.0));
    assert(c.subrange(8, 12) =~= le::le_i32(q.y.0));
    assert(c.subrange(12, 16) =~= le::le_i32(q.z.0));
    le::lemma_holds(c, 0, 4, m.0.0 as nat);
    le::lemma_holds(c, 4, 4, le::bits32(q.x.0));
    le::lemma_holds(c, 8, 4, le::bits32(q.y.0));
    le::lemma_holds(c, 12, 4, le::bits32(q.z.0));
}

/// How long lists of spawns, of moves and of ids are.
pub proof fn lemma_lists_len(spawns: Seq<Spawn>, moves: Seq<(EntityId, Pos3)>, ids: Seq<EntityId>)
    ensures
        spawns_bytes(spawns).len() == 23 * spawns.len(),
        moves_bytes(moves).len() == 16 * moves.len(),
        ids_bytes(ids).len() == 4 * ids.len(),
    decreases spawns.len() + moves.len() + ids.len(),
{
    if spawns.len() > 0 {
        let last = spawns.last();
        lemma_lists_len(spawns.drop_last(), moves, ids);
        law_a_spawn_and_a_move_are_laid_out_in_order(last, (EntityId(0), last.position));
    } else if moves.len() > 0 {
        let last = moves.last();
        let spare = Spawn {
            position: last.1,
            kind: EntityKind { role: Role::Observer, tag: 0 },
            token: 0,
        };
        lemma_lists_len(spawns, moves.drop_last(), ids);
        law_a_spawn_and_a_move_are_laid_out_in_order(spare, last);
    } else if ids.len() > 0 {
        lemma_lists_len(spawns, moves, ids.drop_last());
        le::lemma_le_len(ids.last().0 as nat, 4);
    }
}

/// What is in the front of some bytes is there whatever follows.
proof fn lemma_front_at(front: Seq<u8>, last: Seq<u8>, from: int, to: int)
    requires
        0 <= from <= to <= front.len(),
    ensures
        (front + last).subrange(from, to) == front.subrange(from, to),
{
    assert((front + last).subrange(from, to) =~= front.subrange(from, to));
}

/// What follows some bytes is behind them.
proof fn lemma_last_at(front: Seq<u8>, last: Seq<u8>)
    ensures
        (front + last).subrange(front.len() as int, (front.len() + last.len()) as int) == last,
{
    assert((front + last).subrange(front.len() as int, (front.len() + last.len()) as int) =~= last);
}

proof fn lemma_spawn_at(spawns: Seq<Spawn>, k: int)
    requires
        0 <= k < spawns.len(),
    ensures
        spawns_bytes(spawns).subrange(23 * k, 23 * k + 23) == spawn_bytes(spawns[k]),
    decreases spawns.len(),
{
    let front = spawns.drop_last();
    lemma_lists_len(front, Seq::empty(), Seq::empty());
    lemma_lists_len(spawns, Seq::empty(), Seq::empty());
    if k < front.len() {
        lemma_spawn_at(front, k);
        lemma_front_at(spawns_bytes(front), spawn_bytes(spawns.last()), 23 * k, 23 * k + 23);
    } else {
        lemma_last_at(spawns_bytes(front), spawn_bytes(spawns.last()));
    }
}

proof fn lemma_move_at(moves: Seq<(EntityId, Pos3)>, k: int)
    requires
        0 <= k < moves.len(),
    ensures
        moves_bytes(moves).subrange(16 * k, 16 * k + 16) == move_bytes(moves[k]),
    decreases moves.len(),
{
    let front = moves.drop_last();
    lemma_lists_len(Seq::empty(), front, Seq::empty());
    lemma_lists_len(Seq::empty(), moves, Seq::empty());
    if k < front.len() {
        lemma_move_at(front, k);
        lemma_front_at(moves_bytes(front), move_bytes(moves.last()), 16 * k, 16 * k + 16);
    } else {
        lemma_last_at(moves_bytes(front), move_bytes(moves.last()));
    }
}

proof fn lemma_id_at(ids: Seq<EntityId>, k: int)
    requires
        0 <= k < ids.len(),
    ensures
        ids_bytes(ids).subrange(4 * k, 4 * k + 4) == le::le_bytes(ids[k].0 as nat, 4),
    decreases ids.len(),
{
    let front = ids.drop_last();
    lemma_lists_len(Seq::empty(), Seq::empty(), front);
    lemma_lists_len(Seq::empty(), Seq::empty(), ids);
    let last = le::le_bytes(ids.last().0 as nat, 4);
    if k < front.len() {
        lemma_id_at(front, k);
        lemma_front_at(ids_bytes(front), last, 4 * k, 4 * k + 4);
    } else {
        lemma_last_at(ids_bytes(front), last);
    }
}

/// A list of spawns, of moves or of ids is how many there are, in four bytes,
/// and then each behind the last: 23 bytes a spawn, 16 a move and 4 an id.
pub proof fn law_a_list_is_its_count_and_its_items(
    spawns: SpawnEntities,
    moves: MoveEntities,
    gone: DespawnEntities,
    k: int,
)
    requires
        spawns.spawns@.len() <= u32::MAX,
        moves.moves@.len() <= u32::MAX,
        gone.ids@.len() <= u32::MAX,
    ensures
        le::holds(spawns.wire(), 0, 4, spawns.spawns@.len() as int),
        le::holds(moves.wire(), 0, 4, moves.moves@.len() as int),
        le::holds(gone.wire(), 0, 4, gone.ids@.len() as int),
        0 <= k < spawns.spawns@.len() ==> spawns.wire().subrange(4 + 23 * k, 27 + 23 * k)
            == spawn_bytes(spawns.spawns@[k]),
        0 <= k < moves.moves@.len() ==> moves.wire().subrange(4 + 16 * k, 20 + 16 * k)
            == move_bytes(moves.moves@[k]),
        0 <= k < gone.ids@.len() ==> le::holds(
            gone.wire(),
            4 + 4 * k,
            4,
            gone.ids@[k].0 as int,
        ),
{
    le::lemma_span();
    let (a, b, c) = (spawns.wire(), moves.wire(), gone.wire());
    le::lemma_le_len(spawns.spawns@.len(), 4);
    le::lemma_le_len(moves.moves@.len(), 4);
    le::lemma_le_len(gone.ids@.len(), 4);
    assert(a.subrange(0, 4) =~= le::le_bytes(spawns.spawns@.len(), 4));
    assert(b.subrange(0, 4) =~= le::le_bytes(moves.moves@.len(), 4));
    assert(c.subrange(0, 4) =~= le::le_bytes(gone.ids@.len(), 4));
    le::lemma_holds(a, 0, 4, spawns.spawns@.len());
    le::lemma_holds(b, 0, 4, moves.moves@.len());
    le::lemma_holds(c, 0, 4, gone.ids@.len());
    lemma_lists_len(spawns.spawns@, moves.moves@, gone.ids@);
    if 0 <= k < spawns.spawns@.len() {
        lemma_spawn_at(spawns.spawns@, k);
        assert(a.subrange(4 + 23 * k, 27 + 23 * k) =~= spawns_bytes(spawns.spawns@).subrange(
            23 * k,
            23 * k + 23,
        ));
    }
    if 0 <= k < moves.moves@.len() {
        lemma_move_at(moves.moves@, k);
        assert(b.subrange(4 + 16 * k, 20 + 16 * k) =~= moves_bytes(moves.moves@).subrange(
            16 * k,
            16 * k + 16,
        ));
    }
    if 0 <= k < gone.ids@.len() {
        lemma_id_at(gone.ids@, k);
        assert(c.subrange(4 + 4 * k, 8 + 4 * k) =~= ids_bytes(gone.ids@).subrange(
            4 * k,
            4 * k + 4,
        ));
        le::lemma_holds(c, 4 + 4 * k, 4, gone.ids@[k].0 as nat);
    }
}

} // verus!
