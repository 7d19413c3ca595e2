//! What an edge holds, and what everything that can happen to it changes.
//!
//! An edge is one value, an [`Edge`], and every event is a function from one
//! such value to the next. What is to be said to regions, to clients and to
//! the consumer's game is part of the value: it is appended to what the edge
//! has to say, in the order it is to be said.
//!
//! [`crate::net::edge::handle`] is the same thing as memory, and each of its
//! operations is held to the function here that it carries out.

use vstd::prelude::*;

use crate::config::World;
use crate::entity::{EntityId, EntityKind, Role};
use crate::fixed::Fixed;
use crate::game::TeleportDecision;
use crate::id;
use crate::id::{ClientId, EntityHandle, EntityKey, RegionId};
use crate::map::{Placement, Places};
use crate::net::edge::protocol::{EdgeInfo, FromClient, ToClient};
use crate::net::edge::seam;
use crate::net::region::protocol::{Presence, Spawn};
use crate::pos::{Pos3, WorldPos};
use crate::table;

verus! {

/// How long a teleport waits for the destination to confirm the spawn before
/// it is given up, in nanoseconds: the destination copy is forgotten, what was
/// held for the entity meanwhile goes to the region it is still in, and its
/// client is told the teleport failed.
///
/// The whole sequence takes a few tens of milliseconds, so only a destination
/// that is down or unreachable reaches this. Two seconds is a guess, and not
/// yet a setting.
pub const TELEPORT_TIMEOUT: u64 = 2_000_000_000;

/// Something to say to a region.
///
/// Queued rather than published where it is decided: one thread owns the
/// region side and everything reaches it through here.
#[derive(Clone, Debug, PartialEq, Eq)]
pub enum Outgoing<B> {
    /// Asks for an entity, under the name every region writes for it.
    Spawn(RegionId, Spawn, EntityKey),
    /// Gives one back.
    Despawn(RegionId, EntityId),
    /// A game's message to the region an entity lives in.
    Message(RegionId, EntityId, B),
}

/// Something to say to the consumer's game.
#[derive(Clone, Debug, PartialEq, Eq)]
pub enum Notice<B> {
    /// A region allocated an id.
    Spawned(EntityKey, Option<ClientId>, RegionId, EntityId),
    /// An entity has left its region.
    Removed(EntityKey, Option<ClientId>),
    /// A teleported entity arrived, from one region in another, with what the
    /// game packed for it.
    Arrived(EntityKey, Option<ClientId>, RegionId, RegionId, B),
    /// A client's own bytes.
    Message(ClientId, B),
    /// The last call for a client, which owns nothing by now.
    Disconnected(ClientId),
}

/// One thing an edge has decided to say.
#[derive(Clone, Debug, PartialEq, Eq)]
pub enum Effect<B> {
    /// To a region.
    Tell(Outgoing<B>),
    /// To a game client.
    Post(ClientId, ToClient<'static>),
    /// To the consumer's game.
    Game(Notice<B>),
}

/// An effect, its bodies taken as sequences.
pub type Said = Effect<Seq<u8>>;

/// What this edge has done since it started, as it is counted.
#[derive(Clone, Copy, Debug, PartialEq, Eq, Structural)]
pub struct Counters {
    /// Entities with a client behind them, kept current rather than counted on
    /// demand.
    pub observers: u32,
    /// State packets handed to a client's connection.
    pub relayed: u64,
    /// State packets that reached no client.
    pub undeliverable: u64,
    /// Messages read from clients.
    pub commands: u64,
    /// Commands this edge declined.
    pub refused: u64,
    /// World positions no placed region covers.
    pub off_map: u64,
    /// Shadows this edge keeps.
    pub shadows: u32,
    /// Boundary collisions answered by crossing.
    pub crossings: u64,
    /// Boundary collisions dropped.
    pub walls: u64,
    /// Teleports given up.
    pub teleport_timeouts: u64,
}

/// What a region runs, as the edge keeps it: what a client is told, and the
/// config the edge's own seam arithmetic reads.
#[derive(Clone, Copy, Debug, PartialEq, Eq, Structural)]
pub struct RegionWorld {
    /// What a client is told.
    pub info: EdgeInfo,
    /// The config it runs.
    pub config: crate::config::WorldConfig,
}

impl View for RegionWorld {
    type V = RegionWorld;

    open spec fn view(&self) -> RegionWorld {
        *self
    }
}

impl RegionWorld {
    /// What an edge keeps of a region that says it runs a world.
    pub open spec fn of(
        region: RegionId,
        config: crate::config::WorldConfig,
        placement: Option<Placement>,
    ) -> RegionWorld {
        RegionWorld {
            info: EdgeInfo {
                region,
                region_size_m: (config@.region_size / 1024) as i32,
                vertical_extent_m: (config@.vertical_extent / 1024) as i32,
                placement,
            },
            config,
        }
    }

    /// What an edge keeps of a region that says it runs a world.
    pub fn new(
        region: RegionId,
        config: crate::config::WorldConfig,
        placement: Option<Placement>,
    ) -> (w: RegionWorld)
        ensures
            w == RegionWorld::of(region, config, placement),
    {
        let info = EdgeInfo {
            region,
            region_size_m: config.region_size().floor_meters(),
            vertical_extent_m: config.vertical_extent().floor_meters(),
            placement,
        };
        RegionWorld { info, config }
    }
}

/// One spawn to ask a region for.
#[derive(Clone, Copy, Debug, PartialEq, Eq, Structural)]
pub struct Ask {
    /// Whose it is to be.
    pub client: Option<ClientId>,
    /// The asking client's own name for it.
    pub handle: Option<EntityHandle>,
    /// The region asked.
    pub region: RegionId,
    /// Where to put it, in that region's frame.
    pub at: Pos3,
    /// What is behind it.
    pub kind: EntityKind,
    /// For a shadow, the observer it stands in for.
    pub shadow_of: Option<EntityKey>,
    /// The name it already has, if it has one.
    pub name: Option<EntityKey>,
}

impl Ask {
    /// A plain one: an entity for a client, or for nobody.
    pub open spec fn plain(
        client: Option<ClientId>,
        region: RegionId,
        at: Pos3,
        kind: EntityKind,
    ) -> Ask {
        Ask { client, handle: None, region, at, kind, shadow_of: None, name: None }
    }
}

/// One teleport in flight and when it is given up, for the sweep.
#[derive(Clone, Copy, Debug, PartialEq, Eq, Structural)]
pub struct Transit {
    /// The entity leaving.
    pub from: EntityKey,
    /// Its copy at the destination.
    pub to: EntityKey,
    /// When it is given up, in nanoseconds.
    pub deadline: u64,
}

/// An entity about to be teleported, as it stood when the game was asked.
#[derive(Clone, Copy, Debug, PartialEq, Eq, Structural)]
pub struct Departure {
    /// Which entity.
    pub key: EntityKey,
    /// Whose it is.
    pub client: Option<ClientId>,
    /// What is behind it.
    pub kind: EntityKind,
    /// The region it is in.
    pub from: RegionId,
    /// The region it is bound for.
    pub dest: RegionId,
    /// Where it is to be put, in that region's frame.
    pub position: Pos3,
    /// Where that is in world coordinates, for the game.
    pub at: WorldPos,
    /// The name it keeps.
    pub name: EntityKey,
}

/// What a region reports of an entity of this edge's.
#[derive(Clone, Copy, Debug, PartialEq, Eq, Structural)]
pub enum Report {
    /// Now exists and is managed by this edge.
    Added {
        /// The id the region allocated.
        entity: EntityId,
        /// What this edge sent with the spawn that asked for it.
        token: u64,
    },
    /// An observer's view reaches its region's box.
    ViewCollision {
        /// Which observer.
        entity: EntityId,
        /// Where it is, in the region's frame.
        position: Pos3,
    },
    /// An observer's view no longer reaches its region's box.
    ViewCleared {
        /// Which observer.
        entity: EntityId,
    },
    /// An entity reached its region's box and was stopped at it.
    BoundaryCollision {
        /// Which entity.
        entity: EntityId,
        /// Where it was going, in the region's frame.
        target: Pos3,
    },
    /// No longer exists.
    Removed {
        /// The id that is gone.
        entity: EntityId,
    },
}

impl Report {
    /// What an edge makes of a region's report on the wire.
    pub open spec fn of(what: Presence) -> Report {
        match what {
            Presence::Added { entity, token } => Report::Added { entity, token },
            Presence::Removed { entity } => Report::Removed { entity },
        }
    }

    /// What an edge makes of a region's report on the wire.
    pub fn read(what: Presence) -> (r: Report)
        ensures
            r == Report::of(what),
    {
        match what {
            Presence::Added { entity, token } => Report::Added { entity, token },
            Presence::Removed { entity } => Report::Removed { entity },
        }
    }
}

/// A teleport in flight, kept on the entity leaving.
///
/// What arrives for the entity meanwhile is held here and forwarded after the
/// remap, so a move or a message sent during the transition reaches the
/// destination rather than a copy about to be given back.
#[verifier::ext_equal]
pub struct Passage {
    /// The destination copy, whose arrival completes this.
    pub to: EntityKey,
    /// The region it is bound for.
    pub dest: RegionId,
    /// The latest position asked for meanwhile, in world coordinates.
    pub held_move: Option<WorldPos>,
    /// Entity messages sent meanwhile, in arrival order.
    pub held_messages: Seq<Seq<u8>>,
}

/// One entity an edge manages.
#[verifier::ext_equal]
pub struct Held {
    /// Whose it is.
    pub client: Option<ClientId>,
    /// The asking client's own name for it, if a client asked.
    pub handle: Option<EntityHandle>,
    /// The region it is in.
    pub region: RegionId,
    /// What is behind it.
    pub kind: EntityKind,
    /// `None` until the region reports the id it allocated.
    pub id: Option<EntityId>,
    /// Where it should be, held until the region reports an id to move.
    pub pending: Option<Pos3>,
    /// Given back, and waiting for the region to say it has gone.
    pub doomed: bool,
    /// The entity this one replaces, for the destination copy of a teleport.
    pub replaces: Option<EntityKey>,
    /// The shadows this observer keeps across seams.
    pub shadows: Seq<EntityKey>,
    /// For a shadow, the observer it stands in for.
    pub shadow_of: Option<EntityKey>,
    /// The name every region writes for it.
    pub name: EntityKey,
    /// The last thing its client said to it.
    pub standing: Option<Seq<u8>>,
    /// Set while a teleport of this entity is in flight.
    pub transition: Option<Passage>,
}

/// One connected game client.
#[verifier::ext_equal]
pub struct Party {
    /// This connection's own names for the entities it asked for.
    pub handles: Map<u64, u64>,
    /// Everything bound to this client, in the order it was asked for.
    pub keys: Seq<EntityKey>,
    /// The regions whose worlds this client has been told of.
    pub told: Seq<RegionId>,
    /// Its entities are being swept.
    pub leaving: bool,
}

/// Everything an edge holds.
#[verifier::ext_equal]
pub struct Edge {
    /// Who is connected.
    pub clients: Map<u64, Party>,
    /// The entities, by this edge's name for each.
    pub by_key: Map<u64, Held>,
    /// This edge's name for what a region calls an id.
    pub by_id: Map<u64, u64>,
    /// Positions waiting to be published, latest per entity.
    pub moves: Map<u64, Pos3>,
    /// What each region runs, for those that have said.
    pub worlds: Map<u64, RegionWorld>,
    /// The next client's name.
    pub next_client: u64,
    /// The next entity's name.
    pub next_key: u64,
    /// What has been counted.
    pub counters: Counters,
    /// Which region sits where.
    pub map: Places,
    /// The region size every placed region shares, once one has said.
    pub region_size: Option<Fixed>,
    /// Game state carried by teleports, by the destination copy's name.
    pub carried: Map<u64, Seq<u8>>,
    /// Teleports in flight, oldest first.
    pub transits: Seq<Transit>,
    /// What is to be said, in order.
    pub out: Seq<Said>,
}

/// A region's id and an entity's as one number.
pub open spec fn seat(region: RegionId, id: EntityId) -> u64 {
    (region.0 * 0x1_0000_0000 + id.0) as u64
}

/// One more, where 64 bits wrap.
pub open spec fn up(n: u64) -> u64 {
    if n == u64::MAX {
        0
    } else {
        (n + 1) as u64
    }
}

/// One more, where 32 bits wrap.
pub open spec fn up32(n: u32) -> u32 {
    if n == u32::MAX {
        0
    } else {
        (n + 1) as u32
    }
}

/// One fewer, where 32 bits wrap.
pub open spec fn down32(n: u32) -> u32 {
    if n == 0 {
        u32::MAX
    } else {
        (n - 1) as u32
    }
}

/// A list without one key.
pub open spec fn without(keys: Seq<EntityKey>, key: EntityKey) -> Seq<EntityKey>
    decreases keys.len(),
{
    if keys.len() == 0 {
        Seq::empty()
    } else if keys.last() == key {
        without(keys.drop_last(), key)
    } else {
        without(keys.drop_last(), key).push(keys.last())
    }
}

/// The keys of one list that are not in another.
pub open spec fn beyond(keys: Seq<EntityKey>, keep: Seq<EntityKey>) -> Seq<EntityKey>
    decreases keys.len(),
{
    if keys.len() == 0 {
        Seq::empty()
    } else if keep.contains(keys.last()) {
        beyond(keys.drop_last(), keep)
    } else {
        beyond(keys.drop_last(), keep).push(keys.last())
    }
}

/// The teleports that are not toward a copy.
pub open spec fn not_toward(transits: Seq<Transit>, to: EntityKey) -> Seq<Transit>
    decreases transits.len(),
{
    if transits.len() == 0 {
        Seq::empty()
    } else if transits.last().to == to {
        not_toward(transits.drop_last(), to)
    } else {
        not_toward(transits.drop_last(), to).push(transits.last())
    }
}

/// The teleports whose deadline has come, or those whose has not.
pub open spec fn due(transits: Seq<Transit>, now: u64, come: bool) -> Seq<Transit>
    decreases transits.len(),
{
    if transits.len() == 0 {
        Seq::empty()
    } else if (transits.last().deadline <= now) == come {
        due(transits.drop_last(), now, come).push(transits.last())
    } else {
        due(transits.drop_last(), now, come)
    }
}

impl Counters {
    /// With one entity more of a kind.
    pub open spec fn with(self, kind: EntityKind) -> Counters {
        match kind.role {
            Role::Observer => Counters { observers: up32(self.observers), ..self },
            Role::Shadow => Counters { shadows: up32(self.shadows), ..self },
            Role::Unattended => self,
        }
    }

    /// With one entity fewer of a kind.
    pub open spec fn without(self, kind: EntityKind) -> Counters {
        match kind.role {
            Role::Observer => Counters { observers: down32(self.observers), ..self },
            Role::Shadow => Counters { shadows: down32(self.shadows), ..self },
            Role::Unattended => self,
        }
    }
}

impl Party {
    /// A client that has just connected.
    pub open spec fn fresh() -> Party {
        Party { handles: Map::empty(), keys: Seq::empty(), told: Seq::empty(), leaving: false }
    }

    /// With one entity more.
    pub open spec fn with(self, key: EntityKey, handle: Option<EntityHandle>) -> Party {
        Party {
            keys: if self.keys.contains(key) {
                self.keys
            } else {
                self.keys.push(key)
            },
            handles: match handle {
                Some(h) => self.handles.insert(h.0 as u64, key.0),
                None => self.handles,
            },
            ..self
        }
    }

    /// With one entity fewer.
    pub open spec fn minus(self, key: EntityKey, handle: Option<EntityHandle>) -> Party {
        Party {
            keys: without(self.keys, key),
            handles: match handle {
                Some(h) => self.handles.remove(h.0 as u64),
                None => self.handles,
            },
            ..self
        }
    }

    /// With one entity in another's place, under the same handle.
    pub open spec fn remapped(
        self,
        from: EntityKey,
        to: EntityKey,
        handle: Option<EntityHandle>,
    ) -> Party {
        Party {
            keys: without(self.keys, from),
            handles: match handle {
                Some(h) => self.handles.insert(h.0 as u64, to.0),
                None => self.handles,
            },
            ..self
        }
    }
}

impl Edge {
    // -- what is said -----------------------------------------------------

    /// With one thing more to say.
    pub open spec fn saying(self, what: Said) -> Edge {
        Edge { out: self.out.push(what), ..self }
    }

    /// With one thing more to say to a region.
    pub open spec fn telling(self, what: Outgoing<Seq<u8>>) -> Edge {
        self.saying(Effect::Tell(what))
    }

    /// With several messages more for one entity's region, in order.
    pub open spec fn telling_all(
        self,
        region: RegionId,
        id: EntityId,
        bodies: Seq<Seq<u8>>,
    ) -> Edge
        decreases bodies.len(),
    {
        if bodies.len() == 0 {
            self
        } else {
            self.telling_all(region, id, bodies.drop_last()).telling(
                Outgoing::Message(region, id, bodies.last()),
            )
        }
    }

    /// With one thing more to say to a client, if the entity it is about has
    /// both a client and that client's own name for it.
    pub open spec fn posting(
        self,
        client: Option<ClientId>,
        handle: Option<EntityHandle>,
        what: ToClient<'static>,
    ) -> Edge {
        match (client, handle) {
            (Some(client), Some(_)) => self.saying(Effect::Post(client, what)),
            _ => self,
        }
    }

    /// With one thing more to say to the game.
    pub open spec fn noting(self, what: Notice<Seq<u8>>) -> Edge {
        self.saying(Effect::Game(what))
    }

    // -- counting ---------------------------------------------------------

    /// With one command more declined.
    pub open spec fn refusing(self) -> Edge {
        Edge { counters: Counters { refused: up(self.counters.refused), ..self.counters }, ..self }
    }

    /// With one position more off the map.
    pub open spec fn off_map(self) -> Edge {
        Edge { counters: Counters { off_map: up(self.counters.off_map), ..self.counters }, ..self }
    }

    /// With one boundary collision more dropped.
    pub open spec fn walled(self) -> Edge {
        Edge { counters: Counters { walls: up(self.counters.walls), ..self.counters }, ..self }
    }

    // -- where things are -------------------------------------------------

    /// The placed region a world position falls in and the position inside
    /// it. `None` off the map, or before any placed region has said how big a
    /// region is.
    pub open spec fn located(self, at: WorldPos) -> Option<(RegionId, Pos3)> {
        match self.region_size {
            Some(size) => crate::map::located(self.map, at, size),
            None => None,
        }
    }

    /// A world position in one region's frame, inside its box or not. A region
    /// off the map is its own frame.
    pub open spec fn framed(self, region: RegionId, at: WorldPos) -> Option<Pos3> {
        match crate::map::square_of(self.map, region) {
            Some(square) => match self.region_size {
                Some(size) => at.local(square, size),
                None => None,
            },
            None => at.unplaced(),
        }
    }

    /// This edge's name for what a region calls an id, if it still holds it.
    pub open spec fn known(self, region: RegionId, id: EntityId) -> Option<EntityKey> {
        if self.by_id.contains_key(seat(region, id)) && self.by_key.contains_key(
            self.by_id[seat(region, id)],
        ) {
            Some(EntityKey(self.by_id[seat(region, id)]))
        } else {
            None
        }
    }

    /// A client's own name for one of its entities, resolved.
    pub open spec fn named(self, client: ClientId, handle: EntityHandle) -> Option<EntityKey> {
        if self.clients.contains_key(client.0) && self.clients[client.0].handles.contains_key(
            handle.0 as u64,
        ) {
            Some(EntityKey(self.clients[client.0].handles[handle.0 as u64]))
        } else {
            None
        }
    }

    // -- entities ---------------------------------------------------------

    /// With the record of one entity replaced.
    pub open spec fn keeping(self, key: EntityKey, held: Held) -> Edge {
        Edge { by_key: self.by_key.insert(key.0, held), ..self }
    }

    /// A spawn asked for and recorded, under the next key.
    pub open spec fn asked(self, ask: Ask) -> Edge {
        let key = EntityKey(self.next_key);
        let name = match ask.name {
            Some(name) => name,
            None => key,
        };
        let held = Held {
            client: ask.client,
            handle: ask.handle,
            region: ask.region,
            kind: ask.kind,
            id: None,
            pending: None,
            doomed: false,
            replaces: None,
            shadows: Seq::empty(),
            shadow_of: ask.shadow_of,
            name,
            standing: None,
            transition: None,
        };
        Edge {
            by_key: self.by_key.insert(key.0, held),
            next_key: id::issued(self.next_key, 1) as u64,
            clients: match ask.client {
                Some(c) => if self.clients.contains_key(c.0) {
                    self.clients.insert(c.0, self.clients[c.0].with(key, ask.handle))
                } else {
                    self.clients
                },
                None => self.clients,
            },
            counters: self.counters.with(ask.kind),
            ..self
        }.telling(
            Outgoing::Spawn(
                ask.region,
                Spawn { position: ask.at, kind: ask.kind, token: key.0 },
                name,
            ),
        )
    }

    /// Without any record of an entity.
    pub open spec fn forgotten(self, key: EntityKey) -> Edge {
        if !self.by_key.contains_key(key.0) {
            self
        } else {
            let held = self.by_key[key.0];
            Edge {
                by_key: self.by_key.remove(key.0),
                by_id: match held.id {
                    Some(id) => self.by_id.remove(seat(held.region, id)),
                    None => self.by_id,
                },
                counters: self.counters.without(held.kind),
                clients: match held.client {
                    Some(c) => if self.clients.contains_key(c.0) {
                        self.clients.insert(c.0, self.clients[c.0].minus(key, held.handle))
                    } else {
                        self.clients
                    },
                    None => self.clients,
                },
                ..self
            }
        }
    }

    /// With an entity given back: its region told and nothing more sent under
    /// it, or, if its region has not answered for it yet, forgotten outright.
    pub open spec fn released(self, key: EntityKey) -> Edge {
        if !self.by_key.contains_key(key.0) {
            self
        } else {
            let held = self.by_key[key.0];
            match held.id {
                None => self.forgotten(key),
                Some(id) => Edge {
                    moves: self.moves.remove(seat(held.region, id)),
                    ..self.keeping(key, Held { pending: None, doomed: true, ..held })
                }.telling(Outgoing::Despawn(held.region, id)),
            }
        }
    }

    /// With several entities given back, in order.
    pub open spec fn released_all(self, keys: Seq<EntityKey>) -> Edge
        decreases keys.len(),
    {
        if keys.len() == 0 {
            self
        } else {
            self.released_all(keys.drop_last()).released(keys.last())
        }
    }

    /// With a position waiting to be published, latest wins.
    pub open spec fn queued(self, region: RegionId, id: EntityId, to: Pos3) -> Edge {
        Edge { moves: self.moves.insert(seat(region, id), to), ..self }
    }

    /// With a position waiting if there is one.
    pub open spec fn queued_if(self, region: RegionId, id: EntityId, to: Option<Pos3>) -> Edge {
        match to {
            Some(to) => self.queued(region, id, to),
            None => self,
        }
    }

    /// With an entity put somewhere in its region's frame: queued, or held
    /// until its region has said which id it is. One given back stays put.
    pub open spec fn placed(self, key: EntityKey, to: Pos3) -> Edge {
        if !self.by_key.contains_key(key.0) || self.by_key[key.0].doomed {
            self
        } else {
            let held = self.by_key[key.0];
            match held.id {
                Some(id) => self.queued(held.region, id, to),
                None => self.keeping(key, Held { pending: Some(to), ..held }),
            }
        }
    }

    /// With an entity put somewhere in the world. In transit, the position is
    /// held; where its region's frame cannot hold it, it is dropped.
    pub open spec fn world_placed(self, key: EntityKey, at: WorldPos) -> Edge {
        if !self.by_key.contains_key(key.0) {
            self
        } else {
            let held = self.by_key[key.0];
            match held.transition {
                Some(passage) => self.keeping(
                    key,
                    Held {
                        transition: Some(Passage { held_move: Some(at), ..passage }),
                        ..held
                    },
                ),
                None => match self.framed(held.region, at) {
                    Some(to) => self.placed(key, to),
                    None => self.off_map(),
                },
            }
        }
    }

    /// With several entities put somewhere in the world, in order.
    pub open spec fn all_placed(self, moves: Seq<(EntityKey, WorldPos)>) -> Edge
        decreases moves.len(),
    {
        if moves.len() == 0 {
            self
        } else {
            self.all_placed(moves.drop_last()).world_placed(moves.last().0, moves.last().1)
        }
    }

    // -- what a region reports --------------------------------------------

    /// A region reported an entity this edge asked for.
    pub open spec fn added(self, region: RegionId, entity: EntityId, token: u64) -> Edge {
        let key = EntityKey(token);
        if !self.by_key.contains_key(token) {
            self.telling(Outgoing::Despawn(region, entity))
        } else {
            let held = self.by_key[token];
            let now = Edge {
                by_id: self.by_id.insert(seat(region, entity), token),
                ..self.keeping(
                    key,
                    Held { id: Some(entity), pending: None, replaces: None, ..held },
                )
            };
            match held.replaces {
                Some(old) => now.arrived(key, entity, region, held.client, held.pending, old),
                None => {
                    let now = now.queued_if(region, entity, held.pending).posting(
                        held.client,
                        held.handle,
                        ToClient::Spawned { handle: held.handle->0, region, entity },
                    );
                    if held.shadow_of is Some {
                        now
                    } else {
                        now.noting(Notice::Spawned(key, held.client, region, entity))
                    }
                },
            }
        }
    }

    /// The second half of a teleport: the destination reported the copy. It
    /// takes over the handle, the entity it replaces is given back, and what
    /// was held for that one goes to it.
    pub open spec fn arrived(
        self,
        new: EntityKey,
        entity: EntityId,
        dest: RegionId,
        client: Option<ClientId>,
        pending: Option<Pos3>,
        old: EntityKey,
    ) -> Edge {
        if !self.by_key.contains_key(old.0) {
            let now = self.telling(Outgoing::Despawn(dest, entity)).forgotten(new);
            Edge { transits: not_toward(now.transits, new), ..now }
        } else {
            let left = self.by_key[old.0];
            self.remapped(new, client, old).forwarded(new, entity, dest, pending, left).greeted(
                new,
                entity,
                dest,
                client,
                left,
            )
        }
    }

    /// The copy in the place of the entity it replaces: under its handle, and
    /// that entity's own shadows given back.
    pub open spec fn remapped(self, new: EntityKey, client: Option<ClientId>, old: EntityKey) -> Edge {
        let left = self.by_key[old.0];
        let heir = match left.handle {
            Some(_) => if self.by_key.contains_key(new.0) {
                self.keeping(new, Held { handle: left.handle, ..self.by_key[new.0] })
            } else {
                self
            },
            None => self,
        };
        let now = Edge {
            by_key: heir.by_key.remove(old.0),
            by_id: match left.id {
                Some(id) => self.by_id.remove(seat(left.region, id)),
                None => self.by_id,
            },
            ..self
        }.released_all(left.shadows);
        Edge {
            transits: not_toward(now.transits, new),
            clients: match client {
                Some(c) => if now.clients.contains_key(c.0) {
                    now.clients.insert(c.0, now.clients[c.0].remapped(old, new, left.handle))
                } else {
                    now.clients
                },
                None => now.clients,
            },
            ..now
        }
    }

    /// The origin copy given back, and everything said to it carried on: the
    /// position asked for, what its client last said, then what arrived in
    /// transit, in order.
    pub open spec fn forwarded(
        self,
        new: EntityKey,
        entity: EntityId,
        dest: RegionId,
        pending: Option<Pos3>,
        left: Held,
    ) -> Edge {
        let now = match left.id {
            Some(id) => Edge { moves: self.moves.remove(seat(left.region, id)), ..self }.telling(
                Outgoing::Despawn(left.region, id),
            ),
            None => self,
        };
        let now = now.queued_if(dest, entity, pending);
        let now = match left.standing {
            Some(body) => now.telling(Outgoing::Message(dest, entity, body)),
            None => now,
        };
        let now = match left.transition {
            Some(passage) => {
                let held = match passage.held_move {
                    Some(at) => now.framed(dest, at),
                    None => None,
                };
                now.queued_if(dest, entity, held).telling_all(dest, entity, passage.held_messages)
            },
            None => now,
        };
        match left.standing {
            Some(_) => if now.by_key.contains_key(new.0) {
                now.keeping(new, Held { standing: left.standing, ..now.by_key[new.0] })
            } else {
                now
            },
            None => now,
        }
    }

    /// The client and the game told of an arrival, in that order.
    pub open spec fn greeted(
        self,
        new: EntityKey,
        entity: EntityId,
        dest: RegionId,
        client: Option<ClientId>,
        left: Held,
    ) -> Edge {
        let now = Edge { counters: self.counters.without(left.kind), ..self }.posting(
            client,
            left.handle,
            ToClient::Spawned { handle: left.handle->0, region: dest, entity },
        ).posting(
            client,
            left.handle,
            ToClient::Teleported { handle: left.handle->0, region: dest },
        );
        let state = if now.carried.contains_key(new.0) {
            now.carried[new.0]
        } else {
            Seq::empty()
        };
        Edge { carried: now.carried.remove(new.0), ..now }.noting(
            Notice::Spawned(new, client, dest, entity),
        ).noting(Notice::Arrived(new, client, left.region, dest, state))
    }

    /// The shadows of a list that are still held, each with its region.
    pub open spec fn standing_in(self, shadows: Seq<EntityKey>) -> Seq<(EntityKey, RegionId)>
        decreases shadows.len(),
    {
        if shadows.len() == 0 {
            Seq::empty()
        } else if self.by_key.contains_key(shadows.last().0) {
            self.standing_in(shadows.drop_last()).push(
                (shadows.last(), self.by_key[shadows.last().0].region),
            )
        } else {
            self.standing_in(shadows.drop_last())
        }
    }

    /// With an observer's shadow kept in the region beyond one square, moved
    /// there if it has one and asked for if not.
    pub open spec fn shadowed(
        self,
        owner: EntityKey,
        client: Option<ClientId>,
        existing: Seq<(EntityKey, RegionId)>,
        w: World,
        here: WorldPos,
        square: Placement,
        keep: Seq<EntityKey>,
    ) -> (Edge, Seq<EntityKey>) {
        match crate::map::region_in(self.map, square) {
            None => (self, keep),
            Some(neighbor) => match seam::shadow_spot(w, here, square) {
                None => (self, keep),
                Some(point) => match first_in(existing, neighbor) {
                    Some(shadow) => (self.placed(shadow, point), keep.push(shadow)),
                    None => (
                        self.asked(
                            Ask {
                                client,
                                handle: None,
                                region: neighbor,
                                at: point,
                                kind: EntityKind { role: Role::Shadow, tag: 0 },
                                shadow_of: Some(owner),
                                name: None,
                            },
                        ),
                        keep.push(EntityKey(self.next_key)),
                    ),
                },
            },
        }
    }

    /// With an observer's shadows kept beyond each of several squares.
    pub open spec fn all_shadowed(
        self,
        owner: EntityKey,
        client: Option<ClientId>,
        existing: Seq<(EntityKey, RegionId)>,
        w: World,
        here: WorldPos,
        squares: Seq<Placement>,
    ) -> (Edge, Seq<EntityKey>)
        decreases squares.len(),
    {
        if squares.len() == 0 {
            (self, Seq::empty())
        } else {
            let (now, keep) = self.all_shadowed(
                owner,
                client,
                existing,
                w,
                here,
                squares.drop_last(),
            );
            now.shadowed(owner, client, existing, w, here, squares.last(), keep)
        }
    }

    /// An observer's view reaches its region's box: a shadow is kept in each
    /// placed region it reaches, and given back in each it no longer does.
    pub open spec fn viewed(self, region: RegionId, entity: EntityId, position: Pos3) -> Edge {
        match self.known(region, entity) {
            None => self,
            Some(key) => {
                let held = self.by_key[key.0];
                if held.shadow_of is Some || crate::map::square_of(self.map, region) is None
                    || !self.worlds.contains_key(region.0 as u64) {
                    self
                } else {
                    let square = crate::map::square_of(self.map, region)->0;
                    let w = self.worlds[region.0 as u64].config@;
                    let here = WorldPos::of_local(position, square, Fixed(w.region_size as i32));
                    let existing = self.standing_in(held.shadows);
                    let (now, keep) = self.all_shadowed(
                        key,
                        held.client,
                        existing,
                        w,
                        here,
                        seam::squares_seen(w, square, position),
                    );
                    now.released_all(beyond(keys_of(existing), keep)).listing(key, keep)
                }
            },
        }
    }

    /// With an observer's list of shadows replaced, if it is still held.
    pub open spec fn listing(self, key: EntityKey, shadows: Seq<EntityKey>) -> Edge {
        if self.by_key.contains_key(key.0) {
            self.keeping(key, Held { shadows, ..self.by_key[key.0] })
        } else {
            self
        }
    }

    /// An observer's view no longer reaches its region's box: its shadows are
    /// given back.
    pub open spec fn cleared(self, region: RegionId, entity: EntityId) -> Edge {
        match self.known(region, entity) {
            None => self,
            Some(key) => self.listing(key, Seq::empty()).released_all(
                self.by_key[key.0].shadows,
            ),
        }
    }

    /// What an entity bound for another region would leave as, or `None` if it
    /// may not: unknown, given back, in transit already, or there already.
    pub open spec fn departing(
        self,
        key: EntityKey,
        dest: RegionId,
        position: Pos3,
        at: WorldPos,
    ) -> Option<Departure> {
        if !self.by_key.contains_key(key.0) {
            None
        } else {
            let held = self.by_key[key.0];
            if held.doomed || held.transition is Some || held.region == dest {
                None
            } else {
                Some(
                    Departure {
                        key,
                        client: held.client,
                        kind: held.kind,
                        from: held.region,
                        dest,
                        position,
                        at,
                        name: held.name,
                    },
                )
            }
        }
    }

    /// An entity reached its region's box: the departure to put to the game
    /// where a placed region lies beyond it, and a wall where none does.
    pub open spec fn collided(self, region: RegionId, entity: EntityId, target: Pos3) -> (
        Edge,
        Option<Departure>,
    ) {
        match self.known(region, entity) {
            None => (self, None),
            Some(key) => {
                let held = self.by_key[key.0];
                if held.shadow_of is Some || held.doomed || held.transition is Some {
                    (self, None)
                } else {
                    match (crate::map::square_of(self.map, region), self.region_size) {
                        (Some(square), Some(size)) => {
                            let at = WorldPos::of_local(target, square, size);
                            match self.located(at) {
                                Some((dest, local)) => if dest == region {
                                    (self.walled(), None)
                                } else {
                                    match self.departing(key, dest, local, at) {
                                        Some(d) => (self, Some(d)),
                                        None => (self.walled(), None),
                                    }
                                },
                                None => (self.walled(), None),
                            }
                        },
                        _ => (self.walled(), None),
                    }
                }
            },
        }
    }

    /// A region reported an entity gone.
    pub open spec fn removed(self, region: RegionId, entity: EntityId) -> Edge {
        match self.known(region, entity) {
            None => self,
            Some(key) => {
                let held = self.by_key[key.0];
                let now = self.forgotten(key);
                match held.shadow_of {
                    Some(owner) => if now.by_key.contains_key(owner.0) {
                        now.listing(owner, without(now.by_key[owner.0].shadows, key))
                    } else {
                        now
                    },
                    None => {
                        let now = now.released_all(held.shadows).posting(
                            held.client,
                            held.handle,
                            ToClient::Removed { handle: held.handle->0 },
                        ).noting(Notice::Removed(key, held.client));
                        match held.client {
                            Some(client) => now.finished(client),
                            None => now,
                        }
                    },
                }
            },
        }
    }

    /// What a region reported, applied; and the departure to put to the game
    /// if one follows.
    pub open spec fn reported(self, region: RegionId, what: Report) -> (Edge, Option<Departure>) {
        match what {
            Report::Added { entity, token } => (self.added(region, entity, token), None),
            Report::ViewCollision { entity, position } => (
                self.viewed(region, entity, position),
                None,
            ),
            Report::ViewCleared { entity } => (self.cleared(region, entity), None),
            Report::BoundaryCollision { entity, target } => self.collided(region, entity, target),
            Report::Removed { entity } => (self.removed(region, entity), None),
        }
    }

    // -- what is known of regions -----------------------------------------

    /// A region said what world it runs. The first placed region to say so
    /// also says how big a region is.
    pub open spec fn learned(self, region: RegionId, world: RegionWorld) -> Edge {
        Edge {
            worlds: self.worlds.insert(region.0 as u64, world),
            region_size: if self.region_size is None && crate::map::square_of(self.map, region)
                is Some {
                Some(Fixed(world.config@.region_size as i32))
            } else {
                self.region_size
            },
            ..self
        }
    }

    /// Whether a client holds anything in a region.
    pub open spec fn in_region(self, client: u64, region: RegionId) -> bool {
        exists|key: u64| #[trigger]
            self.by_key.contains_key(key) && self.by_key[key].client == Some(ClientId(client))
                && self.by_key[key].region == region
    }

    /// One client told how to read a region's packets, if it holds something
    /// there and has not been told.
    pub open spec fn told(self, client: u64, region: RegionId) -> Edge {
        let party = self.clients[client];
        if !self.in_region(client, region) || party.told.contains(region) {
            self
        } else {
            Edge {
                clients: self.clients.insert(
                    client,
                    Party { told: party.told.push(region), ..party },
                ),
                ..self
            }.saying(
                Effect::Post(
                    ClientId(client),
                    ToClient::Region(self.worlds[region.0 as u64].info),
                ),
            )
        }
    }

    /// Several clients told, in order.
    pub open spec fn all_told(self, clients: Seq<u64>, region: RegionId) -> Edge
        decreases clients.len(),
    {
        if clients.len() == 0 {
            self
        } else {
            self.all_told(clients.drop_last(), region).told(clients.last(), region)
        }
    }

    /// Every client that needs a region's parameters told them, once the
    /// region has said what they are.
    pub open spec fn informed(self, region: RegionId) -> Edge {
        if self.worlds.contains_key(region.0 as u64) {
            self.all_told(table::in_order(self.clients.dom()), region)
        } else {
            self
        }
    }

    /// What a client holds, without the shadows it never asked for.
    pub open spec fn listed(self, keys: Seq<EntityKey>) -> Seq<EntityKey>
        decreases keys.len(),
    {
        if keys.len() == 0 {
            Seq::empty()
        } else if self.by_key.contains_key(keys.last().0) && self.by_key[keys.last().0].shadow_of
            is Some {
            self.listed(keys.drop_last())
        } else {
            self.listed(keys.drop_last()).push(keys.last())
        }
    }

    /// Where an entity is and what that region calls it.
    pub open spec fn id_of(self, key: EntityKey) -> Option<(RegionId, EntityId)> {
        if self.by_key.contains_key(key.0) {
            match self.by_key[key.0].id {
                Some(id) => Some((self.by_key[key.0].region, id)),
                None => None,
            }
        } else {
            None
        }
    }

    /// Who owns an entity.
    pub open spec fn owner_of(self, key: EntityKey) -> Option<ClientId> {
        if self.by_key.contains_key(key.0) {
            self.by_key[key.0].client
        } else {
            None
        }
    }

    /// The regions this edge holds entities in that have not been given back.
    pub open spec fn occupied(self) -> Set<u64> {
        Set::new(
            |r: u64|
                exists|key: u64| #[trigger]
                    self.by_key.contains_key(key) && !self.by_key[key].doomed
                        && self.by_key[key].region.0 == r,
        )
    }

    // -- teleports --------------------------------------------------------

    /// A departure the game has decided on: the destination asked for a copy
    /// under the entity's name, and the entity leaving set to hold what
    /// arrives for it. The copy's key, or `None` for a refusal.
    pub open spec fn departed(self, d: Departure, decision: TeleportDecision, now: u64) -> (
        Edge,
        Option<EntityKey>,
    ) {
        if decision is Deny {
            (self, None)
        } else {
            let to = EntityKey(self.next_key);
            let asked = self.asked(
                Ask {
                    client: d.client,
                    handle: None,
                    region: d.dest,
                    at: d.position,
                    kind: d.kind,
                    shadow_of: None,
                    name: Some(d.name),
                },
            );
            if !asked.by_key.contains_key(d.key.0) {
                (asked.released(to), None)
            } else {
                let left = asked.keeping(
                    d.key,
                    Held {
                        transition: Some(
                            Passage {
                                to,
                                dest: d.dest,
                                held_move: None,
                                held_messages: Seq::empty(),
                            },
                        ),
                        ..asked.by_key[d.key.0]
                    },
                );
                let paired = left.keeping(
                    to,
                    Held { replaces: Some(d.key), ..left.by_key[to.0] },
                );
                let carrying = match decision {
                    TeleportDecision::Carry(state) => Edge {
                        carried: paired.carried.insert(to.0, state@),
                        ..paired
                    },
                    _ => paired,
                };
                (
                    Edge {
                        transits: carrying.transits.push(
                            Transit {
                                from: d.key,
                                to,
                                deadline: (now + TELEPORT_TIMEOUT) as u64,
                            },
                        ),
                        ..carrying
                    },
                    Some(to),
                )
            }
        }
    }

    /// A crossing the game has decided on, counted as a crossing or a wall.
    pub open spec fn crossed(self, d: Departure, decision: TeleportDecision, now: u64) -> Edge {
        let (edge, to) = self.departed(d, decision, now);
        match to {
            Some(_) => Edge {
                counters: Counters { crossings: up(edge.counters.crossings), ..edge.counters },
                ..edge
            },
            None => edge.walled(),
        }
    }

    /// One teleport given up, unless its destination has confirmed after all:
    /// the copy forgotten, and what was held sent to where the entity still
    /// is.
    pub open spec fn given_up(self, t: Transit) -> Edge {
        if self.by_key.contains_key(t.to.0) && self.by_key[t.to.0].id is Some {
            self
        } else if !self.by_key.contains_key(t.from.0) {
            self
        } else {
            let held = self.by_key[t.from.0];
            match held.transition {
                None => self,
                Some(passage) => if passage.to != t.to {
                    self
                } else {
                    let back = self.keeping(t.from, Held { transition: None, ..held });
                    let now = Edge { carried: back.carried.remove(t.to.0), ..back }.forgotten(t.to);
                    let now = match passage.held_move {
                        Some(at) => now.world_placed(t.from, at),
                        None => now,
                    };
                    let now = if now.by_key.contains_key(t.from.0) {
                        match now.by_key[t.from.0].id {
                            Some(id) => now.telling_all(held.region, id, passage.held_messages),
                            None => now,
                        }
                    } else {
                        now
                    };
                    Edge {
                        counters: Counters {
                            teleport_timeouts: up(now.counters.teleport_timeouts),
                            ..now.counters
                        },
                        ..now
                    }.posting(
                        held.client,
                        held.handle,
                        ToClient::TeleportFailed { handle: held.handle->0, region: passage.dest },
                    )
                },
            }
        }
    }

    /// Several teleports given up, in order.
    pub open spec fn all_given_up(self, transits: Seq<Transit>) -> Edge
        decreases transits.len(),
    {
        if transits.len() == 0 {
            self
        } else {
            self.all_given_up(transits.drop_last()).given_up(transits.last())
        }
    }

    /// Every teleport given up whose destination has not confirmed the spawn
    /// by its deadline.
    pub open spec fn expired(self, now: u64) -> Edge {
        Edge { transits: due(self.transits, now, false), ..self }.all_given_up(
            due(self.transits, now, true),
        )
    }

    // -- clients ----------------------------------------------------------

    /// A client connected, under the next name.
    pub open spec fn connected(self) -> Edge {
        Edge {
            clients: self.clients.insert(self.next_client, Party::fresh()),
            next_client: id::issued(self.next_client, 1) as u64,
            ..self
        }
    }

    /// A leaving client reported gone, once the last of its entities is.
    pub open spec fn finished(self, client: ClientId) -> Edge {
        if self.clients.contains_key(client.0) && self.clients[client.0].leaving
            && self.clients[client.0].keys.len() == 0 {
            Edge { clients: self.clients.remove(client.0), ..self }.noting(
                Notice::Disconnected(client),
            )
        } else {
            self
        }
    }

    /// Everything a client held given back, and the client reported gone if
    /// that leaves it with nothing to wait for.
    pub open spec fn swept(self, client: ClientId) -> Edge {
        if !self.clients.contains_key(client.0) || self.clients[client.0].leaving {
            self
        } else {
            let party = self.clients[client.0];
            Edge {
                clients: self.clients.insert(client.0, Party { leaving: true, ..party }),
                ..self
            }.released_all(party.keys).finished(client)
        }
    }

    /// Who a packet built for one entity goes to, and under which of that
    /// client's handles: a shadow's goes to its owner's.
    pub open spec fn recipient(self, region: RegionId, entity: EntityId) -> Option<
        (ClientId, EntityHandle),
    > {
        match self.known(region, entity) {
            None => None,
            Some(key) => {
                let held = self.by_key[key.0];
                let seer = match held.shadow_of {
                    Some(owner) => if self.by_key.contains_key(owner.0) {
                        Some(self.by_key[owner.0])
                    } else {
                        None
                    },
                    None => Some(held),
                };
                match seer {
                    Some(Held { client: Some(client), handle: Some(handle), .. }) => Some(
                        (client, handle),
                    ),
                    _ => None,
                }
            },
        }
    }

    /// A game's message to one entity: kept as the last thing said to it, and
    /// sent on to its region, or held if the entity is in transit.
    pub open spec fn addressed(self, key: EntityKey, body: Seq<u8>) -> Edge {
        if !self.by_key.contains_key(key.0) || self.by_key[key.0].doomed {
            self
        } else {
            let held = Held { standing: Some(body), ..self.by_key[key.0] };
            match held.transition {
                Some(passage) => self.keeping(
                    key,
                    Held {
                        transition: Some(
                            Passage { held_messages: passage.held_messages.push(body), ..passage },
                        ),
                        ..held
                    },
                ),
                None => match held.id {
                    Some(id) => self.keeping(key, held).telling(
                        Outgoing::Message(held.region, id, body),
                    ),
                    None => self.keeping(key, held),
                },
            }
        }
    }

    /// A client's spawn, under a handle it has not spent yet.
    pub open spec fn wanted(
        self,
        client: ClientId,
        handle: EntityHandle,
        spot: Option<(RegionId, Pos3)>,
        kind: EntityKind,
    ) -> Edge {
        if self.named(client, handle) is Some {
            self.refusing()
        } else {
            match spot {
                None => self.off_map(),
                Some((region, at)) => self.asked(
                    Ask {
                        client: Some(client),
                        handle: Some(handle),
                        region,
                        at,
                        kind,
                        shadow_of: None,
                        name: None,
                    },
                ),
            }
        }
    }

    /// A client's moves: those of handles it never spawned are refused and
    /// counted, and the rest put where they say.
    pub open spec fn moved(self, client: ClientId, moves: Seq<(EntityHandle, WorldPos)>) -> Edge
        decreases moves.len(),
    {
        if moves.len() == 0 {
            self
        } else {
            let now = self.moved(client, moves.drop_last());
            match now.named(client, moves.last().0) {
                Some(key) => now.world_placed(key, moves.last().1),
                None => now.refusing(),
            }
        }
    }

    /// A client's teleport: the departure to put to the game, or the reason it
    /// comes to nothing.
    pub open spec fn called(
        self,
        client: ClientId,
        handle: EntityHandle,
        spot: Option<(RegionId, Pos3)>,
        at: WorldPos,
    ) -> (Edge, Option<Departure>) {
        match self.named(client, handle) {
            None => (self.refusing(), None),
            Some(key) => match spot {
                None => (self.off_map(), None),
                Some((dest, local)) => match self.departing(key, dest, local, at) {
                    Some(d) => (self, Some(d)),
                    None => (
                        self.saying(
                            Effect::Post(
                                client,
                                ToClient::TeleportFailed { handle, region: dest },
                            ),
                        ),
                        None,
                    ),
                },
            },
        }
    }

    /// A position a client gave for a region it named, in that region's frame.
    pub open spec fn spot_in(self, region: RegionId, at: WorldPos) -> Option<(RegionId, Pos3)> {
        match self.framed(region, at) {
            Some(local) => Some((region, local)),
            None => None,
        }
    }

    /// One message from one client, and the departure to put to the game if
    /// one follows.
    pub open spec fn heard(self, client: ClientId, message: FromClient) -> (
        Edge,
        Option<Departure>,
    ) {
        let now = Edge {
            counters: Counters { commands: up(self.counters.commands), ..self.counters },
            ..self
        };
        match message {
            FromClient::Spawn { handle, position, kind } => (
                now.wanted(client, handle, now.located(position), kind),
                None,
            ),
            FromClient::SpawnInto { handle, region, position, kind } => (
                now.wanted(client, handle, now.spot_in(region, position), kind),
                None,
            ),
            FromClient::Move { handle, position } => (
                now.moved(client, seq![(handle, position)]),
                None,
            ),
            FromClient::Moves(moves) => (now.moved(client, moves@), None),
            FromClient::Despawn { handle } => (
                match now.named(client, handle) {
                    Some(key) => now.released(key),
                    None => now.refusing(),
                },
                None,
            ),
            FromClient::Message(body) => (now.noting(Notice::Message(client, body@)), None),
            FromClient::EntityMessage { handle, body } => (
                match now.named(client, handle) {
                    Some(key) => now.addressed(key, body@),
                    None => now.refusing(),
                },
                None,
            ),
            FromClient::Teleport { handle, at } => now.called(client, handle, now.located(at), at),
            FromClient::TeleportInto { handle, region, at } => now.called(
                client,
                handle,
                now.spot_in(region, at),
                at,
            ),
        }
    }

    /// One frame from one client: what it says heard, or, where it says
    /// nothing, refused and counted. One bad message says nothing about the
    /// next.
    pub open spec fn received(
        self,
        client: ClientId,
        frame: Seq<u8>,
        after: Edge,
        d: Option<(EntityHandle, Departure)>,
    ) -> bool {
        if FromClient::refusal(frame) is Some {
            after == self.refusing() && d is None
        } else {
            exists|m: FromClient|
                {
                    &&& #[trigger] m.wire() == frame
                    &&& match d {
                        Some((handle, d)) => self.heard(client, m) == (after, Some(d))
                            && m.leaving() == Some(handle),
                        None => self.heard(client, m) == (after, None::<Departure>),
                    }
                }
        }
    }

    /// A teleport a client asked for, decided on by the game. A refusal is
    /// reported to the client that asked.
    pub open spec fn teleported(
        self,
        client: ClientId,
        handle: EntityHandle,
        d: Departure,
        decision: TeleportDecision,
        now: u64,
    ) -> Edge {
        let (edge, to) = self.departed(d, decision, now);
        match to {
            Some(_) => edge,
            None => edge.saying(
                Effect::Post(client, ToClient::TeleportFailed { handle, region: d.dest }),
            ),
        }
    }
}

/// The first of several shadows that is in a region.
pub open spec fn first_in(existing: Seq<(EntityKey, RegionId)>, region: RegionId) -> Option<
    EntityKey,
>
    decreases existing.len(),
{
    if existing.len() == 0 {
        None
    } else {
        match first_in(existing.drop_last(), region) {
            Some(key) => Some(key),
            None => if existing.last().1 == region {
                Some(existing.last().0)
            } else {
                None
            },
        }
    }
}

/// The shadows, without their regions.
pub open spec fn keys_of(existing: Seq<(EntityKey, RegionId)>) -> Seq<EntityKey> {
    existing.map_values(|e: (EntityKey, RegionId)| e.0)
}

} // verus!
