//! What an edge holds, and what a consumer does with it.
//!
//! [`EdgeHandle`] is an edge's whole memory: its clients, its entities, and
//! what it has decided to say but not said yet. Nothing in it blocks, sends or
//! reads a clock. Whatever owns the connections hands it what arrived, and
//! takes what is to be said from [`EdgeHandle::take_effects`].
//!
//! Relaying needs none of it but a lookup. A client's own spawns, moves and
//! despawns are carried without a consumer being asked.

use vstd::prelude::*;
use vstd::slice::slice_to_vec;

use crate::config::WorldConfig;
use crate::entity::{EntityId, EntityKind};
use crate::fixed::Fixed;
use crate::game::TeleportDecision;
use crate::id::{ClientId, EntityHandle, EntityKey, Mint, RegionId};
use crate::map::{Placement, WorldMap};
use crate::net::edge::model;
use crate::net::edge::model::{
    Ask, Counters, Departure, Edge, Effect, Held, Notice, Outgoing, Party, Passage, RegionWorld,
    Report, Said, Transit, TELEPORT_TIMEOUT,
};
use crate::net::edge::pile;
use crate::net::edge::pile::{heap, Pile};
use crate::net::edge::protocol::{EdgeInfo, FromClient, ToClient};
use crate::net::edge::seam;
use crate::net::edge::seam::{shadow_point, squares_in_view};
use crate::net::error::NetError;
use crate::net::region::protocol::Spawn;
use crate::pos::{Pos3, WorldPos};
use crate::table;
use crate::table::Table;

verus! {

/// A teleport in flight, kept on the entity leaving.
#[derive(Debug)]
struct Transition {
    to: EntityKey,
    dest: RegionId,
    held_move: Option<WorldPos>,
    held_messages: Vec<Vec<u8>>,
}

impl View for Transition {
    type V = Passage;

    closed spec fn view(&self) -> Passage {
        Passage {
            to: self.to,
            dest: self.dest,
            held_move: self.held_move,
            held_messages: self.held_messages@.map_values(|b: Vec<u8>| b@),
        }
    }
}

/// One entity this edge manages.
#[derive(Debug)]
struct Entity {
    client: Option<ClientId>,
    handle: Option<EntityHandle>,
    region: RegionId,
    kind: EntityKind,
    id: Option<EntityId>,
    pending: Option<Pos3>,
    doomed: bool,
    replaces: Option<EntityKey>,
    shadows: Vec<EntityKey>,
    shadow_of: Option<EntityKey>,
    name: EntityKey,
    standing: Option<Vec<u8>>,
    transition: Option<Transition>,
}

impl View for Entity {
    type V = Held;

    closed spec fn view(&self) -> Held {
        Held {
            client: self.client,
            handle: self.handle,
            region: self.region,
            kind: self.kind,
            id: self.id,
            pending: self.pending,
            doomed: self.doomed,
            replaces: self.replaces,
            shadows: self.shadows@,
            shadow_of: self.shadow_of,
            name: self.name,
            standing: match self.standing {
                Some(body) => Some(body@),
                None => None,
            },
            transition: match self.transition {
                Some(t) => Some(t@),
                None => None,
            },
        }
    }
}

/// One connected game client.
#[derive(Debug)]
struct Client {
    handles: Table<u64>,
    keys: Vec<EntityKey>,
    told: Vec<RegionId>,
    leaving: bool,
}

impl View for Client {
    type V = Party;

    closed spec fn view(&self) -> Party {
        Party {
            handles: self.handles@,
            keys: self.keys@,
            told: self.told@,
            leaving: self.leaving,
        }
    }
}

impl View for Effect<Vec<u8>> {
    type V = Said;

    open spec fn view(&self) -> Said {
        match *self {
            Effect::Tell(Outgoing::Spawn(r, s, n)) => Effect::Tell(Outgoing::Spawn(r, s, n)),
            Effect::Tell(Outgoing::Despawn(r, e)) => Effect::Tell(Outgoing::Despawn(r, e)),
            Effect::Tell(Outgoing::Message(r, e, b)) => Effect::Tell(Outgoing::Message(r, e, b@)),
            Effect::Post(c, m) => Effect::Post(c, m),
            Effect::Game(Notice::Spawned(k, c, r, e)) => Effect::Game(Notice::Spawned(k, c, r, e)),
            Effect::Game(Notice::Removed(k, c)) => Effect::Game(Notice::Removed(k, c)),
            Effect::Game(Notice::Arrived(k, c, f, t, b)) => Effect::Game(
                Notice::Arrived(k, c, f, t, b@),
            ),
            Effect::Game(Notice::Message(c, b)) => Effect::Game(Notice::Message(c, b@)),
            Effect::Game(Notice::Disconnected(c)) => Effect::Game(Notice::Disconnected(c)),
        }
    }
}

impl View for Pos3 {
    type V = Pos3;

    open spec fn view(&self) -> Pos3 {
        *self
    }
}

/// What this edge has done since it started.
///
/// Cumulative rather than per-span, so reading it takes nothing away from the
/// heartbeat, which publishes differences.
#[derive(Clone, Copy, Debug, PartialEq, Eq, Structural)]
pub struct EdgeStats {
    /// Game clients connected right now.
    pub clients: u32,
    /// Entities this edge manages, across every region.
    pub entities: u32,
    /// How many of those have a client behind them.
    pub observers: u32,
    /// State packets handed to a client's connection.
    pub relayed: u64,
    /// State packets that reached no client: it had gone, or the datagram was
    /// refused.
    pub undeliverable: u64,
    /// Spawns, moves, despawns and messages read from clients.
    pub commands: u64,
    /// Commands this edge declined, for an unknown handle or one belonging to
    /// another connection.
    pub refused: u64,
    /// Regions on the world map this edge read at startup. Zero is a
    /// deployment of islands, or an edge that found no map.
    pub placed_regions: u32,
    /// World positions no placed region covers, dropped. Counted apart from
    /// `refused` because a client walking into the edge of the world is not
    /// making a mistake.
    pub off_map: u64,
    /// Shadows this edge keeps right now: second viewers across seams for its
    /// observers whose view reaches one.
    pub shadows: u32,
    /// Boundary collisions answered by crossing the entity into the placed
    /// region beyond, by the teleport this edge already has.
    pub crossings: u64,
    /// Boundary collisions dropped: nothing placed beyond that side, or the
    /// game denied the crossing. The region had already stopped the entity at
    /// its box.
    pub walls: u64,
    /// Teleports in flight right now, asked for or crossings.
    pub transitions: u32,
    /// Teleports given up because the destination never confirmed the spawn
    /// within [`TELEPORT_TIMEOUT`].
    pub teleport_timeouts: u64,
}

impl EdgeStats {
    /// Nothing done yet.
    pub open spec fn zero() -> EdgeStats {
        EdgeStats {
            clients: 0,
            entities: 0,
            observers: 0,
            relayed: 0,
            undeliverable: 0,
            commands: 0,
            refused: 0,
            placed_regions: 0,
            off_map: 0,
            shadows: 0,
            crossings: 0,
            walls: 0,
            transitions: 0,
            teleport_timeouts: 0,
        }
    }

    /// Nothing done yet.
    pub fn none() -> (s: EdgeStats)
        ensures
            s == EdgeStats::zero(),
    {
        EdgeStats {
            clients: 0,
            entities: 0,
            observers: 0,
            relayed: 0,
            undeliverable: 0,
            commands: 0,
            refused: 0,
            placed_regions: 0,
            off_map: 0,
            shadows: 0,
            crossings: 0,
            walls: 0,
            transitions: 0,
            teleport_timeouts: 0,
        }
    }
}

impl Default for EdgeStats {
    fn default() -> (s: EdgeStats)
        ensures
            s == EdgeStats::zero(),
    {
        EdgeStats::none()
    }
}

/// An edge's memory: everything an edge server holds but its connections.
#[derive(Debug)]
pub struct EdgeHandle {
    clients: Table<Client>,
    by_key: Table<Entity>,
    by_id: Table<u64>,
    moves: Table<Pos3>,
    worlds: Table<RegionWorld>,
    client_ids: Mint,
    entity_keys: Mint,
    counters: Counters,
    map: WorldMap,
    region_size: Option<Fixed>,
    carried: Table<Vec<u8>>,
    transits: Vec<Transit>,
    outbox: Vec<Effect<Vec<u8>>>,
}

impl View for EdgeHandle {
    type V = Edge;

    closed spec fn view(&self) -> Edge {
        Edge {
            clients: self.clients@,
            by_key: self.by_key@,
            by_id: self.by_id@,
            moves: self.moves@,
            worlds: self.worlds@,
            next_client: self.client_ids.upcoming(),
            next_key: self.entity_keys.upcoming(),
            counters: self.counters,
            map: self.map@,
            region_size: self.region_size,
            carried: self.carried@,
            transits: self.transits@,
            out: self.outbox@.map_values(|e: Effect<Vec<u8>>| e@),
        }
    }
}

/// A region's id and an entity's as one number.
fn seat_of(region: RegionId, id: EntityId) -> (k: u64)
    ensures
        k == model::seat(region, id),
{
    region.raw() as u64 * 0x1_0000_0000 + id.raw() as u64
}

/// Whether a list holds a key.
fn holds(keys: &Vec<EntityKey>, key: EntityKey) -> (b: bool)
    ensures
        b == keys@.contains(key),
{
    let mut i: usize = 0;
    while i < keys.len()
        invariant
            i <= keys@.len(),
            forall|j: int| 0 <= j < i ==> keys@[j] != key,
        decreases keys@.len() - i,
    {
        if keys[i].0 == key.0 {
            assert(keys@[i as int] == key);
            return true;
        }
        i = i + 1;
    }
    false
}

/// A list without one key.
fn without(keys: &Vec<EntityKey>, key: EntityKey) -> (out: Vec<EntityKey>)
    ensures
        out@ == model::without(keys@, key),
{
    let mut out: Vec<EntityKey> = Vec::new();
    let mut i: usize = 0;
    assert(keys@.take(0) =~= Seq::empty());
    while i < keys.len()
        invariant
            i <= keys@.len(),
            out@ == model::without(keys@.take(i as int), key),
        decreases keys@.len() - i,
    {
        assert(keys@.take(i + 1).drop_last() =~= keys@.take(i as int));
        if keys[i].0 != key.0 {
            out.push(keys[i]);
        }
        i = i + 1;
    }
    assert(keys@.take(i as int) =~= keys@);
    out
}

impl Counters {
    /// Nothing counted yet.
    fn none() -> (c: Counters)
        ensures
            c == (Counters {
                observers: 0,
                relayed: 0,
                undeliverable: 0,
                commands: 0,
                refused: 0,
                off_map: 0,
                shadows: 0,
                crossings: 0,
                walls: 0,
                teleport_timeouts: 0,
            }),
    {
        Counters {
            observers: 0,
            relayed: 0,
            undeliverable: 0,
            commands: 0,
            refused: 0,
            off_map: 0,
            shadows: 0,
            crossings: 0,
            walls: 0,
            teleport_timeouts: 0,
        }
    }

    /// Counts one entity more of a kind.
    fn join(&mut self, kind: EntityKind)
        ensures
            *final(self) == old(self).with(kind),
    {
        if kind.is_shadow() {
            self.shadows = self.shadows.wrapping_add(1);
        } else if kind.observes() {
            self.observers = self.observers.wrapping_add(1);
        }
    }

    /// Counts one entity fewer of a kind.
    fn part(&mut self, kind: EntityKind)
        ensures
            *final(self) == old(self).without(kind),
    {
        if kind.is_shadow() {
            self.shadows = self.shadows.wrapping_sub(1);
        } else if kind.observes() {
            self.observers = self.observers.wrapping_sub(1);
        }
    }
}

impl Edge {
    /// An edge holding nothing.
    pub open spec fn blank(map: crate::map::Places, prefix: u32) -> Edge {
        Edge {
            clients: Map::empty(),
            by_key: Map::empty(),
            by_id: Map::empty(),
            moves: Map::empty(),
            worlds: Map::empty(),
            next_client: 1,
            next_key: crate::id::seed(prefix),
            counters: Counters {
                observers: 0,
                relayed: 0,
                undeliverable: 0,
                commands: 0,
                refused: 0,
                off_map: 0,
                shadows: 0,
                crossings: 0,
                walls: 0,
                teleport_timeouts: 0,
            },
            map,
            region_size: None,
            carried: Map::empty(),
            transits: Seq::empty(),
            out: Seq::empty(),
        }
    }

    /// What an edge has done since it started, as it tells it.
    pub open spec fn totals(self) -> EdgeStats {
        EdgeStats {
            clients: self.clients.len() as u32,
            entities: self.by_key.len() as u32,
            observers: self.counters.observers,
            relayed: self.counters.relayed,
            undeliverable: self.counters.undeliverable,
            commands: self.counters.commands,
            refused: self.counters.refused,
            placed_regions: self.map.len() as u32,
            off_map: self.counters.off_map,
            shadows: self.counters.shadows,
            crossings: self.counters.crossings,
            walls: self.counters.walls,
            transitions: self.transits.len() as u32,
            teleport_timeouts: self.counters.teleport_timeouts,
        }
    }
}

impl EdgeHandle {
    /// Whether the map repeats nothing, and a region has some size.
    pub closed spec fn wf(&self) -> bool {
        &&& self.map.wf()
        &&& match self.region_size {
            Some(size) => size.0 > 0,
            None => true,
        }
    }

    // -- what is said -----------------------------------------------------

    fn say(&mut self, what: Effect<Vec<u8>>)
        requires
            old(self).wf(),
        ensures
            final(self).wf(),
            final(self)@ == old(self)@.saying(what@),
    {
        self.outbox.push(what);
        assert(self@ =~= old(self)@.saying(what@));
    }

    fn tell(&mut self, what: Outgoing<Vec<u8>>)
        requires
            old(self).wf(),
        ensures
            final(self).wf(),
            final(self)@ == old(self)@.saying(Effect::Tell(what)@),
    {
        self.say(Effect::Tell(what));
    }

    fn note(&mut self, what: Notice<Vec<u8>>)
        requires
            old(self).wf(),
        ensures
            final(self).wf(),
            final(self)@ == old(self)@.saying(Effect::Game(what)@),
    {
        self.say(Effect::Game(what));
    }

    /// Everything decided since the last call, in the order it is to be said.
    pub fn take_effects(&mut self) -> (effects: Vec<Effect<Vec<u8>>>)
        requires
            old(self).wf(),
        ensures
            final(self).wf(),
            effects@.map_values(|e: Effect<Vec<u8>>| e@) == old(self)@.out,
            final(self)@ == (Edge { out: Seq::empty(), ..old(self)@ }),
    {
        let mut effects: Vec<Effect<Vec<u8>>> = Vec::new();
        std::mem::swap(&mut effects, &mut self.outbox);
        assert(self@ =~= (Edge { out: Seq::empty(), ..old(self)@ }));
        effects
    }

    // -- counting ---------------------------------------------------------

    fn count_refused(&mut self)
        requires
            old(self).wf(),
        ensures
            final(self).wf(),
            final(self)@ == old(self)@.refusing(),
    {
        self.counters.refused = self.counters.refused.wrapping_add(1);
    }

    fn count_off_map(&mut self)
        requires
            old(self).wf(),
        ensures
            final(self).wf(),
            final(self)@ == old(self)@.off_map(),
    {
        self.counters.off_map = self.counters.off_map.wrapping_add(1);
    }

    fn count_wall(&mut self)
        requires
            old(self).wf(),
        ensures
            final(self).wf(),
            final(self)@ == old(self)@.walled(),
    {
        self.counters.walls = self.counters.walls.wrapping_add(1);
    }

    /// Counts a state packet, as one that was handed to a connection or as one
    /// that reached no client.
    pub fn count_relayed(&mut self, ok: bool)
        requires
            old(self).wf(),
        ensures
            final(self).wf(),
            final(self)@ == (Edge {
                counters: if ok {
                    Counters {
                        relayed: model::up(old(self)@.counters.relayed),
                        ..old(self)@.counters
                    }
                } else {
                    Counters {
                        undeliverable: model::up(old(self)@.counters.undeliverable),
                        ..old(self)@.counters
                    }
                },
                ..old(self)@
            }),
    {
        if ok {
            self.counters.relayed = self.counters.relayed.wrapping_add(1);
        } else {
            self.counters.undeliverable = self.counters.undeliverable.wrapping_add(1);
        }
    }

    // -- where things are -------------------------------------------------

    /// The placed region a world position falls in and the position inside
    /// it. `None` off the map, or before any placed region has said how big a
    /// region is.
    pub fn locate(&self, at: WorldPos) -> (r: Option<(RegionId, Pos3)>)
        requires
            self.wf(),
        ensures
            r == self@.located(at),
    {
        match self.region_size {
            Some(size) => self.map.locate(at, size),
            None => None,
        }
    }

    /// A world position in one region's frame, inside its box or not. A region
    /// off the map is its own frame.
    pub fn to_frame(&self, region: RegionId, at: WorldPos) -> (r: Option<Pos3>)
        requires
            self.wf(),
        ensures
            r == self@.framed(region, at),
    {
        match self.map.placement_of(region) {
            Some(square) => match self.region_size {
                Some(size) => at.to_local(square, size),
                None => None,
            },
            None => at.to_unplaced(),
        }
    }

    /// This edge's name for what a region calls `id`, if it still holds it.
    fn known(&self, region: RegionId, id: EntityId) -> (key: Option<EntityKey>)
        ensures
            key == self@.known(region, id),
    {
        match self.by_id.get(seat_of(region, id)) {
            Some(key) => if self.by_key.contains(*key) {
                Some(EntityKey(*key))
            } else {
                None
            },
            None => None,
        }
    }

    // -- entities ---------------------------------------------------------

    /// Asks a region for an entity and records what was asked for. The key is
    /// the correlation token: unique to this edge, never reused, and echoed
    /// back by the region without being looked inside.
    fn ask_for(&mut self, ask: Ask) -> (key: EntityKey)
        requires
            old(self).wf(),
        ensures
            final(self).wf(),
            key.0 == old(self)@.next_key,
            final(self)@ == old(self)@.asked(ask),
    {
        let key = EntityKey::from_raw(self.entity_keys.next());
        let name = match ask.name {
            Some(name) => name,
            None => key,
        };
        self.by_key.put(
            key.raw(),
            Entity {
                client: ask.client,
                handle: ask.handle,
                region: ask.region,
                kind: ask.kind,
                id: None,
                pending: None,
                doomed: false,
                replaces: None,
                shadows: Vec::new(),
                shadow_of: ask.shadow_of,
                name,
                standing: None,
                transition: None,
            },
        );
        if let Some(client) = ask.client {
            if let Some(mut held) = self.clients.take(client.raw()) {
                if !holds(&held.keys, key) {
                    held.keys.push(key);
                }
                if let Some(handle) = ask.handle {
                    held.handles.put(handle.raw() as u64, key.raw());
                }
                assert(held@ =~= old(self)@.clients[client.0].with(key, ask.handle));
                self.clients.put(client.raw(), held);
            }
        }
        self.counters.join(ask.kind);
        let spawn = Spawn { position: ask.at, kind: ask.kind, token: key.raw() };
        proof {
            let then = Edge {
                by_key: old(self)@.by_key.insert(key.0, self@.by_key[key.0]),
                ..self@
            };
            assert(self@.by_key[key.0].shadows =~= Seq::<EntityKey>::empty());
            assert(self@.by_key =~= then.by_key);
            assert(self@.clients =~= old(self)@.asked(ask).clients);
        }
        self.tell(Outgoing::Spawn(ask.region, spawn, name));
        assert(self@ =~= old(self)@.asked(ask));
        key
    }

    /// Drops every record of an entity. Its client is told separately.
    fn forget(&mut self, key: EntityKey) -> (gone: Option<Entity>)
        requires
            old(self).wf(),
        ensures
            final(self).wf(),
            final(self)@ == old(self)@.forgotten(key),
            match gone {
                Some(e) => old(self)@.by_key.contains_key(key.0) && e@ == old(
                    self,
                )@.by_key[key.0],
                None => !old(self)@.by_key.contains_key(key.0),
            },
    {
        match self.by_key.take(key.raw()) {
            None => {
                assert(self@ =~= old(self)@);
                None
            },
            Some(entity) => {
                self.counters.part(entity.kind);
                if let Some(id) = entity.id {
                    let _ = self.by_id.take(seat_of(entity.region, id));
                }
                if let Some(client) = entity.client {
                    if let Some(mut held) = self.clients.take(client.raw()) {
                        held.keys = without(&held.keys, key);
                        if let Some(handle) = entity.handle {
                            let _ = held.handles.take(handle.raw() as u64);
                        }
                        assert(held@ =~= old(self)@.clients[client.0].minus(key, entity.handle));
                        self.clients.put(client.raw(), held);
                    }
                }
                assert(self@.clients =~= old(self)@.forgotten(key).clients);
                assert(self@ =~= old(self)@.forgotten(key));
                Some(entity)
            },
        }
    }

    /// Gives an entity back, and stops moving it now rather than when the
    /// region reports it gone. A move already in flight for an entity just
    /// despawned is refused, and there is no reason to send another.
    ///
    /// An entity the region has not answered for yet is simply forgotten. Its
    /// arrival then carries a token this edge no longer holds, and the path
    /// that already handles an unrecognized token gives it straight back.
    fn release(&mut self, key: EntityKey)
        requires
            old(self).wf(),
        ensures
            final(self).wf(),
            final(self)@ == old(self)@.released(key),
    {
        let (region, id) = match self.by_key.get(key.raw()) {
            None => return,
            Some(entity) => (entity.region, entity.id),
        };
        match id {
            None => {
                let _ = self.forget(key);
            },
            Some(id) => {
                if let Some(mut entity) = self.by_key.take(key.raw()) {
                    entity.pending = None;
                    entity.doomed = true;
                    self.by_key.put(key.raw(), entity);
                }
                let _ = self.moves.take(seat_of(region, id));
                assert(self@.by_key =~= old(self)@.by_key.insert(
                    key.0,
                    Held { pending: None, doomed: true, ..old(self)@.by_key[key.0] },
                ));
                self.tell(Outgoing::Despawn(region, id));
                assert(self@ =~= old(self)@.released(key));
            },
        }
    }

    /// Gives several entities back, in order.
    fn release_all(&mut self, keys: &Vec<EntityKey>)
        requires
            old(self).wf(),
        ensures
            final(self).wf(),
            final(self)@ == old(self)@.released_all(keys@),
    {
        let mut i: usize = 0;
        assert(keys@.take(0) =~= Seq::empty());
        while i < keys.len()
            invariant
                i <= keys@.len(),
                self.wf(),
                self@ == old(self)@.released_all(keys@.take(i as int)),
            decreases keys@.len() - i,
        {
            self.release(keys[i]);
            assert(keys@.take(i + 1).drop_last() =~= keys@.take(i as int));
            i = i + 1;
        }
        assert(keys@.take(i as int) =~= keys@);
    }

    /// Queues a position, latest wins.
    fn queue_move(&mut self, region: RegionId, id: EntityId, to: Pos3)
        requires
            old(self).wf(),
        ensures
            final(self).wf(),
            final(self)@ == old(self)@.queued(region, id, to),
    {
        self.moves.put(seat_of(region, id), to);
    }

    /// Where an entity should be, if this edge is still holding it.
    ///
    /// A position is held rather than queued if the region has not yet said
    /// which id it is; at most one is held, because a position is latest-only.
    /// A key this edge is not holding is skipped: removal arrives unprompted,
    /// so acting on an entity that has just gone is a race.
    fn set_position(&mut self, key: EntityKey, to: Pos3)
        requires
            old(self).wf(),
        ensures
            final(self).wf(),
            final(self)@ == old(self)@.placed(key, to),
    {
        let (doomed, region, id) = match self.by_key.get(key.raw()) {
            None => return,
            Some(held) => (held.doomed, held.region, held.id),
        };
        if doomed {
            return;
        }
        match id {
            Some(id) => self.queue_move(region, id, to),
            None => {
                if let Some(mut held) = self.by_key.take(key.raw()) {
                    held.pending = Some(to);
                    self.by_key.put(key.raw(), held);
                }
                assert(self@ =~= old(self)@.placed(key, to));
            },
        }
    }

    /// A world position for an entity this edge holds, translated into the
    /// frame of the region its entity is in. A position that does not fit
    /// that frame is dropped and counted. In transit, which frame it belongs
    /// to is not known until the remap: held in world coordinates, latest
    /// only.
    fn set_world_position(&mut self, key: EntityKey, at: WorldPos)
        requires
            old(self).wf(),
        ensures
            final(self).wf(),
            final(self)@ == old(self)@.world_placed(key, at),
    {
        let (region, crossing) = match self.by_key.get(key.raw()) {
            None => return,
            Some(held) => (held.region, held.transition.is_some()),
        };
        if crossing {
            if let Some(mut held) = self.by_key.take(key.raw()) {
                if let Some(mut transition) = held.transition {
                    transition.held_move = Some(at);
                    held.transition = Some(transition);
                    self.by_key.put(key.raw(), held);
                }
            }
            assert(self@ =~= old(self)@.world_placed(key, at));
        } else {
            match self.to_frame(region, at) {
                Some(to) => self.set_position(key, to),
                None => self.count_off_map(),
            }
        }
    }

    /// World positions for several entities, in order.
    pub fn set_world_positions(&mut self, moves: &[(EntityKey, WorldPos)])
        requires
            old(self).wf(),
        ensures
            final(self).wf(),
            final(self)@ == old(self)@.all_placed(moves@),
    {
        let mut i: usize = 0;
        assert(moves@.take(0) =~= Seq::empty());
        while i < moves.len()
            invariant
                i <= moves@.len(),
                self.wf(),
                self@ == old(self)@.all_placed(moves@.take(i as int)),
            decreases moves@.len() - i,
        {
            let (key, at) = moves[i];
            self.set_world_position(key, at);
            assert(moves@.take(i + 1).drop_last() =~= moves@.take(i as int));
            i = i + 1;
        }
        assert(moves@.take(i as int) =~= moves@);
    }

    // -- what a region reports --------------------------------------------

    /// Tells a client something about one of its entities, if the entity has
    /// both a client and that client's own name for it.
    fn post(
        &mut self,
        client: Option<ClientId>,
        handle: Option<EntityHandle>,
        what: ToClient<'static>,
    )
        requires
            old(self).wf(),
        ensures
            final(self).wf(),
            final(self)@ == old(self)@.posting(client, handle, what),
    {
        if let Some(client) = client {
            if handle.is_some() {
                self.say(Effect::Post(client, what));
            }
        }
    }

    /// Sends several messages on to an entity's region, in order.
    fn tell_all(&mut self, region: RegionId, id: EntityId, bodies: &Vec<Vec<u8>>)
        requires
            old(self).wf(),
        ensures
            final(self).wf(),
            final(self)@ == old(self)@.telling_all(
                region,
                id,
                bodies@.map_values(|b: Vec<u8>| b@),
            ),
    {
        let ghost all = bodies@.map_values(|b: Vec<u8>| b@);
        let mut i: usize = 0;
        assert(all.take(0) =~= Seq::empty());
        while i < bodies.len()
            invariant
                self.wf(),
                i <= bodies@.len(),
                all == bodies@.map_values(|b: Vec<u8>| b@),
                self@ == old(self)@.telling_all(region, id, all.take(i as int)),
            decreases bodies@.len() - i,
        {
            self.tell(Outgoing::Message(region, id, copied(&bodies[i])));
            assert(all.take(i + 1).drop_last() =~= all.take(i as int));
            i = i + 1;
        }
        assert(all.take(i as int) =~= all);
    }

    /// A region reported an entity this edge asked for.
    fn on_added(&mut self, region: RegionId, entity: EntityId, token: u64)
        requires
            old(self).wf(),
        ensures
            final(self).wf(),
            final(self)@ == old(self)@.added(region, entity, token),
    {
        let key = EntityKey::from_raw(token);
        match self.by_key.take(token) {
            None => {
                // A token this edge never spent, or one whose entity it has
                // already forgotten. Give the entity back rather than leaving
                // it in a region nobody is managing.
                assert(self@ =~= old(self)@);
                self.tell(Outgoing::Despawn(region, entity));
            },
            Some(mut held) => {
                let (client, handle) = (held.client, held.handle);
                let (pending, replaces) = (held.pending, held.replaces);
                let is_shadow = held.shadow_of.is_some();
                held.id = Some(entity);
                held.pending = None;
                held.replaces = None;
                self.by_key.put(token, held);
                self.by_id.put(seat_of(region, entity), token);
                proof {
                    let was = old(self)@.by_key[token];
                    let now = Held { id: Some(entity), pending: None, replaces: None, ..was };
                    assert(self@.by_key[token] =~= now);
                    assert(self@.by_key =~= old(self)@.by_key.insert(token, now));
                    assert(self@ =~= (Edge {
                        by_id: old(self)@.by_id.insert(model::seat(region, entity), token),
                        ..old(self)@.keeping(key, now)
                    }));
                }
                match replaces {
                    Some(old_key) => {
                        self.complete_teleport(key, entity, region, client, pending, old_key);
                    },
                    None => {
                        if let Some(to) = pending {
                            self.queue_move(region, entity, to);
                        }
                        if let Some(handle) = handle {
                            self.post(
                                client,
                                Some(handle),
                                ToClient::Spawned { handle, region, entity },
                            );
                        }
                        // A shadow is the library's, and the game is not told
                        // of it.
                        if !is_shadow {
                            self.note(Notice::Spawned(key, client, region, entity));
                        }
                    },
                }
            },
        }
    }

    /// Drops the teleport toward a copy from those in flight.
    fn settle(&mut self, to: EntityKey)
        requires
            old(self).wf(),
        ensures
            final(self).wf(),
            final(self)@ == (Edge {
                transits: model::not_toward(old(self)@.transits, to),
                ..old(self)@
            }),
    {
        let mut kept: Vec<Transit> = Vec::new();
        let mut i: usize = 0;
        assert(self.transits@.take(0) =~= Seq::empty());
        while i < self.transits.len()
            invariant
                i <= self.transits@.len(),
                kept@ == model::not_toward(self.transits@.take(i as int), to),
            decreases self.transits@.len() - i,
        {
            assert(self.transits@.take(i + 1).drop_last() =~= self.transits@.take(i as int));
            if self.transits[i].to.0 != to.0 {
                kept.push(self.transits[i]);
            }
            i = i + 1;
        }
        assert(self.transits@.take(i as int) =~= self.transits@);
        self.transits = kept;
    }

    /// The second half of a teleport: the destination region reported the new
    /// entity. Remaps the client's handle from the old key to the new one,
    /// despawns the origin copy, and tells the client and the edge game.
    pub fn complete_teleport(
        &mut self,
        new_key: EntityKey,
        new_entity: EntityId,
        dest: RegionId,
        client: Option<ClientId>,
        pending: Option<Pos3>,
        old_key: EntityKey,
    )
        requires
            old(self).wf(),
        ensures
            final(self).wf(),
            final(self)@ == old(self)@.arrived(
                new_key,
                new_entity,
                dest,
                client,
                pending,
                old_key,
            ),
    {
        match self.remap(new_key, client, old_key) {
            None => {
                // The old entity is already gone: the client disconnected or
                // the entity was despawned while the teleport was in flight.
                // Clean up the new one.
                self.tell(Outgoing::Despawn(dest, new_entity));
                let _ = self.forget(new_key);
                self.settle(new_key);
            },
            Some(left) => {
                let (handle, from, kind) = (left.handle, left.region, left.kind);
                let ghost was = left@;
                self.forward(new_key, new_entity, dest, pending, left);
                self.greet(new_key, new_entity, dest, client, handle, from, kind, Ghost(was));
            },
        }
    }

    /// Puts the copy in the place of the entity it replaces. `None` if that
    /// one is gone, and nothing is changed.
    fn remap(&mut self, new_key: EntityKey, client: Option<ClientId>, old_key: EntityKey) -> (left:
        Option<Entity>)
        requires
            old(self).wf(),
        ensures
            final(self).wf(),
            match left {
                None => !old(self)@.by_key.contains_key(old_key.0) && final(self)@ == old(self)@,
                Some(e) => {
                    &&& old(self)@.by_key.contains_key(old_key.0)
                    &&& e@ == old(self)@.by_key[old_key.0]
                    &&& final(self)@ == old(self)@.remapped(new_key, client, old_key)
                },
            },
    {
        let handle = match self.by_key.get(old_key.raw()) {
            None => return None,
            Some(old) => old.handle,
        };
        // Move the handle onto the new entity.
        if handle.is_some() {
            if let Some(mut heir) = self.by_key.take(new_key.raw()) {
                heir.handle = handle;
                self.by_key.put(new_key.raw(), heir);
            }
        }
        let ghost heir = match handle {
            Some(_) => if old(self)@.by_key.contains_key(new_key.0) {
                old(self)@.keeping(
                    new_key,
                    Held { handle, ..old(self)@.by_key[new_key.0] },
                )
            } else {
                old(self)@
            },
            None => old(self)@,
        };
        assert(self@ =~= heir);
        match self.by_key.take(old_key.raw()) {
            None => None,
            Some(left) => {
                let ghost was = old(self)@.by_key[old_key.0];
                assert(left@ =~= was);
                // So the origin's own report of it, which arrives later, finds
                // nothing.
                if let Some(id) = left.id {
                    let _ = self.by_id.take(seat_of(left.region, id));
                }
                assert(self@ =~= (Edge {
                    by_key: heir.by_key.remove(old_key.0),
                    by_id: match was.id {
                        Some(id) => old(self)@.by_id.remove(model::seat(was.region, id)),
                        None => old(self)@.by_id,
                    },
                    ..old(self)@
                }));
                // Its shadows stood in for a view that no longer exists; the
                // destination reports its own.
                self.release_all(&left.shadows);
                let ghost now = self@;
                self.settle(new_key);
                if let Some(client) = client {
                    if let Some(mut held) = self.clients.take(client.raw()) {
                        if let Some(handle) = handle {
                            held.handles.put(handle.raw() as u64, new_key.raw());
                        }
                        held.keys = without(&held.keys, old_key);
                        assert(held@ =~= now.clients[client.0].remapped(old_key, new_key, handle));
                        self.clients.put(client.raw(), held);
                    }
                }
                proof {
                    let end = old(self)@.remapped(new_key, client, old_key);
                    assert(self@.clients =~= end.clients);
                    assert(self@ =~= end);
                }
                Some(left)
            },
        }
    }

    /// Gives the origin copy back, and carries everything said to it on.
    fn forward(
        &mut self,
        new_key: EntityKey,
        new_entity: EntityId,
        dest: RegionId,
        pending: Option<Pos3>,
        left: Entity,
    )
        requires
            old(self).wf(),
        ensures
            final(self).wf(),
            final(self)@ == old(self)@.forwarded(new_key, new_entity, dest, pending, left@),
    {
        if let Some(old_id) = left.id {
            let _ = self.moves.take(seat_of(left.region, old_id));
            assert(self@ =~= (Edge {
                moves: old(self)@.moves.remove(model::seat(left.region, old_id)),
                ..old(self)@
            }));
            self.tell(Outgoing::Despawn(left.region, old_id));
        }
        if let Some(to) = pending {
            self.queue_move(dest, new_entity, to);
        }
        // The last thing the client said to this entity, said again to the
        // region it has landed in. That region has heard nothing about it, and
        // the instruction still stands. Ahead of anything held during the
        // transition, which is newer and supersedes it.
        if let Some(body) = &left.standing {
            self.tell(Outgoing::Message(dest, new_entity, copied(body)));
        }
        // What arrived for the entity in transit: the latest move, if it falls
        // in the destination, and every entity message in order. A move that
        // does not fit the destination is dropped rather than clamped to its
        // box, which for a crossing would be the seam it just came through.
        if let Some(transition) = left.transition {
            if let Some(at) = transition.held_move {
                if let Some(local) = self.to_frame(dest, at) {
                    self.queue_move(dest, new_entity, local);
                }
            }
            self.tell_all(dest, new_entity, &transition.held_messages);
        }
        // The arriving entity carries it on, so the next crossing repeats it
        // too.
        let ghost then = self@;
        if let Some(body) = left.standing {
            if let Some(mut new) = self.by_key.take(new_key.raw()) {
                new.standing = Some(body);
                self.by_key.put(new_key.raw(), new);
                assert(self@ =~= then.keeping(
                    new_key,
                    Held { standing: Some(body@), ..then.by_key[new_key.0] },
                ));
            } else {
                assert(self@ =~= then);
            }
        }
    }

    /// Tells the client and the game of an arrival, in that order.
    fn greet(
        &mut self,
        new_key: EntityKey,
        new_entity: EntityId,
        dest: RegionId,
        client: Option<ClientId>,
        handle: Option<EntityHandle>,
        from: RegionId,
        kind: EntityKind,
        Ghost(left): Ghost<Held>,
    )
        requires
            old(self).wf(),
            left.handle == handle,
            left.region == from,
            left.kind == kind,
        ensures
            final(self).wf(),
            final(self)@ == old(self)@.greeted(new_key, new_entity, dest, client, left),
    {
        // The old entity is gone without going through `forget`, so it is
        // counted out here.
        self.counters.part(kind);
        // Spawned first, with the region it is now in and what that region
        // calls it, then Teleported.
        if let Some(handle) = handle {
            self.post(
                client,
                Some(handle),
                ToClient::Spawned { handle, region: dest, entity: new_entity },
            );
            self.post(client, Some(handle), ToClient::Teleported { handle, region: dest });
        }
        let ghost then = self@;
        let state = match self.carried.take(new_key.raw()) {
            Some(state) => state,
            None => Vec::new(),
        };
        assert(self@ =~= (Edge { carried: then.carried.remove(new_key.0), ..then }));
        self.note(Notice::Spawned(new_key, client, dest, new_entity));
        self.note(Notice::Arrived(new_key, client, from, dest, state));
    }

    /// Of an observer's shadows, those still held, each with its region.
    fn standing_in(&self, shadows: &Vec<EntityKey>) -> (out: Vec<(EntityKey, RegionId)>)
        ensures
            out@ == self@.standing_in(shadows@),
    {
        let mut out: Vec<(EntityKey, RegionId)> = Vec::new();
        let mut i: usize = 0;
        assert(shadows@.take(0) =~= Seq::empty());
        while i < shadows.len()
            invariant
                i <= shadows@.len(),
                out@ == self@.standing_in(shadows@.take(i as int)),
            decreases shadows@.len() - i,
        {
            assert(shadows@.take(i + 1).drop_last() =~= shadows@.take(i as int));
            if let Some(held) = self.by_key.get(shadows[i].raw()) {
                out.push((shadows[i], held.region));
            }
            i = i + 1;
        }
        assert(shadows@.take(i as int) =~= shadows@);
        out
    }

    /// Keeps an observer's shadow in the region beyond one square, moved there
    /// if it has one and asked for if not.
    fn keep_shadow(
        &mut self,
        owner: EntityKey,
        client: Option<ClientId>,
        existing: &Vec<(EntityKey, RegionId)>,
        cfg: &WorldConfig,
        here: WorldPos,
        square: Placement,
        keep: &mut Vec<EntityKey>,
    )
        requires
            old(self).wf(),
        ensures
            final(self).wf(),
            (final(self)@, final(keep)@) == old(self)@.shadowed(
                owner,
                client,
                existing@,
                cfg@,
                here,
                square,
                old(keep)@,
            ),
    {
        let neighbor = match self.map.region_at(square) {
            None => return,
            Some(neighbor) => neighbor,
        };
        let point = match shadow_point(cfg, here, square) {
            None => return,
            Some(point) => point,
        };
        match first_in(existing, neighbor) {
            Some(shadow) => {
                self.set_position(shadow, point);
                keep.push(shadow);
            },
            None => {
                let shadow = self.ask_for(
                    Ask {
                        client,
                        handle: None,
                        region: neighbor,
                        at: point,
                        kind: EntityKind::shadow(),
                        shadow_of: Some(owner),
                        name: None,
                    },
                );
                keep.push(shadow);
            },
        }
    }

    /// Replaces an observer's list of shadows, if it is still held.
    fn list_shadows(&mut self, key: EntityKey, shadows: Vec<EntityKey>)
        requires
            old(self).wf(),
        ensures
            final(self).wf(),
            final(self)@ == old(self)@.listing(key, shadows@),
    {
        if let Some(mut held) = self.by_key.take(key.raw()) {
            held.shadows = shadows;
            self.by_key.put(key.raw(), held);
        }
        assert(self@ =~= old(self)@.listing(key, shadows@));
    }

    /// An observer's view reaches its region's box. Which neighbors are there
    /// is the map's to say, and a shadow is kept in each so the client is
    /// served the far side too. Nothing for a region off the map.
    fn on_view_collision(&mut self, region: RegionId, entity: EntityId, position: Pos3)
        requires
            old(self).wf(),
        ensures
            final(self).wf(),
            final(self)@ == old(self)@.viewed(region, entity, position),
    {
        let key = match self.known(region, entity) {
            None => return,
            Some(key) => key,
        };
        let (client, existing) = match self.by_key.get(key.raw()) {
            None => return,
            Some(held) => {
                if held.shadow_of.is_some() {
                    return;
                }
                (held.client, self.standing_in(&held.shadows))
            },
        };
        let square = match self.map.placement_of(region) {
            None => return,
            Some(square) => square,
        };
        let cfg = match self.worlds.get(region.raw() as u64) {
            None => return,
            Some(world) => world.config,
        };
        let here = WorldPos::from_local(position, square, cfg.region_size());
        let squares = squares_in_view(&cfg, square, position);
        let mut keep: Vec<EntityKey> = Vec::new();
        let mut i: usize = 0;
        assert(squares@.take(0) =~= Seq::empty());
        while i < squares.len()
            invariant
                self.wf(),
                i <= squares@.len(),
                (self@, keep@) == old(self)@.all_shadowed(
                    key,
                    client,
                    existing@,
                    cfg@,
                    here,
                    squares@.take(i as int),
                ),
            decreases squares@.len() - i,
        {
            assert(squares@.take(i + 1).drop_last() =~= squares@.take(i as int));
            self.keep_shadow(key, client, &existing, &cfg, here, squares[i], &mut keep);
            i = i + 1;
        }
        assert(squares@.take(i as int) =~= squares@);
        let stale = beyond(&existing, &keep);
        self.release_all(&stale);
        self.list_shadows(key, keep);
    }

    /// An observer's view no longer reaches its region's box.
    fn on_view_cleared(&mut self, region: RegionId, entity: EntityId)
        requires
            old(self).wf(),
        ensures
            final(self).wf(),
            final(self)@ == old(self)@.cleared(region, entity),
    {
        let key = match self.known(region, entity) {
            None => return,
            Some(key) => key,
        };
        if let Some(mut held) = self.by_key.take(key.raw()) {
            let mut shadows: Vec<EntityKey> = Vec::new();
            std::mem::swap(&mut shadows, &mut held.shadows);
            self.by_key.put(key.raw(), held);
            assert(self@ =~= old(self)@.listing(key, Seq::empty()));
            self.release_all(&shadows);
        }
    }

    /// Whether an entity may be teleported to another region, and what it
    /// would leave as. `None` is a refusal: the entity is unknown, given back,
    /// already in transit or bound for the region it is in.
    pub fn departure(&self, key: EntityKey, dest: RegionId, position: Pos3, at: WorldPos) -> (d:
        Option<Departure>)
        ensures
            d == self@.departing(key, dest, position, at),
    {
        match self.by_key.get(key.raw()) {
            None => None,
            Some(held) => {
                if held.doomed || held.transition.is_some() || held.region.0 == dest.0 {
                    None
                } else {
                    Some(
                        Departure {
                            key,
                            client: held.client,
                            kind: held.kind,
                            from: held.region,
                            dest,
                            position,
                            at,
                            name: held.name,
                        },
                    )
                }
            },
        }
    }

    /// The entity itself reached its region's box. Whether a placed region
    /// lies beyond is the map's to say: if one does, the game is asked whether
    /// the edge may cross the entity into it by the teleport it already has;
    /// if none does, the wall is a wall, and the region has already stopped
    /// the entity at it. A shadow never crosses: it stands where its owner's
    /// view reaches, and its owner is what crosses.
    fn on_boundary_collision(&mut self, region: RegionId, entity: EntityId, target: Pos3) -> (d:
        Option<Departure>)
        requires
            old(self).wf(),
        ensures
            final(self).wf(),
            (final(self)@, d) == old(self)@.collided(region, entity, target),
    {
        let key = match self.known(region, entity) {
            None => return None,
            Some(key) => key,
        };
        match self.by_key.get(key.raw()) {
            None => return None,
            Some(held) => {
                if held.shadow_of.is_some() || held.doomed || held.transition.is_some() {
                    return None;
                }
            },
        }
        let at = match (self.map.placement_of(region), self.region_size) {
            (Some(square), Some(size)) => WorldPos::from_local(target, square, size),
            _ => {
                self.count_wall();
                return None;
            },
        };
        match self.locate(at) {
            Some((dest, local)) if dest.0 != region.0 => {
                let d = self.departure(key, dest, local, at);
                if d.is_none() {
                    self.count_wall();
                }
                d
            },
            _ => {
                self.count_wall();
                None
            },
        }
    }

    /// A region reported an entity gone.
    fn on_removed(&mut self, region: RegionId, entity: EntityId)
        requires
            old(self).wf(),
        ensures
            final(self).wf(),
            final(self)@ == old(self)@.removed(region, entity),
    {
        let key = match self.known(region, entity) {
            None => return,
            Some(key) => key,
        };
        let held = match self.forget(key) {
            None => return,
            Some(held) => held,
        };
        // A shadow going takes itself off its owner's list, and that is all:
        // the client never knew it and the game is not told.
        if let Some(owner) = held.shadow_of {
            let left = match self.by_key.get(owner.raw()) {
                None => return,
                Some(o) => without(&o.shadows, key),
            };
            self.list_shadows(owner, left);
            return;
        }
        // An owner going takes its shadows with it.
        self.release_all(&held.shadows);
        if let Some(handle) = held.handle {
            self.post(held.client, Some(handle), ToClient::Removed { handle });
        }
        self.note(Notice::Removed(key, held.client));
        if let Some(client) = held.client {
            self.finish_leaving(client);
        }
    }

    /// What a region reported, applied to what this edge is holding. A
    /// departure that comes back is one to put to the game, and its decision
    /// to [`cross`](Self::cross).
    pub fn on_presence(&mut self, region: RegionId, what: Report) -> (d: Option<Departure>)
        requires
            old(self).wf(),
        ensures
            final(self).wf(),
            (final(self)@, d) == old(self)@.reported(region, what),
    {
        match what {
            Report::Added { entity, token } => {
                self.on_added(region, entity, token);
                None
            },
            Report::ViewCollision { entity, position } => {
                self.on_view_collision(region, entity, position);
                None
            },
            Report::ViewCleared { entity } => {
                self.on_view_cleared(region, entity);
                None
            },
            Report::BoundaryCollision { entity, target } => self.on_boundary_collision(
                region,
                entity,
                target,
            ),
            Report::Removed { entity } => {
                self.on_removed(region, entity);
                None
            },
        }
    }

    // -- teleports --------------------------------------------------------

    /// Starts a teleport the game has decided on: the destination is asked for
    /// a copy under the entity's name, and until it answers the entity leaving
    /// holds what arrives for it.
    ///
    /// `None` is a refusal: the game denied it, or the entity went while the
    /// game was deciding. What to tell a client is the caller's business,
    /// since a crossing the client never asked for reports nothing.
    pub fn begin_teleport(&mut self, d: Departure, decision: TeleportDecision, now: u64) -> (to:
        Option<EntityKey>)
        requires
            old(self).wf(),
            now + TELEPORT_TIMEOUT <= u64::MAX,
        ensures
            final(self).wf(),
            (final(self)@, to) == old(self)@.departed(d, decision, now),
    {
        let carried = match decision {
            TeleportDecision::Deny => return None,
            TeleportDecision::Allow => None,
            TeleportDecision::Carry(state) => Some(state),
        };
        // The same name at the destination, so a client holding it from the
        // origin holds one entity across the move.
        let to = self.ask_for(
            Ask {
                client: d.client,
                handle: None,
                region: d.dest,
                at: d.position,
                kind: d.kind,
                shadow_of: None,
                name: Some(d.name),
            },
        );
        let ghost asked = self@;
        match self.by_key.take(d.key.raw()) {
            None => {
                // Gone while the game was deciding: the copy is given straight
                // back.
                assert(self@ =~= asked);
                self.release(to);
                return None;
            },
            Some(mut old) => {
                let transition = Transition {
                    to,
                    dest: d.dest,
                    held_move: None,
                    held_messages: Vec::new(),
                };
                assert(transition@.held_messages =~= Seq::<Seq<u8>>::empty());
                old.transition = Some(transition);
                self.by_key.put(d.key.raw(), old);
            },
        }
        let ghost left = asked.keeping(
            d.key,
            Held {
                transition: Some(
                    Passage {
                        to,
                        dest: d.dest,
                        held_move: None,
                        held_messages: Seq::empty(),
                    },
                ),
                ..asked.by_key[d.key.0]
            },
        );
        assert(self@ =~= left);
        if let Some(mut new) = self.by_key.take(to.raw()) {
            new.replaces = Some(d.key);
            self.by_key.put(to.raw(), new);
        }
        assert(self@ =~= left.keeping(to, Held { replaces: Some(d.key), ..left.by_key[to.0] }));
        if let Some(state) = carried {
            self.carried.put(to.raw(), state);
        }
        self.transits.push(Transit { from: d.key, to, deadline: now + TELEPORT_TIMEOUT });
        assert(self@ =~= old(self)@.departed(d, decision, now).0);
        Some(to)
    }

    /// A crossing the game has decided on.
    pub fn cross(&mut self, d: Departure, decision: TeleportDecision, now: u64)
        requires
            old(self).wf(),
            now + TELEPORT_TIMEOUT <= u64::MAX,
        ensures
            final(self).wf(),
            final(self)@ == old(self)@.crossed(d, decision, now),
    {
        match self.begin_teleport(d, decision, now) {
            Some(_) => {
                self.counters.crossings = self.counters.crossings.wrapping_add(1);
            },
            None => self.count_wall(),
        }
    }

    /// A teleport a client asked for and the game has decided on. A refusal is
    /// reported to the client that asked.
    pub fn teleport(
        &mut self,
        client: ClientId,
        handle: EntityHandle,
        d: Departure,
        decision: TeleportDecision,
        now: u64,
    )
        requires
            old(self).wf(),
            now + TELEPORT_TIMEOUT <= u64::MAX,
        ensures
            final(self).wf(),
            final(self)@ == old(self)@.teleported(client, handle, d, decision, now),
    {
        if self.begin_teleport(d, decision, now).is_none() {
            self.say(Effect::Post(client, ToClient::TeleportFailed { handle, region: d.dest }));
        }
    }

    /// Gives up on one teleport.
    fn give_up(&mut self, t: Transit)
        requires
            old(self).wf(),
        ensures
            final(self).wf(),
            final(self)@ == old(self)@.given_up(t),
    {
        if let Some(new) = self.by_key.get(t.to.raw()) {
            // Confirmed after all, and the remap is under way: leave it be.
            if new.id.is_some() {
                return;
            }
        }
        let (client, handle, region) = match self.by_key.get(t.from.raw()) {
            None => return,
            Some(old) => match &old.transition {
                None => return,
                Some(transition) => {
                    if transition.to.0 != t.to.0 {
                        return;
                    }
                    (old.client, old.handle, old.region)
                },
            },
        };
        let transition = match self.by_key.take(t.from.raw()) {
            None => return,
            Some(mut old) => {
                let taken = old.transition.take();
                self.by_key.put(t.from.raw(), old);
                match taken {
                    None => return,
                    Some(transition) => transition,
                }
            },
        };
        let ghost held = old(self)@.by_key[t.from.0];
        let ghost back = old(self)@.keeping(t.from, Held { transition: None, ..held });
        assert(self@ =~= back);
        let _ = self.carried.take(t.to.raw());
        assert(self@ =~= (Edge { carried: back.carried.remove(t.to.0), ..back }));
        let _ = self.forget(t.to);
        // What was held goes to where the entity still is.
        if let Some(at) = transition.held_move {
            self.set_world_position(t.from, at);
        }
        let id = match self.by_key.get(t.from.raw()) {
            None => None,
            Some(e) => e.id,
        };
        if let Some(id) = id {
            self.tell_all(region, id, &transition.held_messages);
        }
        self.counters.teleport_timeouts = self.counters.teleport_timeouts.wrapping_add(1);
        if let Some(handle) = handle {
            self.post(
                client,
                Some(handle),
                ToClient::TeleportFailed { handle, region: transition.dest },
            );
        }
    }

    /// Gives up on every teleport whose destination has not confirmed the
    /// spawn by its deadline.
    pub fn expire_transitions(&mut self, now: u64)
        requires
            old(self).wf(),
        ensures
            final(self).wf(),
            final(self)@ == old(self)@.expired(now),
    {
        let mut due: Vec<Transit> = Vec::new();
        let mut waiting: Vec<Transit> = Vec::new();
        let mut i: usize = 0;
        assert(self.transits@.take(0) =~= Seq::empty());
        while i < self.transits.len()
            invariant
                i <= self.transits@.len(),
                due@ == model::due(self.transits@.take(i as int), now, true),
                waiting@ == model::due(self.transits@.take(i as int), now, false),
            decreases self.transits@.len() - i,
        {
            assert(self.transits@.take(i + 1).drop_last() =~= self.transits@.take(i as int));
            if self.transits[i].deadline <= now {
                due.push(self.transits[i]);
            } else {
                waiting.push(self.transits[i]);
            }
            i = i + 1;
        }
        assert(self.transits@.take(i as int) =~= self.transits@);
        self.transits = waiting;
        let ghost start = self@;
        let mut k: usize = 0;
        assert(due@.take(0) =~= Seq::empty());
        while k < due.len()
            invariant
                self.wf(),
                k <= due@.len(),
                self@ == start.all_given_up(due@.take(k as int)),
            decreases due@.len() - k,
        {
            assert(due@.take(k + 1).drop_last() =~= due@.take(k as int));
            self.give_up(due[k]);
            k = k + 1;
        }
        assert(due@.take(k as int) =~= due@);
    }

    // -- clients ----------------------------------------------------------

    /// A game client connected. Its name is the edge's, and never reused.
    pub fn connect(&mut self) -> (client: ClientId)
        requires
            old(self).wf(),
        ensures
            final(self).wf(),
            client.0 == old(self)@.next_client,
            final(self)@ == old(self)@.connected(),
    {
        let client = ClientId::from_raw(self.client_ids.next());
        let fresh = Client {
            handles: Table::new(),
            keys: Vec::new(),
            told: Vec::new(),
            leaving: false,
        };
        assert(fresh@ =~= Party::fresh());
        self.clients.put(client.raw(), fresh);
        client
    }

    /// Reports a leaving client gone once the last of its entities is.
    ///
    /// Ordered this way so that when the game hears of it the client owns
    /// nothing and nothing further about it will be delivered, which is what
    /// makes the callback need no guard against a developer cleaning up out of
    /// habit.
    fn finish_leaving(&mut self, client: ClientId)
        requires
            old(self).wf(),
        ensures
            final(self).wf(),
            final(self)@ == old(self)@.finished(client),
    {
        let done: bool = match self.clients.get(client.raw()) {
            Some(held) => held.leaving && held.keys.len() == 0,
            None => false,
        };
        if !done {
            return;
        }
        let _ = self.clients.take(client.raw());
        self.note(Notice::Disconnected(client));
    }

    /// Gives back everything a client held, then reports it gone.
    ///
    /// It is not reported gone here unless it held nothing: that follows when
    /// the last entity's removal comes back, so that by the time it arrives
    /// the client owns nothing.
    pub fn sweep(&mut self, client: ClientId)
        requires
            old(self).wf(),
        ensures
            final(self).wf(),
            final(self)@ == old(self)@.swept(client),
    {
        match self.clients.get(client.raw()) {
            None => return,
            Some(held) => {
                if held.leaving {
                    return;
                }
            },
        }
        if let Some(mut held) = self.clients.take(client.raw()) {
            held.leaving = true;
            let keys = copied_keys(&held.keys);
            self.clients.put(client.raw(), held);
            assert(self@ =~= (Edge {
                clients: old(self)@.clients.insert(
                    client.0,
                    Party { leaving: true, ..old(self)@.clients[client.0] },
                ),
                ..old(self)@
            }));
            self.release_all(&keys);
            // A client that held nothing has nothing to wait for.
            self.finish_leaving(client);
        }
    }

    /// Who a packet built for one entity goes to, and under which of that
    /// client's handles.
    pub fn recipient(&self, region: RegionId, entity: EntityId) -> (to: Option<
        (ClientId, EntityHandle),
    >)
        ensures
            to == self@.recipient(region, entity),
    {
        let key = match self.known(region, entity) {
            None => return None,
            Some(key) => key,
        };
        let (client, handle) = match self.by_key.get(key.raw()) {
            None => return None,
            Some(held) => match held.shadow_of {
                None => (held.client, held.handle),
                Some(owner) => match self.by_key.get(owner.raw()) {
                    None => return None,
                    Some(seer) => (seer.client, seer.handle),
                },
            },
        };
        match (client, handle) {
            (Some(client), Some(handle)) => Some((client, handle)),
            _ => None,
        }
    }

    /// A client's own name for one of its entities, resolved.
    pub fn named(&self, client: ClientId, handle: EntityHandle) -> (key: Option<EntityKey>)
        ensures
            key == self@.named(client, handle),
    {
        match self.clients.get(client.raw()) {
            None => None,
            Some(held) => match held.handles.get(handle.raw() as u64) {
                None => None,
                Some(key) => Some(EntityKey(*key)),
            },
        }
    }

    /// A game's message to one entity's region.
    fn address(&mut self, key: EntityKey, body: Vec<u8>)
        requires
            old(self).wf(),
        ensures
            final(self).wf(),
            final(self)@ == old(self)@.addressed(key, body@),
    {
        match self.by_key.get(key.raw()) {
            None => return,
            Some(held) => {
                if held.doomed {
                    return;
                }
            },
        }
        if let Some(mut held) = self.by_key.take(key.raw()) {
            let (region, id) = (held.region, held.id);
            held.standing = Some(copied(&body));
            match held.transition.take() {
                Some(mut transition) => {
                    let ghost was = transition@;
                    let ghost bytes = body@;
                    transition.held_messages.push(body);
                    assert(transition@.held_messages =~= was.held_messages.push(bytes));
                    held.transition = Some(transition);
                    self.by_key.put(key.raw(), held);
                    assert(self@ =~= old(self)@.addressed(key, bytes));
                },
                None => {
                    self.by_key.put(key.raw(), held);
                    assert(self@ =~= old(self)@.keeping(
                        key,
                        Held { standing: Some(body@), ..old(self)@.by_key[key.0] },
                    ));
                    if let Some(id) = id {
                        self.tell(Outgoing::Message(region, id, body));
                    }
                },
            }
        }
    }

    /// A client's spawn. A handle is a connection's only name for an entity,
    /// so reusing one would leave two entities it cannot tell apart.
    fn want(
        &mut self,
        client: ClientId,
        handle: EntityHandle,
        spot: Option<(RegionId, Pos3)>,
        kind: EntityKind,
    )
        requires
            old(self).wf(),
        ensures
            final(self).wf(),
            final(self)@ == old(self)@.wanted(client, handle, spot, kind),
    {
        if self.named(client, handle).is_some() {
            self.count_refused();
            return;
        }
        match spot {
            None => self.count_off_map(),
            Some((region, at)) => {
                let _ = self.ask_for(
                    Ask {
                        client: Some(client),
                        handle: Some(handle),
                        region,
                        at,
                        kind,
                        shadow_of: None,
                        name: None,
                    },
                );
            },
        }
    }

    /// A client's moves. One rides a datagram and a spawn rides the stream, so
    /// a client's first move for a handle can arrive before the spawn that
    /// named it. Refused and counted, and superseded by the next move a tick
    /// later.
    fn move_by(&mut self, client: ClientId, moves: &Vec<(EntityHandle, WorldPos)>)
        requires
            old(self).wf(),
        ensures
            final(self).wf(),
            final(self)@ == old(self)@.moved(client, moves@),
    {
        let mut i: usize = 0;
        assert(moves@.take(0) =~= Seq::empty());
        while i < moves.len()
            invariant
                self.wf(),
                i <= moves@.len(),
                self@ == old(self)@.moved(client, moves@.take(i as int)),
            decreases moves@.len() - i,
        {
            assert(moves@.take(i + 1).drop_last() =~= moves@.take(i as int));
            let (handle, at) = moves[i];
            match self.named(client, handle) {
                Some(key) => self.set_world_position(key, at),
                None => self.count_refused(),
            }
            i = i + 1;
        }
        assert(moves@.take(i as int) =~= moves@);
    }

    /// A client's teleport.
    fn call(
        &mut self,
        client: ClientId,
        handle: EntityHandle,
        spot: Option<(RegionId, Pos3)>,
        at: WorldPos,
    ) -> (d: Option<Departure>)
        requires
            old(self).wf(),
        ensures
            final(self).wf(),
            (final(self)@, d) == old(self)@.called(client, handle, spot, at),
    {
        let key = match self.named(client, handle) {
            None => {
                self.count_refused();
                return None;
            },
            Some(key) => key,
        };
        match spot {
            None => {
                self.count_off_map();
                None
            },
            Some((dest, local)) => {
                let d = self.departure(key, dest, local, at);
                if d.is_none() {
                    self.say(
                        Effect::Post(client, ToClient::TeleportFailed { handle, region: dest }),
                    );
                }
                d
            },
        }
    }

    /// A position a client gave for a region it named.
    fn spot_in(&self, region: RegionId, at: WorldPos) -> (spot: Option<(RegionId, Pos3)>)
        requires
            self.wf(),
        ensures
            spot == self@.spot_in(region, at),
    {
        match self.to_frame(region, at) {
            Some(local) => Some((region, local)),
            None => None,
        }
    }

    /// One command from one client. A departure that comes back is one to put
    /// to the game, and its decision to [`teleport`](Self::teleport).
    ///
    /// The ownership check here is per connection, did *this* client ask for
    /// that entity, which is a different question from the region's per-edge
    /// check. Both are consistency checks rather than authorization.
    pub fn on_client(&mut self, client: ClientId, message: FromClient) -> (d: Option<Departure>)
        requires
            old(self).wf(),
        ensures
            final(self).wf(),
            (final(self)@, d) == old(self)@.heard(client, message),
    {
        self.counters.commands = self.counters.commands.wrapping_add(1);
        match message {
            FromClient::Spawn { handle, position, kind } => {
                let spot = self.locate(position);
                self.want(client, handle, spot, kind);
                None
            },
            FromClient::SpawnInto { handle, region, position, kind } => {
                let spot = self.spot_in(region, position);
                self.want(client, handle, spot, kind);
                None
            },
            FromClient::Move { handle, position } => {
                let mut one: Vec<(EntityHandle, WorldPos)> = Vec::new();
                one.push((handle, position));
                assert(one@ =~= seq![(handle, position)]);
                self.move_by(client, &one);
                None
            },
            FromClient::Moves(moves) => {
                self.move_by(client, &moves);
                None
            },
            FromClient::Despawn { handle } => {
                match self.named(client, handle) {
                    Some(key) => self.release(key),
                    None => self.count_refused(),
                }
                None
            },
            FromClient::Message(body) => {
                self.note(Notice::Message(client, body));
                None
            },
            FromClient::EntityMessage { handle, body } => {
                match self.named(client, handle) {
                    Some(key) => self.address(key, body),
                    None => self.count_refused(),
                }
                None
            },
            FromClient::Teleport { handle, at } => {
                let spot = self.locate(at);
                self.call(client, handle, spot, at)
            },
            FromClient::TeleportInto { handle, region, at } => {
                let spot = self.spot_in(region, at);
                self.call(client, handle, spot, at)
            },
        }
    }
}

impl EdgeHandle {
    /// One frame from one client, off its stream or in a datagram. A departure
    /// that comes back is one to put to the game, under the handle that asked
    /// for it.
    pub fn on_frame(&mut self, client: ClientId, frame: &[u8]) -> (d: Option<
        (EntityHandle, Departure),
    >)
        requires
            old(self).wf(),
        ensures
            final(self).wf(),
            old(self)@.received(client, frame@, final(self)@, d),
    {
        match FromClient::decode(frame) {
            Ok(message) => {
                let ghost m = message;
                let handle = match &message {
                    FromClient::Teleport { handle, .. } => Some(*handle),
                    FromClient::TeleportInto { handle, .. } => Some(*handle),
                    _ => None,
                };
                let d = self.on_client(client, message);
                assert(m.wire() == frame@);
                match (handle, d) {
                    (Some(handle), Some(d)) => Some((handle, d)),
                    _ => None,
                }
            },
            Err(_) => {
                self.count_refused();
                None
            },
        }
    }
}

/// The first of several shadows that is in a region.
fn first_in(existing: &Vec<(EntityKey, RegionId)>, region: RegionId) -> (key: Option<EntityKey>)
    ensures
        key == model::first_in(existing@, region),
{
    let mut found: Option<EntityKey> = None;
    let mut i: usize = 0;
    assert(existing@.take(0) =~= Seq::empty());
    while i < existing.len()
        invariant
            i <= existing@.len(),
            found == model::first_in(existing@.take(i as int), region),
        decreases existing@.len() - i,
    {
        assert(existing@.take(i + 1).drop_last() =~= existing@.take(i as int));
        let (key, at) = existing[i];
        if found.is_none() && at.0 == region.0 {
            found = Some(key);
        }
        i = i + 1;
    }
    assert(existing@.take(i as int) =~= existing@);
    found
}

/// The keys of several shadows that are not among those kept.
fn beyond(existing: &Vec<(EntityKey, RegionId)>, keep: &Vec<EntityKey>) -> (out: Vec<EntityKey>)
    ensures
        out@ == model::beyond(model::keys_of(existing@), keep@),
{
    let ghost keys = model::keys_of(existing@);
    let mut out: Vec<EntityKey> = Vec::new();
    let mut i: usize = 0;
    assert(keys.take(0) =~= Seq::empty());
    while i < existing.len()
        invariant
            i <= existing@.len(),
            keys == model::keys_of(existing@),
            out@ == model::beyond(keys.take(i as int), keep@),
        decreases existing@.len() - i,
    {
        assert(keys.take(i + 1).drop_last() =~= keys.take(i as int));
        let (key, _) = existing[i];
        if !holds(keep, key) {
            out.push(key);
        }
        i = i + 1;
    }
    assert(keys.take(i as int) =~= keys);
    out
}

/// The same keys again.
fn copied_keys(keys: &Vec<EntityKey>) -> (out: Vec<EntityKey>)
    ensures
        out@ == keys@,
{
    let mut out: Vec<EntityKey> = Vec::with_capacity(keys.len());
    let mut i: usize = 0;
    while i < keys.len()
        invariant
            i <= keys@.len(),
            out@ == keys@.take(i as int),
        decreases keys@.len() - i,
    {
        out.push(keys[i]);
        i = i + 1;
        assert(out@ =~= keys@.take(i as int));
    }
    assert(out@ =~= keys@);
    out
}

/// The same bytes again.
fn copied(body: &Vec<u8>) -> (out: Vec<u8>)
    ensures
        out@ == body@,
{
    let mut out: Vec<u8> = Vec::with_capacity(body.len());
    out.extend_from_slice(body.as_slice());
    assert(out@ =~= body@);
    out
}

impl EdgeHandle {
    // -- starting ---------------------------------------------------------

    /// An edge holding nothing. Its keys carry `prefix`, so no other edge mints
    /// the same.
    pub fn new(map: WorldMap, prefix: u32) -> (e: EdgeHandle)
        requires
            map.wf(),
        ensures
            e.wf(),
            e@ == Edge::blank(map@, prefix),
    {
        let e = EdgeHandle {
            clients: Table::new(),
            by_key: Table::new(),
            by_id: Table::new(),
            moves: Table::new(),
            worlds: Table::new(),
            client_ids: Mint::new(),
            entity_keys: Mint::seeded(prefix),
            counters: Counters::none(),
            map,
            region_size: None,
            carried: Table::new(),
            transits: Vec::new(),
            outbox: Vec::new(),
        };
        assert(e@ =~= Edge::blank(map@, prefix));
        e
    }

    /// Records what world a region runs.
    pub fn learn(&mut self, region: RegionId, world: RegionWorld)
        requires
            old(self).wf(),
        ensures
            final(self).wf(),
            final(self)@ == old(self)@.learned(region, world),
    {
        proof {
            use_type_invariant(&world.config);
        }
        self.worlds.put(region.raw() as u64, world);
        if self.region_size.is_none() && self.map.placement_of(region).is_some() {
            self.region_size = Some(world.config.region_size());
        }
        assert(self@ =~= old(self)@.learned(region, world));
    }

    /// Whether a client holds anything in a region.
    fn in_region(&self, client: u64, region: RegionId) -> (b: bool)
        ensures
            b == self@.in_region(client, region),
    {
        let keys = self.by_key.keys();
        let mut i: usize = 0;
        while i < keys.len()
            invariant
                i <= keys@.len(),
                keys@.to_set() == self@.by_key.dom(),
                forall|j: int|
                    0 <= j < i ==> !(self@.by_key[#[trigger] keys@[j]].client == Some(
                        ClientId(client),
                    ) && self@.by_key[keys@[j]].region == region),
            decreases keys@.len() - i,
        {
            let key: u64 = keys[i];
            assert(keys@.to_set().contains(key));
            if let Some(held) = self.by_key.get(key) {
                let owned = match held.client {
                    Some(c) => c.raw() == client,
                    None => false,
                };
                if owned && held.region.raw() == region.raw() {
                    assert(self@.by_key.contains_key(key));
                    return true;
                }
            }
            i = i + 1;
        }
        proof {
            assert forall|key: u64| #[trigger] self@.by_key.contains_key(key) implies !(
            self@.by_key[key].client == Some(ClientId(client)) && self@.by_key[key].region
                == region) by {
                assert(keys@.to_set().contains(key));
                let j = choose|j: int| 0 <= j < keys@.len() && keys@[j] == key;
            }
        }
        false
    }

    /// Tells one client how to read a region's packets, if it needs it.
    fn tell_client(&mut self, client: u64, region: RegionId, info: EdgeInfo)
        requires
            old(self).wf(),
            old(self)@.clients.contains_key(client),
            old(self)@.worlds.contains_key(region.0 as u64),
            info == old(self)@.worlds[region.0 as u64].info,
        ensures
            final(self).wf(),
            final(self)@ == old(self)@.told(client, region),
    {
        if !self.in_region(client, region) {
            return;
        }
        if let Some(mut held) = self.clients.take(client) {
            let mut known = false;
            let mut i: usize = 0;
            while i < held.told.len()
                invariant
                    i <= held.told@.len(),
                    known == held.told@.take(i as int).contains(region),
                decreases held.told@.len() - i,
            {
                let one = held.told[i];
                proof {
                    let t = held.told@;
                    assert(t.take(i + 1) =~= t.take(i as int).push(one));
                    if t.take(i as int).contains(region) {
                        let j = choose|j: int| 0 <= j < i && t.take(i as int)[j] == region;
                        assert(t.take(i + 1)[j] == region);
                    }
                    assert(t.take(i + 1)[i as int] == one);
                }
                if one.raw() == region.raw() {
                    known = true;
                }
                i = i + 1;
            }
            assert(held.told@.take(i as int) =~= held.told@);
            if known {
                self.clients.put(client, held);
                assert(self@ =~= old(self)@);
                return;
            }
            held.told.push(region);
            let ghost party = old(self)@.clients[client];
            assert(held@ =~= (Party { told: party.told.push(region), ..party }));
            self.clients.put(client, held);
            let ghost mid = self@;
            assert(mid.clients =~= old(self)@.clients.insert(client, held@));
            self.say(Effect::Post(ClientId::from_raw(client), ToClient::Region(info)));
            assert(self@ =~= old(self)@.told(client, region));
        }
    }

    /// Whether a region has said what world it runs.
    pub fn has_met(&self, region: RegionId) -> (b: bool)
        ensures
            b == self@.worlds.contains_key(region.0 as u64),
    {
        self.worlds.get(region.raw() as u64).is_some()
    }

    /// Tells every client that needs a region's parameters, once the region
    /// has said what they are.
    pub fn tell_the_world(&mut self, region: RegionId)
        requires
            old(self).wf(),
        ensures
            final(self).wf(),
            final(self)@ == old(self)@.informed(region),
    {
        let info = match self.worlds.get(region.raw() as u64) {
            Some(world) => world.info,
            None => return,
        };
        let clients = self.clients.keys();
        let mut i: usize = 0;
        assert(clients@.take(0) =~= Seq::empty());
        while i < clients.len()
            invariant
                i <= clients@.len(),
                self.wf(),
                clients@.to_set() == old(self)@.clients.dom(),
                self@.clients.dom() == old(self)@.clients.dom(),
                self@.worlds == old(self)@.worlds,
                old(self)@.worlds.contains_key(region.0 as u64),
                info == old(self)@.worlds[region.0 as u64].info,
                self@ == old(self)@.all_told(clients@.take(i as int), region),
            decreases clients@.len() - i,
        {
            assert(clients@.take(i + 1).drop_last() =~= clients@.take(i as int));
            assert(clients@.to_set().contains(clients@[i as int]));
            let ghost before = self@;
            self.tell_client(clients[i], region, info);
            assert(self@.clients.dom() =~= before.clients.dom());
            i = i + 1;
        }
        assert(clients@.take(i as int) =~= clients@);
    }

    // -- entities ---------------------------------------------------------

    /// Asks a region for an entity on this client's behalf.
    ///
    /// Returns immediately with a key that is valid at once: a move sent under
    /// it before the region answers is held and sent when the id arrives. The
    /// id itself reaches the game when it does.
    ///
    /// The entity is despawned when the client disconnects.
    pub fn spawn(&mut self, client: ClientId, at: WorldPos, kind: EntityKind) -> (r: Result<
        EntityKey,
        NetError,
    >)
        requires
            old(self).wf(),
        ensures
            final(self).wf(),
            match old(self)@.located(at) {
                None => r == Err::<EntityKey, NetError>(NetError::OffMap) && final(self)@
                    == old(self)@,
                Some((region, local)) => {
                    &&& r == Ok::<EntityKey, NetError>(EntityKey(old(self)@.next_key))
                    &&& final(self)@ == old(self)@.asked(
                        Ask::plain(Some(client), region, local, kind),
                    )
                },
            },
    {
        match self.locate(at) {
            None => Err(NetError::OffMap),
            Some((region, local)) => Ok(
                self.ask_for(
                    Ask {
                        client: Some(client),
                        handle: None,
                        region,
                        at: local,
                        kind,
                        shadow_of: None,
                        name: None,
                    },
                ),
            ),
        }
    }

    /// As [`spawn`](Self::spawn), into a named region, which is the one way
    /// into a region off the map. `at` is in that region's frame: the map's
    /// if it is placed, its own if not.
    pub fn spawn_into(
        &mut self,
        client: ClientId,
        region: RegionId,
        at: WorldPos,
        kind: EntityKind,
    ) -> (r: Result<EntityKey, NetError>)
        requires
            old(self).wf(),
        ensures
            final(self).wf(),
            match old(self)@.framed(region, at) {
                None => r == Err::<EntityKey, NetError>(NetError::OffMap) && final(self)@
                    == old(self)@,
                Some(local) => {
                    &&& r == Ok::<EntityKey, NetError>(EntityKey(old(self)@.next_key))
                    &&& final(self)@ == old(self)@.asked(
                        Ask::plain(Some(client), region, local, kind),
                    )
                },
            },
    {
        match self.to_frame(region, at) {
            None => Err(NetError::OffMap),
            Some(local) => Ok(
                self.ask_for(
                    Ask {
                        client: Some(client),
                        handle: None,
                        region,
                        at: local,
                        kind,
                        shadow_of: None,
                        name: None,
                    },
                ),
            ),
        }
    }

    /// An entity with no client behind it, which lives until this edge does.
    ///
    /// Not swept when a client disconnects, which is what calling this rather
    /// than [`spawn`](Self::spawn) asked for.
    pub fn spawn_detached(&mut self, at: WorldPos, kind: EntityKind) -> (r: Result<
        EntityKey,
        NetError,
    >)
        requires
            old(self).wf(),
        ensures
            final(self).wf(),
            match old(self)@.located(at) {
                None => r == Err::<EntityKey, NetError>(NetError::OffMap) && final(self)@
                    == old(self)@,
                Some((region, local)) => {
                    &&& r == Ok::<EntityKey, NetError>(EntityKey(old(self)@.next_key))
                    &&& final(self)@ == old(self)@.asked(Ask::plain(None, region, local, kind))
                },
            },
    {
        match self.locate(at) {
            None => Err(NetError::OffMap),
            Some((region, local)) => Ok(
                self.ask_for(
                    Ask {
                        client: None,
                        handle: None,
                        region,
                        at: local,
                        kind,
                        shadow_of: None,
                        name: None,
                    },
                ),
            ),
        }
    }

    /// As [`spawn_detached`](Self::spawn_detached), into a named region.
    pub fn spawn_detached_into(&mut self, region: RegionId, at: WorldPos, kind: EntityKind) -> (r:
        Result<EntityKey, NetError>)
        requires
            old(self).wf(),
        ensures
            final(self).wf(),
            match old(self)@.framed(region, at) {
                None => r == Err::<EntityKey, NetError>(NetError::OffMap) && final(self)@
                    == old(self)@,
                Some(local) => {
                    &&& r == Ok::<EntityKey, NetError>(EntityKey(old(self)@.next_key))
                    &&& final(self)@ == old(self)@.asked(Ask::plain(None, region, local, kind))
                },
            },
    {
        match self.to_frame(region, at) {
            None => Err(NetError::OffMap),
            Some(local) => Ok(
                self.ask_for(
                    Ask {
                        client: None,
                        handle: None,
                        region,
                        at: local,
                        kind,
                        shadow_of: None,
                        name: None,
                    },
                ),
            ),
        }
    }

    /// Sends a new absolute position.
    ///
    /// A key whose entity has already gone is dropped, silently. Removal
    /// arrives unprompted — a region's game can despawn anything, and an entity
    /// can die between a caller reading its keys and sending the batch — so
    /// this is a race rather than a mistake, and `refused` counts mistakes.
    pub fn move_entity(&mut self, entity: EntityKey, to: WorldPos)
        requires
            old(self).wf(),
        ensures
            final(self).wf(),
            final(self)@ == old(self)@.world_placed(entity, to),
    {
        self.set_world_position(entity, to);
    }

    /// Several at once, however many regions the batch spans. Each position is
    /// translated into the frame of the region its entity is in.
    pub fn move_entities(&mut self, moves: &[(EntityKey, WorldPos)])
        requires
            old(self).wf(),
        ensures
            final(self).wf(),
            final(self)@ == old(self)@.all_placed(moves@),
    {
        self.set_world_positions(moves);
    }

    /// Gives an entity back, wherever it is.
    ///
    /// Stops moving it now rather than when the region reports it gone. The
    /// client that held it is told when the region does, whether it asked for
    /// this or not.
    pub fn despawn(&mut self, entity: EntityKey)
        requires
            old(self).wf(),
        ensures
            final(self).wf(),
            final(self)@ == old(self)@.released(entity),
    {
        self.release(entity);
    }

    /// Forwards a game message to the region an entity lives in. The body is
    /// the game's own bytes.
    pub fn send_to_region(&mut self, entity: EntityKey, body: &[u8]) -> (r: Result<(), NetError>)
        requires
            old(self).wf(),
        ensures
            final(self).wf(),
            match old(self)@.id_of(entity) {
                None => r == Err::<(), NetError>(NetError::Unknown("entity")) && final(self)@
                    == old(self)@,
                Some((region, id)) => r is Ok && final(self)@ == old(self)@.telling(
                    Outgoing::Message(region, id, body@),
                ),
            },
    {
        match self.entity_id(entity) {
            None => Err(NetError::Unknown("entity")),
            Some((region, id)) => {
                self.tell(Outgoing::Message(region, id, slice_to_vec(body)));
                Ok(())
            },
        }
    }

    // -- the mapping ------------------------------------------------------

    /// Whether a client is connected still.
    pub fn is_connected(&self, client: ClientId) -> (b: bool)
        requires
            self.wf(),
        ensures
            b == self@.clients.contains_key(client.0),
    {
        self.clients.get(client.0).is_some()
    }

    /// Who owns an entity, if anyone does. `None` for a detached one, and for
    /// a key this edge is not holding.
    pub fn client_of(&self, entity: EntityKey) -> (client: Option<ClientId>)
        ensures
            client == self@.owner_of(entity),
    {
        match self.by_key.get(entity.raw()) {
            Some(held) => held.client,
            None => None,
        }
    }

    /// Everything a client holds. Empty for a client that has gone. The
    /// shadows kept for its observers are swept with them but were never asked
    /// for, so they are not listed.
    pub fn entities_of(&self, client: ClientId) -> (out: Vec<EntityKey>)
        ensures
            out@ == if self@.clients.contains_key(client.0) {
                self@.listed(self@.clients[client.0].keys)
            } else {
                Seq::empty()
            },
    {
        let mut out: Vec<EntityKey> = Vec::new();
        let held = match self.clients.get(client.raw()) {
            Some(held) => held,
            None => return out,
        };
        let mut i: usize = 0;
        assert(held.keys@.take(0) =~= Seq::empty());
        while i < held.keys.len()
            invariant
                i <= held.keys@.len(),
                out@ == self@.listed(held.keys@.take(i as int)),
            decreases held.keys@.len() - i,
        {
            assert(held.keys@.take(i + 1).drop_last() =~= held.keys@.take(i as int));
            let key = held.keys[i];
            let hidden = match self.by_key.get(key.raw()) {
                Some(e) => e.shadow_of.is_some(),
                None => false,
            };
            if !hidden {
                out.push(key);
            }
            i = i + 1;
        }
        assert(held.keys@.take(i as int) =~= held.keys@);
        out
    }

    /// This edge's name for what a region calls `id`.
    ///
    /// Ids are unique within a region and no further, so both halves are
    /// needed. `None` before the region has answered, and after it has said the
    /// entity is gone.
    pub fn key_of(&self, region: RegionId, id: EntityId) -> (key: Option<EntityKey>)
        ensures
            key == if self@.by_id.contains_key(model::seat(region, id)) {
                Some(EntityKey(self@.by_id[model::seat(region, id)]))
            } else {
                None
            },
    {
        match self.by_id.get(seat_of(region, id)) {
            Some(raw) => Some(EntityKey::from_raw(*raw)),
            None => None,
        }
    }

    /// Where an entity is and what that region calls it. `None` until the
    /// region has answered.
    pub fn entity_id(&self, entity: EntityKey) -> (r: Option<(RegionId, EntityId)>)
        ensures
            r == self@.id_of(entity),
    {
        match self.by_key.get(entity.raw()) {
            Some(held) => match held.id {
                Some(id) => Some((held.region, id)),
                None => None,
            },
            None => None,
        }
    }

    /// What this edge has done since it started.
    pub fn stats(&self) -> (s: EdgeStats)
        ensures
            s == self@.totals(),
    {
        EdgeStats {
            clients: self.clients.len() as u32,
            entities: self.by_key.len() as u32,
            observers: self.counters.observers,
            relayed: self.counters.relayed,
            undeliverable: self.counters.undeliverable,
            commands: self.counters.commands,
            refused: self.counters.refused,
            placed_regions: self.map.len() as u32,
            off_map: self.counters.off_map,
            shadows: self.counters.shadows,
            crossings: self.counters.crossings,
            walls: self.counters.walls,
            transitions: self.transits.len() as u32,
            teleport_timeouts: self.counters.teleport_timeouts,
        }
    }

    /// The regions this edge currently holds live entities in, in order.
    ///
    /// Entities marked for removal are excluded: their despawn has already been
    /// sent, and keeping the region alive while waiting for the confirmation
    /// would prevent the silence-based timeout from cleaning up a stopped sim.
    pub fn regions(&self) -> (out: Vec<RegionId>)
        ensures
            out@.map_values(|r: RegionId| r.0 as u64) == table::in_order(self@.occupied()),
    {
        let keys = self.by_key.keys();
        let mut seen: Table<u64> = Table::new();
        let mut i: usize = 0;
        while i < keys.len()
            invariant
                i <= keys@.len(),
                keys@.to_set() == self@.by_key.dom(),
                forall|r: u64| #[trigger]
                    seen@.contains_key(r) ==> r <= u32::MAX && exists|j: int|
                        0 <= j < i && !self@.by_key[#[trigger] keys@[j]].doomed
                            && self@.by_key[keys@[j]].region.0 == r,
                forall|j: int|
                    0 <= j < i && !self@.by_key[#[trigger] keys@[j]].doomed
                        ==> seen@.contains_key(self@.by_key[keys@[j]].region.0 as u64),
            decreases keys@.len() - i,
        {
            let key: u64 = keys[i];
            assert(keys@.to_set().contains(key));
            let ghost before = seen@;
            if let Some(held) = self.by_key.get(key) {
                if !held.doomed {
                    seen.put(held.region.raw() as u64, 0);
                }
            }
            proof {
                assert forall|r: u64| #[trigger] seen@.contains_key(r) implies r <= u32::MAX
                    && exists|j: int|
                    0 <= j < i + 1 && !self@.by_key[#[trigger] keys@[j]].doomed
                        && self@.by_key[keys@[j]].region.0 == r by {
                    if before.contains_key(r) {
                        let j = choose|j: int|
                            0 <= j < i && !self@.by_key[#[trigger] keys@[j]].doomed
                                && self@.by_key[keys@[j]].region.0 == r;
                        assert(!self@.by_key[keys@[j]].doomed);
                    } else {
                        assert(!self@.by_key[keys@[i as int]].doomed);
                    }
                }
            }
            i = i + 1;
        }
        let raws = seen.keys();
        proof {
            assert forall|r: u64| seen@.dom().contains(r) == self@.occupied().contains(r) by {
                if seen@.contains_key(r) {
                    let j = choose|j: int|
                        0 <= j < keys@.len() && !self@.by_key[#[trigger] keys@[j]].doomed
                            && self@.by_key[keys@[j]].region.0 == r;
                    assert(keys@.to_set().contains(keys@[j]));
                    assert(self@.by_key.contains_key(keys@[j]));
                }
                if self@.occupied().contains(r) {
                    let key = choose|key: u64| #[trigger]
                        self@.by_key.contains_key(key) && !self@.by_key[key].doomed
                            && self@.by_key[key].region.0 == r;
                    assert(keys@.to_set().contains(key));
                    let j = choose|j: int| 0 <= j < keys@.len() && keys@[j] == key;
                    assert(!self@.by_key[keys@[j]].doomed);
                }
            }
            assert(seen@.dom() =~= self@.occupied());
        }
        let mut out: Vec<RegionId> = Vec::new();
        let mut n: usize = 0;
        while n < raws.len()
            invariant
                n <= raws@.len(),
                out@.len() == n,
                raws@.to_set() == seen@.dom(),
                forall|r: u64| #[trigger] seen@.contains_key(r) ==> r <= u32::MAX,
                forall|j: int| 0 <= j < n ==> (#[trigger] out@[j]).0 == raws@[j],
            decreases raws@.len() - n,
        {
            assert(raws@.to_set().contains(raws@[n as int]));
            assert(seen@.contains_key(raws@[n as int]));
            out.push(RegionId::from_raw(raws[n] as u32));
            n = n + 1;
        }
        assert(out@.map_values(|r: RegionId| r.0 as u64) =~= raws@);
        out
    }
}

/// The region a seat is in.
pub open spec fn region_at(seat: u64) -> RegionId {
    RegionId((seat / 0x1_0000_0000) as u32)
}

/// What a region calls whoever is in a seat.
pub open spec fn entity_at(seat: u64) -> EntityId {
    EntityId((seat % 0x1_0000_0000) as u32)
}

/// A seat is its region's and its entity's, and no other's.
proof fn lemma_seat(region: RegionId, id: EntityId, seat: u64)
    ensures
        (model::seat(region, id) == seat) == (region_at(seat) == region && entity_at(seat) == id),
{
}

/// The positions waiting for a region, of the entities in these seats.
pub open spec fn waiting_for(moves: Map<u64, Pos3>, seats: Seq<u64>, region: RegionId) -> Seq<
    (EntityId, Pos3),
>
    decreases seats.len(),
{
    if seats.len() == 0 {
        Seq::empty()
    } else {
        let front = waiting_for(moves, seats.drop_last(), region);
        if region_at(seats.last()) == region {
            front.push((entity_at(seats.last()), moves[seats.last()]))
        } else {
            front
        }
    }
}

impl EdgeHandle {
    /// Takes everything queued since the last flush, by region. One publish
    /// per client move would be tens of thousands of tiny messages a second at
    /// any real client count.
    pub fn flush_moves(&mut self) -> (batches: Vec<Pile<(EntityId, Pos3)>>)
        requires
            old(self).wf(),
        ensures
            final(self).wf(),
            final(self)@ == (Edge { moves: Map::empty(), ..old(self)@ }),
            pile::distinct(batches@) && pile::filled(batches@),
            forall|r: RegionId| #[trigger]
                pile::pile_for(batches@, r) == waiting_for(
                    old(self)@.moves,
                    table::in_order(old(self)@.moves.dom()),
                    r,
                ),
    {
        let seats = self.moves.keys();
        let ghost moves = self@.moves;
        let mut batches: Vec<Pile<(EntityId, Pos3)>> = Vec::new();
        let mut i: usize = 0;
        assert(seats@.take(0) =~= Seq::empty());
        while i < seats.len()
            invariant
                i <= seats@.len(),
                moves == self@.moves,
                seats@.to_set() == moves.dom(),
                pile::distinct(batches@) && pile::filled(batches@),
                forall|r: RegionId| #[trigger]
                    pile::pile_for(batches@, r) == waiting_for(moves, seats@.take(i as int), r),
            decreases seats@.len() - i,
        {
            assert(seats@.take(i + 1).drop_last() =~= seats@.take(i as int));
            let seat: u64 = seats[i];
            assert(seats@.to_set().contains(seat));
            if let Some(to) = self.moves.get(seat) {
                let region = RegionId::from_raw((seat / 0x1_0000_0000) as u32);
                let id = EntityId::from_raw((seat % 0x1_0000_0000) as u32);
                heap(&mut batches, region, (id, *to));
            }
            i = i + 1;
        }
        assert(seats@.take(i as int) =~= seats@);
        self.moves.clear();
        assert(self@ =~= (Edge { moves: Map::empty(), ..old(self)@ }));
        batches
    }
}

proof fn lemma_waiting(moves: Map<u64, Pos3>, seats: Seq<u64>, region: RegionId)
    requires
        forall|i: int| 0 <= i < seats.len() ==> moves.contains_key(#[trigger] seats[i]),
        table::ascending(seats),
    ensures
        forall|i: int|
            0 <= i < waiting_for(moves, seats, region).len() ==> {
                let (id, to) = #[trigger] waiting_for(moves, seats, region)[i];
                seats.contains(model::seat(region, id)) && to == moves[model::seat(region, id)]
            },
        forall|k: int|
            0 <= k < seats.len() && region_at(#[trigger] seats[k]) == region ==> waiting_for(
                moves,
                seats,
                region,
            ).contains((entity_at(seats[k]), moves[seats[k]])),
        forall|i: int, j: int|
            0 <= i < j < waiting_for(moves, seats, region).len() ==> (
            #[trigger] waiting_for(moves, seats, region)[i]).0.0 < (
            #[trigger] waiting_for(moves, seats, region)[j]).0.0,
    decreases seats.len(),
{
    if seats.len() > 0 {
        let front = seats.drop_last();
        assert forall|i: int| 0 <= i < front.len() implies moves.contains_key(
            #[trigger] front[i],
        ) by {
            assert(front[i] == seats[i]);
        }
        lemma_waiting(moves, front, region);
        let before = waiting_for(moves, front, region);
        let all = waiting_for(moves, seats, region);
        let last = seats.last();
        assert forall|i: int| 0 <= i < all.len() implies {
            let (id, to) = #[trigger] all[i];
            seats.contains(model::seat(region, id)) && to == moves[model::seat(region, id)]
        } by {
            let (id, to) = all[i];
            if i < before.len() {
                assert(before[i] == all[i]);
                let n = choose|n: int|
                    0 <= n < front.len() && front[n] == model::seat(region, id);
                assert(seats[n] == model::seat(region, id));
            } else {
                lemma_seat(region, id, last);
                assert(seats[seats.len() - 1] == last);
            }
        }
        assert forall|k: int|
            0 <= k < seats.len() && region_at(#[trigger] seats[k]) == region implies all.contains(
            (entity_at(seats[k]), moves[seats[k]]),
        ) by {
            if k < front.len() {
                assert(front[k] == seats[k]);
                let want = (entity_at(seats[k]), moves[seats[k]]);
                let n = choose|n: int| 0 <= n < before.len() && before[n] == want;
                assert(all[n] == want);
            } else {
                assert(all[all.len() - 1] == (entity_at(last), moves[last]));
            }
        }
        assert forall|i: int, j: int| 0 <= i < j < all.len() implies (#[trigger] all[i]).0.0 < (
        #[trigger] all[j]).0.0 by {
            assert(before[i] == all[i]);
            if j < before.len() {
                assert(before[j] == all[j]);
            } else {
                let id = all[i].0;
                let n = choose|n: int|
                    0 <= n < front.len() && front[n] == model::seat(region, id);
                assert(seats[n] < seats[seats.len() - 1]);
                lemma_seat(region, all[j].0, last);
            }
        }
    }
}

/// A flush carries every position waiting for a region, once each and the
/// latest.
pub proof fn law_a_flush_carries_every_waiting_position(moves: Map<u64, Pos3>, region: RegionId)
    requires
        exists|s: Seq<u64>| table::ascending(s) && #[trigger] s.to_set() == moves.dom(),
    ensures
        ({
            let batch = waiting_for(moves, table::in_order(moves.dom()), region);
            &&& forall|i: int, j: int|
                0 <= i < j < batch.len() ==> (#[trigger] batch[i]).0 != (#[trigger] batch[j]).0
            &&& forall|id: EntityId, to: Pos3| #[trigger]
                batch.contains((id, to)) == (moves.contains_key(model::seat(region, id))
                    && moves[model::seat(region, id)] == to)
        }),
{
    let seats = table::in_order(moves.dom());
    assert forall|i: int| 0 <= i < seats.len() implies moves.contains_key(#[trigger] seats[i]) by {
        assert(seats.to_set().contains(seats[i]));
    }
    lemma_waiting(moves, seats, region);
    let batch = waiting_for(moves, seats, region);
    assert forall|id: EntityId, to: Pos3| #[trigger]
        batch.contains((id, to)) == (moves.contains_key(model::seat(region, id))
            && moves[model::seat(region, id)] == to) by {
        let seat = model::seat(region, id);
        lemma_seat(region, id, seat);
        if batch.contains((id, to)) {
            let i = choose|i: int| 0 <= i < batch.len() && batch[i] == (id, to);
            assert(seats.to_set().contains(seat));
        }
        if moves.contains_key(seat) && moves[seat] == to {
            assert(seats.to_set().contains(seat));
            let k = choose|k: int| 0 <= k < seats.len() && seats[k] == seat;
        }
    }
    assert forall|i: int, j: int| 0 <= i < j < batch.len() implies (#[trigger] batch[i]).0 != (
    #[trigger] batch[j]).0 by {
        assert(batch[i].0.0 < batch[j].0.0);
    }
}

/// What is to be said is shown as it is, with a body by its bytes.
pub proof fn law_what_is_said_is_shown_as_it_is(
    region: RegionId,
    entity: EntityId,
    key: EntityKey,
    client: ClientId,
    whose: Option<ClientId>,
    dest: RegionId,
    body: Vec<u8>,
)
    ensures
        Effect::Tell(Outgoing::<Vec<u8>>::Despawn(region, entity))@ == Effect::<Seq<u8>>::Tell(
            Outgoing::Despawn(region, entity),
        ),
        Effect::Tell(Outgoing::Message(region, entity, body))@ == Effect::<Seq<u8>>::Tell(
            Outgoing::Message(region, entity, body@),
        ),
        Effect::Game(Notice::<Vec<u8>>::Spawned(key, whose, region, entity))@ == Effect::<
            Seq<u8>,
        >::Game(Notice::Spawned(key, whose, region, entity)),
        Effect::Game(Notice::<Vec<u8>>::Removed(key, whose))@ == Effect::<Seq<u8>>::Game(
            Notice::Removed(key, whose),
        ),
        Effect::Game(Notice::Arrived(key, whose, region, dest, body))@ == Effect::<Seq<u8>>::Game(
            Notice::Arrived(key, whose, region, dest, body@),
        ),
        Effect::Game(Notice::Message(client, body))@ == Effect::<Seq<u8>>::Game(
            Notice::Message(client, body@),
        ),
        Effect::Game(Notice::<Vec<u8>>::Disconnected(client))@ == Effect::<Seq<u8>>::Game(
            Notice::Disconnected(client),
        ),
{
}

/// The totals an edge gives are how many clients and entities it holds, regions
/// it knows the place of and teleports it has in flight, and what it has
/// counted, each under its own name.
pub proof fn law_totals_are_what_is_held_and_counted(e: Edge)
    requires
        e.clients.len() <= u32::MAX,
        e.by_key.len() <= u32::MAX,
        e.map.len() <= u32::MAX,
        e.transits.len() <= u32::MAX,
    ensures
        ({
            let t = e.totals();
            &&& t.clients == e.clients.len()
            &&& t.entities == e.by_key.len()
            &&& t.placed_regions == e.map.len()
            &&& t.transitions == e.transits.len()
            &&& t.observers == e.counters.observers
            &&& t.shadows == e.counters.shadows
            &&& t.relayed == e.counters.relayed
            &&& t.undeliverable == e.counters.undeliverable
            &&& t.commands == e.counters.commands
            &&& t.refused == e.counters.refused
            &&& t.off_map == e.counters.off_map
            &&& t.crossings == e.counters.crossings
            &&& t.walls == e.counters.walls
            &&& t.teleport_timeouts == e.counters.teleport_timeouts
        }),
{
}

/// An edge starts with nothing held, said or counted, and mints its keys under
/// its own prefix.
pub proof fn law_an_edge_starts_with_nothing(map: crate::map::Places, prefix: u32)
    ensures
        ({
            let e = Edge::blank(map, prefix);
            let c = e.counters;
            &&& e.clients.len() == 0 && e.by_key.len() == 0 && e.by_id.len() == 0
            &&& e.moves.len() == 0 && e.worlds.len() == 0 && e.carried.len() == 0
            &&& e.transits.len() == 0 && e.out.len() == 0
            &&& e.map == map && e.region_size is None
            &&& e.next_client == 1
            &&& e.next_key == 0x8000_0000_0000_0000 + (prefix % 0x8000_0000) * 0x1_0000_0000 + 1
            &&& c.observers == 0 && c.shadows == 0 && c.relayed == 0 && c.undeliverable == 0
            &&& c.commands == 0 && c.refused == 0 && c.off_map == 0 && c.crossings == 0
            &&& c.walls == 0 && c.teleport_timeouts == 0
        }),
{
}

} // verus!
