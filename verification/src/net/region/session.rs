//! What a running region and its attached edges say to each other.
//!
//! Edges ask for entities, move them, and give them back, and the region sends
//! each viewer's assembled payload to the edge that manages it.
//!
//! # Where each half runs
//!
//! Inbound work cannot all happen in one place, because the two things it needs
//! are available at different moments.
//!
//! - [`Inbound::accept`] runs where commands are read and only queues. It never
//!   touches the population, because a tick is under way as often as not.
//! - [`Inbound::apply`] runs inside a tick, which is the only place a [`Step`]
//!   exists, so it is the only place an entity can be spawned, despawned or
//!   moved.
//! - [`Inbound::settle`] runs between ticks, which is the only place a viewer
//!   can be registered or dropped.
//!
//! The split is required rather than stylistic. Registering a viewer mid-tick
//! would change the set the workers are iterating over, and spawning between
//! ticks would write the position arrays after the snapshot had been built from
//! them.
//!
//! # Who allocates what
//!
//! The region allocates every entity id. An edge asks for entities by position
//! and is told the ids it got, so two edges cannot pick colliding ids because
//! neither picks any. Mapping those ids to game client sockets is the edge's
//! own bookkeeping and no business of this protocol.
//!
//! Ids are unique within one region. An edge relaying for several regions sees
//! the same numbers from each and has to key by region and id.

use vstd::prelude::*;
use vstd::slice::slice_subrange;

use crate::config::World;
use crate::entity::{EntityId, EntityKind};
use crate::id::RegionId;
use crate::le;
use crate::le::push_u32;
use crate::net::control::RegionLoad;
use crate::net::region::edges;
use crate::net::region::edges::{EdgeId, EdgeStats, Edges, Roster};
use crate::net::region::names::EdgeName;
use crate::net::region::protocol;
use crate::net::region::protocol::{
    DespawnEntities, MoveEntities, Presence, Spawn, SpawnEntities, KIND_DESPAWN_ENTITIES,
    KIND_KEEPALIVE, KIND_MOVE_ENTITIES, KIND_SPAWN_ENTITIES,
};
use crate::net::region::subjects;
use crate::pos::Pos3;
use crate::sim::{Crowd, Step, TickSpan, ViewerId};

verus! {

/// No viewer watches this entity, and no entity is watched by this viewer.
/// Both ids are dense from zero, so the top of the range is unreachable.
const NOBODY: u32 = u32::MAX;

/// What an edge asked the region to do.
#[derive(Clone, Debug)]
enum Command {
    Spawn { edge: EdgeId, spawns: Vec<Spawn> },
    Move { edge: EdgeId, moves: Vec<(EntityId, Pos3)> },
    Despawn { edge: EdgeId, ids: Vec<EntityId> },
}

/// What an edge asked the region to do.
pub enum Order {
    /// To create entities.
    Spawn {
        /// Who asks.
        edge: EdgeId,
        /// What for.
        spawns: Seq<Spawn>,
    },
    /// To put entities somewhere else.
    Move {
        /// Who asks.
        edge: EdgeId,
        /// Which, and where.
        moves: Seq<(EntityId, Pos3)>,
    },
    /// To remove entities.
    Despawn {
        /// Who asks.
        edge: EdgeId,
        /// Which.
        ids: Seq<EntityId>,
    },
}

impl View for Command {
    type V = Order;

    closed spec fn view(&self) -> Order {
        match *self {
            Command::Spawn { edge, spawns } => Order::Spawn { edge, spawns: spawns@ },
            Command::Move { edge, moves } => Order::Move { edge, moves: moves@ },
            Command::Despawn { edge, ids } => Order::Despawn { edge, ids: ids@ },
        }
    }
}

impl Command {
    /// How many things it asks for.
    fn len(&self) -> (n: usize)
        ensures
            n == weight(self@),
    {
        match self {
            Command::Spawn { spawns, .. } => spawns.len(),
            Command::Move { moves, .. } => moves.len(),
            Command::Despawn { ids, .. } => ids.len(),
        }
    }
}

/// An entity spawned and not yet answered for.
#[derive(Clone, Copy, Debug, PartialEq, Eq, Structural)]
pub struct Fresh {
    /// Who asked.
    pub edge: EdgeId,
    /// The id it got.
    pub entity: EntityId,
    /// What is behind it.
    pub kind: EntityKind,
    /// What the edge sent with the spawn.
    pub token: u64,
}

/// What one [`Inbound::apply`] did.
#[derive(Clone, Copy, Debug, PartialEq, Eq, Structural)]
pub struct Applied {
    /// Entities created.
    pub spawned: u32,
    /// Positions written.
    pub moved: u32,
    /// Entities removed at an edge's asking.
    pub despawned: u32,
    /// Despawned because the edge managing them detached.
    pub orphaned: u32,
    /// Commands declined: an entity the sending edge does not manage, a
    /// position outside the region, or an entity that is already gone.
    pub refused: u32,
}

/// What one [`Inbound::settle`] did.
#[derive(Clone, Copy, Debug, PartialEq, Eq, Structural)]
pub struct Settled {
    /// Viewers added.
    pub registered: u32,
    /// Viewers dropped.
    pub unregistered: u32,
    /// Presence messages published, additions and removals together.
    pub reported: u32,
}

/// One thing to be done between ticks.
#[derive(Clone, Copy, Debug, PartialEq, Eq, Structural)]
pub enum Act {
    /// Drop a viewer.
    Drop(ViewerId),
    /// Register a viewer for an entity of an edge's, and say which it got to
    /// [`Inbound::registered`].
    Register(EdgeId, EntityId),
    /// Tell an edge about one of its entities.
    Report(EdgeId, Presence),
}

/// What a region has been doing, between heartbeats.
#[derive(Clone, Copy, Debug, PartialEq, Eq, Structural)]
pub struct Load {
    /// Overwritten every tick: what the region holds right now.
    pub tick_count: u32,
    /// Entities alive.
    pub entities: u32,
    /// Slots ever allocated.
    pub slots: u32,
    /// Accumulated until a heartbeat drains it.
    pub span: TickSpan,
}

impl Load {
    /// What a heartbeat says of it.
    pub open spec fn summary(self) -> RegionLoad {
        let ticks = self.span.ticks as int;
        RegionLoad {
            tick_count: self.tick_count,
            entities: self.entities,
            slots: self.slots,
            viewers: if ticks == 0 {
                0
            } else {
                (self.span.viewers as int / ticks) as u32
            },
            mean_tick: if ticks == 0 {
                0
            } else {
                (self.span.total as int / ticks) as u64
            },
            worst_tick: self.span.worst,
            late: self.span.late,
            dropped: self.span.dropped,
        }
    }

    /// With what a tick came to added.
    pub open spec fn after(self, now: Load) -> Load {
        Load { span: self.span.followed_by(now.span), ..now }
    }

    /// Nothing yet.
    pub open spec fn none() -> Load {
        Load { tick_count: 0, entities: 0, slots: 0, span: TickSpan::none() }
    }
}

/// The region's side of every edge's session.
#[verifier::ext_equal]
pub struct Desk {
    /// The edges, and who manages what.
    pub roster: Roster,
    /// What they have asked for, in order.
    pub queue: Seq<Order>,
    /// Spawned and not yet answered for.
    pub fresh: Seq<Fresh>,
    /// Despawned, their viewers not yet dropped. No edge for an orphan, whose
    /// edge has already detached.
    pub gone: Seq<(Option<EdgeId>, EntityId)>,
    /// Which viewer watches an entity.
    pub watchers: Map<u32, u32>,
    /// Messages queued.
    pub received: u64,
    /// Commands declined.
    pub refused: u64,
    /// What the region has been doing.
    pub load: Load,
}

/// Commands from every edge, and the bookkeeping that outlives one tick.
#[derive(Debug)]
pub struct Inbound {
    edges: Edges,
    queue: Vec<Command>,
    fresh: Vec<Fresh>,
    gone: Vec<(Option<EdgeId>, EntityId)>,
    /// Entity index to viewer raw. The direction the simulation does not hold,
    /// and the one tearing an entity down needs.
    watchers: Vec<u32>,
    received: u64,
    refused: u64,
    load: Load,
}

/// An array of ids as a map of those there are.
spec fn map_of(ids: Seq<u32>) -> Map<u32, u32> {
    Map::new(|e: u32| e < ids.len() && ids[e as int] != NOBODY, |e: u32| ids[e as int])
}

impl View for Inbound {
    type V = Desk;

    closed spec fn view(&self) -> Desk {
        Desk {
            roster: self.edges.roster(),
            queue: self.queue@.map_values(|c: Command| c@),
            fresh: self.fresh@,
            gone: self.gone@,
            watchers: map_of(self.watchers@),
            received: self.received,
            refused: self.refused,
            load: self.load,
        }
    }
}

// ---------------------------------------------------------------------------
// What a message does
// ---------------------------------------------------------------------------

/// What a message asks for, if it is a well-formed command.
pub open spec fn order_in(edge: EdgeId, message: Seq<u8>) -> Option<Order> {
    let body = message.skip(1);
    if message.len() == 0 {
        None
    } else if message[0] == KIND_SPAWN_ENTITIES && SpawnEntities::refusal(body) is None {
        Some(Order::Spawn { edge, spawns: protocol::spawns_in(body) })
    } else if message[0] == KIND_MOVE_ENTITIES && MoveEntities::refusal(body) is None {
        Some(Order::Move { edge, moves: protocol::moves_in(body) })
    } else if message[0] == KIND_DESPAWN_ENTITIES && DespawnEntities::refusal(body) is None {
        Some(Order::Despawn { edge, ids: protocol::ids_in(body) })
    } else {
        None
    }
}

impl Roster {
    /// With one message more counted for an edge.
    pub open spec fn heard(self, edge: EdgeId) -> Roster {
        let stats = self.slots[edge.0 as int]->0.stats;
        self.counting(edge, EdgeStats { messages: edges::up(stats.messages), ..stats })
    }

    /// With one command more declined for an edge.
    pub open spec fn declining(self, edge: EdgeId) -> Roster {
        let stats = self.slots[edge.0 as int]->0.stats;
        self.counting(edge, EdgeStats { refused: edges::up(stats.refused), ..stats })
    }

    /// With one viewer more counted for an edge.
    pub open spec fn observing(self, edge: EdgeId) -> Roster {
        let stats = self.slots[edge.0 as int]->0.stats;
        self.counting(edge, EdgeStats { observers: edges::up(stats.observers), ..stats })
    }

    /// With one viewer fewer counted for an edge.
    pub open spec fn unobserving(self, edge: EdgeId) -> Roster {
        let stats = self.slots[edge.0 as int]->0.stats;
        self.counting(edge, EdgeStats { observers: down(stats.observers), ..stats })
    }
}

/// One fewer, where 64 bits wrap.
pub open spec fn down(n: u64) -> u64 {
    if n == 0 {
        u64::MAX
    } else {
        (n - 1) as u64
    }
}

impl Desk {
    /// One message from one edge: queued if it is a well-formed command,
    /// counted and dropped if not. A keepalive is neither.
    pub open spec fn accepted(self, edge: EdgeId, message: Seq<u8>) -> Desk {
        if message.len() > 0 && message[0] == KIND_KEEPALIVE {
            self
        } else {
            match order_in(edge, message) {
                Some(order) => Desk {
                    queue: self.queue.push(order),
                    received: edges::up(self.received),
                    roster: self.roster.heard(edge),
                    ..self
                },
                None => Desk {
                    refused: edges::up(self.refused),
                    roster: if message.len() == 0 {
                        self.roster
                    } else {
                        self.roster.declining(edge)
                    },
                    ..self
                },
            }
        }
    }
}

// ---------------------------------------------------------------------------
// What a tick does
// ---------------------------------------------------------------------------

/// A tick's work under way: the desk, the population, and what has been done.
#[verifier::ext_equal]
pub struct Work {
    /// The desk.
    pub desk: Desk,
    /// The population.
    pub crowd: Crowd,
    /// What has been done.
    pub done: Applied,
}

impl Work {
    /// With one command more declined.
    pub open spec fn refusing(self, edge: EdgeId) -> Work {
        Work {
            desk: Desk { roster: self.desk.roster.declining(edge), ..self.desk },
            done: Applied { refused: (self.done.refused + 1) as u32, ..self.done },
            ..self
        }
    }

    /// An entity whose edge has gone despawned, if it is still there.
    pub open spec fn orphaned(self, id: EntityId) -> Work {
        if self.crowd.live.contains(id.0) {
            Work {
                crowd: self.crowd.without(id),
                desk: Desk { gone: self.desk.gone.push((None, id)), ..self.desk },
                done: Applied { orphaned: (self.done.orphaned + 1) as u32, ..self.done },
            }
        } else {
            self
        }
    }

    /// Several orphans, in order.
    pub open spec fn all_orphaned(self, ids: Seq<EntityId>) -> Work
        decreases ids.len(),
    {
        if ids.len() == 0 {
            self
        } else {
            self.all_orphaned(ids.drop_last()).orphaned(ids.last())
        }
    }

    /// One entity spawned and claimed for the edge that asked, or the asking
    /// declined: the position is outside the region, or the edge has gone.
    pub open spec fn spawned(self, w: World, edge: EdgeId, want: Spawn) -> Work {
        let id = EntityId(self.crowd.at.len() as u32);
        if !w.contains(want.position) {
            self.refusing(edge)
        } else if self.desk.roster.claim_fault(edge, id) is Some {
            Work {
                crowd: self.crowd.with(want.position, want.kind.tag).without(id),
                ..self
            }.refusing(edge)
        } else {
            Work {
                crowd: self.crowd.with(want.position, want.kind.tag),
                desk: Desk {
                    roster: self.desk.roster.claimed(edge, id),
                    fresh: self.desk.fresh.push(
                        Fresh { edge, entity: id, kind: want.kind, token: want.token },
                    ),
                    ..self.desk
                },
                done: Applied { spawned: (self.done.spawned + 1) as u32, ..self.done },
            }
        }
    }

    /// Several entities spawned, in order.
    pub open spec fn all_spawned(self, w: World, edge: EdgeId, spawns: Seq<Spawn>) -> Work
        decreases spawns.len(),
    {
        if spawns.len() == 0 {
            self
        } else {
            self.all_spawned(w, edge, spawns.drop_last()).spawned(w, edge, spawns.last())
        }
    }

    /// One entity given back, or the asking declined: the edge does not manage
    /// it. It is released first, so no later report finds it an owner.
    pub open spec fn despawned(self, edge: EdgeId, id: EntityId) -> Work {
        if self.desk.roster.owner(id) != Some(edge) {
            self.refusing(edge)
        } else {
            Work {
                crowd: self.crowd.without(id),
                desk: Desk {
                    roster: self.desk.roster.released(id),
                    gone: self.desk.gone.push((Some(edge), id)),
                    ..self.desk
                },
                done: Applied { despawned: (self.done.despawned + 1) as u32, ..self.done },
            }
        }
    }

    /// Several entities given back, in order.
    pub open spec fn all_despawned(self, edge: EdgeId, ids: Seq<EntityId>) -> Work
        decreases ids.len(),
    {
        if ids.len() == 0 {
            self
        } else {
            self.all_despawned(edge, ids.drop_last()).despawned(edge, ids.last())
        }
    }

    /// One entity moved, or the asking declined: the edge does not manage it,
    /// the position is outside the region, or it is already gone.
    pub open spec fn moved(self, w: World, edge: EdgeId, id: EntityId, to: Pos3) -> Work {
        if self.desk.roster.owner(id) != Some(edge) || !w.contains(to)
            || !self.crowd.live.contains(id.0) {
            self.refusing(edge)
        } else {
            Work {
                crowd: self.crowd.moved(id, to),
                done: Applied { moved: (self.done.moved + 1) as u32, ..self.done },
                ..self
            }
        }
    }

    /// Several entities moved, in order.
    pub open spec fn all_moved(self, w: World, edge: EdgeId, moves: Seq<(EntityId, Pos3)>) -> Work
        decreases moves.len(),
    {
        if moves.len() == 0 {
            self
        } else {
            self.all_moved(w, edge, moves.drop_last()).moved(
                w,
                edge,
                moves.last().0,
                moves.last().1,
            )
        }
    }

    /// One order carried out.
    pub open spec fn ordered(self, w: World, order: Order) -> Work {
        match order {
            Order::Spawn { edge, spawns } => self.all_spawned(w, edge, spawns),
            Order::Move { edge, moves } => self.all_moved(w, edge, moves),
            Order::Despawn { edge, ids } => self.all_despawned(edge, ids),
        }
    }

    /// Several orders carried out.
    pub open spec fn all_ordered(self, w: World, orders: Seq<Order>) -> Work
        decreases orders.len(),
    {
        if orders.len() == 0 {
            self
        } else {
            self.all_ordered(w, orders.drop_last()).ordered(w, orders.last())
        }
    }
}

impl Applied {
    /// Nothing done.
    pub open spec fn none() -> Applied {
        Applied { spawned: 0, moved: 0, despawned: 0, orphaned: 0, refused: 0 }
    }

    /// How many things were asked for.
    pub open spec fn total(self) -> int {
        self.spawned + self.moved + self.despawned + self.orphaned + self.refused
    }
}

/// How many things one order asks for.
pub open spec fn weight(order: Order) -> nat {
    match order {
        Order::Spawn { spawns, .. } => spawns.len(),
        Order::Move { moves, .. } => moves.len(),
        Order::Despawn { ids, .. } => ids.len(),
    }
}

/// How many things several orders ask for.
pub open spec fn weights(orders: Seq<Order>) -> nat
    decreases orders.len(),
{
    if orders.len() == 0 {
        0
    } else {
        weights(orders.drop_last()) + weight(orders.last())
    }
}

impl Desk {
    /// Everything the edges sent applied to the population. Orphans go first,
    /// so a stale command in the same batch cannot move an entity whose edge
    /// has already gone.
    pub open spec fn applied(self, w: World, crowd: Crowd) -> Work {
        let start = Work {
            desk: Desk {
                queue: Seq::empty(),
                roster: Roster { detached: Seq::empty(), ..self.roster },
                ..self
            },
            crowd,
            done: Applied::none(),
        };
        let end = start.all_orphaned(self.roster.detached).all_ordered(w, self.queue);
        Work {
            desk: Desk {
                refused: ((end.desk.refused + end.done.refused) % 0x1_0000_0000_0000_0000) as u64,
                ..end.desk
            },
            ..end
        }
    }

    /// How many things the next tick will be asked for.
    pub open spec fn pending(self) -> nat {
        self.roster.detached.len() + weights(self.queue)
    }
}

/// Counts more things than before, in order.
proof fn lemma_weights(orders: Seq<Order>, n: int)
    requires
        0 <= n <= orders.len(),
    ensures
        weights(orders.take(n)) <= weights(orders),
    decreases orders.len() - n,
{
    if n < orders.len() {
        assert(orders.take(n + 1).drop_last() =~= orders.take(n));
        lemma_weights(orders, n + 1);
    } else {
        assert(orders.take(n) =~= orders);
    }
}

// ---------------------------------------------------------------------------
// What happens between ticks
// ---------------------------------------------------------------------------

/// Work between ticks: the desk, and what is to be done.
#[verifier::ext_equal]
pub struct Closing {
    /// The desk.
    pub desk: Desk,
    /// What is to be done, in order.
    pub acts: Seq<Act>,
}

impl Closing {
    /// With one thing more to do.
    pub open spec fn doing(self, act: Act) -> Closing {
        Closing { acts: self.acts.push(act), ..self }
    }

    /// One entity's viewer dropped, if it has one, and its edge told it is
    /// gone, if it has one still.
    pub open spec fn retired(self, edge: Option<EdgeId>, id: EntityId) -> Closing {
        let now = if self.desk.watchers.contains_key(id.0) {
            Closing {
                desk: Desk {
                    watchers: self.desk.watchers.remove(id.0),
                    roster: match edge {
                        Some(e) => self.desk.roster.unobserving(e),
                        None => self.desk.roster,
                    },
                    ..self.desk
                },
                ..self
            }.doing(Act::Drop(ViewerId(self.desk.watchers[id.0])))
        } else {
            self
        };
        match edge {
            Some(e) => now.doing(Act::Report(e, Presence::Removed { entity: id })),
            None => now,
        }
    }

    /// Several entities retired, in order.
    pub open spec fn all_retired(self, gone: Seq<(Option<EdgeId>, EntityId)>) -> Closing
        decreases gone.len(),
    {
        if gone.len() == 0 {
            self
        } else {
            self.all_retired(gone.drop_last()).retired(gone.last().0, gone.last().1)
        }
    }

    /// An entity the game itself despawned: released and retired, unless no
    /// edge manages it.
    pub open spec fn reconciled(self, id: EntityId) -> Closing {
        match self.desk.roster.owner(id) {
            None => self,
            Some(edge) => Closing {
                desk: Desk { roster: self.desk.roster.released(id), ..self.desk },
                ..self
            }.retired(Some(edge), id),
        }
    }

    /// Several entities the game itself despawned, in order.
    pub open spec fn all_reconciled(self, ids: Seq<EntityId>) -> Closing
        decreases ids.len(),
    {
        if ids.len() == 0 {
            self
        } else {
            self.all_reconciled(ids.drop_last()).reconciled(ids.last())
        }
    }

    /// An entity answered for: a viewer registered if it observes, and its
    /// edge told the id it got.
    pub open spec fn answered(self, f: Fresh) -> Closing {
        let now = if f.kind.is_observing() {
            self.doing(Act::Register(f.edge, f.entity))
        } else {
            self
        };
        now.doing(Act::Report(f.edge, Presence::Added { entity: f.entity, token: f.token }))
    }

    /// Several entities answered for, in order.
    pub open spec fn all_answered(self, fresh: Seq<Fresh>) -> Closing
        decreases fresh.len(),
    {
        if fresh.len() == 0 {
            self
        } else {
            self.all_answered(fresh.drop_last()).answered(fresh.last())
        }
    }
}

impl Desk {
    /// Everything the last tick left to do, done: teardown first, since viewer
    /// ids are reusable and registering before dropping could hand out an id
    /// this batch then clears.
    pub open spec fn settled(self, despawned: Seq<EntityId>, now: Load) -> Closing {
        Closing {
            desk: Desk {
                fresh: Seq::empty(),
                gone: Seq::empty(),
                load: self.load.after(now),
                ..self
            },
            acts: Seq::empty(),
        }.all_retired(self.gone).all_reconciled(despawned).all_answered(self.fresh)
    }

    /// A viewer registered for an entity.
    pub open spec fn watched(self, edge: EdgeId, entity: EntityId, viewer: ViewerId) -> Desk {
        Desk {
            watchers: bound(self.watchers, entity.0, viewer.0),
            roster: self.roster.observing(edge),
            ..self
        }
    }
}

/// One id bound to another. The top of the range is bound to nothing.
pub open spec fn bound(ids: Map<u32, u32>, of: u32, to: u32) -> Map<u32, u32> {
    if to == u32::MAX {
        ids.remove(of)
    } else {
        ids.insert(of, to)
    }
}

/// Binds one id to another.
fn bind_id(ids: &mut Vec<u32>, of: u32, to: u32)
    requires
        of < usize::MAX,
    ensures
        map_of(final(ids)@) == bound(map_of(old(ids)@), of, to),
{
    let i: usize = of as usize;
    while ids.len() <= i
        invariant
            i == of,
            of < usize::MAX,
            map_of(ids@) == map_of(old(ids)@),
        decreases of + 1 - ids@.len(),
    {
        let ghost before = ids@;
        ids.push(NOBODY);
        assert(map_of(ids@) =~= map_of(before));
    }
    let ghost before = ids@;
    ids.set(i, to);
    assert(map_of(ids@) =~= bound(map_of(before), of, to));
}

/// Unbinds an id, and says what it was bound to.
fn take_id(ids: &mut Vec<u32>, of: u32) -> (was: Option<u32>)
    ensures
        map_of(final(ids)@) == map_of(old(ids)@).remove(of),
        was == if map_of(old(ids)@).contains_key(of) {
            Some(map_of(old(ids)@)[of])
        } else {
            None
        },
{
    let i: usize = of as usize;
    if i >= ids.len() {
        assert(map_of(ids@) =~= map_of(ids@).remove(of));
        return None;
    }
    let was: u32 = ids[i];
    let ghost before = ids@;
    ids.set(i, NOBODY);
    assert(map_of(ids@) =~= map_of(before).remove(of));
    if was == NOBODY {
        None
    } else {
        Some(was)
    }
}

impl Inbound {
    /// Whether the edges are consistent.
    pub closed spec fn wf(&self) -> bool {
        self.edges.wf()
    }

    /// Holding nothing, for the region these edges attach to.
    pub fn new(edges: Edges) -> (i: Inbound)
        requires
            edges.wf(),
        ensures
            i.wf(),
            i@ == (Desk {
                roster: edges.roster(),
                queue: Seq::empty(),
                fresh: Seq::empty(),
                gone: Seq::empty(),
                watchers: Map::empty(),
                received: 0,
                refused: 0,
                load: Load::none(),
            }),
    {
        let i = Inbound {
            edges,
            queue: Vec::new(),
            fresh: Vec::new(),
            gone: Vec::new(),
            watchers: Vec::new(),
            received: 0,
            refused: 0,
            load: Load { tick_count: 0, entities: 0, slots: 0, span: TickSpan::new() },
        };
        assert(i@.queue =~= Seq::<Order>::empty());
        assert(i@.watchers =~= Map::<u32, u32>::empty());
        i
    }

    /// Takes the load accumulated since the last call. A heartbeat drains
    /// this, and a second caller would silently take half the numbers away
    /// from the first.
    pub fn take_load(&mut self) -> (load: RegionLoad)
        requires
            old(self).wf(),
        ensures
            final(self).wf(),
            load == old(self)@.load.summary(),
            final(self)@ == (Desk {
                load: Load { span: TickSpan::none(), ..old(self)@.load },
                ..old(self)@
            }),
    {
        let span = self.load.span;
        self.load = Load {
            tick_count: self.load.tick_count,
            entities: self.load.entities,
            slots: self.load.slots,
            span: TickSpan::new(),
        };
        RegionLoad {
            tick_count: self.load.tick_count,
            entities: self.load.entities,
            slots: self.load.slots,
            viewers: #[verifier::truncate]
            (span.viewers_per_tick() as u32),
            mean_tick: span.mean(),
            worst_tick: span.worst,
            late: span.late,
            dropped: span.dropped,
        }
    }

    /// Messages queued since this region started.
    pub fn received(&self) -> (n: u64)
        ensures
            n == self@.received,
    {
        self.received
    }

    /// Commands declined, summed across every apply.
    pub fn refused(&self) -> (n: u64)
        ensures
            n == self@.refused,
    {
        self.refused
    }

    /// The edges relaying for this region.
    pub fn edges(&self) -> (e: &Edges)
        requires
            self.wf(),
        ensures
            e.wf(),
            e.roster() == self@.roster,
    {
        &self.edges
    }

    /// The edges relaying for this region, to be changed.
    pub fn edges_mut(&mut self) -> (e: &mut Edges)
        requires
            old(self).wf(),
        ensures
            e.wf(),
            e.roster() == old(self)@.roster,
            final(e).wf() ==> final(self).wf(),
            final(self)@ == (Desk { roster: final(e).roster(), ..old(self)@ }),
    {
        &mut self.edges
    }

    /// Counts one message from an edge.
    fn hear(&mut self, edge: EdgeId)
        requires
            old(self).wf(),
        ensures
            final(self).wf(),
            final(self)@ == (Desk { roster: old(self)@.roster.heard(edge), ..old(self)@ }),
    {
        if let Some(stats) = self.edges.stats(edge) {
            let mut stats = stats;
            stats.messages = stats.messages.wrapping_add(1);
            self.edges.set_stats(edge, stats);
        }
        assert(self@ =~= (Desk { roster: old(self)@.roster.heard(edge), ..old(self)@ }));
    }

    /// Counts one command of an edge's that was declined.
    fn decline(&mut self, edge: EdgeId)
        requires
            old(self).wf(),
        ensures
            final(self).wf(),
            final(self)@ == (Desk { roster: old(self)@.roster.declining(edge), ..old(self)@ }),
    {
        if let Some(stats) = self.edges.stats(edge) {
            let mut stats = stats;
            stats.refused = stats.refused.wrapping_add(1);
            self.edges.set_stats(edge, stats);
        }
        assert(self@ =~= (Desk { roster: old(self)@.roster.declining(edge), ..old(self)@ }));
    }

    /// What a message asks for, if it is a well-formed command.
    fn read(edge: EdgeId, message: &[u8]) -> (r: Option<Command>)
        requires
            message@.len() > 0,
        ensures
            match r {
                Some(c) => order_in(edge, message@) == Some(c@),
                None => order_in(edge, message@) is None,
            },
    {
        let body = slice_subrange(message, 1, message.len());
        assert(body@ =~= message@.skip(1));
        match message[0] {
            KIND_SPAWN_ENTITIES => {
                match SpawnEntities::decode(body) {
                    Ok(m) => {
                        proof {
                            protocol::lemma_spawns_in(m.spawns@);
                        }
                        Some(Command::Spawn { edge, spawns: m.spawns })
                    },
                    Err(_) => None,
                }
            },
            KIND_MOVE_ENTITIES => {
                match MoveEntities::decode(body) {
                    Ok(m) => {
                        proof {
                            protocol::lemma_moves_in(m.moves@);
                        }
                        Some(Command::Move { edge, moves: m.moves })
                    },
                    Err(_) => None,
                }
            },
            KIND_DESPAWN_ENTITIES => {
                match DespawnEntities::decode(body) {
                    Ok(m) => {
                        proof {
                            protocol::lemma_ids_in(m.ids@);
                        }
                        Some(Command::Despawn { edge, ids: m.ids })
                    },
                    Err(_) => None,
                }
            },
            _ => None,
        }
    }

    /// Queues one command that arrived from `edge`.
    ///
    /// A command is queued and applied on the next tick. A message that does
    /// not decode is counted and dropped: there is no connection to tear down,
    /// and one bad message says nothing about the next.
    pub fn accept(&mut self, edge: EdgeId, message: &[u8])
        requires
            old(self).wf(),
        ensures
            final(self).wf(),
            final(self)@ == old(self)@.accepted(edge, message@),
    {
        if message.len() == 0 {
            self.refused = self.refused.wrapping_add(1);
            assert(self@ =~= old(self)@.accepted(edge, message@));
            return;
        }
        // Says only that the edge is still there, which admitting it already
        // recorded.
        if message[0] == KIND_KEEPALIVE {
            return;
        }
        match Inbound::read(edge, message) {
            Some(command) => {
                let ghost order = command@;
                self.queue.push(command);
                self.received = self.received.wrapping_add(1);
                self.hear(edge);
                proof {
                    assert(self@.queue =~= old(self)@.queue.push(order));
                    assert(self@ =~= old(self)@.accepted(edge, message@));
                }
            },
            None => {
                self.refused = self.refused.wrapping_add(1);
                self.decline(edge);
                assert(self@ =~= old(self)@.accepted(edge, message@));
            },
        }
    }
}

/// A tick's work under way.
pub open spec fn working(desk: Desk, crowd: Crowd, done: Applied) -> Work {
    Work { desk, crowd, done }
}

impl Inbound {
    /// Declines one thing an edge asked for.
    fn refuse(&mut self, edge: EdgeId, out: &mut Applied)
        requires
            old(self).wf(),
            old(out).total() < u32::MAX,
        ensures
            final(self).wf(),
            final(out).total() == old(out).total() + 1,
            forall|crowd: Crowd|
                #![trigger working(final(self)@, crowd, *final(out))]
                working(final(self)@, crowd, *final(out)) == working(
                    old(self)@,
                    crowd,
                    *old(out),
                ).refusing(edge),
    {
        out.refused = out.refused + 1;
        self.decline(edge);
    }

    /// Despawns an entity whose edge has gone.
    fn orphan(&mut self, step: &mut Step, out: &mut Applied, id: EntityId)
        requires
            old(self).wf(),
            old(step).wf(),
            old(out).total() < u32::MAX,
        ensures
            final(self).wf(),
            final(step).wf(),
            final(step).world() == old(step).world(),
            final(step)@.at.len() == old(step)@.at.len(),
            final(out).total() <= old(out).total() + 1,
            working(final(self)@, final(step)@, *final(out)) == working(
                old(self)@,
                old(step)@,
                *old(out),
            ).orphaned(id),
    {
        if step.contains(id) {
            step.despawn(id);
            self.gone.push((None, id));
            out.orphaned = out.orphaned + 1;
        }
        assert(working(self@, step@, *out) =~= working(old(self)@, old(step)@, *old(out)).orphaned(
            id,
        ));
    }

    /// Spawns one entity and claims it for the edge that asked.
    fn spawn(&mut self, step: &mut Step, out: &mut Applied, edge: EdgeId, want: Spawn)
        requires
            old(self).wf(),
            old(step).wf(),
            old(out).total() < u32::MAX,
            old(step)@.at.len() < u32::MAX,
        ensures
            final(self).wf(),
            final(step).wf(),
            final(step).world() == old(step).world(),
            final(step)@.at.len() <= old(step)@.at.len() + 1,
            final(out).total() <= old(out).total() + 1,
            working(final(self)@, final(step)@, *final(out)) == working(
                old(self)@,
                old(step)@,
                *old(out),
            ).spawned(old(step).world()@, edge, want),
    {
        let ghost was = working(self@, step@, *out);
        let ghost w = step.world()@;
        if !step.config().contains(want.position) {
            self.refuse(edge, out);
            assert(working(self@, step@, *out) =~= was.spawned(w, edge, want));
            return;
        }
        let id = step.spawn(want.position, want.kind.tag());
        assert(id == EntityId(was.crowd.at.len() as u32));
        match self.edges.claim(edge, id) {
            Ok(_) => {
                self.fresh.push(Fresh { edge, entity: id, kind: want.kind, token: want.token });
                out.spawned = out.spawned + 1;
            },
            Err(_) => {
                // The edge went away between sending and now.
                step.despawn(id);
                self.refuse(edge, out);
            },
        }
        assert(working(self@, step@, *out) =~= was.spawned(w, edge, want));
    }

    /// Gives one entity back.
    fn give_back(&mut self, step: &mut Step, out: &mut Applied, edge: EdgeId, id: EntityId)
        requires
            old(self).wf(),
            old(step).wf(),
            old(out).total() < u32::MAX,
        ensures
            final(self).wf(),
            final(step).wf(),
            final(step).world() == old(step).world(),
            final(step)@.at.len() == old(step)@.at.len(),
            final(out).total() <= old(out).total() + 1,
            working(final(self)@, final(step)@, *final(out)) == working(
                old(self)@,
                old(step)@,
                *old(out),
            ).despawned(edge, id),
    {
        let ghost was = working(self@, step@, *out);
        let held = match self.edges.edge_for(id) {
            Some(e) => e == edge,
            None => false,
        };
        if held {
            // Released first, so settling sees no owner and does not report
            // this twice.
            let _ = self.edges.release(id);
            step.despawn(id);
            self.gone.push((Some(edge), id));
            out.despawned = out.despawned + 1;
        } else {
            self.refuse(edge, out);
        }
        assert(working(self@, step@, *out) =~= was.despawned(edge, id));
    }

    /// Moves one entity.
    fn shift(&mut self, step: &mut Step, out: &mut Applied, edge: EdgeId, id: EntityId, to: Pos3)
        requires
            old(self).wf(),
            old(step).wf(),
            old(out).total() < u32::MAX,
        ensures
            final(self).wf(),
            final(step).wf(),
            final(step).world() == old(step).world(),
            final(step)@.at.len() == old(step)@.at.len(),
            final(out).total() <= old(out).total() + 1,
            working(final(self)@, final(step)@, *final(out)) == working(
                old(self)@,
                old(step)@,
                *old(out),
            ).moved(old(step).world()@, edge, id, to),
    {
        let ghost was = working(self@, step@, *out);
        let ghost w = step.world()@;
        let held = match self.edges.edge_for(id) {
            Some(e) => e == edge,
            None => false,
        };
        if held && step.config().contains(to) && step.contains(id) {
            proof {
                step.lemma_in_space(id);
            }
            step.set_position(id, to);
            out.moved = out.moved + 1;
        } else {
            self.refuse(edge, out);
        }
        assert(working(self@, step@, *out) =~= was.moved(w, edge, id, to));
    }

    /// Carries out one command.
    fn obey(&mut self, step: &mut Step, out: &mut Applied, command: &Command)
        requires
            old(self).wf(),
            old(step).wf(),
            old(out).total() + weight(command@) <= u32::MAX,
            old(step)@.at.len() + weight(command@) <= u32::MAX,
        ensures
            final(self).wf(),
            final(step).wf(),
            final(step).world() == old(step).world(),
            final(step)@.at.len() <= old(step)@.at.len() + weight(command@),
            final(out).total() <= old(out).total() + weight(command@),
            working(final(self)@, final(step)@, *final(out)) == working(
                old(self)@,
                old(step)@,
                *old(out),
            ).ordered(old(step).world()@, command@),
    {
        let ghost was = working(self@, step@, *out);
        let ghost w = step.world();
        let ghost full = weight(command@);
        let mut i: usize = 0;
        match command {
            Command::Spawn { edge, spawns } => {
                assert(spawns@.take(0) =~= Seq::empty());
                while i < spawns.len()
                    invariant
                        i <= spawns@.len(),
                        full == spawns@.len(),
                        self.wf(),
                        step.wf(),
                        step.world() == w,
                        was.done.total() + full <= u32::MAX,
                        was.crowd.at.len() + full <= u32::MAX,
                        out.total() <= was.done.total() + i,
                        step@.at.len() <= was.crowd.at.len() + i,
                        working(self@, step@, *out) == was.all_spawned(
                            w@,
                            *edge,
                            spawns@.take(i as int),
                        ),
                    decreases spawns@.len() - i,
                {
                    assert(spawns@.take(i + 1).drop_last() =~= spawns@.take(i as int));
                    self.spawn(step, out, *edge, spawns[i]);
                    i = i + 1;
                }
                assert(spawns@.take(i as int) =~= spawns@);
            },
            Command::Despawn { edge, ids } => {
                assert(ids@.take(0) =~= Seq::empty());
                while i < ids.len()
                    invariant
                        i <= ids@.len(),
                        full == ids@.len(),
                        self.wf(),
                        step.wf(),
                        step.world() == w,
                        was.done.total() + full <= u32::MAX,
                        out.total() <= was.done.total() + i,
                        step@.at.len() == was.crowd.at.len(),
                        working(self@, step@, *out) == was.all_despawned(
                            *edge,
                            ids@.take(i as int),
                        ),
                    decreases ids@.len() - i,
                {
                    assert(ids@.take(i + 1).drop_last() =~= ids@.take(i as int));
                    self.give_back(step, out, *edge, ids[i]);
                    i = i + 1;
                }
                assert(ids@.take(i as int) =~= ids@);
            },
            Command::Move { edge, moves } => {
                assert(moves@.take(0) =~= Seq::empty());
                while i < moves.len()
                    invariant
                        i <= moves@.len(),
                        full == moves@.len(),
                        self.wf(),
                        step.wf(),
                        step.world() == w,
                        was.done.total() + full <= u32::MAX,
                        out.total() <= was.done.total() + i,
                        step@.at.len() == was.crowd.at.len(),
                        working(self@, step@, *out) == was.all_moved(
                            w@,
                            *edge,
                            moves@.take(i as int),
                        ),
                    decreases moves@.len() - i,
                {
                    assert(moves@.take(i + 1).drop_last() =~= moves@.take(i as int));
                    let (id, to) = moves[i];
                    self.shift(step, out, *edge, id, to);
                    i = i + 1;
                }
                assert(moves@.take(i as int) =~= moves@);
            },
        }
    }

    /// Whether what edges sent can be applied: there is an id left for
    /// everything they could make of it, and every count of it fits.
    pub fn fits(&self, step: &Step) -> (b: bool)
        requires
            self.wf(),
            step.wf(),
        ensures
            b == (step@.at.len() + self@.pending() <= u32::MAX),
    {
        let most: usize = u32::MAX as usize;
        let slots: usize = step.slots();
        let waiting: usize = self.edges.waiting();
        if slots > most || waiting > most - slots {
            return false;
        }
        let mut total: usize = slots + waiting;
        let ghost orders = self@.queue;
        let mut i: usize = 0;
        assert(orders.take(0) =~= Seq::empty());
        while i < self.queue.len()
            invariant
                i <= self.queue@.len(),
                most == u32::MAX,
                orders == self@.queue,
                orders == self.queue@.map_values(|c: Command| c@),
                self@.roster.detached.len() == waiting,
                step@.at.len() == slots,
                total == slots + waiting + weights(orders.take(i as int)),
                total <= most,
            decreases self.queue@.len() - i,
        {
            proof {
                assert(orders.take(i + 1).drop_last() =~= orders.take(i as int));
                lemma_weights(orders, i + 1);
            }
            let n: usize = self.queue[i].len();
            if n > most - total {
                return false;
            }
            total = total + n;
            i = i + 1;
        }
        assert(orders.take(i as int) =~= orders);
        true
    }

    /// Applies what edges sent. Call from inside a tick, where
    /// [`fits`](Self::fits) says it can be.
    ///
    /// Every command naming an entity is checked against who manages it, and a
    /// command for an entity the sender does not manage is counted and
    /// dropped. That is a consistency check rather than an authorization one:
    /// it keeps an edge's own stale ids, left over from a despawn or a
    /// migration, from moving somebody else's entity. Who may publish what is
    /// the broker's, and nothing here knows or asks.
    pub fn apply(&mut self, step: &mut Step) -> (out: Applied)
        requires
            old(self).wf(),
            old(step).wf(),
            old(step)@.at.len() + old(self)@.pending() <= u32::MAX,
        ensures
            final(self).wf(),
            final(step).wf(),
            final(step).world() == old(step).world(),
            working(final(self)@, final(step)@, out) == old(self)@.applied(
                old(step).world()@,
                old(step)@,
            ),
    {
        let ghost desk = self@;
        let ghost crowd = step@;
        let ghost w = step.world();
        let mut out = Applied { spawned: 0, moved: 0, despawned: 0, orphaned: 0, refused: 0 };
        let mut commands: Vec<Command> = Vec::new();
        std::mem::swap(&mut commands, &mut self.queue);
        let ghost orders = commands@.map_values(|c: Command| c@);
        assert(orders == desk.queue);
        assert(self@.queue =~= Seq::<Order>::empty());
        let orphans = self.edges.take_detached();
        let ghost start = working(self@, step@, out);
        let mut i: usize = 0;
        assert(orphans@.take(0) =~= Seq::empty());
        while i < orphans.len()
            invariant
                i <= orphans@.len(),
                self.wf(),
                step.wf(),
                step.world() == w,
                step@.at.len() == crowd.at.len(),
                crowd.at.len() + orphans@.len() + weights(orders) <= u32::MAX,
                out.total() <= i,
                working(self@, step@, out) == start.all_orphaned(orphans@.take(i as int)),
            decreases orphans@.len() - i,
        {
            assert(orphans@.take(i + 1).drop_last() =~= orphans@.take(i as int));
            self.orphan(step, &mut out, orphans[i]);
            i = i + 1;
        }
        assert(orphans@.take(i as int) =~= orphans@);
        let ghost mid = working(self@, step@, out);
        let mut j: usize = 0;
        assert(orders.take(0) =~= Seq::empty());
        while j < commands.len()
            invariant
                j <= commands@.len(),
                orders == commands@.map_values(|c: Command| c@),
                self.wf(),
                step.wf(),
                step.world() == w,
                crowd.at.len() + orphans@.len() + weights(orders) <= u32::MAX,
                step@.at.len() <= crowd.at.len() + weights(orders.take(j as int)),
                out.total() <= orphans@.len() + weights(orders.take(j as int)),
                working(self@, step@, out) == mid.all_ordered(w@, orders.take(j as int)),
            decreases commands@.len() - j,
        {
            proof {
                assert(orders.take(j + 1).drop_last() =~= orders.take(j as int));
                lemma_weights(orders, j + 1);
            }
            self.obey(step, &mut out, &commands[j]);
            j = j + 1;
        }
        assert(orders.take(j as int) =~= orders);
        let ghost end = working(self@, step@, out);
        self.refused = self.refused.wrapping_add(out.refused as u64);
        assert(working(self@, step@, out) =~= desk.applied(w@, crowd));
        out
    }

    /// Which viewer watches an entity, once.
    pub fn take_watcher(&mut self, entity: EntityId) -> (viewer: Option<ViewerId>)
        requires
            old(self).wf(),
        ensures
            final(self).wf(),
            viewer == if old(self)@.watchers.contains_key(entity.0) {
                Some(ViewerId(old(self)@.watchers[entity.0]))
            } else {
                None
            },
            final(self)@ == (Desk {
                watchers: old(self)@.watchers.remove(entity.0),
                ..old(self)@
            }),
    {
        match take_id(&mut self.watchers, entity.raw()) {
            Some(raw) => Some(ViewerId::from_raw(raw)),
            None => None,
        }
    }

    /// Records which viewer watches an entity.
    pub fn set_watcher(&mut self, entity: EntityId, viewer: ViewerId)
        requires
            old(self).wf(),
            entity.0 < usize::MAX,
        ensures
            final(self).wf(),
            final(self)@ == (Desk {
                watchers: bound(old(self)@.watchers, entity.0, viewer.0),
                ..old(self)@
            }),
    {
        bind_id(&mut self.watchers, entity.raw(), viewer.raw());
    }

    /// Drops one entity's viewer and tells its edge the entity is gone.
    ///
    /// `edge` is `None` for an orphan, whose edge has already detached and so
    /// has nothing left to tell and no counters left to adjust.
    fn retire(&mut self, acts: &mut Vec<Act>, edge: Option<EdgeId>, id: EntityId)
        requires
            old(self).wf(),
        ensures
            final(self).wf(),
            (Closing { desk: final(self)@, acts: final(acts)@ }) == (Closing {
                desk: old(self)@,
                acts: old(acts)@,
            }).retired(edge, id),
    {
        let ghost was = Closing { desk: self@, acts: acts@ };
        if let Some(viewer) = self.take_watcher(id) {
            acts.push(Act::Drop(viewer));
            if let Some(e) = edge {
                if let Some(stats) = self.edges.stats(e) {
                    let mut stats = stats;
                    stats.observers = stats.observers.wrapping_sub(1);
                    self.edges.set_stats(e, stats);
                }
            }
        } else {
            assert(self@.watchers =~= was.desk.watchers);
        }
        if let Some(e) = edge {
            acts.push(Act::Report(e, Presence::Removed { entity: id }));
        }
        assert((Closing { desk: self@, acts: acts@ }) =~= was.retired(edge, id));
    }

    /// What is to be done between ticks: drop the viewers of everything
    /// despawned, register one for everything spawned that observes, and
    /// answer the edges that asked.
    ///
    /// `despawned` is what left the population during the tick, at whoever's
    /// asking. A despawn the game performed reaches nothing else: applying
    /// knows only the ones it did itself. Left alone the ownership record
    /// would outlive the entity, its viewer would never be dropped, and the
    /// edge would go on sending moves that are refused for as long as it ran.
    /// An entity despawned at an edge's asking was released before that, so it
    /// has no owner here and is not reported twice.
    pub fn settle(&mut self, despawned: &[EntityId], now: Load) -> (acts: Vec<Act>)
        requires
            old(self).wf(),
        ensures
            final(self).wf(),
            (Closing { desk: final(self)@, acts: acts@ }) == old(self)@.settled(despawned@, now),
    {
        let ghost was = self@;
        let mut acts: Vec<Act> = Vec::new();
        let mut fresh: Vec<Fresh> = Vec::new();
        std::mem::swap(&mut fresh, &mut self.fresh);
        let mut gone: Vec<(Option<EdgeId>, EntityId)> = Vec::new();
        std::mem::swap(&mut gone, &mut self.gone);
        let mut span = self.load.span;
        span.merge(now.span);
        self.load = Load {
            tick_count: now.tick_count,
            entities: now.entities,
            slots: now.slots,
            span,
        };
        let ghost start = Closing { desk: self@, acts: acts@ };
        assert(start =~= (Closing {
            desk: Desk {
                fresh: Seq::empty(),
                gone: Seq::empty(),
                load: was.load.after(now),
                ..was
            },
            acts: Seq::empty(),
        }));
        let mut i: usize = 0;
        assert(gone@.take(0) =~= Seq::empty());
        while i < gone.len()
            invariant
                i <= gone@.len(),
                self.wf(),
                (Closing { desk: self@, acts: acts@ }) == start.all_retired(gone@.take(i as int)),
            decreases gone@.len() - i,
        {
            assert(gone@.take(i + 1).drop_last() =~= gone@.take(i as int));
            let (edge, id) = gone[i];
            self.retire(&mut acts, edge, id);
            i = i + 1;
        }
        assert(gone@.take(i as int) =~= gone@);
        let ghost torn = Closing { desk: self@, acts: acts@ };
        let mut j: usize = 0;
        assert(despawned@.take(0) =~= Seq::empty());
        while j < despawned.len()
            invariant
                j <= despawned@.len(),
                self.wf(),
                (Closing { desk: self@, acts: acts@ }) == torn.all_reconciled(
                    despawned@.take(j as int),
                ),
            decreases despawned@.len() - j,
        {
            assert(despawned@.take(j + 1).drop_last() =~= despawned@.take(j as int));
            let id = despawned[j];
            if let Some(edge) = self.edges.release(id) {
                self.retire(&mut acts, Some(edge), id);
            }
            j = j + 1;
        }
        assert(despawned@.take(j as int) =~= despawned@);
        let ghost level = Closing { desk: self@, acts: acts@ };
        let mut k: usize = 0;
        assert(fresh@.take(0) =~= Seq::empty());
        while k < fresh.len()
            invariant
                k <= fresh@.len(),
                self.wf(),
                (Closing { desk: self@, acts: acts@ }) == level.all_answered(fresh@.take(k as int)),
            decreases fresh@.len() - k,
        {
            assert(fresh@.take(k + 1).drop_last() =~= fresh@.take(k as int));
            let f = fresh[k];
            // Only an observer costs a viewer. An unattended entity is
            // replicated to whoever can see it and receives nothing itself.
            if f.kind.observes() {
                acts.push(Act::Register(f.edge, f.entity));
            }
            acts.push(Act::Report(f.edge, Presence::Added { entity: f.entity, token: f.token }));
            k = k + 1;
        }
        assert(fresh@.take(k as int) =~= fresh@);
        acts
    }

    /// Records the viewer that was registered for an entity.
    pub fn registered(&mut self, edge: EdgeId, entity: EntityId, viewer: ViewerId)
        requires
            old(self).wf(),
            entity.0 < usize::MAX,
        ensures
            final(self).wf(),
            final(self)@ == old(self)@.watched(edge, entity, viewer),
    {
        self.set_watcher(entity, viewer);
        if let Some(stats) = self.edges.stats(edge) {
            let mut stats = stats;
            stats.observers = stats.observers.wrapping_add(1);
            self.edges.set_stats(edge, stats);
        }
        assert(self@ =~= old(self)@.watched(edge, entity, viewer));
    }
}

impl Settled {
    /// Nothing done.
    pub open spec fn none() -> Settled {
        Settled { registered: 0, unregistered: 0, reported: 0 }
    }

    /// With one thing more done. A report that was not delivered is not
    /// counted.
    pub open spec fn with(self, act: Act, delivered: bool) -> Settled {
        match act {
            Act::Drop(_) => Settled { unregistered: (self.unregistered + 1) as u32, ..self },
            Act::Register(_, _) => Settled { registered: (self.registered + 1) as u32, ..self },
            Act::Report(_, _) => if delivered {
                Settled { reported: (self.reported + 1) as u32, ..self }
            } else {
                self
            },
        }
    }

    /// Nothing done.
    pub fn new() -> (s: Settled)
        ensures
            s == Settled::none(),
    {
        Settled { registered: 0, unregistered: 0, reported: 0 }
    }

    /// Counts one thing done.
    pub fn count(&mut self, act: Act, delivered: bool)
        requires
            match act {
                Act::Drop(_) => old(self).unregistered < u32::MAX,
                Act::Register(_, _) => old(self).registered < u32::MAX,
                Act::Report(_, _) => delivered ==> old(self).reported < u32::MAX,
            },
        ensures
            *final(self) == old(self).with(act, delivered),
    {
        match act {
            Act::Drop(_) => {
                self.unregistered = self.unregistered + 1;
            },
            Act::Register(_, _) => {
                self.registered = self.registered + 1;
            },
            Act::Report(_, _) => {
                if delivered {
                    self.reported = self.reported + 1;
                }
            },
        }
    }
}

// ---------------------------------------------------------------------------
// Addressing
// ---------------------------------------------------------------------------

/// The names of a region's edges, by index.
pub open spec fn names(roster: Roster) -> Seq<Option<Seq<char>>> {
    Seq::new(
        roster.slots.len(),
        |i: int|
            match roster.slots[i] {
                Some(a) => Some(a.name),
                None => None,
            },
    )
}

/// Which viewer's payload goes where.
#[verifier::ext_equal]
pub struct Routes {
    /// The region payloads come from.
    pub region: RegionId,
    /// Which entity a viewer watches.
    pub avatars: Map<u32, u32>,
    /// How the set of edges was numbered when their names were last read.
    pub generation: u64,
    /// Their names then, by index.
    pub named: Seq<Option<Seq<char>>>,
    /// Payloads published.
    pub sent: u64,
    /// Payloads that could not be addressed.
    pub undeliverable: u64,
    /// Payloads whose publish failed.
    pub failed: u64,
}

impl Routes {
    /// With the names read again if the set has changed since.
    pub open spec fn current(self, roster: Roster) -> Routes {
        if self.generation == roster.generation {
            self
        } else {
            Routes { generation: roster.generation, named: names(roster), ..self }
        }
    }

    /// The name an edge goes by.
    pub open spec fn name_of(self, edge: EdgeId) -> Option<Seq<char>> {
        if edge.0 < self.named.len() {
            self.named[edge.0 as int]
        } else {
            None
        }
    }

    /// Which entity, of which edge, a viewer's payload is for.
    pub open spec fn recipient(self, roster: Roster, viewer: ViewerId) -> Option<
        (EntityId, EdgeId),
    > {
        if !self.avatars.contains_key(viewer.0) {
            None
        } else {
            let avatar = EntityId(self.avatars[viewer.0]);
            match roster.owner(avatar) {
                None => None,
                Some(edge) => Some((avatar, edge)),
            }
        }
    }
}

/// One edge's two subjects.
#[derive(Debug)]
struct Pair {
    name: EdgeName,
    state: String,
    presence: String,
}

impl Pair {
    spec fn wf(&self, region: RegionId) -> bool {
        &&& self.state@ == subjects::edge_subject(region, self.name@, "payload"@)
        &&& self.presence@ == subjects::edge_subject(region, self.name@, "reply"@)
    }
}

/// An edge's subjects, as its name.
spec fn pair_name(pair: Option<Pair>) -> Option<Seq<char>> {
    match pair {
        Some(p) => Some(p.name@),
        None => None,
    }
}

/// Addresses each viewer's payload to the edge that manages its avatar.
///
/// The two subjects of an edge are kept and rebuilt when the set changes.
/// Formatting one per payload would allocate half a million times a second.
#[derive(Debug)]
pub struct EdgeSink {
    region: RegionId,
    /// Viewer index to avatar entity raw. A payload arrives named by its
    /// viewer, and the routing question is asked about an entity.
    avatars: Vec<u32>,
    generation: u64,
    pairs: Vec<Option<Pair>>,
    sent: u64,
    undeliverable: u64,
    failed: u64,
}

impl View for EdgeSink {
    type V = Routes;

    closed spec fn view(&self) -> Routes {
        Routes {
            region: self.region,
            avatars: map_of(self.avatars@),
            generation: self.generation,
            named: self.pairs@.map_values(|p: Option<Pair>| pair_name(p)),
            sent: self.sent,
            undeliverable: self.undeliverable,
            failed: self.failed,
        }
    }
}

/// A message to be published: where, and what.
pub struct Outbound {
    /// Where.
    pub subject: String,
    /// What.
    pub body: Vec<u8>,
}

impl EdgeSink {
    /// Whether every subject is what its edge's name makes it.
    pub closed spec fn wf(&self) -> bool {
        forall|i: int|
            0 <= i < self.pairs@.len() && (#[trigger] self.pairs@[i]) is Some
                ==> self.pairs@[i]->0.wf(self.region)
    }

    /// Addressing nothing yet.
    pub fn new(region: RegionId) -> (s: EdgeSink)
        ensures
            s.wf(),
            s@ == (Routes {
                region,
                avatars: Map::empty(),
                generation: u64::MAX,
                named: Seq::empty(),
                sent: 0,
                undeliverable: 0,
                failed: 0,
            }),
    {
        let s = EdgeSink {
            region,
            avatars: Vec::new(),
            generation: u64::MAX,
            pairs: Vec::new(),
            sent: 0,
            undeliverable: 0,
            failed: 0,
        };
        assert(s@.avatars =~= Map::<u32, u32>::empty());
        assert(s@.named =~= Seq::<Option<Seq<char>>>::empty());
        s
    }

    /// Records which entity a viewer watches, so its payloads can be addressed.
    pub fn bind(&mut self, viewer: ViewerId, avatar: EntityId)
        requires
            old(self).wf(),
            viewer.0 < usize::MAX,
        ensures
            final(self).wf(),
            final(self)@ == (Routes {
                avatars: bound(old(self)@.avatars, viewer.0, avatar.0),
                ..old(self)@
            }),
    {
        bind_id(&mut self.avatars, viewer.raw(), avatar.raw());
    }

    /// Forgets a viewer, so a recycled id cannot address the previous avatar.
    pub fn unbind(&mut self, viewer: ViewerId)
        requires
            old(self).wf(),
        ensures
            final(self).wf(),
            final(self)@ == (Routes { avatars: old(self)@.avatars.remove(viewer.0), ..old(self)@ }),
    {
        let _ = take_id(&mut self.avatars, viewer.raw());
    }

    /// Payloads published.
    pub fn sent(&self) -> (n: u64)
        ensures
            n == self@.sent,
    {
        self.sent
    }

    /// Payloads for a viewer with no avatar bound, or an avatar no edge
    /// manages. A viewer whose edge went away mid-tick lands here.
    pub fn undeliverable(&self) -> (n: u64)
        ensures
            n == self@.undeliverable,
    {
        self.undeliverable
    }

    /// Payloads whose publish failed.
    pub fn failed(&self) -> (n: u64)
        ensures
            n == self@.failed,
    {
        self.failed
    }

    /// Which entity a viewer watches.
    pub fn avatar_of(&self, viewer: ViewerId) -> (avatar: Option<EntityId>)
        ensures
            avatar == if self@.avatars.contains_key(viewer.0) {
                Some(EntityId(self@.avatars[viewer.0]))
            } else {
                None
            },
    {
        if viewer.index() >= self.avatars.len() {
            return None;
        }
        let raw: u32 = self.avatars[viewer.index()];
        if raw == NOBODY {
            None
        } else {
            Some(EntityId::from_raw(raw))
        }
    }

    /// Reads the edges' names again if the set has changed since.
    fn refresh(&mut self, edges: &Edges)
        requires
            old(self).wf(),
            edges.wf(),
        ensures
            final(self).wf(),
            final(self)@ == old(self)@.current(edges.roster()),
    {
        if self.generation == edges.generation() {
            return;
        }
        let mut pairs: Vec<Option<Pair>> = Vec::new();
        let mut i: usize = 0;
        let n: usize = edges.seats();
        let region = self.region;
        while i < n
            invariant
                i <= n <= u32::MAX,
                n == edges.roster().slots.len(),
                pairs@.len() == i,
                forall|j: int|
                    0 <= j < i && (#[trigger] pairs@[j]) is Some ==> pairs@[j]->0.wf(region),
                forall|j: int|
                    0 <= j < i ==> pair_name(#[trigger] pairs@[j]) == names(edges.roster())[j],
            decreases n - i,
        {
            let id = EdgeId::from_raw(i as u32);
            match edges.name(id) {
                Some(name) => {
                    let state = subjects::payload(region, &name);
                    let presence = subjects::reply(region, &name);
                    pairs.push(Some(Pair { name, state, presence }));
                },
                None => {
                    pairs.push(None);
                },
            }
            i = i + 1;
        }
        self.pairs = pairs;
        self.generation = edges.generation();
        assert(self@ =~= old(self)@.current(edges.roster()));
    }

    /// Where and how an edge is told of one entity appearing or leaving.
    /// `None` where the edge is not attached.
    pub fn presence(&mut self, edges: &Edges, edge: EdgeId, what: Presence) -> (m: Option<Outbound>)
        requires
            old(self).wf(),
            edges.wf(),
        ensures
            final(self).wf(),
            final(self)@ == old(self)@.current(edges.roster()),
            match final(self)@.name_of(edge) {
                Some(name) => m is Some && m->0.subject@ == subjects::edge_subject(
                    old(self)@.region,
                    name,
                    "reply"@,
                ) && m->0.body@ == what.wire(),
                None => m is None,
            },
    {
        self.refresh(edges);
        if edge.index() >= self.pairs.len() {
            return None;
        }
        match &self.pairs[edge.index()] {
            Some(pair) => {
                let mut body: Vec<u8> = Vec::new();
                what.encode(&mut body);
                Some(Outbound { subject: pair.presence.clone(), body })
            },
            None => None,
        }
    }

    /// Where one viewer's payload goes, and the message that carries it. The
    /// payload is addressed by the avatar, so an edge holds one map rather
    /// than two. `None`, and counted, where nobody is there to receive it.
    pub fn send(&mut self, edges: &Edges, viewer: ViewerId, payload: &[u8]) -> (m: Option<Outbound>)
        requires
            old(self).wf(),
            edges.wf(),
        ensures
            final(self).wf(),
            match old(self)@.recipient(edges.roster(), viewer) {
                None => m is None && final(self)@ == (Routes {
                    undeliverable: edges::up(old(self)@.undeliverable),
                    ..old(self)@
                }),
                Some((avatar, edge)) => {
                    let now = old(self)@.current(edges.roster());
                    match now.name_of(edge) {
                        None => m is None && final(self)@ == (Routes {
                            undeliverable: edges::up(now.undeliverable),
                            ..now
                        }),
                        Some(name) => {
                            &&& final(self)@ == now
                            &&& m is Some
                            &&& m->0.subject@ == subjects::edge_subject(
                                now.region,
                                name,
                                "payload"@,
                            )
                            &&& m->0.body@ == le::le_bytes(avatar.0 as nat, 4) + payload@
                        },
                    }
                },
            },
    {
        let avatar = match self.avatar_of(viewer) {
            Some(avatar) => avatar,
            None => {
                self.undeliverable = self.undeliverable.wrapping_add(1);
                return None;
            },
        };
        let edge = match edges.edge_for(avatar) {
            Some(edge) => edge,
            None => {
                self.undeliverable = self.undeliverable.wrapping_add(1);
                return None;
            },
        };
        self.refresh(edges);
        if edge.index() < self.pairs.len() {
            if let Some(pair) = &self.pairs[edge.index()] {
                let mut body: Vec<u8> = Vec::new();
                push_u32(&mut body, avatar.raw());
                let ghost head = body@;
                body.extend_from_slice(payload);
                assert(body@ =~= le::le_bytes(avatar.0 as nat, 4) + payload@);
                return Some(Outbound { subject: pair.state.clone(), body });
            }
        }
        self.undeliverable = self.undeliverable.wrapping_add(1);
        None
    }

    /// Counts one payload handed to the broker.
    pub fn published(&mut self, delivered: bool)
        requires
            old(self).wf(),
        ensures
            final(self).wf(),
            final(self)@ == if delivered {
                Routes { sent: edges::up(old(self)@.sent), ..old(self)@ }
            } else {
                Routes { failed: edges::up(old(self)@.failed), ..old(self)@ }
            },
    {
        if delivered {
            self.sent = self.sent.wrapping_add(1);
        } else {
            self.failed = self.failed.wrapping_add(1);
        }
    }
}

// ---------------------------------------------------------------------------
// Laws
// ---------------------------------------------------------------------------

/// A batch of moves leaves alone every entity its sender does not manage, and
/// changes neither who exists nor who manages what.
pub proof fn law_an_edge_moves_only_its_own(
    work: Work,
    w: World,
    edge: EdgeId,
    moves: Seq<(EntityId, Pos3)>,
)
    requires
        work.crowd.placed(),
    ensures
        ({
            let end = work.all_moved(w, edge, moves);
            &&& end.crowd.at.len() == work.crowd.at.len()
            &&& end.crowd.live == work.crowd.live
            &&& end.desk.roster.owners == work.desk.roster.owners
            &&& forall|id: EntityId| #[trigger]
                work.desk.roster.owner(id) != Some(edge) && id.0 < work.crowd.at.len()
                    ==> end.crowd.at[id.0 as int] == work.crowd.at[id.0 as int]
        }),
    decreases moves.len(),
{
    if moves.len() > 0 {
        law_an_edge_moves_only_its_own(work, w, edge, moves.drop_last());
        let mid = work.all_moved(w, edge, moves.drop_last());
        let (id, to) = moves.last();
        assert forall|other: EntityId| #[trigger]
            work.desk.roster.owner(other) != Some(edge) && other.0
                < work.crowd.at.len() implies mid.moved(w, edge, id, to).crowd.at[other.0 as int]
            == work.crowd.at[other.0 as int] by {
            assert(mid.desk.roster.owner(other) == work.desk.roster.owner(other));
            assert(mid.desk.roster.owner(id) == work.desk.roster.owner(id));
        }
    }
}

/// A batch of despawns takes away only what its sender manages.
pub proof fn law_an_edge_removes_only_its_own(work: Work, edge: EdgeId, ids: Seq<EntityId>)
    ensures
        ({
            let end = work.all_despawned(edge, ids);
            &&& end.crowd.at == work.crowd.at
            &&& forall|id: EntityId| #[trigger]
                work.desk.roster.owner(id) != Some(edge) ==> {
                    &&& end.crowd.live.contains(id.0) == work.crowd.live.contains(id.0)
                    &&& end.desk.roster.owner(id) == work.desk.roster.owner(id)
                }
        }),
    decreases ids.len(),
{
    if ids.len() > 0 {
        law_an_edge_removes_only_its_own(work, edge, ids.drop_last());
        let mid = work.all_despawned(edge, ids.drop_last());
        let id = ids.last();
        assert forall|other: EntityId| #[trigger]
            work.desk.roster.owner(other) != Some(edge) implies {
            &&& mid.despawned(edge, id).crowd.live.contains(other.0)
                == work.crowd.live.contains(other.0)
            &&& mid.despawned(edge, id).desk.roster.owner(other) == work.desk.roster.owner(other)
        } by {
            assert(mid.desk.roster.owner(other) == work.desk.roster.owner(other));
            if mid.desk.roster.owner(id) == Some(edge) {
                assert(id.0 != other.0) by {
                    assert(EntityId(id.0) == id && EntityId(other.0) == other);
                }
            }
        }
    }
}

/// Everything asked for is accounted for: done, or declined.
pub proof fn law_everything_asked_is_counted(work: Work, w: World, order: Order)
    requires
        work.done.total() + weight(order) <= u32::MAX,
    ensures
        work.ordered(w, order).done.total() == work.done.total() + weight(order),
    decreases weight(order),
{
    if weight(order) > 0 {
        match order {
            Order::Spawn { edge, spawns } => {
                law_everything_asked_is_counted(
                    work,
                    w,
                    Order::Spawn { edge, spawns: spawns.drop_last() },
                );
            },
            Order::Move { edge, moves } => {
                law_everything_asked_is_counted(
                    work,
                    w,
                    Order::Move { edge, moves: moves.drop_last() },
                );
            },
            Order::Despawn { edge, ids } => {
                law_everything_asked_is_counted(
                    work,
                    w,
                    Order::Despawn { edge, ids: ids.drop_last() },
                );
            },
        }
    }
}

/// A spawn inside the region, asked for by an attached edge, gives that edge
/// an entity nobody had, where it asked for it.
pub proof fn law_a_spawn_gives_its_edge_a_new_entity(work: Work, w: World, edge: EdgeId, want: Spawn)
    requires
        w.contains(want.position),
        work.desk.roster.attached(edge),
        work.crowd.at.len() < u32::MAX,
        !work.desk.roster.owners.contains_key(work.crowd.at.len() as u32),
    ensures
        ({
            let id = EntityId(work.crowd.at.len() as u32);
            let end = work.spawned(w, edge, want);
            &&& end.crowd.live.contains(id.0)
            &&& end.crowd.at[id.0 as int] == want.position
            &&& end.desk.roster.owner(id) == Some(edge)
            &&& end.desk.fresh.last() == (Fresh {
                edge,
                entity: id,
                kind: want.kind,
                token: want.token,
            })
        }),
{
}

/// What an edge gives back has no owner afterwards, so settling does not
/// report it a second time.
pub proof fn law_what_is_given_back_is_reported_once(work: Work, edge: EdgeId, id: EntityId)
    requires
        work.desk.roster.owner(id) == Some(edge),
    ensures
        ({
            let end = work.despawned(edge, id);
            &&& end.desk.roster.owner(id) is None
            &&& end.desk.gone == work.desk.gone.push((Some(edge), id))
            &&& forall|c: Closing|
                c.desk.roster == end.desk.roster ==> #[trigger] c.reconciled(id) == c
        }),
{
}

/// Whether every drop stands before every registration.
pub open spec fn drops_first(acts: Seq<Act>) -> bool {
    forall|i: int, j: int|
        0 <= i < acts.len() && 0 <= j < acts.len() && (#[trigger] acts[i]) is Register
            && (#[trigger] acts[j]) is Drop ==> j < i
}

/// Whether nothing is registered.
spec fn registers_nothing(acts: Seq<Act>) -> bool {
    forall|i: int| 0 <= i < acts.len() ==> (#[trigger] acts[i]) !is Register
}

proof fn lemma_retired_registers_nothing(c: Closing, gone: Seq<(Option<EdgeId>, EntityId)>)
    requires
        registers_nothing(c.acts),
    ensures
        registers_nothing(c.all_retired(gone).acts),
        c.all_retired(gone).desk.fresh == c.desk.fresh,
    decreases gone.len(),
{
    if gone.len() > 0 {
        lemma_retired_registers_nothing(c, gone.drop_last());
    }
}

proof fn lemma_reconciled_registers_nothing(c: Closing, ids: Seq<EntityId>)
    requires
        registers_nothing(c.acts),
    ensures
        registers_nothing(c.all_reconciled(ids).acts),
    decreases ids.len(),
{
    if ids.len() > 0 {
        lemma_reconciled_registers_nothing(c, ids.drop_last());
    }
}

proof fn lemma_answered(c: Closing, fresh: Seq<Fresh>)
    requires
        drops_first(c.acts),
    ensures
        drops_first(c.all_answered(fresh).acts),
        c.acts.len() <= c.all_answered(fresh).acts.len(),
        forall|k: int|
            0 <= k < fresh.len() ==> c.all_answered(fresh).acts.contains(
                #[trigger] answer_to(fresh[k]),
            ),
        forall|k: int|
            0 <= k < fresh.len() && fresh[k].kind.is_observing() ==> c.all_answered(
                fresh,
            ).acts.contains(Act::Register((#[trigger] fresh[k]).edge, fresh[k].entity)),
        forall|i: int|
            c.acts.len() <= i < c.all_answered(fresh).acts.len() ==> (#[trigger] c.all_answered(
                fresh,
            ).acts[i]) !is Drop,
    decreases fresh.len(),
{
    if fresh.len() > 0 {
        lemma_answered(c, fresh.drop_last());
        let mid = c.all_answered(fresh.drop_last());
        let end = c.all_answered(fresh);
        let f = fresh.last();
        assert(end == mid.answered(f));
        assert forall|k: int| 0 <= k < fresh.len() implies end.acts.contains(
            #[trigger] answer_to(fresh[k]),
        ) by {
            if k < fresh.len() - 1 {
                assert(fresh.drop_last()[k] == fresh[k]);
                let at = choose|at: int|
                    0 <= at < mid.acts.len() && mid.acts[at] == answer_to(fresh[k]);
                assert(mid.acts.contains(answer_to(fresh.drop_last()[k])));
                assert(end.acts[at] == mid.acts[at]);
            } else {
                assert(end.acts.last() == answer_to(f));
            }
        }
        assert forall|k: int|
            0 <= k < fresh.len() && fresh[k].kind.is_observing() implies end.acts.contains(
            Act::Register((#[trigger] fresh[k]).edge, fresh[k].entity),
        ) by {
            let want = Act::Register(fresh[k].edge, fresh[k].entity);
            if k < fresh.len() - 1 {
                assert(fresh.drop_last()[k] == fresh[k]);
                let at = choose|at: int| 0 <= at < mid.acts.len() && mid.acts[at] == want;
                assert(end.acts[at] == mid.acts[at]);
            } else {
                assert(end.acts[mid.acts.len() as int] == want);
            }
        }
    }
}

/// What an edge is told of an entity it asked for.
pub open spec fn answer_to(f: Fresh) -> Act {
    Act::Report(f.edge, Presence::Added { entity: f.entity, token: f.token })
}

/// Settling drops before it registers, so a viewer id freed in a batch is not
/// one the batch has just handed out. Every spawn is answered with the token
/// its edge sent, and a viewer is registered for every one that observes.
pub proof fn law_settling_tears_down_first(desk: Desk, despawned: Seq<EntityId>, now: Load)
    ensures
        drops_first(desk.settled(despawned, now).acts),
        forall|k: int|
            0 <= k < desk.fresh.len() ==> desk.settled(despawned, now).acts.contains(
                #[trigger] answer_to(desk.fresh[k]),
            ),
        forall|k: int|
            0 <= k < desk.fresh.len() && desk.fresh[k].kind.is_observing() ==> desk.settled(
                despawned,
                now,
            ).acts.contains(Act::Register((#[trigger] desk.fresh[k]).edge, desk.fresh[k].entity)),
{
    let start = Closing {
        desk: Desk {
            fresh: Seq::empty(),
            gone: Seq::empty(),
            load: desk.load.after(now),
            ..desk
        },
        acts: Seq::empty(),
    };
    lemma_retired_registers_nothing(start, desk.gone);
    lemma_reconciled_registers_nothing(start.all_retired(desk.gone), despawned);
    lemma_answered(start.all_retired(desk.gone).all_reconciled(despawned), desk.fresh);
}

/// An edge heard from again, a claim, a release and a change of totals leave
/// the names as they are. An edge arriving or leaving moves the generation.
/// Names read at one generation therefore hold for as long as it stands.
pub proof fn law_the_generation_moves_with_the_names(
    r: Roster,
    name: Seq<char>,
    now: u64,
    edge: EdgeId,
    entity: EntityId,
    stats: EdgeStats,
)
    ensures
        r.admitted(name, now).generation == r.generation ==> names(r.admitted(name, now))
            == names(r),
        r.gone(edge).generation == r.generation ==> names(r.gone(edge)) == names(r),
        names(r.claimed(edge, entity)) == names(r),
        names(r.released(entity)) == names(r),
        names(r.counting(edge, stats)) == names(r),
{
    edges::lemma_slot_named(r.slots, name);
    assert(names(r.claimed(edge, entity)) =~= names(r));
    assert(names(r.released(entity)) =~= names(r));
    assert(names(r.counting(edge, stats)) =~= names(r));
    if r.admitted(name, now).generation == r.generation {
        assert(names(r.admitted(name, now)) =~= names(r));
    }
    if r.gone(edge).generation == r.generation {
        assert(names(r.gone(edge)) =~= names(r));
    }
}

/// Whether everybody who exists is inside the region.
pub open spec fn all_inside(w: World, crowd: Crowd) -> bool {
    &&& crowd.at.len() <= u32::MAX
    &&& forall|n: u32| #[trigger]
        crowd.live.contains(n) ==> n < crowd.at.len() && w.contains(crowd.at[n as int])
}

proof fn lemma_orphans_leave_inside(work: Work, w: World, ids: Seq<EntityId>)
    requires
        all_inside(w, work.crowd),
    ensures
        all_inside(w, work.all_orphaned(ids).crowd),
        work.all_orphaned(ids).crowd.at == work.crowd.at,
    decreases ids.len(),
{
    if ids.len() > 0 {
        lemma_orphans_leave_inside(work, w, ids.drop_last());
    }
}

proof fn lemma_order_leaves_inside(work: Work, w: World, order: Order)
    requires
        all_inside(w, work.crowd),
        work.crowd.at.len() + weight(order) <= u32::MAX,
    ensures
        all_inside(w, work.ordered(w, order).crowd),
        work.ordered(w, order).crowd.at.len() <= work.crowd.at.len() + weight(order),
    decreases weight(order),
{
    if weight(order) > 0 {
        match order {
            Order::Spawn { edge, spawns } => {
                let front = Order::Spawn { edge, spawns: spawns.drop_last() };
                lemma_order_leaves_inside(work, w, front);
                let mid = work.ordered(w, front);
                let end = mid.spawned(w, edge, spawns.last());
                assert forall|n: u32| #[trigger] end.crowd.live.contains(n) implies n
                    < end.crowd.at.len() && w.contains(end.crowd.at[n as int]) by {
                    if n != mid.crowd.at.len() {
                        assert(mid.crowd.live.contains(n));
                    }
                }
            },
            Order::Move { edge, moves } => {
                let front = Order::Move { edge, moves: moves.drop_last() };
                lemma_order_leaves_inside(work, w, front);
            },
            Order::Despawn { edge, ids } => {
                let front = Order::Despawn { edge, ids: ids.drop_last() };
                lemma_order_leaves_inside(work, w, front);
            },
        }
    }
}

proof fn lemma_orders_leave_inside(work: Work, w: World, orders: Seq<Order>)
    requires
        all_inside(w, work.crowd),
        work.crowd.at.len() + weights(orders) <= u32::MAX,
    ensures
        all_inside(w, work.all_ordered(w, orders).crowd),
        work.all_ordered(w, orders).crowd.at.len() <= work.crowd.at.len() + weights(orders),
    decreases orders.len(),
{
    if orders.len() > 0 {
        lemma_orders_leave_inside(work, w, orders.drop_last());
        lemma_order_leaves_inside(work.all_ordered(w, orders.drop_last()), w, orders.last());
    }
}

/// Whatever edges ask for, nobody is put outside the region.
pub proof fn law_nobody_is_put_outside(desk: Desk, w: World, crowd: Crowd)
    requires
        all_inside(w, crowd),
        crowd.at.len() + desk.pending() <= u32::MAX,
    ensures
        all_inside(w, desk.applied(w, crowd).crowd),
{
    let start = Work {
        desk: Desk {
            queue: Seq::empty(),
            roster: Roster { detached: Seq::empty(), ..desk.roster },
            ..desk
        },
        crowd,
        done: Applied::none(),
    };
    lemma_orphans_leave_inside(start, w, desk.roster.detached);
    lemma_orders_leave_inside(start.all_orphaned(desk.roster.detached), w, desk.queue);
}

} // verus!
