//! What an edge does, told by what it holds and has said before and after.
//!
//! Each law here takes one thing that can happen to an edge and says what comes
//! of it: which region is told what, which client hears what, and where an
//! entity is put, in numbers.

use vstd::prelude::*;

use crate::entity::{EntityId, EntityKind};
use crate::fixed::Fixed;
use crate::game::TeleportDecision;
use crate::id::{ClientId, EntityHandle, EntityKey, RegionId};
use crate::map::Placement;
use crate::net::edge::model::{
    Ask, Counters, Departure, Edge, Effect, Held, Notice, Outgoing, Party, Passage, Report, Said,
    Transit,
};
use crate::net::edge::protocol::{FromClient, ToClient};
use crate::net::region::protocol::Spawn;
use crate::pos::{Pos3, WorldPos};

verus! {

// ---------------------------------------------------------------------------
// Where
// ---------------------------------------------------------------------------

/// Whether a position in one region's frame is a world position: for a placed
/// region, the world position less its square's corner; for one off the map,
/// the same numbers.
pub open spec fn framing(e: Edge, region: RegionId, at: WorldPos, to: Pos3) -> bool {
    ||| exists|square: Placement|
        {
            &&& #[trigger] e.map.contains((region, square))
            &&& e.region_size is Some
            &&& to.x.0 == at.x - square.col * (e.region_size->0).0
            &&& to.y.0 == at.y - square.row * (e.region_size->0).0
            &&& to.z.0 == at.z
        }
    ||| {
        &&& forall|square: Placement| !#[trigger] e.map.contains((region, square))
        &&& to.x.0 == at.x
        &&& to.y.0 == at.y
        &&& to.z.0 == at.z
    }
}

/// Whether a world position is inside a placed region's square, at an offset
/// from its corner.
pub open spec fn within(e: Edge, region: RegionId, at: WorldPos, local: Pos3) -> bool {
    exists|square: Placement|
        {
            &&& #[trigger] e.map.contains((region, square))
            &&& e.region_size is Some
            &&& 0 <= local.x.0 < (e.region_size->0).0
            &&& 0 <= local.y.0 < (e.region_size->0).0
            &&& at.x == square.col * (e.region_size->0).0 + local.x.0
            &&& at.y == square.row * (e.region_size->0).0 + local.y.0
            &&& at.z == local.z.0
        }
}

/// Whether a world position is inside no placed region's square.
pub open spec fn nowhere(e: Edge, at: WorldPos) -> bool {
    forall|region: RegionId, square: Placement| #[trigger]
        e.map.contains((region, square)) && e.region_size is Some ==> !(square.col * (
        e.region_size->0).0 <= at.x < square.col * (e.region_size->0).0 + (e.region_size->0).0
            && square.row * (e.region_size->0).0 <= at.y < square.row * (e.region_size->0).0 + (
        e.region_size->0).0)
}

/// Whether a map repeats nothing and a region has some size, if any is known.
pub open spec fn charted(e: Edge) -> bool {
    &&& crate::map::distinct(e.map)
    &&& e.region_size is Some ==> (e.region_size->0).0 > 0
}

proof fn lemma_framing(e: Edge, region: RegionId, at: WorldPos, to: Pos3)
    requires
        charted(e),
    ensures
        e.framed(region, at) == Some(to) <==> framing(e, region, at, to),
        framing(e, region, at, to) ==> e.spot_in(region, at) == Some((region, to)),
{
    let origin = Placement { col: 0, row: 0 };
    crate::map::law_a_placed_region_has_one_square(e.map, region, origin);
    match crate::map::square_of(e.map, region) {
        Some(square) => {
            crate::map::law_a_placed_region_has_one_square(e.map, region, square);
            assert(e.map.contains((region, square)));
            assert forall|other: Placement| #[trigger]
                e.map.contains((region, other)) implies other == square by {
                crate::map::law_a_placed_region_has_one_square(e.map, region, other);
            }
            if let Some(size) = e.region_size {
                crate::pos::law_a_frame_is_an_offset(at, square, size, to);
            }
        },
        None => {
            crate::pos::law_a_frame_is_an_offset(at, origin, Fixed(0), to);
        },
    }
}

/// A position that fits a frame is somewhere in it.
proof fn lemma_unframed(e: Edge, region: RegionId, at: WorldPos)
    requires
        charted(e),
        forall|to: Pos3| !#[trigger] framing(e, region, at, to),
    ensures
        e.framed(region, at) is None,
        e.spot_in(region, at) is None,
{
    if let Some(to) = e.framed(region, at) {
        lemma_framing(e, region, at, to);
        assert(framing(e, region, at, to));
    }
}

proof fn lemma_within(e: Edge, region: RegionId, at: WorldPos, local: Pos3)
    requires
        charted(e),
        within(e, region, at, local),
    ensures
        e.located(at) == Some((region, local)),
{
    let square = choose|square: Placement|
        {
            &&& #[trigger] e.map.contains((region, square))
            &&& e.region_size is Some
            &&& 0 <= local.x.0 < (e.region_size->0).0
            &&& 0 <= local.y.0 < (e.region_size->0).0
            &&& at.x == square.col * (e.region_size->0).0 + local.x.0
            &&& at.y == square.row * (e.region_size->0).0 + local.y.0
            &&& at.z == local.z.0
        };
    crate::map::law_a_position_in_a_placed_square_is_located(
        e.map,
        region,
        square,
        local,
        at,
        e.region_size->0,
    );
}

proof fn lemma_nowhere(e: Edge, at: WorldPos)
    requires
        charted(e),
        nowhere(e, at),
    ensures
        e.located(at) is None,
{
    if let Some(size) = e.region_size {
        crate::map::law_a_position_in_no_square_is_nowhere(e.map, at, size);
    }
}

/// One more command heard, and nothing else.
pub open spec fn counted(e: Edge) -> Edge {
    Edge { counters: Counters { commands: (e.counters.commands + 1) as u64, ..e.counters }, ..e }
}

// ---------------------------------------------------------------------------
// Departures
// ---------------------------------------------------------------------------

/// A departure the game allows asks the destination once for a copy, where the
/// departure says, of its kind and under its name, and the copy's key is the
/// spawn's token. The copy replaces the entity, which holds from then on what
/// arrives for it, until two seconds have gone by; what the game packed waits
/// for the copy.
pub proof fn law_an_allowed_departure_asks_the_destination_once(
    e: Edge,
    d: Departure,
    decision: TeleportDecision,
    now: u64,
)
    requires
        decision !is Deny,
        e.by_key.contains_key(d.key.0),
        d.key.0 < e.next_key < u64::MAX,
        now + 2_000_000_000 <= u64::MAX,
    ensures
        ({
            let after = e.departed(d, decision, now).0;
            let copy = after.by_key[e.next_key];
            let left = after.by_key[d.key.0];
            let passage = left.transition->0;
            &&& e.departed(d, decision, now).1 == Some(EntityKey(e.next_key))
            &&& after.out == e.out.push(
                Effect::Tell(
                    Outgoing::Spawn(
                        d.dest,
                        Spawn { position: d.position, kind: d.kind, token: e.next_key },
                        d.name,
                    ),
                ),
            )
            &&& after.next_key == e.next_key + 1
            &&& after.by_key.contains_key(e.next_key)
            &&& copy.client == d.client && copy.handle is None && copy.region == d.dest
            &&& copy.kind == d.kind && copy.id is None && copy.pending is None && !copy.doomed
            &&& copy.replaces == Some(d.key) && copy.name == d.name && copy.shadow_of is None
            &&& copy.shadows.len() == 0 && copy.standing is None && copy.transition is None
            &&& after.by_key.contains_key(d.key.0)
            &&& left == (Held { transition: left.transition, ..e.by_key[d.key.0] })
            &&& left.transition is Some && passage.to == EntityKey(e.next_key)
            &&& passage.dest == d.dest && passage.held_move is None
            &&& passage.held_messages.len() == 0
            &&& after.transits == e.transits.push(
                Transit {
                    from: d.key,
                    to: EntityKey(e.next_key),
                    deadline: (now + 2_000_000_000) as u64,
                },
            )
            &&& match decision {
                TeleportDecision::Carry(state) => after.carried == e.carried.insert(
                    e.next_key,
                    state@,
                ),
                _ => after.carried == e.carried,
            }
        }),
        ({
            let after = e.departed(d, decision, now).0;
            &&& after.by_id == e.by_id && after.moves == e.moves && after.worlds == e.worlds
            &&& after.map == e.map && after.region_size == e.region_size
            &&& forall|k: u64|
                k != d.key.0 && k != e.next_key ==> (#[trigger] after.by_key.contains_key(k)
                    <==> e.by_key.contains_key(k)) && after.by_key[k] == e.by_key[k]
            &&& match d.client {
                Some(c) => e.clients.contains_key(c.0) ==> after.clients.contains_key(c.0)
                    && after.clients[c.0].keys.contains(EntityKey(e.next_key))
                    && after.clients[c.0].handles == e.clients[c.0].handles,
                None => after.clients == e.clients,
            }
        }),
{
    let key = EntityKey(e.next_key);
    if let Some(c) = d.client {
        if e.clients.contains_key(c.0) {
            let keys = e.clients[c.0].keys;
            if !keys.contains(key) {
                assert(keys.push(key)[keys.len() as int] == key);
            }
        }
    }
    assert(e.departed(d, decision, now).0.by_key.contains_key(d.key.0));
}

/// A departure the game refuses changes nothing, and a departure of an entity
/// that is no longer held leaves no copy behind.
pub proof fn law_a_departure_that_comes_to_nothing(
    e: Edge,
    d: Departure,
    decision: TeleportDecision,
    now: u64,
)
    requires
        decision is Deny || !e.by_key.contains_key(d.key.0),
        d.key.0 < e.next_key < u64::MAX,
        !e.by_key.contains_key(e.next_key),
    ensures
        e.departed(d, decision, now).1 is None,
        decision is Deny ==> e.departed(d, decision, now).0 == e,
        ({
            let after = e.departed(d, decision, now).0;
            &&& after.by_key == e.by_key
            &&& after.transits == e.transits
            &&& after.carried == e.carried
            &&& after.moves == e.moves
            &&& after.by_id == e.by_id
        }),
{
    assert(e.departed(d, decision, now).0.by_key =~= e.by_key);
}

/// A client that asked for a teleport hears that it failed where it came to
/// nothing, and nothing yet where it did not.
pub proof fn law_a_refused_teleport_is_reported(
    e: Edge,
    client: ClientId,
    handle: EntityHandle,
    d: Departure,
    decision: TeleportDecision,
    now: u64,
)
    requires
        e.by_key.contains_key(d.key.0),
        d.key.0 < e.next_key < u64::MAX,
    ensures
        ({
            let after = e.teleported(client, handle, d, decision, now);
            if decision is Deny {
                &&& after.out == e.out.push(
                    Effect::Post(client, ToClient::TeleportFailed { handle, region: d.dest }),
                )
                &&& after.by_key == e.by_key
                &&& after.transits == e.transits
                &&& after.counters == e.counters
            } else {
                after == e.departed(d, decision, now).0
            }
        }),
{
}

/// A crossing the game allows is counted as one, and one it refuses as a wall,
/// with nothing said.
pub proof fn law_a_crossing_is_counted(
    e: Edge,
    d: Departure,
    decision: TeleportDecision,
    now: u64,
)
    requires
        e.by_key.contains_key(d.key.0),
        d.key.0 < e.next_key < u64::MAX,
        e.counters.crossings < u64::MAX,
        e.counters.walls < u64::MAX,
    ensures
        ({
            let after = e.crossed(d, decision, now);
            if decision is Deny {
                &&& after.counters == (Counters {
                    walls: (e.counters.walls + 1) as u64,
                    ..e.counters
                })
                &&& after.out == e.out
                &&& after.by_key == e.by_key
                &&& after.transits == e.transits
            } else {
                let left = e.departed(d, decision, now).0;
                &&& after.counters == (Counters {
                    crossings: (e.counters.crossings + 1) as u64,
                    ..left.counters
                })
                &&& after.counters.walls == e.counters.walls
                &&& after == (Edge { counters: after.counters, ..left })
            }
        }),
{
}

// ---------------------------------------------------------------------------
// Moves
// ---------------------------------------------------------------------------

/// Moves say nothing and change nothing but where entities are to be: no
/// client's handles, no entity's place in the books, and whether it is in
/// transit.
proof fn lemma_moves_leave(e: Edge, client: ClientId, moves: Seq<(EntityHandle, WorldPos)>)
    ensures
        ({
            let after = e.moved(client, moves);
            &&& after.clients == e.clients
            &&& after.map == e.map
            &&& after.region_size == e.region_size
            &&& after.out == e.out
            &&& after.counters.commands == e.counters.commands
            &&& forall|k: u64| #[trigger]
                after.by_key.contains_key(k) <==> e.by_key.contains_key(k)
            &&& forall|k: u64| #[trigger]
                after.by_key.contains_key(k) ==> after.by_key[k] == (Held {
                    pending: after.by_key[k].pending,
                    transition: after.by_key[k].transition,
                    ..e.by_key[k]
                }) && (after.by_key[k].transition is Some <==> e.by_key[k].transition is Some)
        }),
    decreases moves.len(),
{
    if moves.len() > 0 {
        let now = e.moved(client, moves.drop_last());
        lemma_moves_leave(e, client, moves.drop_last());
        let after = e.moved(client, moves);
        assert forall|k: u64| #[trigger] after.by_key.contains_key(k) <==> e.by_key.contains_key(
            k,
        ) by {
            assert(now.by_key.contains_key(k) <==> e.by_key.contains_key(k));
        }
        assert forall|k: u64| #[trigger] after.by_key.contains_key(k) implies after.by_key[k] == (
        Held {
            pending: after.by_key[k].pending,
            transition: after.by_key[k].transition,
            ..e.by_key[k]
        }) && (after.by_key[k].transition is Some <==> e.by_key[k].transition is Some) by {
            assert(now.by_key.contains_key(k));
        }
    }
}

/// Where an entity waits to be put: under its region's name for it once that is
/// known, on its record until then, and with its teleport while it is in
/// transit.
pub open spec fn awaits(e: Edge, key: u64, at: WorldPos, to: Pos3) -> bool {
    let held = e.by_key[key];
    &&& e.by_key.contains_key(key)
    &&& match (held.transition, held.id) {
        (Some(passage), _) => passage.held_move == Some(at),
        (None, Some(id)) => {
            let slot = (held.region.0 * 0x1_0000_0000 + id.0) as u64;
            e.moves.contains_key(slot) && e.moves[slot] == to
        },
        (None, None) => held.pending == Some(to),
    }
}

/// Whether no other entity goes by the same id in the same region.
pub open spec fn alone(e: Edge, key: u64) -> bool {
    forall|k: u64| #[trigger]
        e.by_key.contains_key(k) && k != key && e.by_key[key].id is Some && e.by_key[k].id
            == e.by_key[key].id ==> e.by_key[k].region != e.by_key[key].region
}

proof fn lemma_seats(a: RegionId, i: EntityId, b: RegionId, j: EntityId)
    ensures
        (a.0 * 0x1_0000_0000 + i.0) as u64 == (b.0 * 0x1_0000_0000 + j.0) as u64 ==> a == b && i
            == j,
{
}

proof fn lemma_last_move(
    e: Edge,
    client: ClientId,
    moves: Seq<(EntityHandle, WorldPos)>,
    j: int,
    key: u64,
    to: Pos3,
)
    requires
        e.sound(),
        charted(e),
        alone(e, key),
        e.by_key.contains_key(key),
        !e.by_key[key].doomed,
        0 <= j < moves.len(),
        e.clients.contains_key(client.0),
        e.clients[client.0].handles.contains_key(moves[j].0.0 as u64),
        e.clients[client.0].handles[moves[j].0.0 as u64] == key,
        e.by_key[key].transition is None ==> framing(e, e.by_key[key].region, moves[j].1, to),
        forall|i: int|
            j < i < moves.len() && (#[trigger] moves[i]).0 == moves[j].0 ==> {
                &&& e.by_key[key].transition is None
                &&& forall|p: Pos3|
                    !#[trigger] framing(e, e.by_key[key].region, moves[i].1, p)
            },
    ensures
        awaits(e.moved(client, moves), key, moves[j].1, to),
    decreases moves.len(),
{
    let front = moves.drop_last();
    let now = e.moved(client, front);
    let after = e.moved(client, moves);
    let last = moves.last();
    let region = e.by_key[key].region;
    lemma_moves_leave(e, client, front);
    lemma_moves_leave(e, client, moves);
    assert(now.by_key.contains_key(key) && after.by_key.contains_key(key));
    assert(e.agrees(client.0));
    if j == moves.len() - 1 {
        assert(last == moves[j]);
        lemma_framing(e, region, last.1, to);
        assert(now.framed(region, last.1) == e.framed(region, last.1));
    } else {
        assert forall|i: int| j < i < front.len() && (#[trigger] front[i]).0 == front[j].0 implies {
            &&& e.by_key[key].transition is None
            &&& forall|p: Pos3| !#[trigger] framing(e, region, front[i].1, p)
        } by {
            assert(moves[i] == front[i]);
        }
        lemma_last_move(e, client, front, j, key, to);
        if last.0 == moves[j].0 {
            assert(moves[moves.len() - 1] == last);
            lemma_unframed(e, region, last.1);
            assert(now.framed(region, last.1) == e.framed(region, last.1));
        } else if let Some(other) = now.named(client, last.0) {
            assert(e.clients[client.0].handles.contains_key(last.0.0 as u64));
            assert(e.by_key[other.0].handle == Some(last.0));
            assert(e.by_key[key].handle == Some(moves[j].0));
            assert(other.0 != key);
            assert(now.by_key.contains_key(other.0)) by {
                assert(e.clients[client.0].keys.contains(other));
            }
            if e.by_key[other.0].id is Some && e.by_key[key].id is Some {
                lemma_seats(
                    e.by_key[other.0].region,
                    e.by_key[other.0].id->0,
                    region,
                    e.by_key[key].id->0,
                );
            }
        }
    }
}

/// However many moves a client sends at once, each entity they name is to be
/// put where the last of its positions that its region's frame can hold says,
/// in that frame; one in transit, at the last of its positions; and nothing is
/// said.
pub proof fn law_a_batch_of_moves_puts_each_where_it_last_said(
    e: Edge,
    client: ClientId,
    moves: Vec<(EntityHandle, WorldPos)>,
    j: int,
    key: u64,
    to: Pos3,
)
    requires
        e.sound(),
        charted(e),
        alone(e, key),
        e.by_key.contains_key(key),
        !e.by_key[key].doomed,
        0 <= j < moves@.len(),
        e.clients.contains_key(client.0),
        e.clients[client.0].handles.contains_key(moves@[j].0.0 as u64),
        e.clients[client.0].handles[moves@[j].0.0 as u64] == key,
        e.by_key[key].transition is None ==> framing(e, e.by_key[key].region, moves@[j].1, to),
        forall|i: int|
            j < i < moves@.len() && (#[trigger] moves@[i]).0 == moves@[j].0 ==> {
                &&& e.by_key[key].transition is None
                &&& forall|p: Pos3|
                    !#[trigger] framing(e, e.by_key[key].region, moves@[i].1, p)
            },
        e.counters.commands < u64::MAX,
    ensures
        awaits(e.heard(client, FromClient::Moves(moves)).0, key, moves@[j].1, to),
        e.heard(client, FromClient::Moves(moves)).0.out == e.out,
        e.heard(client, FromClient::Moves(moves)).0.counters.commands == e.counters.commands + 1,
        e.heard(client, FromClient::Moves(moves)).1 is None,
{
    let now = counted(e);
    assert(now.sound()) by {
        crate::net::edge::laws::law_counting_keeps_the_books(e, now);
    }
    assert forall|at: WorldPos, p: Pos3, r: RegionId|
        #[trigger] framing(now, r, at, p) == framing(e, r, at, p) by {}
    lemma_moves_leave(now, client, moves@);
    lemma_last_move(now, client, moves@, j, key, to);
}

/// Moves of one batch are one command, whatever it holds; and a batch of one
/// is that move.
pub proof fn law_a_batch_of_one_is_a_move(
    e: Edge,
    client: ClientId,
    handle: EntityHandle,
    position: WorldPos,
    moves: Vec<(EntityHandle, WorldPos)>,
)
    requires
        moves@ == seq![(handle, position)],
    ensures
        e.heard(client, FromClient::Moves(moves)) == e.heard(
            client,
            FromClient::Move { handle, position },
        ),
{
}

/// A move of a handle the client has no entity under is refused, and changes
/// nothing but the count; a move of an entity given back changes no record.
pub proof fn law_a_move_of_nothing_is_refused(
    e: Edge,
    client: ClientId,
    handle: EntityHandle,
    position: WorldPos,
)
    requires
        e.counters.commands < u64::MAX,
        e.counters.refused < u64::MAX,
        !e.clients.contains_key(client.0) || !e.clients[client.0].handles.contains_key(
            handle.0 as u64,
        ),
    ensures
        ({
            let after = e.heard(client, FromClient::Move { handle, position }).0;
            &&& after.counters == (Counters {
                commands: (e.counters.commands + 1) as u64,
                refused: (e.counters.refused + 1) as u64,
                ..e.counters
            })
            &&& after == (Edge { counters: after.counters, ..e })
        }),
{
    let one = seq![(handle, position)];
    assert(one.drop_last() =~= Seq::<(EntityHandle, WorldPos)>::empty());
    reveal_with_fuel(Edge::moved, 2);
}

/// One move puts its entity where it says, and no other anywhere: the entity's
/// waiting position is the one given, in its region's frame, and every other
/// position waiting stays.
pub proof fn law_a_move_puts_one_entity(
    e: Edge,
    client: ClientId,
    handle: EntityHandle,
    position: WorldPos,
    key: u64,
    to: Pos3,
)
    requires
        charted(e),
        e.by_key.contains_key(key),
        !e.by_key[key].doomed,
        e.clients.contains_key(client.0),
        e.clients[client.0].handles.contains_key(handle.0 as u64),
        e.clients[client.0].handles[handle.0 as u64] == key,
        e.by_key[key].transition is None ==> framing(e, e.by_key[key].region, position, to),
        e.counters.commands < u64::MAX,
    ensures
        ({
            let after = e.heard(client, FromClient::Move { handle, position }).0;
            let held = e.by_key[key];
            &&& after.counters == (Counters {
                commands: (e.counters.commands + 1) as u64,
                ..e.counters
            })
            &&& match (held.transition, held.id) {
                (Some(passage), _) => {
                    &&& after.moves == e.moves
                    &&& after.by_key == e.by_key.insert(
                        key,
                        Held {
                            transition: Some(
                                Passage {
                                    to: passage.to,
                                    dest: passage.dest,
                                    held_move: Some(position),
                                    held_messages: passage.held_messages,
                                },
                            ),
                            ..held
                        },
                    )
                },
                (None, Some(id)) => {
                    &&& after.moves == e.moves.insert(
                        (held.region.0 * 0x1_0000_0000 + id.0) as u64,
                        to,
                    )
                    &&& after.by_key == e.by_key
                },
                (None, None) => {
                    &&& after.moves == e.moves
                    &&& after.by_key == e.by_key.insert(key, Held { pending: Some(to), ..held })
                },
            }
            &&& after == (Edge {
                counters: after.counters,
                moves: after.moves,
                by_key: after.by_key,
                ..e
            })
        }),
{
    let now = counted(e);
    let one = seq![(handle, position)];
    assert(one.drop_last() =~= Seq::<(EntityHandle, WorldPos)>::empty());
    reveal_with_fuel(Edge::moved, 2);
    lemma_framing(e, e.by_key[key].region, position, to);
    assert(now.framed(e.by_key[key].region, position) == e.framed(
        e.by_key[key].region,
        position,
    ));
    assert(now.moved(client, one) == now.world_placed(EntityKey(key), position));
}

/// A move whose position its entity's region cannot hold is dropped and
/// counted as off the map.
pub proof fn law_a_move_no_frame_holds_is_dropped(
    e: Edge,
    client: ClientId,
    handle: EntityHandle,
    position: WorldPos,
    key: u64,
)
    requires
        charted(e),
        e.by_key.contains_key(key),
        e.by_key[key].transition is None,
        e.clients.contains_key(client.0),
        e.clients[client.0].handles.contains_key(handle.0 as u64),
        e.clients[client.0].handles[handle.0 as u64] == key,
        forall|to: Pos3| !#[trigger] framing(e, e.by_key[key].region, position, to),
        e.counters.commands < u64::MAX,
        e.counters.off_map < u64::MAX,
    ensures
        ({
            let after = e.heard(client, FromClient::Move { handle, position }).0;
            &&& after.counters == (Counters {
                commands: (e.counters.commands + 1) as u64,
                off_map: (e.counters.off_map + 1) as u64,
                ..e.counters
            })
            &&& after == (Edge { counters: after.counters, ..e })
        }),
{
    let now = counted(e);
    let one = seq![(handle, position)];
    assert(one.drop_last() =~= Seq::<(EntityHandle, WorldPos)>::empty());
    reveal_with_fuel(Edge::moved, 2);
    lemma_unframed(e, e.by_key[key].region, position);
    assert(now.framed(e.by_key[key].region, position) == e.framed(
        e.by_key[key].region,
        position,
    ));
    assert(now.moved(client, one) == now.world_placed(EntityKey(key), position));
}

// ---------------------------------------------------------------------------
// What else a client says
// ---------------------------------------------------------------------------

/// Whether an edge is another with one spawn more asked for: its region is told
/// once, with where and what it is to be, its key for a token, and its name; it
/// is recorded under that key, its region not having answered for it yet; and
/// whoever asked for it has it on their list, under the handle they gave.
pub open spec fn spawned(
    e: Edge,
    after: Edge,
    client: Option<ClientId>,
    handle: Option<EntityHandle>,
    region: RegionId,
    at: Pos3,
    kind: EntityKind,
) -> bool {
    let key = e.next_key;
    let held = after.by_key[key];
    &&& after.out == e.out.push(
        Effect::Tell(
            Outgoing::Spawn(region, Spawn { position: at, kind, token: key }, EntityKey(key)),
        ),
    )
    &&& after.next_key == key + 1
    &&& after.by_key == e.by_key.insert(key, held)
    &&& held.client == client && held.handle == handle && held.region == region
    &&& held.kind == kind && held.name == EntityKey(key)
    &&& held.id is None && held.pending is None && !held.doomed && held.replaces is None
    &&& held.shadows.len() == 0 && held.shadow_of is None && held.standing is None
    &&& held.transition is None
    &&& after.by_id == e.by_id && after.moves == e.moves && after.worlds == e.worlds
    &&& after.map == e.map && after.region_size == e.region_size && after.carried == e.carried
    &&& after.transits == e.transits
    &&& match client {
        Some(c) => if e.clients.contains_key(c.0) {
            &&& after.clients.dom() == e.clients.dom()
            &&& !e.clients[c.0].keys.contains(EntityKey(key)) ==> after.clients[c.0].keys
                == e.clients[c.0].keys.push(EntityKey(key))
            &&& after.clients[c.0].told == e.clients[c.0].told
            &&& after.clients[c.0].leaving == e.clients[c.0].leaving
            &&& after.clients[c.0].handles == match handle {
                Some(h) => e.clients[c.0].handles.insert(h.0 as u64, key),
                None => e.clients[c.0].handles,
            }
            &&& forall|o: u64|
                o != c.0 && #[trigger] e.clients.contains_key(o) ==> after.clients[o]
                    == e.clients[o]
        } else {
            after.clients == e.clients
        },
        None => after.clients == e.clients,
    }
    &&& after.counters.relayed == e.counters.relayed
    &&& after.counters.undeliverable == e.counters.undeliverable
    &&& after.counters.refused == e.counters.refused
    &&& after.counters.off_map == e.counters.off_map
    &&& after.counters.crossings == e.counters.crossings
    &&& after.counters.walls == e.counters.walls
    &&& after.counters.teleport_timeouts == e.counters.teleport_timeouts
    &&& kind.role is Observer && e.counters.observers < u32::MAX ==> after.counters.observers
        == e.counters.observers + 1
    &&& kind.role is Shadow && e.counters.shadows < u32::MAX ==> after.counters.shadows
        == e.counters.shadows + 1
    &&& !(kind.role is Observer) ==> after.counters.observers == e.counters.observers
    &&& !(kind.role is Shadow) ==> after.counters.shadows == e.counters.shadows
}

proof fn lemma_spawned(e: Edge, ask: Ask)
    requires
        e.next_key < u64::MAX,
        ask.shadow_of is None,
        ask.name is None,
    ensures
        spawned(e, e.asked(ask), ask.client, ask.handle, ask.region, ask.at, ask.kind),
{
    let after = e.asked(ask);
    if let Some(c) = ask.client {
        if e.clients.contains_key(c.0) {
            assert(after.clients.dom() =~= e.clients.dom());
        }
    }
}

/// An entity asked for is asked of its region once and recorded, whoever it is
/// for.
pub proof fn law_what_is_asked_for_is_said_once_and_recorded(
    e: Edge,
    client: Option<ClientId>,
    region: RegionId,
    at: Pos3,
    kind: EntityKind,
)
    requires
        e.next_key < u64::MAX,
    ensures
        spawned(e, e.asked(Ask::plain(client, region, at, kind)), client, None, region, at, kind),
        e.asked(Ask::plain(client, region, at, kind)).counters.commands == e.counters.commands,
{
    lemma_spawned(e, Ask::plain(client, region, at, kind));
}

/// Whether a client has an entity under a handle already.
pub open spec fn spent(e: Edge, client: ClientId, handle: EntityHandle) -> bool {
    e.clients.contains_key(client.0) && e.clients[client.0].handles.contains_key(handle.0 as u64)
}

/// A client's spawn is asked of the placed region its position is inside, at
/// its offset there, under the handle the client gave.
pub proof fn law_a_client_spawn_goes_where_it_falls(
    e: Edge,
    client: ClientId,
    handle: EntityHandle,
    position: WorldPos,
    kind: EntityKind,
    region: RegionId,
    local: Pos3,
)
    requires
        charted(e),
        within(e, region, position, local),
        !spent(e, client, handle),
        e.next_key < u64::MAX,
        e.counters.commands < u64::MAX,
    ensures
        ({
            let after = e.heard(client, FromClient::Spawn { handle, position, kind }).0;
            &&& spawned(e, after, Some(client), Some(handle), region, local, kind)
            &&& after.counters.commands == e.counters.commands + 1
            &&& e.heard(client, FromClient::Spawn { handle, position, kind }).1 is None
        }),
{
    let now = counted(e);
    lemma_within(e, region, position, local);
    assert(now.located(position) == e.located(position));
    lemma_spawned(
        now,
        Ask {
            client: Some(client),
            handle: Some(handle),
            region,
            at: local,
            kind,
            shadow_of: None,
            name: None,
        },
    );
}

/// A client's spawn into a region it names is asked of that region, at its
/// position in that region's frame, inside its box or not.
pub proof fn law_a_client_spawn_into_a_region_goes_there(
    e: Edge,
    client: ClientId,
    handle: EntityHandle,
    region: RegionId,
    position: WorldPos,
    kind: EntityKind,
    local: Pos3,
)
    requires
        charted(e),
        framing(e, region, position, local),
        !spent(e, client, handle),
        e.next_key < u64::MAX,
        e.counters.commands < u64::MAX,
    ensures
        ({
            let after = e.heard(client, FromClient::SpawnInto { handle, region, position, kind }).0;
            &&& spawned(e, after, Some(client), Some(handle), region, local, kind)
            &&& after.counters.commands == e.counters.commands + 1
            &&& e.heard(client, FromClient::SpawnInto { handle, region, position, kind }).1 is None
        }),
{
    let now = counted(e);
    lemma_framing(e, region, position, local);
    assert(now.spot_in(region, position) == e.spot_in(region, position));
    lemma_spawned(
        now,
        Ask {
            client: Some(client),
            handle: Some(handle),
            region,
            at: local,
            kind,
            shadow_of: None,
            name: None,
        },
    );
}

/// Whether an edge has heard one command more, and done nothing but count it as
/// refused or as off the map.
pub open spec fn only_counted(e: Edge, after: Edge, refused: int, off_map: int) -> bool {
    &&& after.counters == (Counters {
        commands: (e.counters.commands + 1) as u64,
        refused: (e.counters.refused + refused) as u64,
        off_map: (e.counters.off_map + off_map) as u64,
        ..e.counters
    })
    &&& after == (Edge { counters: after.counters, ..e })
}

/// A client's spawn under a handle it has already is refused, and one no placed
/// region covers, or the region it names cannot hold, is off the map; neither
/// asks anything of anyone.
pub proof fn law_a_client_spawn_that_cannot_be(
    e: Edge,
    client: ClientId,
    handle: EntityHandle,
    region: RegionId,
    position: WorldPos,
    kind: EntityKind,
)
    requires
        charted(e),
        e.counters.commands < u64::MAX,
        e.counters.refused < u64::MAX,
        e.counters.off_map < u64::MAX,
    ensures
        ({
            let fell = e.heard(client, FromClient::Spawn { handle, position, kind }).0;
            let put = e.heard(client, FromClient::SpawnInto { handle, region, position, kind }).0;
            &&& spent(e, client, handle) ==> only_counted(e, fell, 1, 0) && only_counted(e, put, 1, 0)
            &&& !spent(e, client, handle) && nowhere(e, position) ==> only_counted(e, fell, 0, 1)
            &&& !spent(e, client, handle) && (forall|to: Pos3|
                !#[trigger] framing(e, region, position, to)) ==> only_counted(e, put, 0, 1)
        }),
{
    let now = counted(e);
    assert(now.located(position) == e.located(position));
    assert(now.spot_in(region, position) == e.spot_in(region, position));
    if nowhere(e, position) {
        lemma_nowhere(e, position);
    }
    if forall|to: Pos3| !#[trigger] framing(e, region, position, to) {
        lemma_unframed(e, region, position);
    }
}

/// A client's despawn gives its entity back: the region that answered for it is
/// told once, no position of its waits any longer and it is marked as given
/// back; one no region has answered for is forgotten, handle and all, and
/// nothing is said.
pub proof fn law_a_client_despawn_gives_back(
    e: Edge,
    client: ClientId,
    handle: EntityHandle,
    key: u64,
)
    requires
        spent(e, client, handle),
        e.clients[client.0].handles[handle.0 as u64] == key,
        e.by_key.contains_key(key),
        e.by_key[key].client == Some(client),
        e.by_key[key].handle == Some(handle),
        e.counters.commands < u64::MAX,
    ensures
        ({
            let after = e.heard(client, FromClient::Despawn { handle }).0;
            let held = e.by_key[key];
            &&& after.counters.commands == e.counters.commands + 1
            &&& after.next_key == e.next_key
            &&& match held.id {
                Some(id) => {
                    &&& after.out == e.out.push(Effect::Tell(Outgoing::Despawn(held.region, id)))
                    &&& after.by_key == e.by_key.insert(
                        key,
                        Held { pending: None, doomed: true, ..held },
                    )
                    &&& after.moves == e.moves.remove(
                        (held.region.0 * 0x1_0000_0000 + id.0) as u64,
                    )
                    &&& after.clients == e.clients
                    &&& after.by_id == e.by_id
                },
                None => {
                    &&& after.out == e.out
                    &&& after.by_key == e.by_key.remove(key)
                    &&& after.moves == e.moves
                    &&& after.by_id == e.by_id
                    &&& !spent(after, client, handle)
                    &&& forall|k: EntityKey|
                        #[trigger] after.clients[client.0].keys.contains(k) ==> k.0 != key
                },
            }
        }),
{
    if e.by_key[key].id is None {
        lemma_without_gone(e.clients[client.0].keys, EntityKey(key));
    }
}

proof fn lemma_without_gone(keys: Seq<EntityKey>, key: EntityKey)
    ensures
        forall|k: EntityKey| #[trigger]
            crate::net::edge::model::without(keys, key).contains(k) <==> keys.contains(k) && k
                != key,
    decreases keys.len(),
{
    if keys.len() > 0 {
        let front = keys.drop_last();
        let last = keys.last();
        lemma_without_gone(front, key);
        let rest = crate::net::edge::model::without(front, key);
        assert(keys =~= front.push(last));
        assert forall|k: EntityKey| #[trigger]
            crate::net::edge::model::without(keys, key).contains(k) <==> keys.contains(k) && k
                != key by {
            vstd::seq_lib::lemma_seq_contains_after_push(front, last, k);
            vstd::seq_lib::lemma_seq_contains_after_push(rest, last, k);
        }
    }
}

/// What a client sends to the game goes to the game as it was sent, under the
/// client's name, and to nobody else.
pub proof fn law_a_client_message_goes_to_the_game(e: Edge, client: ClientId, body: Vec<u8>)
    requires
        e.counters.commands < u64::MAX,
    ensures
        ({
            let after = e.heard(client, FromClient::Message(body)).0;
            &&& after.out == e.out.push(Effect::Game(Notice::Message(client, body@)))
            &&& after == (Edge { counters: counted(e).counters, out: after.out, ..e })
            &&& e.heard(client, FromClient::Message(body)).1 is None
        }),
{
}

/// What a client says to one of its entities goes to the region that entity is
/// in, as it was said, and is remembered as the last thing said to it; in
/// transit it is held behind what was said before.
pub proof fn law_a_client_entity_message_goes_to_its_region(
    e: Edge,
    client: ClientId,
    handle: EntityHandle,
    body: Vec<u8>,
    key: u64,
)
    requires
        spent(e, client, handle),
        e.clients[client.0].handles[handle.0 as u64] == key,
        e.by_key.contains_key(key),
        e.counters.commands < u64::MAX,
    ensures
        ({
            let after = e.heard(client, FromClient::EntityMessage { handle, body }).0;
            let held = e.by_key[key];
            let kept = after.by_key[key];
            &&& after == (Edge {
                counters: counted(e).counters,
                out: after.out,
                by_key: after.by_key,
                ..e
            })
            &&& after.by_key == e.by_key.insert(key, kept)
            &&& if held.doomed {
                kept == held && after.out == e.out
            } else if let Some(passage) = held.transition {
                &&& after.out == e.out
                &&& kept == (Held {
                    standing: Some(body@),
                    transition: Some(
                        Passage {
                            to: passage.to,
                            dest: passage.dest,
                            held_move: passage.held_move,
                            held_messages: passage.held_messages.push(body@),
                        },
                    ),
                    ..held
                })
            } else {
                &&& kept == (Held { standing: Some(body@), ..held })
                &&& after.out == match held.id {
                    Some(id) => e.out.push(
                        Effect::Tell(Outgoing::Message(held.region, id, body@)),
                    ),
                    None => e.out,
                }
            }
        }),
{
    assert(e.by_key.insert(key, e.by_key[key]) =~= e.by_key);
}

/// A message or a despawn or a teleport of a handle the client has nothing
/// under is refused.
pub proof fn law_a_handle_that_names_nothing_is_refused(
    e: Edge,
    client: ClientId,
    handle: EntityHandle,
    body: Vec<u8>,
    region: RegionId,
    at: WorldPos,
)
    requires
        !spent(e, client, handle),
        e.counters.commands < u64::MAX,
        e.counters.refused < u64::MAX,
    ensures
        only_counted(e, e.heard(client, FromClient::Despawn { handle }).0, 1, 0),
        only_counted(e, e.heard(client, FromClient::EntityMessage { handle, body }).0, 1, 0),
        only_counted(e, e.heard(client, FromClient::Teleport { handle, at }).0, 1, 0),
        only_counted(e, e.heard(client, FromClient::TeleportInto { handle, region, at }).0, 1, 0),
        e.heard(client, FromClient::Teleport { handle, at }).1 is None,
        e.heard(client, FromClient::TeleportInto { handle, region, at }).1 is None,
{
}

/// Whether a departure is that of an entity bound for a place in another
/// region.
pub open spec fn bound_for(
    e: Edge,
    d: Departure,
    key: u64,
    dest: RegionId,
    local: Pos3,
    at: WorldPos,
) -> bool {
    let held = e.by_key[key];
    &&& d.key == EntityKey(key) && d.client == held.client && d.kind == held.kind
    &&& d.name == held.name && d.from == held.region && d.dest == dest
    &&& d.position == local && d.at == at
}

/// Whether an entity may leave for a region: it is held, not given back, not in
/// transit and not there already.
pub open spec fn may_leave(e: Edge, key: u64, dest: RegionId) -> bool {
    &&& e.by_key.contains_key(key)
    &&& !e.by_key[key].doomed
    &&& e.by_key[key].transition is None
    &&& e.by_key[key].region != dest
}

/// Whether hearing a teleport comes to a departure for the game to decide on,
/// with nothing changed yet, or to the client hearing at once that it failed.
pub open spec fn leaves_or_fails(
    e: Edge,
    heard: (Edge, Option<Departure>),
    client: ClientId,
    handle: EntityHandle,
    key: u64,
    dest: RegionId,
    local: Pos3,
    at: WorldPos,
) -> bool {
    if may_leave(e, key, dest) {
        &&& heard.0 == counted(e)
        &&& heard.1 is Some
        &&& bound_for(e, heard.1->0, key, dest, local, at)
    } else {
        &&& heard.1 is None
        &&& heard.0.out == e.out.push(
            Effect::Post(client, ToClient::TeleportFailed { handle, region: dest }),
        )
        &&& heard.0 == (Edge { out: heard.0.out, ..counted(e) })
    }
}

/// A client's teleport is bound for the placed region its position is inside,
/// at its offset there, and one into a region the client names for its position
/// in that region's frame; one that cannot leave fails at once, and one no
/// region can take is off the map.
pub proof fn law_a_client_teleport_is_bound_for_where_it_says(
    e: Edge,
    client: ClientId,
    handle: EntityHandle,
    region: RegionId,
    at: WorldPos,
    key: u64,
    local: Pos3,
)
    requires
        charted(e),
        spent(e, client, handle),
        e.clients[client.0].handles[handle.0 as u64] == key,
        e.counters.commands < u64::MAX,
        e.counters.off_map < u64::MAX,
    ensures
        within(e, region, at, local) ==> leaves_or_fails(
            e,
            e.heard(client, FromClient::Teleport { handle, at }),
            client,
            handle,
            key,
            region,
            local,
            at,
        ),
        framing(e, region, at, local) ==> leaves_or_fails(
            e,
            e.heard(client, FromClient::TeleportInto { handle, region, at }),
            client,
            handle,
            key,
            region,
            local,
            at,
        ),
        nowhere(e, at) ==> only_counted(
            e,
            e.heard(client, FromClient::Teleport { handle, at }).0,
            0,
            1,
        ),
        (forall|to: Pos3| !#[trigger] framing(e, region, at, to)) ==> only_counted(
            e,
            e.heard(client, FromClient::TeleportInto { handle, region, at }).0,
            0,
            1,
        ),
        (FromClient::Teleport { handle, at }).leaving() == Some(handle),
        (FromClient::TeleportInto { handle, region, at }).leaving() == Some(handle),
{
    let now = counted(e);
    assert(now.located(at) == e.located(at));
    assert(now.spot_in(region, at) == e.spot_in(region, at));
    if within(e, region, at, local) {
        lemma_within(e, region, at, local);
    }
    lemma_framing(e, region, at, local);
    if nowhere(e, at) {
        lemma_nowhere(e, at);
    }
    if forall|to: Pos3| !#[trigger] framing(e, region, at, to) {
        lemma_unframed(e, region, at);
    }
}

// ---------------------------------------------------------------------------
// What a region reports
// ---------------------------------------------------------------------------

/// A region's answer to a spawn settles the entity: from then on the edge knows
/// it by the region's own id, the position it was last asked to be at waits to
/// be sent, its client hears the id under its own handle, and the game hears of
/// it, if it is no shadow.
pub proof fn law_an_answer_settles_an_entity(
    e: Edge,
    region: RegionId,
    entity: EntityId,
    token: u64,
)
    requires
        e.by_key.contains_key(token),
        e.by_key[token].replaces is None,
    ensures
        ({
            let after = e.reported(region, Report::Added { entity, token }).0;
            let held = e.by_key[token];
            let slot = (region.0 * 0x1_0000_0000 + entity.0) as u64;
            let posted: Seq<Said> = match (held.client, held.handle) {
                (Some(client), Some(handle)) => seq![
                    Effect::<Seq<u8>>::Post(client, ToClient::Spawned { handle, region, entity }),
                ],
                _ => Seq::empty(),
            };
            let noted: Seq<Said> = if held.shadow_of is None {
                seq![
                    Effect::<Seq<u8>>::Game(
                        Notice::Spawned(EntityKey(token), held.client, region, entity),
                    ),
                ]
            } else {
                Seq::empty()
            };
            &&& after.by_id == e.by_id.insert(slot, token)
            &&& after.by_key == e.by_key.insert(
                token,
                Held { id: Some(entity), pending: None, ..held },
            )
            &&& after.moves == match held.pending {
                Some(to) => e.moves.insert(slot, to),
                None => e.moves,
            }
            &&& after.out == e.out + posted + noted
            &&& after == (Edge {
                by_id: after.by_id,
                by_key: after.by_key,
                moves: after.moves,
                out: after.out,
                ..e
            })
            &&& e.reported(region, Report::Added { entity, token }).1 is None
        }),
{
    let after = e.reported(region, Report::Added { entity, token }).0;
    let held = e.by_key[token];
    let posted: Seq<Said> = match (held.client, held.handle) {
        (Some(client), Some(handle)) => seq![
            Effect::<Seq<u8>>::Post(client, ToClient::Spawned { handle, region, entity }),
        ],
        _ => Seq::empty(),
    };
    let noted: Seq<Said> = if held.shadow_of is None {
        seq![
            Effect::<Seq<u8>>::Game(
                Notice::Spawned(EntityKey(token), held.client, region, entity),
            ),
        ]
    } else {
        Seq::empty()
    };
    assert(after.out =~= e.out + posted + noted);
}

/// A region that reports an entity nobody asked for any more is told to give it
/// back, and nothing is kept of it.
pub proof fn law_an_answer_nobody_waits_for_is_given_back(
    e: Edge,
    region: RegionId,
    entity: EntityId,
    token: u64,
)
    requires
        !e.by_key.contains_key(token),
    ensures
        ({
            let after = e.reported(region, Report::Added { entity, token }).0;
            &&& after.out == e.out.push(Effect::Tell(Outgoing::Despawn(region, entity)))
            &&& after == (Edge { out: after.out, ..e })
        }),
{
}

/// Whether an edge holds an entity under what a region calls it.
pub open spec fn knows(e: Edge, region: RegionId, entity: EntityId, key: u64) -> bool {
    let slot = (region.0 * 0x1_0000_0000 + entity.0) as u64;
    &&& e.by_id.contains_key(slot)
    &&& e.by_id[slot] == key
    &&& e.by_key.contains_key(key)
}

/// Whether each of several entities that was held has been given back: forgotten
/// if its region had not answered for it, and marked if it had.
pub open spec fn gave_back(e: Edge, after: Edge, keys: Seq<EntityKey>) -> bool {
    forall|s: EntityKey| #[trigger]
        keys.contains(s) && e.by_key.contains_key(s.0) ==> if e.by_key[s.0].id is Some {
            after.by_key.contains_key(s.0) && after.by_key[s.0].doomed
        } else {
            !after.by_key.contains_key(s.0)
        }
}

/// The despawns that giving several entities back says: one for each its region
/// had answered for, in order.
pub open spec fn despawns(e: Edge, keys: Seq<EntityKey>) -> Seq<Said> {
    keys.filter(
        |s: EntityKey| e.by_key.contains_key(s.0) && e.by_key[s.0].id is Some,
    ).map_values(
        |s: EntityKey|
            Effect::<Seq<u8>>::Tell(Outgoing::Despawn(e.by_key[s.0].region, e.by_key[s.0].id->0)),
    )
}

/// When a view no longer reaches past its region, the observer has no shadows:
/// each it had is given back, and nothing else is said.
pub proof fn law_a_view_that_clears_gives_every_shadow_back(
    e: Edge,
    region: RegionId,
    entity: EntityId,
    key: u64,
)
    requires
        e.sound(),
        knows(e, region, entity, key),
        e.by_key[key].shadow_of is None,
    ensures
        ({
            let after = e.reported(region, Report::ViewCleared { entity }).0;
            let had = e.by_key[key].shadows;
            &&& after.by_key.contains_key(key)
            &&& after.by_key[key] == (Held { shadows: Seq::empty(), ..e.by_key[key] })
            &&& gave_back(e, after, had)
            &&& after.out == e.out + despawns(e, had)
            &&& forall|k: u64| #[trigger]
                e.by_key.contains_key(k) && k != key && !had.contains(EntityKey(k))
                    ==> after.by_key.contains_key(k) && after.by_key[k] == e.by_key[k]
        }),
{
    let had = e.by_key[key].shadows;
    let listed = e.listing(EntityKey(key), Seq::empty());
    let after = e.reported(region, Report::ViewCleared { entity }).0;
    assert(e.known(region, entity) == Some(EntityKey(key)));
    assert(after == listed.released_all(had));
    crate::net::edge::laws::lemma_back(listed, had);
    crate::net::edge::laws::lemma_all_back_said(listed, had);
    assert(e.attended(key));
    assert(!had.contains(EntityKey(key)));
    crate::net::edge::laws::lemma_unmarked(listed, had, EntityKey(key));
    lemma_same_despawns(e, listed, had);
    assert forall|k: u64| #[trigger]
        e.by_key.contains_key(k) && k != key && !had.contains(
            EntityKey(k),
        ) implies after.by_key.contains_key(k) && after.by_key[k] == e.by_key[k] by {
        crate::net::edge::laws::lemma_unmarked(listed, had, EntityKey(k));
    }
    assert forall|s: EntityKey| #[trigger]
        had.contains(s) && e.by_key.contains_key(s.0) implies if e.by_key[s.0].id is Some {
        after.by_key.contains_key(s.0) && after.by_key[s.0].doomed
    } else {
        !after.by_key.contains_key(s.0)
    } by {
        assert(s.0 != key);
        assert(listed.by_key.contains_key(s.0));
    }
}

/// What is said of entities that two edges hold alike is the same.
proof fn lemma_same_despawns(a: Edge, b: Edge, keys: Seq<EntityKey>)
    requires
        forall|s: EntityKey| #[trigger]
            keys.contains(s) ==> a.by_key.contains_key(s.0) == b.by_key.contains_key(s.0)
                && a.by_key[s.0].id == b.by_key[s.0].id && a.by_key[s.0].region
                == b.by_key[s.0].region,
    ensures
        despawns(a, keys) == despawns(b, keys),
    decreases keys.len(),
{
    reveal(Seq::filter);
    if keys.len() > 0 {
        let front = keys.drop_last();
        let last = keys.last();
        assert(keys[keys.len() - 1] == last);
        assert(keys.contains(last));
        assert forall|s: EntityKey| #[trigger] front.contains(s) implies a.by_key.contains_key(s.0)
            == b.by_key.contains_key(s.0) && a.by_key[s.0].id == b.by_key[s.0].id
            && a.by_key[s.0].region == b.by_key[s.0].region by {
            let i = choose|i: int| 0 <= i < front.len() && front[i] == s;
            assert(keys[i] == s);
            assert(keys.contains(s));
        }
        lemma_same_despawns(a, b, front);
        lemma_despawns_push(a, keys);
        lemma_despawns_push(b, keys);
    } else {
        assert(despawns(a, keys) =~= despawns(b, keys));
    }
}

proof fn lemma_despawns_push(e: Edge, keys: Seq<EntityKey>)
    requires
        keys.len() > 0,
    ensures
        ({
            let last = keys.last();
            despawns(e, keys) == if e.by_key.contains_key(last.0) && e.by_key[last.0].id is Some {
                despawns(e, keys.drop_last()).push(
                    Effect::<Seq<u8>>::Tell(
                        Outgoing::Despawn(e.by_key[last.0].region, e.by_key[last.0].id->0),
                    ),
                )
            } else {
                despawns(e, keys.drop_last())
            }
        }),
{
    reveal(Seq::filter);
    let last = keys.last();
    let given = |s: EntityKey| e.by_key.contains_key(s.0) && e.by_key[s.0].id is Some;
    let told = |s: EntityKey|
        Effect::<Seq<u8>>::Tell(Outgoing::Despawn(e.by_key[s.0].region, e.by_key[s.0].id->0));
    if given(last) {
        assert(keys.filter(given).map_values(told) =~= keys.drop_last().filter(given).map_values(
            told,
        ).push(told(last)));
    }
}

/// An entity its region reports gone is no longer held or known by the id it
/// had; its shadows are given back; its client hears it is gone, under its own
/// handle, and then the game does; and where it was the last of a client that
/// is leaving, the game hears that the client has gone.
pub proof fn law_a_removal_is_told_to_client_and_game(
    e: Edge,
    region: RegionId,
    entity: EntityId,
    key: u64,
)
    requires
        e.sound(),
        knows(e, region, entity, key),
        e.by_key[key].shadow_of is None,
        e.by_key[key].region == region,
        e.by_key[key].id == Some(entity),
    ensures
        ({
            let after = e.reported(region, Report::Removed { entity }).0;
            let held = e.by_key[key];
            let posted: Seq<Said> = match (held.client, held.handle) {
                (Some(client), Some(handle)) => seq![
                    Effect::<Seq<u8>>::Post(client, ToClient::Removed { handle }),
                ],
                _ => Seq::empty(),
            };
            let noted: Seq<Said> = seq![
                Effect::<Seq<u8>>::Game(Notice::Removed(EntityKey(key), held.client)),
            ];
            let ended: Seq<Said> = match held.client {
                Some(client) => if e.clients.contains_key(client.0) && !after.clients.contains_key(
                    client.0,
                ) {
                    seq![Effect::<Seq<u8>>::Game(Notice::Disconnected(client))]
                } else {
                    Seq::empty()
                },
                None => Seq::empty(),
            };
            &&& !after.by_key.contains_key(key)
            &&& !after.by_id.contains_key((region.0 * 0x1_0000_0000 + entity.0) as u64)
            &&& gave_back(e, after, held.shadows)
            &&& after.out == e.out + despawns(e, held.shadows) + posted + noted + ended
            &&& match held.client {
                Some(client) => !after.clients.contains_key(client.0) && e.clients.contains_key(
                    client.0,
                ) ==> e.clients[client.0].leaving,
                None => true,
            }
        }),
{
    let after = e.reported(region, Report::Removed { entity }).0;
    let held = e.by_key[key];
    let now = e.forgotten(EntityKey(key));
    let bare = now.released_all(held.shadows);
    assert(e.known(region, entity) == Some(EntityKey(key)));
    assert(e.attended(key));
    assert(!held.shadows.contains(EntityKey(key)));
    crate::net::edge::laws::lemma_back(now, held.shadows);
    crate::net::edge::laws::lemma_all_back_said(now, held.shadows);
    assert forall|s: EntityKey| #[trigger] held.shadows.contains(s) implies e.by_key.contains_key(
        s.0,
    ) == now.by_key.contains_key(s.0) && e.by_key[s.0].id == now.by_key[s.0].id
        && e.by_key[s.0].region == now.by_key[s.0].region by {}
    lemma_same_despawns(e, now, held.shadows);
    let _ = crate::net::edge::laws::lemma_freed(now, held.shadows);
    crate::net::edge::laws::lemma_clients_stay(now, held.shadows);
    assert(after.by_key == bare.by_key);
    assert(after.by_id == bare.by_id);
    let posted: Seq<Said> = match (held.client, held.handle) {
        (Some(client), Some(handle)) => seq![
            Effect::<Seq<u8>>::Post(client, ToClient::Removed { handle }),
        ],
        _ => Seq::empty(),
    };
    let noted: Seq<Said> = seq![
        Effect::<Seq<u8>>::Game(Notice::Removed(EntityKey(key), held.client)),
    ];
    let ended: Seq<Said> = match held.client {
        Some(client) => if e.clients.contains_key(client.0) && !after.clients.contains_key(
            client.0,
        ) {
            seq![Effect::<Seq<u8>>::Game(Notice::Disconnected(client))]
        } else {
            Seq::empty()
        },
        None => Seq::empty(),
    };
    assert(after.out =~= e.out + despawns(e, held.shadows) + posted + noted + ended);
    assert forall|s: EntityKey| #[trigger]
        held.shadows.contains(s) && e.by_key.contains_key(s.0) implies if e.by_key[s.0].id is Some {
        after.by_key.contains_key(s.0) && after.by_key[s.0].doomed
    } else {
        !after.by_key.contains_key(s.0)
    } by {
        assert(now.by_key.contains_key(s.0));
    }
}

/// A shadow its region reports gone leaves its owner's list, and nobody hears
/// of it.
pub proof fn law_a_shadow_reported_gone_leaves_its_owners_list(
    e: Edge,
    region: RegionId,
    entity: EntityId,
    key: u64,
    owner: EntityKey,
)
    requires
        knows(e, region, entity, key),
        e.by_key[key].shadow_of == Some(owner),
        owner.0 != key,
        e.by_key.contains_key(owner.0),
    ensures
        ({
            let after = e.reported(region, Report::Removed { entity }).0;
            let had = e.by_key[owner.0].shadows;
            &&& after.out == e.out
            &&& !after.by_key.contains_key(key)
            &&& after.by_key.contains_key(owner.0)
            &&& forall|s: EntityKey| #[trigger]
                after.by_key[owner.0].shadows.contains(s) <==> had.contains(s) && s.0 != key
            &&& after.by_key[owner.0] == (Held {
                shadows: after.by_key[owner.0].shadows,
                ..e.by_key[owner.0]
            })
            &&& forall|k: u64| #[trigger]
                e.by_key.contains_key(k) && k != key && k != owner.0 ==> after.by_key.contains_key(
                    k,
                ) && after.by_key[k] == e.by_key[k]
        }),
{
    assert(e.known(region, entity) == Some(EntityKey(key)));
    lemma_without_gone(e.by_key[owner.0].shadows, EntityKey(key));
}

/// An entity that reaches its region's box is put to the game as a departure for
/// the placed region its target is inside, at its offset there, and nothing is
/// changed yet; where no region is, it has hit a wall, which is counted and
/// said to nobody.
pub proof fn law_a_boundary_collision_is_a_departure_or_a_wall(
    e: Edge,
    region: RegionId,
    entity: EntityId,
    target: Pos3,
    key: u64,
    square: Placement,
    at: WorldPos,
    dest: RegionId,
    local: Pos3,
)
    requires
        charted(e),
        knows(e, region, entity, key),
        e.by_key[key].shadow_of is None,
        !e.by_key[key].doomed,
        e.by_key[key].transition is None,
        e.by_key[key].region == region,
        e.map.contains((region, square)),
        e.region_size is Some,
        at.x == square.col * (e.region_size->0).0 + target.x.0,
        at.y == square.row * (e.region_size->0).0 + target.y.0,
        at.z == target.z.0,
        e.counters.walls < u64::MAX,
    ensures
        ({
            let r = e.reported(region, Report::BoundaryCollision { entity, target });
            &&& within(e, dest, at, local) && dest != region ==> r.0 == e && r.1 is Some
                && bound_for(e, r.1->0, key, dest, local, at)
            &&& nowhere(e, at) || (within(e, dest, at, local) && dest == region) ==> {
                &&& r.1 is None
                &&& r.0.counters == (Counters {
                    walls: (e.counters.walls + 1) as u64,
                    ..e.counters
                })
                &&& r.0 == (Edge { counters: r.0.counters, ..e })
            }
        }),
{
    let size = e.region_size->0;
    assert(e.known(region, entity) == Some(EntityKey(key)));
    crate::map::law_a_placed_region_has_one_square(e.map, region, square);
    crate::pos::law_a_frame_is_an_offset(at, square, size, target);
    assert(WorldPos::of_local(target, square, size) == at);
    if within(e, dest, at, local) {
        lemma_within(e, dest, at, local);
    }
    if nowhere(e, at) {
        lemma_nowhere(e, at);
    }
}

/// A shadow, an entity given back and one in transit already hit nothing, and a
/// collision of an entity the edge does not hold, or in a region off the map,
/// asks the game nothing.
pub proof fn law_a_collision_that_asks_nothing(
    e: Edge,
    region: RegionId,
    entity: EntityId,
    target: Pos3,
    key: u64,
)
    requires
        e.counters.walls < u64::MAX,
    ensures
        ({
            let r = e.reported(region, Report::BoundaryCollision { entity, target });
            let slot = (region.0 * 0x1_0000_0000 + entity.0) as u64;
            &&& !e.by_id.contains_key(slot) ==> r.0 == e && r.1 is None
            &&& knows(e, region, entity, key) && (e.by_key[key].shadow_of is Some
                || e.by_key[key].doomed || e.by_key[key].transition is Some) ==> r.0 == e && r.1
                is None
            &&& knows(e, region, entity, key) && !(e.by_key[key].shadow_of is Some
                || e.by_key[key].doomed || e.by_key[key].transition is Some) && (e.region_size
                is None || forall|p: Placement| !#[trigger] e.map.contains((region, p))) ==> {
                &&& r.1 is None
                &&& r.0.counters == (Counters {
                    walls: (e.counters.walls + 1) as u64,
                    ..e.counters
                })
                &&& r.0 == (Edge { counters: r.0.counters, ..e })
            }
        }),
{
    if forall|p: Placement| !#[trigger] e.map.contains((region, p)) {
        assert(crate::map::square_of(e.map, region) is None);
    }
}

// ---------------------------------------------------------------------------
// What an edge knows
// ---------------------------------------------------------------------------

/// Where an edge finds a world position is where the map and the size of a
/// region put it: in the square it is inside, and in a named region's frame at
/// its offset from that region's corner.
pub proof fn law_an_edge_finds_a_position_where_the_map_puts_it(
    e: Edge,
    region: RegionId,
    at: WorldPos,
    to: Pos3,
)
    requires
        charted(e),
    ensures
        e.framed(region, at) == Some(to) <==> framing(e, region, at, to),
        within(e, region, at, to) ==> e.located(at) == Some((region, to)),
        nowhere(e, at) ==> e.located(at) is None,
        e.region_size is None ==> e.located(at) is None,
{
    lemma_framing(e, region, at, to);
    if within(e, region, at, to) {
        lemma_within(e, region, at, to);
    }
    if nowhere(e, at) {
        lemma_nowhere(e, at);
    }
}

/// An entity's place in a region is one number that is no other's: the region's
/// id above the entity's.
pub proof fn law_a_seat_is_one_entitys(a: RegionId, i: EntityId, b: RegionId, j: EntityId)
    ensures
        crate::net::edge::model::seat(a, i) == a.0 * 0x1_0000_0000 + i.0,
        crate::net::edge::model::seat(a, i) == crate::net::edge::model::seat(b, j) <==> a == b && i
            == j,
{
}

/// A packet built for an entity goes to its client, under the handle that
/// client has for it, and one built for a shadow to the client of the entity it
/// stands in for, under the handle for that one. One built for an entity nobody
/// holds, or nobody has a handle for, goes to nobody.
pub proof fn law_a_packet_goes_to_whoever_sees_through_it(
    e: Edge,
    region: RegionId,
    entity: EntityId,
    key: u64,
)
    ensures
        !e.by_id.contains_key((region.0 * 0x1_0000_0000 + entity.0) as u64) ==> e.recipient(
            region,
            entity,
        ) is None,
        knows(e, region, entity, key) ==> ({
            let held = e.by_key[key];
            let seer = match held.shadow_of {
                Some(owner) => owner.0,
                None => key,
            };
            match e.recipient(region, entity) {
                Some((client, handle)) => e.by_key.contains_key(seer) && e.by_key[seer].client
                    == Some(client) && e.by_key[seer].handle == Some(handle),
                None => !e.by_key.contains_key(seer) || e.by_key[seer].client is None
                    || e.by_key[seer].handle is None,
            }
        }),
{
}

/// What an edge says of an entity it holds is what its record says: whose it is
/// and, once its region has answered, where it is and under which id; of one it
/// does not hold it says nothing. What it says a client holds is what is on
/// that client's list, in order, without the shadows.
pub proof fn law_what_an_edge_says_of_an_entity(
    e: Edge,
    key: EntityKey,
    client: ClientId,
    handle: EntityHandle,
)
    ensures
        e.owner_of(key) is Some ==> e.by_key.contains_key(key.0) && e.by_key[key.0].client
            == e.owner_of(key),
        e.owner_of(key) is None ==> !e.by_key.contains_key(key.0) || e.by_key[key.0].client is None,
        match e.id_of(key) {
            Some((region, id)) => e.by_key.contains_key(key.0) && e.by_key[key.0].region == region
                && e.by_key[key.0].id == Some(id),
            None => !e.by_key.contains_key(key.0) || e.by_key[key.0].id is None,
        },
        match e.named(client, handle) {
            Some(k) => spent(e, client, handle) && e.clients[client.0].handles[handle.0 as u64]
                == k.0,
            None => !spent(e, client, handle),
        },
        e.listed(e.clients[client.0].keys) == e.clients[client.0].keys.filter(
            |k: EntityKey| !(e.by_key.contains_key(k.0) && e.by_key[k.0].shadow_of is Some),
        ),
{
    lemma_listed_filter(e, e.clients[client.0].keys);
}

proof fn lemma_listed_filter(e: Edge, keys: Seq<EntityKey>)
    ensures
        e.listed(keys) == keys.filter(
            |k: EntityKey| !(e.by_key.contains_key(k.0) && e.by_key[k.0].shadow_of is Some),
        ),
    decreases keys.len(),
{
    reveal(Seq::filter);
    if keys.len() > 0 {
        lemma_listed_filter(e, keys.drop_last());
    }
}

/// What a region says it runs is kept as it said it, and the first placed
/// region to say so settles how big a region is, for good.
pub proof fn law_the_first_placed_region_sets_the_size(
    e: Edge,
    region: RegionId,
    world: crate::net::edge::model::RegionWorld,
)
    ensures
        ({
            let after = e.learned(region, world);
            let placed = exists|p: Placement| #[trigger] e.map.contains((region, p));
            &&& after.worlds == e.worlds.insert(region.0 as u64, world)
            &&& e.region_size is Some || !placed ==> after.region_size == e.region_size
            &&& e.region_size is None && placed ==> after.region_size == Some(
                Fixed(world.config@.region_size as i32),
            )
            &&& after == (Edge { worlds: after.worlds, region_size: after.region_size, ..e })
        }),
{
}

/// A client that connects gets a name nobody has had, and starts with nothing.
pub proof fn law_a_client_starts_with_nothing(e: Edge)
    requires
        e.next_client < u64::MAX,
    ensures
        ({
            let after = e.connected();
            let party = after.clients[e.next_client];
            &&& after.clients == e.clients.insert(e.next_client, party)
            &&& party.handles.dom() == Set::<u64>::empty()
            &&& party.keys.len() == 0 && party.told.len() == 0 && !party.leaving
            &&& after.next_client == e.next_client + 1
            &&& after == (Edge { clients: after.clients, next_client: after.next_client, ..e })
        }),
{
    assert(Party::fresh().handles.dom() =~= Set::<u64>::empty());
}

/// Whether a client holds something in a region and has not been told how to
/// read what that region sends.
pub open spec fn untold(e: Edge, client: u64, region: RegionId) -> bool {
    &&& e.clients.contains_key(client)
    &&& !e.clients[client].told.contains(region)
    &&& exists|key: u64| #[trigger]
        e.by_key.contains_key(key) && e.by_key[key].client == Some(ClientId(client))
            && e.by_key[key].region == region
}

/// What several clients are told of a region: each that holds something there
/// and had not been told, once, in order.
proof fn lemma_told_in_turn(e: Edge, clients: Seq<u64>, region: RegionId)
    requires
        clients.no_duplicates(),
        forall|i: int| 0 <= i < clients.len() ==> e.clients.contains_key(#[trigger] clients[i]),
    ensures
        ({
            let after = e.all_told(clients, region);
            &&& after.by_key == e.by_key
            &&& after.worlds == e.worlds
            &&& after == (Edge { clients: after.clients, out: after.out, ..e })
            &&& after.clients.dom() == e.clients.dom()
            &&& after.out == e.out + clients.filter(
                |c: u64| untold(e, c, region),
            ).map_values(
                |c: u64|
                    Effect::<Seq<u8>>::Post(
                        ClientId(c),
                        ToClient::Region(e.worlds[region.0 as u64].info),
                    ),
            )
            &&& forall|c: u64| #[trigger]
                e.clients.contains_key(c) ==> after.clients[c] == if clients.contains(c) && untold(
                    e,
                    c,
                    region,
                ) {
                    Party { told: e.clients[c].told.push(region), ..e.clients[c] }
                } else {
                    e.clients[c]
                }
        }),
    decreases clients.len(),
{
    reveal(Seq::filter);
    let needs = |c: u64| untold(e, c, region);
    let told = |c: u64|
        Effect::<Seq<u8>>::Post(ClientId(c), ToClient::Region(e.worlds[region.0 as u64].info));
    let after = e.all_told(clients, region);
    if clients.len() == 0 {
        assert(after.out =~= e.out + clients.filter(needs).map_values(told));
    } else {
        let front = clients.drop_last();
        let last = clients.last();
        assert(clients[clients.len() - 1] == last);
        assert(front.no_duplicates());
        assert forall|i: int| 0 <= i < front.len() implies e.clients.contains_key(
            #[trigger] front[i],
        ) by {
            assert(clients[i] == front[i]);
        }
        lemma_told_in_turn(e, front, region);
        let now = e.all_told(front, region);
        assert(after == now.told(last, region));
        assert(!front.contains(last)) by {
            if front.contains(last) {
                let i = choose|i: int| 0 <= i < front.len() && front[i] == last;
                assert(clients[i] == last);
            }
        }
        assert(e.clients.contains_key(last));
        assert(now.clients[last] == e.clients[last]);
        assert(now.in_region(last, region) == e.in_region(last, region));
        assert(untold(e, last, region) <==> now.in_region(last, region)
            && !now.clients[last].told.contains(region));
        assert(after.clients.dom() =~= e.clients.dom());
        if needs(last) {
            assert(clients.filter(needs).map_values(told) =~= front.filter(needs).map_values(
                told,
            ).push(told(last)));
            assert(after.out =~= e.out + clients.filter(needs).map_values(told));
        }
        assert forall|c: u64| #[trigger] e.clients.contains_key(c) implies after.clients[c]
            == if clients.contains(c) && untold(e, c, region) {
            Party { told: e.clients[c].told.push(region), ..e.clients[c] }
        } else {
            e.clients[c]
        } by {
            vstd::seq_lib::lemma_seq_contains_after_push(front, last, c);
            assert(clients =~= front.push(last));
        }
    }
}

/// Once a region has said what it runs, every client that holds something there
/// and has not been told is told it, once, in the order of their names, and is
/// not told again; before it has, nobody is.
pub proof fn law_every_client_that_needs_it_is_told_once(e: Edge, region: RegionId)
    requires
        e.clients.dom().finite(),
    ensures
        ({
            let after = e.informed(region);
            let order = crate::table::in_order(e.clients.dom());
            &&& !e.worlds.contains_key(region.0 as u64) ==> after == e
            &&& e.worlds.contains_key(region.0 as u64) ==> {
                &&& after.out == e.out + order.filter(
                    |c: u64| untold(e, c, region),
                ).map_values(
                    |c: u64|
                        Effect::<Seq<u8>>::Post(
                            ClientId(c),
                            ToClient::Region(e.worlds[region.0 as u64].info),
                        ),
                )
                &&& forall|c: u64| #[trigger]
                    e.clients.contains_key(c) ==> after.clients[c] == if untold(e, c, region) {
                        Party { told: e.clients[c].told.push(region), ..e.clients[c] }
                    } else {
                        e.clients[c]
                    }
                &&& after.informed(region).out == after.out
            }
        }),
{
    if e.worlds.contains_key(region.0 as u64) {
        let order = crate::table::in_order(e.clients.dom());
        let after = e.informed(region);
        crate::table::lemma_in_order_lists(e.clients.dom());
        lemma_ascending(order);
        assert forall|i: int| 0 <= i < order.len() implies e.clients.contains_key(
            #[trigger] order[i],
        ) by {
            assert(order.contains(order[i]));
            assert(order.to_set().contains(order[i]));
        }
        lemma_told_in_turn(e, order, region);
        assert forall|c: u64| #[trigger] e.clients.contains_key(c) implies order.contains(c) by {
            assert(order.to_set().contains(c));
        }
        assert forall|i: int| 0 <= i < order.len() implies after.clients.contains_key(
            #[trigger] order[i],
        ) by {
            assert(e.clients.contains_key(order[i]));
            assert(after.clients.dom().contains(order[i]));
        }
        lemma_told_in_turn(after, order, region);
        assert forall|c: u64| !#[trigger] untold(after, c, region) by {
            if untold(after, c, region) {
                assert(after.clients.dom().contains(c));
                assert(e.clients.contains_key(c));
                assert(after.clients[c].told.contains(region) || untold(e, c, region));
                if untold(e, c, region) {
                    let told = after.clients[c].told;
                    assert(told[told.len() - 1] == region);
                }
            }
        }
        lemma_none_filtered(order, |c: u64| untold(after, c, region));
        assert(after.informed(region).out =~= after.out);
    }
}

proof fn lemma_none_filtered(s: Seq<u64>, p: spec_fn(u64) -> bool)
    requires
        forall|c: u64| !#[trigger] p(c),
    ensures
        s.filter(p).len() == 0,
    decreases s.len(),
{
    reveal(Seq::filter);
    if s.len() > 0 {
        lemma_none_filtered(s.drop_last(), p);
    }
}

proof fn lemma_ascending(s: Seq<u64>)
    requires
        crate::table::ascending(s),
    ensures
        s.no_duplicates(),
{
}

// ---------------------------------------------------------------------------
// Going, and giving up
// ---------------------------------------------------------------------------

/// When a client goes, one despawn is said for each entity it held that a
/// region had answered for, in the order it got them; and if none had been
/// answered for, the game is told at once that it has gone.
pub proof fn law_a_client_that_goes_is_given_back_in_order(e: Edge, client: ClientId)
    requires
        e.sound(),
        e.clients.contains_key(client.0),
        !e.clients[client.0].leaving,
    ensures
        ({
            let after = e.swept(client);
            let keys = e.clients[client.0].keys;
            let ended: Seq<Said> = if after.clients.contains_key(client.0) {
                Seq::empty()
            } else {
                seq![Effect::<Seq<u8>>::Game(Notice::Disconnected(client))]
            };
            &&& after.out == e.out + despawns(e, keys) + ended
            &&& gave_back(e, after, keys)
            &&& after.clients.contains_key(client.0) ==> after.clients[client.0].leaving
            &&& despawns(e, keys).len() > 0 ==> after.clients.contains_key(client.0)
        }),
{
    let party = e.clients[client.0];
    let keys = party.keys;
    let marked = Edge {
        clients: e.clients.insert(client.0, Party { leaving: true, ..party }),
        ..e
    };
    let back = marked.released_all(keys);
    let after = e.swept(client);
    crate::net::edge::laws::lemma_back(marked, keys);
    crate::net::edge::laws::lemma_all_back_said(marked, keys);
    crate::net::edge::laws::lemma_clients_stay(marked, keys);
    lemma_same_despawns(e, marked, keys);
    assert(marked.clients.contains_key(client.0));
    assert(back.clients.contains_key(client.0) && back.clients[client.0].leaving);
    assert(after == back.finished(client));
    let ended: Seq<Said> = if after.clients.contains_key(client.0) {
        Seq::empty()
    } else {
        seq![Effect::<Seq<u8>>::Game(Notice::Disconnected(client))]
    };
    assert(after.out =~= e.out + despawns(e, keys) + ended);
    if despawns(e, keys).len() > 0 {
        let s = lemma_one_despawned(e, keys);
        crate::net::edge::laws::lemma_listed_stays(marked, keys, client, s);
        assert(back.clients[client.0].keys.contains(s));
    }
}

proof fn lemma_one_despawned(e: Edge, keys: Seq<EntityKey>) -> (s: EntityKey)
    requires
        despawns(e, keys).len() > 0,
    ensures
        keys.contains(s),
        e.by_key.contains_key(s.0),
        e.by_key[s.0].id is Some,
    decreases keys.len(),
{
    reveal(Seq::filter);
    if keys.len() == 0 {
        assert(despawns(e, keys).len() == 0);
        EntityKey(0)
    } else {
        let last = keys.last();
        assert(keys[keys.len() - 1] == last);
        lemma_despawns_push(e, keys);
        if e.by_key.contains_key(last.0) && e.by_key[last.0].id is Some {
            last
        } else {
            let s = lemma_one_despawned(e, keys.drop_last());
            let i = choose|i: int| 0 <= i < keys.drop_last().len() && keys.drop_last()[i] == s;
            assert(keys[i] == s);
            s
        }
    }
}

/// Teleports are given up when their deadline has come and not before: those
/// still waiting afterwards are exactly those whose deadline is later.
pub proof fn law_a_teleport_waits_until_its_deadline(e: Edge, now: u64)
    ensures
        e.expired(now).transits == e.transits.filter(|t: Transit| t.deadline > now),
        (forall|i: int| 0 <= i < e.transits.len() ==> (#[trigger] e.transits[i]).deadline > now)
            ==> e.expired(now) == e,
{
    lemma_due(e.transits, now);
    let waiting = Edge {
        transits: crate::net::edge::model::due(e.transits, now, false),
        ..e
    };
    lemma_given_up_transits(waiting, crate::net::edge::model::due(e.transits, now, true));
    if forall|i: int| 0 <= i < e.transits.len() ==> (#[trigger] e.transits[i]).deadline > now {
        lemma_none_due(e.transits, now);
        assert(waiting =~= e);
    }
}

proof fn lemma_due(transits: Seq<Transit>, now: u64)
    ensures
        crate::net::edge::model::due(transits, now, false) == transits.filter(
            |t: Transit| t.deadline > now,
        ),
        crate::net::edge::model::due(transits, now, true) == transits.filter(
            |t: Transit| t.deadline <= now,
        ),
    decreases transits.len(),
{
    reveal(Seq::filter);
    if transits.len() > 0 {
        lemma_due(transits.drop_last(), now);
    }
}

proof fn lemma_none_due(transits: Seq<Transit>, now: u64)
    requires
        forall|i: int| 0 <= i < transits.len() ==> (#[trigger] transits[i]).deadline > now,
    ensures
        crate::net::edge::model::due(transits, now, true).len() == 0,
        crate::net::edge::model::due(transits, now, false) == transits,
    decreases transits.len(),
{
    if transits.len() > 0 {
        let front = transits.drop_last();
        assert forall|i: int| 0 <= i < front.len() implies (#[trigger] front[i]).deadline > now by {
            assert(transits[i] == front[i]);
        }
        assert(transits[transits.len() - 1] == transits.last());
        lemma_none_due(front, now);
        assert(front.push(transits.last()) =~= transits);
    }
}

proof fn lemma_given_up_transits(e: Edge, transits: Seq<Transit>)
    ensures
        e.all_given_up(transits).transits == e.transits,
    decreases transits.len(),
{
    if transits.len() > 0 {
        lemma_given_up_transits(e, transits.drop_last());
        let now = e.all_given_up(transits.drop_last());
        let t = transits.last();
        if now.by_key.contains_key(t.from.0) {
            let held = now.by_key[t.from.0];
            if let Some(passage) = held.transition {
                let back = now.keeping(t.from, Held { transition: None, ..held });
                let gone = Edge { carried: back.carried.remove(t.to.0), ..back }.forgotten(t.to);
                let moved = match passage.held_move {
                    Some(at) => gone.world_placed(t.from, at),
                    None => gone,
                };
                assert(moved.transits == now.transits);
                if moved.by_key.contains_key(t.from.0) {
                    if let Some(id) = moved.by_key[t.from.0].id {
                        lemma_telling_transits(moved, held.region, id, passage.held_messages);
                    }
                }
            }
        }
    }
}

proof fn lemma_telling_transits(e: Edge, region: RegionId, id: EntityId, bodies: Seq<Seq<u8>>)
    ensures
        e.telling_all(region, id, bodies).transits == e.transits,
    decreases bodies.len(),
{
    if bodies.len() > 0 {
        lemma_telling_transits(e, region, id, bodies.drop_last());
    }
}

// ---------------------------------------------------------------------------
// Arrivals
// ---------------------------------------------------------------------------

proof fn lemma_not_toward(transits: Seq<Transit>, to: EntityKey)
    ensures
        crate::net::edge::model::not_toward(transits, to) == transits.filter(
            |t: Transit| t.to != to,
        ),
    decreases transits.len(),
{
    reveal(Seq::filter);
    if transits.len() > 0 {
        lemma_not_toward(transits.drop_last(), to);
    }
}

/// Giving entities back leaves the teleports in flight, the map and what is
/// known of regions.
proof fn lemma_flights_stay(e: Edge, keys: Seq<EntityKey>)
    ensures
        e.released_all(keys).transits == e.transits,
        e.released_all(keys).map == e.map,
        e.released_all(keys).region_size == e.region_size,
    decreases keys.len(),
{
    if keys.len() > 0 {
        lemma_flights_stay(e, keys.drop_last());
    }
}

/// Where the position an arrival waits at comes from: the last held in transit
/// if the destination's frame can hold it, or else the one asked for before.
proof fn lemma_carried_on(
    e: Edge,
    new: EntityKey,
    entity: EntityId,
    dest: RegionId,
    pending: Option<Pos3>,
    left: Held,
)
    ensures
        ({
            let after = e.forwarded(new, entity, dest, pending, left);
            let slot = (dest.0 * 0x1_0000_0000 + entity.0) as u64;
            let bare = match left.id {
                Some(id) => e.moves.remove((left.region.0 * 0x1_0000_0000 + id.0) as u64),
                None => e.moves,
            };
            let held = match left.transition {
                Some(passage) => match passage.held_move {
                    Some(at) => e.framed(dest, at),
                    None => None,
                },
                None => None,
            };
            &&& after.transits == e.transits
            &&& after.moves == match (held, pending) {
                (Some(to), _) => bare.insert(slot, to),
                (None, Some(to)) => bare.insert(slot, to),
                (None, None) => bare,
            }
        }),
{
    let gone = match left.id {
        Some(id) => Edge {
            moves: e.moves.remove(crate::net::edge::model::seat(left.region, id)),
            ..e
        }.telling(Outgoing::Despawn(left.region, id)),
        None => e,
    };
    let told = gone.queued_if(dest, entity, pending);
    let said = match left.standing {
        Some(body) => told.telling(Outgoing::Message(dest, entity, body)),
        None => told,
    };
    if let Some(passage) = left.transition {
        let at = match passage.held_move {
            Some(at) => said.framed(dest, at),
            None => None,
        };
        crate::net::edge::laws::lemma_counters_told(
            said.queued_if(dest, entity, at),
            dest,
            entity,
            passage.held_messages,
        );
    }
    let after = e.forwarded(new, entity, dest, pending, left);
    let slot = (dest.0 * 0x1_0000_0000 + entity.0) as u64;
    let bare = match left.id {
        Some(id) => e.moves.remove((left.region.0 * 0x1_0000_0000 + id.0) as u64),
        None => e.moves,
    };
    let held = match left.transition {
        Some(passage) => match passage.held_move {
            Some(at) => e.framed(dest, at),
            None => None,
        },
        None => None,
    };
    assert(after.moves =~= match (held, pending) {
        (Some(to), _) => bare.insert(slot, to),
        (None, Some(to)) => bare.insert(slot, to),
        (None, None) => bare,
    });
}

/// When the destination of a teleport confirms it, each shadow of the entity
/// that left is given back and its region told so; then the origin is told to
/// give the entity back and the destination what was said to it; then the
/// client and the game hear of the arrival. The teleport is no longer in
/// flight, and what the game packed for it is handed over.
pub proof fn law_an_arrival_leaves_nothing_behind(
    e: Edge,
    region: RegionId,
    entity: EntityId,
    token: u64,
)
    requires
        e.sound(),
        e.by_key.contains_key(token),
        e.by_key[token].replaces is Some,
        e.by_key.contains_key((e.by_key[token].replaces->0).0),
    ensures
        ({
            let after = e.reported(region, Report::Added { entity, token }).0;
            let old = e.by_key[token].replaces->0;
            let left = e.by_key[old.0];
            let packed = if e.carried.contains_key(token) {
                e.carried[token]
            } else {
                Seq::empty()
            };
            &&& after.out == e.out + despawns(e, left.shadows) + crate::net::edge::laws::passed_on(
                left,
                entity,
                region,
            ) + crate::net::edge::laws::greeting(left, EntityKey(token), entity, region, packed)
            &&& gave_back(e, after, left.shadows)
            &&& after.transits == e.transits.filter(|t: Transit| t.to != EntityKey(token))
            &&& after.carried == e.carried.remove(token)
            &&& e.reported(region, Report::Added { entity, token }).1 is None
        }),
        ({
            let after = e.reported(region, Report::Added { entity, token }).0;
            let old = e.by_key[token].replaces->0;
            let left = e.by_key[old.0];
            forall|k: u64| #[trigger]
                e.by_key.contains_key(k) && k != old.0 && k != token && !left.shadows.contains(
                    EntityKey(k),
                ) ==> after.by_key.contains_key(k) && after.by_key[k] == e.by_key[k]
        }),
        ({
            let after = e.reported(region, Report::Added { entity, token }).0;
            let old = e.by_key[token].replaces->0;
            let left = e.by_key[old.0];
            let slot = (region.0 * 0x1_0000_0000 + entity.0) as u64;
            &&& match left.id {
                Some(id) => {
                    let there = (left.region.0 * 0x1_0000_0000 + id.0) as u64;
                    there != slot ==> !after.moves.contains_key(there)
                        && !after.by_id.contains_key(there)
                },
                None => true,
            }
            &&& match (left.transition, e.by_key[token].pending) {
                (Some(passage), Some(to)) => passage.held_move is None ==> after.moves.contains_key(
                    slot,
                ) && after.moves[slot] == to,
                (None, Some(to)) => after.moves.contains_key(slot) && after.moves[slot] == to,
                _ => true,
            }
        }),
{
    let new = EntityKey(token);
    let held = e.by_key[token];
    let old = held.replaces->0;
    let left = e.by_key[old.0];
    assert(e.paired(token));
    assert(e.attended(old.0));
    let now = Edge {
        by_id: e.by_id.insert(crate::net::edge::model::seat(region, entity), token),
        ..e.keeping(new, Held { id: Some(entity), pending: None, replaces: None, ..held })
    };
    let heir = match left.handle {
        Some(_) => now.keeping(new, Held { handle: left.handle, ..now.by_key[new.0] }),
        None => now,
    };
    let bare = Edge {
        by_key: heir.by_key.remove(old.0),
        by_id: match left.id {
            Some(id) => now.by_id.remove(crate::net::edge::model::seat(left.region, id)),
            None => now.by_id,
        },
        ..now
    };
    let freed = bare.released_all(left.shadows);
    let swapped = now.remapped(new, held.client, old);
    let forwarded = swapped.forwarded(new, entity, region, held.pending, left);
    let packed = if e.carried.contains_key(token) {
        e.carried[token]
    } else {
        Seq::empty()
    };
    let after = e.reported(region, Report::Added { entity, token }).0;
    assert(after == forwarded.greeted(new, entity, region, held.client, left));
    assert(!left.shadows.contains(new));
    assert(!left.shadows.contains(old)) by {
        if left.shadows.contains(old) {
            assert(e.by_key[old.0].shadow_of == Some(old));
        }
    }
    assert forall|s: EntityKey| #[trigger] left.shadows.contains(s) implies e.by_key.contains_key(
        s.0,
    ) == bare.by_key.contains_key(s.0) && e.by_key[s.0].id == bare.by_key[s.0].id
        && e.by_key[s.0].region == bare.by_key[s.0].region by {
        assert(s.0 != old.0 && s.0 != token) by {
            if s.0 == old.0 {
                assert(s == old);
            }
            if s.0 == token {
                assert(s == new);
            }
        }
    }
    lemma_same_despawns(e, bare, left.shadows);
    crate::net::edge::laws::lemma_back(bare, left.shadows);
    crate::net::edge::laws::lemma_all_back_said(bare, left.shadows);
    let _ = crate::net::edge::laws::lemma_freed(bare, left.shadows);
    lemma_flights_stay(bare, left.shadows);
    crate::net::edge::laws::lemma_unmarked(bare, left.shadows, new);
    lemma_not_toward(e.transits, new);
    crate::net::edge::laws::lemma_forwarded(swapped, new, entity, region, held.pending, left);
    crate::net::edge::laws::lemma_passed_on(swapped, new, entity, region, held.pending, left);
    lemma_carried_on(swapped, new, entity, region, held.pending, left);
    crate::net::edge::laws::lemma_greeting(forwarded, new, entity, region, left, packed);
    assert(after.by_id == freed.by_id);
    assert(after.moves == forwarded.moves);
    assert forall|s: EntityKey| #[trigger]
        left.shadows.contains(s) && e.by_key.contains_key(s.0) implies if e.by_key[s.0].id is Some {
        after.by_key.contains_key(s.0) && after.by_key[s.0].doomed
    } else {
        !after.by_key.contains_key(s.0)
    } by {
        assert(bare.by_key.contains_key(s.0));
        assert(s.0 != token);
    }
    assert forall|k: u64| #[trigger]
        e.by_key.contains_key(k) && k != old.0 && k != token && !left.shadows.contains(
            EntityKey(k),
        ) implies after.by_key.contains_key(k) && after.by_key[k] == e.by_key[k] by {
        crate::net::edge::laws::lemma_unmarked(bare, left.shadows, EntityKey(k));
    }
}

/// A copy whose entity has gone by the time the destination reports it is given
/// straight back, and nothing is kept of it.
pub proof fn law_an_arrival_of_what_has_gone_is_given_back(
    e: Edge,
    region: RegionId,
    entity: EntityId,
    token: u64,
)
    requires
        e.by_key.contains_key(token),
        e.by_key[token].region == region,
        e.by_key[token].replaces is Some,
        !e.by_key.contains_key((e.by_key[token].replaces->0).0),
    ensures
        ({
            let after = e.reported(region, Report::Added { entity, token }).0;
            &&& after.out == e.out.push(Effect::Tell(Outgoing::Despawn(region, entity)))
            &&& after.by_key == e.by_key.remove(token)
            &&& !after.by_id.contains_key((region.0 * 0x1_0000_0000 + entity.0) as u64)
            &&& after.moves == e.moves
            &&& after.transits == e.transits.filter(|t: Transit| t.to != EntityKey(token))
            &&& match e.by_key[token].client {
                Some(c) => e.clients.contains_key(c.0) ==> after.clients.contains_key(c.0)
                    && !after.clients[c.0].keys.contains(EntityKey(token)),
                None => after.clients == e.clients,
            }
        }),
{
    let after = e.reported(region, Report::Added { entity, token }).0;
    lemma_not_toward(e.transits, EntityKey(token));
    assert(after.by_key =~= e.by_key.remove(token));
    if let Some(c) = e.by_key[token].client {
        if e.clients.contains_key(c.0) {
            crate::net::edge::laws::lemma_without(e.clients[c.0].keys, EntityKey(token));
        }
    }
}

/// A teleport that is given up leaves nothing of its copy: no record, no place
/// on its client's list, and nothing of what the game packed for it; and it
/// touches no other entity.
pub proof fn law_a_teleport_given_up_leaves_nothing_of_its_copy(e: Edge, t: Transit)
    requires
        e.by_key.contains_key(t.from.0),
        e.by_key.contains_key(t.to.0),
        e.by_key[t.from.0].transition is Some,
        (e.by_key[t.from.0].transition->0).to == t.to,
        e.by_key[t.to.0].id is None,
        t.from != t.to,
        e.counters.teleport_timeouts < u64::MAX,
    ensures
        ({
            let after = e.given_up(t);
            let copy = e.by_key[t.to.0];
            &&& !after.by_key.contains_key(t.to.0)
            &&& after.carried == e.carried.remove(t.to.0)
            &&& after.by_id == e.by_id
            &&& after.counters.teleport_timeouts == e.counters.teleport_timeouts + 1
            &&& match copy.client {
                Some(c) => e.clients.contains_key(c.0) ==> after.clients.contains_key(c.0)
                    && !after.clients[c.0].keys.contains(t.to),
                None => after.clients == e.clients,
            }
            &&& forall|k: u64| #[trigger]
                e.by_key.contains_key(k) && k != t.from.0 && k != t.to.0
                    ==> after.by_key.contains_key(k) && after.by_key[k] == e.by_key[k]
        }),
{
    let held = e.by_key[t.from.0];
    let copy = e.by_key[t.to.0];
    let passage = held.transition->0;
    let back = e.keeping(t.from, Held { transition: None, ..held });
    let gone = Edge { carried: back.carried.remove(t.to.0), ..back }.forgotten(t.to);
    let moved = match passage.held_move {
        Some(at) => gone.world_placed(t.from, at),
        None => gone,
    };
    if let Some(id) = held.id {
        crate::net::edge::laws::lemma_counters_told(moved, held.region, id, passage.held_messages);
    }
    if let Some(c) = copy.client {
        if e.clients.contains_key(c.0) {
            crate::net::edge::laws::lemma_without(e.clients[c.0].keys, t.to);
        }
    }
    assert(t.from.0 != t.to.0);
    assert(e.given_up(t).clients == gone.clients);
}

/// A teleport whose destination has answered is not given up.
pub proof fn law_a_confirmed_teleport_is_not_given_up(e: Edge, t: Transit)
    requires
        e.by_key.contains_key(t.to.0) && e.by_key[t.to.0].id is Some || !e.by_key.contains_key(
            t.from.0,
        ) || e.by_key[t.from.0].transition is None,
    ensures
        e.given_up(t) == e,
{
}

// ---------------------------------------------------------------------------
// The game's moves
// ---------------------------------------------------------------------------

proof fn lemma_puts_leave(e: Edge, moves: Seq<(EntityKey, WorldPos)>)
    ensures
        ({
            let after = e.all_placed(moves);
            &&& after.clients == e.clients
            &&& after.map == e.map
            &&& after.region_size == e.region_size
            &&& after.out == e.out
            &&& after.counters.refused == e.counters.refused
            &&& forall|k: u64| #[trigger]
                after.by_key.contains_key(k) <==> e.by_key.contains_key(k)
            &&& forall|k: u64| #[trigger]
                after.by_key.contains_key(k) ==> after.by_key[k] == (Held {
                    pending: after.by_key[k].pending,
                    transition: after.by_key[k].transition,
                    ..e.by_key[k]
                }) && (after.by_key[k].transition is Some <==> e.by_key[k].transition is Some)
        }),
    decreases moves.len(),
{
    if moves.len() > 0 {
        let now = e.all_placed(moves.drop_last());
        lemma_puts_leave(e, moves.drop_last());
        let after = e.all_placed(moves);
        assert forall|k: u64| #[trigger] after.by_key.contains_key(k) <==> e.by_key.contains_key(
            k,
        ) by {
            assert(now.by_key.contains_key(k) <==> e.by_key.contains_key(k));
        }
        assert forall|k: u64| #[trigger] after.by_key.contains_key(k) implies after.by_key[k] == (
        Held {
            pending: after.by_key[k].pending,
            transition: after.by_key[k].transition,
            ..e.by_key[k]
        }) && (after.by_key[k].transition is Some <==> e.by_key[k].transition is Some) by {
            assert(now.by_key.contains_key(k));
        }
    }
}

/// However many entities the game moves at once, each is to be put where the
/// last of its positions that its region's frame can hold says, in that frame;
/// one in transit, at the last of its positions; and nothing is said, or
/// counted as refused.
pub proof fn law_what_the_game_moves_is_put_where_it_last_said(
    e: Edge,
    moves: Seq<(EntityKey, WorldPos)>,
    j: int,
    to: Pos3,
)
    requires
        charted(e),
        0 <= j < moves.len(),
        alone(e, moves[j].0.0),
        e.by_key.contains_key(moves[j].0.0),
        !e.by_key[moves[j].0.0].doomed,
        e.by_key[moves[j].0.0].transition is None ==> framing(
            e,
            e.by_key[moves[j].0.0].region,
            moves[j].1,
            to,
        ),
        forall|i: int|
            j < i < moves.len() && (#[trigger] moves[i]).0 == moves[j].0 ==> {
                &&& e.by_key[moves[j].0.0].transition is None
                &&& forall|p: Pos3|
                    !#[trigger] framing(e, e.by_key[moves[j].0.0].region, moves[i].1, p)
            },
    ensures
        awaits(e.all_placed(moves), moves[j].0.0, moves[j].1, to),
        e.all_placed(moves).out == e.out,
        e.all_placed(moves).counters.refused == e.counters.refused,
        forall|k: u64| #[trigger]
            e.by_key.contains_key(k) <==> e.all_placed(moves).by_key.contains_key(k),
    decreases moves.len(),
{
    let front = moves.drop_last();
    let now = e.all_placed(front);
    let after = e.all_placed(moves);
    let last = moves.last();
    let key = moves[j].0.0;
    let region = e.by_key[key].region;
    lemma_puts_leave(e, front);
    lemma_puts_leave(e, moves);
    assert(now.by_key.contains_key(key) && after.by_key.contains_key(key));
    if j == moves.len() - 1 {
        assert(last == moves[j]);
        lemma_framing(e, region, last.1, to);
        assert(now.framed(region, last.1) == e.framed(region, last.1));
    } else {
        assert(front[j] == moves[j]);
        assert forall|i: int| j < i < front.len() && (#[trigger] front[i]).0 == front[j].0 implies {
            &&& e.by_key[key].transition is None
            &&& forall|p: Pos3| !#[trigger] framing(e, region, front[i].1, p)
        } by {
            assert(moves[i] == front[i]);
        }
        law_what_the_game_moves_is_put_where_it_last_said(e, front, j, to);
        if last.0 == moves[j].0 {
            assert(moves[moves.len() - 1] == last);
            lemma_unframed(e, region, last.1);
            assert(now.framed(region, last.1) == e.framed(region, last.1));
        } else if now.by_key.contains_key(last.0.0) {
            let other = last.0.0;
            assert(e.by_key.contains_key(other));
            assert(other != key);
            if e.by_key[other].id is Some && e.by_key[key].id is Some {
                lemma_seats(
                    e.by_key[other].region,
                    e.by_key[other].id->0,
                    region,
                    e.by_key[key].id->0,
                );
            }
        }
    }
}

/// A count goes by one at a time.
pub proof fn law_counts_go_by_one(n: u64, m: u32)
    ensures
        n < u64::MAX ==> crate::net::edge::model::up(n) == n + 1,
        m < u32::MAX ==> crate::net::edge::model::up32(m) == m + 1,
        m > 0 ==> crate::net::edge::model::down32(m) == m - 1,
        crate::net::edge::model::down32(crate::net::edge::model::up32(m)) == m,
{
}

/// An edge is in a region from when it asks for an entity there until the last
/// it has there is given back.
pub proof fn law_a_region_is_occupied_until_all_is_given_back(
    e: Edge,
    ask: Ask,
    key: EntityKey,
    region: RegionId,
)
    requires
        e.by_key.contains_key(key.0),
    ensures
        e.asked(ask).occupied().contains(ask.region.0 as u64),
        (forall|k: u64| #[trigger]
            e.by_key.contains_key(k) && k != key.0 ==> e.by_key[k].doomed || e.by_key[k].region
                != region) ==> !e.released(key).occupied().contains(region.0 as u64),
        !e.by_key[key.0].doomed ==> e.occupied().contains(e.by_key[key.0].region.0 as u64),
{
    let asked = e.asked(ask);
    assert(asked.by_key.contains_key(e.next_key));
    let back = e.released(key);
    if forall|k: u64| #[trigger]
        e.by_key.contains_key(k) && k != key.0 ==> e.by_key[k].doomed || e.by_key[k].region
            != region {
        assert forall|k: u64| #[trigger] back.by_key.contains_key(k) implies back.by_key[k].doomed
            || back.by_key[k].region.0 != region.0 by {
            assert(e.by_key.contains_key(k));
        }
    }
}

/// The shadow of an observer that stands for it in a region is the first on its
/// list there, and there is none where the list has none.
pub proof fn law_the_first_shadow_in_a_region_is_the_one(
    existing: Seq<(EntityKey, RegionId)>,
    region: RegionId,
)
    ensures
        match crate::net::edge::model::first_in(existing, region) {
            Some(key) => exists|i: int|
                {
                    &&& 0 <= i < existing.len()
                    &&& #[trigger] existing[i] == (key, region)
                    &&& forall|j: int| 0 <= j < i ==> (#[trigger] existing[j]).1 != region
                },
            None => forall|j: int| 0 <= j < existing.len() ==> (#[trigger] existing[j]).1 != region,
        },
    decreases existing.len(),
{
    if existing.len() > 0 {
        let front = existing.drop_last();
        law_the_first_shadow_in_a_region_is_the_one(front, region);
        assert forall|j: int| 0 <= j < front.len() implies #[trigger] existing[j] == front[j] by {}
        match crate::net::edge::model::first_in(front, region) {
            Some(key) => {
                let i = choose|i: int|
                    {
                        &&& 0 <= i < front.len()
                        &&& #[trigger] front[i] == (key, region)
                        &&& forall|j: int| 0 <= j < i ==> (#[trigger] front[j]).1 != region
                    };
                assert(existing[i] == (key, region));
                assert forall|j: int| 0 <= j < i implies (#[trigger] existing[j]).1 != region by {
                    assert(front[j] == existing[j]);
                }
            },
            None => {
                assert forall|j: int| 0 <= j < front.len() implies (#[trigger] existing[j]).1
                    != region by {
                    assert(front[j] == existing[j]);
                }
                let n = existing.len() - 1;
                assert(existing[n] == existing.last());
            },
        }
    }
}

/// A view collision of what this edge does not hold, of a shadow, or in a region
/// off the map or that has not said what it runs, changes nothing.
pub proof fn law_a_view_collision_that_asks_nothing(
    e: Edge,
    region: RegionId,
    entity: EntityId,
    position: Pos3,
    key: u64,
)
    requires
        ({
            ||| !e.by_id.contains_key((region.0 * 0x1_0000_0000 + entity.0) as u64)
            ||| knows(e, region, entity, key) && e.by_key[key].shadow_of is Some
            ||| forall|square: Placement| !#[trigger] e.map.contains((region, square))
            ||| !e.worlds.contains_key(region.0 as u64)
        }),
        crate::map::distinct(e.map),
    ensures
        e.reported(region, Report::ViewCollision { entity, position }) == (e, None::<Departure>),
{
    if let Some(square) = crate::map::square_of(e.map, region) {
        crate::map::law_a_placed_region_has_one_square(e.map, region, square);
        assert(e.map.contains((region, square)));
    }
}

/// A teleport that another has taken the place of is not given up.
pub proof fn law_a_teleport_taken_over_is_not_given_up(e: Edge, t: Transit)
    requires
        e.by_key.contains_key(t.from.0),
        e.by_key[t.from.0].transition is Some,
        (e.by_key[t.from.0].transition->0).to != t.to,
    ensures
        e.given_up(t) == e,
{
}

} // verus!
