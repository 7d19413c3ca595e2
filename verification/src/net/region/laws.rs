//! What a region does with what its edges send, said of the population itself:
//! who is where, who is there, and what each edge hears.

use vstd::prelude::*;

use crate::config::World;
use crate::entity::EntityId;
use crate::net::region::edges::{EdgeId, Roster};
use crate::net::region::protocol;
use crate::net::region::protocol::{
    DespawnEntities, MoveEntities, Presence, Spawn, SpawnEntities,
};
use crate::net::region::session::{
    Act, Applied, Closing, Desk, Fresh, Load, Order, Routes, Settled, Work,
};
use crate::pos::Pos3;
use crate::sim::{Crowd, ViewerId};

verus! {

/// Whether a position is inside a region's box.
pub open spec fn inside(w: World, p: Pos3) -> bool {
    &&& 0 <= p.x.0 < w.region_size
    &&& 0 <= p.y.0 < w.region_size
    &&& 0 <= p.z.0 < w.vertical_extent
}

/// Whether an edge's word on where an entity is counts: the edge manages it, it
/// exists, and the place is in the region.
pub open spec fn heeded(work: Work, w: World, edge: EdgeId, id: EntityId, to: Pos3) -> bool {
    &&& work.desk.roster.owners.contains_key(id.0)
    &&& work.desk.roster.owners[id.0] == edge.0
    &&& work.crowd.live.contains(id.0)
    &&& inside(w, to)
}

proof fn lemma_moves(work: Work, w: World, edge: EdgeId, moves: Seq<(EntityId, Pos3)>)
    requires
        work.crowd.placed(),
    ensures
        ({
            let end = work.all_moved(w, edge, moves);
            &&& end.crowd.at.len() == work.crowd.at.len()
            &&& end.crowd.tags == work.crowd.tags
            &&& end.crowd.live == work.crowd.live
            &&& end.crowd.shadows == work.crowd.shadows
            &&& end.crowd.despawned == work.crowd.despawned
            &&& end.desk.roster.owners == work.desk.roster.owners
            &&& end.desk.fresh == work.desk.fresh
            &&& end.desk.gone == work.desk.gone
            &&& end.desk.watchers == work.desk.watchers
            &&& end.done.spawned == work.done.spawned
            &&& end.done.despawned == work.done.despawned
            &&& end.done.orphaned == work.done.orphaned
            &&& forall|j: int|
                0 <= j < moves.len() && heeded(
                    work,
                    w,
                    edge,
                    (#[trigger] moves[j]).0,
                    moves[j].1,
                ) && (forall|k: int|
                    j < k < moves.len() && (#[trigger] moves[k]).0 == moves[j].0 ==> !heeded(
                        work,
                        w,
                        edge,
                        moves[k].0,
                        moves[k].1,
                    )) ==> end.crowd.at[moves[j].0.0 as int] == moves[j].1
            &&& forall|id: EntityId|
                id.0 < work.crowd.at.len() && (forall|k: int|
                    0 <= k < moves.len() && (#[trigger] moves[k]).0 == id ==> !heeded(
                        work,
                        w,
                        edge,
                        moves[k].0,
                        moves[k].1,
                    )) ==> #[trigger] end.crowd.at[id.0 as int] == work.crowd.at[id.0 as int]
        }),
    decreases moves.len(),
{
    if moves.len() > 0 {
        let front = moves.drop_last();
        lemma_moves(work, w, edge, front);
        let mid = work.all_moved(w, edge, front);
        let end = work.all_moved(w, edge, moves);
        let (last, to) = moves.last();
        let n = moves.len() - 1;
        assert(moves[n] == (last, to));
        let took = heeded(work, w, edge, last, to);
        assert(end.crowd.at == if took {
            mid.crowd.at.update(last.0 as int, to)
        } else {
            mid.crowd.at
        });
        assert forall|j: int|
            0 <= j < moves.len() && heeded(work, w, edge, (#[trigger] moves[j]).0, moves[j].1) && (
            forall|k: int|
                j < k < moves.len() && (#[trigger] moves[k]).0 == moves[j].0 ==> !heeded(
                    work,
                    w,
                    edge,
                    moves[k].0,
                    moves[k].1,
                )) implies end.crowd.at[moves[j].0.0 as int] == moves[j].1 by {
            if j < n {
                assert(front[j] == moves[j]);
                assert forall|k: int|
                    j < k < front.len() && (#[trigger] front[k]).0 == front[j].0 implies !heeded(
                    work,
                    w,
                    edge,
                    front[k].0,
                    front[k].1,
                ) by {
                    assert(moves[k] == front[k]);
                }
                if took {
                    assert(moves[n].0 != moves[j].0);
                    assert(last.0 != moves[j].0.0) by {
                        if last.0 == moves[j].0.0 {
                            assert(last == moves[j].0);
                        }
                    }
                }
            }
        }
        assert forall|id: EntityId|
            id.0 < work.crowd.at.len() && (forall|k: int|
                0 <= k < moves.len() && (#[trigger] moves[k]).0 == id ==> !heeded(
                    work,
                    w,
                    edge,
                    moves[k].0,
                    moves[k].1,
                )) implies #[trigger] end.crowd.at[id.0 as int] == work.crowd.at[id.0 as int] by {
            assert forall|k: int| 0 <= k < front.len() && (#[trigger] front[k]).0 == id implies
                !heeded(work, w, edge, front[k].0, front[k].1) by {
                assert(moves[k] == front[k]);
            }
            assert(mid.crowd.at[id.0 as int] == work.crowd.at[id.0 as int]);
            if took {
                assert(last.0 != id.0) by {
                    if last.0 == id.0 {
                        assert(moves[n].0 == id);
                    }
                }
            }
        }
    }
}

/// An entity its edge moves ends where the last of the edge's words that counts
/// puts it: the edge manages it, it exists, and the place is in the region. An
/// entity with no such word stays where it was, and nothing else changes.
pub proof fn law_a_move_order_puts_entities_where_it_says(
    work: Work,
    w: World,
    edge: EdgeId,
    moves: Seq<(EntityId, Pos3)>,
)
    requires
        work.crowd.placed(),
    ensures
        ({
            let end = work.ordered(w, Order::Move { edge, moves });
            &&& end.crowd.at.len() == work.crowd.at.len()
            &&& end.crowd.tags == work.crowd.tags
            &&& end.crowd.live == work.crowd.live
            &&& end.crowd.shadows == work.crowd.shadows
            &&& end.crowd.despawned == work.crowd.despawned
            &&& end.desk.roster.owners == work.desk.roster.owners
            &&& end.desk.fresh == work.desk.fresh
            &&& end.desk.gone == work.desk.gone
            &&& end.desk.watchers == work.desk.watchers
            &&& forall|j: int|
                0 <= j < moves.len() && heeded(
                    work,
                    w,
                    edge,
                    (#[trigger] moves[j]).0,
                    moves[j].1,
                ) && (forall|k: int|
                    j < k < moves.len() && (#[trigger] moves[k]).0 == moves[j].0 ==> !heeded(
                        work,
                        w,
                        edge,
                        moves[k].0,
                        moves[k].1,
                    )) ==> end.crowd.at[moves[j].0.0 as int] == moves[j].1
            &&& forall|id: EntityId|
                id.0 < work.crowd.at.len() && (forall|k: int|
                    0 <= k < moves.len() && (#[trigger] moves[k]).0 == id ==> !heeded(
                        work,
                        w,
                        edge,
                        moves[k].0,
                        moves[k].1,
                    )) ==> #[trigger] end.crowd.at[id.0 as int] == work.crowd.at[id.0 as int]
        }),
{
    lemma_moves(work, w, edge, moves);
}

/// Of a batch of moves, those that count are counted as moved and the rest as
/// refused.
pub proof fn law_moves_are_counted_as_they_went(
    work: Work,
    w: World,
    edge: EdgeId,
    moves: Seq<(EntityId, Pos3)>,
)
    requires
        work.crowd.placed(),
        work.done.moved + moves.len() <= u32::MAX,
        work.done.refused + moves.len() <= u32::MAX,
    ensures
        ({
            let end = work.ordered(w, Order::Move { edge, moves });
            let good = moves.filter(|m: (EntityId, Pos3)| heeded(work, w, edge, m.0, m.1)).len();
            &&& good <= moves.len()
            &&& end.done.moved == work.done.moved + good
            &&& end.done.refused == work.done.refused + moves.len() - good
            &&& end.done.spawned == work.done.spawned
            &&& end.done.despawned == work.done.despawned
            &&& end.done.orphaned == work.done.orphaned
        }),
    decreases moves.len(),
{
    reveal(Seq::filter);
    if moves.len() > 0 {
        let front = moves.drop_last();
        law_moves_are_counted_as_they_went(work, w, edge, front);
        lemma_moves(work, w, edge, front);
        let mid = work.all_moved(w, edge, front);
        assert(work.ordered(w, Order::Move { edge, moves }) == mid.moved(
            w,
            edge,
            moves.last().0,
            moves.last().1,
        ));
    }
}

/// What one spawn changes.
proof fn lemma_one_spawn(work: Work, w: World, edge: EdgeId, want: Spawn)
    requires
        work.crowd.at.len() < u32::MAX,
        work.desk.roster.attached(edge),
        !work.desk.roster.owners.contains_key(work.crowd.at.len() as u32),
    ensures
        ({
            let end = work.spawned(w, edge, want);
            let id = work.crowd.at.len() as u32;
            &&& end.desk.roster.attached(edge)
            &&& end.desk.gone == work.desk.gone
            &&& end.crowd.despawned == work.crowd.despawned
            &&& inside(w, want.position) ==> {
                &&& end.crowd.at == work.crowd.at.push(want.position)
                &&& end.crowd.tags == work.crowd.tags.push(want.kind.tag)
                &&& end.crowd.live == work.crowd.live.insert(id)
                &&& end.desk.roster.owners == work.desk.roster.owners.insert(id, edge.0)
                &&& end.desk.fresh == work.desk.fresh.push(
                    Fresh { edge, entity: EntityId(id), kind: want.kind, token: want.token },
                )
                &&& end.done.spawned == work.done.spawned + 1 || work.done.spawned == u32::MAX
                &&& end.done.refused == work.done.refused
            }
            &&& !inside(w, want.position) ==> {
                &&& end.crowd == work.crowd
                &&& end.desk.roster.owners == work.desk.roster.owners
                &&& end.desk.fresh == work.desk.fresh
                &&& end.done.spawned == work.done.spawned
                &&& end.done.refused == work.done.refused + 1 || work.done.refused == u32::MAX
            }
        }),
{
}

/// Everything an edge asks to be spawned inside the region is there afterwards,
/// under the next ids in the order asked: where it was asked for, with the tag
/// it was asked with, managed by the edge that asked, and to be answered with
/// the token that came with it. What was asked for outside is refused, and
/// nothing that was there before changes.
pub proof fn law_a_spawn_order_makes_what_it_asks_for(
    work: Work,
    w: World,
    edge: EdgeId,
    spawns: Seq<Spawn>,
)
    requires
        work.crowd.placed(),
        work.crowd.at.len() + spawns.len() <= u32::MAX,
        work.crowd.tags.len() == work.crowd.at.len(),
        work.done.spawned + spawns.len() <= u32::MAX,
        work.done.refused + spawns.len() <= u32::MAX,
        work.desk.roster.attached(edge),
        forall|e: u32| #[trigger]
            work.desk.roster.owners.contains_key(e) ==> e < work.crowd.at.len(),
    ensures
        ({
            let end = work.ordered(w, Order::Spawn { edge, spawns });
            let good = spawns.filter(|s: Spawn| inside(w, s.position));
            let n = work.crowd.at.len();
            &&& end.crowd.at.len() == n + good.len()
            &&& end.crowd.tags.len() == n + good.len()
            &&& end.desk.fresh.len() == work.desk.fresh.len() + good.len()
            &&& end.done.spawned == work.done.spawned + good.len()
            &&& end.done.refused == work.done.refused + spawns.len() - good.len()
            &&& end.crowd.despawned == work.crowd.despawned
            &&& end.desk.gone == work.desk.gone
            &&& end.desk.roster.attached(edge)
        }),
        ({
            let end = work.ordered(w, Order::Spawn { edge, spawns });
            let good = spawns.filter(|s: Spawn| inside(w, s.position));
            let n = work.crowd.at.len();
            &&& forall|i: int|
                0 <= i < good.len() ==> {
                    let s = #[trigger] good[i];
                    let id = (n + i) as u32;
                    &&& end.crowd.at[n + i] == s.position
                    &&& end.crowd.tags[n + i] == s.kind.tag
                    &&& end.crowd.live.contains(id)
                    &&& end.desk.roster.owners.contains_key(id)
                    &&& end.desk.roster.owners[id] == edge.0
                    &&& end.desk.fresh[work.desk.fresh.len() + i] == (Fresh {
                        edge,
                        entity: EntityId(id),
                        kind: s.kind,
                        token: s.token,
                    })
                }
        }),
        ({
            let end = work.ordered(w, Order::Spawn { edge, spawns });
            let good = spawns.filter(|s: Spawn| inside(w, s.position));
            let n = work.crowd.at.len();
            &&& forall|i: int|
                0 <= i < n ==> #[trigger] end.crowd.at[i] == work.crowd.at[i]
            &&& forall|i: int|
                0 <= i < n ==> #[trigger] end.crowd.tags[i] == work.crowd.tags[i]
            &&& forall|i: int|
                0 <= i < work.desk.fresh.len() ==> #[trigger] end.desk.fresh[i]
                    == work.desk.fresh[i]
        }),
        ({
            let end = work.ordered(w, Order::Spawn { edge, spawns });
            let good = spawns.filter(|s: Spawn| inside(w, s.position));
            let n = work.crowd.at.len();
            &&& forall|e: u32|
                e < n ==> {
                    &&& #[trigger] end.crowd.live.contains(e) == work.crowd.live.contains(e)
                    &&& end.desk.roster.owners.contains_key(e)
                        == work.desk.roster.owners.contains_key(e)
                    &&& end.desk.roster.owners.contains_key(e) ==> end.desk.roster.owners[e]
                        == work.desk.roster.owners[e]
                }
            &&& forall|e: u32| #[trigger]
                end.desk.roster.owners.contains_key(e) ==> e < end.crowd.at.len()
            &&& end.crowd.placed()
        }),
    decreases spawns.len(),
{
    reveal(Seq::filter);
    if spawns.len() > 0 {
        let front = spawns.drop_last();
        law_a_spawn_order_makes_what_it_asks_for(work, w, edge, front);
        let mid = work.all_spawned(w, edge, front);
        let end = work.ordered(w, Order::Spawn { edge, spawns });
        let want = spawns.last();
        assert(end == mid.spawned(w, edge, want));
        lemma_one_spawn(mid, w, edge, want);
        front.lemma_filter_len(|s: Spawn| inside(w, s.position));
        let was = front.filter(|s: Spawn| inside(w, s.position));
        let good = spawns.filter(|s: Spawn| inside(w, s.position));
        let n = work.crowd.at.len();
        if inside(w, want.position) {
            assert(good == was.push(want));
            assert(!mid.desk.roster.owners.contains_key(mid.crowd.at.len() as u32));
            assert forall|i: int| 0 <= i < good.len() implies {
                let s = #[trigger] good[i];
                let id = (n + i) as u32;
                &&& end.crowd.at[n + i] == s.position
                &&& end.crowd.tags[n + i] == s.kind.tag
                &&& end.crowd.live.contains(id)
                &&& end.desk.roster.owners.contains_key(id)
                &&& end.desk.roster.owners[id] == edge.0
                &&& end.desk.fresh[work.desk.fresh.len() + i] == (Fresh {
                    edge,
                    entity: EntityId(id),
                    kind: s.kind,
                    token: s.token,
                })
            } by {
                if i < was.len() {
                    assert(was[i] == good[i]);
                }
            }
        } else {
            assert(good == was);
        }
    }
}

/// Every entity an edge gives back that it manages is gone afterwards, is
/// nobody's, and is to be reported to that edge; whatever it does not manage
/// stays as it was.
#[verifier::spinoff_prover]
pub proof fn law_a_despawn_order_takes_what_it_names(
    work: Work,
    w: World,
    edge: EdgeId,
    ids: Seq<EntityId>,
)
    ensures
        ({
            let end = work.ordered(w, Order::Despawn { edge, ids });
            let was = work.desk.roster.owners;
            let now = end.desk.roster.owners;
            let n = work.desk.gone.len();
            &&& end.crowd.at == work.crowd.at
            &&& end.crowd.tags == work.crowd.tags
            &&& end.desk.fresh == work.desk.fresh
        }),
        ({
            let end = work.ordered(w, Order::Despawn { edge, ids });
            let was = work.desk.roster.owners;
            let now = end.desk.roster.owners;
            let n = work.desk.gone.len();
            &&& forall|e: u32|
                ids.contains(EntityId(e)) && was.contains_key(e) && was[e] == edge.0 ==> {
                    &&& !(#[trigger] now.contains_key(e))
                    &&& !end.crowd.live.contains(e)
                    &&& end.desk.gone.skip(n as int).contains((Some(edge), EntityId(e)))
                }
        }),
        ({
            let end = work.ordered(w, Order::Despawn { edge, ids });
            let was = work.desk.roster.owners;
            let now = end.desk.roster.owners;
            let n = work.desk.gone.len();
            &&& forall|e: u32|
                !(ids.contains(EntityId(e)) && was.contains_key(e) && was[e] == edge.0) ==> {
                    &&& #[trigger] now.contains_key(e) == was.contains_key(e)
                    &&& now.contains_key(e) ==> now[e] == was[e]
                    &&& end.crowd.live.contains(e) == work.crowd.live.contains(e)
                }
        }),
        ({
            let end = work.ordered(w, Order::Despawn { edge, ids });
            let was = work.desk.roster.owners;
            let now = end.desk.roster.owners;
            let n = work.desk.gone.len();
            &&& n <= end.desk.gone.len()
            &&& end.desk.gone.take(n as int) == work.desk.gone
            &&& forall|i: int|
                n <= i < end.desk.gone.len() ==> {
                    let (by, id) = #[trigger] end.desk.gone[i];
                    by == Some(edge) && ids.contains(id) && was.contains_key(id.0) && was[id.0]
                        == edge.0
                }
        }),
        ({
            let end = work.ordered(w, Order::Despawn { edge, ids });
            let was = work.desk.roster.owners;
            let now = end.desk.roster.owners;
            let n = work.desk.gone.len();
            &&& forall|i: int, j: int|
                n <= i < j < end.desk.gone.len() ==> (#[trigger] end.desk.gone[i]).1 != (
                #[trigger] end.desk.gone[j]).1
        }),
    decreases ids.len(),
{
    let end = work.ordered(w, Order::Despawn { edge, ids });
    let was = work.desk.roster.owners;
    let now = end.desk.roster.owners;
    let n = work.desk.gone.len();
    if ids.len() == 0 {
        assert(end == work);
        assert(end.desk.gone.take(n as int) =~= work.desk.gone);
        assert forall|id: EntityId| !#[trigger] ids.contains(id) by {}
    } else {
        let front = ids.drop_last();
        law_a_despawn_order_takes_what_it_names(work, w, edge, front);
        let mid = work.ordered(w, Order::Despawn { edge, ids: front });
        let last = ids.last();
        assert(end == mid.despawned(edge, last));
        assert(ids[ids.len() - 1] == last);
        assert forall|id: EntityId| #[trigger] ids.contains(id) == (front.contains(id) || id
            == last) by {
            if ids.contains(id) && id != last {
                let i = choose|i: int| 0 <= i < ids.len() && ids[i] == id;
                assert(front[i] == id);
            }
            if front.contains(id) {
                let i = choose|i: int| 0 <= i < front.len() && front[i] == id;
                assert(ids[i] == id);
            }
        }
        let took = mid.desk.roster.owners.contains_key(last.0) && mid.desk.roster.owners[last.0]
            == edge.0;
        assert(EntityId(last.0) == last);
        if took {
            assert(end.desk.gone == mid.desk.gone.push((Some(edge), last)));
            assert(end.desk.gone.take(n as int) =~= mid.desk.gone.take(n as int));
            assert(end.desk.gone[mid.desk.gone.len() as int] == (Some(edge), last));
            assert forall|i: int| n <= i < mid.desk.gone.len() implies (
            #[trigger] mid.desk.gone[i]).1 != last by {
                if mid.desk.gone[i].1 == last {
                    assert(front.contains(last));
                    assert(!mid.desk.roster.owners.contains_key(last.0));
                }
            }
        } else {
            assert(end.desk.gone == mid.desk.gone);
        }
        assert forall|e: u32|
            ids.contains(EntityId(e)) && was.contains_key(e) && was[e] == edge.0 implies {
            &&& !(#[trigger] now.contains_key(e))
            &&& !end.crowd.live.contains(e)
            &&& end.desk.gone.skip(n as int).contains((Some(edge), EntityId(e)))
        } by {
            let (before, after) = (mid.desk.gone.skip(n as int), end.desk.gone.skip(n as int));
            let want = (Some(edge), EntityId(e));
            if front.contains(EntityId(e)) {
                assert(!mid.desk.roster.owners.contains_key(e));
                assert(before.contains(want));
                let i = choose|i: int| 0 <= i < before.len() && before[i] == want;
                assert(after[i] == want);
            } else {
                assert(EntityId(e) == last);
                assert(mid.desk.roster.owners.contains_key(e));
                assert(after[before.len() as int] == want);
            }
        }
        assert forall|e: u32|
            !(ids.contains(EntityId(e)) && was.contains_key(e) && was[e] == edge.0) implies {
            &&& #[trigger] now.contains_key(e) == was.contains_key(e)
            &&& now.contains_key(e) ==> now[e] == was[e]
            &&& end.crowd.live.contains(e) == work.crowd.live.contains(e)
        } by {
            assert(mid.desk.roster.owners.contains_key(e) == was.contains_key(e));
            if took && e == last.0 {
                assert(ids.contains(EntityId(e)));
            }
        }
        assert forall|i: int| n <= i < end.desk.gone.len() implies {
            let (by, id) = #[trigger] end.desk.gone[i];
            by == Some(edge) && ids.contains(id) && was.contains_key(id.0) && was[id.0] == edge.0
        } by {
            if i < mid.desk.gone.len() {
                assert(end.desk.gone[i] == mid.desk.gone[i]);
            } else {
                assert(mid.desk.roster.owners.contains_key(last.0));
            }
        }
        assert forall|i: int, j: int| n <= i < j < end.desk.gone.len() implies (
        #[trigger] end.desk.gone[i]).1 != (#[trigger] end.desk.gone[j]).1 by {
            assert(end.desk.gone[i] == mid.desk.gone[i]);
            if j < mid.desk.gone.len() {
                assert(end.desk.gone[j] == mid.desk.gone[j]);
            }
        }
    }
}

/// What is left by edges that have gone is despawned before anything else a
/// tick is asked for: none of it exists when the first order is carried out,
/// and whoever else existed does.
pub proof fn law_orphans_go_before_any_order(desk: Desk, w: World, crowd: Crowd)
    requires
        desk.queue.len() == 0,
    ensures
        ({
            let end = desk.applied(w, crowd);
            let orphans = desk.roster.detached;
            &&& end.crowd.at == crowd.at
            &&& end.crowd.tags == crowd.tags
            &&& forall|e: u32| #[trigger]
                end.crowd.live.contains(e) <==> crowd.live.contains(e) && !orphans.contains(
                    EntityId(e),
                )
            &&& forall|e: u32|
                crowd.live.contains(e) && #[trigger] orphans.contains(EntityId(e))
                    ==> end.desk.gone.contains((None::<EdgeId>, EntityId(e)))
            &&& end.desk.roster.detached.len() == 0
            &&& end.desk.roster.owners == desk.roster.owners
            &&& end.desk.queue.len() == 0
        }),
{
    let start = Work {
        desk: Desk {
            queue: Seq::empty(),
            roster: Roster { detached: Seq::empty(), ..desk.roster },
            ..desk
        },
        crowd,
        done: Applied::none(),
    };
    lemma_orphans(start, desk.roster.detached);
}

proof fn lemma_orphans(work: Work, ids: Seq<EntityId>)
    ensures
        ({
            let end = work.all_orphaned(ids);
            &&& end.crowd.at == work.crowd.at
            &&& end.crowd.tags == work.crowd.tags
            &&& end.desk.roster == work.desk.roster
            &&& end.desk.queue == work.desk.queue
            &&& forall|e: u32| #[trigger]
                end.crowd.live.contains(e) <==> work.crowd.live.contains(e) && !ids.contains(
                    EntityId(e),
                )
            &&& forall|e: u32|
                work.crowd.live.contains(e) && #[trigger] ids.contains(EntityId(e))
                    ==> end.desk.gone.contains((None::<EdgeId>, EntityId(e)))
        }),
    decreases ids.len(),
{
    if ids.len() > 0 {
        let front = ids.drop_last();
        let last = ids.last();
        lemma_orphans(work, front);
        let mid = work.all_orphaned(front);
        let end = work.all_orphaned(ids);
        assert(ids[ids.len() - 1] == last);
        assert(EntityId(last.0) == last);
        assert forall|id: EntityId| #[trigger] ids.contains(id) == (front.contains(id) || id
            == last) by {
            if ids.contains(id) && id != last {
                let i = choose|i: int| 0 <= i < ids.len() && ids[i] == id;
                assert(front[i] == id);
            }
            if front.contains(id) {
                let i = choose|i: int| 0 <= i < front.len() && front[i] == id;
                assert(ids[i] == id);
            }
        }
        assert forall|e: u32|
            work.crowd.live.contains(e) && #[trigger] ids.contains(EntityId(e)) implies
            end.desk.gone.contains((None::<EdgeId>, EntityId(e))) by {
            let want = (None::<EdgeId>, EntityId(e));
            if front.contains(EntityId(e)) {
                assert(mid.desk.gone.contains(want));
                let i = choose|i: int| 0 <= i < mid.desk.gone.len() && mid.desk.gone[i] == want;
                assert(end.desk.gone[i] == want);
            } else {
                assert(EntityId(e) == last);
                assert(mid.crowd.live.contains(e));
                assert(end.desk.gone[mid.desk.gone.len() as int] == want);
            }
        }
    }
}

/// Orders are carried out in the order they came: a tick asked for one more at
/// the end does what it would have done without it, and then that one.
pub proof fn law_orders_are_carried_out_in_turn(desk: Desk, w: World, crowd: Crowd, order: Order)
    ensures
        ({
            let before = desk.applied(w, crowd);
            let after = Desk { queue: desk.queue.push(order), ..desk }.applied(w, crowd);
            let one = before.ordered(w, order);
            &&& after.crowd == one.crowd
            &&& after.done == one.done
            &&& after.desk.roster == one.desk.roster
            &&& after.desk.fresh == one.desk.fresh
            &&& after.desk.gone == one.desk.gone
            &&& after.desk.watchers == one.desk.watchers
            &&& after.desk.queue.len() == 0
        }),
{
    let longer = desk.queue.push(order);
    assert(longer.drop_last() =~= desk.queue);
    let start = Work {
        desk: Desk {
            queue: Seq::empty(),
            roster: Roster { detached: Seq::empty(), ..desk.roster },
            ..desk
        },
        crowd,
        done: Applied::none(),
    };
    let settled = start.all_orphaned(desk.roster.detached);
    let end = settled.all_ordered(w, desk.queue);
    lemma_orphans(start, desk.roster.detached);
    lemma_queue_kept(settled, w, desk.queue);
    lemma_queue_kept(settled, w, longer);
    lemma_alike(end, desk.applied(w, crowd), w, order);
}

proof fn lemma_queue_kept(work: Work, w: World, orders: Seq<Order>)
    ensures
        work.all_ordered(w, orders).desk.queue == work.desk.queue,
    decreases orders.len(),
{
    if orders.len() > 0 {
        lemma_queue_kept(work, w, orders.drop_last());
        let mid = work.all_ordered(w, orders.drop_last());
        lemma_order_keeps_queue(mid, w, orders.last());
    }
}

proof fn lemma_order_keeps_queue(work: Work, w: World, order: Order)
    ensures
        work.ordered(w, order).desk.queue == work.desk.queue,
    decreases crate::net::region::session::weight(order),
{
    if crate::net::region::session::weight(order) > 0 {
        match order {
            Order::Spawn { edge, spawns } => lemma_order_keeps_queue(
                work,
                w,
                Order::Spawn { edge, spawns: spawns.drop_last() },
            ),
            Order::Move { edge, moves } => lemma_order_keeps_queue(
                work,
                w,
                Order::Move { edge, moves: moves.drop_last() },
            ),
            Order::Despawn { edge, ids } => lemma_order_keeps_queue(
                work,
                w,
                Order::Despawn { edge, ids: ids.drop_last() },
            ),
        }
    }
}

/// How many refusals a desk has counted does not change what an order does.
proof fn lemma_alike(a: Work, b: Work, w: World, order: Order)
    requires
        b == (Work { desk: Desk { refused: b.desk.refused, ..a.desk }, ..a }),
    ensures
        ({
            let (x, y) = (a.ordered(w, order), b.ordered(w, order));
            y == (Work { desk: Desk { refused: y.desk.refused, ..x.desk }, ..x })
        }),
    decreases crate::net::region::session::weight(order),
{
    if crate::net::region::session::weight(order) > 0 {
        match order {
            Order::Spawn { edge, spawns } => lemma_alike(
                a,
                b,
                w,
                Order::Spawn { edge, spawns: spawns.drop_last() },
            ),
            Order::Move { edge, moves } => lemma_alike(
                a,
                b,
                w,
                Order::Move { edge, moves: moves.drop_last() },
            ),
            Order::Despawn { edge, ids } => lemma_alike(
                a,
                b,
                w,
                Order::Despawn { edge, ids: ids.drop_last() },
            ),
        }
    }
}

/// Taking the ones wanted of a list with one more at the end.
proof fn lemma_filter_push<A>(s: Seq<A>, a: A, keep: spec_fn(A) -> bool)
    ensures
        s.push(a).filter(keep) == if keep(a) {
            s.filter(keep).push(a)
        } else {
            s.filter(keep)
        },
{
    reveal(Seq::filter);
    assert(s.push(a).drop_last() =~= s);
}

/// Whether an act registers a viewer.
pub open spec fn registers(a: Act) -> bool {
    a is Register
}

/// Whether an act tells an edge an id it got.
pub open spec fn answers(a: Act) -> bool {
    a matches Act::Report(_, Presence::Added { .. })
}

/// Whether an act tells an edge of an entity that is gone.
pub open spec fn buries(a: Act) -> bool {
    a matches Act::Report(_, Presence::Removed { .. })
}

/// What an edge is told of the entities of its that are gone, in order.
pub open spec fn burials(gone: Seq<(Option<EdgeId>, EntityId)>) -> Seq<Act>
    decreases gone.len(),
{
    if gone.len() == 0 {
        Seq::empty()
    } else {
        match gone.last().0 {
            Some(edge) => burials(gone.drop_last()).push(
                Act::Report(edge, Presence::Removed { entity: gone.last().1 }),
            ),
            None => burials(gone.drop_last()),
        }
    }
}

proof fn lemma_retired(c: Closing, gone: Seq<(Option<EdgeId>, EntityId)>)
    ensures
        ({
            let end = c.all_retired(gone);
            &&& end.acts.filter(|a: Act| registers(a)) == c.acts.filter(|a: Act| registers(a))
            &&& end.acts.filter(|a: Act| answers(a)) == c.acts.filter(|a: Act| answers(a))
            &&& end.acts.filter(|a: Act| buries(a)) == c.acts.filter(|a: Act| buries(a)) + burials(
                gone,
            )
            &&& end.desk.roster.owners == c.desk.roster.owners
            &&& end.desk.fresh == c.desk.fresh
            &&& end.desk.gone == c.desk.gone
            &&& end.desk.queue == c.desk.queue
            &&& c.acts.len() <= end.acts.len()
            &&& end.acts.take(c.acts.len() as int) == c.acts
        }),
        ({
            let end = c.all_retired(gone);
            forall|e: u32|
                #![trigger end.desk.watchers.contains_key(e)]
                {
                    let named = exists|i: int|
                        0 <= i < gone.len() && (#[trigger] gone[i]).1 == EntityId(e);
                    &&& end.desk.watchers.contains_key(e) <==> c.desk.watchers.contains_key(e)
                        && !named
                    &&& end.desk.watchers.contains_key(e) ==> end.desk.watchers[e]
                        == c.desk.watchers[e]
                    &&& c.desk.watchers.contains_key(e) && named ==> end.acts.contains(
                        Act::Drop(crate::sim::ViewerId(c.desk.watchers[e])),
                    )
                }
        }),
    decreases gone.len(),
{
    let end = c.all_retired(gone);
    if gone.len() == 0 {
        assert(end.acts.take(c.acts.len() as int) =~= c.acts);
        assert(c.acts.filter(|a: Act| buries(a)) + Seq::empty() =~= c.acts.filter(
            |a: Act| buries(a),
        ));
    } else {
        let front = gone.drop_last();
        lemma_retired(c, front);
        let mid = c.all_retired(front);
        let (edge, id) = gone.last();
        let drop = Act::Drop(crate::sim::ViewerId(mid.desk.watchers[id.0]));
        let dropped = if mid.desk.watchers.contains_key(id.0) {
            mid.acts.push(drop)
        } else {
            mid.acts
        };
        lemma_filter_push(mid.acts, drop, |a: Act| registers(a));
        lemma_filter_push(mid.acts, drop, |a: Act| answers(a));
        lemma_filter_push(mid.acts, drop, |a: Act| buries(a));
        if let Some(e) = edge {
            let say = Act::Report(e, Presence::Removed { entity: id });
            lemma_filter_push(dropped, say, |a: Act| registers(a));
            lemma_filter_push(dropped, say, |a: Act| answers(a));
            lemma_filter_push(dropped, say, |a: Act| buries(a));
            assert(end.acts == dropped.push(say));
            assert(c.acts.filter(|a: Act| buries(a)) + burials(front).push(say) =~= (c.acts.filter(
                |a: Act| buries(a),
            ) + burials(front)).push(say));
        } else {
            assert(end.acts == dropped);
        }
        assert(end.acts.take(c.acts.len() as int) =~= mid.acts.take(c.acts.len() as int));
        assert(gone[gone.len() - 1] == (edge, id));
        assert(EntityId(id.0) == id);
        assert forall|e: u32|
            #![trigger end.desk.watchers.contains_key(e)]
            {
                let named = exists|i: int|
                    0 <= i < gone.len() && (#[trigger] gone[i]).1 == EntityId(e);
                &&& end.desk.watchers.contains_key(e) <==> c.desk.watchers.contains_key(e)
                    && !named
                &&& end.desk.watchers.contains_key(e) ==> end.desk.watchers[e]
                    == c.desk.watchers[e]
                &&& c.desk.watchers.contains_key(e) && named ==> end.acts.contains(
                    Act::Drop(crate::sim::ViewerId(c.desk.watchers[e])),
                )
            } by {
            let named = exists|i: int|
                0 <= i < gone.len() && (#[trigger] gone[i]).1 == EntityId(e);
            let was = exists|i: int|
                0 <= i < front.len() && (#[trigger] front[i]).1 == EntityId(e);
            assert(named == (was || id == EntityId(e))) by {
                if was {
                    let i = choose|i: int|
                        0 <= i < front.len() && (#[trigger] front[i]).1 == EntityId(e);
                    assert(gone[i] == front[i]);
                }
                if named && id != EntityId(e) {
                    let i = choose|i: int|
                        0 <= i < gone.len() && (#[trigger] gone[i]).1 == EntityId(e);
                    assert(front[i] == gone[i]);
                }
            }
            assert(mid.desk.watchers.contains_key(e) <==> c.desk.watchers.contains_key(e)
                && !was);
            if c.desk.watchers.contains_key(e) && named {
                let want = Act::Drop(crate::sim::ViewerId(c.desk.watchers[e]));
                if was {
                    assert(mid.acts.contains(want));
                    let i = choose|i: int| 0 <= i < mid.acts.len() && mid.acts[i] == want;
                    assert(end.acts[i] == want);
                } else {
                    assert(end.acts[mid.acts.len() as int] == want);
                }
            }
        }
    }
}

/// What the game itself despawned that some edge manages, with that edge.
pub open spec fn mourned(desk: Desk, despawned: Seq<EntityId>) -> Seq<(Option<EdgeId>, EntityId)> {
    despawned.filter(|id: EntityId| desk.roster.owners.contains_key(id.0)).map_values(
        |id: EntityId| (Some(EdgeId(desk.roster.owners[id.0])), id),
    )
}

proof fn lemma_reconciled(c: Closing, ids: Seq<EntityId>)
    requires
        ids.no_duplicates(),
    ensures
        ({
            let end = c.all_reconciled(ids);
            let like = c.all_retired(mourned(c.desk, ids));
            &&& end.acts == like.acts
            &&& end.desk.watchers == like.desk.watchers
            &&& end.desk.fresh == c.desk.fresh
            &&& end.desk.gone == c.desk.gone
            &&& end.desk.queue == c.desk.queue
            &&& forall|e: u32| #[trigger]
                end.desk.roster.owners.contains_key(e) <==> c.desk.roster.owners.contains_key(e)
                    && !ids.contains(EntityId(e))
            &&& forall|e: u32| #[trigger]
                end.desk.roster.owners.contains_key(e) ==> end.desk.roster.owners[e]
                    == c.desk.roster.owners[e]
        }),
    decreases ids.len(),
{
    reveal(Seq::filter);
    let end = c.all_reconciled(ids);
    if ids.len() == 0 {
        assert(mourned(c.desk, ids) =~= Seq::empty());
    } else {
        let front = ids.drop_last();
        let last = ids.last();
        lemma_reconciled(c, front);
        let mid = c.all_reconciled(front);
        assert(ids[ids.len() - 1] == last);
        assert(EntityId(last.0) == last);
        assert(!front.contains(last)) by {
            if front.contains(last) {
                let i = choose|i: int| 0 <= i < front.len() && front[i] == last;
                assert(ids[i] == last);
            }
        }
        assert forall|id: EntityId| #[trigger] ids.contains(id) == (front.contains(id) || id
            == last) by {
            if ids.contains(id) && id != last {
                let i = choose|i: int| 0 <= i < ids.len() && ids[i] == id;
                assert(front[i] == id);
            }
            if front.contains(id) {
                let i = choose|i: int| 0 <= i < front.len() && front[i] == id;
                assert(ids[i] == id);
            }
        }
        assert(mid.desk.roster.owners.contains_key(last.0)
            == c.desk.roster.owners.contains_key(last.0));
        if c.desk.roster.owners.contains_key(last.0) {
            let one = (Some(EdgeId(c.desk.roster.owners[last.0])), last);
            assert(mourned(c.desk, ids) =~= mourned(c.desk, front).push(one));
            assert(mourned(c.desk, ids).drop_last() =~= mourned(c.desk, front));
        } else {
            assert(mourned(c.desk, ids) =~= mourned(c.desk, front));
        }
    }
}

proof fn lemma_answers(c: Closing, fresh: Seq<Fresh>)
    ensures
        ({
            let end = c.all_answered(fresh);
            let watched = fresh.filter(
                |f: Fresh| f.kind.role != crate::entity::Role::Unattended,
            );
            &&& end.desk == c.desk
            &&& end.acts.filter(|a: Act| registers(a)) == c.acts.filter(|a: Act| registers(a))
                + watched.map_values(|f: Fresh| Act::Register(f.edge, f.entity))
            &&& end.acts.filter(|a: Act| answers(a)) == c.acts.filter(|a: Act| answers(a))
                + fresh.map_values(
                |f: Fresh|
                    Act::Report(f.edge, Presence::Added { entity: f.entity, token: f.token }),
            )
            &&& end.acts.filter(|a: Act| buries(a)) == c.acts.filter(|a: Act| buries(a))
            &&& c.acts.len() <= end.acts.len()
            &&& end.acts.take(c.acts.len() as int) == c.acts
        }),
    decreases fresh.len(),
{
    reveal(Seq::filter);
    let end = c.all_answered(fresh);
    let watched = fresh.filter(|f: Fresh| f.kind.role != crate::entity::Role::Unattended);
    let sign = |f: Fresh| Act::Register(f.edge, f.entity);
    let say = |f: Fresh|
        Act::Report(f.edge, Presence::Added { entity: f.entity, token: f.token });
    let a = c.acts.filter(|a: Act| registers(a));
    let b = c.acts.filter(|a: Act| answers(a));
    if fresh.len() == 0 {
        assert(a + watched.map_values(sign) =~= a);
        assert(b + fresh.map_values(say) =~= b);
        assert(end.acts.take(c.acts.len() as int) =~= c.acts);
    } else {
        let front = fresh.drop_last();
        let f = fresh.last();
        lemma_answers(c, front);
        let mid = c.all_answered(front);
        let was = front.filter(|f: Fresh| f.kind.role != crate::entity::Role::Unattended);
        lemma_filter_push(mid.acts, sign(f), |a: Act| registers(a));
        lemma_filter_push(mid.acts, sign(f), |a: Act| answers(a));
        lemma_filter_push(mid.acts, sign(f), |a: Act| buries(a));
        let signed = if f.kind.role != crate::entity::Role::Unattended {
            mid.acts.push(sign(f))
        } else {
            mid.acts
        };
        lemma_filter_push(signed, say(f), |a: Act| registers(a));
        lemma_filter_push(signed, say(f), |a: Act| answers(a));
        lemma_filter_push(signed, say(f), |a: Act| buries(a));
        assert(end.acts == signed.push(say(f)));
        assert(end.acts.take(c.acts.len() as int) =~= mid.acts.take(c.acts.len() as int));
        assert(b + fresh.map_values(say) =~= (b + front.map_values(say)).push(say(f)));
        if f.kind.role != crate::entity::Role::Unattended {
            assert(watched == was.push(f));
            assert(a + watched.map_values(sign) =~= (a + was.map_values(sign)).push(sign(f)));
        }
    }
}

/// Between ticks every edge hears exactly what became of its own. Each spawn is
/// answered once, in order, with the token that came with it, and a viewer is
/// registered for each that observes. Each entity given back, and each the game
/// itself despawned that an edge manages, is reported to that edge once, and
/// the viewer that watched it is dropped. What was despawned is nobody's
/// afterwards, and everything else is managed and watched as before.
pub proof fn law_settling_reports_exactly_what_changed(
    desk: Desk,
    despawned: Seq<EntityId>,
    now: Load,
)
    requires
        despawned.no_duplicates(),
    ensures
        ({
            let end = desk.settled(despawned, now);
            let watched = desk.fresh.filter(
                |f: Fresh| f.kind.role != crate::entity::Role::Unattended,
            );
            &&& end.acts.filter(|a: Act| registers(a)) == watched.map_values(
                |f: Fresh| Act::Register(f.edge, f.entity),
            )
            &&& end.acts.filter(|a: Act| answers(a)) == desk.fresh.map_values(
                |f: Fresh|
                    Act::Report(f.edge, Presence::Added { entity: f.entity, token: f.token }),
            )
            &&& end.acts.filter(|a: Act| buries(a)) == desk.gone.filter(
                |g: (Option<EdgeId>, EntityId)| g.0 is Some,
            ).map_values(
                |g: (Option<EdgeId>, EntityId)|
                    Act::Report(g.0->0, Presence::Removed { entity: g.1 }),
            ) + despawned.filter(
                |id: EntityId| desk.roster.owners.contains_key(id.0),
            ).map_values(
                |id: EntityId|
                    Act::Report(
                        EdgeId(desk.roster.owners[id.0]),
                        Presence::Removed { entity: id },
                    ),
            )
            &&& end.desk.fresh.len() == 0
            &&& end.desk.gone.len() == 0
            &&& end.desk.queue == desk.queue
            &&& forall|e: u32| #[trigger]
                end.desk.roster.owners.contains_key(e) <==> desk.roster.owners.contains_key(e)
                    && !despawned.contains(EntityId(e))
            &&& forall|e: u32| #[trigger]
                end.desk.roster.owners.contains_key(e) ==> end.desk.roster.owners[e]
                    == desk.roster.owners[e]
        }),
        ({
            let end = desk.settled(despawned, now);
            forall|e: u32|
                #![trigger end.desk.watchers.contains_key(e)]
                {
                    let named = (exists|i: int|
                        0 <= i < desk.gone.len() && (#[trigger] desk.gone[i]).1 == EntityId(e)) || (
                    despawned.contains(EntityId(e)) && desk.roster.owners.contains_key(e));
                    &&& end.desk.watchers.contains_key(e) <==> desk.watchers.contains_key(e)
                        && !named
                    &&& end.desk.watchers.contains_key(e) ==> end.desk.watchers[e]
                        == desk.watchers[e]
                    &&& desk.watchers.contains_key(e) && named ==> end.acts.contains(
                        Act::Drop(crate::sim::ViewerId(desk.watchers[e])),
                    )
                }
        }),
{
    reveal(Seq::filter);
    let start = Closing {
        desk: Desk {
            fresh: Seq::empty(),
            gone: Seq::empty(),
            load: desk.load.after(now),
            ..desk
        },
        acts: Seq::empty(),
    };
    let torn = start.all_retired(desk.gone);
    let more = mourned(torn.desk, despawned);
    let done = torn.all_reconciled(despawned);
    let end = desk.settled(despawned, now);
    lemma_retired(start, desk.gone);
    lemma_reconciled(torn, despawned);
    lemma_retired(torn, more);
    lemma_answers(done, desk.fresh);
    assert(more == mourned(desk, despawned));
    lemma_burials(desk.gone);
    lemma_burials(more);
    assert(burials(more) =~= despawned.filter(
        |id: EntityId| desk.roster.owners.contains_key(id.0),
    ).map_values(
        |id: EntityId|
            Act::Report(EdgeId(desk.roster.owners[id.0]), Presence::Removed { entity: id }),
    )) by {
        lemma_all_kept(more, |g: (Option<EdgeId>, EntityId)| g.0 is Some);
    }
    assert(start.acts.filter(|a: Act| registers(a)) =~= Seq::empty());
    assert(start.acts.filter(|a: Act| answers(a)) =~= Seq::empty());
    assert(start.acts.filter(|a: Act| buries(a)) =~= Seq::empty());
    assert(Seq::<Act>::empty() + burials(desk.gone) =~= burials(desk.gone));
    let watched = desk.fresh.filter(|f: Fresh| f.kind.role != crate::entity::Role::Unattended);
    assert(Seq::<Act>::empty() + watched.map_values(
        |f: Fresh| Act::Register(f.edge, f.entity),
    ) =~= watched.map_values(|f: Fresh| Act::Register(f.edge, f.entity)));
    assert(Seq::<Act>::empty() + desk.fresh.map_values(
        |f: Fresh| Act::Report(f.edge, Presence::Added { entity: f.entity, token: f.token }),
    ) =~= desk.fresh.map_values(
        |f: Fresh| Act::Report(f.edge, Presence::Added { entity: f.entity, token: f.token }),
    ));
    assert forall|e: u32|
        #![trigger end.desk.watchers.contains_key(e)]
        {
            let named = (exists|i: int|
                0 <= i < desk.gone.len() && (#[trigger] desk.gone[i]).1 == EntityId(e)) || (
            despawned.contains(EntityId(e)) && desk.roster.owners.contains_key(e));
            &&& end.desk.watchers.contains_key(e) <==> desk.watchers.contains_key(e) && !named
            &&& end.desk.watchers.contains_key(e) ==> end.desk.watchers[e] == desk.watchers[e]
            &&& desk.watchers.contains_key(e) && named ==> end.acts.contains(
                Act::Drop(crate::sim::ViewerId(desk.watchers[e])),
            )
        } by {
        let first = exists|i: int|
            0 <= i < desk.gone.len() && (#[trigger] desk.gone[i]).1 == EntityId(e);
        let second = exists|i: int| 0 <= i < more.len() && (#[trigger] more[i]).1 == EntityId(e);
        lemma_mourned(desk, despawned, e);
        assert(done.desk.watchers.contains_key(e) == end.desk.watchers.contains_key(e));
        assert(torn.desk.watchers.contains_key(e) <==> desk.watchers.contains_key(e) && !first);
        if desk.watchers.contains_key(e) && (first || second) {
            let want = Act::Drop(crate::sim::ViewerId(desk.watchers[e]));
            if first {
                assert(torn.acts.contains(want));
                let i = choose|i: int| 0 <= i < torn.acts.len() && torn.acts[i] == want;
                assert(done.acts.take(torn.acts.len() as int)[i] == want);
                assert(done.acts[i] == want);
                assert(end.acts.take(done.acts.len() as int)[i] == want);
                assert(end.acts[i] == want);
            } else {
                assert(done.acts.contains(want));
                let i = choose|i: int| 0 <= i < done.acts.len() && done.acts[i] == want;
                assert(end.acts.take(done.acts.len() as int)[i] == want);
                assert(end.acts[i] == want);
            }
        }
    }
}

proof fn lemma_burials(gone: Seq<(Option<EdgeId>, EntityId)>)
    ensures
        burials(gone) == gone.filter(|g: (Option<EdgeId>, EntityId)| g.0 is Some).map_values(
            |g: (Option<EdgeId>, EntityId)|
                Act::Report(g.0->0, Presence::Removed { entity: g.1 }),
        ),
    decreases gone.len(),
{
    reveal(Seq::filter);
    let keep = |g: (Option<EdgeId>, EntityId)| g.0 is Some;
    let say = |g: (Option<EdgeId>, EntityId)|
        Act::Report(g.0->0, Presence::Removed { entity: g.1 });
    if gone.len() > 0 {
        let front = gone.drop_last();
        lemma_burials(front);
        if gone.last().0 is Some {
            assert(gone.filter(keep) == front.filter(keep).push(gone.last()));
            assert(gone.filter(keep).map_values(say) =~= front.filter(keep).map_values(say).push(
                say(gone.last()),
            ));
        }
    } else {
        assert(gone.filter(keep).map_values(say) =~= Seq::empty());
    }
}

/// A list all of which is wanted is kept whole.
proof fn lemma_all_kept<A>(s: Seq<A>, keep: spec_fn(A) -> bool)
    requires
        forall|i: int| 0 <= i < s.len() ==> keep(#[trigger] s[i]),
    ensures
        s.filter(keep) == s,
    decreases s.len(),
{
    reveal(Seq::filter);
    if s.len() > 0 {
        let front = s.drop_last();
        assert forall|i: int| 0 <= i < front.len() implies keep(#[trigger] front[i]) by {
            assert(front[i] == s[i]);
        }
        lemma_all_kept(front, keep);
        assert(keep(s[s.len() - 1]));
        assert(s =~= front.push(s.last()));
    }
}

/// What is kept of a list was on it.
proof fn lemma_filtered<A>(s: Seq<A>, keep: spec_fn(A) -> bool, i: int)
    requires
        0 <= i < s.filter(keep).len(),
    ensures
        s.contains(s.filter(keep)[i]),
        keep(s.filter(keep)[i]),
    decreases s.len(),
{
    reveal(Seq::filter);
    if s.len() > 0 {
        let front = s.drop_last();
        assert(s[s.len() - 1] == s.last());
        if i < front.filter(keep).len() {
            lemma_filtered(front, keep, i);
            let k = choose|k: int| 0 <= k < front.len() && front[k] == front.filter(keep)[i];
            assert(s[k] == front[k]);
        }
    }
}

proof fn lemma_mourned(desk: Desk, ids: Seq<EntityId>, e: u32)
    ensures
        (exists|i: int|
            0 <= i < mourned(desk, ids).len() && (#[trigger] mourned(desk, ids)[i]).1 == EntityId(
                e,
            )) <==> ids.contains(EntityId(e)) && desk.roster.owners.contains_key(e),
{
    let keep = |id: EntityId| desk.roster.owners.contains_key(id.0);
    let some = ids.filter(keep);
    let all = mourned(desk, ids);
    ids.filter_lemma(keep);
    if ids.contains(EntityId(e)) && desk.roster.owners.contains_key(e) {
        let j = choose|j: int| 0 <= j < ids.len() && ids[j] == EntityId(e);
        assert(keep(ids[j]) && some.contains(ids[j]));
        let i = choose|i: int| 0 <= i < some.len() && some[i] == EntityId(e);
        assert(all[i].1 == EntityId(e));
    }
    if exists|i: int| 0 <= i < all.len() && (#[trigger] all[i]).1 == EntityId(e) {
        let i = choose|i: int| 0 <= i < all.len() && (#[trigger] all[i]).1 == EntityId(e);
        assert(some[i] == EntityId(e));
        lemma_filtered(ids, keep, i);
    }
}

/// A message an edge sends is queued as what the edge put in it, behind what is
/// queued already, under that edge's own name and counted as received. A
/// keepalive says nothing and queues nothing.
pub proof fn law_what_an_edge_sends_is_what_is_queued(
    desk: Desk,
    edge: EdgeId,
    spawns: SpawnEntities,
    moves: MoveEntities,
    ids: DespawnEntities,
)
    requires
        spawns.takeable(),
        moves.moves@.len() <= protocol::MAX_MOVES_PER_MESSAGE,
        ids.ids@.len() <= protocol::MAX_DESPAWN_PER_MESSAGE,
    ensures
        ({
            let asked = desk.accepted(edge, seq![protocol::KIND_SPAWN_ENTITIES] + spawns.wire());
            let moved = desk.accepted(edge, seq![protocol::KIND_MOVE_ENTITIES] + moves.wire());
            let dropped = desk.accepted(edge, seq![protocol::KIND_DESPAWN_ENTITIES] + ids.wire());
            let alive = desk.accepted(edge, seq![protocol::KIND_KEEPALIVE]);
            &&& asked.queue == desk.queue.push(Order::Spawn { edge, spawns: spawns.spawns@ })
            &&& moved.queue == desk.queue.push(Order::Move { edge, moves: moves.moves@ })
            &&& dropped.queue == desk.queue.push(Order::Despawn { edge, ids: ids.ids@ })
            &&& alive == desk
            &&& desk.received < u64::MAX ==> asked.received == desk.received + 1
                && moved.received == desk.received + 1 && dropped.received == desk.received + 1
            &&& asked.refused == desk.refused && moved.refused == desk.refused && dropped.refused
                == desk.refused
        }),
{
    protocol::lemma_spawns_in(spawns.spawns@);
    protocol::lemma_moves_in(moves.moves@);
    protocol::lemma_ids_in(ids.ids@);
    protocol::law_spawn_requests_round_trip(spawns, spawns);
    protocol::law_moves_round_trip(moves, moves);
    protocol::law_despawns_round_trip(ids, ids);
    assert((seq![protocol::KIND_SPAWN_ENTITIES] + spawns.wire()).skip(1) =~= spawns.wire());
    assert((seq![protocol::KIND_MOVE_ENTITIES] + moves.wire()).skip(1) =~= moves.wire());
    assert((seq![protocol::KIND_DESPAWN_ENTITIES] + ids.wire()).skip(1) =~= ids.wire());
}

// ---------------------------------------------------------------------------
// Watching, counting and addressing
// ---------------------------------------------------------------------------

/// A viewer registered for an entity watches it, and is counted as one of its
/// edge's; nothing else is changed.
pub proof fn law_a_registered_viewer_watches_its_entity(
    desk: Desk,
    edge: EdgeId,
    entity: EntityId,
    viewer: ViewerId,
)
    requires
        viewer.0 != u32::MAX,
        edge.0 < desk.roster.slots.len(),
        desk.roster.slots[edge.0 as int] is Some,
        desk.roster.slots[edge.0 as int]->0.stats.observers < u64::MAX,
    ensures
        ({
            let after = desk.watched(edge, entity, viewer);
            let was = desk.roster.slots[edge.0 as int]->0;
            let is = after.roster.slots[edge.0 as int]->0;
            &&& after.watchers == desk.watchers.insert(entity.0, viewer.0)
            &&& after.roster.slots.len() == desk.roster.slots.len()
            &&& after.roster.slots[edge.0 as int] is Some
            &&& is.stats.observers == was.stats.observers + 1
            &&& is.stats.messages == was.stats.messages && is.stats.payloads == was.stats.payloads
            &&& is.stats.bytes == was.stats.bytes && is.stats.refused == was.stats.refused
            &&& is.name == was.name && is.since == was.since && is.heard == was.heard
            &&& is.entities == was.entities
            &&& forall|i: int|
                0 <= i < desk.roster.slots.len() && i != edge.0
                    ==> #[trigger] after.roster.slots[i] == desk.roster.slots[i]
            &&& after.roster.owners == desk.roster.owners
            &&& after.queue == desk.queue && after.fresh == desk.fresh && after.gone == desk.gone
            &&& after.load == desk.load
        }),
{
}

/// What a heartbeat says of a run of ticks: what the region holds as the last
/// tick left it, the mean tick and the viewers a tick served, rounded down, and
/// the worst tick and the ticks late and dropped as they are. Of no ticks it
/// says none.
pub proof fn law_a_heartbeat_says_what_the_ticks_came_to(load: Load)
    requires
        load.span.viewers <= u32::MAX,
    ensures
        ({
            let s = load.summary();
            let (n, total) = (load.span.ticks as int, load.span.total as int);
            &&& s.tick_count == load.tick_count
            &&& s.entities == load.entities
            &&& s.slots == load.slots
            &&& s.worst_tick == load.span.worst
            &&& s.late == load.span.late
            &&& s.dropped == load.span.dropped
            &&& n == 0 ==> s.mean_tick == 0 && s.viewers == 0
            &&& n > 0 ==> s.mean_tick * n <= total < (s.mean_tick + 1) * n
            &&& n > 0 ==> s.viewers * n <= load.span.viewers < (s.viewers + 1) * n
        }),
{
    let (n, total, v) = (
        load.span.ticks as int,
        load.span.total as int,
        load.span.viewers as int,
    );
    if n > 0 {
        let (q, p) = (total / n, v / n);
        assert(q * n <= total < (q + 1) * n) by (nonlinear_arith)
            requires
                n > 0,
                q == total / n,
        ;
        assert(p * n <= v < (p + 1) * n) by (nonlinear_arith)
            requires
                n > 0,
                p == v / n,
        ;
        assert(0 <= q <= total) by (nonlinear_arith)
            requires
                n > 0,
                total >= 0,
                q == total / n,
        ;
        assert(0 <= p <= v) by (nonlinear_arith)
            requires
                n > 0,
                v >= 0,
                p == v / n,
        ;
    }
}

/// A tick that is settled leaves what the region holds as that tick has it, and
/// adds its time to what was there: the sums of the times and the counts, and
/// the worse of the worst.
pub proof fn law_a_tick_adds_to_the_load(load: Load, now: Load)
    ensures
        ({
            let l = load.after(now);
            &&& l.tick_count == now.tick_count
            &&& l.entities == now.entities
            &&& l.slots == now.slots
            &&& l.span.ticks == vstd::math::min(load.span.ticks + now.span.ticks, u32::MAX as int)
            &&& l.span.total == vstd::math::min(load.span.total + now.span.total, u64::MAX as int)
            &&& l.span.viewers == vstd::math::min(
                load.span.viewers + now.span.viewers,
                u64::MAX as int,
            )
            &&& l.span.worst == vstd::math::max(load.span.worst as int, now.span.worst as int)
            &&& l.span.late == vstd::math::min(load.span.late + now.span.late, u32::MAX as int)
            &&& l.span.dropped == vstd::math::min(
                load.span.dropped + now.span.dropped,
                u32::MAX as int,
            )
        }),
{
}

/// What settling did is counted by what it was: a viewer added, a viewer
/// dropped, or a report, the last only if it was delivered.
pub proof fn law_what_settling_did_is_counted(
    done: Settled,
    act: Act,
    delivered: bool,
)
    requires
        done.registered < u32::MAX,
        done.unregistered < u32::MAX,
        done.reported < u32::MAX,
    ensures
        ({
            let after = done.with(act, delivered);
            &&& after.registered - done.registered == if act is Register {
                1int
            } else {
                0
            }
            &&& after.unregistered - done.unregistered == if act is Drop {
                1int
            } else {
                0
            }
            &&& after.reported - done.reported == if act is Report && delivered {
                1int
            } else {
                0
            }
        }),
{
}

/// A viewer's payload is for the entity it watches and goes to the edge that
/// manages that entity, under the name the edge goes by now; one whose viewer
/// watches nothing, or whose entity nobody manages, goes to nobody.
pub proof fn law_a_payload_goes_to_whoever_manages_its_avatar(
    routes: Routes,
    roster: Roster,
    viewer: ViewerId,
    edge: EdgeId,
)
    ensures
        match routes.recipient(roster, viewer) {
            Some((avatar, edge)) => {
                &&& routes.avatars.contains_key(viewer.0)
                &&& routes.avatars[viewer.0] == avatar.0
                &&& roster.owners.contains_key(avatar.0)
                &&& roster.owners[avatar.0] == edge.0
            },
            None => !routes.avatars.contains_key(viewer.0) || !roster.owners.contains_key(
                routes.avatars[viewer.0],
            ),
        },
        ({
            let now = routes.current(roster);
            &&& now.generation == roster.generation
            &&& routes.generation == roster.generation ==> now == routes
            &&& routes.generation != roster.generation ==> match now.name_of(edge) {
                Some(name) => edge.0 < roster.slots.len() && roster.slots[edge.0 as int] is Some
                    && roster.slots[edge.0 as int]->0.name == name,
                None => edge.0 >= roster.slots.len() || roster.slots[edge.0 as int] is None,
            }
            &&& now.avatars == routes.avatars && now.region == routes.region
            &&& now.sent == routes.sent && now.failed == routes.failed
            &&& now.undeliverable == routes.undeliverable
        }),
{
}

/// What is counted for an edge goes by one, for that edge and nothing else: a
/// message it sent, a command of its that was declined, a viewer registered or
/// dropped.
pub proof fn law_an_edge_is_counted_by_one(roster: Roster, edge: EdgeId, i: int)
    requires
        roster.attached(edge),
    ensures
        ({
            let was = (roster.slots[edge.0 as int]->0).stats;
            let heard = (roster.heard(edge).slots[edge.0 as int]->0).stats;
            let declined = (roster.declining(edge).slots[edge.0 as int]->0).stats;
            let more = (roster.observing(edge).slots[edge.0 as int]->0).stats;
            let fewer = (roster.unobserving(edge).slots[edge.0 as int]->0).stats;
            &&& was.messages < u64::MAX ==> heard.messages == was.messages + 1
            &&& was.refused < u64::MAX ==> declined.refused == was.refused + 1
            &&& was.observers < u64::MAX ==> more.observers == was.observers + 1
            &&& was.observers > 0 ==> fewer.observers == was.observers - 1
            &&& heard.refused == was.refused && heard.observers == was.observers
            &&& declined.messages == was.messages && declined.observers == was.observers
            &&& more.messages == was.messages && more.refused == was.refused
            &&& fewer.messages == was.messages && fewer.refused == was.refused
            &&& heard.payloads == was.payloads && heard.bytes == was.bytes
            &&& declined.payloads == was.payloads && declined.bytes == was.bytes
        }),
        roster.heard(edge).owners == roster.owners,
        roster.declining(edge).owners == roster.owners,
        0 <= i < roster.slots.len() && i != edge.0 ==> roster.heard(edge).slots[i]
            == roster.slots[i] && roster.declining(edge).slots[i] == roster.slots[i]
            && roster.observing(edge).slots[i] == roster.slots[i] && roster.unobserving(
            edge,
        ).slots[i] == roster.slots[i],
{
}

/// A message that asks for nothing well-formed is declined: it is counted, for
/// the region and for the edge that sent it, and queues nothing.
pub proof fn law_a_bad_message_is_counted_and_dropped(desk: Desk, edge: EdgeId, message: Seq<u8>)
    requires
        message.len() > 0,
        message[0] != protocol::KIND_KEEPALIVE,
        message[0] != protocol::KIND_SPAWN_ENTITIES || SpawnEntities::refusal(message.skip(1))
            is Some,
        message[0] != protocol::KIND_MOVE_ENTITIES || MoveEntities::refusal(message.skip(1))
            is Some,
        message[0] != protocol::KIND_DESPAWN_ENTITIES || DespawnEntities::refusal(message.skip(1))
            is Some,
        desk.refused < u64::MAX,
    ensures
        ({
            let after = desk.accepted(edge, message);
            &&& after.refused == desk.refused + 1
            &&& after.queue == desk.queue
            &&& after.received == desk.received
            &&& after.roster.owners == desk.roster.owners
            &&& desk.roster.attached(edge) ==> {
                let was = (desk.roster.slots[edge.0 as int]->0).stats;
                let now = (after.roster.slots[edge.0 as int]->0).stats;
                was.refused < u64::MAX ==> now.refused == was.refused + 1 && now.messages
                    == was.messages
            }
        }),
{
}

/// A spawn its edge can no longer claim leaves nobody behind, and one outside
/// the region makes nobody at all; either is declined, for that edge, and is
/// answered with nothing.
pub proof fn law_a_spawn_nobody_can_claim_leaves_nobody(
    work: Work,
    w: World,
    edge: EdgeId,
    want: Spawn,
)
    requires
        work.crowd.placed(),
        work.crowd.at.len() <= u32::MAX,
        !inside(w, want.position) || !work.desk.roster.attached(edge),
        work.done.refused < u32::MAX,
    ensures
        ({
            let end = work.spawned(w, edge, want);
            &&& end.crowd.live == work.crowd.live
            &&& end.desk.fresh == work.desk.fresh
            &&& end.desk.gone == work.desk.gone
            &&& end.desk.roster.owners == work.desk.roster.owners
            &&& end.done == (Applied { refused: (work.done.refused + 1) as u32, ..work.done })
            &&& !inside(w, want.position) ==> end.crowd == work.crowd
        }),
{
    let end = work.spawned(w, edge, want);
    assert(end.crowd.live =~= work.crowd.live);
}

proof fn lemma_orphans_decline(work: Work, ids: Seq<EntityId>)
    ensures
        work.all_orphaned(ids).desk.refused == work.desk.refused,
        work.all_orphaned(ids).done.refused == work.done.refused,
    decreases ids.len(),
{
    if ids.len() > 0 {
        lemma_orphans_decline(work, ids.drop_last());
    }
}

proof fn lemma_order_declines(work: Work, w: World, order: Order)
    ensures
        work.ordered(w, order).desk.refused == work.desk.refused,
    decreases crate::net::region::session::weight(order),
{
    match order {
        Order::Spawn { edge, spawns } => {
            if spawns.len() > 0 {
                lemma_order_declines(work, w, Order::Spawn { edge, spawns: spawns.drop_last() });
            }
        },
        Order::Move { edge, moves } => {
            if moves.len() > 0 {
                lemma_order_declines(work, w, Order::Move { edge, moves: moves.drop_last() });
            }
        },
        Order::Despawn { edge, ids } => {
            if ids.len() > 0 {
                lemma_order_declines(work, w, Order::Despawn { edge, ids: ids.drop_last() });
            }
        },
    }
}

proof fn lemma_orders_decline(work: Work, w: World, orders: Seq<Order>)
    ensures
        work.all_ordered(w, orders).desk.refused == work.desk.refused,
    decreases orders.len(),
{
    if orders.len() > 0 {
        lemma_orders_decline(work, w, orders.drop_last());
        lemma_order_declines(work.all_ordered(w, orders.drop_last()), w, orders.last());
    }
}

/// What a tick declines is added to all that has been declined.
pub proof fn law_what_a_tick_declines_is_added_up(desk: Desk, w: World, crowd: Crowd)
    ensures
        ({
            let end = desk.applied(w, crowd);
            desk.refused + end.done.refused <= u64::MAX ==> end.desk.refused == desk.refused
                + end.done.refused
        }),
{
    let start = Work {
        desk: Desk {
            queue: Seq::empty(),
            roster: Roster { detached: Seq::empty(), ..desk.roster },
            ..desk
        },
        crowd,
        done: Applied::none(),
    };
    lemma_orphans_decline(start, desk.roster.detached);
    lemma_orders_decline(start.all_orphaned(desk.roster.detached), w, desk.queue);
}

} // verus!
