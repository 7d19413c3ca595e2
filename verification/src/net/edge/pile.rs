//! Things to be said, put together by the region they are for.

use vstd::prelude::*;

use crate::entity::EntityId;
use crate::id::RegionId;
use crate::net::edge::model::Outgoing;
use crate::net::region::protocol::Spawn;

verus! {

/// Everything for one region, in order.
#[derive(Clone, Debug)]
pub struct Pile<T> {
    /// Which region.
    pub region: RegionId,
    /// What for it.
    pub items: Vec<T>,
}

/// Whether no region has two piles.
pub open spec fn distinct<T>(piles: Seq<Pile<T>>) -> bool {
    forall|i: int, j: int|
        0 <= i < j < piles.len() ==> (#[trigger] piles[i]).region != (#[trigger] piles[j]).region
}

/// Whether no pile is empty.
pub open spec fn filled<T>(piles: Seq<Pile<T>>) -> bool {
    forall|i: int| 0 <= i < piles.len() ==> (#[trigger] piles[i]).items@.len() > 0
}

/// What is piled for a region.
pub open spec fn pile_for<T>(piles: Seq<Pile<T>>, region: RegionId) -> Seq<T>
    decreases piles.len(),
{
    if piles.len() == 0 {
        Seq::empty()
    } else if piles.last().region == region {
        piles.last().items@
    } else {
        pile_for(piles.drop_last(), region)
    }
}

/// A region's pile is the one under its name.
pub proof fn lemma_pile_at<T>(piles: Seq<Pile<T>>, i: int)
    requires
        distinct(piles),
        0 <= i < piles.len(),
    ensures
        pile_for(piles, piles[i].region) == piles[i].items@,
    decreases piles.len(),
{
    if i < piles.len() - 1 {
        let front = piles.drop_last();
        assert(front[i] == piles[i]);
        assert(piles[i].region != piles[piles.len() - 1].region);
        assert forall|a: int, b: int| 0 <= a < b < front.len() implies (#[trigger] front[a]).region
            != (#[trigger] front[b]).region by {
            assert(front[a] == piles[a] && front[b] == piles[b]);
        }
        lemma_pile_at(front, i);
    }
}

/// A region no pile is under has nothing.
pub proof fn lemma_no_pile<T>(piles: Seq<Pile<T>>, region: RegionId)
    requires
        forall|i: int| 0 <= i < piles.len() ==> (#[trigger] piles[i]).region != region,
    ensures
        pile_for(piles, region).len() == 0,
    decreases piles.len(),
{
    if piles.len() > 0 {
        let front = piles.drop_last();
        assert forall|i: int| 0 <= i < front.len() implies (#[trigger] front[i]).region
            != region by {
            assert(front[i] == piles[i]);
        }
        assert(piles[piles.len() - 1].region != region);
        lemma_no_pile(front, region);
    }
}

/// Puts one thing on its region's pile.
pub fn heap<T>(piles: &mut Vec<Pile<T>>, region: RegionId, item: T)
    requires
        distinct(old(piles)@),
        filled(old(piles)@),
    ensures
        distinct(final(piles)@),
        filled(final(piles)@),
        forall|r: RegionId| #[trigger]
            pile_for(final(piles)@, r) == if r == region {
                pile_for(old(piles)@, r).push(item)
            } else {
                pile_for(old(piles)@, r)
            },
{
    let ghost was = piles@;
    let mut i: usize = 0;
    while i < piles.len()
        invariant
            i <= piles@.len(),
            piles@ == was,
            forall|j: int| 0 <= j < i ==> (#[trigger] piles@[j]).region != region,
        ensures
            i < piles@.len() ==> piles@[i as int].region == region,
        decreases piles@.len() - i,
    {
        if piles[i].region.raw() == region.raw() {
            break;
        }
        i = i + 1;
    }
    if i < piles.len() {
        let mut pile = Pile { region, items: Vec::new() };
        std::mem::swap(&mut pile, &mut piles[i]);
        pile.items.push(item);
        let ghost grown = pile;
        piles[i] = pile;
        proof {
            assert(piles@ =~= was.update(i as int, grown));
            assert forall|a: int, b: int| 0 <= a < b < piles@.len() implies (
            #[trigger] piles@[a]).region != (#[trigger] piles@[b]).region by {
                assert(piles@[a].region == was[a].region && piles@[b].region == was[b].region);
            }
            assert forall|r: RegionId| #[trigger]
                pile_for(piles@, r) == if r == region {
                    pile_for(was, r).push(item)
                } else {
                    pile_for(was, r)
                } by {
                if r != region {
                    lemma_replaced(was, piles@, i as int, r);
                }
                lemma_pile_at(was, i as int);
                lemma_pile_at(piles@, i as int);
            }
        }
    } else {
        let mut items: Vec<T> = Vec::new();
        items.push(item);
        piles.push(Pile { region, items });
        proof {
            lemma_no_pile(was, region);
            assert(piles@.drop_last() =~= was);
            assert(items@ =~= pile_for(was, region).push(item));
            assert forall|a: int, b: int| 0 <= a < b < piles@.len() implies (
            #[trigger] piles@[a]).region != (#[trigger] piles@[b]).region by {
                if b < was.len() {
                    assert(piles@[a] == was[a] && piles@[b] == was[b]);
                } else {
                    assert(piles@[a] == was[a]);
                }
            }
            assert forall|a: int| 0 <= a < piles@.len() implies (
            #[trigger] piles@[a]).items@.len() > 0 by {
                if a < was.len() {
                    assert(piles@[a] == was[a]);
                }
            }
        }
    }
}

/// Changing one pile leaves the others.
proof fn lemma_replaced<T>(was: Seq<Pile<T>>, now: Seq<Pile<T>>, i: int, r: RegionId)
    requires
        0 <= i < was.len(),
        was.len() == now.len(),
        was[i].region == now[i].region,
        r != was[i].region,
        forall|j: int| 0 <= j < was.len() && j != i ==> now[j] == was[j],
    ensures
        pile_for(now, r) == pile_for(was, r),
    decreases was.len(),
{
    if i < was.len() - 1 {
        assert(now[now.len() - 1] == was[was.len() - 1]);
        assert(now.drop_last()[i] == now[i] && was.drop_last()[i] == was[i]);
        lemma_replaced(was.drop_last(), now.drop_last(), i, r);
    } else {
        assert(now.drop_last() =~= was.drop_last());
    }
}

/// What is to be said to regions, by kind and region.
#[derive(Debug)]
pub struct Dispatch {
    /// Entities asked for.
    pub spawns: Vec<Pile<Spawn>>,
    /// Messages for entities.
    pub messages: Vec<Pile<(EntityId, Vec<u8>)>>,
    /// Entities given back.
    pub gone: Vec<Pile<EntityId>>,
}

/// The spawns among what is said that are for a region.
pub open spec fn spawns_for(said: Seq<Outgoing<Vec<u8>>>, region: RegionId) -> Seq<Spawn>
    decreases said.len(),
{
    if said.len() == 0 {
        Seq::empty()
    } else {
        let front = spawns_for(said.drop_last(), region);
        match said.last() {
            Outgoing::Spawn(r, s, _) => if r == region {
                front.push(s)
            } else {
                front
            },
            _ => front,
        }
    }
}

/// The despawns among what is said that are for a region.
pub open spec fn gone_for(said: Seq<Outgoing<Vec<u8>>>, region: RegionId) -> Seq<EntityId>
    decreases said.len(),
{
    if said.len() == 0 {
        Seq::empty()
    } else {
        let front = gone_for(said.drop_last(), region);
        match said.last() {
            Outgoing::Despawn(r, id) => if r == region {
                front.push(id)
            } else {
                front
            },
            _ => front,
        }
    }
}

/// The messages among what is said that are for a region.
pub open spec fn messages_for(said: Seq<Outgoing<Vec<u8>>>, region: RegionId) -> Seq<
    (EntityId, Seq<u8>),
>
    decreases said.len(),
{
    if said.len() == 0 {
        Seq::empty()
    } else {
        let front = messages_for(said.drop_last(), region);
        match said.last() {
            Outgoing::Message(r, id, b) => if r == region {
                front.push((id, b@))
            } else {
                front
            },
            _ => front,
        }
    }
}

/// Messages by what they say.
pub open spec fn spoken(items: Seq<(EntityId, Vec<u8>)>) -> Seq<(EntityId, Seq<u8>)> {
    items.map_values(|m: (EntityId, Vec<u8>)| (m.0, m.1@))
}

impl Dispatch {
    /// Puts together what is to be said to each region, so that a burst of
    /// spawns becomes one message per region rather than one message each. The
    /// order is kept within a kind and a region.
    pub fn sort(said: Vec<Outgoing<Vec<u8>>>) -> (d: Dispatch)
        ensures
            distinct(d.spawns@) && filled(d.spawns@),
            distinct(d.messages@) && filled(d.messages@),
            distinct(d.gone@) && filled(d.gone@),
            forall|r: RegionId| #[trigger] pile_for(d.spawns@, r) == spawns_for(said@, r),
            forall|r: RegionId| #[trigger] pile_for(d.gone@, r) == gone_for(said@, r),
            forall|r: RegionId|
                spoken(#[trigger] pile_for(d.messages@, r)) == messages_for(said@, r),
    {
        let ghost all = said@;
        let mut left = said;
        let mut d = Dispatch { spawns: Vec::new(), messages: Vec::new(), gone: Vec::new() };
        let mut turned: Vec<Outgoing<Vec<u8>>> = Vec::new();
        // Taken off the end one at a time, then put through in order.
        while left.len() > 0
            invariant
                left@ + turned@.reverse() == all,
            decreases left@.len(),
        {
            let ghost before = left@;
            let ghost held = turned@;
            if let Some(one) = left.pop() {
                turned.push(one);
                assert(turned@.reverse() =~= seq![one] + held.reverse());
                assert(before =~= left@.push(one));
                assert(left@ + turned@.reverse() =~= before + held.reverse());
            }
        }
        assert(turned@.reverse() =~= all);
        let ghost mut done: int = 0;
        proof {
            assert forall|r: RegionId|
                spoken(#[trigger] pile_for(d.messages@, r)) == messages_for(all.take(0), r) by {
                assert(spoken(pile_for(d.messages@, r)) =~= Seq::empty());
            }
        }
        while turned.len() > 0
            invariant
                0 <= done <= all.len(),
                turned@.len() == all.len() - done,
                turned@.reverse() == all.skip(done),
                distinct(d.spawns@) && filled(d.spawns@),
                distinct(d.messages@) && filled(d.messages@),
                distinct(d.gone@) && filled(d.gone@),
                forall|r: RegionId| #[trigger]
                    pile_for(d.spawns@, r) == spawns_for(all.take(done), r),
                forall|r: RegionId| #[trigger]
                    pile_for(d.gone@, r) == gone_for(all.take(done), r),
                forall|r: RegionId|
                    spoken(#[trigger] pile_for(d.messages@, r)) == messages_for(
                        all.take(done),
                        r,
                    ),
            decreases turned@.len(),
        {
            let ghost before = turned@;
            let ghost piled = d.messages@;
            if let Some(one) = turned.pop() {
                proof {
                    assert(before.reverse()[0] == one);
                    assert(all.skip(done)[0] == all[done]);
                    assert(turned@.reverse() =~= all.skip(done + 1)) by {
                        assert forall|k: int| 0 <= k < turned@.len() implies turned@.reverse()[k]
                            == all.skip(done + 1)[k] by {
                            assert(before.reverse()[k + 1] == all.skip(done)[k + 1]);
                        }
                    }
                    assert(all.take(done + 1).drop_last() =~= all.take(done));
                    assert(all.take(done + 1).last() == one);
                }
                match one {
                    Outgoing::Spawn(region, spawn, _) => heap(&mut d.spawns, region, spawn),
                    Outgoing::Despawn(region, id) => heap(&mut d.gone, region, id),
                    Outgoing::Message(region, id, body) => {
                        let ghost said_by = body@;
                        heap(&mut d.messages, region, (id, body));
                        proof {
                            assert forall|r: RegionId|
                                spoken(#[trigger] pile_for(d.messages@, r)) == messages_for(
                                    all.take(done + 1),
                                    r,
                                ) by {
                                if r == region {
                                    assert(spoken(pile_for(d.messages@, r)) =~= spoken(
                                        pile_for(piled, r),
                                    ).push((id, said_by)));
                                }
                            }
                        }
                    },
                }
                proof {
                    done = done + 1;
                }
            }
        }
        assert(all.take(done) =~= all);
        d
    }
}

/// What is said to regions is put together by region and kind and keeps its
/// order: a region's spawns, its despawns and its messages are those said to
/// it, each as it was said, and no others.
pub proof fn law_what_is_said_is_kept_in_order(said: Seq<Outgoing<Vec<u8>>>, region: RegionId)
    ensures
        spawns_for(said, region) == said.filter(
            |o: Outgoing<Vec<u8>>| o is Spawn && o->Spawn_0 == region,
        ).map_values(|o: Outgoing<Vec<u8>>| o->Spawn_1),
        gone_for(said, region) == said.filter(
            |o: Outgoing<Vec<u8>>| o is Despawn && o->Despawn_0 == region,
        ).map_values(|o: Outgoing<Vec<u8>>| o->Despawn_1),
        messages_for(said, region) == said.filter(
            |o: Outgoing<Vec<u8>>| o is Message && o->Message_0 == region,
        ).map_values(|o: Outgoing<Vec<u8>>| (o->Message_1, o->Message_2@)),
    decreases said.len(),
{
    reveal(Seq::filter);
    let asked = |o: Outgoing<Vec<u8>>| o is Spawn && o->Spawn_0 == region;
    let gone = |o: Outgoing<Vec<u8>>| o is Despawn && o->Despawn_0 == region;
    let told = |o: Outgoing<Vec<u8>>| o is Message && o->Message_0 == region;
    let spawn = |o: Outgoing<Vec<u8>>| o->Spawn_1;
    let id = |o: Outgoing<Vec<u8>>| o->Despawn_1;
    let body = |o: Outgoing<Vec<u8>>| (o->Message_1, o->Message_2@);
    if said.len() == 0 {
        assert(said.filter(asked).map_values(spawn) =~= spawns_for(said, region));
        assert(said.filter(gone).map_values(id) =~= gone_for(said, region));
        assert(said.filter(told).map_values(body) =~= messages_for(said, region));
    } else {
        let front = said.drop_last();
        let last = said.last();
        law_what_is_said_is_kept_in_order(front, region);
        if asked(last) {
            assert(said.filter(asked).map_values(spawn) =~= front.filter(asked).map_values(
                spawn,
            ).push(spawn(last)));
        }
        if gone(last) {
            assert(said.filter(gone).map_values(id) =~= front.filter(gone).map_values(id).push(
                id(last),
            ));
        }
        if told(last) {
            assert(said.filter(told).map_values(body) =~= front.filter(told).map_values(
                body,
            ).push(body(last)));
        }
    }
}

} // verus!
