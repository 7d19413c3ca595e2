//! What holds of an edge whatever happens to it.
//!
//! An edge keeps the same facts in several places: an entity names its client,
//! and the client lists the entity and may have a handle for it; an observer
//! is counted where it is kept. [`Edge::sound`] says that they agree, and the
//! laws here that nothing that can happen to an edge makes them disagree.

use vstd::prelude::*;

use crate::config::World;
use crate::entity::{EntityId, EntityKind, Role};
use crate::game::TeleportDecision;
use crate::id::{ClientId, EntityHandle, EntityKey, RegionId};
use crate::map::Placement;
use crate::net::edge::model;
use crate::net::edge::model::{
    Ask, Counters, Departure, Edge, Effect, Held, Notice, Outgoing, Party, Passage, Report, Said,
    Transit,
};
use crate::net::edge::protocol::{FromClient, ToClient};
use crate::net::edge::seam;
use crate::net::region::protocol::Spawn;
use crate::pos::{Pos3, WorldPos};
use crate::table;

verus! {

/// How many entities of a role there are.
pub open spec fn tally(by_key: Map<u64, Held>, role: Role) -> nat {
    by_key.dom().filter(|k: u64| by_key[k].kind.role == role).len()
}

impl Edge {
    /// Whether what one client holds and what the entities say of it agree:
    /// its list is of the entities that name it, once each, and its handles
    /// are those entities' own.
    pub open spec fn agrees(self, c: u64) -> bool {
        let party = self.clients[c];
        &&& party.keys.no_duplicates()
        &&& forall|k: EntityKey| #[trigger]
            party.keys.contains(k) ==> self.by_key.contains_key(k.0) && self.by_key[k.0].client
                == Some(ClientId(c))
        &&& forall|k: u64| #[trigger]
            self.by_key.contains_key(k) && self.by_key[k].client == Some(ClientId(c))
                ==> party.keys.contains(EntityKey(k))
        &&& forall|h: u64| #[trigger]
            party.handles.contains_key(h) ==> h <= u32::MAX && party.keys.contains(
                EntityKey(party.handles[h]),
            ) && self.by_key[party.handles[h]].handle == Some(EntityHandle(h as u32))
        &&& forall|k: u64| #[trigger]
            self.by_key.contains_key(k) && self.by_key[k].client == Some(ClientId(c)) ==> (
            match self.by_key[k].handle {
                Some(h) => party.handles.contains_key(h.0 as u64) && party.handles[h.0 as u64]
                    == k,
                None => true,
            })
    }

    /// Whether the copy a teleport made agrees with the entity it replaces: the
    /// same client's, of the same kind and under the same name, and without a
    /// handle of its own.
    pub open spec fn paired(self, k: u64) -> bool {
        match self.by_key[k].replaces {
            Some(old) => {
                &&& old.0 < k
                &&& self.by_key[k].handle is None
                &&& self.by_key[k].shadow_of is None
                &&& self.by_key.contains_key(old.0) ==> {
                    &&& self.by_key[old.0].client == self.by_key[k].client
                    &&& self.by_key[old.0].kind == self.by_key[k].kind
                    &&& self.by_key[old.0].name == self.by_key[k].name
                }
            },
            None => true,
        }
    }

    /// Whether an entity and its shadows agree: a shadow has no handle, is its
    /// owner's client's, and is on no other entity's list.
    pub open spec fn attended(self, k: u64) -> bool {
        let held = self.by_key[k];
        &&& match held.shadow_of {
            Some(owner) => {
                &&& owner.0 < k
                &&& held.handle is None
                &&& self.by_key.contains_key(owner.0) ==> self.by_key[owner.0].client
                    == held.client
            },
            None => true,
        }
        &&& forall|s: EntityKey| #[trigger]
            held.shadows.contains(s) ==> s.0 < self.next_key && (self.by_key.contains_key(s.0)
                ==> self.by_key[s.0].shadow_of == Some(EntityKey(k)))
    }

    /// Whether a client is one that has connected at some time, or is nobody.
    pub open spec fn numbered(self, client: Option<ClientId>) -> bool {
        match client {
            Some(c) => c.0 < self.next_client,
            None => true,
        }
    }

    /// Whether everything an edge keeps in more than one place agrees.
    pub open spec fn sound(self) -> bool {
        &&& self.by_key.dom().finite()
        &&& forall|k: u64| #[trigger] self.by_key.contains_key(k) ==> k < self.next_key
        &&& forall|k: u64| #[trigger]
            self.by_key.contains_key(k) ==> self.numbered(self.by_key[k].client)
        &&& forall|c: u64| #[trigger] self.clients.contains_key(c) ==> c < self.next_client
        &&& forall|c: u64| #[trigger] self.clients.contains_key(c) ==> self.agrees(c)
        &&& forall|k: u64| #[trigger] self.by_key.contains_key(k) ==> self.paired(k)
        &&& forall|k: u64| #[trigger] self.by_key.contains_key(k) ==> self.attended(k)
        &&& self.counters.observers == tally(self.by_key, Role::Observer) % 0x1_0000_0000
        &&& self.counters.shadows == tally(self.by_key, Role::Shadow) % 0x1_0000_0000
    }

    /// Whether a departure says of its entity what the edge does, if the edge
    /// still holds it.
    pub open spec fn describes(self, d: Departure) -> bool {
        &&& d.key.0 < self.next_key
        &&& self.numbered(d.client)
        &&& self.by_key.contains_key(d.key.0) ==> {
            let held = self.by_key[d.key.0];
            held.client == d.client && held.kind == d.kind && held.name == d.name
        }
    }

    /// Whether one edge may come of another: it is sound, an entity it still
    /// holds has the client, the kind, the name and the region it had and stands
    /// in for whom it did, and one it did not hold before goes by a key that had not
    /// been spent.
    pub open spec fn leads_to(self, after: Edge) -> bool {
        &&& after.sound()
        &&& self.next_key <= after.next_key
        &&& self.next_client <= after.next_client
        &&& forall|k: u64| #[trigger]
            after.by_key.contains_key(k) ==> if self.by_key.contains_key(k) {
                let (a, b) = (self.by_key[k], after.by_key[k]);
                b.client == a.client && b.kind == a.kind && b.name == a.name && b.region
                    == a.region && b.shadow_of == a.shadow_of
            } else {
                self.next_key <= k
            }
    }

    /// Whether an edge is another with nothing changed that [`sound`] speaks
    /// of.
    ///
    /// [`sound`]: Self::sound
    spec fn same_books(self, after: Edge) -> bool {
        &&& after.by_key == self.by_key
        &&& after.clients == self.clients
        &&& after.next_key == self.next_key
        &&& after.next_client == self.next_client
        &&& after.counters.observers == self.counters.observers
        &&& after.counters.shadows == self.counters.shadows
    }
}

// ---------------------------------------------------------------------------
// One step at a time
// ---------------------------------------------------------------------------

proof fn lemma_same_books(e: Edge, after: Edge)
    requires
        e.sound(),
        e.same_books(after),
    ensures
        after.sound(),
{
    assert forall|c: u64| #[trigger] after.clients.contains_key(c) implies after.agrees(c) by {
        assert(e.agrees(c));
    }
    assert forall|k: u64| #[trigger] after.by_key.contains_key(k) implies after.paired(k)
        && after.attended(k) by {
        assert(e.paired(k) && e.attended(k));
    }
}

/// Counting what has happened, the entities themselves apart, keeps the books.
pub proof fn law_counting_keeps_the_books(e: Edge, after: Edge)
    requires
        e.sound(),
        after == (Edge { counters: after.counters, ..e }),
        after.counters.observers == e.counters.observers,
        after.counters.shadows == e.counters.shadows,
    ensures
        after.sound(),
{
    lemma_same_books(e, after);
}

/// One entity fewer, or one more, of a role.
proof fn lemma_tally(by_key: Map<u64, Held>, key: u64, held: Held, role: Role)
    requires
        by_key.dom().finite(),
        !by_key.contains_key(key),
    ensures
        tally(by_key.insert(key, held), role) == tally(by_key, role) + if held.kind.role == role {
            1nat
        } else {
            0nat
        },
{
    let with = by_key.insert(key, held);
    let (a, b) = (
        by_key.dom().filter(|k: u64| by_key[k].kind.role == role),
        with.dom().filter(|k: u64| with[k].kind.role == role),
    );
    if held.kind.role == role {
        assert(b =~= a.insert(key));
    } else {
        assert(b =~= a);
    }
}

/// An entity's record changed, and its role not.
proof fn lemma_tally_same(by_key: Map<u64, Held>, key: u64, held: Held, role: Role)
    requires
        by_key.contains_key(key),
        by_key[key].kind.role == held.kind.role,
    ensures
        tally(by_key.insert(key, held), role) == tally(by_key, role),
{
    let with = by_key.insert(key, held);
    assert(with.dom().filter(|k: u64| with[k].kind.role == role) =~= by_key.dom().filter(
        |k: u64| by_key[k].kind.role == role,
    ));
}

/// An entity gone.
proof fn lemma_tally_less(by_key: Map<u64, Held>, key: u64, role: Role)
    requires
        by_key.dom().finite(),
        by_key.contains_key(key),
    ensures
        tally(by_key, role) == tally(by_key.remove(key), role) + if by_key[key].kind.role == role {
            1nat
        } else {
            0nat
        },
{
    lemma_tally(by_key.remove(key), key, by_key[key], role);
    assert(by_key.remove(key).insert(key, by_key[key]) =~= by_key);
}

/// Whether one record may stand for another: nothing the books speak of
/// differs, but that it may have stopped replacing anything.
spec fn alike(a: Held, b: Held) -> bool {
    &&& b.client == a.client
    &&& b.handle == a.handle
    &&& b.kind == a.kind
    &&& b.name == a.name
    &&& b.region == a.region
    &&& b.shadow_of == a.shadow_of
    &&& b.replaces == a.replaces || b.replaces is None
}

proof fn lemma_keeping(e: Edge, key: EntityKey, held: Held)
    requires
        e.sound(),
        e.by_key.contains_key(key.0),
        alike(e.by_key[key.0], held),
        forall|s: EntityKey| #[trigger]
            held.shadows.contains(s) ==> s.0 < e.next_key && (e.by_key.contains_key(s.0)
                ==> e.by_key[s.0].shadow_of == Some(key)),
    ensures
        e.keeping(key, held).sound(),
{
    let after = e.keeping(key, held);
    lemma_tally_same(e.by_key, key.0, held, Role::Observer);
    lemma_tally_same(e.by_key, key.0, held, Role::Shadow);
    assert(after.by_key.dom() =~= e.by_key.dom());
    assert forall|c: u64| #[trigger] after.clients.contains_key(c) implies after.agrees(c) by {
        assert(e.agrees(c));
        let party = e.clients[c];
        assert forall|k: u64| #[trigger]
            after.by_key.contains_key(k) && after.by_key[k].client == Some(
                ClientId(c),
            ) implies party.keys.contains(EntityKey(k)) && (match after.by_key[k].handle {
            Some(h) => party.handles.contains_key(h.0 as u64) && party.handles[h.0 as u64] == k,
            None => true,
        }) by {
            assert(e.by_key.contains_key(k));
        }
    }
    assert forall|k: u64| #[trigger] after.by_key.contains_key(k) implies after.paired(k)
        && after.attended(k) by {
        assert(e.by_key.contains_key(k));
        assert(e.paired(k) && e.attended(k));
        assert forall|s: EntityKey| #[trigger] after.by_key[k].shadows.contains(s) implies s.0
            < after.next_key && (after.by_key.contains_key(s.0) ==> after.by_key[s.0].shadow_of
            == Some(EntityKey(k))) by {
            if k != key.0 {
                assert(e.by_key[k].shadows.contains(s));
            }
        }
    }
}

/// Without a key, and without it twice.
pub proof fn lemma_without(keys: Seq<EntityKey>, key: EntityKey)
    ensures
        forall|k: EntityKey| #[trigger]
            model::without(keys, key).contains(k) == (keys.contains(k) && k != key),
        keys.no_duplicates() ==> model::without(keys, key).no_duplicates(),
    decreases keys.len(),
{
    if keys.len() > 0 {
        let front = keys.drop_last();
        lemma_without(front, key);
        let rest = model::without(front, key);
        let all = model::without(keys, key);
        assert forall|k: EntityKey| #[trigger] all.contains(k) == (keys.contains(k) && k
            != key) by {
            if keys.contains(k) && k != keys.last() {
                let i = choose|i: int| 0 <= i < keys.len() && keys[i] == k;
                assert(front[i] == k);
            }
            if front.contains(k) {
                let i = choose|i: int| 0 <= i < front.len() && front[i] == k;
                assert(keys[i] == k);
            }
            assert(keys[keys.len() - 1] == keys.last());
            if keys.last() != key {
                assert(all == rest.push(keys.last()));
                assert(all[rest.len() as int] == keys.last());
                if rest.contains(k) {
                    let i = choose|i: int| 0 <= i < rest.len() && rest[i] == k;
                    assert(all[i] == k);
                }
                if all.contains(k) && k != keys.last() {
                    let i = choose|i: int| 0 <= i < all.len() && all[i] == k;
                    assert(rest[i] == k);
                }
            }
        }
        if keys.no_duplicates() {
            assert(front.no_duplicates());
            if keys.last() != key {
                assert(!front.contains(keys.last()));
                assert(!rest.contains(keys.last()));
                assert(all == rest.push(keys.last()));
                assert(all.no_duplicates());
            }
        }
    }
}

proof fn lemma_asked(e: Edge, ask: Ask)
    requires
        e.sound(),
        e.next_key < u64::MAX,
        e.numbered(ask.client),
        ask.client is Some && ask.handle is Some ==> e.named(ask.client->0, ask.handle->0) is None,
        match ask.shadow_of {
            Some(owner) => ask.handle is None && (e.by_key.contains_key(owner.0)
                ==> e.by_key[owner.0].client == ask.client) && owner.0 < e.next_key,
            None => true,
        },
    ensures
        e.leads_to(e.asked(ask)),
        e.asked(ask).next_key == e.next_key + 1,
        e.asked(ask).next_client == e.next_client,
        !e.by_key.contains_key(e.next_key),
{
    let key = e.next_key;
    let after = e.asked(ask);
    let held = after.by_key[key];
    assert(!e.by_key.contains_key(key));
    lemma_tally(e.by_key, key, held, Role::Observer);
    lemma_tally(e.by_key, key, held, Role::Shadow);
    assert(after.by_key == e.by_key.insert(key, held));
    assert forall|c: u64| #[trigger] after.clients.contains_key(c) implies after.agrees(c) by {
        assert(e.clients.contains_key(c));
        assert(e.agrees(c));
        let (was, now) = (e.clients[c], after.clients[c]);
        if ask.client == Some(ClientId(c)) {
            assert(!was.keys.contains(EntityKey(key)));
            assert(now == was.with(EntityKey(key), ask.handle));
            assert(now.keys == was.keys.push(EntityKey(key)));
            assert forall|k: EntityKey| #[trigger] now.keys.contains(k) == (was.keys.contains(k)
                || k == EntityKey(key)) by {
                if was.keys.contains(k) {
                    let i = choose|i: int| 0 <= i < was.keys.len() && was.keys[i] == k;
                    assert(now.keys[i] == k);
                }
                assert(now.keys[was.keys.len() as int] == EntityKey(key));
                if now.keys.contains(k) && k != EntityKey(key) {
                    let i = choose|i: int| 0 <= i < now.keys.len() && now.keys[i] == k;
                    assert(was.keys[i] == k);
                }
            }
            assert(now.keys.no_duplicates());
        } else {
            assert(now == was);
        }
    }
    assert forall|k: u64| #[trigger] after.by_key.contains_key(k) implies after.paired(k)
        && after.attended(k) by {
        if k != key {
            assert(e.paired(k) && e.attended(k));
        }
    }
}

proof fn lemma_forgotten(e: Edge, key: EntityKey)
    requires
        e.sound(),
    ensures
        e.forgotten(key).sound(),
        e.forgotten(key).next_key == e.next_key,
        e.forgotten(key).by_key == e.by_key.remove(key.0),
{
    if !e.by_key.contains_key(key.0) {
        assert(e.by_key.remove(key.0) =~= e.by_key);
    } else {
        let held = e.by_key[key.0];
        let after = e.forgotten(key);
        lemma_tally_less(e.by_key, key.0, Role::Observer);
        lemma_tally_less(e.by_key, key.0, Role::Shadow);
        assert forall|c: u64| #[trigger] after.clients.contains_key(c) implies after.agrees(c) by {
            assert(e.clients.contains_key(c));
            assert(e.agrees(c));
            let (was, now) = (e.clients[c], after.clients[c]);
            lemma_without(was.keys, key);
            if held.client == Some(ClientId(c)) {
                assert(now == was.minus(key, held.handle));
                assert forall|h: u64| #[trigger] now.handles.contains_key(h) implies h <= u32::MAX
                    && now.keys.contains(EntityKey(now.handles[h]))
                    && after.by_key[now.handles[h]].handle == Some(EntityHandle(h as u32)) by {
                    assert(was.handles.contains_key(h));
                    if was.handles[h] == key.0 {
                        assert(held.handle == Some(EntityHandle(h as u32)));
                    }
                }
            } else {
                assert(now == was);
                assert(!was.keys.contains(key));
            }
        }
        assert forall|k: u64| #[trigger] after.by_key.contains_key(k) implies after.paired(k)
            && after.attended(k) by {
            assert(e.by_key.contains_key(k));
            assert(e.paired(k) && e.attended(k));
        }
    }
}

/// One thing after another.
proof fn lemma_on(a: Edge, b: Edge, c: Edge)
    requires
        a.sound(),
        a.leads_to(b),
        b.leads_to(c),
    ensures
        a.leads_to(c),
{
    assert forall|k: u64| #[trigger] c.by_key.contains_key(k) implies if a.by_key.contains_key(k) {
        let (x, y) = (a.by_key[k], c.by_key[k]);
        y.client == x.client && y.kind == x.kind && y.name == x.name && y.region == x.region
            && y.shadow_of == x.shadow_of
    } else {
        a.next_key <= k
    } by {
        if a.by_key.contains_key(k) {
            assert(k < a.next_key);
            assert(b.by_key.contains_key(k));
        } else if b.by_key.contains_key(k) {
        }
    }
}

proof fn lemma_books(e: Edge, after: Edge)
    requires
        e.sound(),
        e.same_books(after),
    ensures
        e.leads_to(after),
{
    lemma_same_books(e, after);
}

proof fn lemma_released(e: Edge, key: EntityKey)
    requires
        e.sound(),
    ensures
        e.leads_to(e.released(key)),
{
    if e.by_key.contains_key(key.0) {
        let held = e.by_key[key.0];
        match held.id {
            None => {
                lemma_forgotten(e, key);
            },
            Some(id) => {
                let now = Held { pending: None, doomed: true, ..held };
                lemma_keeping(e, key, now);
                lemma_books(e.keeping(key, now), e.released(key));
            },
        }
    }
}

proof fn lemma_released_all(e: Edge, keys: Seq<EntityKey>)
    requires
        e.sound(),
    ensures
        e.leads_to(e.released_all(keys)),
        e.released_all(keys).next_key == e.next_key,
    decreases keys.len(),
{
    if keys.len() > 0 {
        let now = e.released_all(keys.drop_last());
        lemma_released_all(e, keys.drop_last());
        lemma_released(now, keys.last());
        lemma_on(e, now, e.released_all(keys));
        lemma_forgotten(now, keys.last());
    }
}

proof fn lemma_placed(e: Edge, key: EntityKey, to: Pos3)
    requires
        e.sound(),
    ensures
        e.leads_to(e.placed(key, to)),
        e.placed(key, to).next_key == e.next_key,
        e.placed(key, to).by_key.dom() == e.by_key.dom(),
{
    if e.by_key.contains_key(key.0) && !e.by_key[key.0].doomed {
        let held = e.by_key[key.0];
        match held.id {
            Some(id) => lemma_books(e, e.placed(key, to)),
            None => {
                lemma_keeping(e, key, Held { pending: Some(to), ..held });
            },
        }
    }
    assert(e.placed(key, to).by_key.dom() =~= e.by_key.dom());
}

proof fn lemma_world_placed(e: Edge, key: EntityKey, at: WorldPos)
    requires
        e.sound(),
    ensures
        e.leads_to(e.world_placed(key, at)),
{
    if e.by_key.contains_key(key.0) {
        let held = e.by_key[key.0];
        match held.transition {
            Some(passage) => lemma_keeping(
                e,
                key,
                Held { transition: Some(Passage { held_move: Some(at), ..passage }), ..held },
            ),
            None => match e.framed(held.region, at) {
                Some(to) => lemma_placed(e, key, to),
                None => lemma_books(e, e.off_map()),
            },
        }
    }
}

proof fn lemma_telling_all(e: Edge, region: RegionId, id: EntityId, bodies: Seq<Seq<u8>>)
    ensures
        e.same_books(e.telling_all(region, id, bodies)),
    decreases bodies.len(),
{
    if bodies.len() > 0 {
        lemma_telling_all(e, region, id, bodies.drop_last());
    }
}

/// An edge with a client's list put right after a remap, and one entity fewer
/// counted.
spec fn relisted(
    e: Edge,
    client: Option<ClientId>,
    old: EntityKey,
    new: EntityKey,
    left: Held,
) -> Edge {
    Edge {
        clients: match client {
            Some(c) => if e.clients.contains_key(c.0) {
                e.clients.insert(c.0, e.clients[c.0].remapped(old, new, left.handle))
            } else {
                e.clients
            },
            None => e.clients,
        },
        counters: e.counters.without(left.kind),
        ..e
    }
}

/// Two keys may be taken off a list in either order.
proof fn lemma_without_both(keys: Seq<EntityKey>, a: EntityKey, b: EntityKey)
    ensures
        model::without(model::without(keys, a), b) == model::without(model::without(keys, b), a),
    decreases keys.len(),
{
    if keys.len() > 0 {
        let (front, last) = (keys.drop_last(), keys.last());
        lemma_without_both(front, a, b);
        let (fa, fb) = (model::without(front, a), model::without(front, b));
        if last != a {
            assert(fa.push(last).drop_last() =~= fa);
        }
        if last != b {
            assert(fb.push(last).drop_last() =~= fb);
        }
    }
}

/// Giving a shadow back before a client's list is put right, or after, comes to
/// the same.
proof fn lemma_relisted(
    e: Edge,
    client: Option<ClientId>,
    old: EntityKey,
    new: EntityKey,
    left: Held,
    keys: Seq<EntityKey>,
)
    requires
        forall|s: EntityKey| #[trigger]
            keys.contains(s) && e.by_key.contains_key(s.0) ==> e.by_key[s.0].handle is None,
    ensures
        relisted(e, client, old, new, left).released_all(keys) == relisted(
            e.released_all(keys),
            client,
            old,
            new,
            left,
        ),
        forall|k: u64| #[trigger]
            e.released_all(keys).by_key.contains_key(k) ==> e.by_key.contains_key(k)
                && e.released_all(keys).by_key[k].handle == e.by_key[k].handle,
    decreases keys.len(),
{
    if keys.len() > 0 {
        let front = keys.drop_last();
        let key = keys.last();
        assert forall|s: EntityKey| #[trigger]
            front.contains(s) && e.by_key.contains_key(s.0) implies e.by_key[s.0].handle
            is None by {
            let i = choose|i: int| 0 <= i < front.len() && front[i] == s;
            assert(keys[i] == s);
            assert(keys.contains(s));
        }
        lemma_relisted(e, client, old, new, left, front);
        let now = e.released_all(front);
        assert(keys[keys.len() - 1] == key);
        assert(keys.contains(key));
        let other = relisted(now, client, old, new, left);
        if now.by_key.contains_key(key.0) {
            let held = now.by_key[key.0];
            assert(held.handle is None);
            if held.id is None {
                if let Some(c) = held.client {
                    if now.clients.contains_key(c.0) {
                        let party = now.clients[c.0];
                        lemma_without_both(party.keys, old, key);
                    }
                }
                assert(other.forgotten(key).clients =~= relisted(
                    now.forgotten(key),
                    client,
                    old,
                    new,
                    left,
                ).clients);
            }
            assert(other.released(key) =~= relisted(
                now.released(key),
                client,
                old,
                new,
                left,
            ));
        }
    }
}

/// The copy takes the place of what it replaces, and keeps the books.
proof fn lemma_remapped(e: Edge, new: EntityKey, client: Option<ClientId>, old: EntityKey)
    requires
        e.sound(),
        e.by_key.contains_key(new.0),
        e.by_key.contains_key(old.0),
        old.0 < new.0,
        e.by_key[new.0].client == client,
        e.by_key[old.0].client == client,
        e.by_key[new.0].kind == e.by_key[old.0].kind,
        e.by_key[new.0].handle is None,
        e.by_key[new.0].replaces is None,
        e.by_key[new.0].shadow_of is None,
    ensures
        ({
            let after = e.remapped(new, client, old);
            let left = e.by_key[old.0];
            e.leads_to(Edge { counters: after.counters.without(left.kind), ..after })
        }),
        e.remapped(new, client, old).next_key == e.next_key,
        e.remapped(new, client, old).by_key.contains_key(new.0),
{
    let left = e.by_key[old.0];
    let heir = Held { handle: left.handle, ..e.by_key[new.0] };
    let by_key = e.by_key.insert(new.0, heir).remove(old.0);
    let bare = Edge {
        by_key,
        by_id: match left.id {
            Some(id) => e.by_id.remove(model::seat(left.region, id)),
            None => e.by_id,
        },
        ..e
    };
    // The books with the copy in its place, before any shadow is given back.
    let swapped = relisted(bare, client, old, new, left);
    assert(by_key.dom() =~= e.by_key.dom().remove(old.0));
    lemma_tally_same(e.by_key, new.0, heir, Role::Observer);
    lemma_tally_same(e.by_key, new.0, heir, Role::Shadow);
    lemma_tally_less(e.by_key.insert(new.0, heir), old.0, Role::Observer);
    lemma_tally_less(e.by_key.insert(new.0, heir), old.0, Role::Shadow);
    assert forall|c: u64| #[trigger] swapped.clients.contains_key(c) implies swapped.agrees(
        c,
    ) by {
        assert(e.clients.contains_key(c));
        assert(e.agrees(c));
        let (was, now) = (e.clients[c], swapped.clients[c]);
        lemma_without(was.keys, old);
        if client == Some(ClientId(c)) {
            assert(was.keys.contains(new));
            assert(now == was.remapped(old, new, left.handle));
            assert forall|h: u64| #[trigger] now.handles.contains_key(h) implies h <= u32::MAX
                && now.keys.contains(EntityKey(now.handles[h]))
                && swapped.by_key[now.handles[h]].handle == Some(EntityHandle(h as u32)) by {
                if left.handle is Some && h == (left.handle->0).0 as u64 {
                } else {
                    assert(was.handles.contains_key(h));
                    assert(was.handles[h] != old.0);
                    assert(was.handles[h] != new.0);
                }
            }
            assert forall|k: u64| #[trigger]
                swapped.by_key.contains_key(k) && swapped.by_key[k].client == Some(
                    ClientId(c),
                ) implies now.keys.contains(EntityKey(k)) && (match swapped.by_key[k].handle {
                Some(h) => now.handles.contains_key(h.0 as u64) && now.handles[h.0 as u64] == k,
                None => true,
            }) by {
                assert(e.by_key.contains_key(k));
                if k != new.0 {
                    if let Some(h) = e.by_key[k].handle {
                        assert(was.handles[h.0 as u64] == k);
                        if left.handle == Some(h) {
                            assert(was.handles[h.0 as u64] == old.0);
                        }
                    }
                }
            }
        } else {
            assert(now == was);
            assert forall|k: u64| #[trigger]
                swapped.by_key.contains_key(k) && swapped.by_key[k].client == Some(
                    ClientId(c),
                ) implies now.keys.contains(EntityKey(k)) && (match swapped.by_key[k].handle {
                Some(h) => now.handles.contains_key(h.0 as u64) && now.handles[h.0 as u64] == k,
                None => true,
            }) by {
                assert(e.by_key.contains_key(k));
            }
        }
    }
    assert forall|k: u64| #[trigger] swapped.by_key.contains_key(k) implies swapped.paired(k)
        && swapped.attended(k) by {
        assert(e.by_key.contains_key(k));
        assert(e.paired(k) && e.attended(k));
    }
    assert(swapped.sound());
    assert(e.leads_to(swapped));
    assert(e.attended(old.0));
    assert forall|s: EntityKey| #[trigger]
        left.shadows.contains(s) && bare.by_key.contains_key(s.0) implies bare.by_key[s.0].handle
        is None by {
        assert(e.by_key.contains_key(s.0));
        assert(e.attended(s.0));
        assert(s != new);
    }
    lemma_relisted(bare, client, old, new, left, left.shadows);
    lemma_released_all(swapped, left.shadows);
    let after = e.remapped(new, client, old);
    let done = Edge { counters: after.counters.without(left.kind), ..after };
    let stripped = swapped.released_all(left.shadows);
    lemma_on(e, swapped, stripped);
    if left.handle is None {
        assert(heir == e.by_key[new.0]);
        assert(e.by_key.insert(new.0, heir) =~= e.by_key);
    }
    assert(done.by_key == stripped.by_key);
    lemma_books(stripped, done);
    lemma_on(e, stripped, done);
    lemma_unmarked(swapped, left.shadows, new);
}

/// Whatever is on no list stays when the list is given back.
pub proof fn lemma_unmarked(e: Edge, keys: Seq<EntityKey>, key: EntityKey)
    requires
        e.by_key.contains_key(key.0),
        !keys.contains(key),
    ensures
        e.released_all(keys).by_key.contains_key(key.0),
        e.released_all(keys).by_key[key.0] == e.by_key[key.0],
    decreases keys.len(),
{
    if keys.len() > 0 {
        assert(keys[keys.len() - 1] == keys.last());
        assert(keys.contains(keys.last()));
        assert forall|k: EntityKey| #[trigger] keys.drop_last().contains(k) implies keys.contains(
            k,
        ) by {
            let i = choose|i: int| 0 <= i < keys.drop_last().len() && keys.drop_last()[i] == k;
            assert(keys[i] == k);
        }
        lemma_unmarked(e, keys.drop_last(), key);
    }
}

/// What carrying on to a destination leaves.
pub proof fn lemma_forwarded(
    e: Edge,
    new: EntityKey,
    entity: EntityId,
    dest: RegionId,
    pending: Option<Pos3>,
    left: Held,
)
    ensures
        ({
            let after = e.forwarded(new, entity, dest, pending, left);
            &&& after.clients == e.clients
            &&& after.by_id == e.by_id
            &&& after.next_key == e.next_key
            &&& after.next_client == e.next_client
            &&& after.counters == e.counters
            &&& after.by_key == if left.standing is Some && e.by_key.contains_key(new.0) {
                e.by_key.insert(new.0, Held { standing: left.standing, ..e.by_key[new.0] })
            } else {
                e.by_key
            }
        }),
{
    if let Some(passage) = left.transition {
        let now = match left.id {
            Some(id) => Edge { moves: e.moves.remove(model::seat(left.region, id)), ..e }.telling(
                Outgoing::Despawn(left.region, id),
            ),
            None => e,
        };
        let now = now.queued_if(dest, entity, pending);
        let now = match left.standing {
            Some(body) => now.telling(Outgoing::Message(dest, entity, body)),
            None => now,
        };
        let held = match passage.held_move {
            Some(at) => now.framed(dest, at),
            None => None,
        };
        lemma_counters_told(now.queued_if(dest, entity, held), dest, entity, passage.held_messages);
    }
}

/// Telling a region something leaves everything else.
pub proof fn lemma_counters_told(e: Edge, region: RegionId, id: EntityId, bodies: Seq<Seq<u8>>)
    ensures
        ({
            let after = e.telling_all(region, id, bodies);
            after == (Edge { out: after.out, ..e })
        }),
    decreases bodies.len(),
{
    if bodies.len() > 0 {
        lemma_counters_told(e, region, id, bodies.drop_last());
    }
}

/// A teleport that arrives keeps the books.
proof fn lemma_arrived(
    e: Edge,
    new: EntityKey,
    entity: EntityId,
    dest: RegionId,
    client: Option<ClientId>,
    pending: Option<Pos3>,
    old: EntityKey,
)
    requires
        e.sound(),
        e.by_key.contains_key(new.0),
        e.by_key.contains_key(old.0),
        old.0 < new.0,
        e.by_key[new.0].client == client,
        e.by_key[old.0].client == client,
        e.by_key[new.0].kind == e.by_key[old.0].kind,
        e.by_key[new.0].handle is None,
        e.by_key[new.0].replaces is None,
        e.by_key[new.0].shadow_of is None,
    ensures
        e.leads_to(e.arrived(new, entity, dest, client, pending, old)),
{
    let left = e.by_key[old.0];
    let after = e.arrived(new, entity, dest, client, pending, old);
    let swapped = e.remapped(new, client, old);
    let settled = Edge { counters: swapped.counters.without(left.kind), ..swapped };
    lemma_remapped(e, new, client, old);
    lemma_forwarded(swapped, new, entity, dest, pending, left);
    if left.standing is Some {
        let heir = Held { standing: left.standing, ..settled.by_key[new.0] };
        assert(settled.attended(new.0));
        lemma_keeping(settled, new, heir);
        let repeated = settled.keeping(new, heir);
        assert(settled.leads_to(repeated));
        lemma_on(e, settled, repeated);
        lemma_books(repeated, after);
        lemma_on(e, repeated, after);
    } else {
        lemma_books(settled, after);
        lemma_on(e, settled, after);
    }
}

proof fn lemma_added(e: Edge, region: RegionId, entity: EntityId, token: u64)
    requires
        e.sound(),
    ensures
        e.leads_to(e.added(region, entity, token)),
{
    let key = EntityKey(token);
    if !e.by_key.contains_key(token) {
        lemma_books(e, e.added(region, entity, token));
    } else {
        assert(e.paired(token) && e.attended(token));
        let held = e.by_key[token];
        let met = Held { id: Some(entity), pending: None, replaces: None, ..held };
        let kept = e.keeping(key, met);
        lemma_keeping(e, key, met);
        let now = Edge { by_id: e.by_id.insert(model::seat(region, entity), token), ..kept };
        lemma_books(kept, now);
        assert(e.leads_to(kept));
        lemma_on(e, kept, now);
        let after = e.added(region, entity, token);
        match held.replaces {
            Some(old) => {
                if !now.by_key.contains_key(old.0) {
                    let told = now.telling(Outgoing::Despawn(region, entity));
                    lemma_books(now, told);
                    lemma_on(e, now, told);
                    let gone = told.forgotten(key);
                    lemma_forgotten(told, key);
                    assert(told.leads_to(gone));
                    lemma_on(e, told, gone);
                    lemma_books(gone, after);
                    lemma_on(e, gone, after);
                } else {
                    assert(now.by_key[old.0] == e.by_key[old.0]);
                    lemma_arrived(now, key, entity, region, held.client, held.pending, old);
                    lemma_on(e, now, after);
                }
            },
            None => {
                lemma_books(now, after);
                lemma_on(e, now, after);
            },
        }
    }
}

/// The shadows still standing are on the list they were read off.
proof fn lemma_standing_in(e: Edge, shadows: Seq<EntityKey>)
    ensures
        forall|i: int|
            0 <= i < e.standing_in(shadows).len() ==> shadows.contains(
                (#[trigger] e.standing_in(shadows)[i]).0,
            ) && e.by_key.contains_key(e.standing_in(shadows)[i].0.0)
                && e.by_key[e.standing_in(shadows)[i].0.0].region == e.standing_in(shadows)[i].1,
    decreases shadows.len(),
{
    if shadows.len() > 0 {
        let front = shadows.drop_last();
        lemma_standing_in(e, front);
        assert forall|i: int| 0 <= i < e.standing_in(shadows).len() implies shadows.contains(
            (#[trigger] e.standing_in(shadows)[i]).0,
        ) && e.by_key.contains_key(e.standing_in(shadows)[i].0.0)
            && e.by_key[e.standing_in(shadows)[i].0.0].region == e.standing_in(shadows)[i].1 by {
            let one = e.standing_in(shadows)[i];
            if i < e.standing_in(front).len() {
                assert(one == e.standing_in(front)[i]);
                let j = choose|j: int| 0 <= j < front.len() && front[j] == one.0;
                assert(shadows[j] == one.0);
            } else {
                assert(shadows[shadows.len() - 1] == one.0);
            }
        }
    }
}

/// The first shadow in a region is one of them, and is in it.
proof fn lemma_first_in(existing: Seq<(EntityKey, RegionId)>, region: RegionId)
    ensures
        match model::first_in(existing, region) {
            Some(key) => existing.contains((key, region)),
            None => forall|i: int| 0 <= i < existing.len() ==> (#[trigger] existing[i]).1 != region,
        },
    decreases existing.len(),
{
    if existing.len() > 0 {
        let front = existing.drop_last();
        lemma_first_in(front, region);
        assert(existing[existing.len() - 1] == existing.last());
        match model::first_in(front, region) {
            Some(key) => {
                let i = choose|i: int| 0 <= i < front.len() && front[i] == (key, region);
                assert(existing[i] == (key, region));
            },
            None => {
                assert forall|i: int|
                    0 <= i < existing.len() && existing.last().1 != region implies (
                #[trigger] existing[i]).1 != region by {
                    if i < front.len() {
                        assert(front[i] == existing[i]);
                    }
                }
            },
        }
    }
}

/// Whether a list is of an owner's shadows, as far as they are held.
spec fn shades(e: Edge, owner: EntityKey, keys: Seq<EntityKey>) -> bool {
    forall|s: EntityKey| #[trigger]
        keys.contains(s) ==> s.0 < e.next_key && (e.by_key.contains_key(s.0)
            ==> e.by_key[s.0].shadow_of == Some(owner))
}

/// A list of an owner's shadows stays one.
proof fn lemma_shades(a: Edge, b: Edge, owner: EntityKey, keys: Seq<EntityKey>)
    requires
        a.leads_to(b),
        shades(a, owner, keys),
    ensures
        shades(b, owner, keys),
{
}

proof fn lemma_all_shadowed(
    e: Edge,
    owner: EntityKey,
    client: Option<ClientId>,
    existing: Seq<(EntityKey, RegionId)>,
    w: World,
    here: WorldPos,
    squares: Seq<Placement>,
)
    requires
        e.sound(),
        e.next_key + squares.len() <= u64::MAX,
        e.by_key.contains_key(owner.0),
        e.by_key[owner.0].client == client,
        shades(e, owner, model::keys_of(existing)),
    ensures
        ({
            let (after, keep) = e.all_shadowed(owner, client, existing, w, here, squares);
            &&& e.leads_to(after)
            &&& after.next_key <= e.next_key + squares.len()
            &&& shades(after, owner, keep)
            &&& after.by_key.contains_key(owner.0)
        }),
    decreases squares.len(),
{
    if squares.len() > 0 {
        let front = squares.drop_last();
        lemma_all_shadowed(e, owner, client, existing, w, here, front);
        let (now, keep) = e.all_shadowed(owner, client, existing, w, here, front);
        let (after, kept) = e.all_shadowed(owner, client, existing, w, here, squares);
        let square = squares.last();
        match crate::map::region_in(now.map, square) {
            None => {},
            Some(neighbor) => match seam::shadow_spot(w, here, square) {
                None => {},
                Some(point) => match model::first_in(existing, neighbor) {
                    Some(shadow) => {
                        lemma_placed(now, shadow, point);
                        lemma_on(e, now, after);
                        lemma_shades(now, after, owner, keep);
                        lemma_first_in(existing, neighbor);
                        let i = choose|i: int|
                            0 <= i < existing.len() && existing[i] == (shadow, neighbor);
                        assert(model::keys_of(existing)[i] == shadow);
                        assert(model::keys_of(existing).contains(shadow));
                        lemma_shades(e, after, owner, model::keys_of(existing));
                        lemma_shades_push(after, owner, keep, shadow);
                        assert(after.by_key.contains_key(owner.0)) by {
                            assert(now.by_key.dom().contains(owner.0));
                        }
                    },
                    None => {
                        assert(now.sound());
                        assert(now.by_key.contains_key(owner.0));
                        assert(e.sound());
                        lemma_asked(
                            now,
                            Ask {
                                client,
                                handle: None,
                                region: neighbor,
                                at: point,
                                kind: EntityKind { role: Role::Shadow, tag: 0 },
                                shadow_of: Some(owner),
                                name: None,
                            },
                        );
                        lemma_on(e, now, after);
                        lemma_shades(now, after, owner, keep);
                        lemma_shades_push(after, owner, keep, EntityKey(now.next_key));
                    },
                },
            },
        }
    }
}

proof fn lemma_shades_push(e: Edge, owner: EntityKey, keys: Seq<EntityKey>, key: EntityKey)
    requires
        shades(e, owner, keys),
        key.0 < e.next_key,
        e.by_key.contains_key(key.0) ==> e.by_key[key.0].shadow_of == Some(owner),
    ensures
        shades(e, owner, keys.push(key)),
{
    assert forall|s: EntityKey| #[trigger] keys.push(key).contains(s) implies s.0 < e.next_key && (
    e.by_key.contains_key(s.0) ==> e.by_key[s.0].shadow_of == Some(owner)) by {
        let i = choose|i: int| 0 <= i < keys.push(key).len() && keys.push(key)[i] == s;
        if i < keys.len() {
            assert(keys[i] == s);
            assert(keys.contains(s));
        }
    }
}

proof fn lemma_viewed(e: Edge, region: RegionId, entity: EntityId, position: Pos3)
    requires
        e.sound(),
        e.next_key + 8 <= u64::MAX,
    ensures
        e.leads_to(e.viewed(region, entity, position)),
{
    let after = e.viewed(region, entity, position);
    if let Some(key) = e.known(region, entity) {
        let held = e.by_key[key.0];
        if held.shadow_of is None && crate::map::square_of(e.map, region) is Some
            && e.worlds.contains_key(region.0 as u64) {
            let square = crate::map::square_of(e.map, region)->0;
            let w = e.worlds[region.0 as u64].config@;
            let here = WorldPos::of_local(
                position,
                square,
                crate::fixed::Fixed(w.region_size as i32),
            );
            let existing = e.standing_in(held.shadows);
            let squares = seam::squares_seen(w, square, position);
            lemma_standing_in(e, held.shadows);
            assert(e.attended(key.0));
            assert forall|s: EntityKey| #[trigger]
                model::keys_of(existing).contains(s) implies s.0 < e.next_key && (
            e.by_key.contains_key(s.0) ==> e.by_key[s.0].shadow_of == Some(key)) by {
                let i = choose|i: int|
                    0 <= i < model::keys_of(existing).len() && model::keys_of(existing)[i] == s;
                assert(existing[i].0 == s);
                assert(held.shadows.contains(s));
            }
            lemma_all_shadowed(e, key, held.client, existing, w, here, squares);
            let (now, keep) = e.all_shadowed(key, held.client, existing, w, here, squares);
            let stale = model::beyond(model::keys_of(existing), keep);
            lemma_released_all(now, stale);
            let trimmed = now.released_all(stale);
            lemma_on(e, now, trimmed);
            lemma_shades(now, trimmed, key, keep);
            lemma_listing(trimmed, key, keep);
            lemma_on(e, trimmed, after);
        } else {
            lemma_books(e, after);
        }
    } else {
        lemma_books(e, after);
    }
}

proof fn lemma_listing(e: Edge, key: EntityKey, shadows: Seq<EntityKey>)
    requires
        e.sound(),
        shades(e, key, shadows),
    ensures
        e.leads_to(e.listing(key, shadows)),
{
    if e.by_key.contains_key(key.0) {
        lemma_keeping(e, key, Held { shadows, ..e.by_key[key.0] });
    }
}

proof fn lemma_cleared(e: Edge, region: RegionId, entity: EntityId)
    requires
        e.sound(),
    ensures
        e.leads_to(e.cleared(region, entity)),
{
    if let Some(key) = e.known(region, entity) {
        let listed = e.listing(key, Seq::empty());
        lemma_listing(e, key, Seq::empty());
        lemma_released_all(listed, e.by_key[key.0].shadows);
        lemma_on(e, listed, e.cleared(region, entity));
    } else {
        lemma_books(e, e);
    }
}

proof fn lemma_finished(e: Edge, client: ClientId)
    requires
        e.sound(),
    ensures
        e.leads_to(e.finished(client)),
{
    let after = e.finished(client);
    assert forall|c: u64| #[trigger] after.clients.contains_key(c) implies after.agrees(c) by {
        assert(e.clients.contains_key(c));
        assert(e.agrees(c));
    }
    assert forall|k: u64| #[trigger] after.by_key.contains_key(k) implies after.paired(k)
        && after.attended(k) by {
        assert(e.paired(k) && e.attended(k));
    }
}

proof fn lemma_removed(e: Edge, region: RegionId, entity: EntityId)
    requires
        e.sound(),
    ensures
        e.leads_to(e.removed(region, entity)),
{
    let after = e.removed(region, entity);
    if let Some(key) = e.known(region, entity) {
        let held = e.by_key[key.0];
        let now = e.forgotten(key);
        lemma_forgotten(e, key);
        assert(e.leads_to(now));
        match held.shadow_of {
            Some(owner) => {
                if now.by_key.contains_key(owner.0) {
                    let shadows = now.by_key[owner.0].shadows;
                    assert(now.attended(owner.0));
                    lemma_without(shadows, key);
                    lemma_listing(now, owner, model::without(shadows, key));
                    lemma_on(e, now, after);
                }
            },
            None => {
                lemma_released_all(now, held.shadows);
                let bare = now.released_all(held.shadows);
                lemma_on(e, now, bare);
                let said = bare.posting(
                    held.client,
                    held.handle,
                    ToClient::Removed { handle: held.handle->0 },
                ).noting(Notice::Removed(key, held.client));
                lemma_books(bare, said);
                lemma_on(e, bare, said);
                if let Some(client) = held.client {
                    lemma_finished(said, client);
                    lemma_on(e, said, after);
                }
            },
        }
    } else {
        lemma_books(e, after);
    }
}

proof fn lemma_departed(e: Edge, d: Departure, decision: TeleportDecision, now: u64)
    requires
        e.sound(),
        e.describes(d),
        e.next_key < u64::MAX,
    ensures
        e.leads_to(e.departed(d, decision, now).0),
{
    if decision is Deny {
        lemma_books(e, e);
    } else {
        let to = EntityKey(e.next_key);
        let ask = Ask {
            client: d.client,
            handle: None,
            region: d.dest,
            at: d.position,
            kind: d.kind,
            shadow_of: None,
            name: Some(d.name),
        };
        let asked = e.asked(ask);
        lemma_asked(e, ask);
        let after = e.departed(d, decision, now).0;
        if !asked.by_key.contains_key(d.key.0) {
            lemma_released(asked, to);
            lemma_on(e, asked, after);
        } else {
            let leaving = Held {
                transition: Some(
                    Passage {
                        to,
                        dest: d.dest,
                        held_move: None,
                        held_messages: Seq::empty(),
                    },
                ),
                ..asked.by_key[d.key.0]
            };
            assert(asked.attended(d.key.0));
            lemma_keeping(asked, d.key, leaving);
            let left = asked.keeping(d.key, leaving);
            assert(asked.leads_to(left));
            lemma_on(e, asked, left);
            let copy = Held { replaces: Some(d.key), ..left.by_key[to.0] };
            let paired = left.keeping(to, copy);
            lemma_replacing(left, to, d.key);
            lemma_on(e, left, paired);
            lemma_books(paired, after);
            lemma_on(e, paired, after);
        }
    }
}

/// A copy set to replace what it agrees with.
proof fn lemma_replacing(e: Edge, to: EntityKey, key: EntityKey)
    requires
        e.sound(),
        e.by_key.contains_key(to.0),
        e.by_key.contains_key(key.0),
        key.0 < to.0,
        e.by_key[to.0].handle is None,
        e.by_key[to.0].shadow_of is None,
        e.by_key[to.0].client == e.by_key[key.0].client,
        e.by_key[to.0].kind == e.by_key[key.0].kind,
        e.by_key[to.0].name == e.by_key[key.0].name,
    ensures
        e.leads_to(e.keeping(to, Held { replaces: Some(key), ..e.by_key[to.0] })),
{
    let copy = Held { replaces: Some(key), ..e.by_key[to.0] };
    let after = e.keeping(to, copy);
    lemma_tally_same(e.by_key, to.0, copy, Role::Observer);
    lemma_tally_same(e.by_key, to.0, copy, Role::Shadow);
    assert(after.by_key.dom() =~= e.by_key.dom());
    assert forall|c: u64| #[trigger] after.clients.contains_key(c) implies after.agrees(c) by {
        assert(e.agrees(c));
        let party = e.clients[c];
        assert forall|k: u64| #[trigger]
            after.by_key.contains_key(k) && after.by_key[k].client == Some(
                ClientId(c),
            ) implies party.keys.contains(EntityKey(k)) && (match after.by_key[k].handle {
            Some(h) => party.handles.contains_key(h.0 as u64) && party.handles[h.0 as u64] == k,
            None => true,
        }) by {
            assert(e.by_key.contains_key(k));
        }
    }
    assert forall|k: u64| #[trigger] after.by_key.contains_key(k) implies after.paired(k)
        && after.attended(k) by {
        assert(e.by_key.contains_key(k));
        assert(e.paired(k) && e.attended(k));
        assert forall|s: EntityKey| #[trigger] after.by_key[k].shadows.contains(s) implies s.0
            < after.next_key && (after.by_key.contains_key(s.0) ==> after.by_key[s.0].shadow_of
            == Some(EntityKey(k))) by {
            assert(e.by_key[k].shadows.contains(s));
        }
    }
}

proof fn lemma_given_up(e: Edge, t: Transit)
    requires
        e.sound(),
    ensures
        e.leads_to(e.given_up(t)),
{
    let after = e.given_up(t);
    lemma_books(e, e);
    if !(e.by_key.contains_key(t.to.0) && e.by_key[t.to.0].id is Some) && e.by_key.contains_key(
        t.from.0,
    ) {
        let held = e.by_key[t.from.0];
        if let Some(passage) = held.transition {
            if passage.to == t.to {
                let calm = Held { transition: None, ..held };
                assert(e.attended(t.from.0));
                lemma_keeping(e, t.from, calm);
                let back = e.keeping(t.from, calm);
                assert(e.leads_to(back));
                let dropped = Edge { carried: back.carried.remove(t.to.0), ..back };
                lemma_books(back, dropped);
                lemma_on(e, back, dropped);
                let gone = dropped.forgotten(t.to);
                lemma_forgotten(dropped, t.to);
                assert(dropped.leads_to(gone));
                lemma_on(e, dropped, gone);
                let moved = match passage.held_move {
                    Some(at) => gone.world_placed(t.from, at),
                    None => gone,
                };
                if let Some(at) = passage.held_move {
                    lemma_world_placed(gone, t.from, at);
                    lemma_on(e, gone, moved);
                }
                let told = if moved.by_key.contains_key(t.from.0) {
                    match moved.by_key[t.from.0].id {
                        Some(id) => {
                            lemma_telling_all(moved, held.region, id, passage.held_messages);
                            moved.telling_all(held.region, id, passage.held_messages)
                        },
                        None => moved,
                    }
                } else {
                    moved
                };
                lemma_books(moved, told);
                lemma_on(e, moved, told);
                lemma_books(told, after);
                lemma_on(e, told, after);
            }
        }
    }
}

proof fn lemma_all_given_up(e: Edge, transits: Seq<Transit>)
    requires
        e.sound(),
    ensures
        e.leads_to(e.all_given_up(transits)),
    decreases transits.len(),
{
    if transits.len() == 0 {
        lemma_books(e, e);
    } else {
        let now = e.all_given_up(transits.drop_last());
        lemma_all_given_up(e, transits.drop_last());
        lemma_given_up(now, transits.last());
        lemma_on(e, now, e.all_given_up(transits));
    }
}

/// A client's record changed in nothing the books speak of.
proof fn lemma_party(e: Edge, c: u64, party: Party)
    requires
        e.sound(),
        e.clients.contains_key(c),
        party.keys == e.clients[c].keys,
        party.handles == e.clients[c].handles,
    ensures
        e.leads_to(Edge { clients: e.clients.insert(c, party), ..e }),
{
    let after = Edge { clients: e.clients.insert(c, party), ..e };
    assert forall|o: u64| #[trigger] after.clients.contains_key(o) implies after.agrees(o) by {
        assert(e.clients.contains_key(o));
        assert(e.agrees(o));
    }
    assert forall|k: u64| #[trigger] after.by_key.contains_key(k) implies after.paired(k)
        && after.attended(k) by {
        assert(e.paired(k) && e.attended(k));
    }
}

proof fn lemma_swept(e: Edge, client: ClientId)
    requires
        e.sound(),
    ensures
        e.leads_to(e.swept(client)),
{
    lemma_books(e, e);
    if e.clients.contains_key(client.0) && !e.clients[client.0].leaving {
        let party = e.clients[client.0];
        let leaving = Party { leaving: true, ..party };
        lemma_party(e, client.0, leaving);
        let marked = Edge { clients: e.clients.insert(client.0, leaving), ..e };
        lemma_released_all(marked, party.keys);
        let bare = marked.released_all(party.keys);
        lemma_on(e, marked, bare);
        lemma_finished(bare, client);
        lemma_on(e, bare, e.swept(client));
    }
}

proof fn lemma_addressed(e: Edge, key: EntityKey, body: Seq<u8>)
    requires
        e.sound(),
    ensures
        e.leads_to(e.addressed(key, body)),
{
    let after = e.addressed(key, body);
    lemma_books(e, e);
    if e.by_key.contains_key(key.0) && !e.by_key[key.0].doomed {
        assert(e.attended(key.0));
        let kept = after.by_key[key.0];
        lemma_keeping(e, key, kept);
        assert(e.leads_to(e.keeping(key, kept)));
        lemma_books(e.keeping(key, kept), after);
        lemma_on(e, e.keeping(key, kept), after);
    }
}

proof fn lemma_wanted(
    e: Edge,
    client: ClientId,
    handle: EntityHandle,
    spot: Option<(RegionId, Pos3)>,
    kind: EntityKind,
)
    requires
        e.sound(),
        e.next_key < u64::MAX,
        client.0 < e.next_client,
    ensures
        e.leads_to(e.wanted(client, handle, spot, kind)),
{
    let after = e.wanted(client, handle, spot, kind);
    if e.named(client, handle) is Some || spot is None {
        lemma_books(e, after);
    } else {
        let (region, at) = spot->0;
        lemma_asked(
            e,
            Ask {
                client: Some(client),
                handle: Some(handle),
                region,
                at,
                kind,
                shadow_of: None,
                name: None,
            },
        );
    }
}

proof fn lemma_moved(e: Edge, client: ClientId, moves: Seq<(EntityHandle, WorldPos)>)
    requires
        e.sound(),
    ensures
        e.leads_to(e.moved(client, moves)),
    decreases moves.len(),
{
    if moves.len() == 0 {
        lemma_books(e, e);
    } else {
        let now = e.moved(client, moves.drop_last());
        let after = e.moved(client, moves);
        lemma_moved(e, client, moves.drop_last());
        match now.named(client, moves.last().0) {
            Some(key) => lemma_world_placed(now, key, moves.last().1),
            None => lemma_books(now, after),
        }
        lemma_on(e, now, after);
    }
}

proof fn lemma_told(e: Edge, c: u64, region: RegionId)
    requires
        e.sound(),
        e.clients.contains_key(c),
    ensures
        e.leads_to(e.told(c, region)),
        e.told(c, region).clients.dom() == e.clients.dom(),
{
    lemma_books(e, e);
    let party = e.clients[c];
    let now = Party { told: party.told.push(region), ..party };
    lemma_party(e, c, now);
    let marked = Edge { clients: e.clients.insert(c, now), ..e };
    if e.in_region(c, region) && !party.told.contains(region) {
        lemma_books(marked, e.told(c, region));
        lemma_on(e, marked, e.told(c, region));
    }
    assert(e.told(c, region).clients.dom() =~= e.clients.dom());
}

proof fn lemma_all_told(e: Edge, clients: Seq<u64>, region: RegionId)
    requires
        e.sound(),
        forall|i: int| 0 <= i < clients.len() ==> e.clients.contains_key(#[trigger] clients[i]),
    ensures
        e.leads_to(e.all_told(clients, region)),
        e.all_told(clients, region).clients.dom() == e.clients.dom(),
    decreases clients.len(),
{
    if clients.len() == 0 {
        lemma_books(e, e);
    } else {
        let front = clients.drop_last();
        assert forall|i: int| 0 <= i < front.len() implies e.clients.contains_key(
            #[trigger] front[i],
        ) by {
            assert(front[i] == clients[i]);
        }
        lemma_all_told(e, front, region);
        let now = e.all_told(front, region);
        assert(clients[clients.len() - 1] == clients.last());
        assert(now.clients.dom().contains(clients.last()));
        lemma_told(now, clients.last(), region);
        lemma_on(e, now, e.all_told(clients, region));
    }
}

// ---------------------------------------------------------------------------
// The books
// ---------------------------------------------------------------------------

/// An edge that has just started agrees with itself.
pub proof fn law_an_edge_starts_sound(map: crate::map::Places, prefix: u32)
    ensures
        Edge::blank(map, prefix).sound(),
{
    let none = Map::<u64, Held>::empty();
    assert(none.dom().filter(|k: u64| none[k].kind.role == Role::Observer) =~= Set::empty());
    assert(none.dom().filter(|k: u64| none[k].kind.role == Role::Shadow) =~= Set::empty());
}

/// Whatever a region reports, an edge's books still agree: who holds what, by
/// which handle, and how many there are of each kind. No entity changes hands,
/// and no key is spent twice.
pub proof fn law_every_report_keeps_the_books(e: Edge, region: RegionId, what: Report)
    requires
        e.sound(),
        e.next_key + 8 <= u64::MAX,
    ensures
        e.leads_to(e.reported(region, what).0),
        match e.reported(region, what).1 {
            Some(d) => e.reported(region, what).0.describes(d),
            None => true,
        },
{
    match what {
        Report::Added { entity, token } => lemma_added(e, region, entity, token),
        Report::ViewCollision { entity, position } => lemma_viewed(e, region, entity, position),
        Report::ViewCleared { entity } => lemma_cleared(e, region, entity),
        Report::BoundaryCollision { entity, target } => {
            lemma_books(e, e.collided(region, entity, target).0);
        },
        Report::Removed { entity } => lemma_removed(e, region, entity),
    }
}

/// Whatever a client sends, an edge's books still agree.
pub proof fn law_every_command_keeps_the_books(e: Edge, client: ClientId, message: FromClient)
    requires
        e.sound(),
        e.next_key < u64::MAX,
        client.0 < e.next_client,
    ensures
        e.leads_to(e.heard(client, message).0),
        match e.heard(client, message).1 {
            Some(d) => e.heard(client, message).0.describes(d),
            None => true,
        },
{
    let now = Edge {
        counters: Counters { commands: model::up(e.counters.commands), ..e.counters },
        ..e
    };
    let after = e.heard(client, message).0;
    lemma_books(e, now);
    match message {
        FromClient::Spawn { handle, position, kind } => lemma_wanted(
            now,
            client,
            handle,
            now.located(position),
            kind,
        ),
        FromClient::SpawnInto { handle, region, position, kind } => lemma_wanted(
            now,
            client,
            handle,
            now.spot_in(region, position),
            kind,
        ),
        FromClient::Move { handle, position } => lemma_moved(
            now,
            client,
            seq![(handle, position)],
        ),
        FromClient::Moves(moves) => lemma_moved(now, client, moves@),
        FromClient::Despawn { handle } => match now.named(client, handle) {
            Some(key) => lemma_released(now, key),
            None => lemma_books(now, after),
        },
        FromClient::Message(body) => lemma_books(now, after),
        FromClient::EntityMessage { handle, body } => match now.named(client, handle) {
            Some(key) => lemma_addressed(now, key, body@),
            None => lemma_books(now, after),
        },
        FromClient::Teleport { handle, at } => lemma_books(now, after),
        FromClient::TeleportInto { handle, region, at } => lemma_books(now, after),
    }
    lemma_on(e, now, after);
}

/// Whatever the game decides of a departure, and however late, an edge's books
/// still agree.
pub proof fn law_every_decision_keeps_the_books(
    e: Edge,
    client: ClientId,
    handle: EntityHandle,
    d: Departure,
    decision: TeleportDecision,
    now: u64,
)
    requires
        e.sound(),
        e.describes(d),
        e.next_key < u64::MAX,
    ensures
        e.leads_to(e.crossed(d, decision, now)),
        e.leads_to(e.teleported(client, handle, d, decision, now)),
{
    lemma_departed(e, d, decision, now);
    let left = e.departed(d, decision, now).0;
    lemma_books(left, e.crossed(d, decision, now));
    lemma_on(e, left, e.crossed(d, decision, now));
    lemma_books(left, e.teleported(client, handle, d, decision, now));
    lemma_on(e, left, e.teleported(client, handle, d, decision, now));
}

/// Whatever the game asks of the edge by itself, its books still agree.
pub proof fn law_what_the_game_asks_keeps_the_books(
    e: Edge,
    client: Option<ClientId>,
    region: RegionId,
    at: Pos3,
    kind: EntityKind,
    key: EntityKey,
    moves: Seq<(EntityKey, WorldPos)>,
)
    requires
        e.sound(),
        e.next_key < u64::MAX,
        e.numbered(client),
    ensures
        e.leads_to(e.asked(Ask::plain(client, region, at, kind))),
        e.leads_to(e.released(key)),
        e.leads_to(e.all_placed(moves)),
{
    lemma_asked(e, Ask::plain(client, region, at, kind));
    lemma_released(e, key);
    lemma_all_placed(e, moves);
}

proof fn lemma_all_placed(e: Edge, moves: Seq<(EntityKey, WorldPos)>)
    requires
        e.sound(),
    ensures
        e.leads_to(e.all_placed(moves)),
    decreases moves.len(),
{
    if moves.len() == 0 {
        lemma_books(e, e);
    } else {
        let now = e.all_placed(moves.drop_last());
        lemma_all_placed(e, moves.drop_last());
        lemma_world_placed(now, moves.last().0, moves.last().1);
        lemma_on(e, now, e.all_placed(moves));
    }
}

/// A departure put to the game still says what the edge does when the answer
/// comes, whatever has happened to the edge meanwhile.
pub proof fn law_a_departure_stays_true(e: Edge, after: Edge, d: Departure)
    requires
        e.sound(),
        e.describes(d),
        e.leads_to(after),
    ensures
        after.describes(d),
{
    if after.by_key.contains_key(d.key.0) {
        assert(e.by_key.contains_key(d.key.0));
    }
}

/// Clients coming and going, teleports timing out, and regions saying what they
/// run leave an edge's books agreeing.
pub proof fn law_time_and_clients_keep_the_books(
    e: Edge,
    client: ClientId,
    region: RegionId,
    world: crate::net::edge::model::RegionWorld,
    now: u64,
)
    requires
        e.sound(),
        e.next_client < u64::MAX,
    ensures
        e.leads_to(e.connected()),
        e.leads_to(e.swept(client)),
        e.leads_to(e.expired(now)),
        e.leads_to(e.learned(region, world)),
        e.clients.dom().finite() ==> e.leads_to(e.informed(region)),
{
    let met = e.connected();
    assert forall|c: u64| #[trigger] met.clients.contains_key(c) implies met.agrees(c) by {
        if c == e.next_client {
            assert(met.clients[c] == Party::fresh());
            assert forall|k: u64| #[trigger] met.by_key.contains_key(k) implies met.by_key[k].client
                != Some(ClientId(c)) by {
                assert(e.by_key.contains_key(k));
                assert(e.numbered(e.by_key[k].client));
            }
        } else {
            assert(e.clients.contains_key(c));
            assert(e.agrees(c));
        }
    }
    assert forall|k: u64| #[trigger] met.by_key.contains_key(k) implies met.paired(k)
        && met.attended(k) && met.numbered(met.by_key[k].client) by {
        assert(e.paired(k) && e.attended(k));
    }
    lemma_swept(e, client);
    let waiting = Edge { transits: model::due(e.transits, now, false), ..e };
    lemma_books(e, waiting);
    lemma_all_given_up(waiting, model::due(e.transits, now, true));
    lemma_on(e, waiting, e.expired(now));
    lemma_books(e, e.learned(region, world));
    if e.clients.dom().finite() {
        lemma_books(e, e);
        if e.worlds.contains_key(region.0 as u64) {
            let order = table::in_order(e.clients.dom());
            table::lemma_in_order_lists(e.clients.dom());
            assert forall|i: int| 0 <= i < order.len() implies e.clients.contains_key(
                #[trigger] order[i],
            ) by {
                assert(order.contains(order[i]));
            }
            lemma_all_told(e, order, region);
        }
    }
}

// ---------------------------------------------------------------------------
// Leaving
// ---------------------------------------------------------------------------

/// Whether something said is said to a client or of one.
pub open spec fn concerns(what: Said, c: ClientId) -> bool {
    match what {
        Effect::Tell(_) => false,
        Effect::Post(to, _) => to == c,
        Effect::Game(Notice::Spawned(_, of, _, _)) => of == Some(c),
        Effect::Game(Notice::Removed(_, of)) => of == Some(c),
        Effect::Game(Notice::Arrived(_, of, _, _, _)) => of == Some(c),
        Effect::Game(Notice::Message(of, _)) => of == c,
        Effect::Game(Notice::Disconnected(of)) => of == c,
    }
}

impl Edge {
    /// Whether a client is not connected and no entity is its.
    pub open spec fn absent(self, c: ClientId) -> bool {
        &&& !self.clients.contains_key(c.0)
        &&& forall|k: u64| #[trigger]
            self.by_key.contains_key(k) ==> self.by_key[k].client != Some(c)
    }

    /// Whether an edge has said more than another, and nothing of it to or of a
    /// client, who is absent still.
    pub open spec fn silent_of(self, after: Edge, c: ClientId) -> bool {
        &&& after.absent(c)
        &&& self.out.len() <= after.out.len()
        &&& forall|i: int| 0 <= i < self.out.len() ==> #[trigger] after.out[i] == self.out[i]
        &&& forall|i: int|
            self.out.len() <= i < after.out.len() ==> !concerns(#[trigger] after.out[i], c)
    }
}

proof fn lemma_still(a: Edge, b: Edge, d: Edge, c: ClientId)
    requires
        a.silent_of(b, c),
        b.silent_of(d, c),
    ensures
        a.silent_of(d, c),
{
    assert forall|i: int| 0 <= i < a.out.len() implies #[trigger] d.out[i] == a.out[i] by {
        assert(b.out[i] == a.out[i]);
    }
    assert forall|i: int| a.out.len() <= i < d.out.len() implies !concerns(
        #[trigger] d.out[i],
        c,
    ) by {
        if i < b.out.len() {
            assert(d.out[i] == b.out[i]);
        }
    }
}

proof fn lemma_silent_forgotten(e: Edge, key: EntityKey, c: ClientId)
    requires
        e.absent(c),
    ensures
        e.silent_of(e.forgotten(key), c),
{
}

proof fn lemma_silent_released(e: Edge, keys: Seq<EntityKey>, c: ClientId)
    requires
        e.absent(c),
    ensures
        e.silent_of(e.released_all(keys), c),
    decreases keys.len(),
{
    if keys.len() > 0 {
        let now = e.released_all(keys.drop_last());
        lemma_silent_released(e, keys.drop_last(), c);
        lemma_still(e, now, e.released_all(keys), c);
    }
}

proof fn lemma_silent_told(e: Edge, region: RegionId, id: EntityId, bodies: Seq<Seq<u8>>, c: ClientId)
    requires
        e.absent(c),
    ensures
        e.silent_of(e.telling_all(region, id, bodies), c),
    decreases bodies.len(),
{
    if bodies.len() > 0 {
        let now = e.telling_all(region, id, bodies.drop_last());
        lemma_silent_told(e, region, id, bodies.drop_last(), c);
        lemma_still(e, now, e.telling_all(region, id, bodies), c);
    }
}

proof fn lemma_silent_arrived(
    e: Edge,
    new: EntityKey,
    entity: EntityId,
    dest: RegionId,
    client: Option<ClientId>,
    pending: Option<Pos3>,
    old: EntityKey,
    c: ClientId,
)
    requires
        e.absent(c),
        client != Some(c),
    ensures
        e.silent_of(e.arrived(new, entity, dest, client, pending, old), c),
{
    let after = e.arrived(new, entity, dest, client, pending, old);
    if e.by_key.contains_key(old.0) {
        let left = e.by_key[old.0];
        let heir = match left.handle {
            Some(_) => if e.by_key.contains_key(new.0) {
                e.keeping(new, Held { handle: left.handle, ..e.by_key[new.0] })
            } else {
                e
            },
            None => e,
        };
        let bare = Edge {
            by_key: heir.by_key.remove(old.0),
            by_id: match left.id {
                Some(id) => e.by_id.remove(model::seat(left.region, id)),
                None => e.by_id,
            },
            ..e
        };
        assert(e.silent_of(bare, c));
        lemma_silent_released(bare, left.shadows, c);
        let swapped = e.remapped(new, client, old);
        lemma_still(e, bare, bare.released_all(left.shadows), c);
        assert(bare.released_all(left.shadows).silent_of(swapped, c));
        lemma_still(e, bare.released_all(left.shadows), swapped, c);
        let now = match left.id {
            Some(id) => Edge {
                moves: swapped.moves.remove(model::seat(left.region, id)),
                ..swapped
            }.telling(Outgoing::Despawn(left.region, id)),
            None => swapped,
        };
        let now = now.queued_if(dest, entity, pending);
        let said = match left.standing {
            Some(body) => now.telling(Outgoing::Message(dest, entity, body)),
            None => now,
        };
        assert(swapped.silent_of(said, c));
        lemma_still(e, swapped, said, c);
        let held = match left.transition {
            Some(passage) => {
                let held = match passage.held_move {
                    Some(at) => said.framed(dest, at),
                    None => None,
                };
                let moved = said.queued_if(dest, entity, held);
                lemma_silent_told(moved, dest, entity, passage.held_messages, c);
                let held = moved.telling_all(dest, entity, passage.held_messages);
                assert(said.silent_of(moved, c));
                lemma_still(said, moved, held, c);
                held
            },
            None => said,
        };
        lemma_still(e, said, held, c);
        let forwarded = swapped.forwarded(new, entity, dest, pending, left);
        assert(held.silent_of(forwarded, c));
        lemma_still(e, held, forwarded, c);
        assert(forwarded.silent_of(after, c));
        lemma_still(e, forwarded, after, c);
    }
}

proof fn lemma_silent_shadowed(
    e: Edge,
    owner: EntityKey,
    client: Option<ClientId>,
    existing: Seq<(EntityKey, RegionId)>,
    w: World,
    here: WorldPos,
    squares: Seq<Placement>,
    c: ClientId,
)
    requires
        e.absent(c),
        client != Some(c),
    ensures
        e.silent_of(e.all_shadowed(owner, client, existing, w, here, squares).0, c),
    decreases squares.len(),
{
    if squares.len() > 0 {
        lemma_silent_shadowed(e, owner, client, existing, w, here, squares.drop_last(), c);
        let now = e.all_shadowed(owner, client, existing, w, here, squares.drop_last()).0;
        let after = e.all_shadowed(owner, client, existing, w, here, squares).0;
        assert(now.silent_of(after, c));
        lemma_still(e, now, after, c);
    }
}

/// The game is told a client has gone only when nothing is the client's any
/// more.
pub proof fn law_a_client_that_has_gone_owns_nothing(e: Edge, client: ClientId)
    requires
        e.sound(),
    ensures
        e.finished(client) == e || {
            &&& e.finished(client).out == e.out.push(Effect::Game(Notice::Disconnected(client)))
            &&& e.finished(client).absent(client)
        },
{
    if e.clients.contains_key(client.0) && e.clients[client.0].leaving
        && e.clients[client.0].keys.len() == 0 {
        assert(e.agrees(client.0));
        let after = e.finished(client);
        assert forall|k: u64| #[trigger] after.by_key.contains_key(k) implies after.by_key[k].client
            != Some(client) by {
            assert(e.by_key.contains_key(k));
            if e.by_key[k].client == Some(client) {
                assert(e.clients[client.0].keys.contains(EntityKey(k)));
            }
        }
    }
}

/// Once a client has gone, nothing a region reports is said to it or of it.
pub proof fn law_reports_say_nothing_of_a_client_that_has_gone(
    e: Edge,
    region: RegionId,
    what: Report,
    c: ClientId,
)
    requires
        e.absent(c),
    ensures
        e.silent_of(e.reported(region, what).0, c),
{
    let after = e.reported(region, what).0;
    match what {
        Report::Added { entity, token } => {
            if e.by_key.contains_key(token) {
                let held = e.by_key[token];
                let key = EntityKey(token);
                let now = Edge {
                    by_id: e.by_id.insert(model::seat(region, entity), token),
                    ..e.keeping(
                        key,
                        Held { id: Some(entity), pending: None, replaces: None, ..held },
                    )
                };
                assert(e.silent_of(now, c));
                if let Some(old) = held.replaces {
                    lemma_silent_arrived(
                        now,
                        key,
                        entity,
                        region,
                        held.client,
                        held.pending,
                        old,
                        c,
                    );
                    lemma_still(e, now, after, c);
                } else {
                    assert(now.silent_of(after, c));
                    lemma_still(e, now, after, c);
                }
            }
        },
        Report::ViewCollision { entity, position } => {
            if let Some(key) = e.known(region, entity) {
                let held = e.by_key[key.0];
                if held.shadow_of is None && crate::map::square_of(e.map, region) is Some
                    && e.worlds.contains_key(region.0 as u64) {
                    let square = crate::map::square_of(e.map, region)->0;
                    let w = e.worlds[region.0 as u64].config@;
                    let here = WorldPos::of_local(
                        position,
                        square,
                        crate::fixed::Fixed(w.region_size as i32),
                    );
                    let existing = e.standing_in(held.shadows);
                    let squares = seam::squares_seen(w, square, position);
                    lemma_silent_shadowed(
                        e,
                        key,
                        held.client,
                        existing,
                        w,
                        here,
                        squares,
                        c,
                    );
                    let (now, keep) = e.all_shadowed(
                        key,
                        held.client,
                        existing,
                        w,
                        here,
                        squares,
                    );
                    let stale = model::beyond(model::keys_of(existing), keep);
                    lemma_silent_released(now, stale, c);
                    lemma_still(e, now, now.released_all(stale), c);
                    assert(now.released_all(stale).silent_of(after, c));
                    lemma_still(e, now.released_all(stale), after, c);
                }
            }
        },
        Report::ViewCleared { entity } => {
            if let Some(key) = e.known(region, entity) {
                let listed = e.listing(key, Seq::empty());
                assert(e.silent_of(listed, c));
                lemma_silent_released(listed, e.by_key[key.0].shadows, c);
                lemma_still(e, listed, after, c);
            }
        },
        Report::BoundaryCollision { entity, target } => {},
        Report::Removed { entity } => {
            if let Some(key) = e.known(region, entity) {
                let held = e.by_key[key.0];
                let now = e.forgotten(key);
                lemma_silent_forgotten(e, key, c);
                if held.shadow_of is None {
                    lemma_silent_released(now, held.shadows, c);
                    let bare = now.released_all(held.shadows);
                    lemma_still(e, now, bare, c);
                    assert(bare.silent_of(after, c));
                    lemma_still(e, bare, after, c);
                }
            }
        },
    }
}

/// Once a client has gone, no teleport that is given up is said to it or of it.
pub proof fn law_timeouts_say_nothing_of_a_client_that_has_gone(e: Edge, now: u64, c: ClientId)
    requires
        e.absent(c),
    ensures
        e.silent_of(e.expired(now), c),
{
    let waiting = Edge { transits: model::due(e.transits, now, false), ..e };
    assert(e.silent_of(waiting, c));
    lemma_silent_given_up(waiting, model::due(e.transits, now, true), c);
    lemma_still(e, waiting, e.expired(now), c);
}

proof fn lemma_silent_given_up(e: Edge, transits: Seq<Transit>, c: ClientId)
    requires
        e.absent(c),
    ensures
        e.silent_of(e.all_given_up(transits), c),
    decreases transits.len(),
{
    if transits.len() > 0 {
        let now = e.all_given_up(transits.drop_last());
        let after = e.all_given_up(transits);
        lemma_silent_given_up(e, transits.drop_last(), c);
        let t = transits.last();
        if now.by_key.contains_key(t.from.0) {
            let held = now.by_key[t.from.0];
            if let Some(passage) = held.transition {
                let back = now.keeping(t.from, Held { transition: None, ..held });
                let gone = Edge { carried: back.carried.remove(t.to.0), ..back }.forgotten(t.to);
                assert(now.silent_of(gone, c));
                let moved = match passage.held_move {
                    Some(at) => gone.world_placed(t.from, at),
                    None => gone,
                };
                assert(gone.silent_of(moved, c));
                lemma_still(now, gone, moved, c);
                if moved.by_key.contains_key(t.from.0) {
                    if let Some(id) = moved.by_key[t.from.0].id {
                        lemma_silent_told(moved, held.region, id, passage.held_messages, c);
                        lemma_still(
                            now,
                            moved,
                            moved.telling_all(held.region, id, passage.held_messages),
                            c,
                        );
                    }
                }
            }
        }
        assert(now.silent_of(after, c));
        lemma_still(e, now, after, c);
    }
}

/// A client that is leaving is reported gone with the last of its entities:
/// that one's removal is said first, to the game, and then that the client has
/// gone.
pub proof fn law_the_last_removal_ends_a_leaving_client(
    e: Edge,
    region: RegionId,
    entity: EntityId,
)
    requires
        e.sound(),
        e.known(region, entity) is Some,
        ({
            let key = e.known(region, entity)->0;
            let held = e.by_key[key.0];
            &&& held.shadow_of is None
            &&& held.client is Some
            &&& e.clients.contains_key((held.client->0).0)
            &&& e.clients[(held.client->0).0].leaving
            &&& e.clients[(held.client->0).0].keys == seq![key]
        }),
    ensures
        ({
            let key = e.known(region, entity)->0;
            let client = e.by_key[key.0].client->0;
            let after = e.removed(region, entity);
            let n = after.out.len();
            &&& n >= 2
            &&& after.out[n - 2] == Effect::<Seq<u8>>::Game(Notice::Removed(key, Some(client)))
            &&& after.out[n - 1] == Effect::<Seq<u8>>::Game(Notice::Disconnected(client))
            &&& after.absent(client)
        }),
{
    let key = e.known(region, entity)->0;
    let held = e.by_key[key.0];
    let client = held.client->0;
    let now = e.forgotten(key);
    lemma_forgotten(e, key);
    assert(e.agrees(client.0));
    lemma_without(seq![key], key);
    assert(now.clients[client.0].keys.len() == 0) by {
        let left = now.clients[client.0].keys;
        assert(left == model::without(seq![key], key));
        if left.len() > 0 {
            assert(left.contains(left[0]));
            assert(seq![key].contains(left[0]));
        }
    }
    assert forall|s: EntityKey| #[trigger] held.shadows.contains(s) implies !now.by_key.contains_key(
        s.0,
    ) by {
        if now.by_key.contains_key(s.0) {
            assert(e.attended(key.0));
            assert(e.attended(s.0));
            assert(e.by_key[s.0].client == Some(client));
            assert(e.clients[client.0].keys.contains(s));
            assert(s == key);
        }
    }
    lemma_nothing_released(now, held.shadows);
    let said = now.posting(
        held.client,
        held.handle,
        ToClient::Removed { handle: held.handle->0 },
    ).noting(Notice::Removed(key, held.client));
    assert(now.leads_to(now)) by {
        lemma_books(now, now);
    }
    lemma_books(now, said);
    law_a_client_that_has_gone_owns_nothing(said, client);
}

/// Giving back what is not held changes nothing.
proof fn lemma_nothing_released(e: Edge, keys: Seq<EntityKey>)
    requires
        forall|s: EntityKey| #[trigger] keys.contains(s) ==> !e.by_key.contains_key(s.0),
    ensures
        e.released_all(keys) == e,
    decreases keys.len(),
{
    if keys.len() > 0 {
        let front = keys.drop_last();
        assert forall|s: EntityKey| #[trigger] front.contains(s) implies !e.by_key.contains_key(
            s.0,
        ) by {
            let i = choose|i: int| 0 <= i < front.len() && front[i] == s;
            assert(keys[i] == s);
            assert(keys.contains(s));
        }
        lemma_nothing_released(e, front);
        assert(keys[keys.len() - 1] == keys.last());
        assert(keys.contains(keys.last()));
    }
}

// ---------------------------------------------------------------------------
// Teleports
// ---------------------------------------------------------------------------

/// Messages to one entity's region, in order.
pub open spec fn messages_to(region: RegionId, id: EntityId, bodies: Seq<Seq<u8>>) -> Seq<Said> {
    bodies.map_values(
        |body: Seq<u8>| Effect::<Seq<u8>>::Tell(Outgoing::Message(region, id, body)),
    )
}

/// What regions are told when the destination of a teleport confirms it: the
/// origin to give the entity back, and the destination what its client last
/// said to it and then what arrived for it in transit.
pub open spec fn passed_on(left: Held, entity: EntityId, dest: RegionId) -> Seq<Said> {
    let gone: Seq<Said> = match left.id {
        Some(id) => seq![Effect::<Seq<u8>>::Tell(Outgoing::Despawn(left.region, id))],
        None => Seq::empty(),
    };
    let standing: Seq<Said> = match left.standing {
        Some(body) => seq![Effect::<Seq<u8>>::Tell(Outgoing::Message(dest, entity, body))],
        None => Seq::empty(),
    };
    let held: Seq<Said> = match left.transition {
        Some(passage) => messages_to(dest, entity, passage.held_messages),
        None => Seq::empty(),
    };
    gone + standing + held
}

/// What the client and the game are told when the destination of a teleport
/// confirms it.
pub open spec fn greeting(
    left: Held,
    new: EntityKey,
    entity: EntityId,
    dest: RegionId,
    state: Seq<u8>,
) -> Seq<Said> {
    let posted: Seq<Said> = match (left.client, left.handle) {
        (Some(client), Some(handle)) => seq![
            Effect::<Seq<u8>>::Post(client, ToClient::Spawned { handle, region: dest, entity }),
            Effect::<Seq<u8>>::Post(client, ToClient::Teleported { handle, region: dest }),
        ],
        _ => Seq::empty(),
    };
    posted + seq![
        Effect::<Seq<u8>>::Game(Notice::Spawned(new, left.client, dest, entity)),
        Effect::<Seq<u8>>::Game(Notice::Arrived(new, left.client, left.region, dest, state)),
    ]
}

/// What regions are told when what was said to an entity is carried on.
pub proof fn lemma_passed_on(
    e: Edge,
    new: EntityKey,
    entity: EntityId,
    dest: RegionId,
    pending: Option<Pos3>,
    left: Held,
)
    ensures
        e.forwarded(new, entity, dest, pending, left).out == e.out + passed_on(left, entity, dest),
        e.forwarded(new, entity, dest, pending, left).carried == e.carried,
{
    let gone = match left.id {
        Some(id) => Edge { moves: e.moves.remove(model::seat(left.region, id)), ..e }.telling(
            Outgoing::Despawn(left.region, id),
        ),
        None => e,
    };
    let told = gone.queued_if(dest, entity, pending);
    let said = match left.standing {
        Some(body) => told.telling(Outgoing::Message(dest, entity, body)),
        None => told,
    };
    if let Some(passage) = left.transition {
        let at = match passage.held_move {
            Some(at) => said.framed(dest, at),
            None => None,
        };
        let moved = said.queued_if(dest, entity, at);
        lemma_messages_told(moved, dest, entity, passage.held_messages);
        lemma_counters_told(moved, dest, entity, passage.held_messages);
    }
    assert(e.forwarded(new, entity, dest, pending, left).out =~= e.out + passed_on(
        left,
        entity,
        dest,
    ));
}

/// What is said of an arrival, and what that leaves.
pub proof fn lemma_greeting(
    e: Edge,
    new: EntityKey,
    entity: EntityId,
    dest: RegionId,
    left: Held,
    state: Seq<u8>,
)
    requires
        state == if e.carried.contains_key(new.0) {
            e.carried[new.0]
        } else {
            Seq::empty()
        },
    ensures
        ({
            let after = e.greeted(new, entity, dest, left.client, left);
            &&& after.out == e.out + greeting(left, new, entity, dest, state)
            &&& after.by_key == e.by_key
            &&& after.by_id == e.by_id
            &&& after.clients == e.clients
        }),
{
    assert(e.greeted(new, entity, dest, left.client, left).out =~= e.out + greeting(
        left,
        new,
        entity,
        dest,
        state,
    ));
}

proof fn lemma_messages_told(e: Edge, region: RegionId, id: EntityId, bodies: Seq<Seq<u8>>)
    ensures
        e.telling_all(region, id, bodies).out == e.out + messages_to(region, id, bodies),
    decreases bodies.len(),
{
    if bodies.len() == 0 {
        assert(e.out + messages_to(region, id, bodies) =~= e.out);
    } else {
        lemma_messages_told(e, region, id, bodies.drop_last());
        assert(messages_to(region, id, bodies) =~= messages_to(region, id, bodies.drop_last()).push(
            Effect::Tell(Outgoing::Message(region, id, bodies.last())),
        ));
        assert(e.telling_all(region, id, bodies).out =~= e.out + messages_to(region, id, bodies));
    }
}

/// When the destination of a teleport confirms it, the copy takes over: the
/// client's handle names it, under the name the entity always had, the entity
/// it replaces is no longer held, that one's shadows are given back, and what
/// was said to it, or held for it, goes to the destination in the order it was
/// said.
pub proof fn law_an_arrival_takes_over(e: Edge, region: RegionId, entity: EntityId, token: u64)
    requires
        e.sound(),
        e.by_key.contains_key(token),
        e.by_key[token].replaces is Some,
        e.by_key.contains_key((e.by_key[token].replaces->0).0),
    ensures
        ({
            let new = EntityKey(token);
            let old = e.by_key[token].replaces->0;
            let left = e.by_key[old.0];
            let after = e.added(region, entity, token);
            let state = if e.carried.contains_key(token) {
                e.carried[token]
            } else {
                Seq::empty()
            };
            &&& !after.by_key.contains_key(old.0)
            &&& after.by_key.contains_key(token)
            &&& after.by_key[token].name == left.name
            &&& after.by_key[token].handle == left.handle
            &&& after.by_key[token].client == left.client
            &&& after.by_key[token].id == Some(entity)
            &&& after.clients.dom() == e.clients.dom()
            &&& left.region != region ==> after.known(region, entity) == Some(new)
            &&& after.by_key[token].standing == if left.standing is Some {
                left.standing
            } else {
                e.by_key[token].standing
            }
            &&& match (left.client, left.handle) {
                (Some(client), Some(handle)) => e.clients.contains_key(client.0) ==> after.named(
                    client,
                    handle,
                ) == Some(new),
                _ => true,
            }
            &&& exists|freed: Seq<Said>|
                {
                    &&& #[trigger] gives_back(freed)
                    &&& after.out == e.out + freed + passed_on(left, entity, region) + greeting(
                        left,
                        new,
                        entity,
                        region,
                        state,
                    )
                }
        }),
{
    let new = EntityKey(token);
    let old = e.by_key[token].replaces->0;
    assert(e.paired(token));
    let held = e.by_key[token];
    let left = e.by_key[old.0];
    let now = Edge {
        by_id: e.by_id.insert(model::seat(region, entity), token),
        ..e.keeping(new, Held { id: Some(entity), pending: None, replaces: None, ..held })
    };
    let swapped = now.remapped(new, held.client, old);
    let state = if e.carried.contains_key(token) {
        e.carried[token]
    } else {
        Seq::empty()
    };
    let heir = match left.handle {
        Some(_) => now.keeping(new, Held { handle: left.handle, ..now.by_key[new.0] }),
        None => now,
    };
    let bare = Edge {
        by_key: heir.by_key.remove(old.0),
        by_id: match left.id {
            Some(id) => now.by_id.remove(model::seat(left.region, id)),
            None => now.by_id,
        },
        ..now
    };
    assert(!left.shadows.contains(new)) by {
        assert(e.attended(old.0));
    }
    lemma_unmarked(bare, left.shadows, new);
    let freed = lemma_freed(bare, left.shadows);
    assert(swapped.out == e.out + freed && swapped.carried == e.carried);
    lemma_forwarded(swapped, new, entity, region, held.pending, left);
    lemma_passed_on(swapped, new, entity, region, held.pending, left);
    let forwarded = swapped.forwarded(new, entity, region, held.pending, left);
    lemma_greeting(forwarded, new, entity, region, left, state);
    let after = e.added(region, entity, token);
    assert(after == forwarded.greeted(new, entity, region, held.client, left));
    assert(after.clients.dom() =~= e.clients.dom());
}

/// What is listed of a client's keys: those that are not a shadow's.
proof fn lemma_listed(e: Edge, keys: Seq<EntityKey>, key: EntityKey)
    ensures
        e.listed(keys).contains(key) <==> keys.contains(key) && !(e.by_key.contains_key(key.0)
            && e.by_key[key.0].shadow_of is Some),
    decreases keys.len(),
{
    if keys.len() > 0 {
        let front = keys.drop_last();
        let rest = e.listed(front);
        let last = keys.last();
        lemma_listed(e, front, key);
        assert(keys =~= front.push(last));
        assert(front.push(last).contains(key) <==> front.contains(key) || key == last) by {
            vstd::seq_lib::lemma_seq_contains_after_push(front, last, key);
        }
        assert(rest.push(last).contains(key) <==> rest.contains(key) || key == last) by {
            vstd::seq_lib::lemma_seq_contains_after_push(rest, last, key);
        }
    }
}

/// Completing a teleport puts the copy on the list of what its client holds,
/// takes the entity it replaces off it, whether or not the client has a handle
/// for it, and keeps the books. So if the copy is all a leaving client is left
/// with, the game is told the client has gone once the copy is reported gone.
pub proof fn law_a_completed_teleport_is_listed(
    e: Edge,
    new: EntityKey,
    entity: EntityId,
    dest: RegionId,
    client: ClientId,
    pending: Option<Pos3>,
    old: EntityKey,
)
    requires
        e.sound(),
        e.clients.contains_key(client.0),
        e.by_key.contains_key(old.0),
        e.by_key.contains_key(new.0),
        old.0 < new.0,
        e.by_key[old.0].client == Some(client),
        e.by_key[new.0].client == Some(client),
        e.by_key[new.0].kind == e.by_key[old.0].kind,
        e.by_key[new.0].handle is None,
        e.by_key[new.0].replaces is None,
        e.by_key[new.0].shadow_of is None,
    ensures
        ({
            let after = e.arrived(new, entity, dest, Some(client), pending, old);
            let party = after.clients[client.0];
            let gone = after.removed(dest, entity);
            &&& after.sound()
            &&& after.clients.contains_key(client.0)
            &&& after.listed(party.keys).contains(new)
            &&& !after.listed(party.keys).contains(old)
            &&& party.leaving && party.keys == seq![new] && after.known(dest, entity) == Some(new)
                ==> {
                &&& gone.out.len() > 0
                &&& gone.out.last() == Effect::<Seq<u8>>::Game(Notice::Disconnected(client))
                &&& gone.absent(client)
            }
        }),
{
    let left = e.by_key[old.0];
    let after = e.arrived(new, entity, dest, Some(client), pending, old);
    let swapped = e.remapped(new, Some(client), old);
    lemma_arrived(e, new, entity, dest, Some(client), pending, old);
    lemma_remapped(e, new, Some(client), old);
    lemma_forwarded(swapped, new, entity, dest, pending, left);
    let heir = match left.handle {
        Some(_) => e.keeping(new, Held { handle: left.handle, ..e.by_key[new.0] }),
        None => e,
    };
    let bare = Edge {
        by_key: heir.by_key.remove(old.0),
        by_id: match left.id {
            Some(id) => e.by_id.remove(model::seat(left.region, id)),
            None => e.by_id,
        },
        ..e
    };
    let _ = lemma_freed(bare, left.shadows);
    assert(bare.released_all(left.shadows).clients.dom().contains(client.0));
    assert(after.clients.contains_key(client.0));
    let party = after.clients[client.0];
    assert(after.agrees(client.0));
    assert(!after.by_key.contains_key(old.0));
    assert(after.by_key.contains_key(new.0));
    lemma_listed(after, party.keys, new);
    lemma_listed(after, party.keys, old);
    if party.leaving && party.keys == seq![new] && after.known(dest, entity) == Some(new) {
        law_the_last_removal_ends_a_leaving_client(after, dest, entity);
    }
}

/// When a teleport arrives, what its client is said to hold has the copy on it
/// and no longer the entity the copy replaces, whether or not the client has a
/// handle for it. So if the copy is all a leaving client is left with, the
/// game is told the client has gone once the copy is reported gone.
pub proof fn law_an_arrival_is_listed_in_the_others_place(
    e: Edge,
    region: RegionId,
    entity: EntityId,
    token: u64,
)
    requires
        e.sound(),
        e.by_key.contains_key(token),
        e.by_key[token].replaces is Some,
        e.by_key.contains_key((e.by_key[token].replaces->0).0),
        e.by_key[token].client is Some,
        e.clients.contains_key((e.by_key[token].client->0).0),
    ensures
        ({
            let new = EntityKey(token);
            let old = e.by_key[token].replaces->0;
            let client = e.by_key[token].client->0;
            let after = e.added(region, entity, token);
            let party = after.clients[client.0];
            let gone = after.removed(region, entity);
            &&& after.clients.contains_key(client.0)
            &&& after.listed(party.keys).contains(new)
            &&& !after.listed(party.keys).contains(old)
            &&& party.leaving && party.keys == seq![new] && e.by_key[old.0].region != region ==> {
                &&& gone.out.len() > 0
                &&& gone.out.last() == Effect::<Seq<u8>>::Game(Notice::Disconnected(client))
                &&& gone.absent(client)
            }
        }),
{
    let new = EntityKey(token);
    let old = e.by_key[token].replaces->0;
    let client = e.by_key[token].client->0;
    let after = e.added(region, entity, token);
    assert(e.paired(token));
    law_an_arrival_takes_over(e, region, entity, token);
    lemma_added(e, region, entity, token);
    assert(after.clients.contains_key(client.0)) by {
        assert(after.clients.dom().contains(client.0));
    }
    let party = after.clients[client.0];
    assert(after.agrees(client.0));
    lemma_listed(after, party.keys, new);
    lemma_listed(after, party.keys, old);
    if party.leaving && party.keys == seq![new] && e.by_key[old.0].region != region {
        law_the_last_removal_ends_a_leaving_client(after, region, entity);
    }
}

/// Whether everything said gives something back to a region.
pub open spec fn gives_back(said: Seq<Said>) -> bool {
    forall|i: int|
        0 <= i < said.len() ==> (#[trigger] said[i] matches Effect::Tell(Outgoing::Despawn(_, _)))
}

/// Giving entities back says that and nothing else, and brings none back.
pub proof fn lemma_freed(e: Edge, keys: Seq<EntityKey>) -> (freed: Seq<Said>)
    ensures
        gives_back(freed),
        e.released_all(keys).out == e.out + freed,
        e.released_all(keys).carried == e.carried,
        e.released_all(keys).by_id == e.by_id,
        e.released_all(keys).clients.dom() == e.clients.dom(),
        forall|k: u64| #[trigger]
            e.released_all(keys).by_key.contains_key(k) ==> e.by_key.contains_key(k),
    decreases keys.len(),
{
    if keys.len() == 0 {
        assert(e.out + Seq::<Said>::empty() =~= e.out);
        Seq::empty()
    } else {
        let now = e.released_all(keys.drop_last());
        let after = e.released_all(keys);
        let front = lemma_freed(e, keys.drop_last());
        let key = keys.last();
        assert(after.clients.dom() =~= now.clients.dom());
        if now.by_key.contains_key(key.0) && now.by_key[key.0].id is Some {
            let held = now.by_key[key.0];
            let last = Effect::<Seq<u8>>::Tell(Outgoing::Despawn(held.region, held.id->0));
            assert(e.out + front.push(last) =~= (e.out + front).push(last));
            front.push(last)
        } else {
            front
        }
    }
}

/// A position held for an entity in transit waits for the destination's copy
/// when that arrives, if the destination's frame can hold it.
pub proof fn law_a_move_held_in_transit_follows(
    e: Edge,
    region: RegionId,
    entity: EntityId,
    token: u64,
)
    requires
        e.sound(),
        e.by_key.contains_key(token),
        e.by_key[token].replaces is Some,
        e.by_key.contains_key((e.by_key[token].replaces->0).0),
        e.by_key[(e.by_key[token].replaces->0).0].transition is Some,
        (e.by_key[(e.by_key[token].replaces->0).0].transition->0).held_move is Some,
    ensures
        ({
            let left = e.by_key[(e.by_key[token].replaces->0).0];
            let at = (left.transition->0).held_move->0;
            let after = e.added(region, entity, token);
            match e.framed(region, at) {
                Some(to) => after.moves.contains_key(model::seat(region, entity))
                    && after.moves[model::seat(region, entity)] == to,
                None => true,
            }
        }),
{
    let new = EntityKey(token);
    let old = e.by_key[token].replaces->0;
    assert(e.paired(token));
    let held = e.by_key[token];
    let left = e.by_key[old.0];
    let passage = left.transition->0;
    let now = Edge {
        by_id: e.by_id.insert(model::seat(region, entity), token),
        ..e.keeping(new, Held { id: Some(entity), pending: None, replaces: None, ..held })
    };
    let swapped = now.remapped(new, held.client, old);
    let heir = match left.handle {
        Some(_) => now.keeping(new, Held { handle: left.handle, ..now.by_key[new.0] }),
        None => now,
    };
    let bare = Edge {
        by_key: heir.by_key.remove(old.0),
        by_id: match left.id {
            Some(id) => now.by_id.remove(model::seat(left.region, id)),
            None => now.by_id,
        },
        ..now
    };
    lemma_released_frame(bare, left.shadows);
    let told = match left.id {
        Some(id) => Edge {
            moves: swapped.moves.remove(model::seat(left.region, id)),
            ..swapped
        }.telling(Outgoing::Despawn(left.region, id)),
        None => swapped,
    };
    let told = told.queued_if(region, entity, held.pending);
    let said = match left.standing {
        Some(body) => told.telling(Outgoing::Message(region, entity, body)),
        None => told,
    };
    let at = said.framed(region, passage.held_move->0);
    lemma_counters_told(
        said.queued_if(region, entity, at),
        region,
        entity,
        passage.held_messages,
    );
}

/// Giving entities back leaves the map and what is known of regions.
proof fn lemma_released_frame(e: Edge, keys: Seq<EntityKey>)
    ensures
        e.released_all(keys).map == e.map,
        e.released_all(keys).region_size == e.region_size,
    decreases keys.len(),
{
    if keys.len() > 0 {
        lemma_released_frame(e, keys.drop_last());
    }
}

/// A teleport that is given up leaves the entity where it was: no longer in
/// transit, its copy forgotten, the position held for it put there, its region
/// told in order what was said to it, and its client that the teleport failed.
pub proof fn law_a_teleport_given_up_leaves_the_entity_where_it_was(e: Edge, t: Transit)
    requires
        e.sound(),
        e.by_key.contains_key(t.from.0),
        e.by_key[t.from.0].transition is Some,
        (e.by_key[t.from.0].transition->0).to == t.to,
        t.from != t.to,
        !e.by_key.contains_key(t.to.0) || e.by_key[t.to.0].id is None,
    ensures
        ({
            let held = e.by_key[t.from.0];
            let passage = held.transition->0;
            let after = e.given_up(t);
            let told: Seq<Said> = match held.id {
                Some(id) => messages_to(held.region, id, passage.held_messages),
                None => Seq::empty(),
            };
            let posted: Seq<Said> = match (held.client, held.handle) {
                (Some(client), Some(handle)) => seq![
                    Effect::<Seq<u8>>::Post(
                        client,
                        ToClient::TeleportFailed { handle, region: passage.dest },
                    ),
                ],
                _ => Seq::empty(),
            };
            &&& !after.by_key.contains_key(t.to.0)
            &&& after.by_key.contains_key(t.from.0)
            &&& after.by_key[t.from.0] == (Held {
                transition: None,
                pending: after.by_key[t.from.0].pending,
                ..held
            })
            &&& after.out == e.out + told + posted
            &&& after.counters.teleport_timeouts == model::up(e.counters.teleport_timeouts)
            &&& match passage.held_move {
                Some(at) => match e.framed(held.region, at) {
                    Some(to) => held.doomed || match held.id {
                        Some(id) => after.moves.contains_key(model::seat(held.region, id))
                            && after.moves[model::seat(held.region, id)] == to,
                        None => after.by_key[t.from.0].pending == Some(to),
                    },
                    None => after.counters.off_map == model::up(e.counters.off_map),
                },
                None => after.moves == e.moves && after.by_key[t.from.0].pending == held.pending,
            }
        }),
{
    let held = e.by_key[t.from.0];
    let passage = held.transition->0;
    let back = e.keeping(t.from, Held { transition: None, ..held });
    let gone = Edge { carried: back.carried.remove(t.to.0), ..back }.forgotten(t.to);
    let moved = match passage.held_move {
        Some(at) => gone.world_placed(t.from, at),
        None => gone,
    };
    if let Some(id) = held.id {
        lemma_messages_told(moved, held.region, id, passage.held_messages);
        lemma_counters_told(moved, held.region, id, passage.held_messages);
    }
    let after = e.given_up(t);
    let told: Seq<Said> = match held.id {
        Some(id) => messages_to(held.region, id, passage.held_messages),
        None => Seq::empty(),
    };
    let posted: Seq<Said> = match (held.client, held.handle) {
        (Some(client), Some(handle)) => seq![
            Effect::<Seq<u8>>::Post(
                client,
                ToClient::TeleportFailed { handle, region: passage.dest },
            ),
        ],
        _ => Seq::empty(),
    };
    assert(after.out =~= e.out + told + posted);
}

/// What arrives for an entity in transit is held, not sent: a message behind
/// those before it, and a position in place of the last.
pub proof fn law_what_arrives_in_transit_is_held(
    e: Edge,
    key: EntityKey,
    body: Seq<u8>,
    at: WorldPos,
)
    requires
        e.by_key.contains_key(key.0),
        !e.by_key[key.0].doomed,
        e.by_key[key.0].transition is Some,
    ensures
        ({
            let passage = e.by_key[key.0].transition->0;
            let said = e.addressed(key, body);
            let moved = e.world_placed(key, at);
            &&& said.out == e.out
            &&& said.by_key[key.0].transition == Some(
                Passage { held_messages: passage.held_messages.push(body), ..passage },
            )
            &&& said.by_key[key.0].standing == Some(body)
            &&& moved.out == e.out
            &&& moved.moves == e.moves
            &&& moved.by_key[key.0].transition == Some(Passage { held_move: Some(at), ..passage })
        }),
{
}

// ---------------------------------------------------------------------------
// Moves, and giving back
// ---------------------------------------------------------------------------

/// Only the latest position asked for counts.
pub proof fn law_the_latest_position_wins(e: Edge, key: EntityKey, a: Pos3, b: Pos3)
    ensures
        e.placed(key, a).placed(key, b) == e.placed(key, b),
{
    if e.by_key.contains_key(key.0) && !e.by_key[key.0].doomed {
        let held = e.by_key[key.0];
        match held.id {
            Some(id) => {
                assert(e.placed(key, a).placed(key, b) =~= e.placed(key, b));
            },
            None => {
                assert(e.placed(key, a).placed(key, b).by_key =~= e.placed(key, b).by_key);
            },
        }
    }
}

/// An entity given back before its region answered for it is forgotten, and if
/// the region answers after all it is given straight back.
pub proof fn law_an_answer_to_a_forgotten_request_is_given_back(
    e: Edge,
    key: EntityKey,
    region: RegionId,
    entity: EntityId,
)
    requires
        e.by_key.contains_key(key.0),
        e.by_key[key.0].id is None,
    ensures
        e.released(key).added(region, entity, key.0) == e.released(key).telling(
            Outgoing::Despawn(region, entity),
        ),
{
}

/// Nothing moves an entity that has been given back, and no position of its is
/// waiting.
pub proof fn law_nothing_moves_what_is_given_back(e: Edge, key: EntityKey, to: Pos3)
    requires
        e.by_key.contains_key(key.0),
        e.by_key[key.0].id is Some,
    ensures
        ({
            let held = e.by_key[key.0];
            let after = e.released(key);
            &&& after.placed(key, to) == after
            &&& !after.moves.contains_key(model::seat(held.region, held.id->0))
            &&& after.out == e.out.push(Effect::Tell(Outgoing::Despawn(held.region, held.id->0)))
        }),
{
}

// ---------------------------------------------------------------------------
// Whose
// ---------------------------------------------------------------------------

impl Edge {
    /// Whether what is not a client's is as it was.
    pub open spec fn spares(self, after: Edge, client: ClientId) -> bool {
        forall|k: u64| #[trigger]
            self.by_key.contains_key(k) && self.by_key[k].client != Some(client)
                ==> after.by_key.contains_key(k) && after.by_key[k] == self.by_key[k]
    }
}

/// A handle names an entity of the client that holds it.
proof fn lemma_named(e: Edge, client: ClientId, handle: EntityHandle)
    requires
        e.sound(),
        e.named(client, handle) is Some,
    ensures
        ({
            let key = e.named(client, handle)->0;
            e.by_key.contains_key(key.0) && e.by_key[key.0].client == Some(client)
        }),
{
    assert(e.agrees(client.0));
    assert(e.clients[client.0].handles.contains_key(handle.0 as u64));
}

proof fn lemma_moved_spares(e: Edge, client: ClientId, moves: Seq<(EntityHandle, WorldPos)>)
    requires
        e.sound(),
    ensures
        e.spares(e.moved(client, moves), client),
    decreases moves.len(),
{
    if moves.len() > 0 {
        let now = e.moved(client, moves.drop_last());
        lemma_moved_spares(e, client, moves.drop_last());
        lemma_moved(e, client, moves.drop_last());
        if now.named(client, moves.last().0) is Some {
            lemma_named(now, client, moves.last().0);
        }
        assert forall|k: u64| #[trigger]
            e.by_key.contains_key(k) && e.by_key[k].client != Some(client) implies e.moved(
            client,
            moves,
        ).by_key.contains_key(k) && e.moved(client, moves).by_key[k] == e.by_key[k] by {
            assert(now.by_key.contains_key(k) && now.by_key[k] == e.by_key[k]);
        }
    }
}

/// Whatever a client sends, it changes no entity but its own.
pub proof fn law_a_client_changes_only_its_own(e: Edge, client: ClientId, message: FromClient)
    requires
        e.sound(),
        e.next_key < u64::MAX,
    ensures
        e.spares(e.heard(client, message).0, client),
{
    let now = Edge {
        counters: Counters { commands: model::up(e.counters.commands), ..e.counters },
        ..e
    };
    lemma_books(e, now);
    match message {
        FromClient::Spawn { handle, position, kind } => {
            assert(!e.by_key.contains_key(e.next_key));
        },
        FromClient::SpawnInto { handle, region, position, kind } => {
            assert(!e.by_key.contains_key(e.next_key));
        },
        FromClient::Move { handle, position } => lemma_moved_spares(
            now,
            client,
            seq![(handle, position)],
        ),
        FromClient::Moves(moves) => lemma_moved_spares(now, client, moves@),
        FromClient::Despawn { handle } => {
            if now.named(client, handle) is Some {
                lemma_named(now, client, handle);
            }
        },
        FromClient::Message(body) => {},
        FromClient::EntityMessage { handle, body } => {
            if now.named(client, handle) is Some {
                lemma_named(now, client, handle);
            }
        },
        FromClient::Teleport { handle, at } => {},
        FromClient::TeleportInto { handle, region, at } => {},
    }
}

/// Giving back a client's entities gives back each of them and no other.
proof fn lemma_given_back(e: Edge, client: ClientId, keys: Seq<EntityKey>)
    requires
        forall|i: int|
            0 <= i < keys.len() && e.by_key.contains_key((#[trigger] keys[i]).0)
                ==> e.by_key[keys[i].0].client == Some(client),
    ensures
        e.spares(e.released_all(keys), client),
        forall|k: u64| #[trigger]
            e.released_all(keys).by_key.contains_key(k) ==> e.by_key.contains_key(k)
                && e.released_all(keys).by_key[k].client == e.by_key[k].client,
        forall|i: int|
            0 <= i < keys.len() && e.released_all(keys).by_key.contains_key((#[trigger] keys[i]).0)
                ==> e.released_all(keys).by_key[keys[i].0].doomed,
    decreases keys.len(),
{
    if keys.len() > 0 {
        let fewer = keys.drop_last();
        lemma_given_back(e, client, fewer);
        let now = e.released_all(fewer);
        let last = keys.last();
        let after = e.released_all(keys);
        assert(after == now.released(last));
        assert(keys[keys.len() - 1] == last);
        assert forall|i: int|
            0 <= i < keys.len() && after.by_key.contains_key((#[trigger] keys[i]).0) implies
            after.by_key[keys[i].0].doomed by {
            if i < fewer.len() {
                assert(fewer[i] == keys[i]);
            }
        }
    }
}

/// When a client goes, every entity it held is given back, and no entity that
/// was not its own is touched.
pub proof fn law_a_client_that_goes_takes_only_its_own(e: Edge, client: ClientId)
    requires
        e.sound(),
        e.clients.contains_key(client.0),
        !e.clients[client.0].leaving,
    ensures
        e.spares(e.swept(client), client),
        forall|k: u64| #[trigger]
            e.swept(client).by_key.contains_key(k) && e.by_key[k].client == Some(client)
                ==> e.swept(client).by_key[k].doomed,
{
    let party = e.clients[client.0];
    let marked = Edge {
        clients: e.clients.insert(client.0, Party { leaving: true, ..party }),
        ..e
    };
    assert(e.agrees(client.0));
    assert forall|i: int|
        0 <= i < party.keys.len() && marked.by_key.contains_key((#[trigger] party.keys[i]).0)
            implies marked.by_key[party.keys[i].0].client == Some(client) by {
        assert(party.keys.contains(party.keys[i]));
    }
    lemma_given_back(marked, client, party.keys);
    let after = marked.released_all(party.keys);
    assert(e.swept(client).by_key == after.by_key);
    assert forall|k: u64| #[trigger]
        after.by_key.contains_key(k) && e.by_key[k].client == Some(client) implies
        after.by_key[k].doomed by {
        assert(e.by_key.contains_key(k));
        assert(party.keys.contains(EntityKey(k)));
        let i = choose|i: int| 0 <= i < party.keys.len() && party.keys[i] == EntityKey(k);
        assert(party.keys[i].0 == k);
    }
}

/// A packet a region built for a shadow goes to the client whose observer the
/// shadow stands in for, under that observer's handle, and never to anyone
/// else.
pub proof fn law_a_shadow_sees_for_its_owner(e: Edge, region: RegionId, entity: EntityId)
    requires
        e.sound(),
        e.known(region, entity) is Some,
        e.by_key[(e.known(region, entity)->0).0].shadow_of is Some,
    ensures
        ({
            let shadow = e.by_key[(e.known(region, entity)->0).0];
            let owner = shadow.shadow_of->0;
            match e.recipient(region, entity) {
                Some((client, handle)) => e.by_key.contains_key(owner.0)
                    && e.by_key[owner.0].handle == Some(handle) && shadow.client == Some(client),
                None => !e.by_key.contains_key(owner.0) || shadow.client is None
                    || e.by_key[owner.0].handle is None,
            }
        }),
{
    assert(e.attended((e.known(region, entity)->0).0));
}

// ---------------------------------------------------------------------------
// Shadows
// ---------------------------------------------------------------------------

/// Whether one of several shadows stands in a region.
pub open spec fn stands_in(e: Edge, shadows: Seq<EntityKey>, region: RegionId) -> bool {
    exists|s: EntityKey| #[trigger]
        shadows.contains(s) && e.by_key.contains_key(s.0) && e.by_key[s.0].region == region
}

/// Every key an edge held that is not forgotten is held still, and each kept
/// shadow too.
proof fn lemma_shadows_stand(
    e: Edge,
    owner: EntityKey,
    client: Option<ClientId>,
    existing: Seq<(EntityKey, RegionId)>,
    w: World,
    here: WorldPos,
    squares: Seq<Placement>,
)
    requires
        e.sound(),
        e.next_key + squares.len() <= u64::MAX,
        e.by_key.contains_key(owner.0),
        e.by_key[owner.0].client == client,
        shades(e, owner, model::keys_of(existing)),
        forall|i: int|
            0 <= i < existing.len() ==> e.by_key.contains_key((#[trigger] existing[i]).0.0)
                && e.by_key[existing[i].0.0].region == existing[i].1,
    ensures
        ({
            let (after, keep) = e.all_shadowed(owner, client, existing, w, here, squares);
            &&& forall|k: u64| #[trigger] e.by_key.contains_key(k) ==> after.by_key.contains_key(k)
            &&& forall|s: EntityKey| #[trigger] keep.contains(s) ==> after.by_key.contains_key(s.0)
            &&& after.map == e.map
            &&& forall|i: int|
                0 <= i < squares.len() && seam::shadow_spot(w, here, #[trigger] squares[i])
                    is Some ==> match crate::map::region_in(e.map, squares[i]) {
                    Some(neighbor) => stands_in(after, keep, neighbor),
                    None => true,
                }
        }),
    decreases squares.len(),
{
    if squares.len() > 0 {
        let front = squares.drop_last();
        lemma_shadows_stand(e, owner, client, existing, w, here, front);
        lemma_all_shadowed(e, owner, client, existing, w, here, front);
        lemma_all_shadowed(e, owner, client, existing, w, here, squares);
        let (now, keep) = e.all_shadowed(owner, client, existing, w, here, front);
        let (after, kept) = e.all_shadowed(owner, client, existing, w, here, squares);
        let square = squares.last();
        match crate::map::region_in(now.map, square) {
            None => {},
            Some(neighbor) => match seam::shadow_spot(w, here, square) {
                None => {},
                Some(point) => {
                    let one = match model::first_in(existing, neighbor) {
                        Some(shadow) => {
                            lemma_first_in(existing, neighbor);
                            lemma_placed(now, shadow, point);
                            let i = choose|i: int|
                                0 <= i < existing.len() && existing[i] == (shadow, neighbor);
                            assert(e.by_key.contains_key(existing[i].0.0));
                            assert(after.by_key.dom().contains(shadow.0));
                            shadow
                        },
                        None => EntityKey(now.next_key),
                    };
                    assert(kept == keep.push(one));
                    assert(kept[keep.len() as int] == one);
                    assert(kept.contains(one));
                    assert(after.by_key.contains_key(one.0));
                    assert(after.by_key[one.0].region == neighbor) by {
                        if let Some(shadow) = model::first_in(existing, neighbor) {
                            assert(e.by_key.contains_key(shadow.0));
                        }
                    }
                    assert(now.leads_to(after)) by {
                        match model::first_in(existing, neighbor) {
                            Some(shadow) => lemma_placed(now, shadow, point),
                            None => lemma_asked(
                                now,
                                Ask {
                                    client,
                                    handle: None,
                                    region: neighbor,
                                    at: point,
                                    kind: EntityKind { role: Role::Shadow, tag: 0 },
                                    shadow_of: Some(owner),
                                    name: None,
                                },
                            ),
                        }
                    }
                    assert forall|k: u64| #[trigger]
                        now.by_key.contains_key(k) implies after.by_key.contains_key(k) by {
                        assert(now.by_key.dom().contains(k));
                    }
                    assert forall|s: EntityKey| #[trigger] kept.contains(
                        s,
                    ) implies after.by_key.contains_key(s.0) by {
                        let i = choose|i: int| 0 <= i < kept.len() && kept[i] == s;
                        if i < keep.len() {
                            assert(keep[i] == s);
                            assert(keep.contains(s));
                        }
                    }
                    assert forall|r: RegionId| #[trigger] stands_in(now, keep, r) implies stands_in(
                        after,
                        kept,
                        r,
                    ) by {
                        let s = choose|s: EntityKey| #[trigger]
                            keep.contains(s) && now.by_key.contains_key(s.0)
                                && now.by_key[s.0].region == r;
                        let i = choose|i: int| 0 <= i < keep.len() && keep[i] == s;
                        assert(kept[i] == s);
                        assert(kept.contains(s));
                    }
                },
            },
        }
        assert forall|i: int|
            0 <= i < squares.len() && seam::shadow_spot(w, here, #[trigger] squares[i])
                is Some implies match crate::map::region_in(e.map, squares[i]) {
            Some(neighbor) => stands_in(after, kept, neighbor),
            None => true,
        } by {
            if i < front.len() {
                assert(front[i] == squares[i]);
                if let Some(r) = crate::map::region_in(e.map, squares[i]) {
                    assert(stands_in(now, keep, r));
                }
            }
        }
    }
}

/// What is in one list and not another.
proof fn lemma_beyond(keys: Seq<EntityKey>, keep: Seq<EntityKey>)
    ensures
        forall|k: EntityKey| #[trigger]
            model::beyond(keys, keep).contains(k) == (keys.contains(k) && !keep.contains(k)),
    decreases keys.len(),
{
    if keys.len() > 0 {
        let front = keys.drop_last();
        let last = keys.last();
        lemma_beyond(front, keep);
        let rest = model::beyond(front, keep);
        let all = model::beyond(keys, keep);
        assert(keys[keys.len() - 1] == last);
        assert forall|k: EntityKey| #[trigger] all.contains(k) == (keys.contains(k)
            && !keep.contains(k)) by {
            if keys.contains(k) && k != last {
                let i = choose|i: int| 0 <= i < keys.len() && keys[i] == k;
                assert(front[i] == k);
            }
            if front.contains(k) {
                let i = choose|i: int| 0 <= i < front.len() && front[i] == k;
                assert(keys[i] == k);
            }
            if !keep.contains(last) {
                assert(all == rest.push(last));
                assert(all[rest.len() as int] == last);
                if rest.contains(k) {
                    let i = choose|i: int| 0 <= i < rest.len() && rest[i] == k;
                    assert(all[i] == k);
                }
                if all.contains(k) && k != last {
                    let i = choose|i: int| 0 <= i < all.len() && all[i] == k;
                    assert(rest[i] == k);
                }
            }
        }
    }
}

/// While an observer's view reaches past its region, it keeps a shadow in every
/// placed region it reaches, each standing in for it alone.
pub proof fn law_a_view_past_a_seam_is_shadowed(
    e: Edge,
    region: RegionId,
    entity: EntityId,
    position: Pos3,
)
    requires
        e.sound(),
        e.next_key + 8 <= u64::MAX,
        e.known(region, entity) is Some,
        e.by_key[(e.known(region, entity)->0).0].shadow_of is None,
        crate::map::square_of(e.map, region) is Some,
        e.worlds.contains_key(region.0 as u64),
    ensures
        ({
            let key = e.known(region, entity)->0;
            let square = crate::map::square_of(e.map, region)->0;
            let w = e.worlds[region.0 as u64].config@;
            let here = WorldPos::of_local(
                position,
                square,
                crate::fixed::Fixed(w.region_size as i32),
            );
            let squares = seam::squares_seen(w, square, position);
            let after = e.viewed(region, entity, position);
            &&& after.by_key.contains_key(key.0)
            &&& forall|i: int|
                0 <= i < squares.len() && seam::shadow_spot(w, here, #[trigger] squares[i])
                    is Some ==> match crate::map::region_in(e.map, squares[i]) {
                    Some(neighbor) => stands_in(after, after.by_key[key.0].shadows, neighbor),
                    None => true,
                }
            &&& forall|s: EntityKey| #[trigger]
                after.by_key[key.0].shadows.contains(s) ==> after.by_key.contains_key(s.0)
                    && after.by_key[s.0].shadow_of == Some(key)
        }),
{
    let key = e.known(region, entity)->0;
    let held = e.by_key[key.0];
    let square = crate::map::square_of(e.map, region)->0;
    let w = e.worlds[region.0 as u64].config@;
    let here = WorldPos::of_local(position, square, crate::fixed::Fixed(w.region_size as i32));
    let existing = e.standing_in(held.shadows);
    let squares = seam::squares_seen(w, square, position);
    lemma_standing_in(e, held.shadows);
    assert(e.attended(key.0));
    assert forall|s: EntityKey| #[trigger] model::keys_of(existing).contains(s) implies s.0
        < e.next_key && (e.by_key.contains_key(s.0) ==> e.by_key[s.0].shadow_of == Some(
        key,
    )) by {
        let i = choose|i: int|
            0 <= i < model::keys_of(existing).len() && model::keys_of(existing)[i] == s;
        assert(existing[i].0 == s);
        assert(held.shadows.contains(s));
    }
    lemma_shadows_stand(e, key, held.client, existing, w, here, squares);
    lemma_all_shadowed(e, key, held.client, existing, w, here, squares);
    let (now, keep) = e.all_shadowed(key, held.client, existing, w, here, squares);
    let stale = model::beyond(model::keys_of(existing), keep);
    lemma_beyond(model::keys_of(existing), keep);
    let trimmed = now.released_all(stale);
    lemma_released_all(now, stale);
    lemma_shades(now, trimmed, key, keep);
    assert(!stale.contains(key)) by {
        if stale.contains(key) {
            assert(model::keys_of(existing).contains(key));
        }
    }
    lemma_unmarked(now, stale, key);
    let after = e.viewed(region, entity, position);
    assert(after.by_key[key.0].shadows == keep);
    assert forall|s: EntityKey| #[trigger] keep.contains(s) implies after.by_key.contains_key(s.0)
        && after.by_key[s.0].shadow_of == Some(key) && after.by_key[s.0].region
        == now.by_key[s.0].region by {
        lemma_unmarked(now, stale, s);
        assert(trimmed.by_key.contains_key(s.0));
        assert(trimmed.by_key[s.0].shadow_of == Some(key));
    }
    assert forall|i: int|
        0 <= i < squares.len() && seam::shadow_spot(w, here, #[trigger] squares[i])
            is Some implies match crate::map::region_in(e.map, squares[i]) {
        Some(neighbor) => stands_in(after, after.by_key[key.0].shadows, neighbor),
        None => true,
    } by {
        if let Some(r) = crate::map::region_in(e.map, squares[i]) {
            assert(stands_in(now, keep, r));
            let s = choose|s: EntityKey| #[trigger]
                keep.contains(s) && now.by_key.contains_key(s.0) && now.by_key[s.0].region == r;
            assert(after.by_key.contains_key(s.0));
        }
    }
}

/// What giving entities back leaves: one whose region had answered is held
/// still and given back, one whose region had not is forgotten, and the rest
/// are as they were.
pub proof fn lemma_back(e: Edge, keys: Seq<EntityKey>)
    ensures
        ({
            let after = e.released_all(keys);
            &&& after.next_key == e.next_key
            &&& forall|k: u64| #[trigger]
                after.by_key.contains_key(k) ==> e.by_key.contains_key(k) && after.by_key[k] == (
                Held {
                    pending: after.by_key[k].pending,
                    doomed: after.by_key[k].doomed,
                    ..e.by_key[k]
                }) && (e.by_key[k].doomed ==> after.by_key[k].doomed)
            &&& forall|k: u64| #[trigger]
                e.by_key.contains_key(k) && e.by_key[k].id is Some ==> after.by_key.contains_key(k)
            &&& forall|s: EntityKey| #[trigger]
                keys.contains(s) && e.by_key.contains_key(s.0) ==> if e.by_key[s.0].id is Some {
                    after.by_key[s.0].doomed
                } else {
                    !after.by_key.contains_key(s.0)
                }
        }),
    decreases keys.len(),
{
    if keys.len() > 0 {
        let front = keys.drop_last();
        let last = keys.last();
        let now = e.released_all(front);
        let after = e.released_all(keys);
        lemma_back(e, front);
        assert(after == now.released(last));
        assert forall|k: u64| #[trigger] after.by_key.contains_key(k) implies e.by_key.contains_key(
            k,
        ) && after.by_key[k] == (Held {
            pending: after.by_key[k].pending,
            doomed: after.by_key[k].doomed,
            ..e.by_key[k]
        }) && (e.by_key[k].doomed ==> after.by_key[k].doomed) by {
            assert(now.by_key.contains_key(k));
        }
        assert forall|k: u64| #[trigger]
            e.by_key.contains_key(k) && e.by_key[k].id is Some implies after.by_key.contains_key(
            k,
        ) by {
            assert(now.by_key.contains_key(k));
        }
        assert forall|s: EntityKey| #[trigger]
            keys.contains(s) && e.by_key.contains_key(s.0) implies if e.by_key[s.0].id is Some {
            after.by_key[s.0].doomed
        } else {
            !after.by_key.contains_key(s.0)
        } by {
            let i = choose|i: int| 0 <= i < keys.len() && keys[i] == s;
            if i < front.len() {
                assert(front[i] == s);
                assert(front.contains(s));
            }
            if e.by_key[s.0].id is Some {
                assert(now.by_key.contains_key(s.0));
                assert(now.by_key[s.0].id == e.by_key[s.0].id);
            } else if after.by_key.contains_key(s.0) {
                assert(now.by_key.contains_key(s.0));
            }
        }
    }
}

/// What regions are told when entities are given back: each that its region had
/// answered for, in order.
pub proof fn lemma_all_back_said(e: Edge, keys: Seq<EntityKey>)
    ensures
        e.released_all(keys).out == e.out + keys.filter(
            |s: EntityKey| e.by_key.contains_key(s.0) && e.by_key[s.0].id is Some,
        ).map_values(
            |s: EntityKey|
                Effect::<Seq<u8>>::Tell(
                    Outgoing::Despawn(e.by_key[s.0].region, e.by_key[s.0].id->0),
                ),
        ),
    decreases keys.len(),
{
    reveal(Seq::filter);
    let given = |s: EntityKey| e.by_key.contains_key(s.0) && e.by_key[s.0].id is Some;
    let told = |s: EntityKey|
        Effect::<Seq<u8>>::Tell(Outgoing::Despawn(e.by_key[s.0].region, e.by_key[s.0].id->0));
    if keys.len() == 0 {
        assert(e.out + keys.filter(given).map_values(told) =~= e.out);
    } else {
        let front = keys.drop_last();
        let last = keys.last();
        let now = e.released_all(front);
        lemma_all_back_said(e, front);
        lemma_back(e, front);
        if given(last) {
            assert(now.by_key.contains_key(last.0));
            assert(keys.filter(given).map_values(told) =~= front.filter(given).map_values(
                told,
            ).push(told(last)));
            assert(e.released_all(keys).out =~= e.out + keys.filter(given).map_values(told));
        } else if now.by_key.contains_key(last.0) {
            assert(e.by_key.contains_key(last.0));
        }
    }
}

/// What regions are told when an observer's shadows that are not kept are given
/// back: each that its region had answered for, in the order they were listed.
proof fn lemma_back_said(e: Edge, now: Edge, shadows: Seq<EntityKey>, keep: Seq<EntityKey>)
    requires
        forall|k: u64| #[trigger]
            e.by_key.contains_key(k) ==> now.by_key.contains_key(k) && now.by_key[k].region
                == e.by_key[k].region && now.by_key[k].id == e.by_key[k].id,
    ensures
        now.released_all(model::beyond(model::keys_of(e.standing_in(shadows)), keep)).out
            == now.out + shadows.filter(
            |s: EntityKey|
                e.by_key.contains_key(s.0) && e.by_key[s.0].id is Some && !keep.contains(s),
        ).map_values(
            |s: EntityKey|
                Effect::<Seq<u8>>::Tell(
                    Outgoing::Despawn(e.by_key[s.0].region, e.by_key[s.0].id->0),
                ),
        ),
        forall|s: EntityKey| #[trigger]
            model::beyond(model::keys_of(e.standing_in(shadows)), keep).contains(s) <==> {
                shadows.contains(s) && e.by_key.contains_key(s.0) && !keep.contains(s)
            },
    decreases shadows.len(),
{
    reveal(Seq::filter);
    let given = |s: EntityKey|
        e.by_key.contains_key(s.0) && e.by_key[s.0].id is Some && !keep.contains(s);
    let told = |s: EntityKey|
        Effect::<Seq<u8>>::Tell(Outgoing::Despawn(e.by_key[s.0].region, e.by_key[s.0].id->0));
    let stale = model::beyond(model::keys_of(e.standing_in(shadows)), keep);
    if shadows.len() == 0 {
        assert(model::keys_of(e.standing_in(shadows)) =~= Seq::<EntityKey>::empty());
        assert(stale.len() == 0);
        assert(shadows.filter(given).len() == 0);
        assert(now.out + shadows.filter(given).map_values(told) =~= now.out);
        assert forall|s: EntityKey| #[trigger] stale.contains(s) <==> {
            shadows.contains(s) && e.by_key.contains_key(s.0) && !keep.contains(s)
        } by {}
    } else {
        let front = shadows.drop_last();
        let last = shadows.last();
        lemma_back_said(e, now, front, keep);
        let before = model::beyond(model::keys_of(e.standing_in(front)), keep);
        assert(shadows =~= front.push(last));
        if e.by_key.contains_key(last.0) {
            assert(model::keys_of(e.standing_in(shadows)) =~= model::keys_of(
                e.standing_in(front),
            ).push(last));
            assert(model::keys_of(e.standing_in(shadows)).drop_last() =~= model::keys_of(
                e.standing_in(front),
            ));
        }
        let kept = now.released_all(before);
        lemma_back(now, before);
        assert forall|s: EntityKey| #[trigger] stale.contains(s) <==> {
            shadows.contains(s) && e.by_key.contains_key(s.0) && !keep.contains(s)
        } by {
            vstd::seq_lib::lemma_seq_contains_after_push(front, last, s);
            vstd::seq_lib::lemma_seq_contains_after_push(before, last, s);
            assert(front.contains(s) || last == s <==> shadows.contains(s));
        }
        if e.by_key.contains_key(last.0) && !keep.contains(last) {
            assert(stale == before.push(last));
            assert(stale.drop_last() =~= before);
            assert(now.released_all(stale) == kept.released(last));
            if e.by_key[last.0].id is Some {
                assert(now.by_key.contains_key(last.0));
                assert(kept.by_key.contains_key(last.0));
                assert(shadows.filter(given) == front.filter(given).push(last));
                assert(shadows.filter(given).map_values(told) =~= front.filter(given).map_values(
                    told,
                ).push(told(last)));
                assert(now.released_all(stale).out =~= now.out + shadows.filter(
                    given,
                ).map_values(told));
            }
        }
    }
}

/// What following an observer's view changes before anything is given back: a
/// shadow it has is moved and keeps its place in the books, one it has not is
/// asked for, in order, and every shadow kept is in a region beyond one of the
/// squares.
proof fn lemma_followed(
    e: Edge,
    owner: EntityKey,
    client: Option<ClientId>,
    existing: Seq<(EntityKey, RegionId)>,
    w: World,
    here: WorldPos,
    squares: Seq<Placement>,
)
    requires
        e.next_key + squares.len() <= u64::MAX,
        forall|k: u64| #[trigger] e.by_key.contains_key(k) ==> k < e.next_key,
        forall|i: int|
            0 <= i < existing.len() ==> e.by_key.contains_key((#[trigger] existing[i]).0.0)
                && e.by_key[existing[i].0.0].region == existing[i].1,
    ensures
        ({
            let now = e.all_shadowed(owner, client, existing, w, here, squares).0;
            let keep = e.all_shadowed(owner, client, existing, w, here, squares).1;
            &&& now.map == e.map
            &&& e.next_key <= now.next_key <= e.next_key + squares.len()
            &&& forall|k: u64| #[trigger]
                now.by_key.contains_key(k) <==> e.by_key.contains_key(k) || e.next_key <= k
                    < now.next_key
            &&& forall|k: u64| #[trigger]
                e.by_key.contains_key(k) ==> now.by_key[k] == (Held {
                    pending: now.by_key[k].pending,
                    ..e.by_key[k]
                })
            &&& forall|k: u64|
                e.next_key <= k < now.next_key ==> #[trigger] keep.contains(EntityKey(k))
            &&& now.out.len() == e.out.len() + (now.next_key - e.next_key)
            &&& now.out.take(e.out.len() as int) == e.out
        }),
        ({
            let now = e.all_shadowed(owner, client, existing, w, here, squares).0;
            let keep = e.all_shadowed(owner, client, existing, w, here, squares).1;
            &&& forall|s: EntityKey| #[trigger]
                keep.contains(s) ==> {
                    &&& now.by_key.contains_key(s.0)
                    &&& beside(e, squares, now.by_key[s.0].region)
                }
        }),
        ({
            let now = e.all_shadowed(owner, client, existing, w, here, squares).0;
            forall|k: u64|
                e.next_key <= k < now.next_key ==> asked_beside(
                    e,
                    squares,
                    w,
                    here,
                    #[trigger] now.by_key[k],
                    k,
                    now.out[e.out.len() + (k - e.next_key)],
                ) && now.by_key[k].shadow_of == Some(owner) && now.by_key[k].client == client
        }),
    decreases squares.len(),
{
    if squares.len() == 0 {
        assert(e.out.take(e.out.len() as int) =~= e.out);
    } else {
        let front = squares.drop_last();
        lemma_followed(e, owner, client, existing, w, here, front);
        let now = e.all_shadowed(owner, client, existing, w, here, front).0;
        let keep = e.all_shadowed(owner, client, existing, w, here, front).1;
        let after = e.all_shadowed(owner, client, existing, w, here, squares).0;
        let kept = e.all_shadowed(owner, client, existing, w, here, squares).1;
        let square = squares.last();
        assert(squares[squares.len() - 1] == square);
        assert(squares.contains(square));
        assert forall|r: RegionId| #[trigger] beside(e, front, r) implies beside(e, squares, r) by {
            lemma_beside(e, front, squares, r);
        }
        assert forall|h: Held, k: u64, s: Said| #[trigger]
            asked_beside(e, front, w, here, h, k, s) implies asked_beside(
            e,
            squares,
            w,
            here,
            h,
            k,
            s,
        ) by {
            lemma_asked_beside(e, front, squares, w, here, h, k, s);
        }
        match crate::map::region_in(now.map, square) {
            None => {},
            Some(neighbor) => match seam::shadow_spot(w, here, square) {
                None => {},
                Some(point) => {
                    assert(e.map.contains((neighbor, square)));
                    assert(beside(e, squares, neighbor));
                    match model::first_in(existing, neighbor) {
                        Some(shadow) => {
                            lemma_first_in(existing, neighbor);
                            let i = choose|i: int|
                                0 <= i < existing.len() && existing[i] == (shadow, neighbor);
                            assert(e.by_key.contains_key(existing[i].0.0));
                            assert(after == now.placed(shadow, point));
                            assert(kept == keep.push(shadow));
                            lemma_kept_push(keep, shadow);
                        },
                        None => {
                            assert(kept == keep.push(EntityKey(now.next_key)));
                            lemma_kept_push(keep, EntityKey(now.next_key));
                            assert(after.next_key == now.next_key + 1);
                            assert(after.out.take(e.out.len() as int) =~= now.out.take(
                                e.out.len() as int,
                            ));
                            assert(!e.by_key.contains_key(now.next_key));
                            assert(same_spot(seam::shadow_spot(w, here, square), point));
                            assert(after.out == now.out.push(
                                Effect::Tell(
                                    Outgoing::Spawn(
                                        neighbor,
                                        Spawn {
                                            position: point,
                                            kind: EntityKind { role: Role::Shadow, tag: 0 },
                                            token: now.next_key,
                                        },
                                        EntityKey(now.next_key),
                                    ),
                                ),
                            ));
                            assert(asked_beside(
                                e,
                                squares,
                                w,
                                here,
                                after.by_key[now.next_key],
                                now.next_key,
                                after.out[e.out.len() + (now.next_key - e.next_key)],
                            ));
                            assert forall|k: u64|
                                e.next_key <= k < after.next_key implies asked_beside(
                                e,
                                squares,
                                w,
                                here,
                                #[trigger] after.by_key[k],
                                k,
                                after.out[e.out.len() + (k - e.next_key)],
                            ) && after.by_key[k].shadow_of == Some(owner) && after.by_key[k].client
                                == client by {
                                if k < now.next_key {
                                    assert(after.by_key[k] == now.by_key[k]);
                                }
                            }
                        },
                    }
                },
            },
        }
    }
}

/// Whether a region is placed in one of several squares.
pub open spec fn beside(e: Edge, squares: Seq<Placement>, region: RegionId) -> bool {
    exists|square: Placement| #[trigger]
        squares.contains(square) && e.map.contains((region, square))
}

/// Whether a new shadow was asked of a region placed in one of several squares,
/// where it is to stand there, and is said to have been.
spec fn asked_beside(
    e: Edge,
    squares: Seq<Placement>,
    w: World,
    here: WorldPos,
    held: Held,
    key: u64,
    said: Said,
) -> bool {
    exists|square: Placement, point: Pos3| #[trigger]
        squares.contains(square) && e.map.contains((held.region, square)) && #[trigger] same_spot(
            seam::shadow_spot(w, here, square),
            point,
        ) && said == Effect::<Seq<u8>>::Tell(
            Outgoing::Spawn(
                held.region,
                Spawn {
                    position: point,
                    kind: EntityKind { role: Role::Shadow, tag: 0 },
                    token: key,
                },
                EntityKey(key),
            ),
        ) && held.kind == (EntityKind { role: Role::Shadow, tag: 0 }) && held.name == EntityKey(key)
            && held.id is None && held.handle is None && !held.doomed
}

spec fn same_spot(spot: Option<Pos3>, point: Pos3) -> bool {
    spot == Some(point)
}

proof fn lemma_beside(e: Edge, fewer: Seq<Placement>, more: Seq<Placement>, region: RegionId)
    requires
        beside(e, fewer, region),
        fewer == more.drop_last(),
        more.len() > 0,
    ensures
        beside(e, more, region),
{
    let square = choose|square: Placement| #[trigger]
        fewer.contains(square) && e.map.contains((region, square));
    let i = choose|i: int| 0 <= i < fewer.len() && fewer[i] == square;
    assert(more[i] == square);
    assert(more.contains(square));
}

proof fn lemma_asked_beside(
    e: Edge,
    fewer: Seq<Placement>,
    more: Seq<Placement>,
    w: World,
    here: WorldPos,
    held: Held,
    key: u64,
    said: Said,
)
    requires
        asked_beside(e, fewer, w, here, held, key, said),
        fewer == more.drop_last(),
        more.len() > 0,
    ensures
        asked_beside(e, more, w, here, held, key, said),
{
    assert forall|square: Placement| #[trigger] fewer.contains(square) implies more.contains(
        square,
    ) by {
        let i = choose|i: int| 0 <= i < fewer.len() && fewer[i] == square;
        assert(more[i] == square);
    }
}

proof fn lemma_kept_push(keep: Seq<EntityKey>, one: EntityKey)
    ensures
        forall|s: EntityKey| #[trigger] keep.push(one).contains(s) <==> keep.contains(s) || s == one,
{
    assert forall|s: EntityKey| #[trigger] keep.push(one).contains(s) <==> keep.contains(s) || s
        == one by {
        vstd::seq_lib::lemma_seq_contains_after_push(keep, one, s);
    }
}

/// Whether an observer at a place in one square sees into a region placed in
/// another.
pub open spec fn in_sight(
    e: Edge,
    region: RegionId,
    square: Placement,
    position: Pos3,
    other: RegionId,
) -> bool {
    let w = e.worlds[region.0 as u64].config@;
    exists|there: Placement| #[trigger]
        e.map.contains((other, there)) && seam::looks_past(
            w,
            position,
            there.col - square.col,
            there.row - square.row,
        )
}

/// Whether an edge holds an observer, that is no shadow, under what a placed
/// region calls it, and the observer's list has all its shadows on it.
pub open spec fn observes(
    e: Edge,
    region: RegionId,
    entity: EntityId,
    key: u64,
    square: Placement,
) -> bool {
    let slot = (region.0 * 0x1_0000_0000 + entity.0) as u64;
    &&& e.by_id.contains_key(slot)
    &&& e.by_id[slot] == key
    &&& e.by_key.contains_key(key)
    &&& e.by_key[key].shadow_of is None
    &&& crate::map::distinct(e.map)
    &&& e.map.contains((region, square))
    &&& e.worlds.contains_key(region.0 as u64)
    &&& e.worlds[region.0 as u64].config@.valid()
    &&& forall|k: u64| #[trigger]
        e.by_key.contains_key(k) && e.by_key[k].shadow_of == Some(EntityKey(key))
            && !e.by_key[k].doomed ==> e.by_key[key].shadows.contains(EntityKey(k))
}

/// What following an observer's view comes to, in its parts.
proof fn lemma_view_followed(
    e: Edge,
    region: RegionId,
    entity: EntityId,
    position: Pos3,
    key: u64,
    square: Placement,
) -> (r: (Edge, Seq<EntityKey>))
    requires
        e.sound(),
        e.next_key + 8 <= u64::MAX,
        observes(e, region, entity, key, square),
    ensures
        ({
            let w = e.worlds[region.0 as u64].config@;
            let here = WorldPos::of_local(
                position,
                square,
                crate::fixed::Fixed(w.region_size as i32),
            );
            let held = e.by_key[key];
            let existing = e.standing_in(held.shadows);
            let squares = seam::squares_seen(w, square, position);
            let stale = model::beyond(model::keys_of(existing), r.1);
            let after = e.reported(region, Report::ViewCollision { entity, position }).0;
            &&& squares.len() <= 8
            &&& r == e.all_shadowed(EntityKey(key), held.client, existing, w, here, squares)
            &&& forall|i: int|
                0 <= i < existing.len() ==> e.by_key.contains_key((#[trigger] existing[i]).0.0)
                    && e.by_key[existing[i].0.0].region == existing[i].1
            &&& r.0.by_key.contains_key(key)
            &&& !stale.contains(EntityKey(key))
            &&& r.0.released_all(stale).by_key.contains_key(key)
            &&& r.0.released_all(stale).by_key[key] == r.0.by_key[key]
            &&& after == r.0.released_all(stale).listing(EntityKey(key), r.1)
            &&& after.by_key.contains_key(key)
            &&& after.by_key[key].shadows == r.1
            &&& forall|k: u64|
                k != key ==> (#[trigger] after.by_key.contains_key(k) <==> r.0.released_all(
                    stale,
                ).by_key.contains_key(k)) && after.by_key[k] == r.0.released_all(stale).by_key[k]
            &&& forall|s: EntityKey| #[trigger] r.1.contains(s) ==> s.0 != key
        }),
        shades(r.0, EntityKey(key), r.1),
        e.leads_to(r.0),
{
    let w = e.worlds[region.0 as u64].config@;
    let here = WorldPos::of_local(position, square, crate::fixed::Fixed(w.region_size as i32));
    let held = e.by_key[key];
    let existing = e.standing_in(held.shadows);
    let squares = seam::squares_seen(w, square, position);
    crate::map::law_a_placed_region_has_one_square(e.map, region, square);
    assert(e.known(region, entity) == Some(EntityKey(key)));
    lemma_standing_in(e, held.shadows);
    assert(e.attended(key));
    assert forall|s: EntityKey| #[trigger] model::keys_of(existing).contains(s) implies s.0
        < e.next_key && e.by_key.contains_key(s.0) && e.by_key[s.0].shadow_of == Some(
        EntityKey(key),
    ) by {
        let i = choose|i: int|
            0 <= i < model::keys_of(existing).len() && model::keys_of(existing)[i] == s;
        assert(existing[i].0 == s);
        assert(held.shadows.contains(s));
    }
    lemma_all_shadowed(e, EntityKey(key), held.client, existing, w, here, squares);
    lemma_followed(e, EntityKey(key), held.client, existing, w, here, squares);
    let r = e.all_shadowed(EntityKey(key), held.client, existing, w, here, squares);
    let stale = model::beyond(model::keys_of(existing), r.1);
    lemma_beyond(model::keys_of(existing), r.1);
    assert(!stale.contains(EntityKey(key))) by {
        if stale.contains(EntityKey(key)) {
            assert(model::keys_of(existing).contains(EntityKey(key)));
        }
    }
    lemma_unmarked(r.0, stale, EntityKey(key));
    r
}

/// After a view collision, the observer's shadows are the ones its view still
/// needs: each that is held and not given back is on its list, everything on
/// the list stands in for it alone, in a region of a square its view reaches,
/// and each it had that is not kept is forgotten, if its region had not
/// answered for it, or given back. What is said is the shadows asked for and
/// then one despawn for each of those given back, in the order they were
/// listed.
pub proof fn law_a_view_collision_keeps_no_shadow_it_does_not_need(
    e: Edge,
    region: RegionId,
    entity: EntityId,
    position: Pos3,
    key: u64,
    square: Placement,
)
    requires
        e.sound(),
        e.next_key + 8 <= u64::MAX,
        observes(e, region, entity, key, square),
    ensures
        ({
            let after = e.reported(region, Report::ViewCollision { entity, position }).0;
            let had = e.by_key[key].shadows;
            let kept = after.by_key[key].shadows;
            &&& after.by_key.contains_key(key)
            &&& forall|k: u64| #[trigger]
                after.by_key.contains_key(k) && after.by_key[k].shadow_of == Some(EntityKey(key))
                    && !after.by_key[k].doomed ==> kept.contains(EntityKey(k)) && in_sight(
                    e,
                    region,
                    square,
                    position,
                    after.by_key[k].region,
                )
            &&& forall|s: EntityKey| #[trigger]
                kept.contains(s) ==> after.by_key.contains_key(s.0) && after.by_key[s.0].shadow_of
                    == Some(EntityKey(key)) && in_sight(
                    e,
                    region,
                    square,
                    position,
                    after.by_key[s.0].region,
                )
            &&& forall|s: EntityKey| #[trigger]
                had.contains(s) && e.by_key.contains_key(s.0) && !kept.contains(s) ==> if e.by_key[s.0].id
                    is Some {
                    after.by_key.contains_key(s.0) && after.by_key[s.0].doomed
                } else {
                    !after.by_key.contains_key(s.0)
                }
        }),
        ({
            let after = e.reported(region, Report::ViewCollision { entity, position }).0;
            let had = e.by_key[key].shadows;
            let kept = after.by_key[key].shadows;
            let n = after.next_key - e.next_key;
            &&& n >= 0
            &&& after.out.len() >= e.out.len() + n
            &&& after.out.take(e.out.len() as int) == e.out
            &&& after.out.skip(e.out.len() + n) == had.filter(
                |s: EntityKey|
                    e.by_key.contains_key(s.0) && e.by_key[s.0].id is Some && !kept.contains(s),
            ).map_values(
                |s: EntityKey|
                    Effect::<Seq<u8>>::Tell(
                        Outgoing::Despawn(e.by_key[s.0].region, e.by_key[s.0].id->0),
                    ),
            )
        }),
{
    let w = e.worlds[region.0 as u64].config@;
    let here = WorldPos::of_local(position, square, crate::fixed::Fixed(w.region_size as i32));
    let held = e.by_key[key];
    let existing = e.standing_in(held.shadows);
    let squares = seam::squares_seen(w, square, position);
    let r = lemma_view_followed(e, region, entity, position, key, square);
    let now = r.0;
    let keep = r.1;
    let stale = model::beyond(model::keys_of(existing), keep);
    let trimmed = now.released_all(stale);
    let after = e.reported(region, Report::ViewCollision { entity, position }).0;
    lemma_followed(e, EntityKey(key), held.client, existing, w, here, squares);
    assert forall|k: u64| #[trigger] e.by_key.contains_key(k) implies now.by_key.contains_key(k)
        && now.by_key[k].region == e.by_key[k].region && now.by_key[k].id == e.by_key[k].id by {
        assert(now.by_key[k] == (Held { pending: now.by_key[k].pending, ..e.by_key[k] }));
    }
    lemma_back_said(e, now, held.shadows, keep);
    lemma_back(now, stale);
    assert forall|s: EntityKey| #[trigger] keep.contains(s) implies after.by_key.contains_key(s.0)
        && after.by_key[s.0].shadow_of == Some(EntityKey(key)) && in_sight(
        e,
        region,
        square,
        position,
        after.by_key[s.0].region,
    ) by {
        assert(!stale.contains(s));
        lemma_unmarked(now, stale, s);
        assert(trimmed.by_key[s.0] == now.by_key[s.0]);
        let r = now.by_key[s.0].region;
        assert(beside(e, squares, r));
        let there = choose|there: Placement| #[trigger]
            squares.contains(there) && e.map.contains((r, there));
        seam::law_a_square_is_seen_where_the_view_reaches_past(w, square, position, there);
    }
    assert forall|k: u64| #[trigger]
        after.by_key.contains_key(k) && after.by_key[k].shadow_of == Some(EntityKey(key))
            && !after.by_key[k].doomed implies keep.contains(EntityKey(k)) by {
        if k == key {
            assert(now.by_key[key].shadow_of is None);
        } else {
            assert(trimmed.by_key.contains_key(k));
            assert(now.by_key.contains_key(k));
            if e.by_key.contains_key(k) {
                assert(held.shadows.contains(EntityKey(k)));
                if !keep.contains(EntityKey(k)) {
                    assert(stale.contains(EntityKey(k)));
                }
            } else {
                assert(e.next_key <= k < now.next_key);
                assert(keep.contains(EntityKey(k)));
            }
        }
    }
    assert forall|s: EntityKey| #[trigger]
        held.shadows.contains(s) && e.by_key.contains_key(s.0) && !keep.contains(
            s,
        ) implies if e.by_key[s.0].id is Some {
        after.by_key.contains_key(s.0) && after.by_key[s.0].doomed
    } else {
        !after.by_key.contains_key(s.0)
    } by {
        assert(stale.contains(s));
        assert(now.by_key.contains_key(s.0));
    }
    assert(after.next_key == now.next_key);
    assert(after.out == trimmed.out);
    let n = after.next_key - e.next_key;
    assert(after.out.take(e.out.len() as int) =~= now.out.take(e.out.len() as int));
    assert(after.out.skip(e.out.len() + n) =~= held.shadows.filter(
        |s: EntityKey| e.by_key.contains_key(s.0) && e.by_key[s.0].id is Some && !keep.contains(s),
    ).map_values(
        |s: EntityKey|
            Effect::<Seq<u8>>::Tell(
                Outgoing::Despawn(e.by_key[s.0].region, e.by_key[s.0].id->0),
            ),
    ));
}

/// Whether an entity that is held and not given back waits to be put at a place
/// in its region: under its region's name for it, or on its record until its
/// region has answered for it.
pub open spec fn put_at(e: Edge, key: u64, to: Pos3) -> bool {
    let held = e.by_key[key];
    &&& e.by_key.contains_key(key)
    &&& match held.id {
        Some(id) => {
            let slot = (held.region.0 * 0x1_0000_0000 + id.0) as u64;
            e.moves.contains_key(slot) && e.moves[slot] == to
        },
        None => held.pending == Some(to),
    }
}

/// Each shadow an observer has in a region it sees into is moved to where it is
/// to stand there.
proof fn lemma_shadow_moved(
    e: Edge,
    owner: EntityKey,
    client: Option<ClientId>,
    existing: Seq<(EntityKey, RegionId)>,
    w: World,
    here: WorldPos,
    squares: Seq<Placement>,
    i: int,
    shadow: EntityKey,
    neighbor: RegionId,
    point: Pos3,
)
    requires
        e.next_key + squares.len() <= u64::MAX,
        forall|k: u64| #[trigger] e.by_key.contains_key(k) ==> k < e.next_key,
        forall|i: int|
            0 <= i < existing.len() ==> e.by_key.contains_key((#[trigger] existing[i]).0.0)
                && e.by_key[existing[i].0.0].region == existing[i].1,
        crate::map::distinct(e.map),
        squares.no_duplicates(),
        0 <= i < squares.len(),
        crate::map::region_in(e.map, squares[i]) == Some(neighbor),
        seam::shadow_spot(w, here, squares[i]) == Some(point),
        model::first_in(existing, neighbor) == Some(shadow),
        !e.by_key[shadow.0].doomed,
    ensures
        put_at(
            e.all_shadowed(owner, client, existing, w, here, squares).0,
            shadow.0,
            point,
        ),
    decreases squares.len(),
{
    let front = squares.drop_last();
    let square = squares.last();
    let now = e.all_shadowed(owner, client, existing, w, here, front).0;
    let after = e.all_shadowed(owner, client, existing, w, here, squares).0;
    lemma_followed(e, owner, client, existing, w, here, front);
    lemma_first_in(existing, neighbor);
    let at = choose|at: int| 0 <= at < existing.len() && existing[at] == (shadow, neighbor);
    assert(e.by_key.contains_key(existing[at].0.0));
    assert(now.by_key.contains_key(shadow.0));
    assert(now.by_key[shadow.0] == (Held {
        pending: now.by_key[shadow.0].pending,
        ..e.by_key[shadow.0]
    }));
    if i == squares.len() - 1 {
        assert(after == now.placed(shadow, point));
    } else {
        assert(front.no_duplicates());
        assert(front[i] == squares[i]);
        lemma_shadow_moved(
            e,
            owner,
            client,
            existing,
            w,
            here,
            front,
            i,
            shadow,
            neighbor,
            point,
        );
        assert(square != squares[i]);
        if let Some(other) = crate::map::region_in(e.map, square) {
            crate::map::law_a_placed_region_has_one_square(e.map, neighbor, squares[i]);
            crate::map::law_a_placed_region_has_one_square(e.map, other, square);
            assert(other != neighbor) by {
                crate::map::law_a_placed_region_has_one_square(e.map, neighbor, square);
            }
            if let Some(spot) = seam::shadow_spot(w, here, square) {
                if let Some(s) = model::first_in(existing, other) {
                    lemma_first_in(existing, other);
                    let j = choose|j: int| 0 <= j < existing.len() && existing[j] == (s, other);
                    assert(e.by_key.contains_key(existing[j].0.0));
                    assert(now.by_key[s.0].region == other);
                    assert(after == now.placed(s, spot));
                } else {
                    assert(after.by_key[shadow.0] == now.by_key[shadow.0]);
                }
            }
        }
    }
}

/// Giving entities back takes no other entity's waiting position.
proof fn lemma_back_spares_positions(e: Edge, keys: Seq<EntityKey>, key: u64, to: Pos3)
    requires
        put_at(e, key, to),
        !keys.contains(EntityKey(key)),
        forall|k: u64| #[trigger]
            e.by_key.contains_key(k) && k != key && e.by_key[key].id is Some && e.by_key[k].id
                == e.by_key[key].id ==> e.by_key[k].region != e.by_key[key].region,
    ensures
        put_at(e.released_all(keys), key, to),
    decreases keys.len(),
{
    if keys.len() > 0 {
        let front = keys.drop_last();
        let last = keys.last();
        let now = e.released_all(front);
        assert(keys[keys.len() - 1] == last);
        assert(keys.contains(last));
        assert(!front.contains(EntityKey(key))) by {
            if front.contains(EntityKey(key)) {
                let i = choose|i: int| 0 <= i < front.len() && front[i] == EntityKey(key);
                assert(keys[i] == EntityKey(key));
            }
        }
        lemma_back_spares_positions(e, front, key, to);
        lemma_back(e, front);
        if now.by_key.contains_key(last.0) && now.by_key[last.0].id is Some {
            assert(e.by_key.contains_key(last.0));
            assert(e.by_key[last.0].id == now.by_key[last.0].id);
        }
    }
}

/// After a view collision there is a shadow in every placed region the view
/// reaches, standing where its observer would: one the observer had there, and
/// had not given back, is moved there, and one it had not is asked for there,
/// under its own name.
pub proof fn law_a_view_collision_puts_a_shadow_in_every_region_seen(
    e: Edge,
    region: RegionId,
    entity: EntityId,
    position: Pos3,
    key: u64,
    square: Placement,
    other: RegionId,
    there: Placement,
    spot: Pos3,
)
    requires
        e.sound(),
        e.next_key + 8 <= u64::MAX,
        observes(e, region, entity, key, square),
        e.map.contains((other, there)),
        seam::looks_past(
            e.worlds[region.0 as u64].config@,
            position,
            there.col - square.col,
            there.row - square.row,
        ),
        seam::stands_at(e.worlds[region.0 as u64].config@, square, position, there, spot),
        forall|k: u64, l: u64|
            #[trigger] e.by_key.contains_key(k) && #[trigger] e.by_key.contains_key(l) && k != l
                && e.by_key[k].id is Some && e.by_key[l].id == e.by_key[k].id ==> e.by_key[k].region
                != e.by_key[l].region,
    ensures
        ({
            let after = e.reported(region, Report::ViewCollision { entity, position }).0;
            let had = e.by_key[key].shadows;
            let kept = after.by_key[key].shadows;
            exists|s: EntityKey|
                {
                    &&& #[trigger] kept.contains(s)
                    &&& after.by_key.contains_key(s.0)
                    &&& after.by_key[s.0].region == other
                    &&& if s.0 < e.next_key {
                        &&& had.contains(s)
                        &&& e.by_key.contains_key(s.0)
                        &&& e.by_key[s.0].doomed || put_at(after, s.0, spot)
                    } else {
                        &&& after.by_key[s.0].kind == (EntityKind { role: Role::Shadow, tag: 0 })
                        &&& after.by_key[s.0].client == e.by_key[key].client
                        &&& after.by_key[s.0].handle is None
                        &&& after.out[e.out.len() + (s.0 - e.next_key)] == Effect::<
                            Seq<u8>,
                        >::Tell(
                            Outgoing::Spawn(
                                other,
                                Spawn {
                                    position: spot,
                                    kind: EntityKind { role: Role::Shadow, tag: 0 },
                                    token: s.0,
                                },
                                s,
                            ),
                        )
                    }
                }
        }),
{
    let w = e.worlds[region.0 as u64].config@;
    let here = WorldPos::of_local(position, square, crate::fixed::Fixed(w.region_size as i32));
    let held = e.by_key[key];
    let existing = e.standing_in(held.shadows);
    let squares = seam::squares_seen(w, square, position);
    let r = lemma_view_followed(e, region, entity, position, key, square);
    let now = r.0;
    let keep = r.1;
    let stale = model::beyond(model::keys_of(existing), keep);
    let trimmed = now.released_all(stale);
    let after = e.reported(region, Report::ViewCollision { entity, position }).0;
    let had = held.shadows;
    lemma_followed(e, EntityKey(key), held.client, existing, w, here, squares);
    lemma_beyond(model::keys_of(existing), keep);
    lemma_standing_in(e, had);
    seam::law_a_square_is_seen_where_the_view_reaches_past(w, square, position, there);
    seam::law_a_shadow_stands_where_its_owner_would(w, square, position, there, spot);
    crate::map::law_a_placed_region_has_one_square(e.map, other, there);
    let i = choose|i: int| 0 <= i < squares.len() && squares[i] == there;
    seam::law_no_square_is_listed_twice(w, square, position);
    let s = lemma_shadow_for(
        e,
        EntityKey(key),
        held.client,
        existing,
        w,
        here,
        squares,
        i,
        other,
        spot,
    );
    assert(!stale.contains(s));
    lemma_unmarked(now, stale, s);
    assert(keep.contains(s));
    assert(after.by_key[s.0] == now.by_key[s.0]);
    let _ = lemma_freed(now, stale);
    if s.0 < e.next_key {
        lemma_first_in(existing, other);
        let j = choose|j: int| 0 <= j < existing.len() && existing[j] == (s, other);
        assert(had.contains(existing[j].0));
        assert(e.by_key.contains_key(existing[j].0.0));
        if !e.by_key[s.0].doomed {
            lemma_shadow_moved(
                e,
                EntityKey(key),
                held.client,
                existing,
                w,
                here,
                squares,
                i,
                s,
                other,
                spot,
            );
            assert forall|k: u64| #[trigger]
                now.by_key.contains_key(k) && k != s.0 && now.by_key[s.0].id is Some
                    && now.by_key[k].id == now.by_key[s.0].id implies now.by_key[k].region
                != now.by_key[s.0].region by {
                assert(e.by_key.contains_key(s.0));
                if !e.by_key.contains_key(k) {
                    assert(e.next_key <= k < now.next_key);
                    assert(now.by_key[k].id is None);
                }
            }
            lemma_back_spares_positions(now, stale, s.0, spot);
        }
    } else {
        assert(after.out[e.out.len() + (s.0 - e.next_key)] == now.out[e.out.len() + (s.0
            - e.next_key)]);
    }
}

/// The shadow kept for a region that is seen into: the one there was, or a new
/// one asked for where it is to stand.
proof fn lemma_shadow_for(
    e: Edge,
    owner: EntityKey,
    client: Option<ClientId>,
    existing: Seq<(EntityKey, RegionId)>,
    w: World,
    here: WorldPos,
    squares: Seq<Placement>,
    i: int,
    neighbor: RegionId,
    point: Pos3,
) -> (s: EntityKey)
    requires
        e.next_key + squares.len() <= u64::MAX,
        forall|k: u64| #[trigger] e.by_key.contains_key(k) ==> k < e.next_key,
        forall|i: int|
            0 <= i < existing.len() ==> e.by_key.contains_key((#[trigger] existing[i]).0.0)
                && e.by_key[existing[i].0.0].region == existing[i].1,
        0 <= i < squares.len(),
        crate::map::region_in(e.map, squares[i]) == Some(neighbor),
        seam::shadow_spot(w, here, squares[i]) == Some(point),
    ensures
        ({
            let now = e.all_shadowed(owner, client, existing, w, here, squares).0;
            let keep = e.all_shadowed(owner, client, existing, w, here, squares).1;
            &&& keep.contains(s)
            &&& now.by_key.contains_key(s.0)
            &&& now.by_key[s.0].region == neighbor
            &&& if s.0 < e.next_key {
                model::first_in(existing, neighbor) == Some(s)
            } else {
                &&& s.0 < now.next_key
                &&& now.by_key[s.0].kind == (EntityKind { role: Role::Shadow, tag: 0 })
                &&& now.by_key[s.0].client == client
                &&& now.by_key[s.0].handle is None
                &&& now.out[e.out.len() + (s.0 - e.next_key)] == Effect::<Seq<u8>>::Tell(
                    Outgoing::Spawn(
                        neighbor,
                        Spawn {
                            position: point,
                            kind: EntityKind { role: Role::Shadow, tag: 0 },
                            token: s.0,
                        },
                        s,
                    ),
                )
            }
        }),
    decreases squares.len(),
{
    let front = squares.drop_last();
    let square = squares.last();
    let now = e.all_shadowed(owner, client, existing, w, here, front).0;
    let keep = e.all_shadowed(owner, client, existing, w, here, front).1;
    let after = e.all_shadowed(owner, client, existing, w, here, squares).0;
    lemma_followed(e, owner, client, existing, w, here, front);
    lemma_followed(e, owner, client, existing, w, here, squares);
    if i == squares.len() - 1 {
        match model::first_in(existing, neighbor) {
            Some(s) => {
                lemma_first_in(existing, neighbor);
                lemma_kept_push(keep, s);
                let j = choose|j: int| 0 <= j < existing.len() && existing[j] == (s, neighbor);
                assert(e.by_key.contains_key(existing[j].0.0));
                assert(after.by_key.contains_key(s.0));
                assert(after.by_key[s.0].region == e.by_key[s.0].region);
                s
            },
            None => {
                let s = EntityKey(now.next_key);
                lemma_kept_push(keep, s);
                s
            },
        }
    } else {
        let s = lemma_shadow_for(
            e,
            owner,
            client,
            existing,
            w,
            here,
            front,
            i,
            neighbor,
            point,
        );
        if let Some(r) = crate::map::region_in(now.map, square) {
            if let Some(p) = seam::shadow_spot(w, here, square) {
                match model::first_in(existing, r) {
                    Some(one) => {
                        lemma_kept_push(keep, one);
                        assert(after == now.placed(one, p));
                        lemma_first_in(existing, r);
                        let j = choose|j: int| 0 <= j < existing.len() && existing[j] == (one, r);
                        assert(e.by_key.contains_key(existing[j].0.0));
                    },
                    None => {
                        lemma_kept_push(keep, EntityKey(now.next_key));
                        assert(after.by_key[s.0] == now.by_key[s.0]);
                    },
                }
            }
        }
        s
    }
}

/// Giving entities back ends no client, and marks none as leaving.
pub proof fn lemma_clients_stay(e: Edge, keys: Seq<EntityKey>)
    ensures
        forall|c: u64| #[trigger]
            e.released_all(keys).clients.contains_key(c) <==> e.clients.contains_key(c),
        forall|c: u64| #[trigger]
            e.clients.contains_key(c) ==> e.released_all(keys).clients[c].leaving
                == e.clients[c].leaving,
    decreases keys.len(),
{
    if keys.len() > 0 {
        lemma_clients_stay(e, keys.drop_last());
        let now = e.released_all(keys.drop_last());
        assert forall|c: u64| #[trigger] e.clients.contains_key(c) implies e.released_all(
            keys,
        ).clients[c].leaving == e.clients[c].leaving by {
            assert(now.clients.contains_key(c));
        }
        assert forall|c: u64| #[trigger]
            e.released_all(keys).clients.contains_key(c) <==> e.clients.contains_key(c) by {
            assert(now.clients.contains_key(c) <==> e.clients.contains_key(c));
        }
    }
}

/// An entity its region has answered for stays on its client's list when it is
/// given back.
pub proof fn lemma_listed_stays(e: Edge, keys: Seq<EntityKey>, client: ClientId, s: EntityKey)
    requires
        e.clients.contains_key(client.0),
        e.clients[client.0].keys.contains(s),
        e.by_key.contains_key(s.0),
        e.by_key[s.0].id is Some,
    ensures
        e.released_all(keys).clients.contains_key(client.0),
        e.released_all(keys).clients[client.0].keys.contains(s),
    decreases keys.len(),
{
    if keys.len() > 0 {
        let front = keys.drop_last();
        let now = e.released_all(front);
        lemma_listed_stays(e, front, client, s);
        lemma_back(e, front);
        assert(now.by_key.contains_key(s.0));
        lemma_without(now.clients[client.0].keys, keys.last());
        if keys.last() == s {
            assert(now.by_key[s.0].id is Some);
        }
    }
}

} // verus!
