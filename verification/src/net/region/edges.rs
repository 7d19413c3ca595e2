//! The edges relaying for one region, and the entities each one manages.
//!
//! An edge claims the entities whose game clients it holds the connections for.
//! [`Edges::edge_for`] answers which edge manages a given entity, which is what
//! addressing a payload needs. It is called once per served viewer per tick;
//! claiming and releasing happen when a game client arrives or leaves.
//!
//! Edges arrive by name rather than by connection. Under NATS there is nothing
//! to accept, so an edge becomes known the first time it sends a command, and
//! stops being known when it has been silent long enough.
//!
//! Times are nanoseconds since a moment of the caller's choosing.

use vstd::prelude::*;
use vstd::string::*;

use crate::entity::EntityId;
pub use crate::net::region::names::EdgeName;
use crate::text;
use crate::text::{labeled, push_decimal};

verus! {

/// No edge manages this entity. Edge ids are dense from zero, so the top of
/// the range is unreachable.
const UNOWNED: u32 = u32::MAX;

/// One edge's index within one region. Dense and reusable.
#[derive(Clone, Copy, PartialEq, Eq, PartialOrd, Ord, Hash, Debug, Structural)]
pub struct EdgeId(pub u32);

impl EdgeId {
    /// From the raw index.
    pub fn from_raw(raw: u32) -> (id: EdgeId)
        ensures
            id == EdgeId(raw),
    {
        EdgeId(raw)
    }

    /// The raw index.
    pub fn raw(self) -> (raw: u32)
        ensures
            raw == self.0,
    {
        self.0
    }

    /// The id as an array index.
    pub fn index(self) -> (i: usize)
        ensures
            i == self.0,
    {
        self.0 as usize
    }

    /// An edge in short, such as `Ed3`.
    pub fn short(&self) -> (s: String)
        ensures
            s@ == "Ed"@ + text::decimal(self.0 as nat),
    {
        labeled("Ed", self.0 as u64)
    }
}

impl Default for EdgeId {
    /// The first.
    fn default() -> (id: EdgeId)
        ensures
            id == EdgeId(0),
    {
        EdgeId(0)
    }
}

/// Why an entity could not be claimed.
#[derive(Clone, Copy, Debug, PartialEq, Eq, Structural)]
pub enum ClaimError {
    /// Another edge already manages this entity. Two edges managing one avatar
    /// would send one viewer's packets to two clients.
    AlreadyClaimed {
        /// Which entity.
        entity: EntityId,
        /// Who has it.
        by: EdgeId,
    },
    /// That edge is not attached.
    NoSuchEdge(EdgeId),
}

impl ClaimError {
    /// What the error says.
    pub open spec fn text(self) -> Seq<char> {
        match self {
            ClaimError::AlreadyClaimed { entity, by } => "E"@ + text::decimal(entity.0 as nat)
                + " is already managed by Ed"@ + text::decimal(by.0 as nat),
            ClaimError::NoSuchEdge(id) => "Ed"@ + text::decimal(id.0 as nat)
                + " is not attached"@,
        }
    }

    /// What the error says.
    pub fn to_string(&self) -> (s: String)
        ensures
            s@ == self.text(),
    {
        let mut s = String::new();
        match self {
            ClaimError::AlreadyClaimed { entity, by } => {
                s.append("E");
                push_decimal(&mut s, entity.raw() as u64);
                s.append(" is already managed by Ed");
                push_decimal(&mut s, by.raw() as u64);
            },
            ClaimError::NoSuchEdge(id) => {
                s.append("Ed");
                push_decimal(&mut s, id.raw() as u64);
                s.append(" is not attached");
            },
        }
        assert(s@ =~= self.text());
        s
    }
}

/// Running totals for one attached edge, cumulative since it was admitted.
#[derive(Clone, Copy, Debug, PartialEq, Eq, Structural)]
pub struct EdgeStats {
    /// Commands read from it.
    pub messages: u64,
    /// Payloads sent to it.
    pub payloads: u64,
    /// Bytes of those.
    pub bytes: u64,
    /// Viewers registered for its entities.
    pub observers: u64,
    /// Commands of its that were declined.
    pub refused: u64,
}

impl EdgeStats {
    /// Nothing counted yet.
    pub open spec fn zero() -> EdgeStats {
        EdgeStats { messages: 0, payloads: 0, bytes: 0, observers: 0, refused: 0 }
    }

    /// Nothing counted yet.
    pub fn new() -> (s: EdgeStats)
        ensures
            s == EdgeStats::zero(),
    {
        EdgeStats { messages: 0, payloads: 0, bytes: 0, observers: 0, refused: 0 }
    }
}

/// One edge's state, sampled together.
#[derive(Clone, Debug)]
pub struct EdgeView {
    /// Its index.
    pub id: EdgeId,
    /// Its name.
    pub name: EdgeName,
    /// How long this edge has been attached.
    pub uptime: u64,
    /// Since its last command. An edge silent past the region's expiry is
    /// dropped.
    pub silent: u64,
    /// How many entities it manages.
    pub entities: usize,
    /// How many of those are observers.
    pub observers: u64,
    /// Payloads sent to it.
    pub payloads: u64,
    /// Bytes of those.
    pub bytes: u64,
    /// Commands read from it.
    pub messages: u64,
    /// Commands of its that were declined.
    pub refused: u64,
}

#[derive(Debug)]
struct EdgeRecord {
    name: EdgeName,
    since: u64,
    heard: u64,
    entities: Vec<EntityId>,
    stats: EdgeStats,
}

/// The edges relaying for one region.
#[derive(Debug)]
pub struct Edges {
    /// Indexed by [`EdgeId`]. `None` is a free slot awaiting reuse.
    slots: Vec<Option<EdgeRecord>>,
    /// Indexed by entity slot, holding an edge id raw or [`UNOWNED`].
    owners: Vec<u32>,
    /// Entities orphaned by an edge going away, waiting for the tick loop to
    /// despawn them and drop their viewers.
    detached: Vec<EntityId>,
    live: usize,
    accepted: u64,
    /// Bumped whenever the set changes.
    generation: u64,
}

/// One attached edge.
#[verifier::ext_equal]
pub struct Attached {
    /// Its name.
    pub name: Seq<char>,
    /// When it was admitted.
    pub since: u64,
    /// When it was last heard from.
    pub heard: u64,
    /// What it manages, in the order claimed.
    pub entities: Seq<EntityId>,
    /// Its totals.
    pub stats: EdgeStats,
}

/// The edges of one region, and who manages what.
#[verifier::ext_equal]
pub struct Roster {
    /// By index. `None` is a free slot.
    pub slots: Seq<Option<Attached>>,
    /// Which edge manages an entity.
    pub owners: Map<u32, u32>,
    /// Entities whose edge has gone.
    pub detached: Seq<EntityId>,
    /// Edges ever admitted.
    pub accepted: u64,
    /// Changes to the set.
    pub generation: u64,
}

/// One more, where 64 bits wrap.
pub open spec fn up(n: u64) -> u64 {
    if n == u64::MAX {
        0
    } else {
        (n + 1) as u64
    }
}

/// How many slots are taken.
pub open spec fn taken(slots: Seq<Option<Attached>>) -> nat
    decreases slots.len(),
{
    if slots.len() == 0 {
        0
    } else {
        taken(slots.drop_last()) + if slots.last() is Some {
            1nat
        } else {
            0
        }
    }
}

/// The first slot an edge of this name is in, or past the end where it is in
/// none.
pub open spec fn slot_named(slots: Seq<Option<Attached>>, name: Seq<char>) -> nat
    decreases slots.len(),
{
    if slots.len() == 0 {
        0
    } else {
        let at = slot_named(slots.drop_last(), name);
        if at < slots.len() - 1 {
            at
        } else if slots.last() is Some && slots.last()->0.name == name {
            (slots.len() - 1) as nat
        } else {
            slots.len()
        }
    }
}

/// The first free slot, or past the end where none is.
pub open spec fn slot_free(slots: Seq<Option<Attached>>) -> nat
    decreases slots.len(),
{
    if slots.len() == 0 {
        0
    } else {
        let at = slot_free(slots.drop_last());
        if at < slots.len() - 1 {
            at
        } else if slots.last() is None {
            (slots.len() - 1) as nat
        } else {
            slots.len()
        }
    }
}

/// A list without one entity.
pub open spec fn without(entities: Seq<EntityId>, entity: EntityId) -> Seq<EntityId>
    decreases entities.len(),
{
    if entities.len() == 0 {
        Seq::empty()
    } else if entities.last() == entity {
        without(entities.drop_last(), entity)
    } else {
        without(entities.drop_last(), entity).push(entities.last())
    }
}

impl Attached {
    /// An edge heard from for the first time.
    pub open spec fn fresh(name: Seq<char>, now: u64) -> Attached {
        Attached {
            name,
            since: now,
            heard: now,
            entities: Seq::empty(),
            stats: EdgeStats::zero(),
        }
    }
}

impl Roster {
    /// Whether an edge is attached.
    pub open spec fn attached(self, id: EdgeId) -> bool {
        id.0 < self.slots.len() && self.slots[id.0 as int] is Some
    }

    /// Whether one edge has an entity on its list.
    pub open spec fn lists(self, i: int, e: EntityId) -> bool {
        &&& 0 <= i < self.slots.len()
        &&& self.slots[i] is Some
        &&& self.slots[i]->0.entities.contains(e)
    }

    /// Whether every edge's list says the same as the index of owners, and no
    /// entity is on a list twice. An entity is then managed by one edge at
    /// most.
    pub open spec fn consistent(self) -> bool {
        &&& forall|i: int, e: EntityId| #[trigger]
            self.lists(i, e) ==> self.owners.contains_key(e.0) && self.owners[e.0] == i
        &&& forall|e: u32| #[trigger]
            self.owners.contains_key(e) ==> self.lists(self.owners[e] as int, EntityId(e))
        &&& forall|i: int|
            0 <= i < self.slots.len() && (#[trigger] self.slots[i]) is Some
                ==> self.slots[i]->0.entities.no_duplicates()
    }

    /// With one slot replaced.
    pub open spec fn keeping(self, i: int, a: Option<Attached>) -> Roster {
        Roster { slots: self.slots.update(i, a), ..self }
    }

    /// Where an edge of this name is, or will be.
    pub open spec fn seat(self, name: Seq<char>) -> nat {
        if slot_named(self.slots, name) < self.slots.len() {
            slot_named(self.slots, name)
        } else {
            slot_free(self.slots)
        }
    }

    /// An edge heard from: the one of that name, or a new one in the first
    /// free slot.
    pub open spec fn admitted(self, name: Seq<char>, now: u64) -> Roster {
        let at = self.seat(name) as int;
        if slot_named(self.slots, name) < self.slots.len() {
            self.keeping(at, Some(Attached { heard: now, ..self.slots[at]->0 }))
        } else {
            Roster {
                slots: if at < self.slots.len() {
                    self.slots.update(at, Some(Attached::fresh(name, now)))
                } else {
                    self.slots.push(Some(Attached::fresh(name, now)))
                },
                accepted: up(self.accepted),
                generation: up(self.generation),
                ..self
            }
        }
    }

    /// An edge gone: its slot freed, and what it managed orphaned.
    pub open spec fn gone(self, id: EdgeId) -> Roster {
        if !self.attached(id) {
            self
        } else {
            let a = self.slots[id.0 as int]->0;
            Roster {
                slots: self.slots.update(id.0 as int, None),
                owners: self.owners.remove_keys(
                    Set::new(|e: u32| a.entities.contains(EntityId(e))),
                ),
                detached: self.detached + a.entities,
                generation: up(self.generation),
                ..self
            }
        }
    }

    /// Whether an edge has been silent for longer than `after`.
    pub open spec fn stale(self, i: int, after: u64, now: u64) -> bool {
        &&& self.slots[i] is Some
        &&& now - self.slots[i]->0.heard > after
    }

    /// Every stale edge among the first `n` slots gone.
    pub open spec fn expired(self, n: nat, after: u64, now: u64) -> Roster
        decreases n,
    {
        if n == 0 {
            self
        } else {
            let r = self.expired((n - 1) as nat, after, now);
            if self.stale(n - 1, after, now) {
                r.gone(EdgeId((n - 1) as u32))
            } else {
                r
            }
        }
    }

    /// How many of the first `n` slots hold a stale edge.
    pub open spec fn stale_among(self, n: nat, after: u64, now: u64) -> nat
        decreases n,
    {
        if n == 0 {
            0
        } else {
            self.stale_among((n - 1) as nat, after, now) + if self.stale(n - 1, after, now) {
                1nat
            } else {
                0
            }
        }
    }

    /// Why a claim is refused, if it is.
    pub open spec fn claim_fault(self, edge: EdgeId, entity: EntityId) -> Option<ClaimError> {
        if !self.attached(edge) {
            Some(ClaimError::NoSuchEdge(edge))
        } else if self.owners.contains_key(entity.0) && self.owners[entity.0] != edge.0 {
            Some(ClaimError::AlreadyClaimed { entity, by: EdgeId(self.owners[entity.0]) })
        } else {
            None
        }
    }

    /// An entity claimed. Repeating a claim the same edge already holds
    /// changes nothing.
    pub open spec fn claimed(self, edge: EdgeId, entity: EntityId) -> Roster {
        if self.claim_fault(edge, entity) is Some || self.owners.contains_key(entity.0) {
            self
        } else {
            let a = self.slots[edge.0 as int]->0;
            Roster {
                owners: self.owners.insert(entity.0, edge.0),
                ..self.keeping(
                    edge.0 as int,
                    Some(Attached { entities: a.entities.push(entity), ..a }),
                )
            }
        }
    }

    /// Which edge manages an entity.
    pub open spec fn owner(self, entity: EntityId) -> Option<EdgeId> {
        if self.owners.contains_key(entity.0) {
            Some(EdgeId(self.owners[entity.0]))
        } else {
            None
        }
    }

    /// An entity given up, whichever edge held it.
    pub open spec fn released(self, entity: EntityId) -> Roster {
        match self.owner(entity) {
            None => self,
            Some(edge) => {
                let now = Roster { owners: self.owners.remove(entity.0), ..self };
                if self.attached(edge) {
                    let a = self.slots[edge.0 as int]->0;
                    now.keeping(
                        edge.0 as int,
                        Some(Attached { entities: without(a.entities, entity), ..a }),
                    )
                } else {
                    now
                }
            },
        }
    }

    /// One edge's totals replaced.
    pub open spec fn counting(self, id: EdgeId, stats: EdgeStats) -> Roster {
        if self.attached(id) {
            self.keeping(id.0 as int, Some(Attached { stats, ..self.slots[id.0 as int]->0 }))
        } else {
            self
        }
    }
}

impl View for EdgeRecord {
    type V = Attached;

    closed spec fn view(&self) -> Attached {
        Attached {
            name: self.name@,
            since: self.since,
            heard: self.heard,
            entities: self.entities@,
            stats: self.stats,
        }
    }
}

/// A slot, as what is in it.
spec fn slot_view(slot: Option<EdgeRecord>) -> Option<Attached> {
    match slot {
        Some(r) => Some(r@),
        None => None,
    }
}

/// The owners, as a map of those there are.
spec fn owners_view(owners: Seq<u32>) -> Map<u32, u32> {
    Map::new(
        |e: u32| e < owners.len() && owners[e as int] != UNOWNED,
        |e: u32| owners[e as int],
    )
}

impl Edges {
    /// The edges, and who manages what.
    pub closed spec fn roster(&self) -> Roster {
        Roster {
            slots: self.slots@.map_values(|s: Option<EdgeRecord>| slot_view(s)),
            owners: owners_view(self.owners@),
            detached: self.detached@,
            accepted: self.accepted,
            generation: self.generation,
        }
    }
}

/// A list without one entity.
fn strip(entities: &Vec<EntityId>, entity: EntityId) -> (out: Vec<EntityId>)
    ensures
        out@ == without(entities@, entity),
{
    let mut out: Vec<EntityId> = Vec::new();
    let mut i: usize = 0;
    assert(entities@.take(0) =~= Seq::empty());
    while i < entities.len()
        invariant
            i <= entities@.len(),
            out@ == without(entities@.take(i as int), entity),
        decreases entities@.len() - i,
    {
        assert(entities@.take(i + 1).drop_last() =~= entities@.take(i as int));
        if entities[i].0 != entity.0 {
            out.push(entities[i]);
        }
        i = i + 1;
    }
    assert(entities@.take(i as int) =~= entities@);
    out
}

/// What a list without one entity holds.
proof fn lemma_without(entities: Seq<EntityId>, entity: EntityId)
    ensures
        forall|e: EntityId| #[trigger]
            without(entities, entity).contains(e) <==> entities.contains(e) && e != entity,
        entities.no_duplicates() ==> without(entities, entity).no_duplicates(),
    decreases entities.len(),
{
    if entities.len() > 0 {
        let front = entities.drop_last();
        let last = entities.last();
        lemma_without(front, entity);
        assert(entities =~= front.push(last));
        assert forall|e: EntityId| entities.contains(e) <==> front.contains(e) || e == last by {
            if entities.contains(e) {
                let i = choose|i: int| 0 <= i < entities.len() && entities[i] == e;
                if i < front.len() {
                    assert(front[i] == e);
                }
            }
            if front.contains(e) {
                let i = choose|i: int| 0 <= i < front.len() && front[i] == e;
                assert(entities[i] == e);
            }
            if e == last {
                assert(entities[entities.len() - 1] == e);
            }
        }
        let w = without(front, entity);
        let all = without(entities, entity);
        assert forall|e: EntityId| #[trigger] all.contains(e) <==> entities.contains(e) && e
            != entity by {
            assert(entities.contains(e) <==> front.contains(e) || e == last);
            assert(w.contains(e) <==> front.contains(e) && e != entity);
            if last != entity {
                if w.contains(e) {
                    let i = choose|i: int| 0 <= i < w.len() && w[i] == e;
                    assert(all[i] == e);
                }
                assert(all[w.len() as int] == last);
            }
        }
        if entities.no_duplicates() {
            assert(front.no_duplicates()) by {
                assert forall|i: int, j: int|
                    0 <= i < front.len() && 0 <= j < front.len() && i != j implies front[i]
                    != front[j] by {
                    assert(entities[i] == front[i] && entities[j] == front[j]);
                }
            }
            assert(!front.contains(last)) by {
                if front.contains(last) {
                    let i = choose|i: int| 0 <= i < front.len() && front[i] == last;
                    assert(entities[i] == entities[entities.len() - 1]);
                }
            }
            assert(w.contains(last) <==> front.contains(last) && last != entity);
            assert(all.no_duplicates());
        }
    }
}

/// What the search for a name finds.
pub proof fn lemma_slot_named(slots: Seq<Option<Attached>>, name: Seq<char>)
    ensures
        slot_named(slots, name) <= slots.len(),
        slot_named(slots, name) < slots.len() ==> {
            let at = slot_named(slots, name) as int;
            slots[at] is Some && slots[at]->0.name == name
        },
    decreases slots.len(),
{
    if slots.len() > 0 {
        lemma_slot_named(slots.drop_last(), name);
    }
}

/// What the search for a free slot finds.
proof fn lemma_slot_free(slots: Seq<Option<Attached>>)
    ensures
        slot_free(slots) <= slots.len(),
        slot_free(slots) < slots.len() ==> slots[slot_free(slots) as int] is None,
    decreases slots.len(),
{
    if slots.len() > 0 {
        lemma_slot_free(slots.drop_last());
    }
}

/// How the count of taken slots follows a change to one.
proof fn lemma_taken(slots: Seq<Option<Attached>>, at: int, a: Option<Attached>)
    requires
        0 <= at < slots.len(),
    ensures
        taken(slots.update(at, a)) + (if slots[at] is Some {
            1nat
        } else {
            0
        }) == taken(slots) + (if a is Some {
            1nat
        } else {
            0
        }),
        taken(slots) <= slots.len(),
    decreases slots.len(),
{
    lemma_taken_bound(slots);
    let front = slots.drop_last();
    if at < slots.len() - 1 {
        lemma_taken(front, at, a);
        assert(slots.update(at, a).drop_last() =~= front.update(at, a));
        assert(slots.update(at, a).last() == slots.last());
    } else {
        assert(slots.update(at, a).drop_last() =~= front);
    }
}

/// No more slots are taken than there are.
proof fn lemma_taken_bound(slots: Seq<Option<Attached>>)
    ensures
        taken(slots) <= slots.len(),
    decreases slots.len(),
{
    if slots.len() > 0 {
        lemma_taken_bound(slots.drop_last());
    }
}

impl Edges {
    /// Whether the count of live edges is right, every edge's list agrees with
    /// the index of owners, and the ids stay below the one that means nobody.
    pub closed spec fn wf(&self) -> bool {
        &&& self.live == taken(self.roster().slots)
        &&& self.roster().consistent()
        &&& self.slots@.len() <= UNOWNED
    }

    /// What a well-formed set promises of itself.
    pub proof fn law_the_lists_and_the_index_agree(&self)
        requires
            self.wf(),
        ensures
            self.roster().consistent(),
    {
    }

    /// No edges yet.
    pub fn new() -> (e: Edges)
        ensures
            e.wf(),
            e.roster() == (Roster {
                slots: Seq::empty(),
                owners: Map::empty(),
                detached: Seq::empty(),
                accepted: 0,
                generation: 0,
            }),
    {
        let e = Edges {
            slots: Vec::new(),
            owners: Vec::new(),
            detached: Vec::new(),
            live: 0,
            accepted: 0,
            generation: 0,
        };
        assert(e.roster().slots =~= Seq::<Option<Attached>>::empty());
        assert(e.roster().owners =~= Map::<u32, u32>::empty());
        e
    }

    // -- the set ----------------------------------------------------------

    /// Changes to the set, counted. A caller holding anything derived from
    /// membership rebuilds when this moves.
    pub fn generation(&self) -> (n: u64)
        ensures
            n == self.roster().generation,
    {
        self.generation
    }

    /// Places there are for edges, taken or free.
    pub fn seats(&self) -> (n: usize)
        requires
            self.wf(),
        ensures
            n == self.roster().slots.len(),
            n <= u32::MAX,
    {
        self.slots.len()
    }

    /// Edges attached right now.
    pub fn len(&self) -> (n: usize)
        requires
            self.wf(),
        ensures
            n == taken(self.roster().slots),
    {
        self.live
    }

    /// Whether none is.
    pub fn is_empty(&self) -> (b: bool)
        requires
            self.wf(),
        ensures
            b == (taken(self.roster().slots) == 0),
    {
        self.live == 0
    }

    /// Edges admitted since this region started, including those since gone.
    pub fn accepted(&self) -> (n: u64)
        ensures
            n == self.roster().accepted,
    {
        self.accepted
    }

    /// Where an edge of this name is, or past the end.
    fn find(&self, name: &EdgeName) -> (at: usize)
        ensures
            at == slot_named(self.roster().slots, name@),
    {
        let mut at: usize = 0;
        let mut i: usize = 0;
        let ghost slots = self.roster().slots;
        assert(slots.take(0) =~= Seq::empty());
        while i < self.slots.len()
            invariant
                i <= self.slots@.len(),
                slots == self.roster().slots,
                at == slot_named(slots.take(i as int), name@),
            decreases self.slots@.len() - i,
        {
            proof {
                assert(slots.take(i + 1).drop_last() =~= slots.take(i as int));
                lemma_slot_named(slots.take(i as int), name@);
            }
            if at == i {
                at = match &self.slots[i] {
                    Some(rec) => if rec.name.is(name) {
                        i
                    } else {
                        i + 1
                    },
                    None => i + 1,
                };
            }
            i = i + 1;
        }
        assert(slots.take(i as int) =~= slots);
        at
    }

    /// The first free slot, or past the end.
    fn free(&self) -> (at: usize)
        ensures
            at == slot_free(self.roster().slots),
    {
        let mut at: usize = 0;
        let mut i: usize = 0;
        let ghost slots = self.roster().slots;
        assert(slots.take(0) =~= Seq::empty());
        while i < self.slots.len()
            invariant
                i <= self.slots@.len(),
                slots == self.roster().slots,
                at == slot_free(slots.take(i as int)),
            decreases self.slots@.len() - i,
        {
            proof {
                assert(slots.take(i + 1).drop_last() =~= slots.take(i as int));
                lemma_slot_free(slots.take(i as int));
            }
            if at == i && self.slots[i].is_some() {
                at = i + 1;
            }
            i = i + 1;
        }
        assert(slots.take(i as int) =~= slots);
        at
    }

    /// Replaces what is in one slot, and gives back what was.
    fn swap(&mut self, i: usize, rec: Option<EdgeRecord>) -> (was: Option<EdgeRecord>)
        requires
            i < old(self).roster().slots.len(),
        ensures
            slot_view(was) == old(self).roster().slots[i as int],
            final(self).roster() == old(self).roster().keeping(i as int, slot_view(rec)),
            final(self).live == old(self).live,
            final(self).owners == old(self).owners,
            final(self).slots@.len() == old(self).slots@.len(),
    {
        let mut other = rec;
        std::mem::swap(&mut self.slots[i], &mut other);
        assert(self.roster().slots =~= old(self).roster().slots.update(i as int, slot_view(rec)));
        other
    }

    /// The id this region uses for an edge, admitting it if it is new.
    ///
    /// Called when a command arrives, which is the only way a region learns an
    /// edge exists.
    pub fn admit_edge(&mut self, name: &EdgeName, now: u64) -> (id: EdgeId)
        requires
            old(self).wf(),
            old(self).roster().slots.len() < u32::MAX,
        ensures
            final(self).wf(),
            id.0 == old(self).roster().seat(name@),
            final(self).roster() == old(self).roster().admitted(name@, now),
    {
        let ghost was = self.roster();
        proof {
            lemma_slot_named(was.slots, name@);
            lemma_slot_free(was.slots);
        }
        let at: usize = self.find(name);
        if at < self.slots.len() {
            if let Some(rec) = self.swap(at, None) {
                let ghost held = rec@;
                let mut rec = rec;
                rec.heard = now;
                let _ = self.swap(at, Some(rec));
                proof {
                    assert(self.roster() =~= was.admitted(name@, now));
                    lemma_taken(was.slots, at as int, self.roster().slots[at as int]);
                    lemma_same_lists(was, self.roster());
                }
            }
            return EdgeId::from_raw(at as u32);
        }
        let at: usize = self.free();
        let fresh = EdgeRecord {
            name: name.clone(),
            since: now,
            heard: now,
            entities: Vec::new(),
            stats: EdgeStats::new(),
        };
        assert(fresh@ =~= Attached::fresh(name@, now));
        if at < self.slots.len() {
            let _ = self.swap(at, Some(fresh));
            proof {
                lemma_taken(was.slots, at as int, Some(Attached::fresh(name@, now)));
            }
        } else {
            self.slots.push(Some(fresh));
            proof {
                assert(self.roster().slots =~= was.slots.push(Some(Attached::fresh(name@, now))));
                assert(self.roster().slots.drop_last() =~= was.slots);
                lemma_taken_bound(was.slots);
            }
        }
        proof {
            lemma_taken_bound(self.roster().slots);
        }
        self.live = self.live + 1;
        self.accepted = self.accepted.wrapping_add(1);
        self.generation = self.generation.wrapping_add(1);
        proof {
            assert(self.roster() =~= was.admitted(name@, now));
            lemma_fresh_list(was, self.roster(), at as int);
        }
        EdgeId::from_raw(at as u32)
    }

    /// Drops every edge silent for longer than `after`, orphaning what it
    /// managed.
    ///
    /// A closed socket used to say an edge had gone. Nothing says so now, so
    /// silence does. An edge holding entities sends a keepalive when it has
    /// nothing else to say, and one under load sends moves every tick.
    ///
    /// Returns how many were dropped.
    pub fn expire(&mut self, after: u64, now: u64) -> (n: usize)
        requires
            old(self).wf(),
        ensures
            final(self).wf(),
            n == old(self).roster().stale_among(old(self).roster().slots.len(), after, now),
            final(self).roster() == old(self).roster().expired(old(self).roster().slots.len(), after, now),
    {
        let mut n: usize = 0;
        let mut i: usize = 0;
        while i < self.slots.len()
            invariant
                self.wf(),
                i <= self.slots@.len(),
                self.slots@.len() == old(self).roster().slots.len(),
                n <= i,
                n == old(self).roster().stale_among(i as nat, after, now),
                self.roster() == old(self).roster().expired(i as nat, after, now),
                forall|j: int|
                    i <= j < self.roster().slots.len() ==> self.roster().slots[j] == old(self).roster().slots[j],
            decreases self.slots@.len() - i,
        {
            assert(self.roster().slots[i as int] == old(self).roster().slots[i as int]);
            let stale: bool = match &self.slots[i] {
                Some(rec) => now > rec.heard && now - rec.heard > after,
                None => false,
            };
            if stale {
                self.detach(EdgeId::from_raw(i as u32));
                n = n + 1;
            }
            i = i + 1;
        }
        n
    }

    /// What an edge is called.
    pub fn name(&self, id: EdgeId) -> (name: Option<EdgeName>)
        ensures
            match name {
                Some(n) => self.roster().attached(id) && n@ == self.roster().slots[id.0 as int]->0.name,
                None => !self.roster().attached(id),
            },
    {
        if id.index() >= self.slots.len() {
            return None;
        }
        match &self.slots[id.index()] {
            Some(rec) => Some(rec.name.clone()),
            None => None,
        }
    }

    /// One edge's totals.
    pub fn stats(&self, id: EdgeId) -> (stats: Option<EdgeStats>)
        ensures
            stats == if self.roster().attached(id) {
                Some(self.roster().slots[id.0 as int]->0.stats)
            } else {
                None
            },
    {
        if id.index() >= self.slots.len() {
            return None;
        }
        match &self.slots[id.index()] {
            Some(rec) => Some(rec.stats),
            None => None,
        }
    }

    /// Replaces one edge's totals, if it is attached.
    pub fn set_stats(&mut self, id: EdgeId, stats: EdgeStats)
        requires
            old(self).wf(),
        ensures
            final(self).wf(),
            final(self).roster() == old(self).roster().counting(id, stats),
    {
        if id.index() >= self.slots.len() {
            return;
        }
        let ghost was = self.roster();
        let i: usize = id.index();
        match self.swap(i, None) {
            Some(rec) => {
                let mut rec = rec;
                rec.stats = stats;
                let _ = self.swap(i, Some(rec));
                assert(self.roster() =~= was.counting(id, stats));
            },
            None => {
                assert(self.roster() =~= was);
            },
        }
        proof {
            lemma_taken(was.slots, i as int, self.roster().slots[i as int]);
            lemma_same_lists(was, self.roster());
        }
    }

    /// Every attached edge with its counters, sampled at one moment.
    pub fn view(&self, now: u64) -> (out: Vec<EdgeView>)
        ensures
            views_of(self.roster(), now, out@),
    {
        let mut out: Vec<EdgeView> = Vec::new();
        let mut i: usize = 0;
        let ghost slots = self.roster().slots;
        assert(slots.take(0) =~= Seq::empty());
        while i < self.slots.len()
            invariant
                i <= self.slots@.len(),
                slots == self.roster().slots,
                views_of(Roster { slots: slots.take(i as int), ..self.roster() }, now, out@),
            decreases self.slots@.len() - i,
        {
            let ghost before = out@;
            if let Some(rec) = &self.slots[i] {
                out.push(
                    EdgeView {
                        id: EdgeId::from_raw(i as u32),
                        name: rec.name.clone(),
                        uptime: now.saturating_sub(rec.since),
                        silent: now.saturating_sub(rec.heard),
                        entities: rec.entities.len(),
                        observers: rec.stats.observers,
                        payloads: rec.stats.payloads,
                        bytes: rec.stats.bytes,
                        messages: rec.stats.messages,
                        refused: rec.stats.refused,
                    },
                );
            }
            proof {
                assert(slots.take(i + 1).drop_last() =~= slots.take(i as int));
                if slots[i as int] is Some {
                    assert(out@.drop_last() =~= before);
                }
            }
            i = i + 1;
        }
        assert(slots.take(i as int) =~= slots);
        out
    }

    // -- who manages what -------------------------------------------------

    /// Records that `edge` manages `entity`. Repeating a claim the same edge
    /// already holds changes nothing.
    pub fn claim(&mut self, edge: EdgeId, entity: EntityId) -> (r: Result<(), ClaimError>)
        requires
            old(self).wf(),
            entity.0 < usize::MAX,
        ensures
            final(self).wf(),
            final(self).roster() == old(self).roster().claimed(edge, entity),
            match r {
                Ok(_) => old(self).roster().claim_fault(edge, entity) is None,
                Err(e) => old(self).roster().claim_fault(edge, entity) == Some(e),
            },
    {
        let ghost was = self.roster();
        if edge.index() >= self.slots.len() || self.slots[edge.index()].is_none() {
            return Err(ClaimError::NoSuchEdge(edge));
        }
        while self.owners.len() <= entity.index()
            invariant
                self.roster() == was,
                self.wf(),
                entity.0 < usize::MAX,
                self.slots == old(self).slots,
            decreases entity.0 + 1 - self.owners@.len(),
        {
            let ghost then = self.owners@;
            self.owners.push(UNOWNED);
            assert(owners_view(self.owners@) =~= owners_view(then));
            assert(self.roster() =~= was);
        }
        let held_by: u32 = self.owners[entity.index()];
        if held_by == edge.raw() {
            return Ok(());
        }
        if held_by != UNOWNED {
            return Err(ClaimError::AlreadyClaimed { entity, by: EdgeId::from_raw(held_by) });
        }
        let ghost then = self.owners@;
        self.owners.set(entity.index(), edge.raw());
        assert(owners_view(self.owners@) =~= owners_view(then).insert(entity.0, edge.0));
        let i: usize = edge.index();
        if let Some(rec) = self.swap(i, None) {
            let mut rec = rec;
            rec.entities.push(entity);
            let _ = self.swap(i, Some(rec));
        }
        proof {
            assert(self.roster() =~= was.claimed(edge, entity));
            lemma_taken(was.slots, i as int, self.roster().slots[i as int]);
            lemma_claim(was, edge, entity);
        }
        Ok(())
    }

    /// Gives up an entity, whichever edge held it. Returns the edge that had
    /// it, or `None` if nobody did.
    pub fn release(&mut self, entity: EntityId) -> (edge: Option<EdgeId>)
        requires
            old(self).wf(),
        ensures
            final(self).wf(),
            edge == old(self).roster().owner(entity),
            final(self).roster() == old(self).roster().released(entity),
    {
        let ghost was = self.roster();
        if entity.index() >= self.owners.len() {
            return None;
        }
        let held_by: u32 = self.owners[entity.index()];
        if held_by == UNOWNED {
            return None;
        }
        let edge = EdgeId::from_raw(held_by);
        proof {
            assert(was.lists(held_by as int, entity));
        }
        let ghost then = self.owners@;
        self.owners.set(entity.index(), UNOWNED);
        assert(owners_view(self.owners@) =~= owners_view(then).remove(entity.0));
        let i: usize = edge.index();
        if let Some(rec) = self.swap(i, None) {
            let mut rec = rec;
            rec.entities = strip(&rec.entities, entity);
            let _ = self.swap(i, Some(rec));
        }
        proof {
            assert(self.roster() =~= was.released(entity));
            lemma_taken(was.slots, i as int, self.roster().slots[i as int]);
            lemma_release(was, entity);
        }
        Some(edge)
    }

    /// Which edge manages this entity, if any. A payload built for a viewer is
    /// addressed to the edge holding that viewer's client connection, and this
    /// is that lookup.
    pub fn edge_for(&self, entity: EntityId) -> (edge: Option<EdgeId>)
        ensures
            edge == self.roster().owner(entity),
    {
        if entity.index() >= self.owners.len() {
            return None;
        }
        let held_by: u32 = self.owners[entity.index()];
        if held_by == UNOWNED {
            None
        } else {
            Some(EdgeId::from_raw(held_by))
        }
    }

    /// How many entities one edge manages.
    pub fn entity_count(&self, edge: EdgeId) -> (n: usize)
        ensures
            n == if self.roster().attached(edge) {
                self.roster().slots[edge.0 as int]->0.entities.len()
            } else {
                0
            },
    {
        if edge.index() >= self.slots.len() {
            return 0;
        }
        match &self.slots[edge.index()] {
            Some(rec) => rec.entities.len(),
            None => 0,
        }
    }

    /// How many entities were left by edges that have gone, and not yet taken.
    pub fn waiting(&self) -> (n: usize)
        ensures
            n == self.roster().detached.len(),
    {
        self.detached.len()
    }

    /// Entities orphaned by an edge going away, taken once. The tick loop
    /// despawns them: an entity whose edge has gone has no client behind it.
    pub fn take_detached(&mut self) -> (out: Vec<EntityId>)
        requires
            old(self).wf(),
        ensures
            final(self).wf(),
            out@ == old(self).roster().detached,
            final(self).roster() == (Roster { detached: Seq::empty(), ..old(self).roster() }),
    {
        let mut out: Vec<EntityId> = Vec::new();
        std::mem::swap(&mut out, &mut self.detached);
        proof {
            assert(self.roster() =~= (Roster { detached: Seq::empty(), ..old(self).roster() }));
            lemma_same_lists(old(self).roster(), self.roster());
        }
        out
    }

    /// Drops one edge, orphaning what it managed.
    fn detach(&mut self, id: EdgeId)
        requires
            old(self).wf(),
        ensures
            final(self).wf(),
            final(self).roster() == old(self).roster().gone(id),
            final(self).slots@.len() == old(self).slots@.len(),
    {
        if id.index() >= self.slots.len() {
            return;
        }
        let ghost was = self.roster();
        let at: usize = id.index();
        let rec = match self.swap(at, None) {
            None => {
                assert(self.roster() =~= was);
                return;
            },
            Some(rec) => rec,
        };
        let ghost held = rec@;
        let ghost before = self.owners@;
        let mut i: usize = 0;
        while i < rec.entities.len()
            invariant
                i <= rec.entities@.len(),
                self.owners@.len() == before.len(),
                self.roster().slots == was.slots.update(at as int, None),
                self.roster().detached == was.detached,
                self.roster().accepted == was.accepted,
                self.roster().generation == was.generation,
                self.live == old(self).live,
                self.slots@.len() == old(self).slots@.len(),
                owners_view(before) == was.owners,
                was.consistent(),
                at == id.0,
                at < was.slots.len(),
                was.slots[at as int] == Some(held),
                held.entities == rec.entities@,
                forall|e: u32|
                    e < before.len() ==> #[trigger] self.owners@[e as int]
                        == if rec.entities@.take(i as int).contains(EntityId(e)) {
                        UNOWNED
                    } else {
                        before[e as int]
                    },
            decreases rec.entities@.len() - i,
        {
            let entity = rec.entities[i];
            proof {
                assert(was.lists(at as int, entity));
                assert(was.owners[entity.0] == at);
                let (a, b) = (rec.entities@.take(i as int), rec.entities@.take(i + 1));
                assert(b =~= a.push(entity));
                assert forall|e: EntityId| b.contains(e) <==> a.contains(e) || e == entity by {
                    if a.contains(e) {
                        let j = choose|j: int| 0 <= j < a.len() && a[j] == e;
                        assert(b[j] == e);
                    }
                    assert(b[i as int] == entity);
                }
            }
            if entity.index() < self.owners.len() {
                self.owners.set(entity.index(), UNOWNED);
            }
            i = i + 1;
        }
        assert(rec.entities@.take(i as int) =~= rec.entities@);
        self.detached.extend_from_slice(rec.entities.as_slice());
        proof {
            lemma_taken(was.slots, at as int, None);
        }
        self.live = self.live - 1;
        self.generation = self.generation.wrapping_add(1);
        proof {
            assert(self.roster().owners =~= was.gone(id).owners);
            assert(self.roster().detached =~= was.gone(id).detached);
            assert(self.roster() =~= was.gone(id));
            lemma_gone(was, id);
        }
    }
}

/// Whether a list of views is what a set's slots say, in order.
pub open spec fn views_of(r: Roster, now: u64, views: Seq<EdgeView>) -> bool
    decreases r.slots.len(),
{
    if r.slots.len() == 0 {
        views.len() == 0
    } else {
        let front = Roster { slots: r.slots.drop_last(), ..r };
        match r.slots.last() {
            None => views_of(front, now, views),
            Some(a) => {
                &&& views.len() > 0
                &&& views_of(front, now, views.drop_last())
                &&& {
                    let v = views.last();
                    &&& v.id == EdgeId((r.slots.len() - 1) as u32)
                    &&& v.name@ == a.name
                    &&& v.uptime == since(a.since, now)
                    &&& v.silent == since(a.heard, now)
                    &&& v.entities == a.entities.len()
                    &&& v.observers == a.stats.observers
                    &&& v.payloads == a.stats.payloads
                    &&& v.bytes == a.stats.bytes
                    &&& v.messages == a.stats.messages
                    &&& v.refused == a.stats.refused
                }
            },
        }
    }
}

/// How long ago a moment was.
pub open spec fn since(then: u64, now: u64) -> int {
    if now > then {
        now - then
    } else {
        0
    }
}

/// A set whose lists and owners are another's is consistent as it is.
proof fn lemma_same_lists(a: Roster, b: Roster)
    requires
        a.consistent(),
        a.owners == b.owners,
        a.slots.len() == b.slots.len(),
        forall|i: int|
            0 <= i < a.slots.len() ==> ((#[trigger] a.slots[i]) is Some) == (b.slots[i] is Some),
        forall|i: int|
            0 <= i < a.slots.len() && (#[trigger] a.slots[i]) is Some ==> a.slots[i]->0.entities
                == b.slots[i]->0.entities,
    ensures
        b.consistent(),
{
    assert forall|i: int, e: EntityId| #[trigger] b.lists(i, e) implies b.owners.contains_key(e.0)
        && b.owners[e.0] == i by {
        assert(a.slots[i] is Some);
        assert(a.lists(i, e));
    }
    assert forall|e: u32| #[trigger] b.owners.contains_key(e) implies b.lists(
        b.owners[e] as int,
        EntityId(e),
    ) by {
        assert(a.owners.contains_key(e));
        assert(a.lists(a.owners[e] as int, EntityId(e)));
        assert(a.slots[a.owners[e] as int] is Some);
    }
    assert forall|i: int|
        0 <= i < b.slots.len() && (#[trigger] b.slots[i]) is Some implies b.slots[i]->0.entities
        .no_duplicates() by {
        assert(a.slots[i] is Some);
    }
}

/// A set with one more edge, which manages nothing, is consistent as it was.
proof fn lemma_fresh_list(a: Roster, b: Roster, at: int)
    requires
        a.consistent(),
        a.owners == b.owners,
        0 <= at < b.slots.len(),
        at < a.slots.len() ==> a.slots[at] is None && a.slots.len() == b.slots.len(),
        at >= a.slots.len() ==> b.slots.len() == a.slots.len() + 1 && at == a.slots.len(),
        forall|i: int| 0 <= i < a.slots.len() && i != at ==> #[trigger] b.slots[i] == a.slots[i],
        b.slots[at] is Some,
        b.slots[at]->0.entities.len() == 0,
    ensures
        b.consistent(),
{
    assert forall|i: int, e: EntityId| #[trigger] b.lists(i, e) implies b.owners.contains_key(e.0)
        && b.owners[e.0] == i by {
        assert(i != at);
        assert(b.slots[i] == a.slots[i]);
        assert(a.lists(i, e));
    }
    assert forall|e: u32| #[trigger] b.owners.contains_key(e) implies b.lists(
        b.owners[e] as int,
        EntityId(e),
    ) by {
        assert(a.owners.contains_key(e));
        let i = a.owners[e] as int;
        assert(a.lists(i, EntityId(e)));
        assert(b.slots[i] == a.slots[i]);
    }
    assert forall|i: int|
        0 <= i < b.slots.len() && (#[trigger] b.slots[i]) is Some implies b.slots[i]->0.entities
        .no_duplicates() by {
        if i != at {
            assert(b.slots[i] == a.slots[i]);
        }
    }
}

/// A claim keeps a set consistent.
proof fn lemma_claim(r: Roster, edge: EdgeId, entity: EntityId)
    requires
        r.consistent(),
    ensures
        r.claimed(edge, entity).consistent(),
{
    let n = r.claimed(edge, entity);
    if r.claim_fault(edge, entity) is None && !r.owners.contains_key(entity.0) {
        let at = edge.0 as int;
        let list = r.slots[at]->0.entities;
        assert forall|e: EntityId| #[trigger] list.push(entity).contains(e) <==> list.contains(e)
            || e == entity by {
            if list.contains(e) {
                let j = choose|j: int| 0 <= j < list.len() && list[j] == e;
                assert(list.push(entity)[j] == e);
            }
            assert(list.push(entity)[list.len() as int] == entity);
        }
        assert forall|i: int, e: EntityId| #[trigger] n.lists(i, e) implies n.owners.contains_key(
            e.0,
        ) && n.owners[e.0] == i by {
            if !(i == at && e == entity) {
                assert(r.lists(i, e));
            }
        }
        assert forall|e: u32| #[trigger] n.owners.contains_key(e) implies n.lists(
            n.owners[e] as int,
            EntityId(e),
        ) by {
            if e != entity.0 {
                assert(r.owners.contains_key(e));
                assert(r.lists(r.owners[e] as int, EntityId(e)));
            }
        }
        assert(!list.contains(entity)) by {
            if list.contains(entity) {
                assert(r.lists(at, entity));
            }
        }
        assert(list.no_duplicates());
        assert(n.slots[at]->0.entities.no_duplicates());
        assert forall|i: int|
            0 <= i < n.slots.len() && (#[trigger] n.slots[i]) is Some implies n.slots[i]->0.entities
            .no_duplicates() by {
            if i != at {
                assert(n.slots[i] == r.slots[i]);
            }
        }
    }
}

/// A release keeps a set consistent.
proof fn lemma_release(r: Roster, entity: EntityId)
    requires
        r.consistent(),
    ensures
        r.released(entity).consistent(),
{
    let n = r.released(entity);
    if let Some(edge) = r.owner(entity) {
        let at = edge.0 as int;
        assert(r.lists(at, entity));
        let list = r.slots[at]->0.entities;
        lemma_without(list, entity);
        assert forall|i: int, e: EntityId| #[trigger] n.lists(i, e) implies n.owners.contains_key(
            e.0,
        ) && n.owners[e.0] == i by {
            assert(r.lists(i, e));
            if e == entity {
                assert(i == at);
                assert(without(list, entity).contains(e));
            }
        }
        assert forall|e: u32| #[trigger] n.owners.contains_key(e) implies n.lists(
            n.owners[e] as int,
            EntityId(e),
        ) by {
            assert(r.owners.contains_key(e));
            assert(r.lists(r.owners[e] as int, EntityId(e)));
            if r.owners[e] == at {
                assert(without(list, entity).contains(EntityId(e)));
            }
        }
        assert forall|i: int|
            0 <= i < n.slots.len() && (#[trigger] n.slots[i]) is Some implies n.slots[i]->0.entities
            .no_duplicates() by {
            if i != at {
                assert(n.slots[i] == r.slots[i]);
            } else {
                assert(r.slots[at] is Some);
            }
        }
    }
}

/// An edge going keeps a set consistent.
proof fn lemma_gone(r: Roster, id: EdgeId)
    requires
        r.consistent(),
    ensures
        r.gone(id).consistent(),
{
    let n = r.gone(id);
    if r.attached(id) {
        let at = id.0 as int;
        let list = r.slots[at]->0.entities;
        assert forall|i: int, e: EntityId| #[trigger] n.lists(i, e) implies n.owners.contains_key(
            e.0,
        ) && n.owners[e.0] == i by {
            assert(i != at);
            assert(r.lists(i, e));
            if list.contains(e) {
                assert(r.lists(at, e));
            }
        }
        assert forall|e: u32| #[trigger] n.owners.contains_key(e) implies n.lists(
            n.owners[e] as int,
            EntityId(e),
        ) by {
            assert(r.owners.contains_key(e));
            assert(r.lists(r.owners[e] as int, EntityId(e)));
        }
        assert forall|i: int|
            0 <= i < n.slots.len() && (#[trigger] n.slots[i]) is Some implies n.slots[i]->0.entities
            .no_duplicates() by {
            assert(n.slots[i] == r.slots[i]);
        }
    }
}

/// One edge manages an entity, or none does: never two.
pub proof fn law_one_edge_manages_an_entity(r: Roster, e: EntityId, i: int, j: int)
    requires
        r.consistent(),
        r.lists(i, e),
        r.lists(j, e),
    ensures
        i == j,
        r.owner(e) == Some(EdgeId(i as u32)),
{
}

/// The same name is the same edge, however often it speaks.
pub proof fn law_an_edge_keeps_its_seat(r: Roster, name: Seq<char>, now: u64, later: u64)
    ensures
        r.admitted(name, now).seat(name) == r.seat(name),
        r.admitted(name, now).admitted(name, later).slots.len() == r.admitted(
            name,
            now,
        ).slots.len(),
        r.admitted(name, now).admitted(name, later).accepted == r.admitted(name, now).accepted,
{
    lemma_slot_named(r.slots, name);
    lemma_slot_free(r.slots);
    let at = r.seat(name) as int;
    let n = r.admitted(name, now);
    assert(n.slots[at] is Some && n.slots[at]->0.name == name);
    assert forall|k: int| 0 <= k < at implies !(n.slots[k] is Some && n.slots[k]->0.name
        == name) by {
        if slot_named(r.slots, name) < r.slots.len() {
            lemma_first_named(r.slots, name, k);
        } else {
            lemma_first_named(r.slots, name, k);
            assert(n.slots[k] == r.slots[k]);
        }
    }
    lemma_named_here(n.slots, name, at);
}

/// No slot before the one found is of that name.
proof fn lemma_first_named(slots: Seq<Option<Attached>>, name: Seq<char>, k: int)
    requires
        0 <= k < slots.len(),
        k < slot_named(slots, name),
    ensures
        !(slots[k] is Some && slots[k]->0.name == name),
    decreases slots.len(),
{
    lemma_slot_named(slots.drop_last(), name);
    if k < slots.len() - 1 {
        lemma_first_named(slots.drop_last(), name, k);
    }
}

/// The first slot of a name is the one found.
proof fn lemma_named_here(slots: Seq<Option<Attached>>, name: Seq<char>, at: int)
    requires
        0 <= at < slots.len(),
        slots[at] is Some && slots[at]->0.name == name,
        forall|k: int|
            0 <= k < at ==> !((#[trigger] slots[k]) is Some && slots[k]->0.name == name),
    ensures
        slot_named(slots, name) == at,
    decreases slots.len(),
{
    let front = slots.drop_last();
    lemma_slot_named(front, name);
    if at < slots.len() - 1 {
        assert forall|k: int| 0 <= k < at implies !((#[trigger] front[k]) is Some
            && front[k]->0.name == name) by {
            assert(front[k] == slots[k]);
        }
        lemma_named_here(front, name, at);
    } else {
        let found = slot_named(front, name) as int;
        if found < front.len() {
            assert(front[found] == slots[found]);
        }
    }
}

/// An edge that goes takes its claims with it: what it managed routes nowhere
/// and is handed to the tick loop, every other entity keeps its edge, and
/// whoever gets the slot next inherits nothing.
pub proof fn law_an_edge_that_goes_leaves_nothing(
    r: Roster,
    id: EdgeId,
    e: EntityId,
    name: Seq<char>,
    now: u64,
)
    requires
        r.consistent(),
        r.attached(id),
    ensures
        r.owner(e) == Some(id) ==> {
            &&& r.gone(id).owner(e) is None
            &&& r.gone(id).detached.contains(e)
        },
        r.owner(e) != Some(id) ==> r.gone(id).owner(e) == r.owner(e),
        !r.gone(id).attached(id),
        r.gone(id).seat(name) == id.0 && slot_named(r.gone(id).slots, name)
            == r.gone(id).slots.len() ==> {
            let next = r.gone(id).admitted(name, now);
            &&& next.slots[id.0 as int]->0.entities.len() == 0
            &&& next.owner(e) != Some(id)
        },
{
    let at = id.0 as int;
    let list = r.slots[at]->0.entities;
    let g = r.gone(id);
    if r.owner(e) == Some(id) {
        assert(r.lists(at, e));
        let k = choose|k: int| 0 <= k < list.len() && list[k] == e;
        assert(g.detached[r.detached.len() + k] == e);
    } else if list.contains(e) {
        assert(r.lists(at, e));
    }
    lemma_slot_named(g.slots, name);
    lemma_slot_free(g.slots);
}

/// A number so many counts on, where 64 bits wrap.
pub open spec fn counted_on(from: u64, n: nat) -> u64 {
    ((from + n) % 0x1_0000_0000_0000_0000) as u64
}

impl Roster {
    /// Whether an entity's edge is among the stale of the first `n` slots.
    pub open spec fn forsaken(self, e: EntityId, n: nat, after: u64, now: u64) -> bool {
        &&& self.owners.contains_key(e.0)
        &&& self.owners[e.0] < n
        &&& self.stale(self.owners[e.0] as int, after, now)
    }

    /// Whether a set is another with the stale of its first `n` slots gone, and
    /// nothing else changed.
    pub open spec fn shed(self, left: Roster, n: nat, after: u64, now: u64) -> bool {
        let count = self.stale_among(n, after, now);
        &&& left.slots.len() == self.slots.len()
        &&& forall|i: int|
            0 <= i < self.slots.len() ==> #[trigger] left.slots[i] == if i < n && self.stale(
                i,
                after,
                now,
            ) {
                None
            } else {
                self.slots[i]
            }
        &&& forall|e: EntityId| #[trigger]
            left.owner(e) == if self.forsaken(e, n, after, now) {
                None
            } else {
                self.owner(e)
            }
        &&& left.detached.len() >= self.detached.len()
        &&& left.detached.take(self.detached.len() as int) == self.detached
        &&& forall|e: EntityId| #[trigger]
            left.detached.skip(self.detached.len() as int).contains(e) <==> self.forsaken(
                e,
                n,
                after,
                now,
            )
        &&& left.accepted == self.accepted
        &&& left.generation == counted_on(self.generation, count)
        &&& taken(left.slots) + count == taken(self.slots)
    }
}

proof fn lemma_shed(r: Roster, n: nat, after: u64, now: u64)
    requires
        r.consistent(),
        n <= r.slots.len() <= u32::MAX,
    ensures
        r.shed(r.expired(n, after, now), n, after, now),
    decreases n,
{
    let left = r.expired(n, after, now);
    let d = r.detached.len() as int;
    if n == 0 {
        assert(left.detached.take(d) =~= r.detached);
        assert(left.detached.skip(d) =~= Seq::empty());
    } else {
        let at = n - 1;
        let was = r.expired(at as nat, after, now);
        lemma_shed(r, at as nat, after, now);
        assert(was.slots[at] == r.slots[at]);
        if r.stale(at, after, now) {
            let list = r.slots[at]->0.entities;
            assert(was.attached(EdgeId(at as u32)));
            assert(left.detached == was.detached + list);
            assert forall|e: EntityId| #[trigger] list.contains(e) <==> r.owners.contains_key(e.0)
                && r.owners[e.0] == at by {
                if list.contains(e) {
                    assert(r.lists(at, e));
                }
                if r.owners.contains_key(e.0) && r.owners[e.0] == at {
                    assert(r.lists(r.owners[e.0] as int, EntityId(e.0)));
                }
            }
            lemma_taken(was.slots, at, None);
            assert(left.detached.take(d) =~= was.detached.take(d));
            assert(left.detached.skip(d) =~= was.detached.skip(d) + list);
            assert forall|e: EntityId| #[trigger] left.detached.skip(d).contains(e)
                <==> r.forsaken(e, n, after, now) by {
                let (front, whole) = (was.detached.skip(d), left.detached.skip(d));
                if whole.contains(e) {
                    let k = choose|k: int| 0 <= k < whole.len() && whole[k] == e;
                    if k < front.len() {
                        assert(front[k] == e);
                        assert(front.contains(e));
                    } else {
                        assert(list[k - front.len()] == e);
                        assert(list.contains(e));
                    }
                }
                if r.forsaken(e, n, after, now) {
                    if r.owners[e.0] == at {
                        assert(list.contains(e));
                        let k = choose|k: int| 0 <= k < list.len() && list[k] == e;
                        assert(whole[front.len() + k] == e);
                    } else {
                        assert(r.forsaken(e, at as nat, after, now));
                        assert(front.contains(e));
                        let k = choose|k: int| 0 <= k < front.len() && front[k] == e;
                        assert(whole[k] == e);
                    }
                }
            }
            assert forall|e: EntityId| #[trigger] left.owner(e) == if r.forsaken(
                e,
                n,
                after,
                now,
            ) {
                None
            } else {
                r.owner(e)
            } by {
                assert(was.owner(e) == if r.forsaken(e, at as nat, after, now) {
                    None
                } else {
                    r.owner(e)
                });
                assert(list.contains(e) <==> r.owners.contains_key(e.0) && r.owners[e.0] == at);
            }
        } else {
            assert forall|e: EntityId| r.forsaken(e, n, after, now) == #[trigger] r.forsaken(
                e,
                at as nat,
                after,
                now,
            ) by {}
        }
    }
}

/// An expiry frees exactly the slots of the edges silent for too long. What
/// they managed routes nowhere and is handed to the tick loop, every other
/// entity keeps its edge and every other slot its edge, and the count of edges
/// drops by as many.
pub proof fn law_an_expiry_takes_only_the_silent(r: Roster, after: u64, now: u64)
    requires
        r.consistent(),
        r.slots.len() <= u32::MAX,
    ensures
        r.shed(r.expired(r.slots.len(), after, now), r.slots.len(), after, now),
{
    lemma_shed(r, r.slots.len(), after, now);
}

/// A second edge's claim is refused and the first claim stands, until the
/// entity is released; then another edge may have it.
pub proof fn law_a_claim_stands_until_released(r: Roster, a: EdgeId, b: EdgeId, e: EntityId)
    requires
        r.consistent(),
        r.attached(a),
        r.attached(b),
        a != b,
        r.owner(e) is None,
    ensures
        ({
            let held = r.claimed(a, e);
            &&& held.owner(e) == Some(a)
            &&& held.claim_fault(b, e) == Some(ClaimError::AlreadyClaimed { entity: e, by: a })
            &&& held.claimed(b, e) == held
            &&& held.claimed(a, e) == held
            &&& held.released(e).owner(e) is None
            &&& held.released(e).claimed(b, e).owner(e) == Some(b)
        }),
{
}

/// An edge that speaks is the one of that name, heard from now and otherwise as
/// it was; one of a name nobody has takes the first free place, or a new one
/// behind the rest, with nothing to its name yet, and is counted.
pub proof fn law_an_edge_that_speaks_is_heard_from(r: Roster, name: Seq<char>, now: u64, at: int)
    requires
        r.accepted < u64::MAX,
        r.generation < u64::MAX,
    ensures
        ({
            let n = r.admitted(name, now);
            let named = |i: int| r.slots[i] is Some && r.slots[i]->0.name == name;
            &&& 0 <= at < r.slots.len() && named(at) && (forall|i: int|
                0 <= i < at ==> !#[trigger] named(i)) ==> {
                let was = r.slots[at]->0;
                &&& r.seat(name) == at
                &&& n.slots == r.slots.update(
                    at,
                    Some(
                        Attached {
                            name: was.name,
                            since: was.since,
                            heard: now,
                            entities: was.entities,
                            stats: was.stats,
                        },
                    ),
                )
                &&& n == (Roster { slots: n.slots, ..r })
            }
            &&& (forall|i: int| 0 <= i < r.slots.len() ==> !#[trigger] named(i)) && 0 <= at
                <= r.slots.len() && (at < r.slots.len() ==> r.slots[at] is None) && (forall|i: int|
                0 <= i < at ==> (#[trigger] r.slots[i]) is Some) ==> {
                &&& r.seat(name) == at
                &&& n.slots.len() == if at < r.slots.len() {
                    r.slots.len()
                } else {
                    r.slots.len() + 1
                }
                &&& n.slots[at] is Some
                &&& n.slots[at]->0.name == name
                &&& n.slots[at]->0.since == now && n.slots[at]->0.heard == now
                &&& n.slots[at]->0.entities.len() == 0
                &&& n.slots[at]->0.stats == (EdgeStats {
                    messages: 0,
                    payloads: 0,
                    bytes: 0,
                    observers: 0,
                    refused: 0,
                })
                &&& forall|i: int|
                    0 <= i < r.slots.len() && i != at ==> #[trigger] n.slots[i] == r.slots[i]
                &&& n.accepted == r.accepted + 1
                &&& n.generation == r.generation + 1
                &&& n.owners == r.owners && n.detached == r.detached
            }
        }),
{
    let named = |i: int| r.slots[i] is Some && r.slots[i]->0.name == name;
    lemma_slot_named(r.slots, name);
    lemma_slot_free(r.slots);
    if 0 <= at < r.slots.len() && named(at) && (forall|i: int| 0 <= i < at ==> !#[trigger] named(i)) {
        assert forall|i: int| 0 <= i < at implies !(r.slots[i] is Some && r.slots[i]->0.name
            == name) by {
            assert(!named(i));
        }
        lemma_named_here(r.slots, name, at);
    }
    if (forall|i: int| 0 <= i < r.slots.len() ==> !#[trigger] named(i)) && 0 <= at <= r.slots.len()
        && (at < r.slots.len() ==> r.slots[at] is None) && (forall|i: int|
        0 <= i < at ==> (#[trigger] r.slots[i]) is Some) {
        assert(slot_named(r.slots, name) == r.slots.len()) by {
            if slot_named(r.slots, name) < r.slots.len() {
                assert(named(slot_named(r.slots, name) as int));
            }
        }
        lemma_free_here(r.slots, at);
    }
}

/// The first free slot is the one found.
proof fn lemma_free_here(slots: Seq<Option<Attached>>, at: int)
    requires
        0 <= at <= slots.len(),
        at < slots.len() ==> slots[at] is None,
        forall|i: int| 0 <= i < at ==> (#[trigger] slots[i]) is Some,
    ensures
        slot_free(slots) == at,
    decreases slots.len(),
{
    if slots.len() > 0 {
        let front = slots.drop_last();
        assert forall|i: int| 0 <= i < at && i < front.len() implies (
        #[trigger] front[i]) is Some by {
            assert(slots[i] == front[i]);
        }
        if at < slots.len() {
            if at < front.len() {
                assert(front[at] == slots[at]);
            }
            lemma_free_here(front, at);
        } else {
            lemma_free_here(front, front.len() as int);
            assert(slots[slots.len() - 1] is Some);
        }
    }
}

/// A claim that stands puts the entity at the end of the edge's list and under
/// its name, and nothing else; giving it up takes it off both, and nothing
/// else.
pub proof fn law_a_claim_is_one_entry_and_its_release_takes_it(
    r: Roster,
    edge: EdgeId,
    entity: EntityId,
)
    requires
        r.consistent(),
        edge.0 < r.slots.len(),
        r.slots[edge.0 as int] is Some,
        !r.owners.contains_key(entity.0),
    ensures
        ({
            let held = r.claimed(edge, entity);
            let was = r.slots[edge.0 as int]->0;
            let back = held.released(entity);
            &&& held.owners == r.owners.insert(entity.0, edge.0)
            &&& held.slots == r.slots.update(
                edge.0 as int,
                Some(
                    Attached {
                        name: was.name,
                        since: was.since,
                        heard: was.heard,
                        entities: was.entities.push(entity),
                        stats: was.stats,
                    },
                ),
            )
            &&& held == (Roster { owners: held.owners, slots: held.slots, ..r })
            &&& back.owners == r.owners
            &&& back.slots == r.slots
            &&& back == r
        }),
{
    let held = r.claimed(edge, entity);
    let was = r.slots[edge.0 as int]->0;
    let back = held.released(entity);
    assert(!was.entities.contains(entity)) by {
        if was.entities.contains(entity) {
            assert(r.lists(edge.0 as int, entity));
        }
    }
    assert(was.entities.push(entity).drop_last() =~= was.entities);
    lemma_without_none(was.entities, entity);
    assert(without(was.entities.push(entity), entity) == was.entities);
    assert(back.owners =~= r.owners);
    assert(back.slots =~= r.slots);
}

proof fn lemma_without_none(entities: Seq<EntityId>, entity: EntityId)
    requires
        !entities.contains(entity),
    ensures
        without(entities, entity) == entities,
    decreases entities.len(),
{
    if entities.len() > 0 {
        let front = entities.drop_last();
        assert(entities[entities.len() - 1] == entities.last());
        assert(!front.contains(entity)) by {
            if front.contains(entity) {
                let i = choose|i: int| 0 <= i < front.len() && front[i] == entity;
                assert(entities[i] == entity);
            }
        }
        lemma_without_none(front, entity);
        assert(front.push(entities.last()) =~= entities);
    }
}

/// An expiry keeps an edge, as it was, when no more time than allowed has gone
/// by since it was heard from, and frees its place when more has.
pub proof fn law_an_edge_stays_while_it_is_heard_from(r: Roster, after: u64, now: u64, i: int)
    requires
        r.consistent(),
        r.slots.len() <= u32::MAX,
        0 <= i < r.slots.len(),
        r.slots[i] is Some,
    ensures
        ({
            let left = r.expired(r.slots.len(), after, now);
            &&& left.slots.len() == r.slots.len()
            &&& now - r.slots[i]->0.heard <= after ==> left.slots[i] == r.slots[i]
            &&& now - r.slots[i]->0.heard > after ==> left.slots[i] is None
            &&& left.accepted == r.accepted
        }),
{
    law_an_expiry_takes_only_the_silent(r, after, now);
    let left = r.expired(r.slots.len(), after, now);
    assert(left.slots[i] == if r.stale(i, after, now) {
        None
    } else {
        r.slots[i]
    });
}

/// The edges attached are as many as the places that are taken.
pub proof fn law_the_attached_are_counted(slots: Seq<Option<Attached>>)
    ensures
        taken(slots) == slots.filter(|s: Option<Attached>| s is Some).len(),
    decreases slots.len(),
{
    reveal(Seq::filter);
    if slots.len() > 0 {
        law_the_attached_are_counted(slots.drop_last());
    }
}

/// A list of views has one view of each edge attached, in the order of their
/// places, and says of each what is known of it: when it was admitted and last
/// heard from, how much it manages and what it has sent and been sent.
pub proof fn law_a_view_is_of_each_edge_attached(r: Roster, now: u64, views: Seq<EdgeView>)
    requires
        views_of(r, now, views),
        r.slots.len() <= u32::MAX,
    ensures
        views.len() == taken(r.slots),
        forall|k: int|
            0 <= k < views.len() ==> {
                let v = #[trigger] views[k];
                let a = r.slots[v.id.0 as int]->0;
                &&& v.id.0 < r.slots.len()
                &&& r.slots[v.id.0 as int] is Some
                &&& v.name@ == a.name
                &&& v.uptime == vstd::math::max(0, now - a.since)
                &&& v.silent == vstd::math::max(0, now - a.heard)
                &&& v.entities == a.entities.len()
                &&& v.observers == a.stats.observers
                &&& v.payloads == a.stats.payloads
                &&& v.bytes == a.stats.bytes
                &&& v.messages == a.stats.messages
                &&& v.refused == a.stats.refused
            },
        forall|j: int, k: int|
            0 <= j < k < views.len() ==> (#[trigger] views[j]).id.0 < (#[trigger] views[k]).id.0,
    decreases r.slots.len(),
{
    if r.slots.len() > 0 {
        let front = Roster { slots: r.slots.drop_last(), ..r };
        let rest = if r.slots.last() is None {
            views
        } else {
            views.drop_last()
        };
        law_a_view_is_of_each_edge_attached(front, now, rest);
        assert forall|k: int| 0 <= k < rest.len() implies (#[trigger] rest[k]).id.0 < r.slots.len()
            - 1 && r.slots[rest[k].id.0 as int] == front.slots[rest[k].id.0 as int] by {}
        assert forall|k: int| 0 <= k < views.len() implies {
            let v = #[trigger] views[k];
            let a = r.slots[v.id.0 as int]->0;
            &&& v.id.0 < r.slots.len()
            &&& r.slots[v.id.0 as int] is Some
            &&& v.name@ == a.name
            &&& v.uptime == vstd::math::max(0, now - a.since)
            &&& v.silent == vstd::math::max(0, now - a.heard)
            &&& v.entities == a.entities.len()
            &&& v.observers == a.stats.observers
            &&& v.payloads == a.stats.payloads
            &&& v.bytes == a.stats.bytes
            &&& v.messages == a.stats.messages
            &&& v.refused == a.stats.refused
        } by {
            if k < rest.len() {
                assert(rest[k] == views[k]);
            }
        }
        assert forall|j: int, k: int| 0 <= j < k < views.len() implies (#[trigger] views[j]).id.0
            < (#[trigger] views[k]).id.0 by {
            assert(rest[j] == views[j]);
            if k < rest.len() {
                assert(rest[k] == views[k]);
            }
        }
    }
}

/// An edge goes where it is already, or else into the first free slot, or past
/// the last where none is free.
pub proof fn law_a_free_slot_is_used_before_a_new_one(slots: Seq<Option<Attached>>, name: Seq<char>)
    ensures
        ({
            let at = slot_named(slots, name) as int;
            &&& at <= slots.len()
            &&& at < slots.len() ==> slots[at] is Some && slots[at]->0.name == name
            &&& forall|i: int|
                0 <= i < at ==> !((#[trigger] slots[i]) is Some && slots[i]->0.name == name)
        }),
        ({
            let at = slot_free(slots) as int;
            &&& at <= slots.len()
            &&& at < slots.len() ==> slots[at] is None
            &&& forall|i: int| 0 <= i < at ==> (#[trigger] slots[i]) is Some
        }),
    decreases slots.len(),
{
    if slots.len() > 0 {
        let front = slots.drop_last();
        law_a_free_slot_is_used_before_a_new_one(front, name);
        assert forall|i: int| 0 <= i < front.len() implies #[trigger] front[i] == slots[i] by {}
        assert forall|i: int| 0 <= i < slot_named(slots, name) implies !((
        #[trigger] slots[i]) is Some && slots[i]->0.name == name) by {
            if i < front.len() {
                assert(front[i] == slots[i]);
            }
        }
        assert forall|i: int| 0 <= i < slot_free(slots) implies (#[trigger] slots[i]) is Some by {
            if i < front.len() {
                assert(front[i] == slots[i]);
            }
        }
    }
}

/// Where an edge is to sit is where one of its name sits, or the first free
/// slot where none does.
pub proof fn law_a_seat_is_the_edges_own_or_the_first_free(r: Roster, name: Seq<char>)
    ensures
        r.seat(name) <= r.slots.len(),
        forall|i: int|
            0 <= i < r.slots.len() && (#[trigger] r.slots[i]) is Some && r.slots[i]->0.name == name
                ==> r.seat(name) <= i && r.slots[r.seat(name) as int] is Some
                && r.slots[r.seat(name) as int]->0.name == name,
        (forall|i: int|
            0 <= i < r.slots.len() && (#[trigger] r.slots[i]) is Some ==> r.slots[i]->0.name
                != name) ==> (forall|i: int|
            0 <= i < r.seat(name) ==> (#[trigger] r.slots[i]) is Some) && (r.seat(name)
            < r.slots.len() ==> r.slots[r.seat(name) as int] is None),
{
    law_a_free_slot_is_used_before_a_new_one(r.slots, name);
}

} // verus!
