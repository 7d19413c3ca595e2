//! Entities are opaque objects tracked by the simulator. All identities
//! are guaranteed to be unique within a region, where a region is owned
//! by a simulator process.

use vstd::prelude::*;
use vstd::string::*;

use crate::text;
use crate::text::labeled;

verus! {

/// An entity's identity within a region.
#[derive(Clone, Copy, PartialEq, Eq, PartialOrd, Ord, Hash, Debug, Structural)]
pub struct EntityId(pub u32);

impl EntityId {
    /// From the raw value a region allocated.
    pub fn from_raw(raw: u32) -> (id: EntityId)
        ensures
            id == EntityId(raw),
    {
        EntityId(raw)
    }

    /// The raw value.
    pub fn raw(self) -> (raw: u32)
        ensures
            raw == self.0,
    {
        self.0
    }

    /// The id as an array index. This array index is only safe in certain situations,
    /// like indexing within a region
    pub fn index(self) -> (i: usize)
        ensures
            i == self.0,
    {
        self.0 as usize
    }

    /// An entity as a message names it, such as `entity 7`.
    pub fn to_string(&self) -> (s: String)
        ensures
            s@ == "entity "@ + text::decimal(self.0 as nat),
    {
        labeled("entity ", self.0 as u64)
    }

    /// An entity in short, such as `E7`.
    pub fn short(&self) -> (s: String)
        ensures
            s@ == "E"@ + text::decimal(self.0 as nat),
    {
        labeled("E", self.0 as u64)
    }
}

/// Whether something is behind an entity.
#[derive(Clone, Copy, Debug, PartialEq, Eq, Structural)]
pub enum Role {
    /// Nothing is.
    Unattended,
    /// A game client is, and is shown what the entity can see.
    Observer,
    /// An observer in a neighboring region is, whose view reaches this one.
    Shadow,
}

/// What an entity is and whether it observes, plus a game-defined tag that
/// travels in every observation record.
///
/// The role decides whether a viewer is registered: an observer gets one, an
/// unattended entity does not. The tag is a `u16` the game defines and umwelt
/// does not interpret — a client maps it to an asset, a model, a sprite index,
/// or whatever its rendering needs.
///
/// Static scenery has no kind here, because it is never spawned. A rock that
/// never moves is already in the client's content package and doesn't need to
/// be transmitted or managed in the server's simulation.
#[derive(Clone, Copy, Debug, PartialEq, Eq, Structural)]
pub struct EntityKind {
    /// Whether something is behind it.
    pub role: Role,
    /// What the game calls it.
    pub tag: u16,
}

impl EntityKind {
    /// An unattended entity carrying a game-defined tag. No viewer is
    /// registered. Projectiles, wildlife, NPCs, resource nodes.
    pub fn unattended(tag: u16) -> (k: EntityKind)
        ensures
            k == (EntityKind { role: Role::Unattended, tag }),
    {
        EntityKind { role: Role::Unattended, tag }
    }

    /// An observer carrying a game-defined tag. A viewer is registered, so it
    /// receives a budgeted approximation of what it can see.
    pub fn observer(tag: u16) -> (k: EntityKind)
        ensures
            k == (EntityKind { role: Role::Observer, tag }),
    {
        EntityKind { role: Role::Observer, tag }
    }

    /// A viewer with no presence of its own, which an edge keeps across a seam
    /// for an observer whose view reaches it.
    pub fn shadow() -> (k: EntityKind)
        ensures
            k == (EntityKind { role: Role::Shadow, tag: 0 }),
    {
        EntityKind { role: Role::Shadow, tag: 0 }
    }

    /// Whether a viewer is registered for it: an observer or a shadow.
    pub open spec fn is_observing(self) -> bool {
        self.role != Role::Unattended
    }

    /// Whether a viewer is registered for it.
    pub fn observes(self) -> (b: bool)
        ensures
            b == self.is_observing(),
    {
        match self.role {
            Role::Unattended => false,
            _ => true,
        }
    }

    /// Whether it stands in for an observer in another region.
    pub fn is_shadow(self) -> (b: bool)
        ensures
            b == (self.role == Role::Shadow),
    {
        match self.role {
            Role::Shadow => true,
            _ => false,
        }
    }

    /// The game-defined tag. Umwelt does not interpret it.
    pub fn tag(self) -> (tag: u16)
        ensures
            tag == self.tag,
    {
        self.tag
    }

    /// The byte a role is written as.
    pub open spec fn role_byte(self) -> u8 {
        match self.role {
            Role::Unattended => 0,
            Role::Observer => 1,
            Role::Shadow => 2,
        }
    }

    /// The role byte: 0 for unattended, 1 for observer, 2 for a shadow.
    pub fn role(self) -> (byte: u8)
        ensures
            byte == self.role_byte(),
    {
        match self.role {
            Role::Unattended => 0,
            Role::Observer => 1,
            Role::Shadow => 2,
        }
    }

    /// The word for a role.
    pub open spec fn role_word(self) -> Seq<char> {
        match self.role {
            Role::Unattended => "unattended("@,
            Role::Observer => "observer("@,
            Role::Shadow => "unknown("@,
        }
    }

    /// A kind as text, such as `observer(7)`.
    pub fn to_string(&self) -> (s: String)
        ensures
            s@ == self.role_word() + text::decimal(self.tag as nat) + ")"@,
    {
        let word: &str = match self.role {
            Role::Unattended => "unattended(",
            Role::Observer => "observer(",
            Role::Shadow => "unknown(",
        };
        let mut s = labeled(word, self.tag as u64);
        s.append(")");
        s
    }
}

impl Default for EntityKind {
    /// Unattended, with tag 0.
    fn default() -> (k: EntityKind)
        ensures
            k == (EntityKind { role: Role::Unattended, tag: 0 }),
    {
        EntityKind { role: Role::Unattended, tag: 0 }
    }
}

// ---------------------------------------------------------------------------
// Which entities are alive
// ---------------------------------------------------------------------------

/// Which entities are alive.
///
/// One bit per entity id, parallel to the position arrays. A bit is set while
/// an entity occupies it and cleared on despawn. Ids are never moved, so an
/// `EntityId` stays valid for the lifetime of the entity it names.
///
/// Clearing a bit removes the entity from the snapshot. It does not make the
/// id safe to reuse: a client holding a ghost of the previous occupant would
/// alias the new one. Reuse requires either compaction during a quiet period or
/// a quarantine until every client has acknowledged the despawn.
#[derive(Debug, Clone, PartialEq, Eq)]
pub struct LiveSet {
    words: Vec<u64>,
    slots: usize,
    live: usize,
}

/// Whether one bit of a word is set.
pub open spec fn lit(word: u64, bit: u64) -> bool {
    (word >> bit) & 1 == 1
}

/// Whether bit `n` of a run of words is set.
spec fn bit_at(words: Seq<u64>, n: int) -> bool {
    0 <= n < 64 * words.len() && lit(words[n / 64], (n % 64) as u64)
}

/// What setting a bit does to every bit.
proof fn lemma_set(word: u64, bit: u64, other: u64)
    requires
        bit < 64,
        other < 64,
    ensures
        lit(word | (1u64 << bit), other) == (lit(word, other) || other == bit),
{
    assert(((word | (1u64 << bit)) >> other) & 1 == 1 <==> ((word >> other) & 1 == 1 || other
        == bit)) by (bit_vector)
        requires
            bit < 64,
            other < 64,
    ;
}

/// What clearing a bit does to every bit.
proof fn lemma_unset(word: u64, bit: u64, other: u64)
    requires
        bit < 64,
        other < 64,
    ensures
        lit(word & !(1u64 << bit), other) == (lit(word, other) && other != bit),
{
    assert(((word & !(1u64 << bit)) >> other) & 1 == 1 <==> ((word >> other) & 1 == 1 && other
        != bit)) by (bit_vector)
        requires
            bit < 64,
            other < 64,
    ;
}

/// What testing a bit says.
proof fn lemma_test(word: u64, bit: u64)
    requires
        bit < 64,
    ensures
        (word & (1u64 << bit) != 0) == lit(word, bit),
{
    assert((word & (1u64 << bit)) != 0 <==> (word >> bit) & 1 == 1) by (bit_vector)
        requires
            bit < 64,
    ;
}

/// No bit of nothing is set.
proof fn lemma_none(bit: u64)
    requires
        bit < 64,
    ensures
        !lit(0, bit),
{
    assert((0u64 >> bit) & 1 != 1) by (bit_vector)
        requires
            bit < 64,
    ;
}

/// What clearing the lowest bit does to every bit.
proof fn lemma_lowest(word: u64, low: u64, other: u64)
    requires
        low < 64,
        other < 64,
        lit(word, low),
        forall|j: u64| 0 <= j < low ==> !lit(word, j),
        word << ((64 - low) as u64) == 0 || low == 0,
    ensures
        word != 0,
        lit((word & ((word - 1) as u64)) as u64, other) == (lit(word, other) && other != low),
{
    let up = (64 - low) as u64;
    assert(word != 0) by (bit_vector)
        requires
            (word >> low) & 1 == 1,
            low < 64,
    ;
    let less = (word - 1) as u64;
    assert(((word & less) >> other) & 1 == 1 <==> ((word >> other) & 1 == 1 && other != low))
        by (bit_vector)
        requires
            low < 64,
            other < 64,
            (word >> low) & 1 == 1,
            word << up == 0 || low == 0,
            up == 64 - low,
            less == word - 1,
    ;
}

impl View for LiveSet {
    type V = Set<u32>;

    closed spec fn view(&self) -> Set<u32> {
        Set::new(|n: u32| bit_at(self.words@, n as int))
    }
}

impl LiveSet {
    /// Total entity ids allocated, alive or not.
    pub closed spec fn space(&self) -> int {
        self.slots as int
    }

    /// Whether the words cover exactly the ids allocated, no bit past them is
    /// set, and the count of live entities is right.
    pub closed spec fn wf(&self) -> bool {
        &&& self.words@.len() == (self.slots + 63) / 64
        &&& self.slots <= 0x1_0000_0000
        &&& forall|n: int| #[trigger] bit_at(self.words@, n) ==> n < self.slots
        &&& self@.finite()
        &&& self.live == self@.len()
    }

    /// Every live entity's id is one that was allocated.
    pub proof fn lemma_in_space(&self, id: u32)
        requires
            self.wf(),
            self@.contains(id),
        ensures
            id < self.space(),
    {
    }

    /// What is alive is finite.
    pub proof fn lemma_finite(&self)
        requires
            self.wf(),
        ensures
            self@.finite(),
            self.space() <= 0x1_0000_0000,
    {
    }

    /// Empty.
    pub fn new() -> (s: LiveSet)
        ensures
            s.wf(),
            s@ == Set::<u32>::empty(),
            s.space() == 0,
    {
        let s = LiveSet { words: Vec::new(), slots: 0, live: 0 };
        assert(s@ =~= Set::empty());
        s
    }

    /// Empty, with room for `entities` before it grows. How much room a vector
    /// really has rests with the allocator, so the contract says nothing of it.
    pub fn with_capacity(entities: usize) -> (s: LiveSet)
        ensures
            s.wf(),
            s@ == Set::<u32>::empty(),
            s.space() == 0,
    {
        let room: usize = if entities % 64 == 0 {
            entities / 64
        } else {
            entities / 64 + 1
        };
        let s = LiveSet { words: Vec::with_capacity(room), slots: 0, live: 0 };
        assert(s@ =~= Set::empty());
        s
    }

    /// Total entity ids allocated, alive or not. Matches the length of the
    /// position arrays.
    pub fn id_space(&self) -> (n: usize)
        ensures
            n == self.space(),
    {
        self.slots
    }

    /// How many entities are currently alive.
    pub fn live(&self) -> (n: usize)
        requires
            self.wf(),
        ensures
            n == self@.len(),
    {
        self.live
    }

    /// Whether nothing is alive.
    pub fn is_empty(&self) -> (b: bool)
        requires
            self.wf(),
        ensures
            b == (self@ == Set::<u32>::empty()),
    {
        if self.live == 0 {
            assert(self@ =~= Set::empty());
        }
        self.live == 0
    }

    /// Live entities in ascending id order, skipping dead ones 64 at a time.
    ///
    /// Testing each id in turn costs the same whether it holds an entity or
    /// not, so a region that has despawned far more than it holds pays for
    /// every id it ever allocated. A word that is entirely dead is one
    /// comparison rather than 64.
    pub fn iter(&self) -> (it: LiveIter<'_>)
        requires
            self.wf(),
        ensures
            it.wf(),
            it@ == self@,
    {
        let current: u64 = if self.words.len() > 0 {
            self.words[0]
        } else {
            0
        };
        let it = LiveIter { words: self.words.as_slice(), at: 0, current };
        proof {
            assert forall|n: u32| it@.contains(n) == self@.contains(n) by {
                if self.words@.len() == 0 && n < 64 {
                    lemma_none(n as u64);
                }
            }
            assert(it@ =~= self@);
            if self.words@.len() == 0 {
                assert forall|b: u64| b < 64 && #[trigger] lit(it.current, b) implies 64 * it.at + b
                    <= u32::MAX by {
                    lemma_none(b);
                }
            } else {
                assert forall|b: u64| b < 64 && #[trigger] lit(it.current, b) implies 64 * it.at + b
                    <= u32::MAX by {
                    assert(bit_at(self.words@, b as int));
                }
            }
            assert forall|n: int| #[trigger] bit_at(it.words@, n) implies n <= u32::MAX by {
                assert(n < self.slots);
            }
        }
        it
    }

    /// Whether that entity is alive.
    pub fn contains(&self, id: EntityId) -> (b: bool)
        requires
            self.wf(),
        ensures
            b == self@.contains(id.0),
    {
        let i: usize = id.index();
        if i >= self.slots {
            return false;
        }
        proof {
            lemma_test(self.words@[i as int / 64], (i % 64) as u64);
        }
        self.words[i / 64] & (1u64 << ((i % 64) as u64)) != 0
    }

    /// Marks an entity live, growing to cover it if needed.
    pub fn insert(&mut self, id: EntityId)
        requires
            old(self).wf(),
            id.0 < usize::MAX,
        ensures
            final(self).wf(),
            final(self)@ == old(self)@.insert(id.0),
            final(self).space() == if id.0 < old(self).space() {
                old(self).space()
            } else {
                id.0 + 1
            },
    {
        let i: usize = id.index();
        if i >= self.slots {
            let ghost before = self.words@;
            self.slots = i + 1;
            let needed: usize = i / 64 + 1;
            while self.words.len() < needed
                invariant
                    self.slots == i + 1,
                    self.live == old(self).live,
                    before.len() <= self.words@.len() <= needed,
                    forall|k: int|
                        0 <= k < before.len() ==> #[trigger] self.words@[k] == before[k],
                    forall|k: int|
                        before.len() <= k < self.words@.len() ==> #[trigger] self.words@[k] == 0,
                decreases needed - self.words@.len(),
            {
                self.words.push(0);
            }
            proof {
                assert forall|n: int| #[trigger] bit_at(self.words@, n) == bit_at(before, n) by {
                    if 64 * before.len() <= n < 64 * self.words@.len() {
                        lemma_none((n % 64) as u64);
                    }
                }
                assert(self@ =~= old(self)@);
                assert((self.slots + 63) / 64 == needed);
            }
        }
        let w: u64 = self.words[i / 64];
        let bit: u64 = (i % 64) as u64;
        proof {
            lemma_test(w, bit);
        }
        if w & (1u64 << bit) == 0 {
            let ghost before = self.words@;
            self.words.set(i / 64, w | (1u64 << bit));
            proof {
                assert forall|n: int| #[trigger] bit_at(self.words@, n) == (bit_at(before, n) || n
                    == i) by {
                    if 0 <= n < 64 * before.len() {
                        if n / 64 == i / 64 {
                            lemma_set(w, bit, (n % 64) as u64);
                        }
                    }
                }
                assert(self@ =~= old(self)@.insert(id.0));
                assert(!old(self)@.contains(id.0)) by {
                    assert(!bit_at(before, i as int));
                }
                assert forall|n: u32| #[trigger] self@.contains(n) implies n < self.slots by {
                    assert(bit_at(self.words@, n as int));
                }
                lemma_live_bound(self@, self.slots as nat);
            }
            self.live = self.live + 1;
        } else {
            assert(self@.contains(id.0)) by {
                assert(bit_at(self.words@, i as int));
            }
            assert(self@ =~= old(self)@.insert(id.0));
        }
    }

    /// Marks an entity dead. The id is not reclaimed or reused.
    pub fn remove(&mut self, id: EntityId)
        requires
            old(self).wf(),
        ensures
            final(self).wf(),
            final(self)@ == old(self)@.remove(id.0),
            final(self).space() == old(self).space(),
    {
        let i: usize = id.index();
        if i >= self.slots {
            assert(self@ =~= old(self)@.remove(id.0));
            return;
        }
        let w: u64 = self.words[i / 64];
        let bit: u64 = (i % 64) as u64;
        proof {
            lemma_test(w, bit);
        }
        if w & (1u64 << bit) != 0 {
            let ghost before = self.words@;
            self.words.set(i / 64, w & !(1u64 << bit));
            proof {
                assert forall|n: int| #[trigger] bit_at(self.words@, n) == (bit_at(before, n) && n
                    != i) by {
                    if 0 <= n < 64 * before.len() {
                        if n / 64 == i / 64 {
                            lemma_unset(w, bit, (n % 64) as u64);
                        }
                    }
                }
                assert(self@ =~= old(self)@.remove(id.0));
                assert(old(self)@.contains(id.0)) by {
                    assert(bit_at(before, i as int));
                }
            }
            self.live = self.live - 1;
        } else {
            assert(!self@.contains(id.0)) by {
                assert(!bit_at(self.words@, i as int));
            }
            assert(self@ =~= old(self)@.remove(id.0));
        }
    }

    /// Marks every entity dead, keeping the allocation.
    pub fn clear(&mut self)
        ensures
            final(self).wf(),
            final(self)@ == Set::<u32>::empty(),
            final(self).space() == 0,
    {
        self.words.clear();
        self.slots = 0;
        self.live = 0;
        assert(self@ =~= Set::empty());
    }
}

impl Default for LiveSet {
    /// Empty.
    fn default() -> (s: LiveSet)
        ensures
            s.wf(),
            s@ == Set::<u32>::empty(),
            s.space() == 0,
    {
        LiveSet::new()
    }
}

/// No more entities are alive than there are ids below the bound.
proof fn lemma_live_bound(ids: Set<u32>, bound: nat)
    requires
        forall|n: u32| #[trigger] ids.contains(n) ==> n < bound,
    ensures
        ids.finite(),
        ids.len() <= bound,
    decreases bound,
{
    if bound == 0 {
        assert(ids =~= Set::empty());
    } else {
        let top = (bound - 1) as u32;
        let fewer = if bound - 1 <= u32::MAX {
            ids.remove(top)
        } else {
            ids
        };
        assert forall|n: u32| #[trigger] fewer.contains(n) implies n < bound - 1 by {}
        lemma_live_bound(fewer, (bound - 1) as nat);
        if ids.contains(top) && bound - 1 <= u32::MAX {
            assert(ids =~= fewer.insert(top));
        } else {
            assert(ids =~= fewer);
        }
    }
}

/// Ascending live entities from a [`LiveSet`], produced by [`LiveSet::iter`].
///
/// Holds the current word rather than re-reading it, and clears the lowest set
/// bit per step, so a dense word costs one instruction per live entity and an
/// empty one costs a single test.
#[derive(Clone, Debug)]
pub struct LiveIter<'a> {
    words: &'a [u64],
    /// Index of the word `current` came from.
    at: usize,
    /// Bits of that word not yet yielded.
    current: u64,
}

impl<'a> View for LiveIter<'a> {
    type V = Set<u32>;

    /// The ids still to come.
    closed spec fn view(&self) -> Set<u32> {
        Set::new(
            |n: u32|
                if n / 64 == self.at {
                    lit(self.current, (n % 64) as u64)
                } else {
                    n / 64 > self.at && bit_at(self.words@, n as int)
                },
        )
    }
}

impl<'a> LiveIter<'a> {
    /// Whether every id still to come is one.
    pub closed spec fn wf(&self) -> bool {
        &&& forall|b: u64|
            b < 64 && #[trigger] lit(self.current, b) ==> 64 * self.at + b <= u32::MAX
        &&& forall|n: int| #[trigger] bit_at(self.words@, n) ==> n <= u32::MAX
    }

    /// The lowest id still to come, or `None` where none is.
    pub fn next(&mut self) -> (id: Option<EntityId>)
        requires
            old(self).wf(),
        ensures
            final(self).wf(),
            match id {
                Some(id) => {
                    &&& old(self)@.contains(id.0)
                    &&& forall|n: u32| #[trigger] old(self)@.contains(n) ==> id.0 <= n
                    &&& final(self)@ == old(self)@.remove(id.0)
                },
                None => old(self)@ == Set::<u32>::empty() && final(self)@ == old(self)@,
            },
    {
        loop
            invariant
                self.wf(),
                self@ == old(self)@,
            decreases self.words@.len() - self.at,
        {
            if self.current != 0 {
                let word: u64 = self.current;
                let low: u32 = word.trailing_zeros();
                proof {
                    vstd::std_specs::bits::axiom_u64_trailing_zeros(word);
                    assert(lit(word, low as u64));
                    assert forall|j: u64| 0 <= j < low implies !lit(word, j) by {
                        assert((word >> j) & 1u64 == 0u64);
                    }
                    lemma_lowest(word, low as u64, low as u64);
                    assert(lit(self.current, low as u64));
                }
                let id: usize = self.at * 64 + low as usize;
                self.current = word & (word - 1);
                proof {
                    let was = old(self)@;
                    assert(id <= u32::MAX);
                    assert(id / 64 == self.at && id % 64 == low);
                    assert forall|n: u32| self@.contains(n) == (was.contains(n) && n != id) by {
                        if n / 64 == self.at {
                            lemma_lowest(word, low as u64, (n % 64) as u64);
                        }
                    }
                    assert(self@ =~= was.remove(id as u32));
                    assert(was.contains(id as u32));
                    assert forall|n: u32| #[trigger] was.contains(n) implies id <= n by {
                        if n / 64 == self.at && n < id {
                            assert(!lit(word, (n % 64) as u64));
                        }
                    }
                    assert forall|b: u64| b < 64 && #[trigger] lit(self.current, b) implies 64
                        * self.at + b <= u32::MAX by {
                        lemma_lowest(word, low as u64, b);
                    }
                }
                return Some(EntityId::from_raw(id as u32));
            }
            proof {
                assert forall|b: u64| b < 64 implies !lit(self.current, b) by {
                    lemma_none(b);
                }
            }
            let len: usize = self.words.len();
            if self.at >= len || len - self.at <= 1 {
                assert(self@ =~= Set::empty());
                return None;
            }
            let ghost was = self@;
            let ghost at = self.at;
            self.at = self.at + 1;
            self.current = self.words[self.at];
            proof {
                assert forall|n: u32| self@.contains(n) == was.contains(n) by {
                    assert(was.contains(n) ==> n / 64 != at);
                }
                assert(self@ =~= was);
                assert forall|b: u64| b < 64 && #[trigger] lit(self.current, b) implies 64 * self.at
                    + b <= u32::MAX by {
                    assert(bit_at(self.words@, 64 * self.at + b));
                }
            }
        }
    }
}

/// Whether a list holds exactly the ids of a set, in ascending order.
pub open spec fn lists(ids: Seq<EntityId>, set: Set<u32>) -> bool {
    &&& forall|i: int, j: int| 0 <= i < j < ids.len() ==> ids[i].0 < ids[j].0
    &&& forall|i: int| 0 <= i < ids.len() ==> set.contains((#[trigger] ids[i]).0)
    &&& forall|n: u32| #[trigger] set.contains(n) ==> ids.contains(EntityId(n))
}

impl<'a> LiveIter<'a> {
    /// Every id still to come, in ascending order.
    pub fn collect(self) -> (ids: Vec<EntityId>)
        requires
            self.wf(),
        ensures
            lists(ids@, self@),
            self@.finite() ==> ids@.len() == self@.len(),
    {
        let ghost all = self@;
        let mut it = self;
        let mut ids: Vec<EntityId> = Vec::new();
        loop
            invariant
                it.wf(),
                forall|i: int, j: int| 0 <= i < j < ids@.len() ==> ids@[i].0 < ids@[j].0,
                forall|i: int| 0 <= i < ids@.len() ==> all.contains((#[trigger] ids@[i]).0),
                forall|i: int, n: u32|
                    0 <= i < ids@.len() && #[trigger] it@.contains(n) ==> (#[trigger] ids@[i]).0
                        < n,
                forall|n: u32| #[trigger]
                    all.contains(n) ==> it@.contains(n) || ids@.contains(EntityId(n)),
                forall|n: u32| #[trigger] it@.contains(n) ==> all.contains(n),
                all.finite() ==> it@.finite() && ids@.len() + it@.len() == all.len(),
            ensures
                lists(ids@, all),
                all.finite() ==> ids@.len() == all.len(),
            decreases 0x1_0000_0000 - (if ids@.len() > 0 {
                ids@.last().0 + 1
            } else {
                0
            }),
        {
            let ghost left = it@;
            match it.next() {
                None => {
                    break;
                },
                Some(id) => {
                    let ghost before = ids@;
                    ids.push(id);
                    proof {
                        assert forall|n: u32| #[trigger] all.contains(n) implies it@.contains(n)
                            || ids@.contains(EntityId(n)) by {
                            if before.contains(EntityId(n)) {
                                let i = choose|i: int|
                                    0 <= i < before.len() && before[i] == EntityId(n);
                                assert(ids@[i] == EntityId(n));
                            }
                            if n == id.0 {
                                assert(ids@[before.len() as int] == EntityId(n));
                            }
                        }
                        assert forall|n: u32| #[trigger] it@.contains(n) implies all.contains(n)
                            && id.0 < n by {
                            assert(left.contains(n));
                        }
                        if before.len() > 0 {
                            assert(before[before.len() - 1].0 < id.0);
                        }
                    }
                },
            }
        }
        ids
    }
}

/// Which entities are alive, readable while their positions are held.
///
/// A sweep over the position arrays has to skip whatever is no longer there,
/// so the test comes back alongside them rather than having to be recorded
/// first.
#[derive(Clone, Copy, Debug)]
pub struct Live<'a> {
    set: &'a LiveSet,
}

impl<'a> View for Live<'a> {
    type V = Set<u32>;

    closed spec fn view(&self) -> Set<u32> {
        self.set@
    }
}

impl<'a> Live<'a> {
    /// Whether the set behind this is a well-formed one.
    pub closed spec fn wf(&self) -> bool {
        self.set.wf()
    }

    /// A reading of a set.
    pub fn new(set: &'a LiveSet) -> (l: Live<'a>)
        requires
            set.wf(),
        ensures
            l.wf(),
            l@ == set@,
    {
        Live { set }
    }

    /// Whether that entity is alive. A despawned id is not.
    pub fn contains(&self, id: EntityId) -> (b: bool)
        requires
            self.wf(),
        ensures
            b == self@.contains(id.0),
    {
        self.set.contains(id)
    }

    /// Every live entity, in ascending id order.
    pub fn iter(&self) -> (it: LiveIter<'a>)
        requires
            self.wf(),
        ensures
            it.wf(),
            it@ == self@,
    {
        self.set.iter()
    }

    /// How many entities are alive.
    pub fn count(&self) -> (n: usize)
        requires
            self.wf(),
        ensures
            n == self@.len(),
    {
        self.set.live()
    }
}

/// An entity observes unless nothing is behind it, and its role is written as
/// nought, one or two.
pub proof fn law_a_role_is_one_of_three(kind: EntityKind)
    ensures
        kind.is_observing() <==> kind.role is Observer || kind.role is Shadow,
        kind.role_byte() == 0 <==> kind.role is Unattended,
        kind.role_byte() == 1 <==> kind.role is Observer,
        kind.role_byte() == 2 <==> kind.role is Shadow,
{
}

} // verus!
