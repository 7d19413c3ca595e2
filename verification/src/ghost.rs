//! Per-viewer ghost records.
//!
//! [`GhostTable`] holds what one client has been told about each entity: the
//! odometer reading at the last send, and the tick the entity was last a
//! candidate. Priority scoring differences the stored mark against the entity's
//! current reading to get how far that client's copy has drifted.
//!
//! An entity with no entry is one the client does not know exists. Being a
//! candidate does not create an entry; only being sent does.

use vstd::arithmetic::power2::*;
use vstd::prelude::*;

use crate::entity::EntityId;
use crate::num;

verus! {

/// Reserved as the empty-slot marker. No entity may carry this id.
const EMPTY: u32 = u32::MAX;

/// Smallest allocated table, in slots. Power of two.
const MIN_SLOTS: usize = 16;

/// What one client has been told about one entity.
#[derive(Clone, Copy, Debug, PartialEq, Eq, Structural)]
pub struct Record {
    id: u32,
    /// Odometer reading when this entity was last sent to this client.
    mark: u32,
    /// Tick this entity was last a candidate for this client.
    last_seen: u32,
}

/// What one client has been told about one entity.
pub struct Told {
    /// The odometer reading at the last send.
    pub mark: u32,
    /// The tick the entity was last a candidate.
    pub last_seen: u32,
}

/// What one client holds, and how much room is kept for it.
#[verifier::ext_equal]
pub struct Known {
    /// By entity.
    pub ghosts: Map<u32, Told>,
    /// Slots allocated.
    pub slots: nat,
}

/// How many slots hold `needed`, doubling from `from`.
pub open spec fn room(from: nat, needed: nat) -> nat
    decreases
        (if from < needed {
            needed - from
        } else {
            0
        }),
{
    if from == 0 || from >= needed {
        from
    } else {
        room(2 * from, needed)
    }
}

/// Whether a ghost has gone too long without being a candidate.
pub open spec fn stale(told: Told, tick: u32, grace: u32) -> bool {
    (tick - told.last_seen) % 0x1_0000_0000 > grace
}

impl Known {
    /// Slots there will be once one more is told.
    pub open spec fn roomier(self) -> nat {
        let needed = (self.ghosts.len() + 1) * 2;
        if self.slots >= needed {
            self.slots
        } else if self.slots < 16 {
            room(16, needed)
        } else {
            room(self.slots, needed)
        }
    }

    /// With one entity sent.
    pub open spec fn told(self, id: u32, mark: u32, tick: u32) -> Known {
        Known {
            ghosts: self.ghosts.insert(id, Told { mark, last_seen: tick }),
            slots: self.roomier(),
        }
    }

    /// With one entity a candidate.
    pub open spec fn noticed(self, id: u32, tick: u32) -> Known {
        if self.ghosts.contains_key(id) {
            Known {
                ghosts: self.ghosts.insert(
                    id,
                    Told { mark: self.ghosts[id].mark, last_seen: tick },
                ),
                ..self
            }
        } else {
            self
        }
    }

    /// Without what has gone too long without being a candidate.
    pub open spec fn current(self, tick: u32, grace: u32) -> Known {
        Known {
            ghosts: self.ghosts.restrict(
                Set::new(
                    |id: u32|
                        self.ghosts.contains_key(id) && !stale(self.ghosts[id], tick, grace),
                ),
            ),
            ..self
        }
    }
}

// ---------------------------------------------------------------------------
// The table's layout
// ---------------------------------------------------------------------------

/// Whether a table may have so many slots.
spec fn sized(n: int) -> bool {
    &&& num::is_power_of_two(n)
    &&& 16 <= n <= 0x1_0000_0000
}

/// Where an id wants to live: a Fibonacci hash. The high bits of a
/// multiplicative hash are the mixed ones, so they are the ones kept.
spec fn home(id: u32, n: int) -> int {
    (id * 0x9E37_79B1) % 0x1_0000_0000 / (0x1_0000_0000int / n)
}

/// How far round from one slot another is.
spec fn dist(n: int, a: int, b: int) -> int {
    if b >= a {
        b - a
    } else {
        b - a + n
    }
}

spec fn occupied(g: Record) -> bool {
    g.id != EMPTY
}

/// Whether a slot is passed on the way from an id's home to where it is.
spec fn passed(n: int, id: u32, p: int, i: int) -> bool {
    dist(n, home(id, n), p) < dist(n, home(id, n), i)
}

/// Whether no id is in two slots.
spec fn distinct(s: Seq<Record>) -> bool {
    forall|i: int, j: int|
        0 <= i < s.len() && 0 <= j < s.len() && i != j && occupied(#[trigger] s[i]) && occupied(
            #[trigger] s[j],
        ) ==> s[i].id != s[j].id
}

/// Whether every ghost is found by walking from its home until a vacant slot.
spec fn reachable(s: Seq<Record>) -> bool {
    forall|i: int, p: int|
        0 <= i < s.len() && 0 <= p < s.len() && occupied(#[trigger] s[i]) && passed(
            s.len() as int,
            s[i].id,
            p,
            i,
        ) ==> occupied(#[trigger] s[p])
}

/// How many slots are occupied.
spec fn count(s: Seq<Record>) -> nat
    decreases s.len(),
{
    if s.len() == 0 {
        0
    } else {
        count(s.drop_last()) + if occupied(s.last()) {
            1nat
        } else {
            0
        }
    }
}

/// Whether an id is in some slot.
spec fn listed(s: Seq<Record>, id: u32) -> bool {
    id != EMPTY && exists|i: int| 0 <= i < s.len() && (#[trigger] s[i]).id == id
}

/// Where an id is.
spec fn place(s: Seq<Record>, id: u32) -> int {
    choose|i: int| 0 <= i < s.len() && (#[trigger] s[i]).id == id
}

spec fn told_in(g: Record) -> Told {
    Told { mark: g.mark, last_seen: g.last_seen }
}

/// What the slots hold.
spec fn contents(s: Seq<Record>) -> Map<u32, Told> {
    Map::new(|id: u32| listed(s, id), |id: u32| told_in(s[place(s, id)]))
}

/// An occupied slot's ghost is what the contents say.
proof fn lemma_at(s: Seq<Record>, i: int)
    requires
        distinct(s),
        0 <= i < s.len(),
        occupied(s[i]),
    ensures
        contents(s).contains_key(s[i].id),
        contents(s)[s[i].id] == told_in(s[i]),
{
    let id = s[i].id;
    assert(listed(s, id));
    let j = place(s, id);
    assert(0 <= j < s.len() && s[j].id == id);
    if i != j {
        assert(s[i].id != s[j].id);
    }
}

/// Slots that list the same ghosts hold the same.
proof fn lemma_same_contents(s: Seq<Record>, t: Seq<Record>)
    requires
        distinct(s),
        distinct(t),
        forall|i: int|
            0 <= i < s.len() && occupied(#[trigger] s[i]) ==> exists|j: int|
                0 <= j < t.len() && #[trigger] t[j] == s[i],
        forall|j: int|
            0 <= j < t.len() && occupied(#[trigger] t[j]) ==> exists|i: int|
                0 <= i < s.len() && #[trigger] s[i] == t[j],
    ensures
        contents(s) == contents(t),
{
    assert forall|id: u32| listed(s, id) == listed(t, id) by {
        if listed(s, id) {
            let i = place(s, id);
            let j = choose|j: int| 0 <= j < t.len() && #[trigger] t[j] == s[i];
            assert(t[j].id == id);
        }
        if listed(t, id) {
            let j = place(t, id);
            let i = choose|i: int| 0 <= i < s.len() && #[trigger] s[i] == t[j];
            assert(s[i].id == id);
        }
    }
    assert forall|id: u32| listed(s, id) implies contents(s)[id] == contents(t)[id] by {
        let i = place(s, id);
        let j = choose|j: int| 0 <= j < t.len() && #[trigger] t[j] == s[i];
        lemma_at(s, i);
        lemma_at(t, j);
    }
    assert(contents(s) =~= contents(t));
}

/// Replacing one slot changes the count by what it held.
proof fn lemma_count_update(s: Seq<Record>, i: int, g: Record)
    requires
        0 <= i < s.len(),
    ensures
        count(s.update(i, g)) + (if occupied(s[i]) {
            1int
        } else {
            0
        }) == count(s) + (if occupied(g) {
            1int
        } else {
            0
        }),
    decreases s.len(),
{
    if i < s.len() - 1 {
        lemma_count_update(s.drop_last(), i, g);
        assert(s.update(i, g).drop_last() =~= s.drop_last().update(i, g));
        assert(s.drop_last()[i] == s[i]);
    } else {
        assert(s.update(i, g).drop_last() =~= s.drop_last());
    }
}

/// A table that is not full has a vacant slot.
proof fn lemma_vacancy(s: Seq<Record>) -> (q: int)
    requires
        count(s) < s.len(),
    ensures
        0 <= q < s.len(),
        !occupied(s[q]),
    decreases s.len(),
{
    if occupied(s.last()) {
        let q = lemma_vacancy(s.drop_last());
        assert(s.drop_last()[q] == s[q]);
        q
    } else {
        s.len() - 1
    }
}

/// No more slots are occupied than there are.
proof fn lemma_count_bound(s: Seq<Record>)
    ensures
        count(s) <= s.len(),
    decreases s.len(),
{
    if s.len() > 0 {
        lemma_count_bound(s.drop_last());
    }
}

/// What is held is as many as the slots occupied.
proof fn lemma_contents_len(s: Seq<Record>)
    requires
        distinct(s),
    ensures
        contents(s).dom().finite(),
        contents(s).len() == count(s),
    decreases s.len(),
{
    if s.len() == 0 {
        assert(contents(s).dom() =~= Set::empty());
    } else {
        let front = s.drop_last();
        assert forall|i: int, j: int|
            0 <= i < front.len() && 0 <= j < front.len() && i != j && occupied(
                #[trigger] front[i],
            ) && occupied(#[trigger] front[j]) implies front[i].id != front[j].id by {
            assert(front[i] == s[i] && front[j] == s[j]);
        }
        lemma_contents_len(front);
        let g = s.last();
        assert forall|id: u32|
            contents(s).dom().contains(id) == if occupied(g) {
                contents(front).dom().insert(g.id).contains(id)
            } else {
                contents(front).dom().contains(id)
            } by {
            if listed(s, id) {
                let i = place(s, id);
                if i < front.len() {
                    assert(front[i].id == id);
                }
            }
            if listed(front, id) {
                let i = place(front, id);
                assert(s[i].id == id);
            }
            if occupied(g) && id == g.id {
                assert(s[s.len() - 1].id == id);
            }
        }
        if occupied(g) {
            assert(contents(s).dom() =~= contents(front).dom().insert(g.id));
            assert(!contents(front).dom().contains(g.id)) by {
                if listed(front, g.id) {
                    let i = place(front, g.id);
                    assert(s[i].id == s[s.len() - 1].id);
                }
            }
        } else {
            assert(contents(s).dom() =~= contents(front).dom());
        }
    }
}

/// A home is a slot.
proof fn lemma_home(id: u32, n: int)
    requires
        sized(n),
    ensures
        0 <= home(id, n) < n,
        0x1_0000_0000int / n > 0,
{
    let k = num::floor_log2(n as nat);
    lemma2_to64();
    lemma2_to64_rest();
    num::lemma_pow2_ordered(32, k);
    if k > 32 {
        lemma_pow2_strictly_increases(32, k);
    }
    num::lemma_pow2_divides(k, 32);
    let x = (id * 0x9E37_79B1) % 0x1_0000_0000;
    let w = 0x1_0000_0000int / n;
    vstd::arithmetic::div_mod::lemma_fundamental_div_mod(0x1_0000_0000, n);
    assert(w > 0) by (nonlinear_arith)
        requires
            w == 0x1_0000_0000int / n,
            0 < n <= 0x1_0000_0000,
    ;
    assert(0 <= x / w < n) by (nonlinear_arith)
        requires
            0 <= x < 0x1_0000_0000,
            n * w == 0x1_0000_0000,
            w > 0,
    ;
}

/// Where an id wants to live.
fn home_of(id: u32, n: usize) -> (h: usize)
    requires
        sized(n as int),
    ensures
        h == home(id, n as int),
        h < n,
{
    proof {
        lemma_home(id, n as int);
        assert(id * 0x9E37_79B1 <= 0xffff_ffff * 0x9E37_79B1) by (nonlinear_arith)
            requires
                id <= 0xffff_ffff,
        ;
    }
    let mixed: u64 = (id as u64 * 0x9E37_79B1) % 0x1_0000_0000;
    (mixed / (0x1_0000_0000 / n as u64)) as usize
}

/// The slot after one, going round.
fn after(i: usize, n: usize) -> (j: usize)
    requires
        i < n,
    ensures
        j < n,
        j == if i + 1 == n {
            0
        } else {
            i + 1
        },
{
    if i + 1 == n {
        0
    } else {
        i + 1
    }
}

/// A slot nothing is in.
fn vacant() -> (g: Record)
    ensures
        g.id == EMPTY,
{
    Record { id: EMPTY, mark: 0, last_seen: 0 }
}

/// Whether the slots are laid out as a table: nothing twice, everything found,
/// and never more than half of them taken.
spec fn laid_out(s: Seq<Record>) -> bool {
    &&& s.len() == 0 || sized(s.len() as int)
    &&& distinct(s)
    &&& reachable(s)
    &&& 2 * count(s) <= s.len()
}

/// Ghost records for one viewer, keyed by entity id.
///
/// Open addressing with linear probing, power-of-two slot count, held at or
/// below half full. Computed: 12 bytes per slot, so 24 bytes per ghost.
///
/// The hash is fixed rather than seeded, so a replay reconstructs identical
/// probe orders. Entity ids are server-assigned.
///
/// One of these belongs to each viewer, and viewers are partitioned across
/// threads. Whatever owns them is responsible for keeping two viewers' tables
/// off one cache line.
#[derive(Debug, Clone)]
pub struct GhostTable {
    slots: Vec<Record>,
    len: usize,
}

impl View for GhostTable {
    type V = Known;

    closed spec fn view(&self) -> Known {
        Known { ghosts: contents(self.slots@), slots: self.slots@.len() }
    }
}

/// Walks from an id's home: `Ok` at the entry, `Err` at the vacant slot it
/// would occupy.
///
/// Ends because there is a vacant slot.
fn find(slots: &Vec<Record>, id: u32) -> (r: Result<usize, usize>)
    requires
        sized(slots@.len() as int),
        reachable(slots@),
        count(slots@) < slots@.len(),
        id != EMPTY,
    ensures
        match r {
            Ok(i) => i < slots@.len() && slots@[i as int].id == id,
            Err(i) => {
                &&& i < slots@.len()
                &&& !occupied(slots@[i as int])
                &&& !listed(slots@, id)
                &&& forall|p: int|
                    0 <= p < slots@.len() && passed(slots@.len() as int, id, p, i as int)
                        ==> occupied(#[trigger] slots@[p])
            },
        },
{
    let n: usize = slots.len();
    let h: usize = home_of(id, n);
    let mut i: usize = h;
    let ghost q = lemma_vacancy(slots@);
    loop
        invariant
            n == slots@.len(),
            sized(n as int),
            reachable(slots@),
            id != EMPTY,
            i < n,
            h < n,
            h == home(id, n as int),
            0 <= q < n,
            !occupied(slots@[q]),
            forall|p: int|
                0 <= p < n && dist(n as int, h as int, p) < dist(n as int, h as int, i as int)
                    ==> occupied(#[trigger] slots@[p]) && slots@[p].id != id,
        decreases n - dist(n as int, h as int, i as int),
    {
        let e: u32 = slots[i].id;
        if e == id {
            return Ok(i);
        }
        if e == EMPTY {
            proof {
                if listed(slots@, id) {
                    let j = place(slots@, id);
                    assert(slots@[j].id == id);
                    // Walking to it would have passed this vacant slot.
                    assert(passed(n as int, id, i as int, j));
                    assert(occupied(slots@[i as int]));
                }
            }
            return Err(i);
        }
        proof {
            assert(i != q);
        }
        i = after(i, n);
        proof {
            if i == h {
                assert(occupied(slots@[q]));
            }
        }
    }
}

/// Putting a new id in the vacant slot its walk ends at keeps the layout.
proof fn lemma_put(s: Seq<Record>, i: int, g: Record)
    requires
        distinct(s),
        reachable(s),
        0 <= i < s.len(),
        !occupied(s[i]),
        occupied(g),
        !listed(s, g.id),
        forall|p: int|
            0 <= p < s.len() && passed(s.len() as int, g.id, p, i) ==> occupied(#[trigger] s[p]),
    ensures
        distinct(s.update(i, g)),
        reachable(s.update(i, g)),
        count(s.update(i, g)) == count(s) + 1,
        contents(s.update(i, g)) == contents(s).insert(g.id, told_in(g)),
{
    let t = s.update(i, g);
    let n = s.len() as int;
    lemma_count_update(s, i, g);
    assert forall|a: int, b: int|
        0 <= a < t.len() && 0 <= b < t.len() && a != b && occupied(#[trigger] t[a]) && occupied(
            #[trigger] t[b],
        ) implies t[a].id != t[b].id by {
        if a == i {
            assert(t[b] == s[b]);
        } else if b == i {
            assert(t[a] == s[a]);
        } else {
            assert(t[a] == s[a] && t[b] == s[b]);
        }
    }
    assert forall|a: int, p: int|
        0 <= a < t.len() && 0 <= p < t.len() && occupied(#[trigger] t[a]) && passed(
            n,
            t[a].id,
            p,
            a,
        ) implies occupied(#[trigger] t[p]) by {
        if p != i {
            assert(t[p] == s[p]);
            if a != i {
                assert(t[a] == s[a]);
            }
        }
    }
    assert forall|id: u32|
        listed(t, id) == (listed(s, id) || id == g.id) && (listed(t, id) ==> contents(t)[id]
            == if id == g.id {
            told_in(g)
        } else {
            contents(s)[id]
        }) by {
        if id == g.id {
            assert(t[i].id == id);
            lemma_at(t, i);
        } else {
            if listed(s, id) {
                let j = place(s, id);
                assert(s[j].id == id);
                assert(t[j] == s[j]);
                lemma_at(s, j);
                lemma_at(t, j);
            }
            if listed(t, id) {
                let j = place(t, id);
                assert(t[j].id == id);
                assert(s[j] == t[j]);
            }
        }
    }
    assert(contents(t) =~= contents(s).insert(g.id, told_in(g)));
}

/// Changing what is said of an id where it stands keeps the layout.
proof fn lemma_set(s: Seq<Record>, i: int, g: Record)
    requires
        distinct(s),
        reachable(s),
        0 <= i < s.len(),
        occupied(s[i]),
        g.id == s[i].id,
    ensures
        distinct(s.update(i, g)),
        reachable(s.update(i, g)),
        count(s.update(i, g)) == count(s),
        contents(s.update(i, g)) == contents(s).insert(g.id, told_in(g)),
{
    let t = s.update(i, g);
    lemma_count_update(s, i, g);
    assert forall|a: int| 0 <= a < s.len() implies (#[trigger] t[a]).id == s[a].id by {}
    assert forall|a: int, b: int|
        0 <= a < t.len() && 0 <= b < t.len() && a != b && occupied(#[trigger] t[a]) && occupied(
            #[trigger] t[b],
        ) implies t[a].id != t[b].id by {
        assert(t[a].id == s[a].id && t[b].id == s[b].id);
    }
    assert forall|a: int, p: int|
        0 <= a < t.len() && 0 <= p < t.len() && occupied(#[trigger] t[a]) && passed(
            t.len() as int,
            t[a].id,
            p,
            a,
        ) implies occupied(#[trigger] t[p]) by {
        assert(t[a].id == s[a].id && t[p].id == s[p].id);
    }
    assert forall|id: u32|
        listed(t, id) == listed(s, id) && (listed(t, id) ==> contents(t)[id] == if id == g.id {
            told_in(g)
        } else {
            contents(s)[id]
        }) by {
        if listed(s, id) {
            let j = place(s, id);
            assert(t[j].id == s[j].id);
            lemma_at(s, j);
            lemma_at(t, j);
            if id == g.id {
                lemma_at(t, i);
            }
        }
        if listed(t, id) {
            let j = place(t, id);
            assert(t[j].id == s[j].id);
        }
    }
    lemma_at(s, i);
    assert(contents(t) =~= contents(s).insert(g.id, told_in(g)));
}

/// So many vacant slots.
fn blank(n: usize) -> (slots: Vec<Record>)
    ensures
        slots@.len() == n,
        forall|i: int| 0 <= i < n ==> !occupied(#[trigger] slots@[i]),
{
    let mut slots: Vec<Record> = Vec::with_capacity(n);
    while slots.len() < n
        invariant
            slots@.len() <= n,
            forall|i: int| 0 <= i < slots@.len() ==> !occupied(#[trigger] slots@[i]),
        decreases n - slots@.len(),
    {
        slots.push(vacant());
    }
    slots
}

/// Vacant slots hold nothing.
proof fn lemma_blank(s: Seq<Record>)
    requires
        forall|i: int| 0 <= i < s.len() ==> !occupied(#[trigger] s[i]),
    ensures
        distinct(s),
        reachable(s),
        count(s) == 0,
        contents(s) == Map::<u32, Told>::empty(),
    decreases s.len(),
{
    if s.len() > 0 {
        assert forall|i: int| 0 <= i < s.drop_last().len() implies !occupied(
            #[trigger] s.drop_last()[i],
        ) by {
            assert(s.drop_last()[i] == s[i]);
        }
        lemma_blank(s.drop_last());
        assert(!occupied(s[s.len() - 1]));
    }
    assert forall|id: u32| !listed(s, id) by {
        if listed(s, id) {
            let i = place(s, id);
            assert(s[i].id == id);
            assert(occupied(s[i]));
        }
    }
    assert(contents(s) =~= Map::<u32, Told>::empty());
}

/// Doubling ends at a power of two no smaller than what it started from.
proof fn lemma_room(from: nat, needed: nat)
    requires
        num::is_power_of_two(from as int),
    ensures
        num::is_power_of_two(room(from, needed) as int),
        from <= room(from, needed),
        needed <= room(from, needed),
    decreases
        (if from < needed {
            needed - from
        } else {
            0
        }),
{
    if from < needed {
        let k = num::floor_log2(from);
        lemma_pow2_unfold(k + 1);
        num::lemma_log2_of_pow2(k + 1);
        lemma_room(2 * from, needed);
    }
}

/// Doubles until there is room.
fn widen(from: usize, needed: usize) -> (cap: usize)
    requires
        num::is_power_of_two(from as int),
        room(from as nat, needed as nat) <= usize::MAX,
    ensures
        cap == room(from as nat, needed as nat),
{
    let mut cap: usize = from;
    while cap < needed
        invariant
            num::is_power_of_two(cap as int),
            room(cap as nat, needed as nat) == room(from as nat, needed as nat),
            room(from as nat, needed as nat) <= usize::MAX,
        decreases usize::MAX - cap,
    {
        proof {
            let k = num::floor_log2(cap as nat);
            lemma_pow2_unfold(k + 1);
            num::lemma_log2_of_pow2(k + 1);
            lemma_room((2 * cap) as nat, needed as nat);
        }
        cap = cap * 2;
    }
    cap
}

impl GhostTable {
    /// Whether the slots are laid out as a table and counted right.
    pub closed spec fn wf(&self) -> bool {
        &&& laid_out(self.slots@)
        &&& self.len == count(self.slots@)
    }

    /// What a table holds is finite, and never more than half its slots.
    pub proof fn law_never_more_than_half_full(&self)
        requires
            self.wf(),
        ensures
            self@.ghosts.dom().finite(),
            2 * self@.ghosts.len() <= self@.slots,
            !self@.ghosts.contains_key(u32::MAX),
    {
        lemma_contents_len(self.slots@);
    }

    /// Empty. One viewer holds one of these.
    pub fn new() -> (t: GhostTable)
        ensures
            t.wf(),
            t@ == (Known { ghosts: Map::empty(), slots: 0 }),
    {
        let t = GhostTable { slots: Vec::new(), len: 0 };
        proof {
            lemma_blank(t.slots@);
        }
        t
    }

    /// Sized to hold `ghosts` without growing.
    pub fn with_capacity(ghosts: usize) -> (t: GhostTable)
        requires
            ghosts * 2 <= usize::MAX,
            room(16, (ghosts * 2) as nat) <= usize::MAX,
            room(16, (ghosts * 2) as nat) <= 0x1_0000_0000,
        ensures
            t.wf(),
            t@ == (Known {
                ghosts: Map::empty(),
                slots: if ghosts == 0 {
                    0
                } else {
                    room(16, (ghosts * 2) as nat)
                },
            }),
    {
        if ghosts == 0 {
            return GhostTable::new();
        }
        proof {
            lemma2_to64();
            num::lemma_log2_of_pow2(4);
            lemma_room(16, (ghosts * 2) as nat);
        }
        let cap: usize = widen(MIN_SLOTS, ghosts * 2);
        let t = GhostTable { slots: blank(cap), len: 0 };
        proof {
            lemma_blank(t.slots@);
        }
        t
    }

    /// How many ghosts this client holds.
    pub fn len(&self) -> (n: usize)
        requires
            self.wf(),
        ensures
            n == self@.ghosts.len(),
    {
        proof {
            lemma_contents_len(self.slots@);
        }
        self.len
    }

    /// Whether this client is believed to hold nothing.
    pub fn is_empty(&self) -> (b: bool)
        requires
            self.wf(),
        ensures
            b == (self@.ghosts.len() == 0),
    {
        proof {
            lemma_contents_len(self.slots@);
        }
        self.len == 0
    }

    /// Ghosts this table holds before it grows.
    pub fn capacity(&self) -> (n: usize)
        ensures
            n == self@.slots / 2,
    {
        self.slots.len() / 2
    }

    /// Allocated slots. Twice [`capacity`](Self::capacity).
    pub fn slots(&self) -> (n: usize)
        ensures
            n == self@.slots,
    {
        self.slots.len()
    }

    /// The mark for `id`, or `None` if the client holds no ghost of it.
    pub fn mark(&self, id: EntityId) -> (m: Option<u32>)
        requires
            self.wf(),
        ensures
            m == if self@.ghosts.contains_key(id.0) {
                Some(self@.ghosts[id.0].mark)
            } else {
                None
            },
    {
        if self.slots.len() == 0 || id.raw() == EMPTY {
            return None;
        }
        match find(&self.slots, id.raw()) {
            Ok(i) => {
                proof {
                    lemma_at(self.slots@, i as int);
                }
                Some(self.slots[i].mark)
            },
            Err(_) => None,
        }
    }

    /// Records that `id` is a candidate on `tick`, and returns its mark if the
    /// client holds a ghost of it.
    ///
    /// `None` means the client does not know this entity exists. This does not
    /// create a ghost: a candidate that never wins a slot never becomes one.
    pub fn seen(&mut self, id: EntityId, tick: u32) -> (m: Option<u32>)
        requires
            old(self).wf(),
        ensures
            final(self).wf(),
            m == if old(self)@.ghosts.contains_key(id.0) {
                Some(old(self)@.ghosts[id.0].mark)
            } else {
                None
            },
            final(self)@ == old(self)@.noticed(id.0, tick),
    {
        if self.slots.len() == 0 || id.raw() == EMPTY {
            return None;
        }
        match find(&self.slots, id.raw()) {
            Ok(i) => {
                let mark: u32 = self.slots[i].mark;
                let g = Record { id: id.raw(), mark, last_seen: tick };
                proof {
                    lemma_at(self.slots@, i as int);
                    lemma_set(self.slots@, i as int, g);
                }
                self.slots.set(i, g);
                assert(self@ =~= old(self)@.noticed(id.0, tick));
                Some(mark)
            },
            Err(_) => None,
        }
    }

    /// Records that `id` was sent on `tick` at odometer reading `mark`,
    /// creating the ghost if the client did not have one.
    ///
    /// The mark advances on send rather than on acknowledgment, so a lost
    /// packet leaves this client's copy of a since-idle entity permanently
    /// wrong.
    ///
    /// Allocates only while growing.
    pub fn sent(&mut self, id: EntityId, mark: u32, tick: u32)
        requires
            old(self).wf(),
            id.0 != u32::MAX,
            old(self)@.roomier() <= usize::MAX,
            old(self)@.roomier() <= 0x1_0000_0000,
        ensures
            final(self).wf(),
            final(self)@ == old(self)@.told(id.0, mark, tick),
    {
        self.reserve_one();
        let g = Record { id: id.raw(), mark, last_seen: tick };
        match find(&self.slots, id.raw()) {
            Ok(i) => {
                proof {
                    lemma_set(self.slots@, i as int, g);
                }
                self.slots.set(i, g);
            },
            Err(i) => {
                proof {
                    lemma_put(self.slots@, i as int, g);
                }
                self.slots.set(i, g);
                self.len = self.len + 1;
            },
        }
        assert(self@ =~= old(self)@.told(id.0, mark, tick));
    }

    /// Forgets everything, as if the client had just arrived.
    pub fn clear(&mut self)
        requires
            old(self).wf(),
        ensures
            final(self).wf(),
            final(self)@ == (Known { ghosts: Map::empty(), ..old(self)@ }),
    {
        let mut i: usize = 0;
        while i < self.slots.len()
            invariant
                i <= self.slots@.len(),
                self.slots@.len() == old(self).slots@.len(),
                forall|j: int| 0 <= j < i ==> !occupied(#[trigger] self.slots@[j]),
            decreases self.slots@.len() - i,
        {
            self.slots.set(i, vacant());
            i = i + 1;
        }
        self.len = 0;
        proof {
            lemma_blank(self.slots@);
        }
    }

    /// Makes room for one more.
    fn reserve_one(&mut self)
        requires
            old(self).wf(),
            old(self)@.roomier() <= usize::MAX,
            old(self)@.roomier() <= 0x1_0000_0000,
        ensures
            final(self).wf(),
            final(self)@ == (Known { slots: old(self)@.roomier(), ..old(self)@ }),
            2 * (final(self).len + 1) <= final(self).slots@.len(),
            sized(final(self).slots@.len() as int),
    {
        proof {
            lemma_contents_len(self.slots@);
            lemma2_to64();
            num::lemma_log2_of_pow2(4);
            let needed = (self.len + 1) * 2;
            lemma_room(16, needed as nat);
            if self.slots@.len() > 0 {
                lemma_room(self.slots@.len(), needed as nat);
            }
        }
        let needed: usize = (self.len + 1) * 2;
        if self.slots.len() >= needed {
            return;
        }
        let from: usize = if self.slots.len() < MIN_SLOTS {
            MIN_SLOTS
        } else {
            self.slots.len()
        };
        let cap: usize = widen(from, needed);
        self.rehash(cap);
    }

    /// Moves every ghost to a table of another size.
    fn rehash(&mut self, cap: usize)
        requires
            old(self).wf(),
            sized(cap as int),
            2 * old(self).len <= cap,
        ensures
            final(self).wf(),
            final(self)@ == (Known { slots: cap as nat, ..old(self)@ }),
            final(self).len == old(self).len,
    {
        let mut fresh = blank(cap);
        let ghost s = self.slots@;
        proof {
            lemma_blank(fresh@);
            assert(s.take(0) =~= Seq::empty());
            lemma_blank(s.take(0));
        }
        let mut k: usize = 0;
        while k < self.slots.len()
            invariant
                k <= self.slots@.len(),
                s == self.slots@,
                distinct(s),
                sized(cap as int),
                fresh@.len() == cap,
                distinct(fresh@),
                reachable(fresh@),
                count(fresh@) == count(s.take(k as int)),
                contents(fresh@) == contents(s.take(k as int)),
                2 * count(s) <= cap,
            decreases self.slots@.len() - k,
        {
            let g = self.slots[k];
            proof {
                let more = s.take(k + 1);
                assert(more.drop_last() =~= s.take(k as int));
                lemma_count_prefix(s, k + 1);
                lemma_prefix_distinct(s, k as int);
                lemma_prefix_distinct(s, k + 1);
                lemma_grow(s, k as int);
            }
            if g.id != EMPTY {
                match find(&fresh, g.id) {
                    Ok(i) => {
                        proof {
                            assert(listed(fresh@, g.id));
                            assert(contents(fresh@).contains_key(g.id));
                            let j = place(s.take(k as int), g.id);
                            assert(s[j].id == s[k as int].id);
                        }
                    },
                    Err(i) => {
                        proof {
                            lemma_put(fresh@, i as int, g);
                        }
                        fresh.set(i, g);
                    },
                }
            }
            k = k + 1;
        }
        assert(s.take(k as int) =~= s);
        self.slots = fresh;
    }
}

/// A prefix has no more occupied slots than the whole.
proof fn lemma_count_prefix(s: Seq<Record>, k: int)
    requires
        0 <= k <= s.len(),
    ensures
        count(s.take(k)) <= count(s),
    decreases s.len() - k,
{
    if k < s.len() {
        assert(s.take(k + 1).drop_last() =~= s.take(k));
        lemma_count_prefix(s, k + 1);
    } else {
        assert(s.take(k) =~= s);
    }
}

/// A prefix has nothing twice either.
proof fn lemma_prefix_distinct(s: Seq<Record>, k: int)
    requires
        distinct(s),
        0 <= k <= s.len(),
    ensures
        distinct(s.take(k)),
{
    let t = s.take(k);
    assert forall|a: int, b: int|
        0 <= a < t.len() && 0 <= b < t.len() && a != b && occupied(#[trigger] t[a]) && occupied(
            #[trigger] t[b],
        ) implies t[a].id != t[b].id by {
        assert(t[a] == s[a] && t[b] == s[b]);
    }
}

/// One slot more holds what was held and what is in it.
proof fn lemma_grow(s: Seq<Record>, k: int)
    requires
        distinct(s),
        0 <= k < s.len(),
    ensures
        contents(s.take(k + 1)) == if occupied(s[k]) {
            contents(s.take(k)).insert(s[k].id, told_in(s[k]))
        } else {
            contents(s.take(k))
        },
        occupied(s[k]) ==> !contents(s.take(k)).contains_key(s[k].id),
{
    let (t, u) = (s.take(k), s.take(k + 1));
    let g = s[k];
    lemma_prefix_distinct(s, k);
    lemma_prefix_distinct(s, k + 1);
    if occupied(g) && listed(t, g.id) {
        let j = place(t, g.id);
        assert(s[j].id == s[k].id);
    }
    assert forall|id: u32|
        listed(u, id) == (listed(t, id) || occupied(g) && id == g.id) && (listed(u, id)
            ==> contents(u)[id] == if occupied(g) && id == g.id {
            told_in(g)
        } else {
            contents(t)[id]
        }) by {
        if listed(t, id) {
            let j = place(t, id);
            assert(u[j] == t[j]);
            assert(u[j].id == id);
            lemma_at(t, j);
            lemma_at(u, j);
        }
        if listed(u, id) {
            let j = place(u, id);
            if j < k {
                assert(t[j] == u[j]);
            }
        }
        if occupied(g) && id == g.id {
            assert(u[k].id == id);
            lemma_at(u, k);
        }
    }
    if occupied(g) {
        assert(contents(u) =~= contents(t).insert(g.id, told_in(g)));
    } else {
        assert(contents(u) =~= contents(t));
    }
}

// ---------------------------------------------------------------------------
// Taking a ghost out
// ---------------------------------------------------------------------------

/// Whether a slot's ghost came from one no nearer to where the taking began.
spec fn came_forward(was: Seq<Record>, s: Seq<Record>, at: int) -> bool {
    forall|p: int|
        0 <= p < s.len() && occupied(#[trigger] s[p]) ==> exists|q: int|
            0 <= q < was.len() && q != at && #[trigger] was[q] == s[p] && dist(
                was.len() as int,
                at,
                p,
            ) <= dist(was.len() as int, at, q)
}

/// Whether every ghost is found by walking from its home, but for those past
/// `j`, whose walk may cross the hole.
spec fn nearly_reachable(s: Seq<Record>, hole: int, j: int) -> bool {
    let n = s.len() as int;
    forall|i: int, p: int|
        0 <= i < n && 0 <= p < n && occupied(#[trigger] s[i]) && passed(n, s[i].id, p, i)
            ==> occupied(#[trigger] s[p]) || (p == hole && dist(n, hole, i) >= dist(n, hole, j))
}

/// Emptying a slot takes what was in it out of the contents.
proof fn lemma_drop(s: Seq<Record>, at: int, g: Record)
    requires
        distinct(s),
        0 <= at < s.len(),
        occupied(s[at]),
        !occupied(g),
    ensures
        distinct(s.update(at, g)),
        count(s.update(at, g)) == count(s) - 1,
        contents(s.update(at, g)) == contents(s).remove(s[at].id),
{
    let t = s.update(at, g);
    lemma_count_update(s, at, g);
    assert forall|a: int, b: int|
        0 <= a < t.len() && 0 <= b < t.len() && a != b && occupied(#[trigger] t[a]) && occupied(
            #[trigger] t[b],
        ) implies t[a].id != t[b].id by {
        assert(t[a] == s[a] && t[b] == s[b]);
    }
    assert forall|id: u32|
        listed(t, id) == (listed(s, id) && id != s[at].id) && (listed(t, id) ==> contents(t)[id]
            == contents(s)[id]) by {
        if listed(t, id) {
            let j = place(t, id);
            assert(t[j].id == id);
            assert(j != at);
            assert(s[j] == t[j]);
            assert(s[j].id != s[at].id);
            lemma_at(s, j);
            lemma_at(t, j);
        }
        if listed(s, id) && id != s[at].id {
            let j = place(s, id);
            assert(s[j].id == id);
            assert(t[j] == s[j]);
        }
    }
    assert(contents(t) =~= contents(s).remove(s[at].id));
}

/// Moving a ghost into a vacant slot leaves what is held.
proof fn lemma_move(s: Seq<Record>, hole: int, j: int, g: Record)
    requires
        distinct(s),
        0 <= hole < s.len(),
        0 <= j < s.len(),
        hole != j,
        !occupied(s[hole]),
        occupied(s[j]),
        !occupied(g),
    ensures
        distinct(s.update(hole, s[j]).update(j, g)),
        count(s.update(hole, s[j]).update(j, g)) == count(s),
        contents(s.update(hole, s[j]).update(j, g)) == contents(s),
{
    let t = s.update(hole, s[j]).update(j, g);
    lemma_count_update(s, hole, s[j]);
    lemma_count_update(s.update(hole, s[j]), j, g);
    assert forall|a: int, b: int|
        0 <= a < t.len() && 0 <= b < t.len() && a != b && occupied(#[trigger] t[a]) && occupied(
            #[trigger] t[b],
        ) implies t[a].id != t[b].id by {
        let x = if a == hole {
            j
        } else {
            a
        };
        let y = if b == hole {
            j
        } else {
            b
        };
        assert(t[a] == s[x] && t[b] == s[y]);
    }
    assert forall|i: int| 0 <= i < s.len() && occupied(#[trigger] s[i]) implies exists|k: int|
        0 <= k < t.len() && #[trigger] t[k] == s[i] by {
        if i == j {
            assert(t[hole] == s[i]);
        } else {
            assert(t[i] == s[i]);
        }
    }
    assert forall|k: int| 0 <= k < t.len() && occupied(#[trigger] t[k]) implies exists|i: int|
        0 <= i < s.len() && #[trigger] s[i] == t[k] by {
        if k == hole {
            assert(s[j] == t[k]);
        } else {
            assert(s[k] == t[k]);
        }
    }
    lemma_same_contents(s, t);
}

/// Moving a ghost back into the hole its walk crosses leaves only those past
/// it to look at.
proof fn lemma_shift(s: Seq<Record>, hole: int, j: int, next: int, g: Record)
    requires
        sized(s.len() as int),
        0 <= hole < s.len(),
        0 <= j < s.len(),
        hole != j,
        next == if j + 1 == s.len() {
            0
        } else {
            j + 1
        },
        !occupied(s[hole]),
        occupied(s[j]),
        !occupied(g),
        nearly_reachable(s, hole, j),
        passed(s.len() as int, s[j].id, hole, j),
    ensures
        nearly_reachable(s.update(hole, s[j]).update(j, g), j, next),
{
    let n = s.len() as int;
    let t = s.update(hole, s[j]).update(j, g);
    assert forall|i: int, p: int|
        0 <= i < n && 0 <= p < n && occupied(#[trigger] t[i]) && passed(
            n,
            t[i].id,
            p,
            i,
        ) implies occupied(#[trigger] t[p]) || (p == j && dist(n, j, i) >= dist(n, j, next)) by {
        assert(i != j);
        if p != j && p != hole {
            assert(t[p] == s[p]);
            if i == hole {
                assert(t[i] == s[j]);
                assert(passed(n, s[j].id, p, j));
                assert(occupied(s[j]));
                assert(occupied(s[p]));
            } else {
                assert(t[i] == s[i]);
                assert(occupied(s[p]) || p == hole);
            }
        }
    }
}

/// A ghost whose walk does not cross the hole may be left where it is.
proof fn lemma_stay(s: Seq<Record>, hole: int, j: int, next: int)
    requires
        sized(s.len() as int),
        0 <= hole < s.len(),
        0 <= j < s.len(),
        hole != j,
        next == if j + 1 == s.len() {
            0
        } else {
            j + 1
        },
        next != hole,
        occupied(s[j]),
        nearly_reachable(s, hole, j),
        !passed(s.len() as int, s[j].id, hole, j),
    ensures
        nearly_reachable(s, hole, next),
{
    let n = s.len() as int;
    assert forall|i: int, p: int|
        0 <= i < n && 0 <= p < n && occupied(#[trigger] s[i]) && passed(
            n,
            s[i].id,
            p,
            i,
        ) implies occupied(#[trigger] s[p]) || (p == hole && dist(n, hole, i) >= dist(
        n,
        hole,
        next,
    )) by {
        if !occupied(s[p]) {
            assert(p == hole && dist(n, hole, i) >= dist(n, hole, j));
            if i == j {
                assert(passed(n, s[j].id, hole, j));
            }
        }
    }
}

/// Once the walk reaches a vacant slot, nothing's walk crosses the hole.
proof fn lemma_done(s: Seq<Record>, hole: int, j: int)
    requires
        sized(s.len() as int),
        0 <= hole < s.len(),
        0 <= j < s.len(),
        hole != j,
        !occupied(s[j]),
        nearly_reachable(s, hole, j),
    ensures
        reachable(s),
{
    let n = s.len() as int;
    assert forall|i: int, p: int|
        0 <= i < n && 0 <= p < n && occupied(#[trigger] s[i]) && passed(
            n,
            s[i].id,
            p,
            i,
        ) implies occupied(#[trigger] s[p]) by {
        if !occupied(s[p]) {
            assert(p == hole && dist(n, hole, i) >= dist(n, hole, j));
            let h = home(s[i].id, n);
            lemma_home(s[i].id, n);
            assert(i != j);
            assert(dist(n, h, j) < dist(n, h, i));
            assert(passed(n, s[i].id, j, i));
            assert(occupied(s[j]));
        }
    }
}

impl GhostTable {
    /// Knuth's backward-shift deletion, so no tombstone is left behind.
    fn remove_at(&mut self, at: usize)
        requires
            old(self).wf(),
            at < old(self).slots@.len(),
            occupied(old(self).slots@[at as int]),
        ensures
            final(self).wf(),
            final(self).slots@.len() == old(self).slots@.len(),
            final(self).len == old(self).len - 1,
            contents(final(self).slots@) == contents(old(self).slots@).remove(
                old(self).slots@[at as int].id,
            ),
            came_forward(old(self).slots@, final(self).slots@, at as int),
    {
        let n: usize = self.slots.len();
        let ghost was = self.slots@;
        let none = vacant();
        let ghost q = lemma_vacancy(was);
        let ghost id = was[at as int].id;
        proof {
            lemma_count_bound(was);
            lemma_drop(was, at as int, none);
        }
        let mut hole: usize = at;
        self.slots.set(hole, none);
        self.len = self.len - 1;
        let mut j: usize = after(hole, n);
        proof {
            let s = self.slots@;
            assert forall|i: int, p: int|
                0 <= i < n && 0 <= p < n && occupied(#[trigger] s[i]) && passed(
                    n as int,
                    s[i].id,
                    p,
                    i,
                ) implies occupied(#[trigger] s[p]) || (p == hole && dist(
                n as int,
                hole as int,
                i,
            ) >= dist(n as int, hole as int, j as int)) by {
                assert(s[i] == was[i]);
                if p != at {
                    assert(s[p] == was[p]);
                }
            }
            assert forall|p: int| 0 <= p < s.len() && occupied(#[trigger] s[p]) implies exists|
                o: int,
            |
                0 <= o < was.len() && o != at && #[trigger] was[o] == s[p] && dist(
                    n as int,
                    at as int,
                    p,
                ) <= dist(n as int, at as int, o) by {
                assert(was[p] == s[p]);
            }
        }
        loop
            invariant
                n == self.slots@.len(),
                was == old(self).slots@,
                id == was[at as int].id,
                old(self).len == count(was),
                was.len() == n,
                sized(n as int),
                at < n,
                hole < n,
                j < n,
                hole != j,
                none.id == EMPTY,
                0 <= q < n,
                q != at,
                !occupied(was[q]),
                dist(n as int, at as int, j as int) <= dist(n as int, at as int, q),
                dist(n as int, at as int, hole as int) < dist(n as int, at as int, j as int),
                forall|p: int|
                    0 <= p < n && dist(n as int, at as int, p) >= dist(
                        n as int,
                        at as int,
                        j as int,
                    ) ==> #[trigger] self.slots@[p] == was[p],
                !occupied(self.slots@[hole as int]),
                distinct(self.slots@),
                count(self.slots@) == count(was) - 1,
                self.len == count(self.slots@),
                2 * count(was) <= n,
                contents(self.slots@) == contents(was).remove(id),
                nearly_reachable(self.slots@, hole as int, j as int),
                came_forward(was, self.slots@, at as int),
            decreases dist(n as int, at as int, q) - dist(n as int, at as int, j as int),
        {
            let e: u32 = self.slots[j].id;
            if e == EMPTY {
                proof {
                    lemma_done(self.slots@, hole as int, j as int);
                }
                return;
            }
            let ghost s = self.slots@;
            proof {
                assert(s[j as int] == was[j as int]);
                assert(j != q);
            }
            let next: usize = after(j, n);
            // Entry j may fill the hole only if the hole lies on j's probe
            // path, which is the cyclic range from its home to j.
            let h: usize = home_of(e, n);
            let from_home: usize = if j >= h {
                j - h
            } else {
                n - h + j
            };
            let from_hole: usize = if j >= hole {
                j - hole
            } else {
                n - hole + j
            };
            if from_home >= from_hole {
                proof {
                    lemma_move(s, hole as int, j as int, none);
                    lemma_shift(s, hole as int, j as int, next as int, none);
                }
                let moved = self.slots[j];
                self.slots.set(hole, moved);
                self.slots.set(j, none);
                proof {
                    let t = self.slots@;
                    assert(t =~= s.update(hole as int, s[j as int]).update(j as int, none));
                    assert forall|p: int| 0 <= p < t.len() && occupied(
                        #[trigger] t[p],
                    ) implies exists|o: int|
                        0 <= o < was.len() && o != at && #[trigger] was[o] == t[p] && dist(
                            n as int,
                            at as int,
                            p,
                        ) <= dist(n as int, at as int, o) by {
                        if p == hole {
                            assert(was[j as int] == t[p]);
                        } else {
                            assert(s[p] == t[p]);
                        }
                    }
                }
                hole = j;
            } else {
                proof {
                    assert(next != hole);
                    lemma_stay(s, hole as int, j as int, next as int);
                }
            }
            j = next;
        }
    }

    /// Drops every ghost not a candidate within `grace` ticks of `tick`,
    /// appending each dropped id to `departed`.
    ///
    /// Nothing leaves this table unreported, so the caller can tell the client
    /// what it no longer holds. Cost is proportional to slots rather than to
    /// ghosts.
    ///
    /// One forward pass suffices. Backward-shift deletion moves an entry either
    /// to a slot at or after the removal point, which the cursor has yet to
    /// reach, or, once the probe scan has wrapped the end of the table, between
    /// two slots the cursor already passed and kept. `tick` and `grace` are
    /// fixed for the call, so an entry the cursor kept once it would keep again.
    ///
    /// Does not clear `departed` and does not shrink the allocation.
    pub fn evict(&mut self, tick: u32, grace: u32, departed: &mut Vec<EntityId>)
        requires
            old(self).wf(),
        ensures
            final(self).wf(),
            final(self)@ == old(self)@.current(tick, grace),
            departures(old(self)@, tick, grace, old(departed)@, final(departed)@),
    {
        let ghost before = departed@;
        let ghost was = self.slots@;
        let ghost known = contents(was);
        let mut i: usize = 0;
        assert(departed@.skip(before.len() as int) =~= Seq::empty());
        while i < self.slots.len()
            invariant
                i <= self.slots@.len(),
                self.wf(),
                self.slots@.len() == was.len(),
                before.len() <= departed@.len(),
                departed@.take(before.len() as int) == before,
                departed@.skip(before.len() as int).no_duplicates(),
                forall|id: u32| #[trigger]
                    contents(self.slots@).contains_key(id) ==> known.contains_key(id)
                        && contents(self.slots@)[id] == known[id] && !departed@.skip(
                        before.len() as int,
                    ).contains(EntityId(id)),
                forall|id: u32| #[trigger]
                    known.contains_key(id) ==> contents(self.slots@).contains_key(id)
                        || departed@.skip(before.len() as int).contains(EntityId(id)),
                forall|e: EntityId| #[trigger]
                    departed@.skip(before.len() as int).contains(e) ==> known.contains_key(e.0)
                        && stale(known[e.0], tick, grace),
                forall|p: int|
                    0 <= p < i && occupied(#[trigger] self.slots@[p]) ==> !stale(
                        told_in(self.slots@[p]),
                        tick,
                        grace,
                    ),
            decreases self.slots@.len() - i + self.len,
        {
            let g = self.slots[i];
            if g.id != EMPTY && tick.wrapping_sub(g.last_seen) > grace {
                let ghost s = self.slots@;
                let ghost gone = departed@.skip(before.len() as int);
                let ghost told = departed@;
                proof {
                    lemma_at(s, i as int);
                    lemma_count_update(s, i as int, g);
                }
                departed.push(EntityId::from_raw(g.id));
                self.remove_at(i);
                proof {
                    let now = departed@.skip(before.len() as int);
                    assert(now =~= gone.push(EntityId(g.id)));
                    assert(departed@.take(before.len() as int) =~= told.take(
                        before.len() as int,
                    ));
                    assert(now[now.len() - 1] == EntityId(g.id));
                    assert forall|e: EntityId| #[trigger] now.contains(e) == (gone.contains(e) || e
                        == EntityId(g.id)) by {
                        if gone.contains(e) {
                            let k = choose|k: int| 0 <= k < gone.len() && gone[k] == e;
                            assert(now[k] == e);
                        }
                        if now.contains(e) {
                            let k = choose|k: int| 0 <= k < now.len() && now[k] == e;
                            if k < gone.len() {
                                assert(gone[k] == e);
                            }
                        }
                    }
                    assert(!gone.contains(EntityId(g.id)));
                    assert forall|p: int| 0 <= p < i && occupied(
                        #[trigger] self.slots@[p],
                    ) implies !stale(told_in(self.slots@[p]), tick, grace) by {
                        let o = choose|o: int|
                            0 <= o < s.len() && o != i && #[trigger] s[o] == self.slots@[p]
                                && dist(s.len() as int, i as int, p) <= dist(
                                s.len() as int,
                                i as int,
                                o,
                            );
                        assert(o < i);
                    }
                }
                // An entry may have been shifted into slot i.
                continue;
            }
            i = i + 1;
        }
        proof {
            let s = self.slots@;
            let gone = departed@.skip(before.len() as int);
            assert forall|id: u32| contents(s).contains_key(id) implies !stale(
                contents(s)[id],
                tick,
                grace,
            ) by {
                let k = place(s, id);
                assert(s[k].id == id);
                lemma_at(s, k);
            }
            assert(self@ =~= old(self)@.current(tick, grace));
            assert(departed@ =~= before + gone);
        }
    }
}

/// Whether what departed was told of: everything gone stale, once each, behind
/// what was there before.
pub open spec fn departures(
    known: Known,
    tick: u32,
    grace: u32,
    before: Seq<EntityId>,
    after: Seq<EntityId>,
) -> bool {
    let gone = after.skip(before.len() as int);
    &&& before.len() <= after.len()
    &&& after.take(before.len() as int) == before
    &&& gone.no_duplicates()
    &&& forall|e: EntityId| #[trigger]
        gone.contains(e) == (known.ghosts.contains_key(e.0) && stale(
            known.ghosts[e.0],
            tick,
            grace,
        ))
}

impl Default for GhostTable {
    fn default() -> (t: GhostTable)
        ensures
            t.wf(),
            t@ == (Known { ghosts: Map::empty(), slots: 0 }),
    {
        GhostTable::new()
    }
}

/// Being a candidate creates no ghost and drops none, and leaves every mark.
pub proof fn law_being_a_candidate_creates_no_ghost(k: Known, id: u32, tick: u32)
    ensures
        k.noticed(id, tick).ghosts.dom() == k.ghosts.dom(),
        forall|e: u32| #[trigger]
            k.ghosts.contains_key(e) ==> k.noticed(id, tick).ghosts[e].mark == k.ghosts[e].mark,
{
    assert(k.noticed(id, tick).ghosts.dom() =~= k.ghosts.dom());
}

/// A send leaves every other ghost as it was, growth or none.
pub proof fn law_a_send_leaves_the_others(k: Known, id: u32, mark: u32, tick: u32, other: u32)
    requires
        other != id,
    ensures
        k.told(id, mark, tick).ghosts.contains_key(other) == k.ghosts.contains_key(other),
        k.ghosts.contains_key(other) ==> k.told(id, mark, tick).ghosts[other] == k.ghosts[other],
{
}

/// A ghost that is a candidate on a tick is kept on that tick, whatever the
/// grace, and no eviction changes how much room there is.
pub proof fn law_a_candidate_survives_eviction(k: Known, id: u32, tick: u32, grace: u32)
    requires
        k.ghosts.contains_key(id),
    ensures
        k.noticed(id, tick).current(tick, grace).ghosts.contains_key(id),
        k.noticed(id, tick).current(tick, grace).slots == k.slots,
{
}

/// A send records the mark and the tick it was sent at, of that entity alone;
/// being a candidate again records the tick and keeps the mark, of an entity
/// already told of and of no other.
pub proof fn law_what_is_recorded_of_a_send_and_of_a_sighting(
    k: Known,
    id: u32,
    mark: u32,
    tick: u32,
    e: u32,
)
    ensures
        ({
            let sent = k.told(id, mark, tick).ghosts;
            let seen = k.noticed(id, tick).ghosts;
            &&& sent.contains_key(id) && sent[id].mark == mark && sent[id].last_seen == tick
            &&& e != id ==> sent.contains_key(e) == k.ghosts.contains_key(e)
            &&& e != id && k.ghosts.contains_key(e) ==> sent[e] == k.ghosts[e]
            &&& seen.contains_key(e) == k.ghosts.contains_key(e)
            &&& e != id && k.ghosts.contains_key(e) ==> seen[e] == k.ghosts[e]
            &&& k.ghosts.contains_key(id) ==> seen[id].mark == k.ghosts[id].mark
                && seen[id].last_seen == tick
            &&& k.noticed(id, tick).slots == k.slots
        }),
{
}

/// A ghost is dropped when more ticks than the grace have gone by since it was
/// last a candidate, counted round where 32 bits wrap, and is kept as it was
/// when they have not; and what is reported gone is exactly what was dropped.
pub proof fn law_a_ghost_is_dropped_when_its_grace_is_over(
    k: Known,
    tick: u32,
    grace: u32,
    e: u32,
    before: Seq<EntityId>,
    after: Seq<EntityId>,
)
    requires
        k.ghosts.contains_key(e),
        departures(k, tick, grace, before, after),
    ensures
        ({
            let last = k.ghosts[e].last_seen;
            let gone_by = if tick >= last {
                tick - last
            } else {
                tick - last + 0x1_0000_0000
            };
            let kept = k.current(tick, grace);
            &&& kept.ghosts.contains_key(e) <==> gone_by <= grace
            &&& gone_by <= grace ==> kept.ghosts[e] == k.ghosts[e]
            &&& after.skip(before.len() as int).contains(EntityId(e)) <==> gone_by > grace
            &&& kept.slots == k.slots
        }),
        forall|f: u32| #[trigger]
            k.current(tick, grace).ghosts.contains_key(f) ==> k.ghosts.contains_key(f),
{
    let last = k.ghosts[e].last_seen;
    assert((tick - last) % 0x1_0000_0000 == if tick >= last {
        tick - last
    } else {
        tick - last + 0x1_0000_0000
    });
}

proof fn lemma_room_is_least(from: nat, needed: nat)
    requires
        from > 0,
    ensures
        room(from, needed) >= needed,
        room(from, needed) >= from,
        room(from, needed) == from || room(from, needed) < 2 * needed,
    decreases
        (if from < needed {
            needed - from
        } else {
            0
        }),
{
    if from < needed {
        lemma_room_is_least(2 * from, needed);
    }
}

/// A table makes room for one more by doubling, from 16 slots up, and only when
/// it would be more than half full; and never to more than it must.
pub proof fn law_a_table_grows_only_when_it_must(k: Known)
    ensures
        ({
            let needed = 2 * (k.ghosts.len() + 1);
            &&& k.roomier() >= needed
            &&& k.slots >= needed ==> k.roomier() == k.slots
            &&& k.slots < needed ==> k.roomier() >= 16 && k.roomier() >= k.slots
            &&& k.slots < needed && k.roomier() > 16 && k.roomier() != k.slots ==> k.roomier()
                < 2 * needed
        }),
{
    let needed = ((k.ghosts.len() + 1) * 2) as nat;
    lemma_room_is_least(16, needed);
    if k.slots >= 16 {
        lemma_room_is_least(k.slots, needed);
    }
}

} // verus!
