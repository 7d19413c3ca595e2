//! A region's population sorted by cell, as one tick sees it.
//!
//! [`CellSnapshot`] holds every live entity once, those of one cell next to
//! each other, so a viewer's neighborhood is a few runs of memory. A crowded
//! cell is sorted further, into parts, so a viewer inside the crowd can take
//! the nearer of it first.

use vstd::prelude::*;

use crate::config;
use crate::config::{World, WorldConfig};
use crate::entity::{EntityId, LiveSet};
use crate::fan;
use crate::fan::fan;
use crate::fixed::Fixed;
use crate::odometer;
use crate::pos::{CellCoord, CellId, Pos2, Pos3};

verus! {

/// Parts along one axis of a crowded cell.
pub const PART_AXIS: usize = 8;

/// Parts of a crowded cell.
pub const PARTS: usize = 64;

/// A cell holding more than this is sorted into parts.
pub const CROWD: usize = 256;

impl World {
    /// Which cell a position is in.
    pub open spec fn home_cell(self, p: Pos3) -> int {
        self.cell_id(self.cell_of(p.flat()))
    }

    /// Which part along an axis of a cell a coordinate is in, or nearest to.
    pub open spec fn axis_part(self, v: Fixed, cell: int) -> int {
        config::held(v.0 - cell * self.cell_size, self.cell_size - 1) * 8 / self.cell_size
    }

    /// Which part of a cell a position is in, or nearest to.
    pub open spec fn part_of(self, c: CellCoord, p: Pos2) -> int {
        self.axis_part(p.y, c.y as int) * 8 + self.axis_part(p.x, c.x as int)
    }
}

/// A population sorted by cell.
#[verifier::ext_equal]
pub struct Scene {
    /// The world it is in.
    pub w: World,
    /// Who, in order.
    pub ids: Seq<EntityId>,
    /// Where each is.
    pub at: Seq<Pos3>,
    /// What the game calls each.
    pub tags: Seq<u16>,
    /// Where each cell's run starts, and where the last ends.
    pub starts: Seq<int>,
    /// Where each part's run starts in a cell sorted into parts, and where the
    /// last ends.
    pub parts: Seq<Option<Seq<int>>>,
}

/// Whether starts divide a range of places.
pub open spec fn divides(starts: Seq<int>, from: int, to: int) -> bool {
    &&& starts.len() >= 1
    &&& starts[0] == from
    &&& starts.last() == to
    &&& forall|a: int, b: int| 0 <= a <= b < starts.len() ==> starts[a] <= starts[b]
}

/// Whether a place is in one of the ranges starts divide.
pub open spec fn in_part(starts: Seq<int>, b: int, i: int) -> bool {
    starts[b] <= i < starts[b + 1]
}

/// Whether ids rise over a range of places.
pub open spec fn rising(ids: Seq<EntityId>, from: int, to: int) -> bool {
    forall|i: int, j: int| from <= i < j < to ==> (#[trigger] ids[i]).0 < (#[trigger] ids[j]).0
}

impl Scene {
    /// Whether one cell is sorted into parts as it should be.
    pub open spec fn parted(self, c: int) -> bool {
        let (from, to) = (self.starts[c], self.starts[c + 1]);
        match self.parts[c] {
            None => to - from <= CROWD && rising(self.ids, from, to),
            Some(s) => {
                &&& to - from > CROWD
                &&& s.len() == PARTS + 1
                &&& divides(s, from, to)
                &&& forall|b: int, i: int|
                    0 <= b < PARTS && #[trigger] in_part(s, b, i) ==> self.part_at(c, i) == b
                &&& forall|b: int, i: int, j: int|
                    0 <= b < PARTS && #[trigger] in_part(s, b, i) && #[trigger] in_part(s, b, j)
                        && i < j ==> self.ids[i].0 < self.ids[j].0
            },
        }
    }

    /// Which part of a cell somebody is in.
    pub open spec fn part_at(self, c: int, i: int) -> int {
        self.w.part_of(self.w.cell_coord(CellId(c as u32)), self.at[i].flat())
    }

    /// Whether everybody is in their cell's run, and nobody is there twice.
    pub open spec fn sorted(self) -> bool {
        &&& self.w.valid()
        &&& self.ids.len() == self.at.len()
        &&& self.ids.len() == self.tags.len()
        &&& self.ids.len() <= 0x1_0000_0000
        &&& self.starts.len() == self.w.cells_per_region() + 1
        &&& self.parts.len() == self.w.cells_per_region()
        &&& divides(self.starts, 0, self.ids.len() as int)
        &&& forall|c: int, i: int|
            0 <= c < self.parts.len() && #[trigger] in_part(self.starts, c, i)
                ==> self.w.home_cell(self.at[i]) == c
        &&& forall|c: int| 0 <= c < self.parts.len() ==> #[trigger] self.parted(c)
        &&& self.ids.no_duplicates()
    }

    /// Whether this is a population as its arrays have it.
    pub open spec fn pictures(
        self,
        xs: Seq<Fixed>,
        ys: Seq<Fixed>,
        zs: Seq<Fixed>,
        tags: Seq<u16>,
        live: Set<u32>,
    ) -> bool {
        &&& forall|i: int|
            0 <= i < self.ids.len() ==> {
                let n = (#[trigger] self.ids[i]).0;
                live.contains(n) && self.at[i] == odometer::spot(xs, ys, zs, n as int)
                    && self.tags[i] == tags[n as int]
            }
        &&& forall|n: u32| #[trigger] live.contains(n) ==> self.ids.contains(EntityId(n))
    }
}

// ---------------------------------------------------------------------------
// Sorting
// ---------------------------------------------------------------------------

/// Whether numbers strictly rise.
spec fn rises(s: Seq<u32>) -> bool {
    forall|i: int, j: int| 0 <= i < j < s.len() ==> s[i] < s[j]
}

/// Whether an id is listed under a key.
spec fn keyed(ids: Seq<u32>, keys: Seq<usize>, id: u32, key: int) -> bool {
    exists|j: int| 0 <= j < ids.len() && #[trigger] ids[j] == id && keys[j] == key
}

/// Whether piles are the ids by key, rising in each.
spec fn sifted(piles: Seq<Vec<u32>>, ids: Seq<u32>, keys: Seq<usize>) -> bool {
    &&& forall|b: int| 0 <= b < piles.len() ==> rises((#[trigger] piles[b])@)
    &&& forall|b: int, id: u32|
        #![trigger piles[b]@.contains(id)]
        0 <= b < piles.len() ==> piles[b]@.contains(id) == keyed(ids, keys, id, b)
}

/// So many empty piles.
fn empty_piles(n: usize) -> (piles: Vec<Vec<u32>>)
    ensures
        piles@.len() == n,
        forall|b: int| 0 <= b < n ==> (#[trigger] piles@[b])@.len() == 0,
{
    let mut piles: Vec<Vec<u32>> = Vec::new();
    while piles.len() < n
        invariant
            piles@.len() <= n,
            forall|b: int| 0 <= b < piles@.len() ==> (#[trigger] piles@[b])@.len() == 0,
        decreases n - piles@.len(),
    {
        piles.push(Vec::new());
    }
    piles
}

/// Sorts rising ids into piles by key.
fn sift(ids: &Vec<u32>, keys: &Vec<usize>, n: usize) -> (piles: Vec<Vec<u32>>)
    requires
        rises(ids@),
        keys@.len() == ids@.len(),
        forall|j: int| 0 <= j < keys@.len() ==> #[trigger] keys@[j] < n,
    ensures
        piles@.len() == n,
        sifted(piles@, ids@, keys@),
{
    let mut piles = empty_piles(n);
    let mut k: usize = 0;
    proof {
        assert forall|b: int, id: u32|
            #![trigger piles@[b]@.contains(id)]
            0 <= b < piles@.len() implies piles@[b]@.contains(id) == keyed(
            ids@.take(0),
            keys@,
            id,
            b,
        ) by {
            assert(piles@[b]@.len() == 0);
        }
    }
    while k < ids.len()
        invariant
            k <= ids@.len(),
            rises(ids@),
            keys@.len() == ids@.len(),
            forall|j: int| 0 <= j < keys@.len() ==> #[trigger] keys@[j] < n,
            piles@.len() == n,
            sifted(piles@, ids@.take(k as int), keys@),
        decreases ids@.len() - k,
    {
        let id: u32 = ids[k];
        let key: usize = keys[k];
        let ghost was = piles@;
        let mut pile: Vec<u32> = Vec::new();
        std::mem::swap(&mut pile, &mut piles[key]);
        pile.push(id);
        let ghost grown = pile@;
        piles[key] = pile;
        proof {
            let (old_ids, new_ids) = (ids@.take(k as int), ids@.take(k + 1));
            assert(piles@ =~= was.update(key as int, piles@[key as int]));
            assert(grown =~= was[key as int]@.push(id));
            // Everything piled before is smaller.
            assert forall|m: int| 0 <= m < was[key as int]@.len() implies (
            #[trigger] was[key as int]@[m]) < id by {
                let e = was[key as int]@[m];
                assert(was[key as int]@.contains(e));
                let j = choose|j: int|
                    0 <= j < old_ids.len() && #[trigger] old_ids[j] == e && keys@[j] == key;
                assert(ids@[j] == e);
            }
            assert forall|b: int| 0 <= b < piles@.len() implies rises((#[trigger] piles@[b])@) by {
                if b != key {
                    assert(piles@[b] == was[b]);
                }
            }
            assert forall|b: int, e: u32|
                #![trigger piles@[b]@.contains(e)]
                0 <= b < piles@.len() implies piles@[b]@.contains(e) == keyed(
                new_ids,
                keys@,
                e,
                b,
            ) by {
                if keyed(old_ids, keys@, e, b) {
                    let j = choose|j: int|
                        0 <= j < old_ids.len() && #[trigger] old_ids[j] == e && keys@[j] == b;
                    assert(new_ids[j] == e);
                }
                if keyed(new_ids, keys@, e, b) {
                    let j = choose|j: int|
                        0 <= j < new_ids.len() && #[trigger] new_ids[j] == e && keys@[j] == b;
                    if j < k {
                        assert(old_ids[j] == e);
                    }
                }
                if b == key {
                    assert(was[b]@.contains(e) == keyed(old_ids, keys@, e, b));
                    if grown.contains(e) {
                        let m = choose|m: int| 0 <= m < grown.len() && grown[m] == e;
                        if m < was[b]@.len() {
                            assert(was[b]@[m] == e);
                        } else {
                            assert(new_ids[k as int] == e);
                        }
                    }
                    if was[b]@.contains(e) {
                        let m = choose|m: int| 0 <= m < was[b]@.len() && was[b]@[m] == e;
                        assert(grown[m] == e);
                    }
                    if e == id {
                        assert(grown[grown.len() - 1] == e);
                    }
                } else {
                    assert(piles@[b] == was[b]);
                    assert(was[b]@.contains(e) == keyed(old_ids, keys@, e, b));
                }
            }
        }
        k = k + 1;
    }
    assert(ids@.take(k as int) =~= ids@);
    piles
}

/// Starts, as places.
pub open spec fn places(starts: Seq<usize>) -> Seq<int> {
    starts.map_values(|n: usize| n as int)
}

/// Where parts start, as places.
spec fn part_places(parts: Option<Vec<usize>>) -> Option<Seq<int>> {
    match parts {
        Some(s) => Some(places(s@)),
        None => None,
    }
}

/// Whether a run of ids is one pile, or one pile sorted into parts.
spec fn laid(
    flat: Seq<u32>,
    from: int,
    to: int,
    parts: Option<Seq<int>>,
    part: spec_fn(u32) -> int,
) -> bool {
    &&& 0 <= from <= to <= flat.len()
    &&& match parts {
        None => {
            &&& to - from <= CROWD
            &&& forall|i: int, j: int| from <= i < j < to ==> flat[i] < flat[j]
        },
        Some(s) => {
            &&& to - from > CROWD
            &&& s.len() == PARTS + 1
            &&& divides(s, from, to)
            &&& forall|b: int, i: int|
                0 <= b < PARTS && #[trigger] in_part(s, b, i) ==> part(flat[i]) == b
            &&& forall|b: int, i: int, j: int|
                0 <= b < PARTS && #[trigger] in_part(s, b, i) && #[trigger] in_part(s, b, j) && i
                    < j ==> flat[i] < flat[j]
        },
    }
}

/// A place in a part is in the range the parts divide.
pub proof fn lemma_in_part(starts: Seq<int>, from: int, to: int, b: int, i: int)
    requires
        divides(starts, from, to),
        0 <= b < starts.len() - 1,
        in_part(starts, b, i),
    ensures
        from <= i < to,
{
    assert(starts[0] <= starts[b]);
    assert(starts[b + 1] <= starts[starts.len() - 1]);
}

/// A run is laid out by what is in it alone.
proof fn lemma_laid(
    flat: Seq<u32>,
    more: Seq<u32>,
    from: int,
    to: int,
    parts: Option<Seq<int>>,
    part: spec_fn(u32) -> int,
)
    requires
        laid(flat, from, to, parts, part),
        flat.len() <= more.len(),
        forall|i: int| 0 <= i < flat.len() ==> flat[i] == more[i],
    ensures
        laid(more, from, to, parts, part),
{
    if let Some(s) = parts {
        assert forall|b: int, i: int| 0 <= b < PARTS && #[trigger] in_part(s, b, i) implies part(
            more[i],
        ) == b by {
            lemma_in_part(s, from, to, b, i);
        }
        assert forall|b: int, i: int, j: int|
            0 <= b < PARTS && #[trigger] in_part(s, b, i) && #[trigger] in_part(s, b, j) && i
                < j implies more[i] < more[j] by {
            lemma_in_part(s, from, to, b, i);
            lemma_in_part(s, from, to, b, j);
        }
    }
}

/// Rising numbers repeat none.
proof fn lemma_rises(s: Seq<u32>)
    requires
        rises(s),
    ensures
        s.no_duplicates(),
{
    assert forall|i: int, j: int| 0 <= i < s.len() && 0 <= j < s.len() && i != j implies s[i]
        != s[j] by {
        if i < j {
            assert(s[i] < s[j]);
        } else {
            assert(s[j] < s[i]);
        }
    }
}

/// Lists that repeat nothing and hold the same are as long.
proof fn lemma_same_len(a: Seq<u32>, b: Seq<u32>)
    requires
        a.no_duplicates(),
        b.no_duplicates(),
        forall|n: u32| #[trigger] a.contains(n) == b.contains(n),
    ensures
        a.len() == b.len(),
{
    a.unique_seq_to_set();
    b.unique_seq_to_set();
    assert(a.to_set() =~= b.to_set());
}

/// Appending what is not there yet repeats nothing.
proof fn lemma_append(a: Seq<u32>, b: Seq<u32>)
    requires
        a.no_duplicates(),
        b.no_duplicates(),
        forall|n: u32| #[trigger] b.contains(n) ==> !a.contains(n),
    ensures
        (a + b).no_duplicates(),
        forall|n: u32| #[trigger] (a + b).contains(n) == (a.contains(n) || b.contains(n)),
{
    let c = a + b;
    assert forall|i: int, j: int| 0 <= i < c.len() && 0 <= j < c.len() && i != j implies c[i]
        != c[j] by {
        if i < a.len() && j >= a.len() {
            assert(b.contains(b[j - a.len()]));
            assert(a.contains(a[i]));
        } else if j < a.len() && i >= a.len() {
            assert(b.contains(b[i - a.len()]));
            assert(a.contains(a[j]));
        }
    }
    assert forall|n: u32| #[trigger] c.contains(n) == (a.contains(n) || b.contains(n)) by {
        if a.contains(n) {
            let i = choose|i: int| 0 <= i < a.len() && a[i] == n;
            assert(c[i] == n);
        }
        if b.contains(n) {
            let i = choose|i: int| 0 <= i < b.len() && b[i] == n;
            assert(c[a.len() + i] == n);
        }
        if c.contains(n) {
            let i = choose|i: int| 0 <= i < c.len() && c[i] == n;
            if i < a.len() {
                assert(a[i] == n);
            } else {
                assert(b[i - a.len()] == n);
            }
        }
    }
}

/// Appends one pile, sorted into parts if it is a crowd.
fn lay(flat: &mut Vec<u32>, pile: &Vec<u32>, keys: &Vec<usize>) -> (parts: Option<Vec<usize>>)
    requires
        rises(pile@),
        keys@.len() == pile@.len(),
        forall|j: int| 0 <= j < keys@.len() ==> #[trigger] keys@[j] < PARTS,
    ensures
        old(flat)@.len() <= final(flat)@.len(),
        final(flat)@.take(old(flat)@.len() as int) == old(flat)@,
        final(flat)@.skip(old(flat)@.len() as int).no_duplicates(),
        forall|id: u32| #[trigger]
            final(flat)@.skip(old(flat)@.len() as int).contains(id) == pile@.contains(id),
        forall|part: spec_fn(u32) -> int|
            (forall|j: int| 0 <= j < keys@.len() ==> part(#[trigger] pile@[j]) == keys@[j])
                ==> #[trigger] laid(
                final(flat)@,
                old(flat)@.len() as int,
                final(flat)@.len() as int,
                part_places(parts),
                part,
            ),
{
    let ghost was = flat@;
    let ghost from = flat@.len() as int;
    proof {
        lemma_rises(pile@);
    }
    if pile.len() <= CROWD {
        flat.extend_from_slice(pile.as_slice());
        proof {
            assert(flat@ =~= was + pile@);
            assert(flat@.skip(from) =~= pile@);
            assert(flat@.take(from) =~= was);
        }
        return None;
    }
    let piles = sift(pile, keys, PARTS);
    let mut starts: Vec<usize> = Vec::new();
    starts.push(flat.len());
    let mut b: usize = 0;
    let ghost mut chunk: Seq<u32> = Seq::empty();
    assert(flat@ =~= was + chunk);
    while b < PARTS
        invariant
            b <= PARTS,
            from == was.len(),
            keys@.len() == pile@.len(),
            rises(pile@),
            piles@.len() == PARTS,
            sifted(piles@, pile@, keys@),
            flat@ == was + chunk,
            starts@.len() == b + 1,
            starts@[0] == from,
            starts@[b as int] == flat@.len(),
            forall|i: int, j: int| 0 <= i <= j < starts@.len() ==> starts@[i] <= starts@[j],
            chunk.no_duplicates(),
            forall|id: u32| #[trigger]
                chunk.contains(id) == exists|k: int|
                    0 <= k < pile@.len() && #[trigger] pile@[k] == id && keys@[k] < b,
            forall|a: int, i: int|
                0 <= a < b && #[trigger] in_part(places(starts@), a, i) ==> keyed(
                    pile@,
                    keys@,
                    flat@[i],
                    a,
                ),
            forall|a: int, i: int, j: int|
                0 <= a < b && #[trigger] in_part(places(starts@), a, i) && #[trigger] in_part(
                    places(starts@),
                    a,
                    j,
                ) && i < j ==> flat@[i] < flat@[j],
        decreases PARTS - b,
    {
        let ghost before = flat@;
        let ghost old_chunk = chunk;
        let ghost old_starts = starts@;
        flat.extend_from_slice(piles[b].as_slice());
        let ghost more = piles@[b as int]@;
        assert(flat@ =~= before + more);
        starts.push(flat.len());
        proof {
            chunk = old_chunk + more;
            assert(flat@ =~= was + chunk);
            lemma_rises(more);
            assert forall|n: u32| #[trigger] more.contains(n) implies !old_chunk.contains(n) by {
                assert(piles@[b as int]@.contains(n));
                let k = choose|k: int|
                    0 <= k < pile@.len() && #[trigger] pile@[k] == n && keys@[k] == b;
                if old_chunk.contains(n) {
                    let m = choose|m: int|
                        0 <= m < pile@.len() && #[trigger] pile@[m] == n && keys@[m] < b;
                    lemma_rises(pile@);
                    assert(pile@[k] == pile@[m]);
                }
            }
            lemma_append(old_chunk, more);
            assert forall|id: u32| #[trigger]
                chunk.contains(id) == exists|k: int|
                    0 <= k < pile@.len() && #[trigger] pile@[k] == id && keys@[k] < b + 1 by {
                assert(piles@[b as int]@.contains(id) == keyed(pile@, keys@, id, b as int));
                if keyed(pile@, keys@, id, b as int) {
                    let k = choose|k: int|
                        0 <= k < pile@.len() && #[trigger] pile@[k] == id && keys@[k] == b;
                    assert(pile@[k] == id);
                }
                if old_chunk.contains(id) {
                    let k = choose|k: int|
                        0 <= k < pile@.len() && #[trigger] pile@[k] == id && keys@[k] < b;
                    assert(pile@[k] == id);
                }
                if exists|k: int|
                    0 <= k < pile@.len() && #[trigger] pile@[k] == id && keys@[k] < b + 1 {
                    let k = choose|k: int|
                        0 <= k < pile@.len() && #[trigger] pile@[k] == id && keys@[k] < b + 1;
                    if keys@[k] == b {
                        assert(keyed(pile@, keys@, id, b as int));
                    }
                }
            }
            let (p, q) = (places(old_starts), places(starts@));
            assert forall|a: int, i: int| 0 <= a < b + 1 && #[trigger] in_part(
                q,
                a,
                i,
            ) implies keyed(pile@, keys@, flat@[i], a) by {
                if a < b {
                    assert(in_part(p, a, i));
                    assert(old_starts[a + 1] <= old_starts[b as int]);
                    assert(flat@[i] == before[i]);
                } else {
                    assert(flat@[i] == more[i - before.len()]);
                    assert(piles@[b as int]@.contains(flat@[i]));
                }
            }
            assert forall|a: int, i: int, j: int|
                0 <= a < b + 1 && #[trigger] in_part(q, a, i) && #[trigger] in_part(q, a, j) && i
                    < j implies flat@[i] < flat@[j] by {
                if a < b {
                    assert(in_part(p, a, i) && in_part(p, a, j));
                    assert(old_starts[a + 1] <= old_starts[b as int]);
                    assert(flat@[i] == before[i] && flat@[j] == before[j]);
                } else {
                    assert(flat@[i] == more[i - before.len()]);
                    assert(flat@[j] == more[j - before.len()]);
                }
            }
        }
        b = b + 1;
    }
    proof {
        assert(flat@.skip(from) =~= chunk);
        assert(flat@.take(from) =~= was);
        assert forall|id: u32| #[trigger] chunk.contains(id) == pile@.contains(id) by {
            if pile@.contains(id) {
                let k = choose|k: int| 0 <= k < pile@.len() && pile@[k] == id;
                assert(keys@[k] < PARTS);
            }
            if chunk.contains(id) {
                let k = choose|k: int|
                    0 <= k < pile@.len() && #[trigger] pile@[k] == id && keys@[k] < PARTS;
            }
        }
        lemma_same_len(chunk, pile@);
        let s = places(starts@);
        assert forall|part: spec_fn(u32) -> int|
            (forall|j: int| 0 <= j < keys@.len() ==> part(#[trigger] pile@[j]) == keys@[j])
                implies #[trigger] laid(flat@, from, flat@.len() as int, Some(s), part) by {
            assert forall|a: int, i: int| 0 <= a < PARTS && #[trigger] in_part(
                s,
                a,
                i,
            ) implies part(flat@[i]) == a by {
                assert(keyed(pile@, keys@, flat@[i], a));
            }
            assert(divides(s, from, flat@.len() as int)) by {
                assert forall|x: int, y: int| 0 <= x <= y < s.len() implies s[x] <= s[y] by {
                    assert(starts@[x] <= starts@[y]);
                }
            }
        }
    }
    Some(starts)
}

// ---------------------------------------------------------------------------
// The snapshot
// ---------------------------------------------------------------------------

/// The middle of a fan over the parts of a cell.
pub open spec fn part_spot(b: int) -> (int, int) {
    (b % 8, b / 8)
}

/// A region's population sorted by cell.
#[derive(Debug)]
pub struct CellSnapshot {
    cfg: WorldConfig,
    ids: Vec<EntityId>,
    xs: Vec<Fixed>,
    ys: Vec<Fixed>,
    zs: Vec<Fixed>,
    tags: Vec<u16>,
    starts: Vec<usize>,
    parts: Vec<Option<Vec<usize>>>,
    /// Offsets from a viewer's own cell, nearest first.
    order: Vec<(i32, i32)>,
    /// For each part of a cell, every part of it, nearest first.
    fans: Vec<Vec<(i32, i32)>>,
}

impl View for CellSnapshot {
    type V = Scene;

    closed spec fn view(&self) -> Scene {
        Scene {
            w: self.cfg@,
            ids: self.ids@,
            at: Seq::new(
                self.ids@.len(),
                |i: int| Pos3 { x: self.xs@[i], y: self.ys@[i], z: self.zs@[i] },
            ),
            tags: self.tags@,
            starts: places(self.starts@),
            parts: self.parts@.map_values(|p: Option<Vec<usize>>| part_places(p)),
        }
    }
}

/// Which part along an axis of a cell a coordinate is in.
proof fn lemma_axis_part(w: World, v: Fixed, cell: int)
    requires
        w.valid(),
    ensures
        0 <= w.axis_part(v, cell) < 8,
{
    let s = w.cell_size;
    let off = config::held(v.0 - cell * s, s - 1);
    assert(0 <= off * 8 / s < 8) by (nonlinear_arith)
        requires
            0 <= off <= s - 1,
            s > 0,
    ;
}

/// A part of a cell is one of its parts.
pub proof fn lemma_part_of(w: World, c: CellCoord, p: Pos2)
    requires
        w.valid(),
    ensures
        0 <= w.part_of(c, p) < PARTS,
{
    lemma_axis_part(w, p.x, c.x as int);
    lemma_axis_part(w, p.y, c.y as int);
}

impl CellSnapshot {
    /// The offsets from a viewer's own cell, in the order walked.
    pub closed spec fn offsets(&self) -> Seq<(int, int)> {
        fan::points(self.order@)
    }

    /// The parts of a cell, in the order walked from one of them.
    pub closed spec fn fan_from(&self, b: int) -> Seq<(int, int)> {
        fan::points(self.fans@[b]@)
    }

    /// Whether the population is sorted and the orders are nearest first.
    pub closed spec fn wf(&self) -> bool {
        let r = self.cfg@.cell_radius();
        &&& self.xs@.len() == self.ids@.len()
        &&& self.ys@.len() == self.ids@.len()
        &&& self.zs@.len() == self.ids@.len()
        &&& self@.sorted()
        &&& fan::fans(self.offsets(), (0, 0), -r, r)
        &&& self.fans@.len() == PARTS
        &&& forall|b: int|
            0 <= b < PARTS ==> fan::fans(#[trigger] self.fan_from(b), part_spot(b), 0, 7)
    }

    /// What a sound snapshot is.
    pub proof fn lemma_wf(&self)
        requires
            self.wf(),
        ensures
            self@.sorted(),
            fan::fans(
                self.offsets(),
                (0, 0),
                -self@.w.cell_radius(),
                self@.w.cell_radius(),
            ),
            forall|b: int|
                0 <= b < PARTS ==> fan::fans(#[trigger] self.fan_from(b), part_spot(b), 0, 7),
    {
    }

    /// Nobody yet.
    pub fn new(cfg: &WorldConfig) -> (s: CellSnapshot)
        ensures
            s.wf(),
            s@.w == cfg@,
            s@.ids.len() == 0,
    {
        proof {
            use_type_invariant(cfg);
        }
        let r: i32 = cfg.cell_radius() as i32;
        let order = fan((0, 0), -r, r);
        let mut fans: Vec<Vec<(i32, i32)>> = Vec::new();
        while fans.len() < PARTS
            invariant
                fans@.len() <= PARTS,
                forall|b: int|
                    0 <= b < fans@.len() ==> fan::fans(
                        fan::points(#[trigger] fans@[b]@),
                        part_spot(b),
                        0,
                        7,
                    ),
            decreases PARTS - fans@.len(),
        {
            let b: i32 = fans.len() as i32;
            fans.push(fan((b % 8, b / 8), 0, 7));
        }
        let cells: u32 = cfg.cells_per_region();
        proof {
            let n = cfg@.cells_per_axis();
            assert(n * n >= 1) by (nonlinear_arith)
                requires
                    n >= 1,
            ;
        }
        let mut starts: Vec<usize> = Vec::new();
        starts.push(0);
        let mut parts: Vec<Option<Vec<usize>>> = Vec::new();
        let mut c: u32 = 0;
        while c < cells
            invariant
                c <= cells,
                parts@.len() == c,
                starts@.len() == c + 1,
                forall|k: int| 0 <= k < parts@.len() ==> (#[trigger] parts@[k]) is None,
                forall|k: int| 0 <= k < starts@.len() ==> #[trigger] starts@[k] == 0,
            decreases cells - c,
        {
            starts.push(0);
            parts.push(None);
            c = c + 1;
        }
        let s = CellSnapshot {
            cfg: *cfg,
            ids: Vec::new(),
            xs: Vec::new(),
            ys: Vec::new(),
            zs: Vec::new(),
            tags: Vec::new(),
            starts,
            parts,
            order,
            fans,
        };
        proof {
            let v = s@;
            assert forall|k: int| 0 <= k < v.parts.len() implies #[trigger] v.parted(k) by {
                assert(s.parts@[k] is None);
                assert(v.starts[k] == 0 && v.starts[k + 1] == 0);
            }
            assert forall|b: int| 0 <= b < PARTS implies fan::fans(
                #[trigger] s.fan_from(b),
                part_spot(b),
                0,
                7,
            ) by {
                assert(fan::fans(fan::points(s.fans@[b]@), part_spot(b), 0, 7));
            }
            assert(divides(v.starts, 0, 0)) by {
                assert forall|a: int, b: int| 0 <= a <= b < v.starts.len() implies v.starts[a]
                    <= v.starts[b] by {
                    assert(s.starts@[a] == 0 && s.starts@[b] == 0);
                }
            }
        }
        s
    }

    /// The world the population is in.
    pub fn config(&self) -> (cfg: &WorldConfig)
        ensures
            cfg@ == self@.w,
    {
        &self.cfg
    }

    /// How many entities there are.
    pub fn len(&self) -> (n: usize)
        ensures
            n == self@.ids.len(),
    {
        self.ids.len()
    }

    /// Who is at a place.
    pub fn id_at(&self, i: usize) -> (id: EntityId)
        requires
            i < self@.ids.len(),
        ensures
            id == self@.ids[i as int],
    {
        self.ids[i]
    }

    /// Where whoever is at a place is.
    pub fn pos_at(&self, i: usize) -> (p: Pos3)
        requires
            self.wf(),
            i < self@.ids.len(),
        ensures
            p == self@.at[i as int],
    {
        Pos3::new(self.xs[i], self.ys[i], self.zs[i])
    }

    /// What the game calls whoever is at a place.
    pub fn tag_at(&self, i: usize) -> (tag: u16)
        requires
            self.wf(),
            i < self@.ids.len(),
        ensures
            tag == self@.tags[i as int],
    {
        self.tags[i]
    }

    /// Which part along an axis of a cell a coordinate is in, or nearest to.
    fn axis_part(cfg: &WorldConfig, v: Fixed, cell: u16) -> (b: usize)
        ensures
            b == cfg@.axis_part(v, cell as int),
            b < 8,
    {
        proof {
            use_type_invariant(cfg);
            lemma_axis_part(cfg@, v, cell as int);
            let s = cfg@.cell_size;
            assert(0 <= cell * s <= 0xffff * 0x7fff_ffff) by (nonlinear_arith)
                requires
                    0 <= cell <= 0xffff,
                    0 <= s <= 0x7fff_ffff,
            ;
        }
        let size: i64 = cfg.cell_size().raw() as i64;
        let raw: i64 = v.raw() as i64 - cell as i64 * size;
        let off: i64 = if raw < 0 {
            0
        } else if raw > size - 1 {
            size - 1
        } else {
            raw
        };
        (off * 8 / size) as usize
    }

    /// Which part of a cell a position is in, or nearest to.
    fn part_in(cfg: &WorldConfig, c: CellCoord, p: Pos2) -> (b: usize)
        ensures
            b == cfg@.part_of(c, p),
            b < PARTS,
    {
        CellSnapshot::axis_part(cfg, p.y, c.y) * 8 + CellSnapshot::axis_part(cfg, p.x, c.x)
    }
}

/// A position's cell is one of the region's.
pub proof fn lemma_home_cell(w: World, p: Pos3)
    requires
        w.valid(),
    ensures
        0 <= w.home_cell(p) < w.cells_per_region(),
        w.cell_of(p.flat()).x < w.cells_per_axis(),
        w.cell_of(p.flat()).y < w.cells_per_axis(),
        w.cell_coord(CellId(w.home_cell(p) as u32)) == w.cell_of(p.flat()),
        w.cell_of(p.flat()).x == w.axis_cell(p.x),
        w.cell_of(p.flat()).y == w.axis_cell(p.y),
        w.cells_per_region() <= 0xffff * 0xffff,
{
    let n = w.cells_per_axis();
    let c = w.cell_of(p.flat());
    let (x, y) = (c.x as int, c.y as int);
    config::law_cell_id_round_trips(w, c);
    assert(0 <= y * n + x < n * n) by (nonlinear_arith)
        requires
            0 <= x <= n - 1,
            0 <= y <= n - 1,
    ;
    assert(n * n <= 0xffff * 0xffff) by (nonlinear_arith)
        requires
            0 <= n <= 0xffff,
    ;
}

/// The cell an id is in, by its arrays.
spec fn cell_by(w: World, xs: Seq<Fixed>, ys: Seq<Fixed>, zs: Seq<Fixed>, id: u32) -> int {
    w.home_cell(odometer::spot(xs, ys, zs, id as int))
}

/// The part of a cell an id is in, by its arrays.
spec fn part_by(w: World, xs: Seq<Fixed>, ys: Seq<Fixed>, zs: Seq<Fixed>, c: int) -> spec_fn(
    u32,
) -> int {
    |id: u32|
        w.part_of(w.cell_coord(CellId(c as u32)), odometer::spot(xs, ys, zs, id as int).flat())
}

/// Everybody who is alive, and which cell each is in.
fn roll(cfg: &WorldConfig, xs: &[Fixed], ys: &[Fixed], zs: &[Fixed], live: &LiveSet) -> (r: (
    Vec<u32>,
    Vec<usize>,
))
    requires
        live.wf(),
        xs@.len() == ys@.len(),
        xs@.len() == zs@.len(),
        forall|n: u32| #[trigger] live@.contains(n) ==> n < xs@.len(),
    ensures
        rises(r.0@),
        r.1@.len() == r.0@.len(),
        forall|n: u32| #[trigger] r.0@.contains(n) == live@.contains(n),
        forall|k: int|
            0 <= k < r.0@.len() ==> #[trigger] r.1@[k] == cell_by(
                cfg@,
                xs@,
                ys@,
                zs@,
                r.0@[k],
            ) && r.1@[k] < cfg@.cells_per_region(),
{
    proof {
        use_type_invariant(cfg);
    }
    let all = live.iter().collect();
    let mut ids: Vec<u32> = Vec::new();
    let mut keys: Vec<usize> = Vec::new();
    let mut k: usize = 0;
    while k < all.len()
        invariant
            k <= all@.len(),
            cfg@.valid(),
            crate::entity::lists(all@, live@),
            xs@.len() == ys@.len(),
            xs@.len() == zs@.len(),
            forall|n: u32| #[trigger] live@.contains(n) ==> n < xs@.len(),
            ids@.len() == k,
            keys@.len() == k,
            forall|j: int| 0 <= j < k ==> #[trigger] ids@[j] == all@[j].0,
            forall|j: int|
                0 <= j < k ==> #[trigger] keys@[j] == cell_by(cfg@, xs@, ys@, zs@, ids@[j])
                    && keys@[j] < cfg@.cells_per_region(),
        decreases all@.len() - k,
    {
        let id = all[k];
        assert(live@.contains(id.0));
        let i: usize = id.index();
        let p = Pos3::new(xs[i], ys[i], zs[i]);
        proof {
            lemma_home_cell(cfg@, p);
        }
        let cell = cfg.cell_id(cfg.cell_of(p.horizontal()));
        ids.push(id.raw());
        keys.push(cell.raw() as usize);
        k = k + 1;
    }
    proof {
        assert forall|n: u32| #[trigger] ids@.contains(n) == live@.contains(n) by {
            if ids@.contains(n) {
                let j = choose|j: int| 0 <= j < ids@.len() && ids@[j] == n;
                assert(live@.contains(all@[j].0));
            }
            if live@.contains(n) {
                let j = choose|j: int| 0 <= j < all@.len() && all@[j] == EntityId(n);
                assert(ids@[j] == n);
            }
        }
    }
    (ids, keys)
}

/// Which part of its cell everybody in a pile is in.
fn part_keys(
    cfg: &WorldConfig,
    c: CellCoord,
    pile: &Vec<u32>,
    xs: &[Fixed],
    ys: &[Fixed],
) -> (keys: Vec<usize>)
    requires
        xs@.len() == ys@.len(),
        forall|k: int| 0 <= k < pile@.len() ==> #[trigger] pile@[k] < xs@.len(),
    ensures
        keys@.len() == pile@.len(),
        forall|k: int|
            0 <= k < keys@.len() ==> #[trigger] keys@[k] < PARTS && keys@[k] == cfg@.part_of(
                c,
                Pos2 { x: xs@[pile@[k] as int], y: ys@[pile@[k] as int] },
            ),
{
    let mut keys: Vec<usize> = Vec::new();
    let mut k: usize = 0;
    while k < pile.len()
        invariant
            k <= pile@.len(),
            keys@.len() == k,
            xs@.len() == ys@.len(),
            forall|j: int| 0 <= j < pile@.len() ==> #[trigger] pile@[j] < xs@.len(),
            forall|j: int|
                0 <= j < keys@.len() ==> #[trigger] keys@[j] < PARTS && keys@[j] == cfg@.part_of(
                    c,
                    Pos2 { x: xs@[pile@[j] as int], y: ys@[pile@[j] as int] },
                ),
        decreases pile@.len() - k,
    {
        let i: usize = pile[k] as usize;
        keys.push(CellSnapshot::part_in(cfg, c, Pos2::new(xs[i], ys[i])));
        k = k + 1;
    }
    keys
}

/// Whether ids are everybody in the first cells, each in their cell's run.
spec fn filed(
    flat: Seq<u32>,
    starts: Seq<int>,
    parts: Seq<Option<Seq<int>>>,
    w: World,
    xs: Seq<Fixed>,
    ys: Seq<Fixed>,
    zs: Seq<Fixed>,
    live: Set<u32>,
) -> bool {
    let c = parts.len() as int;
    &&& starts.len() == c + 1
    &&& divides(starts, 0, flat.len() as int)
    &&& flat.no_duplicates()
    &&& forall|n: u32| #[trigger]
        flat.contains(n) == (live.contains(n) && cell_by(w, xs, ys, zs, n) < c)
    &&& forall|a: int, i: int|
        0 <= a < c && #[trigger] in_part(starts, a, i) ==> cell_by(w, xs, ys, zs, flat[i]) == a
    &&& forall|a: int|
        0 <= a < c ==> laid(
            flat,
            starts[a],
            starts[a + 1],
            #[trigger] parts[a],
            part_by(w, xs, ys, zs, a),
        )
}

/// One cell more filed.
proof fn lemma_file(
    flat: Seq<u32>,
    starts: Seq<int>,
    parts: Seq<Option<Seq<int>>>,
    more: Seq<u32>,
    part: Option<Seq<int>>,
    pile: Seq<u32>,
    w: World,
    xs: Seq<Fixed>,
    ys: Seq<Fixed>,
    zs: Seq<Fixed>,
    live: Set<u32>,
)
    requires
        filed(flat, starts, parts, w, xs, ys, zs, live),
        flat.len() <= more.len(),
        more.take(flat.len() as int) == flat,
        more.skip(flat.len() as int).no_duplicates(),
        forall|n: u32| #[trigger]
            more.skip(flat.len() as int).contains(n) == (live.contains(n) && cell_by(
                w,
                xs,
                ys,
                zs,
                n,
            ) == parts.len()),
        laid(
            more,
            flat.len() as int,
            more.len() as int,
            part,
            part_by(w, xs, ys, zs, parts.len() as int),
        ),
    ensures
        filed(
            more,
            starts.push(more.len() as int),
            parts.push(part),
            w,
            xs,
            ys,
            zs,
            live,
        ),
{
    let c = parts.len() as int;
    let chunk = more.skip(flat.len() as int);
    let s = starts.push(more.len() as int);
    let p = parts.push(part);
    assert(more =~= flat + chunk);
    lemma_append(flat, chunk);
    assert forall|a: int, b: int| 0 <= a <= b < s.len() implies s[a] <= s[b] by {
        if b < starts.len() {
            assert(starts[a] <= starts[b]);
        } else if a < starts.len() {
            assert(starts[a] <= starts[starts.len() - 1]);
        }
    }
    assert(s[0] == starts[0]);
    assert forall|i: int| 0 <= i < flat.len() implies flat[i] == more[i] by {
        assert(more.take(flat.len() as int)[i] == more[i]);
    }
    assert forall|a: int, i: int| 0 <= a < c + 1 && #[trigger] in_part(s, a, i) implies cell_by(
        w,
        xs,
        ys,
        zs,
        more[i],
    ) == a by {
        if a < c {
            assert(in_part(starts, a, i));
            lemma_in_part(starts, 0, flat.len() as int, a, i);
        } else {
            assert(chunk[i - flat.len()] == more[i]);
            assert(chunk.contains(more[i]));
        }
    }
    assert forall|a: int| 0 <= a < c + 1 implies laid(
        more,
        s[a],
        s[a + 1],
        #[trigger] p[a],
        part_by(w, xs, ys, zs, a),
    ) by {
        if a < c {
            assert(p[a] == parts[a]);
            lemma_laid(
                flat,
                more,
                starts[a],
                starts[a + 1],
                parts[a],
                part_by(w, xs, ys, zs, a),
            );
        }
    }
}

impl CellSnapshot {
    /// Sorts a population afresh. Entity id is the index into the arrays, which
    /// are as long as each other and cover everybody alive.
    pub fn update(
        &mut self,
        xs: &[Fixed],
        ys: &[Fixed],
        zs: &[Fixed],
        tags: &[u16],
        live: &LiveSet,
    )
        requires
            old(self).wf(),
            live.wf(),
            xs@.len() == ys@.len(),
            xs@.len() == zs@.len(),
            xs@.len() == tags@.len(),
            forall|n: u32| #[trigger] live@.contains(n) ==> n < xs@.len(),
        ensures
            final(self).wf(),
            final(self)@.w == old(self)@.w,
            final(self)@.pictures(xs@, ys@, zs@, tags@, live@),
    {
        let ghost w = self@.w;
        let cells: u32 = self.cfg.cells_per_region();
        let (ids, keys) = roll(&self.cfg, xs, ys, zs, live);
        let piles = sift(&ids, &keys, cells as usize);
        let mut flat: Vec<u32> = Vec::new();
        let mut starts: Vec<usize> = Vec::new();
        starts.push(0);
        let mut parts: Vec<Option<Vec<usize>>> = Vec::new();
        let mut c: u32 = 0;
        proof {
            let p = parts@.map_values(|p: Option<Vec<usize>>| part_places(p));
            assert(p =~= Seq::<Option<Seq<int>>>::empty());
            assert forall|n: u32| #[trigger] flat@.contains(n) == (live@.contains(n) && cell_by(
                w,
                xs@,
                ys@,
                zs@,
                n,
            ) < 0) by {
                if live@.contains(n) {
                    lemma_home_cell(w, odometer::spot(xs@, ys@, zs@, n as int));
                }
            }
            assert(filed(flat@, places(starts@), p, w, xs@, ys@, zs@, live@));
        }
        while c < cells
            invariant
                c <= cells,
                self.cfg@ == w,
                w.valid(),
                cells == w.cells_per_region(),
                piles@.len() == cells,
                sifted(piles@, ids@, keys@),
                keys@.len() == ids@.len(),
                xs@.len() == ys@.len(),
                xs@.len() == zs@.len(),
                forall|n: u32| #[trigger] live@.contains(n) ==> n < xs@.len(),
                forall|n: u32| #[trigger] ids@.contains(n) == live@.contains(n),
                forall|k: int|
                    0 <= k < ids@.len() ==> #[trigger] keys@[k] == cell_by(
                        w,
                        xs@,
                        ys@,
                        zs@,
                        ids@[k],
                    ),
                parts@.len() == c,
                filed(
                    flat@,
                    places(starts@),
                    parts@.map_values(|p: Option<Vec<usize>>| part_places(p)),
                    w,
                    xs@,
                    ys@,
                    zs@,
                    live@,
                ),
            decreases cells - c,
        {
            let coord = self.cfg.cell_coord(CellId::from_raw(c));
            let ghost pile = piles@[c as int]@;
            proof {
                assert forall|n: u32| #[trigger] pile.contains(n) == (live@.contains(n) && cell_by(
                    w,
                    xs@,
                    ys@,
                    zs@,
                    n,
                ) == c) by {
                    assert(piles@[c as int]@.contains(n) == keyed(ids@, keys@, n, c as int));
                    if keyed(ids@, keys@, n, c as int) {
                        let k = choose|k: int|
                            0 <= k < ids@.len() && #[trigger] ids@[k] == n && keys@[k] == c;
                        assert(ids@.contains(n));
                        assert(keys@[k] == cell_by(w, xs@, ys@, zs@, ids@[k]));
                    }
                    if live@.contains(n) && cell_by(w, xs@, ys@, zs@, n) == c {
                        assert(ids@.contains(n));
                        let k = choose|k: int| 0 <= k < ids@.len() && ids@[k] == n;
                        assert(keys@[k] == cell_by(w, xs@, ys@, zs@, ids@[k]));
                    }
                }
                assert forall|k: int| 0 <= k < pile.len() implies #[trigger] pile[k]
                    < xs@.len() by {
                    assert(pile.contains(pile[k]));
                }
            }
            let by_part = part_keys(&self.cfg, coord, &piles[c as usize], xs, ys);
            let ghost before = flat@;
            let ghost old_starts = starts@;
            let ghost old_parts = parts@;
            let split = lay(&mut flat, &piles[c as usize], &by_part);
            let ghost one = part_places(split);
            proof {
                let f = part_by(w, xs@, ys@, zs@, c as int);
                assert forall|j: int| 0 <= j < by_part@.len() implies f(#[trigger] pile[j])
                    == by_part@[j] by {
                    assert(by_part@[j] < PARTS);
                }
                assert(laid(flat@, before.len() as int, flat@.len() as int, one, f));
                lemma_file(
                    before,
                    places(old_starts),
                    old_parts.map_values(|p: Option<Vec<usize>>| part_places(p)),
                    flat@,
                    one,
                    pile,
                    w,
                    xs@,
                    ys@,
                    zs@,
                    live@,
                );
            }
            starts.push(flat.len());
            parts.push(split);
            proof {
                assert(places(starts@) =~= places(old_starts).push(flat@.len() as int));
                assert(parts@.map_values(|p: Option<Vec<usize>>| part_places(p))
                    =~= old_parts.map_values(|p: Option<Vec<usize>>| part_places(p)).push(one));
            }
            c = c + 1;
        }
        assert forall|k: int| 0 <= k < flat@.len() implies #[trigger] flat@[k] < xs@.len() by {
            assert(flat@.contains(flat@[k]));
        }
        self.ids.clear();
        self.xs.clear();
        self.ys.clear();
        self.zs.clear();
        self.tags.clear();
        let mut i: usize = 0;
        while i < flat.len()
            invariant
                i <= flat@.len(),
                xs@.len() == ys@.len(),
                xs@.len() == zs@.len(),
                xs@.len() == tags@.len(),
                self.cfg@ == w,
                self.order@ == old(self).order@,
                self.fans@ == old(self).fans@,
                forall|k: int| 0 <= k < flat@.len() ==> #[trigger] flat@[k] < xs@.len(),
                self.ids@.len() == i,
                self.xs@.len() == i,
                self.ys@.len() == i,
                self.zs@.len() == i,
                self.tags@.len() == i,
                forall|k: int|
                    0 <= k < i ==> #[trigger] self.ids@[k] == EntityId(flat@[k]) && self.xs@[k]
                        == xs@[flat@[k] as int] && self.ys@[k] == ys@[flat@[k] as int]
                        && self.zs@[k] == zs@[flat@[k] as int] && self.tags@[k]
                        == tags@[flat@[k] as int],
            decreases flat@.len() - i,
        {
            let n: usize = flat[i] as usize;
            self.ids.push(EntityId::from_raw(flat[i]));
            self.xs.push(xs[n]);
            self.ys.push(ys[n]);
            self.zs.push(zs[n]);
            self.tags.push(tags[n]);
            i = i + 1;
        }
        self.starts = starts;
        self.parts = parts;
        proof {
            let v = self@;
            lemma_bounded(flat@);
            assert forall|k: int| 0 <= k < flat@.len() implies v.ids[k] == EntityId(flat@[k])
                && #[trigger] v.at[k] == odometer::spot(
                xs@,
                ys@,
                zs@,
                flat@[k] as int,
            ) && v.tags[k] == tags@[flat@[k] as int] && live@.contains(flat@[k]) by {
                assert(self.ids@[k] == EntityId(flat@[k]));
                assert(flat@.contains(flat@[k]));
            }
            assert forall|k: int| 0 <= k < v.ids.len() implies {
                let n = (#[trigger] v.ids[k]).0;
                live@.contains(n) && v.at[k] == odometer::spot(xs@, ys@, zs@, n as int) && v.tags[k]
                    == tags@[n as int]
            } by {
                assert(v.at[k] == odometer::spot(xs@, ys@, zs@, flat@[k] as int));
            }
            assert forall|n: u32| #[trigger] live@.contains(n) implies v.ids.contains(
                EntityId(n),
            ) by {
                lemma_home_cell(w, odometer::spot(xs@, ys@, zs@, n as int));
                assert(flat@.contains(n));
                let k = choose|k: int| 0 <= k < flat@.len() && flat@[k] == n;
                assert(self.ids@[k] == EntityId(n));
            }
            assert forall|a: int, k: int| 0 <= a < v.parts.len() && #[trigger] in_part(
                v.starts,
                a,
                k,
            ) implies v.w.home_cell(v.at[k]) == a by {
                lemma_in_part(v.starts, 0, flat@.len() as int, a, k);
            }
            assert forall|a: int| 0 <= a < v.parts.len() implies #[trigger] v.parted(a) by {
                let part = v.parts[a];
                let f = part_by(w, xs@, ys@, zs@, a);
                assert(laid(flat@, v.starts[a], v.starts[a + 1], part, f));
                assert(v.starts[0] <= v.starts[a]);
                match part {
                    None => {
                        assert forall|x: int, y: int|
                            v.starts[a] <= x < y < v.starts[a + 1] implies (#[trigger] v.ids[x]).0
                            < (#[trigger] v.ids[y]).0 by {
                            assert(v.ids[x] == EntityId(flat@[x]) && v.ids[y] == EntityId(flat@[y]));
                        }
                    },
                    Some(s) => {
                        assert forall|b: int, k: int| 0 <= b < PARTS && #[trigger] in_part(
                            s,
                            b,
                            k,
                        ) implies v.part_at(a, k) == b by {
                            lemma_in_part(s, v.starts[a], v.starts[a + 1], b, k);
                            assert(v.at[k] == odometer::spot(xs@, ys@, zs@, flat@[k] as int));
                            assert(f(flat@[k]) == b);
                        }
                        assert forall|b: int, x: int, y: int|
                            0 <= b < PARTS && #[trigger] in_part(s, b, x) && #[trigger] in_part(
                                s,
                                b,
                                y,
                            ) && x < y implies v.ids[x].0 < v.ids[y].0 by {
                            lemma_in_part(s, v.starts[a], v.starts[a + 1], b, x);
                            lemma_in_part(s, v.starts[a], v.starts[a + 1], b, y);
                            assert(v.ids[x] == EntityId(flat@[x]) && v.ids[y] == EntityId(flat@[y]));
                        }
                    },
                }
            }
            assert forall|x: int, y: int|
                0 <= x < v.ids.len() && 0 <= y < v.ids.len() && x != y implies v.ids[x]
                != v.ids[y] by {
                assert(v.ids[x] == EntityId(flat@[x]) && v.ids[y] == EntityId(flat@[y]));
            }
            assert forall|b: int| 0 <= b < PARTS implies fan::fans(
                #[trigger] self.fan_from(b),
                part_spot(b),
                0,
                7,
            ) by {
                assert(old(self).fan_from(b) == self.fan_from(b));
            }
        }
    }
}

/// No list of 32-bit numbers that repeats none is longer than there are such
/// numbers.
proof fn lemma_bounded(s: Seq<u32>)
    requires
        s.no_duplicates(),
    ensures
        s.len() <= 0x1_0000_0000,
{
    s.unique_seq_to_set();
    let all = vstd::set_lib::set_int_range(0, 0x1_0000_0000);
    vstd::set_lib::lemma_int_range(0, 0x1_0000_0000);
    let ints = s.map_values(|n: u32| n as int);
    assert forall|i: int, j: int|
        0 <= i < ints.len() && 0 <= j < ints.len() && i != j implies ints[i] != ints[j] by {
        assert(s[i] != s[j]);
    }
    ints.unique_seq_to_set();
    assert(ints.to_set().subset_of(all));
    vstd::set_lib::lemma_len_subset(ints.to_set(), all);
}

/// A run of places in a snapshot.
#[derive(Clone, Copy, Debug, PartialEq, Eq, Structural)]
pub struct CellOccupants {
    /// The first place.
    pub first: usize,
    /// One past the last.
    pub last: usize,
}

impl CellOccupants {
    /// How many there are.
    pub fn len(&self) -> (n: usize)
        requires
            self.first <= self.last,
        ensures
            n == self.last - self.first,
    {
        self.last - self.first
    }
}

/// The parts of a crowded cell.
#[derive(Clone, Copy, Debug)]
pub struct SubCells<'a> {
    starts: &'a Vec<usize>,
}

impl<'a> SubCells<'a> {
    /// Where each part starts.
    pub closed spec fn bounds(&self) -> Seq<int> {
        places(self.starts@)
    }

    /// Who is in one part.
    pub fn occupants_at(&self, b: usize) -> (run: CellOccupants)
        requires
            b < PARTS,
            self.bounds().len() == PARTS + 1,
        ensures
            run.first == self.bounds()[b as int],
            run.last == self.bounds()[b + 1],
    {
        CellOccupants { first: self.starts[b], last: self.starts[b + 1] }
    }
}

impl CellSnapshot {
    /// Who is in a cell.
    pub fn entities_for_cell(&self, c: CellId) -> (run: CellOccupants)
        requires
            self.wf(),
            c.0 < self@.w.cells_per_region(),
        ensures
            run.first == self@.starts[c.0 as int],
            run.last == self@.starts[c.0 + 1],
            run.first <= run.last <= self@.ids.len(),
    {
        proof {
            self.lemma_wf();
            assert(self@.starts.len() == self.starts.len());
            let (s, i, n) = (self@.starts, c.0 as int, self@.starts.len() - 1);
            assert(s[i] <= s[i + 1] <= s[n]);
        }
        let i: usize = c.raw() as usize;
        CellOccupants { first: self.starts[i], last: self.starts[i + 1] }
    }

    /// The parts of a cell, if it is crowded.
    pub fn sub_cells(&self, c: CellId) -> (grid: Option<SubCells<'_>>)
        requires
            self.wf(),
            c.0 < self@.w.cells_per_region(),
        ensures
            match self@.parts[c.0 as int] {
                Some(s) => {
                    &&& grid is Some
                    &&& grid->0.bounds() == s
                    &&& s.len() == PARTS + 1
                    &&& divides(s, self@.starts[c.0 as int], self@.starts[c.0 + 1])
                },
                None => grid is None,
            },
    {
        proof {
            self.lemma_wf();
            assert(self@.parted(c.0 as int));
        }
        match &self.parts[c.raw() as usize] {
            Some(starts) => Some(SubCells { starts }),
            None => None,
        }
    }

    /// The offsets from a viewer's own cell, nearest first.
    pub fn cell_order(&self) -> (order: &[(i32, i32)])
        ensures
            fan::points(order@) == self.offsets(),
    {
        self.order.as_slice()
    }

    /// The parts of a cell, nearest to a viewer first.
    pub fn sub_cell_order(&self, c: CellCoord, viewer: Pos2) -> (order: &[(i32, i32)])
        requires
            self.wf(),
        ensures
            fan::points(order@) == self.fan_from(self@.w.part_of(c, viewer)),
            0 <= self@.w.part_of(c, viewer) < PARTS,
    {
        let b: usize = CellSnapshot::part_in(&self.cfg, c, viewer);
        self.fans[b].as_slice()
    }
}

/// A cell is cut in eight each way, and a position's part is by which eighth of
/// each axis it is in, or nearest to: eights of a row side by side, row above
/// row.
pub proof fn law_a_part_is_an_eighth_each_way(w: World, c: CellCoord, p: Pos2)
    requires
        w.valid(),
    ensures
        ({
            let b = w.part_of(c, p);
            let x = vstd::math::max(0, vstd::math::min(p.x.0 - c.x * w.cell_size, w.cell_size - 1));
            let y = vstd::math::max(0, vstd::math::min(p.y.0 - c.y * w.cell_size, w.cell_size - 1));
            &&& 0 <= b < 64
            &&& b % 8 == x * 8 / w.cell_size
            &&& b / 8 == y * 8 / w.cell_size
            &&& part_spot(b) == (x * 8 / w.cell_size, y * 8 / w.cell_size)
        }),
{
    lemma_axis_part(w, p.x, c.x as int);
    lemma_axis_part(w, p.y, c.y as int);
}

/// A snapshot has everybody who is alive, once, in the run of the cell they are
/// in, and a run of more than 256 is cut into parts.
pub proof fn law_a_snapshot_has_everybody_in_their_cell(
    s: CellSnapshot,
    xs: Seq<Fixed>,
    ys: Seq<Fixed>,
    zs: Seq<Fixed>,
    tags: Seq<u16>,
    live: Set<u32>,
    n: u32,
)
    requires
        s.wf(),
        s@.pictures(xs, ys, zs, tags, live),
    ensures
        live.contains(n) <==> s@.ids.contains(EntityId(n)),
        live.contains(n) ==> exists|i: int|
            {
                &&& 0 <= i < s@.ids.len()
                &&& #[trigger] s@.ids[i] == EntityId(n)
                &&& s@.at[i].x == xs[n as int] && s@.at[i].y == ys[n as int] && s@.at[i].z
                    == zs[n as int]
                &&& s@.tags[i] == tags[n as int]
                &&& forall|j: int| 0 <= j < s@.ids.len() && j != i ==> #[trigger] s@.ids[j]
                    != EntityId(n)
            },
        forall|c: int, i: int|
            0 <= c < s@.parts.len() && #[trigger] in_part(s@.starts, c, i) ==> {
                let cell = s@.w.cell_of(s@.at[i].flat());
                c == cell.y * (s@.w.region_size / s@.w.cell_size) + cell.x
            },
        forall|c: int|
            0 <= c < s@.parts.len() ==> ((#[trigger] s@.parts[c]) is Some <==> s@.starts[c + 1]
                - s@.starts[c] > 256),
{
    s.lemma_wf();
    let scene = s@;
    if live.contains(n) {
        let i = choose|i: int| 0 <= i < scene.ids.len() && scene.ids[i] == EntityId(n);
        assert(scene.ids[i] == EntityId(n));
    }
    if scene.ids.contains(EntityId(n)) {
        let i = choose|i: int| 0 <= i < scene.ids.len() && scene.ids[i] == EntityId(n);
        assert(live.contains(scene.ids[i].0));
    }
    assert forall|c: int| 0 <= c < scene.parts.len() implies ((#[trigger] scene.parts[c]) is Some
        <==> scene.starts[c + 1] - scene.starts[c] > 256) by {
        assert(scene.parted(c));
    }
}

} // verus!
