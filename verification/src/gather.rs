//! The gather pass and its output.
//!
//! The pass itself is [`CellSnapshot::gather_into`]. Gathering
//! is the act of fetching cell and entity candidates from a
//! portion of the world. There are different gathers for different
//! purposes.

use vstd::prelude::*;

use crate::config;
use crate::config::World;
use crate::entity::EntityId;
use crate::fan;
use crate::fixed::{DistSq, Fixed};
use crate::odometer;
use crate::pos;
use crate::pos::{CellCoord, Pos3};
use crate::snapshot;
use crate::snapshot::{CellOccupants, CellSnapshot, Scene, PARTS};
use crate::subscription::Subscription;

verus! {

/// One entity within a viewer's range, and its distance from that viewer.
///
/// The distance is squared. Ordering survives squaring, so comparison and
/// sorting need no square root.
#[derive(Clone, Copy, PartialEq, Eq, Debug, Structural)]
pub struct DiscoveredEntity {
    /// Which entity.
    pub id: EntityId,
    /// Index into the entity arrays of the snapshot this was gathered from.
    /// Reading the position needs no id lookup. Invalidated by the next
    /// [`CellSnapshot::update`].
    pub snapshot_index: u32,
    /// Squared distance from the viewer.
    pub dist_sq: DistSq,
}

impl DiscoveredEntity {
    /// Create a discovered entity from the three parts a cell
    /// traversal already has in hand.
    pub fn new(id: EntityId, snapshot_index: u32, dist_sq: DistSq) -> (d: DiscoveredEntity)
        ensures
            d == (DiscoveredEntity { id, snapshot_index, dist_sq }),
    {
        DiscoveredEntity { id, snapshot_index, dist_sq }
    }
}

/// Entities gathered for one viewer, in cell-walk order.
///
/// Cell-walk order is not relevance order. Callers needing the nearest entities
/// must sort or select.
///
/// Held per worker thread and reused across viewers. [`clear`](Self::clear)
/// retains the allocation.
///
/// Wide enough that two next to each other keep their lengths on different
/// cache lines, to avoid invalidating caches on other cores when processing in
/// parallel.
#[derive(Debug, Clone)]
pub struct DiscoveredEntities {
    items: Vec<DiscoveredEntity>,
    apart: [u64; 16],
}

impl View for DiscoveredEntities {
    type V = Seq<DiscoveredEntity>;

    closed spec fn view(&self) -> Seq<DiscoveredEntity> {
        self.items@
    }
}

/// [`Vec::capacity`]: how many elements a vector holds without reallocating,
/// never fewer than it has. Which number that is rests with the allocator, and
/// nothing is claimed of it.
#[verifier::external_body]
fn room_in(items: &Vec<DiscoveredEntity>) -> (n: usize)
    ensures
        n >= items@.len(),
{
    items.capacity()
}

impl DiscoveredEntities {
    /// Empty, allocating nothing until something is pushed.
    pub fn new() -> (d: DiscoveredEntities)
        ensures
            d@ == Seq::<DiscoveredEntity>::empty(),
    {
        DiscoveredEntities { items: Vec::new(), apart: [0u64; 16] }
    }

    /// Empty, with room for `n` before it grows. What a worker reuses. How much
    /// room a vector really has rests with the allocator, so the contract says
    /// nothing of it.
    pub fn with_capacity(n: usize) -> (d: DiscoveredEntities)
        ensures
            d@ == Seq::<DiscoveredEntity>::empty(),
    {
        DiscoveredEntities { items: Vec::with_capacity(n), apart: [0u64; 16] }
    }

    /// Appends one, keeping cell-walk order.
    pub fn push(&mut self, found: DiscoveredEntity)
        ensures
            final(self)@ == old(self)@.push(found),
    {
        self.items.push(found);
    }

    /// Empties the buffer without releasing its allocation.
    pub fn clear(&mut self)
        ensures
            final(self)@ == Seq::<DiscoveredEntity>::empty(),
    {
        self.items.clear();
    }

    /// How many were gathered.
    pub fn len(&self) -> (n: usize)
        ensures
            n == self@.len(),
    {
        self.items.len()
    }

    /// Whether the walk found nothing.
    pub fn is_empty(&self) -> (b: bool)
        ensures
            b == (self@.len() == 0),
    {
        self.items.len() == 0
    }

    /// Entries the buffer holds before it reallocates.
    pub fn capacity(&self) -> (n: usize)
        ensures
            n >= self@.len(),
    {
        room_in(&self.items)
    }

    /// What was gathered, in cell-walk order.
    pub fn as_slice(&self) -> (items: &[DiscoveredEntity])
        ensures
            items@ == self@,
    {
        self.items.as_slice()
    }

    /// The same, for a caller that sorts in place.
    pub fn as_mut_slice(&mut self) -> (items: &mut [DiscoveredEntity])
        ensures
            items@ == old(self)@,
            final(self)@ == final(items)@,
    {
        self.items.as_mut_slice()
    }

    /// What was gathered, in cell-walk order, one at a time.
    pub fn iter(&self) -> (it: core::slice::Iter<'_, DiscoveredEntity>)
        ensures
            vstd::std_specs::iter::IteratorSpec::remaining(&it).unref() == self@,
    {
        self.items.iter()
    }
}

impl Default for DiscoveredEntities {
    fn default() -> (d: DiscoveredEntities)
        ensures
            d@ == Seq::<DiscoveredEntity>::empty(),
    {
        DiscoveredEntities::new()
    }
}

// ---------------------------------------------------------------------------
// What a walk finds
// ---------------------------------------------------------------------------

/// Whether a viewer sees a position: by its horizontal distance alone, so the
/// region in view is a vertical cylinder.
pub open spec fn in_view(w: World, viewer: Pos3, p: Pos3) -> bool {
    viewer.flat().gap_sq(p.flat()) <= w.view_radius * w.view_radius
}

/// Somebody in a snapshot, as a viewer discovers them. The distance is the
/// full separation.
pub open spec fn discovered(scene: Scene, viewer: Pos3, i: int) -> DiscoveredEntity {
    DiscoveredEntity {
        id: scene.ids[i],
        snapshot_index: i as u32,
        dist_sq: DistSq(pos::held_u64(viewer.gap_sq(scene.at[i])) as u64),
    }
}

/// Everybody in view among a run of places, in order.
pub open spec fn spotted(scene: Scene, viewer: Pos3, from: int, to: int) -> Seq<DiscoveredEntity>
    decreases to - from,
{
    if to <= from {
        Seq::empty()
    } else {
        let front = spotted(scene, viewer, from, to - 1);
        if in_view(scene.w, viewer, scene.at[to - 1]) {
            front.push(discovered(scene, viewer, to - 1))
        } else {
            front
        }
    }
}

/// Whether so many entries are all a walk wants. One without a cap wants
/// everybody.
pub open spec fn enough(n: nat, cap: Option<nat>) -> bool {
    match cap {
        Some(cap) => n >= cap,
        None => false,
    }
}

/// What a walk over runs leaves: it stops once there are `cap`, at the end of
/// a run.
pub open spec fn walked(
    scene: Scene,
    viewer: Pos3,
    out: Seq<DiscoveredEntity>,
    runs: Seq<(int, int)>,
    cap: Option<nat>,
) -> Seq<DiscoveredEntity>
    decreases runs.len(),
{
    if runs.len() == 0 {
        out
    } else {
        let now = out + spotted(scene, viewer, runs[0].0, runs[0].1);
        if enough(now.len(), cap) {
            now
        } else {
            walked(scene, viewer, now, runs.drop_first(), cap)
        }
    }
}

/// The runs of the parts of a cell, in the order given.
pub open spec fn part_runs(starts: Seq<int>, order: Seq<(int, int)>) -> Seq<(int, int)> {
    order.map_values(|p: (int, int)| (starts[p.1 * 8 + p.0], starts[p.1 * 8 + p.0 + 1]))
}

/// A cap as a number of entries.
pub open spec fn counted(cap: Option<usize>) -> Option<nat> {
    match cap {
        Some(cap) => Some(cap as nat),
        None => None,
    }
}

/// Whether so many entries are all a walk wants.
fn is_enough(n: usize, cap: Option<usize>) -> (b: bool)
    ensures
        b == enough(n as nat, counted(cap)),
{
    match cap {
        Some(cap) => n >= cap,
        None => false,
    }
}

impl CellSnapshot {
    /// The runs of one cell: one, or one for each part, nearest to the viewer
    /// first.
    pub open spec fn cell_runs(&self, viewer: Pos3, x: int, y: int) -> Seq<(int, int)> {
        let coord = CellCoord { x: x as u16, y: y as u16 };
        let c = self@.w.cell_id(coord);
        match self@.parts[c] {
            None => seq![(self@.starts[c], self@.starts[c + 1])],
            Some(s) => part_runs(s, self.fan_from(self@.w.part_of(coord, viewer.flat()))),
        }
    }

    /// The runs at these offsets from the viewer's own cell that a
    /// subscription covers.
    pub open spec fn runs(
        &self,
        viewer: Pos3,
        sub: Subscription,
        offsets: Seq<(int, int)>,
    ) -> Seq<(int, int)>
        decreases offsets.len(),
    {
        if offsets.len() == 0 {
            Seq::empty()
        } else {
            let center = self@.w.cell_of(viewer.flat());
            let (x, y) = (center.x + offsets[0].0, center.y + offsets[0].1);
            let rest = self.runs(viewer, sub, offsets.drop_first());
            if sub.covers(x, y) {
                self.cell_runs(viewer, x, y) + rest
            } else {
                rest
            }
        }
    }

    /// Tests one run of entities against the view radius and appends survivors.
    fn take(&self, viewer: Pos3, run: CellOccupants, out: &mut DiscoveredEntities)
        requires
            self.wf(),
            run.first <= run.last <= self@.ids.len(),
        ensures
            final(out)@ == old(out)@ + spotted(
                self@,
                viewer,
                run.first as int,
                run.last as int,
            ),
    {
        proof {
            self.lemma_wf();
        }
        let cfg = self.config();
        let radius_sq = DistSq::from_radius(cfg.horizontal_view_radius());
        let near = viewer.horizontal();
        let mut i: usize = run.first;
        assert(out@ =~= old(out)@ + spotted(self@, viewer, run.first as int, i as int));
        while i < run.last
            invariant
                self.wf(),
                self@.sorted(),
                cfg@ == self@.w,
                run.first <= i <= run.last <= self@.ids.len(),
                near == viewer.flat(),
                radius_sq.0 == self@.w.view_radius * self@.w.view_radius,
                out@ == old(out)@ + spotted(self@, viewer, run.first as int, i as int),
            decreases run.last - i,
        {
            let p = self.pos_at(i);
            let ghost before = out@;
            if near.dist_sq(p.horizontal()).raw() <= radius_sq.raw() {
                proof {
                    let r = self@.w.view_radius;
                    assert(r * r < 0x4000_0000_0000_0000) by (nonlinear_arith)
                        requires
                            0 <= r <= 0x7fff_ffff,
                    ;
                }
                out.push(DiscoveredEntity::new(self.id_at(i), i as u32, viewer.dist_sq(p)));
                assert(out@ =~= old(out)@ + spotted(self@, viewer, run.first as int, i + 1));
            } else {
                proof {
                    let r = self@.w.view_radius;
                    assert(r * r < 0x4000_0000_0000_0000) by (nonlinear_arith)
                        requires
                            0 <= r <= 0x7fff_ffff,
                    ;
                }
            }
            i = i + 1;
        }
    }

    /// Appends the entities within view of `viewer` to `out`.
    ///
    /// Walks every cell in `sub`. An entity is in view when its horizontal
    /// distance from `viewer` is within `horizontal_view_radius`. The recorded
    /// distance is the full 3D separation.
    ///
    /// The horizontal test matches the 2D cell grid, so the region in view is a
    /// vertical cylinder. Height affects the recorded distance, not membership.
    ///
    /// Does not clear `out`. Does not exclude the viewer's own entity.
    pub fn gather_into(&self, viewer: Pos3, sub: Subscription, out: &mut DiscoveredEntities)
        requires
            self.wf(),
            sub.within(self@.w),
            sub.covers(
                self@.w.cell_of(viewer.flat()).x as int,
                self@.w.cell_of(viewer.flat()).y as int,
            ),
        ensures
            final(out)@ == old(out)@ + everyone(
                self@,
                viewer,
                self.runs(viewer, sub, self.offsets()),
            ),
    {
        self.walk(viewer, sub, None, out);
        proof {
            lemma_walked(self@, viewer, old(out)@, self.runs(viewer, sub, self.offsets()), None);
        }
    }

    /// [`Self::gather_into`], stopping once `out` holds `cap` entries.
    ///
    /// Cells are visited outward from the viewer's own cell, and a subdivided
    /// cell is visited by sub-cell outward from the viewer's own sub-cell, so a
    /// caller that stops early keeps the nearer entities.
    ///
    /// `cap` counts everything in `out`, including entries present before the
    /// call. It gets checked at cell and sub-cell boundaries rather than per
    /// entity, so `out` may exceed it by up to the population of the last cell
    /// or sub-cell walked.
    ///
    /// The walk enumerates offsets from the viewer's own cell and rejects
    /// anything outside `sub`, which covers `sub` exactly when it was built by
    /// `Subscription::at_center` on the viewer's cell.
    pub fn gather_into_capped(
        &self,
        viewer: Pos3,
        sub: Subscription,
        cap: usize,
        out: &mut DiscoveredEntities,
    )
        requires
            self.wf(),
            sub.within(self@.w),
            sub.covers(
                self@.w.cell_of(viewer.flat()).x as int,
                self@.w.cell_of(viewer.flat()).y as int,
            ),
        ensures
            final(out)@ == walked(
                self@,
                viewer,
                old(out)@,
                self.runs(viewer, sub, self.offsets()),
                Some(cap as nat),
            ),
    {
        self.walk(viewer, sub, Some(cap), out);
    }

    /// Walks the cells of a subscription outward, stopping once `out` holds
    /// `cap` entries where there is a cap.
    fn walk(
        &self,
        viewer: Pos3,
        sub: Subscription,
        cap: Option<usize>,
        out: &mut DiscoveredEntities,
    )
        requires
            self.wf(),
            sub.within(self@.w),
        ensures
            final(out)@ == walked(
                self@,
                viewer,
                old(out)@,
                self.runs(viewer, sub, self.offsets()),
                counted(cap),
            ),
    {
        let cfg = self.config();
        let near = viewer.horizontal();
        let center = cfg.cell_of(near);
        let order = self.cell_order();
        let ghost offsets = self.offsets();
        let ghost goal = walked(
            self@,
            viewer,
            out@,
            self.runs(viewer, sub, offsets),
            counted(cap),
        );
        proof {
            self.lemma_wf();
            assert(offsets.skip(0) =~= offsets);
        }
        let mut k: usize = 0;
        while k < order.len()
            invariant
                k <= order@.len(),
                self.wf(),
                self@.sorted(),
                cfg@ == self@.w,
                sub.within(self@.w),
                near == viewer.flat(),
                center == self@.w.cell_of(near),
                offsets == fan::points(order@),
                offsets == self.offsets(),
                fan::fans(offsets, (0, 0), -self@.w.cell_radius(), self@.w.cell_radius()),
                forall|b: int|
                    0 <= b < PARTS ==> fan::fans(
                        #[trigger] self.fan_from(b),
                        snapshot::part_spot(b),
                        0,
                        7,
                    ),
                goal == walked(
                    self@,
                    viewer,
                    out@,
                    self.runs(viewer, sub, offsets.skip(k as int)),
                    counted(cap),
                ),
                goal == walked(
                    self@,
                    viewer,
                    old(out)@,
                    self.runs(viewer, sub, offsets),
                    counted(cap),
                ),
            decreases order@.len() - k,
        {
            let (dx, dy) = order[k];
            proof {
                assert(fan::boxed(
                    -self@.w.cell_radius(),
                    self@.w.cell_radius(),
                    offsets[k as int],
                ));
                assert(offsets.skip(k as int)[0] == (dx as int, dy as int));
                assert(offsets.skip(k as int).drop_first() =~= offsets.skip(k + 1));
            }
            let cx: i32 = center.x as i32 + dx;
            let cy: i32 = center.y as i32 + dy;
            let ghost rest = self.runs(viewer, sub, offsets.skip(k + 1));
            if cx < sub.x0 || cx > sub.x1 || cy < sub.y0 || cy > sub.y1 {
                k = k + 1;
                continue;
            }
            let coord = CellCoord::new(cx as u16, cy as u16);
            let cid = cfg.cell_id(coord);
            proof {
                lemma_cell_place(self@.w, coord);
                assert(self@.parted(cid.0 as int));
            }
            let ghost here = self.cell_runs(viewer, cx as int, cy as int);
            match self.sub_cells(cid) {
                Some(grid) => {
                    let fanned = self.sub_cell_order(coord, near);
                    let ghost fan_points = fan::points(fanned@);
                    let mut b: usize = 0;
                    proof {
                        assert(here.skip(0) =~= here);
                    }
                    while b < fanned.len()
                        invariant
                            b <= fanned@.len(),
                            goal == walked(
                                self@,
                                viewer,
                                old(out)@,
                                self.runs(viewer, sub, self.offsets()),
                                counted(cap),
                            ),
                            self.wf(),
                            self@.sorted(),
                            grid.bounds().len() == PARTS + 1,
                            cid.0 < self@.w.cells_per_region(),
                            snapshot::divides(
                                grid.bounds(),
                                self@.starts[cid.0 as int],
                                self@.starts[cid.0 + 1],
                            ),
                            0 <= self@.starts[cid.0 as int] <= self@.starts[cid.0 + 1]
                                <= self@.ids.len(),
                            fan_points == fan::points(fanned@),
                            here == part_runs(grid.bounds(), fan_points),
                            forall|i: int|
                                0 <= i < fan_points.len() ==> fan::boxed(
                                    0,
                                    7,
                                    #[trigger] fan_points[i],
                                ),
                            goal == walked(
                                self@,
                                viewer,
                                out@,
                                here.skip(b as int) + rest,
                                counted(cap),
                            ),
                        decreases fanned@.len() - b,
                    {
                        let (px, py) = fanned[b];
                        proof {
                            assert(fan::boxed(0, 7, fan_points[b as int]));
                            assert(here.skip(b as int)[0] == here[b as int]);
                            let left = here.skip(b as int) + rest;
                            assert(left[0] == here[b as int]);
                            assert(left.drop_first() =~= here.skip(b + 1) + rest);
                            let s = grid.bounds();
                            let p = py * 8 + px;
                            assert(s[0] <= s[p] <= s[p + 1] <= s[s.len() - 1]);
                        }
                        let run = grid.occupants_at((py * 8 + px) as usize);
                        self.take(viewer, run, out);
                        if is_enough(out.len(), cap) {
                            return;
                        }
                        b = b + 1;
                    }
                    proof {
                        assert(here.skip(b as int) + rest =~= rest);
                    }
                },
                None => {
                    proof {
                        let left = here + rest;
                        assert(left[0] == here[0]);
                        assert(left.drop_first() =~= rest);
                    }
                    self.take(viewer, self.entities_for_cell(cid), out);
                    if is_enough(out.len(), cap) {
                        return;
                    }
                },
            }
            k = k + 1;
        }
        proof {
            assert(offsets.skip(k as int).len() == 0);
        }
    }
}

/// A cell of the region has a run.
proof fn lemma_cell_place(w: World, c: CellCoord)
    requires
        w.valid(),
        c.x < w.cells_per_axis(),
        c.y < w.cells_per_axis(),
    ensures
        0 <= w.cell_id(c) < w.cells_per_region(),
{
    let n = w.cells_per_axis();
    let (x, y) = (c.x as int, c.y as int);
    assert(0 <= y * n + x < n * n) by (nonlinear_arith)
        requires
            0 <= x <= n - 1,
            0 <= y <= n - 1,
    ;
}

// ---------------------------------------------------------------------------
// What holds of every walk
// ---------------------------------------------------------------------------

/// Everybody in view over all the runs.
pub open spec fn everyone(scene: Scene, viewer: Pos3, runs: Seq<(int, int)>) -> Seq<DiscoveredEntity>
    decreases runs.len(),
{
    if runs.len() == 0 {
        Seq::empty()
    } else {
        spotted(scene, viewer, runs[0].0, runs[0].1) + everyone(scene, viewer, runs.drop_first())
    }
}

/// Whether a discovery is of somebody in view, as they are.
pub open spec fn genuine(scene: Scene, viewer: Pos3, d: DiscoveredEntity) -> bool {
    let i = d.snapshot_index as int;
    &&& i < scene.ids.len()
    &&& in_view(scene.w, viewer, scene.at[i])
    &&& d == discovered(scene, viewer, i)
}

/// Whether nobody is discovered twice.
pub open spec fn distinct(found: Seq<DiscoveredEntity>) -> bool {
    forall|a: int, b: int|
        0 <= a < b < found.len() ==> (#[trigger] found[a]).snapshot_index != (
        #[trigger] found[b]).snapshot_index
}

/// How many cells off from a viewer's own somebody's cell is, each way.
pub open spec fn offset_of(scene: Scene, viewer: Pos3, i: int) -> (int, int) {
    let (here, there) = (
        scene.w.cell_of(viewer.flat()),
        scene.w.cell_of(scene.at[i].flat()),
    );
    (there.x - here.x, there.y - here.y)
}

/// Everybody in view in one run.
proof fn lemma_spotted(scene: Scene, viewer: Pos3, from: int, to: int)
    requires
        0 <= from,
        to <= scene.ids.len() <= 0x1_0000_0000,
    ensures
        forall|k: int|
            0 <= k < spotted(scene, viewer, from, to).len() ==> genuine(
                scene,
                viewer,
                #[trigger] spotted(scene, viewer, from, to)[k],
            ) && from <= spotted(scene, viewer, from, to)[k].snapshot_index < to,
        forall|i: int|
            from <= i < to && in_view(scene.w, viewer, scene.at[i]) ==> spotted(
                scene,
                viewer,
                from,
                to,
            ).contains(#[trigger] discovered(scene, viewer, i)),
        distinct(spotted(scene, viewer, from, to)),
    decreases to - from,
{
    if from < to {
        lemma_spotted(scene, viewer, from, to - 1);
        let front = spotted(scene, viewer, from, to - 1);
        let all = spotted(scene, viewer, from, to);
        if in_view(scene.w, viewer, scene.at[to - 1]) {
            let last = discovered(scene, viewer, to - 1);
            assert(all == front.push(last));
            assert(all[front.len() as int] == last);
            assert forall|i: int|
                from <= i < to && in_view(
                    scene.w,
                    viewer,
                    scene.at[i],
                ) implies all.contains(#[trigger] discovered(scene, viewer, i)) by {
                if i < to - 1 {
                    let k = choose|k: int|
                        0 <= k < front.len() && front[k] == discovered(scene, viewer, i);
                    assert(all[k] == discovered(scene, viewer, i));
                }
            }
        }
    }
}

/// Runs after runs.
proof fn lemma_everyone_splits(
    scene: Scene,
    viewer: Pos3,
    a: Seq<(int, int)>,
    b: Seq<(int, int)>,
)
    ensures
        everyone(scene, viewer, a + b) == everyone(scene, viewer, a) + everyone(scene, viewer, b),
    decreases a.len(),
{
    if a.len() == 0 {
        assert(a + b =~= b);
        assert(everyone(scene, viewer, a + b) =~= everyone(scene, viewer, a) + everyone(
            scene,
            viewer,
            b,
        ));
    } else {
        lemma_everyone_splits(scene, viewer, a.drop_first(), b);
        assert((a + b).drop_first() =~= a.drop_first() + b);
        assert(everyone(scene, viewer, a + b) =~= everyone(scene, viewer, a) + everyone(
            scene,
            viewer,
            b,
        ));
    }
}

/// A place in a divided range is in one of its parts.
proof fn lemma_divided(starts: Seq<int>, from: int, to: int, i: int) -> (b: int)
    requires
        snapshot::divides(starts, from, to),
        from <= i < to,
    ensures
        0 <= b < starts.len() - 1,
        snapshot::in_part(starts, b, i),
    decreases starts.len(),
{
    let n = starts.len() - 1;
    assert(starts[0] == from);
    assert(n > 0);
    if starts[n - 1] <= i {
        n - 1
    } else {
        let front = starts.drop_last();
        assert(front.last() == starts[n - 1]);
        let b = lemma_divided(front, from, starts[n - 1], i);
        assert(front[b] == starts[b] && front[b + 1] == starts[b + 1]);
        b
    }
}

/// A place is in one part alone.
proof fn lemma_one_part(starts: Seq<int>, from: int, to: int, a: int, b: int, i: int)
    requires
        snapshot::divides(starts, from, to),
        0 <= a < starts.len() - 1,
        0 <= b < starts.len() - 1,
        snapshot::in_part(starts, a, i),
        snapshot::in_part(starts, b, i),
    ensures
        a == b,
{
    if a < b {
        assert(starts[a + 1] <= starts[b]);
    } else if b < a {
        assert(starts[b + 1] <= starts[a]);
    }
}

/// Whether a list of discoveries is everybody in view whom a test names.
spec fn finds(
    scene: Scene,
    viewer: Pos3,
    found: Seq<DiscoveredEntity>,
    named: spec_fn(int) -> bool,
) -> bool {
    &&& forall|k: int|
        0 <= k < found.len() ==> genuine(scene, viewer, #[trigger] found[k]) && named(
            found[k].snapshot_index as int,
        )
    &&& forall|i: int|
        0 <= i < scene.ids.len() && named(i) && in_view(scene.w, viewer, scene.at[i])
            ==> found.contains(#[trigger] discovered(scene, viewer, i))
    &&& distinct(found)
}

/// Two lists whose tests name nobody in common, one after the other.
proof fn lemma_finds_both(
    scene: Scene,
    viewer: Pos3,
    a: Seq<DiscoveredEntity>,
    b: Seq<DiscoveredEntity>,
    in_a: spec_fn(int) -> bool,
    in_b: spec_fn(int) -> bool,
    named: spec_fn(int) -> bool,
)
    requires
        finds(scene, viewer, a, in_a),
        finds(scene, viewer, b, in_b),
        forall|i: int|
            0 <= i < scene.ids.len() ==> #[trigger] named(i) == (in_a(i) || in_b(i)),
        forall|i: int| 0 <= i < scene.ids.len() ==> !(#[trigger] in_a(i) && in_b(i)),
    ensures
        finds(scene, viewer, a + b, named),
{
    let both = a + b;
    assert forall|k: int| 0 <= k < both.len() implies genuine(
        scene,
        viewer,
        #[trigger] both[k],
    ) && named(both[k].snapshot_index as int) by {
        if k < a.len() {
            assert(both[k] == a[k]);
        } else {
            assert(both[k] == b[k - a.len()]);
        }
    }
    assert forall|i: int|
        0 <= i < scene.ids.len() && named(i) && in_view(
            scene.w,
            viewer,
            scene.at[i],
        ) implies both.contains(#[trigger] discovered(scene, viewer, i)) by {
        let d = discovered(scene, viewer, i);
        if in_a(i) {
            let k = choose|k: int| 0 <= k < a.len() && a[k] == d;
            assert(both[k] == d);
        } else {
            let k = choose|k: int| 0 <= k < b.len() && b[k] == d;
            assert(both[a.len() + k] == d);
        }
    }
    assert forall|x: int, y: int| 0 <= x < y < both.len() implies (
    #[trigger] both[x]).snapshot_index != (#[trigger] both[y]).snapshot_index by {
        if y < a.len() {
            assert(both[x] == a[x] && both[y] == a[y]);
        } else if x >= a.len() {
            assert(both[x] == b[x - a.len()] && both[y] == b[y - a.len()]);
        } else {
            assert(both[x] == a[x] && both[y] == b[y - a.len()]);
            let i = a[x].snapshot_index as int;
            assert(in_a(i));
        }
    }
}

/// A test may be put another way.
proof fn lemma_finds_same(
    scene: Scene,
    viewer: Pos3,
    found: Seq<DiscoveredEntity>,
    a: spec_fn(int) -> bool,
    b: spec_fn(int) -> bool,
)
    requires
        finds(scene, viewer, found, a),
        forall|i: int| 0 <= i < scene.ids.len() ==> #[trigger] a(i) == b(i),
    ensures
        finds(scene, viewer, found, b),
{
    assert forall|k: int| 0 <= k < found.len() implies genuine(
        scene,
        viewer,
        #[trigger] found[k],
    ) && b(found[k].snapshot_index as int) by {
        assert(a(found[k].snapshot_index as int));
    }
    assert forall|i: int|
        0 <= i < scene.ids.len() && b(i) && in_view(
            scene.w,
            viewer,
            scene.at[i],
        ) implies found.contains(#[trigger] discovered(scene, viewer, i)) by {
        assert(a(i));
    }
}

/// Everybody in view in the parts listed.
proof fn lemma_parts(
    scene: Scene,
    viewer: Pos3,
    starts: Seq<int>,
    from: int,
    to: int,
    order: Seq<(int, int)>,
)
    requires
        0 <= from <= to <= scene.ids.len() <= 0x1_0000_0000,
        starts.len() == PARTS + 1,
        snapshot::divides(starts, from, to),
        forall|k: int| 0 <= k < order.len() ==> fan::boxed(0, 7, #[trigger] order[k]),
        order.no_duplicates(),
    ensures
        finds(
            scene,
            viewer,
            everyone(scene, viewer, part_runs(starts, order)),
            |i: int|
                exists|k: int|
                    0 <= k < order.len() && snapshot::in_part(
                        starts,
                        (#[trigger] order[k]).1 * 8 + order[k].0,
                        i,
                    ),
        ),
    decreases order.len(),
{
    let runs = part_runs(starts, order);
    let named = |i: int|
        exists|k: int|
            0 <= k < order.len() && snapshot::in_part(
                starts,
                (#[trigger] order[k]).1 * 8 + order[k].0,
                i,
            );
    if order.len() > 0 {
        let rest = order.drop_first();
        assert(fan::boxed(0, 7, order[0]));
        assert forall|k: int| 0 <= k < rest.len() implies fan::boxed(0, 7, #[trigger] rest[k]) by {
            assert(rest[k] == order[k + 1]);
        }
        lemma_parts(scene, viewer, starts, from, to, rest);
        assert(runs.drop_first() =~= part_runs(starts, rest));
        let b = order[0].1 * 8 + order[0].0;
        assert(runs[0] == (starts[b], starts[b + 1]));
        assert(starts[0] <= starts[b] <= starts[b + 1] <= starts[starts.len() - 1]);
        lemma_spotted(scene, viewer, starts[b], starts[b + 1]);
        let head = |i: int| snapshot::in_part(starts, b, i);
        let tail = |i: int|
            exists|k: int|
                0 <= k < rest.len() && snapshot::in_part(
                    starts,
                    (#[trigger] rest[k]).1 * 8 + rest[k].0,
                    i,
                );
        assert(finds(scene, viewer, spotted(scene, viewer, starts[b], starts[b + 1]), head));
        assert forall|i: int| 0 <= i < scene.ids.len() implies #[trigger] named(i) == (head(i)
            || tail(i)) by {
            if named(i) {
                let k = choose|k: int|
                    0 <= k < order.len() && snapshot::in_part(
                        starts,
                        (#[trigger] order[k]).1 * 8 + order[k].0,
                        i,
                    );
                if k > 0 {
                    assert(rest[k - 1] == order[k]);
                }
            }
            if tail(i) {
                let k = choose|k: int|
                    0 <= k < rest.len() && snapshot::in_part(
                        starts,
                        (#[trigger] rest[k]).1 * 8 + rest[k].0,
                        i,
                    );
                assert(order[k + 1] == rest[k]);
            }
        }
        assert forall|i: int| 0 <= i < scene.ids.len() implies !(#[trigger] head(i) && tail(
            i,
        )) by {
            if head(i) && tail(i) {
                let k = choose|k: int|
                    0 <= k < rest.len() && snapshot::in_part(
                        starts,
                        (#[trigger] rest[k]).1 * 8 + rest[k].0,
                        i,
                    );
                assert(fan::boxed(0, 7, rest[k]));
                assert(rest[k] == order[k + 1]);
                lemma_one_part(starts, from, to, b, rest[k].1 * 8 + rest[k].0, i);
            }
        }
        lemma_finds_both(
            scene,
            viewer,
            spotted(scene, viewer, starts[b], starts[b + 1]),
            everyone(scene, viewer, part_runs(starts, rest)),
            head,
            tail,
            named,
        );
    }
}

impl CellSnapshot {
    /// Everybody in view in one cell.
    proof fn lemma_cell(&self, viewer: Pos3, x: int, y: int)
        requires
            self.wf(),
            0 <= x < self@.w.cells_per_axis(),
            0 <= y < self@.w.cells_per_axis(),
        ensures
            finds(
                self@,
                viewer,
                everyone(self@, viewer, self.cell_runs(viewer, x, y)),
                |i: int|
                    self@.w.cell_of(self@.at[i].flat()) == (CellCoord { x: x as u16, y: y as u16 }),
            ),
    {
        self.lemma_wf();
        let scene = self@;
        let w = scene.w;
        let coord = CellCoord { x: x as u16, y: y as u16 };
        let c = w.cell_id(coord);
        lemma_cell_place(w, coord);
        assert(scene.parted(c));
        let (from, to) = (scene.starts[c], scene.starts[c + 1]);
        assert(scene.starts[0] <= from <= to <= scene.starts[scene.starts.len() - 1]);
        let here = |i: int| w.cell_of(scene.at[i].flat()) == coord;
        let inside = |i: int| from <= i < to;
        assert forall|i: int| 0 <= i < scene.ids.len() implies #[trigger] inside(i) == here(i) by {
            let b = lemma_divided(scene.starts, 0, scene.ids.len() as int, i);
            assert(w.home_cell(scene.at[i]) == b);
            snapshot::lemma_home_cell(w, scene.at[i]);
            config::law_cell_id_round_trips(w, coord);
            if inside(i) {
                assert(snapshot::in_part(scene.starts, c, i));
                lemma_one_part(scene.starts, 0, scene.ids.len() as int, b, c, i);
            }
        }
        let runs = self.cell_runs(viewer, x, y);
        let found = everyone(scene, viewer, runs);
        match scene.parts[c] {
            None => {
                lemma_spotted(scene, viewer, from, to);
                assert(runs.drop_first() =~= Seq::<(int, int)>::empty());
                assert(everyone(scene, viewer, runs.drop_first()) =~= Seq::empty());
                assert(found =~= spotted(scene, viewer, from, to));
                assert(finds(scene, viewer, found, inside));
            },
            Some(s) => {
                let b = w.part_of(coord, viewer.flat());
                let order = self.fan_from(b);
                snapshot::lemma_part_of(w, coord, viewer.flat());
                assert(fan::fans(order, snapshot::part_spot(b), 0, 7));
                lemma_parts(scene, viewer, s, from, to, order);
                let named = |i: int|
                    exists|k: int|
                        0 <= k < order.len() && snapshot::in_part(
                            s,
                            (#[trigger] order[k]).1 * 8 + order[k].0,
                            i,
                        );
                assert forall|i: int| 0 <= i < scene.ids.len() implies #[trigger] named(i)
                    == inside(i) by {
                    if inside(i) {
                        let p = lemma_divided(s, from, to, i);
                        let spot = (p % 8, p / 8);
                        assert(fan::boxed(0, 7, spot));
                        let k = choose|k: int| 0 <= k < order.len() && order[k] == spot;
                        assert(order[k].1 * 8 + order[k].0 == p);
                    }
                    if named(i) {
                        let k = choose|k: int|
                            0 <= k < order.len() && snapshot::in_part(
                                s,
                                (#[trigger] order[k]).1 * 8 + order[k].0,
                                i,
                            );
                        assert(fan::boxed(0, 7, order[k]));
                        snapshot::lemma_in_part(s, from, to, order[k].1 * 8 + order[k].0, i);
                    }
                }
                lemma_finds_same(scene, viewer, found, named, inside);
            },
        }
        lemma_finds_same(scene, viewer, found, inside, here);
    }

    /// Everybody in view in the cells at the offsets listed.
    proof fn lemma_cells(&self, viewer: Pos3, sub: Subscription, offsets: Seq<(int, int)>)
        requires
            self.wf(),
            sub.within(self@.w),
            offsets.no_duplicates(),
        ensures
            finds(
                self@,
                viewer,
                everyone(self@, viewer, self.runs(viewer, sub, offsets)),
                |i: int|
                    {
                        let c = self@.w.cell_of(self@.at[i].flat());
                        sub.covers(c.x as int, c.y as int) && offsets.contains(
                            offset_of(self@, viewer, i),
                        )
                    },
            ),
        decreases offsets.len(),
    {
        let scene = self@;
        let named = |i: int|
            {
                let c = scene.w.cell_of(scene.at[i].flat());
                sub.covers(c.x as int, c.y as int) && offsets.contains(offset_of(scene, viewer, i))
            };
        if offsets.len() > 0 {
            let rest = offsets.drop_first();
            self.lemma_cells(viewer, sub, rest);
            let tail = |i: int|
                {
                    let c = scene.w.cell_of(scene.at[i].flat());
                    sub.covers(c.x as int, c.y as int) && rest.contains(
                        offset_of(scene, viewer, i),
                    )
                };
            let center = scene.w.cell_of(viewer.flat());
            let (x, y) = (center.x + offsets[0].0, center.y + offsets[0].1);
            let after = self.runs(viewer, sub, rest);
            let coord = CellCoord { x: x as u16, y: y as u16 };
            let head = |i: int| scene.w.cell_of(scene.at[i].flat()) == coord;
            assert forall|i: int| #[trigger] offsets.contains(offset_of(scene, viewer, i)) == (
            offset_of(scene, viewer, i) == offsets[0] || rest.contains(
                offset_of(scene, viewer, i),
            )) by {
                let o = offset_of(scene, viewer, i);
                if offsets.contains(o) {
                    let k = choose|k: int| 0 <= k < offsets.len() && offsets[k] == o;
                    if k > 0 {
                        assert(rest[k - 1] == o);
                    }
                }
                if rest.contains(o) {
                    let k = choose|k: int| 0 <= k < rest.len() && rest[k] == o;
                    assert(offsets[k + 1] == o);
                }
            }
            assert(!rest.contains(offsets[0]));
            if sub.covers(x, y) {
                self.lemma_wf();
                self.lemma_cell(viewer, x, y);
                let here = self.cell_runs(viewer, x, y);
                lemma_everyone_splits(scene, viewer, here, after);
                lemma_finds_both(
                    scene,
                    viewer,
                    everyone(scene, viewer, here),
                    everyone(scene, viewer, after),
                    head,
                    tail,
                    named,
                );
            } else {
                lemma_finds_same(scene, viewer, everyone(scene, viewer, after), tail, named);
            }
        }
    }
}

/// Whether discoveries come in order of how far off their cells are.
pub open spec fn outward(scene: Scene, viewer: Pos3, found: Seq<DiscoveredEntity>) -> bool {
    forall|a: int, b: int|
        0 <= a < b < found.len() ==> fan::reach(
            (0, 0),
            offset_of(scene, viewer, (#[trigger] found[a]).snapshot_index as int),
        ) <= fan::reach(
            (0, 0),
            offset_of(scene, viewer, (#[trigger] found[b]).snapshot_index as int),
        )
}

impl CellSnapshot {
    /// Offsets that go outward give discoveries that do.
    proof fn lemma_outward(&self, viewer: Pos3, sub: Subscription, offsets: Seq<(int, int)>)
        requires
            self.wf(),
            sub.within(self@.w),
            offsets.no_duplicates(),
            forall|i: int, j: int|
                0 <= i < j < offsets.len() ==> fan::reach((0, 0), #[trigger] offsets[i])
                    <= fan::reach((0, 0), #[trigger] offsets[j]),
        ensures
            outward(self@, viewer, everyone(self@, viewer, self.runs(viewer, sub, offsets))),
        decreases offsets.len(),
    {
        if offsets.len() > 0 {
            let scene = self@;
            let rest = offsets.drop_first();
            self.lemma_outward(viewer, sub, rest);
            self.lemma_cells(viewer, sub, rest);
            let center = scene.w.cell_of(viewer.flat());
            let (x, y) = (center.x + offsets[0].0, center.y + offsets[0].1);
            let after = self.runs(viewer, sub, rest);
            if sub.covers(x, y) {
                self.lemma_wf();
                self.lemma_cell(viewer, x, y);
                let here = self.cell_runs(viewer, x, y);
                lemma_everyone_splits(scene, viewer, here, after);
                let (a, b) = (everyone(scene, viewer, here), everyone(scene, viewer, after));
                let both = a + b;
                assert forall|i: int, j: int| 0 <= i < j < both.len() implies fan::reach(
                    (0, 0),
                    offset_of(scene, viewer, (#[trigger] both[i]).snapshot_index as int),
                ) <= fan::reach(
                    (0, 0),
                    offset_of(scene, viewer, (#[trigger] both[j]).snapshot_index as int),
                ) by {
                    if i < a.len() {
                        assert(both[i] == a[i]);
                        assert(genuine(scene, viewer, a[i]));
                        assert(offset_of(scene, viewer, both[i].snapshot_index as int)
                            == offsets[0]);
                    } else {
                        assert(both[i] == b[i - a.len()]);
                    }
                    if j < a.len() {
                        assert(both[j] == a[j]);
                        assert(genuine(scene, viewer, a[j]));
                        assert(offset_of(scene, viewer, both[j].snapshot_index as int)
                            == offsets[0]);
                    } else {
                        assert(both[j] == b[j - a.len()]);
                        assert(genuine(scene, viewer, b[j - a.len()]));
                        let o = offset_of(scene, viewer, both[j].snapshot_index as int);
                        assert(rest.contains(o));
                        let k = choose|k: int| 0 <= k < rest.len() && rest[k] == o;
                        assert(offsets[k + 1] == o);
                    }
                }
            }
        }
    }
}

/// A walk with a cap is the walk without one, cut at the end of a run.
proof fn lemma_walked(
    scene: Scene,
    viewer: Pos3,
    out: Seq<DiscoveredEntity>,
    runs: Seq<(int, int)>,
    cap: Option<nat>,
)
    ensures
        ({
            let got = walked(scene, viewer, out, runs, cap);
            let all = out + everyone(scene, viewer, runs);
            &&& out.len() <= got.len() <= all.len()
            &&& got == all.take(got.len() as int)
            &&& got == all || enough(got.len(), cap)
        }),
    decreases runs.len(),
{
    let got = walked(scene, viewer, out, runs, cap);
    let all = out + everyone(scene, viewer, runs);
    if runs.len() == 0 {
        assert(got =~= all);
        assert(got =~= all.take(got.len() as int));
    } else {
        let here = spotted(scene, viewer, runs[0].0, runs[0].1);
        let now = out + here;
        let rest = runs.drop_first();
        assert(all =~= now + everyone(scene, viewer, rest));
        if enough(now.len(), cap) {
            assert(got =~= all.take(got.len() as int));
        } else {
            lemma_walked(scene, viewer, now, rest, cap);
        }
    }
}

/// Two coordinates no further apart than the view are no more cells apart than
/// a subscription reaches.
proof fn lemma_axis_reach(w: World, a: int, b: int)
    requires
        w.valid(),
        -w.view_radius <= a - b <= w.view_radius,
    ensures
        -w.cell_radius() <= config::held(a / w.cell_size, w.cells_per_axis() - 1) - config::held(
            b / w.cell_size,
            w.cells_per_axis() - 1,
        ) <= w.cell_radius(),
{
    let (c, r, q) = (w.cell_size, w.view_radius, w.cell_radius());
    assert(q * c >= r) by (nonlinear_arith)
        requires
            q == (r + c - 1) / c,
            c > 0,
    ;
    let (qa, qb) = (a / c, b / c);
    assert(c * qa <= a < c * qa + c) by (nonlinear_arith)
        requires
            qa == a / c,
            c > 0,
    ;
    assert(c * qb <= b < c * qb + c) by (nonlinear_arith)
        requires
            qb == b / c,
            c > 0,
    ;
    assert(-q <= qa - qb <= q) by (nonlinear_arith)
        requires
            c * qa <= a < c * qa + c,
            c * qb <= b < c * qb + c,
            q * c >= r,
            -r <= a - b <= r,
            c > 0,
    ;
}

/// Whoever is in view is in the block around the viewer's own cell.
proof fn lemma_in_view_is_subscribed(scene: Scene, viewer: Pos3, i: int)
    requires
        scene.w.valid(),
        in_view(scene.w, viewer, scene.at[i]),
    ensures
        ({
            let r = scene.w.cell_radius();
            let c = scene.w.cell_of(scene.at[i].flat());
            let sub = Subscription::around(scene.w, scene.w.cell_of(viewer.flat()));
            &&& sub.covers(c.x as int, c.y as int)
            &&& fan::boxed(-r, r, offset_of(scene, viewer, i))
        }),
{
    let w = scene.w;
    let p = scene.at[i];
    let (dx, dy, r) = (viewer.x.0 - p.x.0, viewer.y.0 - p.y.0, w.view_radius);
    assert(-r <= dx <= r && -r <= dy <= r) by (nonlinear_arith)
        requires
            dx * dx + dy * dy <= r * r,
            r > 0,
    ;
    lemma_axis_reach(w, viewer.x.0 as int, p.x.0 as int);
    lemma_axis_reach(w, viewer.y.0 as int, p.y.0 as int);
    snapshot::lemma_home_cell(w, viewer);
    snapshot::lemma_home_cell(w, p);
}

/// A gather over the block around a viewer's own cell finds everybody within
/// the view radius and nobody else, each once and with their true distance, in
/// order of how far off their cells are.
pub proof fn law_a_gather_finds_exactly_who_is_in_view(s: CellSnapshot, viewer: Pos3)
    requires
        s.wf(),
    ensures
        ({
            let sub = Subscription::around(s@.w, s@.w.cell_of(viewer.flat()));
            let found = everyone(s@, viewer, s.runs(viewer, sub, s.offsets()));
            &&& forall|k: int|
                0 <= k < found.len() ==> genuine(s@, viewer, #[trigger] found[k])
            &&& forall|i: int|
                0 <= i < s@.ids.len() && in_view(s@.w, viewer, s@.at[i]) ==> found.contains(
                    #[trigger] discovered(s@, viewer, i),
                )
            &&& distinct(found)
            &&& outward(s@, viewer, found)
        }),
{
    s.lemma_wf();
    let scene = s@;
    let sub = Subscription::around(scene.w, scene.w.cell_of(viewer.flat()));
    let offsets = s.offsets();
    let found = everyone(scene, viewer, s.runs(viewer, sub, offsets));
    snapshot::lemma_home_cell(scene.w, viewer);
    s.lemma_cells(viewer, sub, offsets);
    s.lemma_outward(viewer, sub, offsets);
    assert forall|i: int|
        0 <= i < scene.ids.len() && in_view(
            scene.w,
            viewer,
            scene.at[i],
        ) implies found.contains(#[trigger] discovered(scene, viewer, i)) by {
        lemma_in_view_is_subscribed(scene, viewer, i);
    }
}

/// Whether a list of discoveries has one of an entity.
pub open spec fn has(found: Seq<DiscoveredEntity>, n: u32) -> bool {
    exists|k: int| 0 <= k < found.len() && (#[trigger] found[k]).id == EntityId(n)
}

/// A gather finds exactly the living in view of a snapshot taken of them, each
/// once: by horizontal distance, height ignored, but with the full separation
/// beside each, and with the place in the snapshot that holds it.
pub proof fn law_a_gather_finds_exactly_the_living_in_view(
    s: CellSnapshot,
    xs: Seq<Fixed>,
    ys: Seq<Fixed>,
    zs: Seq<Fixed>,
    tags: Seq<u16>,
    live: Set<u32>,
    viewer: Pos3,
)
    requires
        s.wf(),
        s@.pictures(xs, ys, zs, tags, live),
    ensures
        ({
            let sub = Subscription::around(s@.w, s@.w.cell_of(viewer.flat()));
            let found = everyone(s@, viewer, s.runs(viewer, sub, s.offsets()));
            &&& forall|n: u32| #[trigger]
                has(found, n) <==> live.contains(n) && in_view(
                    s@.w,
                    viewer,
                    odometer::spot(xs, ys, zs, n as int),
                )
            &&& forall|a: int, b: int|
                0 <= a < b < found.len() ==> (#[trigger] found[a]).id != (#[trigger] found[b]).id
            &&& forall|k: int|
                0 <= k < found.len() ==> {
                    let d = #[trigger] found[k];
                    let at = odometer::spot(xs, ys, zs, d.id.0 as int);
                    &&& d.dist_sq == DistSq(pos::held_u64(viewer.gap_sq(at)) as u64)
                    &&& d.snapshot_index < s@.ids.len()
                    &&& s@.ids[d.snapshot_index as int] == d.id
                    &&& s@.at[d.snapshot_index as int] == at
                }
        }),
{
    law_a_gather_finds_exactly_who_is_in_view(s, viewer);
    s.lemma_wf();
    let scene = s@;
    let sub = Subscription::around(scene.w, scene.w.cell_of(viewer.flat()));
    let found = everyone(scene, viewer, s.runs(viewer, sub, s.offsets()));
    assert forall|k: int| 0 <= k < found.len() implies {
        let d = #[trigger] found[k];
        let at = odometer::spot(xs, ys, zs, d.id.0 as int);
        &&& d.dist_sq == DistSq(pos::held_u64(viewer.gap_sq(at)) as u64)
        &&& d.snapshot_index < scene.ids.len()
        &&& scene.ids[d.snapshot_index as int] == d.id
        &&& scene.at[d.snapshot_index as int] == at
        &&& live.contains(d.id.0)
        &&& in_view(scene.w, viewer, at)
    } by {
        assert(genuine(scene, viewer, found[k]));
    }
    assert forall|n: u32| #[trigger] has(found, n) <==> live.contains(n) && in_view(
        scene.w,
        viewer,
        odometer::spot(xs, ys, zs, n as int),
    ) by {
        if live.contains(n) && in_view(scene.w, viewer, odometer::spot(xs, ys, zs, n as int)) {
            let i = choose|i: int| 0 <= i < scene.ids.len() && scene.ids[i] == EntityId(n);
            assert(found.contains(discovered(scene, viewer, i)));
            let k = choose|k: int|
                0 <= k < found.len() && found[k] == discovered(scene, viewer, i);
            assert(found[k].id == EntityId(n));
        }
        if has(found, n) {
            let k = choose|k: int| 0 <= k < found.len() && (#[trigger] found[k]).id == EntityId(n);
            assert(found[k].id.0 == n);
        }
    }
}

/// A cap only cuts a gather short. What was there stays, what is appended is
/// the start of what would have come without a cap and in the same order, and
/// it falls short of the whole only with at least `cap` entries, those that
/// were there counted in.
pub proof fn law_a_cap_keeps_the_nearer_cells(
    s: CellSnapshot,
    viewer: Pos3,
    sub: Subscription,
    out: Seq<DiscoveredEntity>,
    cap: nat,
)
    ensures
        ({
            let runs = s.runs(viewer, sub, s.offsets());
            let got = walked(s@, viewer, out, runs, Some(cap));
            let full = everyone(s@, viewer, runs);
            let more = got.skip(out.len() as int);
            &&& got == out + more
            &&& more.len() <= full.len()
            &&& more == full.take(more.len() as int)
            &&& got.len() < cap ==> more == full
            &&& out.len() + full.len() >= cap ==> got.len() >= cap
        }),
{
    let runs = s.runs(viewer, sub, s.offsets());
    lemma_walked(s@, viewer, out, runs, Some(cap));
    let got = walked(s@, viewer, out, runs, Some(cap));
    let full = everyone(s@, viewer, runs);
    let more = got.skip(out.len() as int);
    let all = out + full;
    assert(got == all.take(got.len() as int));
    assert(got =~= out + more);
    assert(more =~= full.take(more.len() as int));
    if got == all {
        assert(more =~= full);
    }
}

/// A viewer sees a position when it is no further off along the ground than the
/// view radius, and what is recorded of it is how far off it is in all three
/// directions, squared, held to what 64 bits hold.
pub proof fn law_a_view_is_a_cylinder(scene: Scene, viewer: Pos3, i: int)
    ensures
        ({
            let p = scene.at[i];
            let (dx, dy, dz) = (p.x.0 - viewer.x.0, p.y.0 - viewer.y.0, p.z.0 - viewer.z.0);
            let r = scene.w.view_radius;
            &&& in_view(scene.w, viewer, p) <==> dx * dx + dy * dy <= r * r
            &&& discovered(scene, viewer, i).dist_sq.0 == vstd::math::min(
                dx * dx + dy * dy + dz * dz,
                u64::MAX as int,
            )
            &&& discovered(scene, viewer, i).id == scene.ids[i]
        }),
{
    let p = scene.at[i];
    pos::law_separation_is_by_every_axis(viewer, p);
    let (dx, dy, dz) = (p.x.0 - viewer.x.0, p.y.0 - viewer.y.0, p.z.0 - viewer.z.0);
    assert((viewer.x.0 - p.x.0) * (viewer.x.0 - p.x.0) == dx * dx) by (nonlinear_arith)
        requires
            dx == p.x.0 - viewer.x.0,
    ;
    assert((viewer.y.0 - p.y.0) * (viewer.y.0 - p.y.0) == dy * dy) by (nonlinear_arith)
        requires
            dy == p.y.0 - viewer.y.0,
    ;
    assert((viewer.z.0 - p.z.0) * (viewer.z.0 - p.z.0) == dz * dz) by (nonlinear_arith)
        requires
            dz == p.z.0 - viewer.z.0,
    ;
    assert(dx * dx >= 0 && dy * dy >= 0 && dz * dz >= 0) by (nonlinear_arith);
}

/// A gather around a viewer's own cell finds the living whose ground distance,
/// by the coordinates they have in the world's arrays, is within the view
/// radius, and nobody else; and records each one's full distance squared.
pub proof fn law_a_gather_measures_by_the_coordinates(
    s: CellSnapshot,
    xs: Seq<Fixed>,
    ys: Seq<Fixed>,
    zs: Seq<Fixed>,
    tags: Seq<u16>,
    live: Set<u32>,
    viewer: Pos3,
)
    requires
        s.wf(),
        s@.pictures(xs, ys, zs, tags, live),
    ensures
        ({
            let sub = Subscription::around(s@.w, s@.w.cell_of(viewer.flat()));
            let found = everyone(s@, viewer, s.runs(viewer, sub, s.offsets()));
            let r = s@.w.view_radius;
            &&& forall|n: u32| #[trigger]
                live.contains(n) ==> (has(found, n) <==> {
                    let (dx, dy) = (xs[n as int].0 - viewer.x.0, ys[n as int].0 - viewer.y.0);
                    dx * dx + dy * dy <= r * r
                })
            &&& forall|n: u32| #[trigger] has(found, n) ==> live.contains(n)
            &&& forall|k: int|
                0 <= k < found.len() ==> {
                    let d = #[trigger] found[k];
                    let n = d.id.0 as int;
                    let (dx, dy, dz) = (
                        xs[n].0 - viewer.x.0,
                        ys[n].0 - viewer.y.0,
                        zs[n].0 - viewer.z.0,
                    );
                    d.dist_sq.0 == vstd::math::min(dx * dx + dy * dy + dz * dz, u64::MAX as int)
                }
        }),
{
    law_a_gather_finds_exactly_the_living_in_view(s, xs, ys, zs, tags, live, viewer);
    law_a_gather_finds_exactly_who_is_in_view(s, viewer);
    let sub = Subscription::around(s@.w, s@.w.cell_of(viewer.flat()));
    let found = everyone(s@, viewer, s.runs(viewer, sub, s.offsets()));
    let r = s@.w.view_radius;
    assert forall|k: int| 0 <= k < found.len() implies {
        let d = #[trigger] found[k];
        let n = d.id.0 as int;
        let (dx, dy, dz) = (xs[n].0 - viewer.x.0, ys[n].0 - viewer.y.0, zs[n].0 - viewer.z.0);
        d.dist_sq.0 == vstd::math::min(dx * dx + dy * dy + dz * dz, u64::MAX as int)
    } by {
        assert(genuine(s@, viewer, found[k]));
        law_a_view_is_a_cylinder(s@, viewer, found[k].snapshot_index as int);
    }
    assert forall|n: u32| #[trigger] live.contains(n) implies (has(found, n) <==> {
        let (dx, dy) = (xs[n as int].0 - viewer.x.0, ys[n as int].0 - viewer.y.0);
        dx * dx + dy * dy <= r * r
    }) by {
        let i = choose|i: int| 0 <= i < s@.ids.len() && s@.ids[i] == EntityId(n);
        assert(s@.ids.contains(EntityId(n)));
        assert(s@.at[i] == odometer::spot(xs, ys, zs, n as int));
        law_a_view_is_a_cylinder(s@, viewer, i);
    }
}

/// A walk with a cap stops at the first run that reaches it: what it found
/// without its last run was still short of the cap.
pub proof fn law_a_cap_is_overrun_by_one_run_at_most(
    scene: Scene,
    viewer: Pos3,
    out: Seq<DiscoveredEntity>,
    runs: Seq<(int, int)>,
    cap: nat,
)
    ensures
        exists|j: int|
            {
                &&& 0 <= j <= runs.len()
                &&& walked(scene, viewer, out, runs, Some(cap)) == out + everyone(
                    scene,
                    viewer,
                    #[trigger] runs.take(j),
                )
                &&& j > 1 ==> out.len() + everyone(scene, viewer, runs.take(j - 1)).len() < cap
                &&& j == 0 ==> runs.len() == 0
                &&& j < runs.len() ==> out.len() + everyone(scene, viewer, runs.take(j)).len()
                    >= cap
            },
    decreases runs.len(),
{
    let got = walked(scene, viewer, out, runs, Some(cap));
    if runs.len() == 0 {
        assert(runs.take(0) =~= runs);
        assert(out + everyone(scene, viewer, runs.take(0)) =~= out);
    } else {
        let here = spotted(scene, viewer, runs[0].0, runs[0].1);
        let now = out + here;
        let rest = runs.drop_first();
        let one = runs.take(1);
        assert(one.drop_first() =~= Seq::<(int, int)>::empty());
        assert(everyone(scene, viewer, one.drop_first()) =~= Seq::empty());
        assert(everyone(scene, viewer, one) =~= here);
        if enough(now.len(), Some(cap)) {
            assert(got == out + everyone(scene, viewer, runs.take(1)));
        } else {
            law_a_cap_is_overrun_by_one_run_at_most(scene, viewer, now, rest, cap);
            let j = choose|j: int|
                {
                    &&& 0 <= j <= rest.len()
                    &&& walked(scene, viewer, now, rest, Some(cap)) == now + everyone(
                        scene,
                        viewer,
                        #[trigger] rest.take(j),
                    )
                    &&& j > 1 ==> now.len() + everyone(scene, viewer, rest.take(j - 1)).len() < cap
                    &&& j == 0 ==> rest.len() == 0
                    &&& j < rest.len() ==> now.len() + everyone(scene, viewer, rest.take(j)).len()
                        >= cap
                };
            assert(runs.take(j + 1).drop_first() =~= rest.take(j));
            assert(out + everyone(scene, viewer, runs.take(j + 1)) =~= now + everyone(
                scene,
                viewer,
                rest.take(j),
            ));
            if j + 1 > 1 {
                assert(runs.take(j).len() > 0);
                assert(runs.take(j).drop_first() =~= rest.take(j - 1));
                if j == 1 {
                    assert(rest.take(0) =~= Seq::<(int, int)>::empty());
                    assert(everyone(scene, viewer, rest.take(0)).len() == 0);
                }
            }
            assert(got == out + everyone(scene, viewer, runs.take(j + 1)));
        }
    }
}

/// Which eighth of its cell a coordinate is in, along one axis, or nearest to.
pub open spec fn eighth(w: World, v: Fixed, cell: int) -> int {
    vstd::math::max(0, vstd::math::min(v.0 - cell * w.cell_size, w.cell_size - 1)) * 8
        / w.cell_size
}

/// How far off, in eighths of a cell and squared, somebody is from the part of
/// their own cell that is nearest to a viewer.
pub open spec fn part_gap(w: World, viewer: Pos3, p: Pos3) -> int {
    let c = w.cell_of(p.flat());
    let dx = eighth(w, p.x, c.x as int) - eighth(w, viewer.x, c.x as int);
    let dy = eighth(w, p.y, c.y as int) - eighth(w, viewer.y, c.y as int);
    dx * dx + dy * dy
}

/// Whether discoveries within one crowded cell come part by part, those of the
/// part nearest to the viewer first.
pub open spec fn part_outward(scene: Scene, viewer: Pos3, found: Seq<DiscoveredEntity>) -> bool {
    forall|a: int, b: int|
        0 <= a < b < found.len() ==> {
            let p = scene.at[(#[trigger] found[a]).snapshot_index as int];
            let q = scene.at[(#[trigger] found[b]).snapshot_index as int];
            let c = scene.w.home_cell(p);
            scene.w.cell_of(p.flat()) == scene.w.cell_of(q.flat()) && scene.starts[c + 1]
                - scene.starts[c] > 256 ==> part_gap(scene.w, viewer, p) <= part_gap(
                scene.w,
                viewer,
                q,
            )
        }
}

/// A part is at its column and its row.
proof fn lemma_spot(p: (int, int))
    requires
        fan::boxed(0, 7, p),
    ensures
        snapshot::part_spot(p.1 * 8 + p.0) == p,
{
    let h = p.1 * 8 + p.0;
    assert(h % 8 == p.0 && h / 8 == p.1);
}

/// Parts walked nearest first give discoveries that are.
proof fn lemma_parts_outward(
    scene: Scene,
    viewer: Pos3,
    starts: Seq<int>,
    from: int,
    to: int,
    order: Seq<(int, int)>,
    mid: (int, int),
)
    requires
        0 <= from <= to <= scene.ids.len() <= 0x1_0000_0000,
        starts.len() == PARTS + 1,
        snapshot::divides(starts, from, to),
        forall|k: int| 0 <= k < order.len() ==> fan::boxed(0, 7, #[trigger] order[k]),
        order.no_duplicates(),
        forall|i: int, j: int|
            0 <= i < j < order.len() ==> fan::reach(mid, #[trigger] order[i]) <= fan::reach(
                mid,
                #[trigger] order[j],
            ),
    ensures
        ({
            let found = everyone(scene, viewer, part_runs(starts, order));
            forall|a: int, b: int, p: int, q: int|
                0 <= a < b < found.len() && 0 <= p < PARTS && 0 <= q < PARTS
                    && #[trigger] snapshot::in_part(starts, p, found[a].snapshot_index as int)
                    && #[trigger] snapshot::in_part(starts, q, found[b].snapshot_index as int)
                    ==> fan::reach(mid, snapshot::part_spot(p)) <= fan::reach(
                    mid,
                    snapshot::part_spot(q),
                )
        }),
    decreases order.len(),
{
    let runs = part_runs(starts, order);
    let found = everyone(scene, viewer, runs);
    if order.len() > 0 {
        let rest = order.drop_first();
        assert(fan::boxed(0, 7, order[0]));
        assert forall|k: int| 0 <= k < rest.len() implies fan::boxed(0, 7, #[trigger] rest[k]) by {
            assert(rest[k] == order[k + 1]);
        }
        lemma_parts_outward(scene, viewer, starts, from, to, rest, mid);
        lemma_parts(scene, viewer, starts, from, to, rest);
        assert(runs.drop_first() =~= part_runs(starts, rest));
        let h = order[0].1 * 8 + order[0].0;
        assert(runs[0] == (starts[h], starts[h + 1]));
        assert(starts[0] <= starts[h] <= starts[h + 1] <= starts[starts.len() - 1]);
        lemma_spotted(scene, viewer, starts[h], starts[h + 1]);
        let head = spotted(scene, viewer, starts[h], starts[h + 1]);
        let tail = everyone(scene, viewer, part_runs(starts, rest));
        assert(found == head + tail);
        lemma_spot(order[0]);
        assert forall|a: int, b: int, p: int, q: int|
            0 <= a < b < found.len() && 0 <= p < PARTS && 0 <= q < PARTS
                && #[trigger] snapshot::in_part(starts, p, found[a].snapshot_index as int)
                && #[trigger] snapshot::in_part(starts, q, found[b].snapshot_index as int)
            implies fan::reach(mid, snapshot::part_spot(p)) <= fan::reach(
            mid,
            snapshot::part_spot(q),
        ) by {
            if a < head.len() {
                assert(found[a] == head[a]);
                lemma_one_part(starts, from, to, p, h, found[a].snapshot_index as int);
                if b < head.len() {
                    assert(found[b] == head[b]);
                    lemma_one_part(starts, from, to, q, h, found[b].snapshot_index as int);
                } else {
                    let i = found[b].snapshot_index as int;
                    assert(found[b] == tail[b - head.len()]);
                    assert(genuine(scene, viewer, tail[b - head.len()]));
                    let k = choose|k: int|
                        0 <= k < rest.len() && snapshot::in_part(
                            starts,
                            (#[trigger] rest[k]).1 * 8 + rest[k].0,
                            i,
                        );
                    assert(fan::boxed(0, 7, rest[k]));
                    lemma_one_part(starts, from, to, q, rest[k].1 * 8 + rest[k].0, i);
                    lemma_spot(rest[k]);
                    assert(rest[k] == order[k + 1]);
                }
            } else {
                assert(found[a] == tail[a - head.len()]);
                assert(found[b] == tail[b - head.len()]);
                assert(snapshot::in_part(starts, p, tail[a - head.len()].snapshot_index as int));
                assert(snapshot::in_part(starts, q, tail[b - head.len()].snapshot_index as int));
            }
        }
    }
}

impl CellSnapshot {
    /// Within one crowded cell, discoveries come nearest part first.
    proof fn lemma_cell_outward(&self, viewer: Pos3, x: int, y: int)
        requires
            self.wf(),
            0 <= x < self@.w.cells_per_axis(),
            0 <= y < self@.w.cells_per_axis(),
        ensures
            part_outward(self@, viewer, everyone(self@, viewer, self.cell_runs(viewer, x, y))),
    {
        self.lemma_wf();
        self.lemma_cell(viewer, x, y);
        let scene = self@;
        let w = scene.w;
        let coord = CellCoord { x: x as u16, y: y as u16 };
        let c = w.cell_id(coord);
        lemma_cell_place(w, coord);
        assert(scene.parted(c));
        let (from, to) = (scene.starts[c], scene.starts[c + 1]);
        assert(scene.starts[0] <= from <= to <= scene.starts[scene.starts.len() - 1]);
        let found = everyone(scene, viewer, self.cell_runs(viewer, x, y));
        assert forall|a: int, b: int| 0 <= a < b < found.len() implies {
            let p = scene.at[(#[trigger] found[a]).snapshot_index as int];
            let q = scene.at[(#[trigger] found[b]).snapshot_index as int];
            let c = scene.w.home_cell(p);
            scene.w.cell_of(p.flat()) == scene.w.cell_of(q.flat()) && scene.starts[c + 1]
                - scene.starts[c] > 256 ==> part_gap(scene.w, viewer, p) <= part_gap(
                scene.w,
                viewer,
                q,
            )
        } by {
            assert(genuine(scene, viewer, found[a]));
            assert(genuine(scene, viewer, found[b]));
            let (i, j) = (found[a].snapshot_index as int, found[b].snapshot_index as int);
            assert(w.cell_of(scene.at[i].flat()) == coord);
            assert(w.cell_of(scene.at[j].flat()) == coord);
            assert(w.home_cell(scene.at[i]) == c);
            if to - from > 256 {
                let s = scene.parts[c]->0;
                let v = w.part_of(coord, viewer.flat());
                let order = self.fan_from(v);
                snapshot::lemma_part_of(w, coord, viewer.flat());
                assert(fan::fans(order, snapshot::part_spot(v), 0, 7));
                lemma_parts_outward(
                    scene,
                    viewer,
                    s,
                    from,
                    to,
                    order,
                    snapshot::part_spot(v),
                );
                config::law_cell_id_round_trips(w, coord);
                self.lemma_where(i, c);
                self.lemma_where(j, c);
                let p = lemma_divided(s, from, to, i);
                let q = lemma_divided(s, from, to, j);
                assert(scene.part_at(c, i) == p);
                assert(scene.part_at(c, j) == q);
                snapshot::law_a_part_is_an_eighth_each_way(w, coord, scene.at[i].flat());
                snapshot::law_a_part_is_an_eighth_each_way(w, coord, scene.at[j].flat());
                snapshot::law_a_part_is_an_eighth_each_way(w, coord, viewer.flat());
                lemma_reach_of(snapshot::part_spot(v), snapshot::part_spot(p));
                lemma_reach_of(snapshot::part_spot(v), snapshot::part_spot(q));
            }
        }
    }

    /// Somebody in a cell is in that cell's run.
    proof fn lemma_where(&self, i: int, c: int)
        requires
            self.wf(),
            0 <= i < self@.ids.len(),
            self@.w.home_cell(self@.at[i]) == c,
        ensures
            0 <= c < self@.w.cells_per_region(),
            self@.starts[c] <= i < self@.starts[c + 1],
    {
        self.lemma_wf();
        let b = lemma_divided(self@.starts, 0, self@.ids.len() as int, i);
        assert(snapshot::in_part(self@.starts, b, i));
        snapshot::lemma_home_cell(self@.w, self@.at[i]);
    }

    /// Over any cells, discoveries in each crowded one come nearest part first.
    proof fn lemma_cells_outward(&self, viewer: Pos3, sub: Subscription, offsets: Seq<(int, int)>)
        requires
            self.wf(),
            sub.within(self@.w),
            offsets.no_duplicates(),
        ensures
            part_outward(self@, viewer, everyone(self@, viewer, self.runs(viewer, sub, offsets))),
        decreases offsets.len(),
    {
        if offsets.len() > 0 {
            let scene = self@;
            let rest = offsets.drop_first();
            self.lemma_cells_outward(viewer, sub, rest);
            self.lemma_cells(viewer, sub, rest);
            let center = scene.w.cell_of(viewer.flat());
            let (x, y) = (center.x + offsets[0].0, center.y + offsets[0].1);
            let after = self.runs(viewer, sub, rest);
            if sub.covers(x, y) {
                self.lemma_wf();
                self.lemma_cell(viewer, x, y);
                self.lemma_cell_outward(viewer, x, y);
                let here = self.cell_runs(viewer, x, y);
                lemma_everyone_splits(scene, viewer, here, after);
                let (a, b) = (everyone(scene, viewer, here), everyone(scene, viewer, after));
                let both = a + b;
                assert(both == everyone(scene, viewer, self.runs(viewer, sub, offsets)));
                assert forall|i: int, j: int| 0 <= i < j < both.len() implies {
                    let p = scene.at[(#[trigger] both[i]).snapshot_index as int];
                    let q = scene.at[(#[trigger] both[j]).snapshot_index as int];
                    let c = scene.w.home_cell(p);
                    scene.w.cell_of(p.flat()) == scene.w.cell_of(q.flat()) && scene.starts[c + 1]
                        - scene.starts[c] > 256 ==> part_gap(scene.w, viewer, p) <= part_gap(
                        scene.w,
                        viewer,
                        q,
                    )
                } by {
                    if j < a.len() {
                        assert(both[i] == a[i] && both[j] == a[j]);
                    } else if i >= a.len() {
                        assert(both[i] == b[i - a.len()] && both[j] == b[j - a.len()]);
                    } else {
                        assert(both[i] == a[i] && both[j] == b[j - a.len()]);
                        assert(genuine(scene, viewer, a[i]));
                        assert(genuine(scene, viewer, b[j - a.len()]));
                        let m = both[i].snapshot_index as int;
                        let n = both[j].snapshot_index as int;
                        assert(offset_of(scene, viewer, m) == offsets[0]);
                        assert(rest.contains(offset_of(scene, viewer, n)));
                        assert(!rest.contains(offsets[0]));
                    }
                }
            }
        }
    }
}

proof fn lemma_reach_of(mid: (int, int), p: (int, int))
    ensures
        fan::reach(mid, p) == (p.0 - mid.0) * (p.0 - mid.0) + (p.1 - mid.1) * (p.1 - mid.1),
{
}

/// A gather goes outward: cell by cell, those nearer to the viewer's own cell
/// first, and in a crowded cell part by part, those nearer to the viewer's own
/// part first.
pub proof fn law_a_gather_goes_outward(s: CellSnapshot, viewer: Pos3)
    requires
        s.wf(),
    ensures
        ({
            let sub = Subscription::around(s@.w, s@.w.cell_of(viewer.flat()));
            let found = everyone(s@, viewer, s.runs(viewer, sub, s.offsets()));
            let here = s@.w.cell_of(viewer.flat());
            &&& forall|a: int, b: int|
                0 <= a < b < found.len() ==> {
                    let p = s@.w.cell_of(
                        s@.at[(#[trigger] found[a]).snapshot_index as int].flat(),
                    );
                    let q = s@.w.cell_of(
                        s@.at[(#[trigger] found[b]).snapshot_index as int].flat(),
                    );
                    (p.x - here.x) * (p.x - here.x) + (p.y - here.y) * (p.y - here.y) <= (q.x
                        - here.x) * (q.x - here.x) + (q.y - here.y) * (q.y - here.y)
                }
            &&& part_outward(s@, viewer, found)
        }),
{
    s.lemma_wf();
    let sub = Subscription::around(s@.w, s@.w.cell_of(viewer.flat()));
    let found = everyone(s@, viewer, s.runs(viewer, sub, s.offsets()));
    let here = s@.w.cell_of(viewer.flat());
    law_a_gather_finds_exactly_who_is_in_view(s, viewer);
    snapshot::lemma_home_cell(s@.w, viewer);
    s.lemma_cells_outward(viewer, sub, s.offsets());
    assert forall|a: int, b: int| 0 <= a < b < found.len() implies {
        let p = s@.w.cell_of(s@.at[(#[trigger] found[a]).snapshot_index as int].flat());
        let q = s@.w.cell_of(s@.at[(#[trigger] found[b]).snapshot_index as int].flat());
        (p.x - here.x) * (p.x - here.x) + (p.y - here.y) * (p.y - here.y) <= (q.x - here.x) * (q.x
            - here.x) + (q.y - here.y) * (q.y - here.y)
    } by {
        let (i, j) = (found[a].snapshot_index as int, found[b].snapshot_index as int);
        lemma_reach_of((0, 0), offset_of(s@, viewer, i));
        lemma_reach_of((0, 0), offset_of(s@, viewer, j));
    }
}

} // verus!
