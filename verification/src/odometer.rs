//! Per-entity accumulated displacement.
//!
//! [`Odometer`] holds, for each entity slot, the sum of how far that entity has
//! moved between consecutive calls to [`Odometer::accumulate`]. It is the
//! staleness input to priority scoring: the difference between an entity's
//! reading now and its reading when a client was last told about it bounds how
//! far that client's copy of it has fallen behind.
//!
//! The value carries no direction and no rate. It is a sum of per-call
//! displacements, so calling at a different cadence yields a different number.
//! Velocity belongs to the consumer and does not appear here.

use vstd::prelude::*;

use crate::entity::{EntityId, LiveSet};
use crate::fixed::Fixed;
use crate::pos::Pos3;

verus! {

/// One entity's reading, and where it was when it was taken.
pub struct Mark {
    /// How far it has moved, wrapped.
    pub total: u32,
    /// Where it was.
    pub at: Pos3,
}

/// How far apart two numbers are.
pub open spec fn apart(a: Fixed, b: Fixed) -> int {
    if a.0 >= b.0 {
        a.0 - b.0
    } else {
        b.0 - a.0
    }
}

/// How far a step from one position to another is taken to be, held to what 32
/// bits hold.
pub open spec fn step_between(a: Pos3, b: Pos3) -> int {
    let sum = apart(a.x, b.x) + apart(a.y, b.y) + apart(a.z, b.z);
    if sum > u32::MAX {
        u32::MAX as int
    } else {
        sum
    }
}

impl Mark {
    /// After a step, for an entity that is there.
    pub open spec fn stepped(self, to: Pos3) -> Mark {
        Mark {
            total: ((self.total + step_between(to, self.at)) % 0x1_0000_0000) as u32,
            at: to,
        }
    }
}

/// Where an entity is, by three parallel arrays.
pub open spec fn spot(xs: Seq<Fixed>, ys: Seq<Fixed>, zs: Seq<Fixed>, i: int) -> Pos3 {
    Pos3 { x: xs[i], y: ys[i], z: zs[i] }
}

/// Every mark after one call. A slot never seen before is seeded from where it
/// is and has moved nowhere. Slots not alive are as they were.
pub open spec fn accumulated(
    marks: Seq<Mark>,
    xs: Seq<Fixed>,
    ys: Seq<Fixed>,
    zs: Seq<Fixed>,
    live: Set<u32>,
) -> Seq<Mark> {
    Seq::new(
        if marks.len() < xs.len() {
            xs.len()
        } else {
            marks.len()
        },
        |i: int|
            if i >= marks.len() {
                Mark { total: 0, at: spot(xs, ys, zs, i) }
            } else if i < xs.len() && live.contains(i as u32) {
                marks[i].stepped(spot(xs, ys, zs, i))
            } else {
                marks[i]
            },
    )
}

/// Accumulated displacement per entity slot.
///
/// Readings are in raw [`Fixed`] units and wrap. Difference two of them with
/// [`u32::wrapping_sub`]. A true difference of 2^32 units or more aliases;
/// computed, that is 4,194,304 m of path, about 29 hours at 40 m/s.
#[derive(Debug, Clone)]
pub struct Odometer {
    total: Vec<u32>,
    prev_x: Vec<Fixed>,
    prev_y: Vec<Fixed>,
    prev_z: Vec<Fixed>,
}

impl View for Odometer {
    type V = Seq<Mark>;

    closed spec fn view(&self) -> Seq<Mark> {
        Seq::new(
            self.total@.len(),
            |i: int|
                Mark {
                    total: self.total@[i],
                    at: Pos3 { x: self.prev_x@[i], y: self.prev_y@[i], z: self.prev_z@[i] },
                },
        )
    }
}

/// How far apart two raw values are.
fn gap(a: Fixed, b: Fixed) -> (n: u32)
    ensures
        n == apart(a, b),
{
    let (p, q) = (a.raw() as i64, b.raw() as i64);
    if p >= q {
        (p - q) as u32
    } else {
        (q - p) as u32
    }
}

impl Odometer {
    /// Whether the arrays are as long as each other.
    pub closed spec fn wf(&self) -> bool {
        &&& self.prev_x@.len() == self.total@.len()
        &&& self.prev_y@.len() == self.total@.len()
        &&& self.prev_z@.len() == self.total@.len()
    }

    /// Empty.
    pub fn new() -> (o: Odometer)
        ensures
            o.wf(),
            o@ == Seq::<Mark>::empty(),
    {
        let o = Odometer {
            total: Vec::new(),
            prev_x: Vec::new(),
            prev_y: Vec::new(),
            prev_z: Vec::new(),
        };
        assert(o@ =~= Seq::<Mark>::empty());
        o
    }

    /// Empty, with room for `slots` entities before it grows. How much room a
    /// vector really has rests with the allocator, so the contract says nothing
    /// of it.
    pub fn with_capacity(slots: usize) -> (o: Odometer)
        ensures
            o.wf(),
            o@ == Seq::<Mark>::empty(),
    {
        let o = Odometer {
            total: Vec::with_capacity(slots),
            prev_x: Vec::with_capacity(slots),
            prev_y: Vec::with_capacity(slots),
            prev_z: Vec::with_capacity(slots),
        };
        assert(o@ =~= Seq::<Mark>::empty());
        o
    }

    /// How many slots carry a reading.
    pub fn slots(&self) -> (n: usize)
        ensures
            n == self@.len(),
    {
        self.total.len()
    }

    /// The running total for one entity, which has to be one this odometer has
    /// covered.
    pub fn reading(&self, id: EntityId) -> (n: u32)
        requires
            id.0 < self@.len(),
        ensures
            n == self@[id.0 as int].total,
    {
        self.total[id.index()]
    }

    /// Every reading, indexed by entity id.
    pub fn as_slice(&self) -> (readings: &[u32])
        ensures
            readings@ == self@.map_values(|m: Mark| m.total),
    {
        assert(self.total@ =~= self@.map_values(|m: Mark| m.total));
        self.total.as_slice()
    }

    /// Adds each live entity's displacement since the previous call.
    ///
    /// The three slices are parallel; entity id is the index into them. Slots
    /// absent from `live` are left untouched, so a despawned entity's reading
    /// freezes.
    ///
    /// A slot seen for the first time is seeded from its current position and
    /// contributes nothing on that call.
    ///
    /// Displacement is `|dx| + |dy| + |dz|`, which needs no square root and
    /// over-estimates the Euclidean step by up to a factor of 1.73 depending on
    /// direction of travel. Nothing distinguishes a step from a teleport; both
    /// are measured, since both leave a client's copy equally wrong.
    ///
    /// Positions do not change within a tick, so a second call in the same tick
    /// adds nothing.
    ///
    /// Reusing an entity slot for a different entity is not supported: the new
    /// occupant's first call would accumulate its separation from the previous
    /// occupant's last position.
    ///
    /// Allocates only while slot capacity is growing.
    pub fn accumulate(&mut self, xs: &[Fixed], ys: &[Fixed], zs: &[Fixed], live: &LiveSet)
        requires
            old(self).wf(),
            live.wf(),
            xs@.len() == ys@.len(),
            xs@.len() == zs@.len(),
            live.space() >= xs@.len(),
        ensures
            final(self).wf(),
            final(self)@ == accumulated(old(self)@, xs@, ys@, zs@, live@),
            forall|i: int|
                0 <= i < final(self)@.len() ==> {
                    let now = #[trigger] final(self)@[i];
                    if i >= old(self)@.len() {
                        now.total == 0 && now.at.x == xs@[i] && now.at.y == ys@[i] && now.at.z
                            == zs@[i]
                    } else if i < xs@.len() && live@.contains(i as u32) {
                        let was = old(self)@[i];
                        let far = vstd::math::abs(xs@[i].0 - was.at.x.0) + vstd::math::abs(ys@[i].0 - was.at.y.0) + vstd::math::abs(
                            zs@[i].0 - was.at.z.0,
                        );
                        &&& now.total == (was.total + vstd::math::min(far as int, 0xffff_ffff)) % 0x1_0000_0000
                        &&& now.at.x == xs@[i]
                        &&& now.at.y == ys@[i]
                        &&& now.at.z == zs@[i]
                    } else {
                        now == old(self)@[i]
                    }
                },
    {
        let slots: usize = xs.len();
        let ghost was = self@;
        proof {
            live.lemma_finite();
        }
        // No prior observation, so the first call contributes nothing.
        while self.total.len() < slots
            invariant
                slots == xs@.len(),
                xs@.len() == ys@.len(),
                xs@.len() == zs@.len(),
                self.wf(),
                was.len() <= self@.len(),
                self@.len() <= slots || self@.len() == was.len(),
                forall|i: int| 0 <= i < was.len() ==> #[trigger] self@[i] == was[i],
                forall|i: int|
                    was.len() <= i < self@.len() ==> #[trigger] self@[i] == (Mark {
                        total: 0,
                        at: spot(xs@, ys@, zs@, i),
                    }),
            decreases slots - self.total@.len(),
        {
            let ghost before = self@;
            let n: usize = self.total.len();
            self.total.push(0);
            self.prev_x.push(xs[n]);
            self.prev_y.push(ys[n]);
            self.prev_z.push(zs[n]);
            assert forall|i: int| 0 <= i < before.len() implies #[trigger] self@[i]
                == before[i] by {}
        }
        let ghost grown = self@;
        let mut it = live.iter();
        loop
            invariant
                slots == xs@.len(),
                xs@.len() == ys@.len(),
                xs@.len() == zs@.len(),
                self.wf(),
                it.wf(),
                it@.finite(),
                it@.subset_of(live@),
                self@.len() == grown.len(),
                grown.len() >= slots,
                forall|i: int|
                    0 <= i < grown.len() ==> #[trigger] self@[i] == if i < slots && live@.contains(
                        i as u32,
                    ) && !it@.contains(i as u32) && i <= u32::MAX {
                        grown[i].stepped(spot(xs@, ys@, zs@, i))
                    } else {
                        grown[i]
                    },
            ensures
                self.wf(),
                self@.len() == grown.len(),
                forall|i: int|
                    0 <= i < grown.len() ==> #[trigger] self@[i] == if i < slots && live@.contains(
                        i as u32,
                    ) && i <= u32::MAX {
                        grown[i].stepped(spot(xs@, ys@, zs@, i))
                    } else {
                        grown[i]
                    },
            decreases it@.len(),
        {
            let ghost left = it@;
            let ghost before = self@;
            let id = match it.next() {
                Some(id) => id,
                None => break,
            };
            let i: usize = id.index();
            if i >= slots {
                assert(forall|k: u32| #[trigger] left.contains(k) ==> slots <= k);
                break;
            }
            let step: u32 = gap(xs[i], self.prev_x[i]).saturating_add(
                gap(ys[i], self.prev_y[i]),
            ).saturating_add(gap(zs[i], self.prev_z[i]));
            assert(step == step_between(spot(xs@, ys@, zs@, i as int), before[i as int].at));
            let total: u32 = self.total[i].wrapping_add(step);
            self.total.set(i, total);
            self.prev_x.set(i, xs[i]);
            self.prev_y.set(i, ys[i]);
            self.prev_z.set(i, zs[i]);
            proof {
                assert(before[i as int] == grown[i as int]);
                assert(self@[i as int] == grown[i as int].stepped(
                    spot(xs@, ys@, zs@, i as int),
                ));
                assert forall|k: int| 0 <= k < grown.len() implies #[trigger] self@[k]
                    == if k < slots && live@.contains(k as u32) && !it@.contains(k as u32) && k
                    <= u32::MAX {
                    grown[k].stepped(spot(xs@, ys@, zs@, k))
                } else {
                    grown[k]
                } by {
                    if k != i {
                        assert(self@[k] == before[k]);
                    }
                }
            }
        }
        proof {
            let want = accumulated(was, xs@, ys@, zs@, live@);
            assert forall|i: int| 0 <= i < want.len() implies self@[i] == want[i] by {
                if was.len() <= i {
                    let m = grown[i];
                    assert(m == (Mark { total: 0, at: spot(xs@, ys@, zs@, i) }));
                    assert(m.stepped(spot(xs@, ys@, zs@, i)) == m);
                }
            }
            assert(self@ =~= want);
        }
    }

    /// Forgets every entity.
    pub fn clear(&mut self)
        ensures
            final(self).wf(),
            final(self)@ == Seq::<Mark>::empty(),
    {
        self.total.clear();
        self.prev_x.clear();
        self.prev_y.clear();
        self.prev_z.clear();
        assert(self@ =~= Seq::<Mark>::empty());
    }
}

impl Default for Odometer {
    fn default() -> (o: Odometer)
        ensures
            o.wf(),
            o@ == Seq::<Mark>::empty(),
    {
        Odometer::new()
    }
}

/// What one call adds to a live entity's reading is how far it went along each
/// axis, summed, held to what 32 bits hold. A step and its reverse add the
/// same, and neither adds more than three times the longest of its axes.
pub proof fn law_a_reading_grows_by_how_far_each_axis_went(
    marks: Seq<Mark>,
    xs: Seq<Fixed>,
    ys: Seq<Fixed>,
    zs: Seq<Fixed>,
    live: Set<u32>,
    i: int,
    back: Mark,
)
    requires
        0 <= i < marks.len(),
        i < xs.len(),
        live.contains(i as u32),
    ensures
        ({
            let was = marks[i];
            let now = accumulated(marks, xs, ys, zs, live)[i];
            let (dx, dy, dz) = (
                xs[i].0 - was.at.x.0,
                ys[i].0 - was.at.y.0,
                zs[i].0 - was.at.z.0,
            );
            let far = vstd::math::abs(dx) + vstd::math::abs(dy) + vstd::math::abs(dz);
            let added = (now.total - was.total) % 0x1_0000_0000;
            &&& added == vstd::math::min(far as int, 0xffff_ffff)
            &&& added <= 3 * vstd::math::max(vstd::math::abs(dx) as int, vstd::math::max(vstd::math::abs(dy) as int, vstd::math::abs(dz) as int))
            &&& now.at.x == xs[i] && now.at.y == ys[i] && now.at.z == zs[i]
            &&& back.at == now.at ==> (back.stepped(was.at).total - back.total) % 0x1_0000_0000
                == added
        }),
{
    let was = marks[i];
    let to = spot(xs, ys, zs, i);
    lemma_wrapped_difference(was.total, step_between(to, was.at));
    lemma_wrapped_difference(back.total, step_between(was.at, to));
}

/// What was added to a total that wraps comes back out of the difference.
proof fn lemma_wrapped_difference(total: u32, step: int)
    requires
        0 <= step <= u32::MAX,
    ensures
        ((total + step) % 0x1_0000_0000 - total) % 0x1_0000_0000 == step,
        0 <= (total + step) % 0x1_0000_0000 <= u32::MAX,
{
    if total + step >= 0x1_0000_0000 {
        assert((total + step) % 0x1_0000_0000 == total + step - 0x1_0000_0000);
    }
}

/// A slot seen for the first time reads nothing and is remembered where it is,
/// and a call covers every slot it was given and forgets none.
pub proof fn law_a_new_slot_reads_nothing(
    marks: Seq<Mark>,
    xs: Seq<Fixed>,
    ys: Seq<Fixed>,
    zs: Seq<Fixed>,
    live: Set<u32>,
    i: int,
)
    requires
        marks.len() <= i < xs.len(),
    ensures
        ({
            let after = accumulated(marks, xs, ys, zs, live);
            &&& after.len() == vstd::math::max(marks.len() as int, xs.len() as int)
            &&& after[i].total == 0
            &&& after[i].at.x == xs[i] && after[i].at.y == ys[i] && after[i].at.z == zs[i]
        }),
{
}

/// Positions that have not changed add nothing: a second call in one tick
/// leaves every reading as the first left it.
pub proof fn law_a_second_call_adds_nothing(
    marks: Seq<Mark>,
    xs: Seq<Fixed>,
    ys: Seq<Fixed>,
    zs: Seq<Fixed>,
    live: Set<u32>,
)
    requires
        xs.len() == ys.len(),
        xs.len() == zs.len(),
    ensures
        ({
            let once = accumulated(marks, xs, ys, zs, live);
            accumulated(once, xs, ys, zs, live) == once
        }),
{
    let once = accumulated(marks, xs, ys, zs, live);
    let twice = accumulated(once, xs, ys, zs, live);
    assert forall|i: int| 0 <= i < once.len() implies twice[i] == once[i] by {
        if i < xs.len() && live.contains(i as u32) {
            assert(once[i].at == spot(xs, ys, zs, i));
        }
    }
    assert(twice =~= once);
}

/// A slot that is not alive keeps its reading, wherever its position goes.
pub proof fn law_a_dead_slot_keeps_its_reading(
    marks: Seq<Mark>,
    xs: Seq<Fixed>,
    ys: Seq<Fixed>,
    zs: Seq<Fixed>,
    live: Set<u32>,
    id: u32,
)
    requires
        id < marks.len(),
        !live.contains(id),
    ensures
        accumulated(marks, xs, ys, zs, live)[id as int] == marks[id as int],
{
}

/// What a call adds to a live entity's reading is never less than how far the
/// entity is from where it was, and the difference of two readings gives it
/// back even where the total wrapped in between.
pub proof fn law_a_difference_survives_wrapping(mark: Mark, to: Pos3)
    ensures
        (mark.stepped(to).total - mark.total) % 0x1_0000_0000 == step_between(to, mark.at),
        mark.at.gap_sq(to) <= step_between(to, mark.at) * step_between(to, mark.at)
            || step_between(to, mark.at) == u32::MAX,
{
    let (a, b) = (mark.at, to);
    let x = apart(b.x, a.x);
    let y = apart(b.y, a.y);
    let z = apart(b.z, a.z);
    let s = step_between(to, mark.at);
    assert(a.gap_sq(b) == x * x + y * y + z * z) by {
        assert((a.x.0 - b.x.0) * (a.x.0 - b.x.0) == x * x) by (nonlinear_arith)
            requires
                x == a.x.0 - b.x.0 || x == b.x.0 - a.x.0,
        ;
        assert((a.y.0 - b.y.0) * (a.y.0 - b.y.0) == y * y) by (nonlinear_arith)
            requires
                y == a.y.0 - b.y.0 || y == b.y.0 - a.y.0,
        ;
        assert((a.z.0 - b.z.0) * (a.z.0 - b.z.0) == z * z) by (nonlinear_arith)
            requires
                z == a.z.0 - b.z.0 || z == b.z.0 - a.z.0,
        ;
    }
    if s != u32::MAX {
        assert(x * x + y * y + z * z <= (x + y + z) * (x + y + z)) by (nonlinear_arith)
            requires
                x >= 0,
                y >= 0,
                z >= 0,
        ;
    }
}

} // verus!
