//! How far entities have moved.

use umwelt::entity::{EntityId, LiveSet};
use umwelt::fixed::Fixed;
use umwelt::odometer::Odometer;

/// Position arrays and a live set, as `WorldSimulation` will hold them.
struct World {
    xs: Vec<Fixed>,
    ys: Vec<Fixed>,
    zs: Vec<Fixed>,
    live: LiveSet,
}

impl World {
    fn new() -> World {
        World { xs: Vec::new(), ys: Vec::new(), zs: Vec::new(), live: LiveSet::new() }
    }

    fn spawn(&mut self, x: i32, y: i32, z: i32) -> EntityId {
        let id = EntityId::from_raw(self.xs.len() as u32);
        self.xs.push(Fixed::from_meters(x));
        self.ys.push(Fixed::from_meters(y));
        self.zs.push(Fixed::from_meters(z));
        self.live.insert(id);
        id
    }

    fn move_to(&mut self, id: EntityId, x: i32, y: i32, z: i32) {
        let i = id.index();
        self.xs[i] = Fixed::from_meters(x);
        self.ys[i] = Fixed::from_meters(y);
        self.zs[i] = Fixed::from_meters(z);
    }

    fn accumulate(&self, odo: &mut Odometer) {
        odo.accumulate(&self.xs, &self.ys, &self.zs, &self.live);
    }
}

/// A reading equivalent to `m` meters of path.
fn meters(m: i32) -> u32 {
    Fixed::from_meters(m).raw() as u32
}

#[test]
fn a_stationary_entity_accumulates_nothing() {
    let mut w = World::new();
    let a = w.spawn(100, 200, 5);
    let mut odo = Odometer::new();
    for _ in 0..50 {
        w.accumulate(&mut odo);
    }
    assert_eq!(odo.reading(a), 0, "an idle entity must never look stale");
}

#[test]
fn a_new_slot_starts_at_zero() {
    let mut w = World::new();
    let a = w.spawn(1000, 1000, 0);
    let b = w.spawn(2000, 2000, 300);
    let mut odo = Odometer::new();
    w.accumulate(&mut odo);
    assert_eq!(odo.reading(a), 0);
    assert_eq!(odo.reading(b), 0);
}

#[test]
fn a_straight_line_accumulates_its_path_length() {
    let mut w = World::new();
    let a = w.spawn(0, 0, 0);
    let mut odo = Odometer::new();
    w.accumulate(&mut odo);
    for m in 1..=10 {
        w.move_to(a, m, 0, 0);
        w.accumulate(&mut odo);
    }
    assert_eq!(odo.reading(a), meters(10));
}

#[test]
fn displacement_is_manhattan_and_includes_height() {
    let mut w = World::new();
    let a = w.spawn(0, 0, 0);
    let mut odo = Odometer::new();
    w.accumulate(&mut odo);
    // A 3-4-12 step is 13 m of separation and 19 m by the approximation
    // in use. The cell grid is horizontal; this is not.
    w.move_to(a, 3, 4, 12);
    w.accumulate(&mut odo);
    assert_eq!(odo.reading(a), meters(19));
}

#[test]
fn a_despawned_entity_stops_accumulating() {
    let mut w = World::new();
    let a = w.spawn(0, 0, 0);
    let mut odo = Odometer::new();
    w.accumulate(&mut odo);
    w.move_to(a, 5, 0, 0);
    w.accumulate(&mut odo);
    let frozen = odo.reading(a);

    w.live.remove(a);
    w.move_to(a, 900, 0, 0);
    w.accumulate(&mut odo);
    assert_eq!(odo.reading(a), frozen, "a dead slot must not accumulate");
}

#[test]
fn growth_preserves_existing_readings() {
    let mut w = World::new();
    let a = w.spawn(0, 0, 0);
    let mut odo = Odometer::new();
    w.accumulate(&mut odo);
    w.move_to(a, 6, 0, 0);
    w.accumulate(&mut odo);
    assert_eq!(odo.reading(a), meters(6));

    let b = w.spawn(500, 500, 0);
    w.accumulate(&mut odo);
    assert_eq!(odo.reading(a), meters(6), "an existing reading must survive growth");
    assert_eq!(odo.reading(b), 0, "a new slot has no prior observation");
}

#[test]
fn a_difference_survives_the_total_wrapping() {
    let mut w = World::new();
    let a = w.spawn(0, 0, 0);
    let mut odo = Odometer::new();
    w.accumulate(&mut odo);

    let step_m = 1_000;
    let per_step = meters(step_m) as u64;
    let to_wrap = (u32::MAX as u64 / per_step) + 1;

    let mut k = 0u64;
    while k < to_wrap {
        w.move_to(a, if k % 2 == 0 { step_m } else { 0 }, 0, 0);
        w.accumulate(&mut odo);
        k += 1;
    }
    assert!(
        k * per_step > u32::MAX as u64,
        "the total must have wrapped or this proves nothing"
    );

    let mark = odo.reading(a);
    for _ in 0..7 {
        w.move_to(a, if k % 2 == 0 { step_m } else { 0 }, 0, 0);
        w.accumulate(&mut odo);
        k += 1;
    }
    assert_eq!(
        odo.reading(a).wrapping_sub(mark),
        (7 * per_step) as u32,
        "a difference below 2^32 stays exact after the total wraps"
    );
}

#[test]
fn repeated_calls_stop_allocating() {
    let mut w = World::new();
    for i in 0..64 {
        w.spawn(i, i * 2, 0);
    }
    let mut odo = Odometer::new();
    w.accumulate(&mut odo);
    let ptr = odo.as_slice().as_ptr();
    for _ in 0..100 {
        w.accumulate(&mut odo);
    }
    assert_eq!(odo.as_slice().as_ptr(), ptr, "steady state must not reallocate");
}
