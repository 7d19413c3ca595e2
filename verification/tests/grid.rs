//! Cells, and who is in them.

use umwelt::budget::PacketBudget;
use umwelt::codec::RecordCodec;
use umwelt::config::WorldConfig;
use umwelt::entity::{EntityId, LiveSet};
use umwelt::fan::fan;
use umwelt::fixed::{DistSq, Fixed};
use umwelt::gather::DiscoveredEntities;
use umwelt::ghost::GhostTable;
use umwelt::internals::{read_payload, spawn_shadow, with_cell_size_m};
use umwelt::odometer::Odometer;
use umwelt::packet::PacketWriter;
use umwelt::pos::{CellCoord, CellId, Pos2, Pos3};
use umwelt::sim::Step;
use umwelt::snapshot::CellSnapshot;
use umwelt::subscription::Subscription;

fn world(pts: &[Pos3]) -> (WorldConfig, CellSnapshot) {
    let cfg = WorldConfig::default();
    let mut live = LiveSet::new();
    for i in 0..pts.len() {
        live.insert(EntityId::from_raw(i as u32));
    }
    let xs: Vec<Fixed> = pts.iter().map(|p| p.x).collect();
    let ys: Vec<Fixed> = pts.iter().map(|p| p.y).collect();
    let zs: Vec<Fixed> = pts.iter().map(|p| p.z).collect();
    let tags: Vec<u16> = (0..pts.len() as u16).collect();
    let mut snap = CellSnapshot::new(&cfg);
    snap.update(&xs, &ys, &zs, &tags, &live);
    (cfg, snap)
}

#[test]
fn a_fan_is_every_point_of_its_box_nearest_first() {
    let points = fan((1, 1), 0, 2);
    assert_eq!(points.len(), 9);
    assert_eq!(points[0], (1, 1));
    let reach: Vec<i32> =
        points.iter().map(|(x, y)| (x - 1) * (x - 1) + (y - 1) * (y - 1)).collect();
    let mut sorted = reach.clone();
    sorted.sort();
    assert_eq!(reach, sorted);
    assert_eq!(fan((0, 0), 0, 0), vec![(0, 0)]);
}

#[test]
fn a_snapshot_files_everybody_under_their_cell() {
    let pts: Vec<Pos3> = (0..500).map(|i| Pos3::from_meters((i * 37) % 4096, (i * 91) % 4096, i)).collect();
    let (cfg, snap) = world(&pts);
    assert_eq!(snap.len(), 500);
    let mut seen = 0;
    for c in 0..cfg.cells_per_region() {
        let run = snap.entities_for_cell(CellId::from_raw(c));
        for i in run.first..run.last {
            let id = snap.id_at(i);
            assert_eq!(snap.pos_at(i), pts[id.index()]);
            assert_eq!(snap.tag_at(i), id.raw() as u16);
            assert_eq!(cfg.cell_id(cfg.cell_of(snap.pos_at(i).horizontal())).raw(), c);
            seen += 1;
        }
        assert_eq!(run.len(), run.last - run.first);
    }
    assert_eq!(seen, 500);
}

#[test]
fn a_crowded_cell_is_divided_and_a_quiet_one_is_not() {
    let crowd: Vec<Pos3> = (0..257).map(|i| Pos3::from_meters(2048 + i % 100, 2048 + i / 3, 0)).collect();
    let (cfg, snap) = world(&crowd);
    let home = cfg.cell_id(cfg.cell_of(crowd[0].horizontal()));
    let grid = snap.sub_cells(home).expect("past what one run holds");
    let mut seen = 0;
    for b in 0..64 {
        seen += grid.occupants_at(b).len();
    }
    assert_eq!(seen, 257);
    assert!(snap.sub_cells(CellId::from_raw(0)).is_none());
}

#[test]
fn a_despawned_entity_leaves_the_snapshot() {
    let cfg = WorldConfig::default();
    let mut live = LiveSet::new();
    live.insert(EntityId::from_raw(0));
    live.insert(EntityId::from_raw(2));
    let at = [Fixed::from_meters(10), Fixed::from_meters(20), Fixed::from_meters(30)];
    let mut snap = CellSnapshot::new(&cfg);
    snap.update(&at, &at, &at, &[0, 1, 2], &live);
    assert_eq!(snap.len(), 2);
    live.remove(EntityId::from_raw(2));
    snap.update(&at, &at, &at, &[0, 1, 2], &live);
    assert_eq!((snap.len(), snap.id_at(0)), (1, EntityId::from_raw(0)));
}

#[test]
fn a_subscription_is_held_to_the_region() {
    let cfg = WorldConfig::default();
    let corner = Subscription::at_center(&cfg, CellCoord::new(0, 31));
    assert_eq!((corner.x0, corner.x1, corner.y0, corner.y1), (0, 2, 29, 31));
    assert!(corner.contains(CellCoord::new(2, 29)));
    assert!(!corner.contains(CellCoord::new(3, 29)));
}

#[test]
fn the_view_radius_is_a_closed_bound() {
    let viewer = Pos3::from_meters(2048, 2048, 0);
    let rim = Pos3::new(
        Fixed::from_meters(2048 + 256),
        Fixed::from_meters(2048),
        Fixed::zero(),
    );
    let past = Pos3::new(
        Fixed::from_raw(rim.x.raw() + 1),
        rim.y,
        rim.z,
    );
    let (cfg, snap) = world(&[rim, past]);
    let sub = Subscription::at_center(&cfg, cfg.cell_of(viewer.horizontal()));
    let mut out = DiscoveredEntities::default();
    snap.gather_into(viewer, sub, &mut out);
    assert_eq!(out.len(), 1);
    assert_eq!(out.as_slice()[0].id, EntityId::from_raw(0));
    assert_eq!(out.as_slice()[0].dist_sq, DistSq::from_radius(Fixed::from_meters(256)));
    out.as_mut_slice()[0].snapshot_index = 9;
    assert_eq!(out.iter().next().expect("one").snapshot_index, 9);
    assert!(out.capacity() >= out.len());
}

#[test]
fn a_buffer_has_the_room_it_was_made_with() {
    let d = DiscoveredEntities::with_capacity(300);
    assert!(d.capacity() >= 300 && d.is_empty());
}

#[test]
fn a_position_falls_in_the_cell_around_it() {
    let cfg = WorldConfig::default();
    let p = Pos2::from_meters(300, 129);
    assert_eq!(cfg.cell_of(p), CellCoord::new(2, 1));
    assert_eq!(cfg.cell_of(Pos2::from_meters(-5, 9000)), CellCoord::new(0, 31), "held to the region");
    assert_eq!(cfg.offset_in_cell(p.x), Fixed::from_meters(44));
    let held = cfg.clamp(Pos3::from_meters(-1, 5000, 2000));
    assert_eq!(held.x, Fixed::zero());
    assert_eq!(held.y.raw(), 4096 * 1024 - 1);
    assert_eq!(held.z.raw(), 1024 * 1024 - 1);
    assert_eq!(Pos2::from_meters(0, 0).dist_sq(Pos2::from_meters(3, 4)), DistSq::from_radius(Fixed::from_meters(5)));
}

#[test]
fn a_cell_size_can_be_swept() {
    let cfg = with_cell_size_m(&WorldConfig::default(), 64);
    assert_eq!(cfg.cell_size(), Fixed::from_meters(64));
    assert_eq!(WorldConfig::default().est_entities_in_view(4096), 100);
    assert_eq!(cfg.est_entities_in_view(4096), 81);
}

#[test]
fn a_payload_is_read_as_it_was_built() {
    let cfg = WorldConfig::default();
    let codec = RecordCodec::new(&cfg);
    let mut writer = PacketWriter::new(codec.clone(), 1200);
    let moved = [(EntityId::from_raw(4), Pos3::from_meters(1, 2, 3), 5u16)];
    let bytes = writer.build(9, 1, &[EntityId::from_raw(2)], &moved).to_vec();
    let seen = read_payload(&codec, &bytes).expect("well formed");
    assert_eq!(seen.tick(), 9);
    assert_eq!(seen.despawns(), vec![EntityId::from_raw(2)]);
    assert_eq!(seen.updates(), moved.to_vec());
    assert!(read_payload(&codec, &bytes[..15]).is_none());
}

#[test]
fn a_shadow_has_an_id_of_its_own() {
    let mut step = Step::new(WorldConfig::default());
    let a = step.spawn(Pos3::from_meters(1, 1, 0), 3);
    let s = spawn_shadow(&mut step, Pos3::from_meters(2, 2, 0));
    assert_eq!((a.raw(), s.raw(), step.slots()), (0, 1, 2));
    step.set_position(a, Pos3::from_meters(5, 5, 5));
    assert_eq!(step.position(a), Some(Pos3::from_meters(5, 5, 5)));
    step.despawn(a);
    assert!(!step.contains(a));
    assert_eq!(step.position(a), Some(Pos3::from_meters(5, 5, 5)), "where it last was");
    assert_eq!(step.position(EntityId::from_raw(9)), None);
    assert_eq!(step.take_despawned(), vec![a]);
    assert!(step.take_despawned().is_empty());
    assert_eq!(step.live().count(), 1);
}

#[test]
fn a_budget_keeps_its_parts() {
    let codec = RecordCodec::new(&WorldConfig::default());
    let b = PacketBudget::with_overhead(&codec, 1200, 16, 256);
    assert_eq!((b.payload_bytes(), b.header_bytes(), b.event_reserve_bytes()), (1200, 16, 256));
}

#[test]
fn a_ghost_is_dropped_after_its_last_tick_and_not_before() {
    let mut t = GhostTable::new();
    t.sent(EntityId::from_raw(1), 10, 0);
    let mut gone = Vec::new();
    t.evict(5, 5, &mut gone);
    assert!(gone.is_empty(), "exactly as old as is kept");
    t.evict(6, 5, &mut gone);
    assert_eq!(gone, vec![EntityId::from_raw(1)]);
    assert_eq!(t.mark(EntityId::from_raw(u32::MAX)), None, "the reserved id is nobody");
}

#[test]
fn a_second_reading_of_the_same_positions_adds_nothing() {
    let mut live = LiveSet::new();
    live.insert(EntityId::from_raw(0));
    let mut odo = Odometer::new();
    let (a, b) = ([Fixed::from_meters(0)], [Fixed::from_meters(7)]);
    odo.accumulate(&a, &a, &a, &live);
    odo.accumulate(&b, &a, &a, &live);
    let once = odo.reading(EntityId::from_raw(0));
    odo.accumulate(&b, &a, &a, &live);
    assert_eq!(odo.reading(EntityId::from_raw(0)), once);
    assert_eq!(once, 7 * 1024);
}
