//! The world a region runs.

use umwelt::config::{ConfigError, WorldConfig, WorldConfigBuilder, MAX_CELL_RADIUS};
use umwelt::fixed::Fixed;
use umwelt::pos::{CellCoord, Pos2, Pos3};

fn base() -> WorldConfigBuilder {
    WorldConfig::builder()
        .region_size_m(4096)
        .vertical_extent_m(1024)
        .horizontal_view_radius_m(256)
        .max_horizontal_speed_m_per_sec(40)
        .tick_hz(20)
}

#[test]
fn default_matches_hand_computed_values() {
    let w = WorldConfig::default();
    assert_eq!(w.cell_shift(), 17);
    assert_eq!(w.cells_per_axis(), 32);
    assert_eq!(w.cells_per_region(), 1024);
    assert_eq!(w.cell_radius(), 2);
    assert_eq!(w.sub_grid_axis(), 5);
    assert_eq!(w.sub_grid_cells(), 25);
    assert_eq!(w.tick_ms(), 50);
    assert_eq!(w.max_move_per_tick(), Fixed::from_meters(2));
    assert_eq!(w.horizontal_bits(), 22);
    assert_eq!(w.vertical_bits(), 20);
}

#[test]
fn cell_lookup_agrees_with_division() {
    let w = WorldConfig::default();
    for m in 0..4096i32 {
        let p = Pos2::from_meters(m, m);
        let expected = (Fixed::from_meters(m).raw() / w.cell_size().raw()) as u16;
        assert_eq!(w.cell_of(p).x, expected);
    }
}

#[test]
fn offset_in_cell_agrees_with_remainder() {
    let w = WorldConfig::default();
    for m in 0..4096i32 {
        let v = Fixed::from_meters(m);
        assert_eq!(w.offset_in_cell(v).raw(), v.raw() % w.cell_size().raw());
    }
}

#[test]
fn cell_id_round_trips() {
    let w = WorldConfig::default();
    for y in 0..w.cells_per_axis() as u16 {
        for x in 0..w.cells_per_axis() as u16 {
            let c = CellCoord::new(x, y);
            assert_eq!(w.cell_coord(w.cell_id(c)), c);
        }
    }
}

#[test]
fn an_axis_is_wide_enough_for_every_position_in_it() {
    // The property that replaced precision reduction: a coordinate is
    // carried whole, so its extent has to fit in the bits allotted to it.
    let w = WorldConfig::default();
    assert_eq!(1u32 << w.horizontal_bits(), w.region_size().raw() as u32);
    assert_eq!(1u32 << w.vertical_bits(), w.vertical_extent().raw() as u32);
}

#[test]
fn contains_rejects_out_of_range() {
    let w = WorldConfig::default();
    assert!(w.contains(Pos3::from_meters(0, 0, 0)));
    assert!(w.contains(Pos3::from_meters(4095, 4095, 1023)));
    assert!(!w.contains(Pos3::from_meters(4096, 0, 0)));
    assert!(!w.contains(Pos3::from_meters(0, 0, 1024)));
    assert!(!w.contains(Pos3::from_meters(-1, 0, 0)));
}

#[test]
fn rejects_non_positive_extent() {
    let err = base().region_size_m(0).build().unwrap_err();
    assert!(matches!(err, ConfigError::NonPositive("region_size")));
}

#[test]
fn cell_size_derives_to_half_the_view_radius() {
    let w = WorldConfig::default();
    assert_eq!(w.cell_size(), Fixed::from_meters(128));
    assert_eq!(w.horizontal_view_radius(), Fixed::from_meters(256));
    assert_eq!(w.cell_radius(), 2);
}

#[test]
fn derived_cell_size_floors_to_a_power_of_two() {
    // 300 m radius halves to 150 m, which floors to 128 m.
    let w = base().horizontal_view_radius_m(300).build().unwrap();
    assert_eq!(w.cell_size(), Fixed::from_meters(128));
    assert_eq!(w.cell_radius(), 3);
}

#[test]
fn derived_cell_size_never_breaks_the_radius_bound() {
    for r in 4..=2048 {
        let w = base().horizontal_view_radius_m(r).build();
        if let Ok(w) = w {
            assert!(
                w.cell_radius() <= MAX_CELL_RADIUS,
                "radius {r} m gave cell radius {}",
                w.cell_radius()
            );
        }
    }
}

#[test]
fn cell_size_override_recomputes_the_grid() {
    let w = WorldConfig::default().with_cell_size_m(64);
    assert_eq!(w.cell_size(), Fixed::from_meters(64));
    assert_eq!(w.cells_per_axis(), 64);
    assert_eq!(w.cells_per_region(), 4096);
    assert_eq!(w.cell_radius(), 4);
    assert_eq!(w.sub_grid_axis(), 9);
    // Wire widths are untouched, but cell size is protocol-critical: a
    // client decoding a CellCoord has to agree on what a cell is.
    assert_eq!(w.horizontal_bits(), WorldConfig::default().horizontal_bits());
    assert_ne!(w.protocol_hash(), WorldConfig::default().protocol_hash());
}

#[test]
fn rejects_entity_that_can_skip_a_cell() {
    // A 2 m view radius derives a 1 m cell, and 40 m/s at 20 Hz moves 2 m
    // per tick.
    let err = base().horizontal_view_radius_m(2).build().unwrap_err();
    assert!(matches!(err, ConfigError::SpeedExceedsCellPerTick { .. }));
}

#[test]
fn protocol_hash_ignores_simulation_only_fields() {
    let a = base().build().unwrap();
    let b = base().max_horizontal_speed_m_per_sec(30).build().unwrap();
    assert_eq!(a.protocol_hash(), b.protocol_hash());
}

#[test]
fn protocol_hash_catches_wire_layout_change() {
    // Bits per axis derive from region extent, so this is the only way to
    // change them.
    let a = base().build().unwrap();
    let b = base().region_size_m(2048).build().unwrap();
    assert_ne!(a.horizontal_bits(), b.horizontal_bits());
    assert_ne!(a.protocol_hash(), b.protocol_hash());
}

#[test]
fn protocol_hash_catches_vertical_change() {
    let a = base().build().unwrap();
    let b = base().vertical_extent_m(512).build().unwrap();
    assert_ne!(a.protocol_hash(), b.protocol_hash());
}
