//! Which region sits where.

use umwelt::fixed::Fixed;
use umwelt::id::RegionId;
use umwelt::map::{MapError, Placement, Side, WorldMap};
use umwelt::pos::{Pos3, WorldPos};

fn r(n: u32) -> RegionId {
    RegionId::from_raw(n)
}

fn three() -> WorldMap {
    let mut m = WorldMap::new();
    m.place(r(1), Placement::new(0, 0)).unwrap();
    m.place(r(2), Placement::new(1, 0)).unwrap();
    m.place(r(3), Placement::new(-1, -2)).unwrap();
    m
}

#[test]
fn the_bytes_are_four_plus_twelve_per_placement_and_round_trip() {
    let m = three();
    let bytes = m.encode();
    assert_eq!(bytes.len(), 4 + 3 * 12);
    assert_eq!(&bytes[..4], &1u32.to_le_bytes());
    assert_eq!(WorldMap::decode(&bytes).unwrap(), m);
    assert_eq!(WorldMap::decode(&WorldMap::new().encode()).unwrap(), WorldMap::new());
}

#[test]
fn a_wrong_length_is_refused() {
    assert!(matches!(WorldMap::decode(&[]), Err(MapError::BadLength(0))));
    assert!(matches!(
        WorldMap::decode(&[1, 0, 0, 0, 9]),
        Err(MapError::BadLength(5))
    ));
}

#[test]
fn an_unknown_version_is_refused() {
    assert!(matches!(
        WorldMap::decode(&2u32.to_le_bytes()),
        Err(MapError::UnknownVersion(2))
    ));
}

#[test]
fn a_region_placed_twice_or_a_square_held_twice_is_refused() {
    let mut m = three();
    assert!(matches!(
        m.place(r(1), Placement::new(5, 5)),
        Err(MapError::DuplicateRegion(_))
    ));
    assert!(matches!(
        m.place(r(9), Placement::new(1, 0)),
        Err(MapError::DuplicateSquare(_))
    ));
    let mut bytes = three().encode();
    bytes.extend_from_slice(&three().encode()[4..16]);
    assert!(matches!(WorldMap::decode(&bytes), Err(MapError::DuplicateRegion(_))));
}

#[test]
fn a_region_id_past_31_bits_is_refused() {
    let mut m = WorldMap::new();
    assert!(matches!(
        m.place(r(0x8000_0000), Placement::new(0, 0)),
        Err(MapError::RegionIdTooWide(_))
    ));
    assert!(m.place(r(0x7fff_ffff), Placement::new(0, 0)).is_ok());
}

#[test]
fn neighbors_follow_placement_and_walls_are_none() {
    let m = three();
    assert_eq!(m.neighbor(r(1), Side::East), Some(r(2)));
    assert_eq!(m.neighbor(r(2), Side::West), Some(r(1)));
    assert_eq!(m.neighbor(r(1), Side::West), None);
    assert_eq!(m.neighbor(r(1), Side::North), None);
    assert_eq!(m.neighbor(r(3), Side::South), None);
    assert_eq!(
        m.neighbor(r(42), Side::East),
        None,
        "an unplaced region has no neighbors"
    );
}

#[test]
fn a_world_position_locates_its_region_and_local_position() {
    let m = three();
    let size = Fixed::from_meters(4096);
    // Inside region 2's square, 10 m past its west side.
    let at = WorldPos::from_meters(4096 + 10, 20, 3);
    let (region, local) = m.locate(at, size).unwrap();
    assert_eq!(region, r(2));
    assert_eq!(local, Pos3::from_meters(10, 20, 3));
    // The last raw unit of region 1 and the first of region 2.
    let edge = WorldPos::from_raw(size.raw() as i64 - 1, 0, 0);
    assert_eq!(m.locate(edge, size).unwrap().0, r(1));
    let first = WorldPos::from_raw(size.raw() as i64, 0, 0);
    assert_eq!(m.locate(first, size).unwrap(), (r(2), Pos3::zero()));
    // Negative squares floor toward negative infinity.
    let south_west = WorldPos::from_meters(-1, -4097, 0);
    let (region, local) = m.locate(south_west, size).unwrap();
    assert_eq!(region, r(3));
    assert_eq!(local, Pos3::from_meters(4095, 4095, 0));
    // An empty square is nowhere.
    assert_eq!(m.locate(WorldPos::from_meters(9000, 9000, 0), size), None);
    // Too far to name a square.
    assert_eq!(m.locate(WorldPos::from_raw(i64::MAX, 0, 0), size), None);
}
