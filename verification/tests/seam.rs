//! Where a view reaches past its region.

use umwelt::config::WorldConfig;
use umwelt::fixed::Fixed;
use umwelt::map::Placement;
use umwelt::net::edge::seam::{shadow_point, squares_in_view};
use umwelt::pos::{Pos3, WorldPos};

fn cfg() -> WorldConfig {
    WorldConfig::default()
}

#[test]
fn the_middle_sees_into_no_square() {
    let at = Placement::new(3, 3);
    assert!(squares_in_view(&cfg(), at, Pos3::from_meters(2048, 2048, 0)).is_empty());
}

#[test]
fn near_a_side_it_sees_into_one_square_and_near_a_corner_three() {
    let c = cfg();
    let at = Placement::new(3, 3);
    let cell = c.cell_size().raw();
    let near_east = Pos3::new(
        Fixed::from_raw(c.region_size().raw() - cell - cell / 2),
        Fixed::from_meters(2048),
        Fixed::zero(),
    );
    assert_eq!(squares_in_view(&c, at, near_east), vec![Placement::new(4, 3)]);
    let near_south_west = Pos3::from_meters(10, 10, 0);
    assert_eq!(
        squares_in_view(&c, at, near_south_west),
        vec![Placement::new(2, 3), Placement::new(3, 2), Placement::new(2, 2)]
    );
}

#[test]
fn a_shadow_stands_on_the_seam_nearest_its_owner() {
    let c = cfg();
    let size = c.region_size();
    // 100 m west of the seam with square (1, 0), 200 m north, 3 m up.
    let owner = WorldPos::from_local(
        Pos3::new(
            Fixed::from_raw(size.raw() - Fixed::from_meters(100).raw()),
            Fixed::from_meters(200),
            Fixed::from_meters(3),
        ),
        Placement::new(0, 0),
        size,
    );
    let point = shadow_point(&c, owner, Placement::new(1, 0)).expect("fits");
    assert_eq!(
        point,
        Pos3::new(Fixed::zero(), Fixed::from_meters(200), Fixed::from_meters(3))
    );
    // Across a corner, both axes are held.
    let point = shadow_point(&c, owner, Placement::new(1, -1)).expect("fits");
    assert_eq!(point.x, Fixed::zero());
    assert_eq!(point.y.raw(), size.raw() - 1);
}

#[test]
fn there_is_nothing_past_the_far_end_to_see_into() {
    let c = cfg();
    let corner = Pos3::from_meters(10, 10, 0);
    assert!(squares_in_view(&c, Placement::new(i32::MIN, i32::MIN), corner).is_empty());
    assert_eq!(
        squares_in_view(&c, Placement::new(i32::MIN, 3), corner),
        vec![Placement::new(i32::MIN, 2)]
    );
    assert_eq!(
        squares_in_view(&c, Placement::new(i32::MAX, i32::MAX), corner).len(),
        3,
        "the near sides of the last square are like any other's"
    );
}
