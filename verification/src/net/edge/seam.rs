//! Where an observer's view reaches past its region, and where its shadow
//! stands in the neighbor.

use vstd::prelude::*;

use crate::config::{World, WorldConfig};
use crate::fixed::Fixed;
use crate::map::Placement;
use crate::pos::{Pos3, WorldPos};

verus! {

/// Whether a view of `r` cells each way from cell `c` of `n` reaches past the
/// far side, for a step of one, past the near side, for a step of minus one,
/// or need not, for a step of none.
pub open spec fn reaches(c: int, r: int, n: int, step: int) -> bool {
    if step > 0 {
        c + r > n - 1
    } else if step < 0 {
        c - r < 0
    } else {
        true
    }
}

/// Whether an observer at `local` sees into the square `dx` east and `dy`
/// north of its own.
pub open spec fn sees(w: World, local: Pos3, dx: int, dy: int) -> bool {
    let c = w.cell_of(local.flat());
    &&& reaches(c.x as int, w.cell_radius(), w.cells_per_axis(), dx)
    &&& reaches(c.y as int, w.cell_radius(), w.cells_per_axis(), dy)
}

/// Whether there is a square `dx` east and `dy` north. There is none past the
/// far ends of what 32 bits number.
pub open spec fn numbered(square: Placement, dx: int, dy: int) -> bool {
    &&& i32::MIN <= square.col + dx <= i32::MAX
    &&& i32::MIN <= square.row + dy <= i32::MAX
}

/// The square `dx` east and `dy` north, if there is one and an observer at
/// `local` sees into it.
pub open spec fn seen(w: World, square: Placement, local: Pos3, dx: int, dy: int) -> Seq<
    Placement,
> {
    if sees(w, local, dx, dy) && numbered(square, dx, dy) {
        seq![Placement { col: (square.col + dx) as i32, row: (square.row + dy) as i32 }]
    } else {
        Seq::empty()
    }
}

/// The squares around one that an observer sees into: those across one side,
/// then those across a corner.
pub open spec fn squares_seen(w: World, square: Placement, local: Pos3) -> Seq<Placement> {
    seen(w, square, local, 1, 0) + seen(w, square, local, -1, 0) + seen(w, square, local, 0, 1)
        + seen(w, square, local, 0, -1) + seen(w, square, local, 1, 1) + seen(
        w,
        square,
        local,
        1,
        -1,
    ) + seen(w, square, local, -1, 1) + seen(w, square, local, -1, -1)
}

/// The squares around `square` that an observer at `local` sees into, by the
/// rule the region uses to report a view collision: its subscription box,
/// `cell_radius` cells each way, reaches past the region on that side. Across
/// one side, or across two sides and the corner between them. A square at the
/// far end of what 32 bits number has nothing beyond it to list.
pub fn squares_in_view(cfg: &WorldConfig, square: Placement, local: Pos3) -> (out: Vec<Placement>)
    ensures
        out@ == squares_seen(cfg@, square, local),
{
    proof {
        use_type_invariant(cfg);
    }
    let c = cfg.cell_of(local.horizontal());
    let r: i32 = cfg.cell_radius() as i32;
    let last: i32 = cfg.cells_per_axis() as i32 - 1;
    let (cx, cy): (i32, i32) = (c.x as i32, c.y as i32);
    let (col, row): (i32, i32) = (square.col, square.row);
    let east: bool = cx + r > last && col < i32::MAX;
    let west: bool = cx - r < 0 && col > i32::MIN;
    let north: bool = cy + r > last && row < i32::MAX;
    let south: bool = cy - r < 0 && row > i32::MIN;
    let mut out: Vec<Placement> = Vec::with_capacity(3);
    if east {
        out.push(Placement::new(col + 1, row));
    }
    assert(out@ =~= seen(cfg@, square, local, 1, 0));
    if west {
        out.push(Placement::new(col - 1, row));
    }
    if north {
        out.push(Placement::new(col, row + 1));
    }
    if south {
        out.push(Placement::new(col, row - 1));
    }
    assert(out@ =~= seen(cfg@, square, local, 1, 0) + seen(cfg@, square, local, -1, 0) + seen(
        cfg@,
        square,
        local,
        0,
        1,
    ) + seen(cfg@, square, local, 0, -1));
    if east && north {
        out.push(Placement::new(col + 1, row + 1));
    }
    if east && south {
        out.push(Placement::new(col + 1, row - 1));
    }
    if west && north {
        out.push(Placement::new(col - 1, row + 1));
    }
    if west && south {
        out.push(Placement::new(col - 1, row - 1));
    }
    assert(out@ =~= squares_seen(cfg@, square, local));
    out
}

/// Where a shadow stands in `neighbor` for an observer at `owner`.
pub open spec fn shadow_spot(w: World, owner: WorldPos, neighbor: Placement) -> Option<Pos3> {
    match owner.local(neighbor, Fixed(w.region_size as i32)) {
        Some(at) => Some(w.clamp(at)),
        None => None,
    }
}

/// Where a shadow stands in `neighbor` for an observer at `owner`: the
/// owner's position in the neighbor's frame, held inside the neighbor's box,
/// which puts it on the seam nearest the owner. `None` if the owner is too
/// far from the neighbor for its frame to hold the number at all.
pub fn shadow_point(cfg: &WorldConfig, owner: WorldPos, neighbor: Placement) -> (p: Option<Pos3>)
    ensures
        p == shadow_spot(cfg@, owner, neighbor),
{
    match owner.to_local(neighbor, cfg.region_size()) {
        Some(at) => Some(cfg.clamp(at)),
        None => None,
    }
}

/// A square is listed exactly when the observer's view reaches it.
pub proof fn law_a_listed_square_is_one_in_view(
    w: World,
    square: Placement,
    local: Pos3,
    other: Placement,
)
    ensures
        squares_seen(w, square, local).contains(other) <==> {
            let (dx, dy) = (other.col - square.col, other.row - square.row);
            &&& -1 <= dx <= 1
            &&& -1 <= dy <= 1
            &&& (dx != 0 || dy != 0)
            &&& sees(w, local, dx, dy)
        },
{
    let s = squares_seen(w, square, local);
    let (dx, dy) = (other.col - square.col, other.row - square.row);
    lemma_among(w, square, local, other);
    if -1 <= dx <= 1 && -1 <= dy <= 1 && (dx != 0 || dy != 0) && sees(w, local, dx, dy) {
        assert(seen(w, square, local, dx, dy).contains(other)) by {
            assert(seen(w, square, local, dx, dy)[0] == other);
        }
    }
}

/// A listed square is one of the eight around.
proof fn lemma_among(w: World, square: Placement, local: Pos3, other: Placement)
    ensures
        squares_seen(w, square, local).contains(other) <==> {
            ||| seen(w, square, local, 1, 0).contains(other)
            ||| seen(w, square, local, -1, 0).contains(other)
            ||| seen(w, square, local, 0, 1).contains(other)
            ||| seen(w, square, local, 0, -1).contains(other)
            ||| seen(w, square, local, 1, 1).contains(other)
            ||| seen(w, square, local, 1, -1).contains(other)
            ||| seen(w, square, local, -1, 1).contains(other)
            ||| seen(w, square, local, -1, -1).contains(other)
        },
{
    broadcast use vstd::seq_lib::group_seq_properties;

    let a = seen(w, square, local, 1, 0) + seen(w, square, local, -1, 0);
    let b = a + seen(w, square, local, 0, 1);
    let c = b + seen(w, square, local, 0, -1);
    let d = c + seen(w, square, local, 1, 1);
    let e = d + seen(w, square, local, 1, -1);
    let f = e + seen(w, square, local, -1, 1);
    let g = f + seen(w, square, local, -1, -1);
    assert(g == squares_seen(w, square, local));
}

/// In a region more than two view radii wide, an observer sees into no square,
/// into one across a side, or into three about a corner.
pub proof fn law_a_view_reaches_one_square_or_three(w: World, square: Placement, local: Pos3)
    requires
        w.cells_per_axis() > 2 * w.cell_radius(),
    ensures
        ({
            let n = squares_seen(w, square, local).len();
            n == 0 || n == 1 || n == 3
        }),
{
}

/// A shadow stands inside its region, and nowhere inside is nearer its owner
/// on any axis.
pub proof fn law_a_shadow_stands_nearest_its_owner(
    w: World,
    owner: WorldPos,
    neighbor: Placement,
    other: Pos3,
)
    requires
        w.valid(),
        shadow_spot(w, owner, neighbor) is Some,
        w.contains(other),
    ensures
        ({
            let own = owner.local(neighbor, Fixed(w.region_size as i32))->0;
            let spot = shadow_spot(w, owner, neighbor)->0;
            &&& w.contains(spot)
            &&& gap(spot.x, own.x) <= gap(other.x, own.x)
            &&& gap(spot.y, own.y) <= gap(other.y, own.y)
            &&& gap(spot.z, own.z) <= gap(other.z, own.z)
        }),
{
}

/// How far apart two coordinates are.
pub open spec fn gap(a: Fixed, b: Fixed) -> int {
    if a.0 > b.0 {
        a.0 - b.0
    } else {
        b.0 - a.0
    }
}

/// Whether the cells an observer at `local` subscribes to reach past its region
/// `dx` east and `dy` north: the cell it is in, held to the region, is within
/// as many cells of that side as cover its view radius.
pub open spec fn looks_past(w: World, local: Pos3, dx: int, dy: int) -> bool {
    let (s, n) = (w.cell_size, w.region_size / w.cell_size);
    let r = (w.view_radius + s - 1) / s;
    let cx = vstd::math::max(0, vstd::math::min(local.x.0 as int / s, n - 1));
    let cy = vstd::math::max(0, vstd::math::min(local.y.0 as int / s, n - 1));
    &&& -1 <= dx <= 1
    &&& -1 <= dy <= 1
    &&& (dx != 0 || dy != 0)
    &&& dx == 1 ==> cx + r >= n
    &&& dx == -1 ==> cx < r
    &&& dy == 1 ==> cy + r >= n
    &&& dy == -1 ==> cy < r
}

/// The squares an observer sees into are those its subscription reaches past
/// its region toward, and no others.
pub proof fn law_a_square_is_seen_where_the_view_reaches_past(
    w: World,
    square: Placement,
    local: Pos3,
    other: Placement,
)
    requires
        w.valid(),
    ensures
        squares_seen(w, square, local).contains(other) <==> looks_past(
            w,
            local,
            other.col - square.col,
            other.row - square.row,
        ),
{
    law_a_listed_square_is_one_in_view(w, square, local, other);
    crate::config::law_a_cell_is_a_cell_size_wide(w, local.flat());
}

/// Whether a shadow in `other` for an observer at `local` of `square` stands at
/// `spot`: the observer's place as `other` counts it, each axis held inside.
/// There is none where that place is past what 32 bits number.
pub open spec fn stands_at(
    w: World,
    square: Placement,
    local: Pos3,
    other: Placement,
    spot: Pos3,
) -> bool {
    let x = local.x.0 + (square.col - other.col) * w.region_size;
    let y = local.y.0 + (square.row - other.row) * w.region_size;
    &&& i32::MIN <= x <= i32::MAX
    &&& i32::MIN <= y <= i32::MAX
    &&& spot.x.0 == vstd::math::max(0, vstd::math::min(x, w.region_size - 1))
    &&& spot.y.0 == vstd::math::max(0, vstd::math::min(y, w.region_size - 1))
    &&& spot.z.0 == vstd::math::max(
        0,
        vstd::math::min(local.z.0 as int, w.vertical_extent - 1),
    )
}

/// A shadow stands at its observer's own place, counted from the corner of the
/// square it is in and held inside that square.
pub proof fn law_a_shadow_stands_where_its_owner_would(
    w: World,
    square: Placement,
    local: Pos3,
    other: Placement,
    spot: Pos3,
)
    requires
        w.valid(),
    ensures
        shadow_spot(
            w,
            WorldPos::of_local(local, square, Fixed(w.region_size as i32)),
            other,
        ) == Some(spot) <==> stands_at(w, square, local, other, spot),
{
    let size = Fixed(w.region_size as i32);
    let here = WorldPos::of_local(local, square, size);
    let x = local.x.0 + (square.col - other.col) * w.region_size;
    let y = local.y.0 + (square.row - other.row) * w.region_size;
    crate::pos::law_a_frame_is_an_offset(here, square, size, local);
    assert((square.col - other.col) * w.region_size == square.col * w.region_size - other.col
        * w.region_size) by (nonlinear_arith);
    assert((square.row - other.row) * w.region_size == square.row * w.region_size - other.row
        * w.region_size) by (nonlinear_arith);
    if i32::MIN <= x <= i32::MAX && i32::MIN <= y <= i32::MAX {
        let p = Pos3 { x: Fixed(x as i32), y: Fixed(y as i32), z: local.z };
        crate::pos::law_a_frame_is_an_offset(here, other, size, p);
        crate::config::law_clamping_moves_an_axis_no_further_than_it_must(w, p);
        if stands_at(w, square, local, other, spot) {
            assert(w.clamp(p).x == spot.x && w.clamp(p).y == spot.y && w.clamp(p).z == spot.z);
        }
    } else if let Some(p) = here.local(other, size) {
        crate::pos::law_a_frame_is_an_offset(here, other, size, p);
    }
}

/// No square an observer sees into is listed twice.
pub proof fn law_no_square_is_listed_twice(w: World, square: Placement, local: Pos3)
    ensures
        squares_seen(w, square, local).no_duplicates(),
        squares_seen(w, square, local).len() <= 8,
{
}

} // verus!
