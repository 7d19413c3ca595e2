//! Positions, and the cells they fall in.
//!
//! `x` runs east and `y` runs north, and the two share an extent and a cell
//! size. `z` runs up and has its own extent. A [`Pos3`] is inside one region's
//! frame; a [`WorldPos`] is in the frame the whole map shares.

use vstd::prelude::*;

use crate::fixed;
use crate::fixed::{DistSq, Fixed};
use crate::map::Placement;

verus! {

/// A horizontal position inside a region.
#[derive(Clone, Copy, PartialEq, Eq, Hash, Debug, Structural)]
pub struct Pos2 {
    /// East.
    pub x: Fixed,
    /// North.
    pub y: Fixed,
}

/// A full position inside a region.
#[derive(Clone, Copy, PartialEq, Eq, Hash, Debug, Structural)]
pub struct Pos3 {
    /// East.
    pub x: Fixed,
    /// North.
    pub y: Fixed,
    /// Up.
    pub z: Fixed,
}

/// One cell of a region's grid, by column and row.
#[derive(Clone, Copy, PartialEq, Eq, Hash, Debug, Structural)]
pub struct CellCoord {
    /// East.
    pub x: u16,
    /// North.
    pub y: u16,
}

/// A cell's place in an array of every cell of a region.
#[derive(Clone, Copy, PartialEq, Eq, PartialOrd, Ord, Hash, Debug, Structural)]
pub struct CellId(pub u32);

/// A position in the frame the whole map shares, in raw units. An axis is 64
/// bits because a map is wider than one region's 32 can name.
#[derive(Clone, Copy, PartialEq, Eq, Hash, Debug, Structural)]
pub struct WorldPos {
    /// East.
    pub x: i64,
    /// North.
    pub y: i64,
    /// Up.
    pub z: i64,
}

/// The square of how far apart two coordinates are.
pub open spec fn gap_sq(a: Fixed, b: Fixed) -> int {
    (a.0 - b.0) * (a.0 - b.0)
}

/// A sum held to what 64 bits hold.
pub open spec fn held_u64(v: int) -> int {
    if v > u64::MAX {
        u64::MAX as int
    } else {
        v
    }
}

/// The square of how far apart two coordinates are.
fn axis_gap_sq(a: Fixed, b: Fixed) -> (d: u64)
    ensures
        d == gap_sq(a, b),
{
    let gap: u64 = if a.0 > b.0 {
        (a.0 as i64 - b.0 as i64) as u64
    } else {
        (b.0 as i64 - a.0 as i64) as u64
    };
    assert(gap * gap <= u64::MAX) by (nonlinear_arith)
        requires
            gap <= 0xffff_ffff,
    ;
    assert(gap * gap == gap_sq(a, b)) by (nonlinear_arith)
        requires
            gap == a.0 - b.0 || gap == b.0 - a.0,
    ;
    gap * gap
}

impl Pos2 {
    /// From its two axes.
    pub fn new(x: Fixed, y: Fixed) -> (p: Pos2)
        ensures
            p == (Pos2 { x, y }),
    {
        Pos2 { x, y }
    }

    /// From whole meters.
    pub fn from_meters(x: i32, y: i32) -> (p: Pos2)
        requires
            fixed::fits_i32(x * 1024),
            fixed::fits_i32(y * 1024),
        ensures
            p.x.0 == x * 1024,
            p.y.0 == y * 1024,
    {
        Pos2 { x: Fixed::from_meters(x), y: Fixed::from_meters(y) }
    }

    /// The square of how far apart two positions are.
    pub open spec fn gap_sq(self, other: Pos2) -> int {
        gap_sq(self.x, other.x) + gap_sq(self.y, other.y)
    }

    /// How far apart two positions are, squared. A separation past what 64
    /// bits hold is held to the largest they do.
    pub fn dist_sq(self, other: Pos2) -> (d: DistSq)
        ensures
            d.0 == held_u64(self.gap_sq(other)),
    {
        DistSq(axis_gap_sq(self.x, other.x).saturating_add(axis_gap_sq(self.y, other.y)))
    }
}

impl Pos3 {
    /// From its three axes.
    pub fn new(x: Fixed, y: Fixed, z: Fixed) -> (p: Pos3)
        ensures
            p == (Pos3 { x, y, z }),
    {
        Pos3 { x, y, z }
    }

    /// The corner every axis counts from.
    pub fn zero() -> (p: Pos3)
        ensures
            p == (Pos3 { x: Fixed(0), y: Fixed(0), z: Fixed(0) }),
    {
        Pos3 { x: Fixed(0), y: Fixed(0), z: Fixed(0) }
    }

    /// From whole meters.
    pub fn from_meters(x: i32, y: i32, z: i32) -> (p: Pos3)
        requires
            fixed::fits_i32(x * 1024),
            fixed::fits_i32(y * 1024),
            fixed::fits_i32(z * 1024),
        ensures
            p.x.0 == x * 1024,
            p.y.0 == y * 1024,
            p.z.0 == z * 1024,
    {
        Pos3 { x: Fixed::from_meters(x), y: Fixed::from_meters(y), z: Fixed::from_meters(z) }
    }

    /// The position without its height.
    pub open spec fn flat(self) -> Pos2 {
        Pos2 { x: self.x, y: self.y }
    }

    /// The position without its height.
    pub fn horizontal(self) -> (p: Pos2)
        ensures
            p == self.flat(),
    {
        Pos2 { x: self.x, y: self.y }
    }

    /// The square of how far apart two positions are.
    pub open spec fn gap_sq(self, other: Pos3) -> int {
        gap_sq(self.x, other.x) + gap_sq(self.y, other.y) + gap_sq(self.z, other.z)
    }

    /// How far apart two positions are, squared. A separation past what 64
    /// bits hold is held to the largest they do.
    pub fn dist_sq(self, other: Pos3) -> (d: DistSq)
        ensures
            d.0 == held_u64(self.gap_sq(other)),
    {
        let flat: u64 = axis_gap_sq(self.x, other.x).saturating_add(
            axis_gap_sq(self.y, other.y),
        );
        DistSq(flat.saturating_add(axis_gap_sq(self.z, other.z)))
    }
}

impl CellCoord {
    /// From column and row.
    pub fn new(x: u16, y: u16) -> (c: CellCoord)
        ensures
            c == (CellCoord { x, y }),
    {
        CellCoord { x, y }
    }
}

impl CellId {
    /// From the raw index.
    pub fn from_raw(raw: u32) -> (c: CellId)
        ensures
            c == CellId(raw),
    {
        CellId(raw)
    }

    /// The raw index.
    pub fn raw(self) -> (raw: u32)
        ensures
            raw == self.0,
    {
        self.0
    }
}

/// One axis of a world position inside a square, where it fits.
pub open spec fn local_axis(at: i64, square: i32, size: Fixed) -> int {
    at - square * size.0
}

/// One axis of a world position inside a square, where it fits.
fn axis_in(at: i64, square: i32, size: Fixed) -> (v: Option<i32>)
    ensures
        v == if fixed::fits_i32(local_axis(at, square, size)) {
            Some(local_axis(at, square, size) as i32)
        } else {
            None
        },
{
    assert(-0x4000_0000_0000_0000 <= square * size.0 <= 0x4000_0000_0000_0000)
        by (nonlinear_arith)
        requires
            -0x8000_0000 <= square <= 0x7fff_ffff,
            -0x8000_0000 <= size.0 <= 0x7fff_ffff,
    ;
    let origin: i64 = square as i64 * size.0 as i64;
    let v: i128 = at as i128 - origin as i128;
    if v < i32::MIN as i128 || v > i32::MAX as i128 {
        None
    } else {
        Some(v as i32)
    }
}

impl WorldPos {
    /// From raw units.
    pub fn from_raw(x: i64, y: i64, z: i64) -> (w: WorldPos)
        ensures
            w == (WorldPos { x, y, z }),
    {
        WorldPos { x, y, z }
    }

    /// From whole meters.
    pub fn from_meters(x: i32, y: i32, z: i32) -> (w: WorldPos)
        ensures
            w.x == x * 1024,
            w.y == y * 1024,
            w.z == z * 1024,
    {
        WorldPos { x: x as i64 * 1024, y: y as i64 * 1024, z: z as i64 * 1024 }
    }

    /// The world position of a place inside a square.
    pub open spec fn of_local(local: Pos3, square: Placement, size: Fixed) -> WorldPos {
        WorldPos {
            x: (square.col * size.0 + local.x.0) as i64,
            y: (square.row * size.0 + local.y.0) as i64,
            z: local.z.0 as i64,
        }
    }

    /// The world position of a place inside the region that fills `square`.
    pub fn from_local(local: Pos3, square: Placement, size: Fixed) -> (w: WorldPos)
        ensures
            w == WorldPos::of_local(local, square, size),
            w.x == square.col * size.0 + local.x.0,
            w.y == square.row * size.0 + local.y.0,
            w.z == local.z.0,
    {
        let (col, row) = (square.col, square.row);
        assert(-0x4000_0000_0000_0000 <= col * size.0 <= 0x4000_0000_0000_0000)
            by (nonlinear_arith)
            requires
                -0x8000_0000 <= col <= 0x7fff_ffff,
                -0x8000_0000 <= size.0 <= 0x7fff_ffff,
        ;
        assert(-0x4000_0000_0000_0000 <= row * size.0 <= 0x4000_0000_0000_0000)
            by (nonlinear_arith)
            requires
                -0x8000_0000 <= row <= 0x7fff_ffff,
                -0x8000_0000 <= size.0 <= 0x7fff_ffff,
        ;
        WorldPos {
            x: col as i64 * size.0 as i64 + local.x.0 as i64,
            y: row as i64 * size.0 as i64 + local.y.0 as i64,
            z: local.z.0 as i64,
        }
    }

    /// The position in the frame of one square, inside its box or not, where
    /// the frame can hold the number at all.
    pub open spec fn local(self, square: Placement, size: Fixed) -> Option<Pos3> {
        let x = local_axis(self.x, square.col, size);
        let y = local_axis(self.y, square.row, size);
        if fixed::fits_i32(x) && fixed::fits_i32(y) && fixed::fits_i32(self.z as int) {
            Some(Pos3 { x: Fixed(x as i32), y: Fixed(y as i32), z: Fixed(self.z as i32) })
        } else {
            None
        }
    }

    /// The position in the frame of one square. `None` where the square is too
    /// far off for its frame to hold the number.
    pub fn to_local(self, square: Placement, size: Fixed) -> (p: Option<Pos3>)
        ensures
            p == self.local(square, size),
    {
        let x = axis_in(self.x, square.col, size);
        let y = axis_in(self.y, square.row, size);
        if self.z < i32::MIN as i64 || self.z > i32::MAX as i64 {
            return None;
        }
        match (x, y) {
            (Some(x), Some(y)) => Some(
                Pos3 { x: Fixed(x), y: Fixed(y), z: Fixed(self.z as i32) },
            ),
            _ => None,
        }
    }

    /// The position in the frame of a region off the map, which is the world
    /// frame itself.
    pub open spec fn unplaced(self) -> Option<Pos3> {
        if fixed::fits_i32(self.x as int) && fixed::fits_i32(self.y as int) && fixed::fits_i32(
            self.z as int,
        ) {
            Some(
                Pos3 {
                    x: Fixed(self.x as i32),
                    y: Fixed(self.y as i32),
                    z: Fixed(self.z as i32),
                },
            )
        } else {
            None
        }
    }

    /// The position in the frame of a region off the map. `None` where that
    /// frame cannot hold the number.
    pub fn to_unplaced(self) -> (p: Option<Pos3>)
        ensures
            p == self.unplaced(),
    {
        let lo: i64 = i32::MIN as i64;
        let hi: i64 = i32::MAX as i64;
        if self.x < lo || self.x > hi || self.y < lo || self.y > hi || self.z < lo || self.z
            > hi {
            return None;
        }
        Some(
            Pos3 { x: Fixed(self.x as i32), y: Fixed(self.y as i32), z: Fixed(self.z as i32) },
        )
    }
}

/// A place inside a square comes back out of the world position made from it.
pub proof fn law_local_round_trips(local: Pos3, square: Placement, size: Fixed)
    ensures
        WorldPos::of_local(local, square, size).local(square, size) == Some(local),
{
    let (col, row) = (square.col, square.row);
    assert(-0x4000_0000_0000_0000 <= col * size.0 <= 0x4000_0000_0000_0000) by (nonlinear_arith)
        requires
            -0x8000_0000 <= col <= 0x7fff_ffff,
            -0x8000_0000 <= size.0 <= 0x7fff_ffff,
    ;
    assert(-0x4000_0000_0000_0000 <= row * size.0 <= 0x4000_0000_0000_0000) by (nonlinear_arith)
        requires
            -0x8000_0000 <= row <= 0x7fff_ffff,
            -0x8000_0000 <= size.0 <= 0x7fff_ffff,
    ;
}

/// A position in a square's frame is the world position less the square's
/// corner, height left as it is, wherever every axis of that fits; a position
/// in the frame of a region off the map is the world position itself.
pub proof fn law_a_frame_is_an_offset(at: WorldPos, square: Placement, size: Fixed, p: Pos3)
    ensures
        at.local(square, size) == Some(p) <==> {
            &&& p.x.0 == at.x - square.col * size.0
            &&& p.y.0 == at.y - square.row * size.0
            &&& p.z.0 == at.z
        },
        at.unplaced() == Some(p) <==> p.x.0 == at.x && p.y.0 == at.y && p.z.0 == at.z,
        ({
            let w = WorldPos::of_local(p, square, size);
            &&& w.x == square.col * size.0 + p.x.0
            &&& w.y == square.row * size.0 + p.y.0
            &&& w.z == p.z.0
        }),
{
    let (col, row) = (square.col, square.row);
    assert(-0x4000_0000_0000_0000 <= col * size.0 <= 0x4000_0000_0000_0000) by (nonlinear_arith)
        requires
            -0x8000_0000 <= col <= 0x7fff_ffff,
            -0x8000_0000 <= size.0 <= 0x7fff_ffff,
    ;
    assert(-0x4000_0000_0000_0000 <= row * size.0 <= 0x4000_0000_0000_0000) by (nonlinear_arith)
        requires
            -0x8000_0000 <= row <= 0x7fff_ffff,
            -0x8000_0000 <= size.0 <= 0x7fff_ffff,
    ;
}

/// How far apart two positions are, squared, is the sum of the squares of how
/// far apart they are along each axis; height counts, and on the ground it does
/// not.
pub proof fn law_separation_is_by_every_axis(a: Pos3, b: Pos3)
    ensures
        a.gap_sq(b) == (a.x.0 - b.x.0) * (a.x.0 - b.x.0) + (a.y.0 - b.y.0) * (a.y.0 - b.y.0) + (
        a.z.0 - b.z.0) * (a.z.0 - b.z.0),
        a.flat().gap_sq(b.flat()) == (a.x.0 - b.x.0) * (a.x.0 - b.x.0) + (a.y.0 - b.y.0) * (
        a.y.0 - b.y.0),
        a.gap_sq(b) == b.gap_sq(a),
{
    assert((a.x.0 - b.x.0) * (a.x.0 - b.x.0) == (b.x.0 - a.x.0) * (b.x.0 - a.x.0))
        by (nonlinear_arith);
    assert((a.y.0 - b.y.0) * (a.y.0 - b.y.0) == (b.y.0 - a.y.0) * (b.y.0 - a.y.0))
        by (nonlinear_arith);
    assert((a.z.0 - b.z.0) * (a.z.0 - b.z.0) == (b.z.0 - a.z.0) * (b.z.0 - a.z.0))
        by (nonlinear_arith);
}

} // verus!
