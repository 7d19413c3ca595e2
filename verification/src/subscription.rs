//! The block of cells a viewer is subscribed to.

use vstd::prelude::*;

use crate::config::{World, WorldConfig};
use crate::pos::CellCoord;

verus! {

/// A rectangle of cells, both ends included.
#[derive(Clone, Copy, Debug, PartialEq, Eq, Structural)]
pub struct Subscription {
    /// The westmost column.
    pub x0: i32,
    /// The southmost row.
    pub y0: i32,
    /// The eastmost column.
    pub x1: i32,
    /// The northmost row.
    pub y1: i32,
}

impl Subscription {
    /// Whether a cell is in the block.
    pub open spec fn covers(self, x: int, y: int) -> bool {
        self.x0 <= x <= self.x1 && self.y0 <= y <= self.y1
    }

    /// Whether the block lies within the region.
    pub open spec fn within(self, w: World) -> bool {
        &&& 0 <= self.x0
        &&& 0 <= self.y0
        &&& self.x1 < w.cells_per_axis()
        &&& self.y1 < w.cells_per_axis()
    }

    /// The block around a cell: as far each way as the view reaches, held to
    /// the region.
    pub open spec fn around(w: World, c: CellCoord) -> Subscription {
        let r = w.cell_radius();
        let last = w.cells_per_axis() - 1;
        Subscription {
            x0: (if c.x < r {
                0
            } else {
                c.x - r
            }) as i32,
            y0: (if c.y < r {
                0
            } else {
                c.y - r
            }) as i32,
            x1: (if c.x + r > last {
                last
            } else {
                c.x + r
            }) as i32,
            y1: (if c.y + r > last {
                last
            } else {
                c.y + r
            }) as i32,
        }
    }

    /// The block a viewer in `center` is subscribed to.
    pub fn at_center(cfg: &WorldConfig, center: CellCoord) -> (s: Subscription)
        ensures
            s == Subscription::around(cfg@, center),
            s.within(cfg@),
            center.x < cfg@.cells_per_axis() && center.y < cfg@.cells_per_axis() ==> s.covers(
                center.x as int,
                center.y as int,
            ),
    {
        proof {
            use_type_invariant(cfg);
        }
        let r: i32 = cfg.cell_radius() as i32;
        let last: i32 = cfg.cells_per_axis() as i32 - 1;
        let (x, y) = (center.x as i32, center.y as i32);
        Subscription {
            x0: if x < r {
                0
            } else {
                x - r
            },
            y0: if y < r {
                0
            } else {
                y - r
            },
            x1: if x + r > last {
                last
            } else {
                x + r
            },
            y1: if y + r > last {
                last
            } else {
                y + r
            },
        }
    }

    /// Whether a cell is in the block.
    pub fn contains(&self, c: CellCoord) -> (b: bool)
        ensures
            b == self.covers(c.x as int, c.y as int),
    {
        let (x, y) = (c.x as i32, c.y as i32);
        self.x0 <= x && x <= self.x1 && self.y0 <= y && y <= self.y1
    }
}

/// The block around a cell is the cells of the region no further off, each way,
/// than as many cells as cover the view radius.
pub proof fn law_a_subscription_is_the_cells_within_view(w: World, c: CellCoord, x: int, y: int)
    requires
        w.valid(),
        c.x < w.cells_per_axis(),
        c.y < w.cells_per_axis(),
    ensures
        ({
            let n = w.region_size / w.cell_size;
            let r = (w.view_radius + w.cell_size - 1) / w.cell_size;
            Subscription::around(w, c).covers(x, y) <==> {
                &&& 0 <= x < n
                &&& 0 <= y < n
                &&& vstd::math::abs(x - c.x) <= r
                &&& vstd::math::abs(y - c.y) <= r
            }
        }),
{
}

} // verus!
