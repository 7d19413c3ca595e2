//! Runtime world configuration.
//!
//! [`WorldConfig`] is required of any participant exchanging world data, since
//! it carries the protocol-level configuration. Every simulation and edge
//! touching a region must hold an identical one or they decode each other's
//! packets into nonsense. Note that user-facing game clients do not need
//! this to exchange data.
//!
//! A region publishes the five authored numbers along with the digest
//! of everything they imply, and the handshake rebuilds the config
//! from the numbers and refuses it if the digests disagree. Participants
//! use [`protocol_hash`](WorldConfig::protocol_hash) for comparison.
//!
//! # Units
//!
//! Distances use [`Fixed`] point numeric representation. See [`crate::fixed`]
//! for the representation and why it is an integer. The short version is that
//! it's cheaper and faster than floats.
//!
//! Some fields must be powers of two in order to take advantage of optimizations,
//! which is what keeps the memory and wire layouts cheap to index.
//! [`WorldConfigBuilder::build`] enforces those rules and the rest,
//! and the fields are private so that a config that exists is a config that passed.
//!
//! # Axes
//!
//! Axis conventions are documented on [`crate::pos`]. Relevant here: `x` and
//! `y` share an extent and a cell size. The `z` axis has its own extent and its
//! own wire width, and the horizontal speed cap does not constrain it. It's easiest
//! to think of the world space as being organized as a 2D space with vertical
//! cylinders along the Z.

use vstd::arithmetic::power2::*;
use vstd::prelude::*;
use vstd::string::*;

use crate::fixed;
use crate::fixed::{Fixed, FIXED_SHIFT};
use crate::le;
use crate::num;
use crate::num::{div_ceil, floor_pow2};
use crate::pos::{CellCoord, CellId, Pos2, Pos3};
use crate::text;
use crate::text::push_decimal;

verus! {

/// Largest supported subscription radius in cells. 4 gives a 9x9 grid, which
/// is what the derived cell size is checked against.
pub const MAX_CELL_RADIUS: u32 = 4;

/// Most cells along one axis for the count of a whole region to fit 32 bits.
pub const MAX_CELLS_PER_AXIS: u32 = 0xffff;

// ---------------------------------------------------------------------------
// Axis
// ---------------------------------------------------------------------------

/// Which axis group an error refers to. `x` and `y` are configured together.
#[derive(Debug, Clone, Copy, PartialEq, Eq, Structural)]
pub enum Axis {
    /// `x` and `y`
    Horizontal,
    /// `z`, which has its own of each and is not bound by the speed cap.
    Vertical,
}

impl Axis {
    /// The axis as a message names it.
    pub open spec fn text(self) -> Seq<char> {
        match self {
            Axis::Horizontal => "horizontal"@,
            Axis::Vertical => "vertical"@,
        }
    }

    /// The axis as a message names it.
    pub fn as_str(&self) -> (s: &'static str)
        ensures
            s@ == self.text(),
    {
        match self {
            Axis::Horizontal => "horizontal",
            Axis::Vertical => "vertical",
        }
    }
}

// ---------------------------------------------------------------------------
// Errors
// ---------------------------------------------------------------------------

/// Contains an explanation for why a WorldConfiguration validation failed.
#[derive(Debug, Clone, PartialEq, Eq)]
pub enum ConfigError {
    /// A distance was zero or negative. [`Fixed`] is signed, so this has to be
    /// checked before any unsigned bit operation.
    NonPositive(&'static str),
    /// Extent must be a power of two so the wire encoding divides evenly.
    ExtentNotPowerOfTwo {
        /// Which axis group.
        axis: Axis,
        /// What was asked for.
        extent: Fixed,
    },
    /// View radius larger than the region makes subscription meaningless.
    RadiusExceedsRegion {
        /// The view radius asked for.
        radius: Fixed,
        /// The region it would have to fit inside.
        region_size: Fixed,
    },
    /// An entity able to cross more than one cell boundary per axis per tick
    /// breaks the strip-delta subscription update, which assumes at most one
    /// row and one column change per move. Horizontal movement only; vertical
    /// speed never crosses a cell boundary.
    SpeedExceedsCellPerTick {
        /// How far the speed cap allows in one tick.
        move_per_tick: Fixed,
        /// The cell it would cross.
        cell_size: Fixed,
    },
    /// Tick rate must divide evenly into a second so tick duration is exact.
    TickRateIndivisible {
        /// What was asked for.
        tick_hz: u32,
    },
    /// A required field was never set on the builder.
    Missing(&'static str),
}

impl ConfigError {
    /// The explanation in words.
    pub open spec fn text(self) -> Seq<char> {
        match self {
            ConfigError::NonPositive(field) => "`"@ + field@ + "` must be greater than zero"@,
            ConfigError::ExtentNotPowerOfTwo { axis, extent } => axis.text() + " extent "@
                + extent.text()
                + " is not a power of two; the wire encoding would not divide evenly"@,
            ConfigError::RadiusExceedsRegion { radius, region_size } => "view radius "@
                + radius.text() + " exceeds region size "@ + region_size.text(),
            ConfigError::SpeedExceedsCellPerTick { move_per_tick, cell_size } =>
                "an entity moves "@ + move_per_tick.text() + " per tick but cells are "@
                    + cell_size.text()
                    + "; it could skip a cell, invalidating strip-delta subscription updates"@,
            ConfigError::TickRateIndivisible { tick_hz } => "tick rate "@ + text::decimal(
                tick_hz as nat,
            ) + " Hz does not divide evenly into 1000 ms"@,
            ConfigError::Missing(field) => "required field `"@ + field@ + "` was not set"@,
        }
    }

    /// The explanation in words.
    pub fn to_string(&self) -> (s: String)
        ensures
            s@ == self.text(),
    {
        let mut s = String::new();
        match self {
            ConfigError::NonPositive(field) => {
                s.append("`");
                s.append(field);
                s.append("` must be greater than zero");
            },
            ConfigError::ExtentNotPowerOfTwo { axis, extent } => {
                s.append(axis.as_str());
                s.append(" extent ");
                extent.push_text(&mut s);
                s.append(" is not a power of two; the wire encoding would not divide evenly");
            },
            ConfigError::RadiusExceedsRegion { radius, region_size } => {
                s.append("view radius ");
                radius.push_text(&mut s);
                s.append(" exceeds region size ");
                region_size.push_text(&mut s);
            },
            ConfigError::SpeedExceedsCellPerTick { move_per_tick, cell_size } => {
                s.append("an entity moves ");
                move_per_tick.push_text(&mut s);
                s.append(" per tick but cells are ");
                cell_size.push_text(&mut s);
                s.append("; it could skip a cell, invalidating strip-delta subscription updates");
            },
            ConfigError::TickRateIndivisible { tick_hz } => {
                s.append("tick rate ");
                push_decimal(&mut s, *tick_hz as u64);
                s.append(" Hz does not divide evenly into 1000 ms");
            },
            ConfigError::Missing(field) => {
                s.append("required field `");
                s.append(field);
                s.append("` was not set");
            },
        }
        assert(s@ =~= self.text());
        s
    }
}

// ---------------------------------------------------------------------------
// The world a config describes
// ---------------------------------------------------------------------------

/// What a config describes, in raw units: the six numbers everything else
/// follows from.
pub struct World {
    /// Region edge length on both horizontal axes.
    pub region_size: int,
    /// Vertical range.
    pub vertical_extent: int,
    /// Cell edge length.
    pub cell_size: int,
    /// How far a viewer perceives horizontally.
    pub view_radius: int,
    /// Horizontal speed cap, per second.
    pub max_speed: int,
    /// Ticks per second.
    pub tick_hz: int,
}

/// The cell size a view radius implies: half of it, floored to a power of two.
pub open spec fn derived_cell_size(radius: int) -> int {
    let half = if radius / 2 < 1 {
        1
    } else {
        radius / 2
    };
    pow2(num::floor_log2(half as nat)) as int
}

/// `v` held to `0..=last`.
pub open spec fn held(v: int, last: int) -> int {
    if v < 0 {
        0
    } else if v > last {
        last
    } else {
        v
    }
}

impl World {
    /// Bits per horizontal axis on the wire.
    pub open spec fn horizontal_bits(self) -> nat {
        num::floor_log2(self.region_size as nat)
    }

    /// Bits for the vertical axis on the wire.
    pub open spec fn vertical_bits(self) -> nat {
        num::floor_log2(self.vertical_extent as nat)
    }

    /// The logarithm of the cell size.
    pub open spec fn cell_shift(self) -> nat {
        num::floor_log2(self.cell_size as nat)
    }

    /// Cells along one horizontal axis.
    pub open spec fn cells_per_axis(self) -> int {
        self.region_size / self.cell_size
    }

    /// Cells in the whole region.
    pub open spec fn cells_per_region(self) -> int {
        self.cells_per_axis() * self.cells_per_axis()
    }

    /// Cells from center to edge of a subscription.
    pub open spec fn cell_radius(self) -> int {
        num::div_up(self.view_radius, self.cell_size)
    }

    /// Subscription grid edge in cells.
    pub open spec fn sub_grid_axis(self) -> int {
        2 * self.cell_radius() + 1
    }

    /// Cells in one subscription.
    pub open spec fn sub_grid_cells(self) -> int {
        self.sub_grid_axis() * self.sub_grid_axis()
    }

    /// Milliseconds between ticks.
    pub open spec fn tick_ms(self) -> int {
        1000int / self.tick_hz
    }

    /// Furthest an entity can travel horizontally in one tick.
    pub open spec fn max_move_per_tick(self) -> int {
        self.max_speed / self.tick_hz
    }

    /// Whether this is a world a config can describe.
    pub open spec fn valid(self) -> bool {
        &&& 0 < self.region_size <= i32::MAX
        &&& num::is_power_of_two(self.region_size)
        &&& 0 < self.vertical_extent <= i32::MAX
        &&& num::is_power_of_two(self.vertical_extent)
        &&& 0 < self.cell_size <= self.region_size
        &&& num::is_power_of_two(self.cell_size)
        &&& 0 < self.view_radius <= self.region_size
        &&& 0 < self.max_speed <= i32::MAX
        &&& 0 < self.tick_hz <= 1000
        &&& 1000int % self.tick_hz == 0
        &&& 1 <= self.cells_per_axis() <= MAX_CELLS_PER_AXIS
        &&& self.cells_per_axis() * self.cell_size == self.region_size
        &&& 1 <= self.cell_radius() <= MAX_CELL_RADIUS
        &&& self.max_move_per_tick() < self.cell_size
    }

    /// Which cell along an axis a coordinate falls in, held to the region.
    pub open spec fn axis_cell(self, v: Fixed) -> int {
        held(v.0 as int / self.cell_size, self.cells_per_axis() - 1)
    }

    /// The cell a horizontal position falls in, held to the region.
    pub open spec fn cell_of(self, pos: Pos2) -> CellCoord {
        CellCoord { x: self.axis_cell(pos.x) as u16, y: self.axis_cell(pos.y) as u16 }
    }

    /// A cell's place in an array of every cell.
    pub open spec fn cell_id(self, c: CellCoord) -> int {
        c.y * self.cells_per_axis() + c.x
    }

    /// The cell at a place in an array of every cell.
    pub open spec fn cell_coord(self, id: CellId) -> CellCoord {
        CellCoord {
            x: (id.0 as int % self.cells_per_axis()) as u16,
            y: (id.0 as int / self.cells_per_axis() % 0x1_0000) as u16,
        }
    }

    /// Whether a horizontal position lies inside the region.
    pub open spec fn contains_2d(self, pos: Pos2) -> bool {
        0 <= pos.x.0 < self.region_size && 0 <= pos.y.0 < self.region_size
    }

    /// Whether a full position lies inside the region and vertical range.
    pub open spec fn contains(self, pos: Pos3) -> bool {
        self.contains_2d(pos.flat()) && 0 <= pos.z.0 < self.vertical_extent
    }

    /// The nearest position inside the region and vertical range.
    pub open spec fn clamp(self, pos: Pos3) -> Pos3 {
        Pos3 {
            x: Fixed(held(pos.x.0 as int, self.region_size - 1) as i32),
            y: Fixed(held(pos.y.0 as int, self.region_size - 1) as i32),
            z: Fixed(held(pos.z.0 as int, self.vertical_extent - 1) as i32),
        }
    }

    /// The bytes the digest covers.
    pub open spec fn protocol_bytes(self) -> Seq<u8> {
        le::le_bytes(FIXED_SHIFT as nat, 4) + le::le_bytes(self.region_size as nat, 4)
            + le::le_bytes(self.vertical_extent as nat, 4) + le::le_bytes(
            self.cell_size as nat,
            4,
        ) + le::le_bytes(self.view_radius as nat, 4) + le::le_bytes(self.horizontal_bits(), 4)
            + le::le_bytes(self.vertical_bits(), 4)
    }

    /// The digest of what affects wire decoding.
    pub open spec fn protocol_hash(self) -> u64 {
        fnv_bytes(FNV_OFFSET, self.protocol_bytes())
    }
}

/// Where an FNV-1a digest starts.
pub const FNV_OFFSET: u64 = 0xcbf2_9ce4_8422_2325;

/// What an FNV-1a digest is multiplied by at each byte.
pub const FNV_PRIME: u64 = 0x0000_0100_0000_01b3;

/// One byte into an FNV-1a digest.
pub open spec fn fnv_step(h: u64, b: u8) -> u64 {
    (h ^ (b as u64)).wrapping_mul(FNV_PRIME)
}

/// The FNV-1a digest of some bytes, carried on from `h`.
pub open spec fn fnv_bytes(h: u64, s: Seq<u8>) -> u64
    decreases s.len(),
{
    if s.len() == 0 {
        h
    } else {
        fnv_step(fnv_bytes(h, s.drop_last()), s.last())
    }
}

/// Digesting two runs of bytes one after the other is digesting them joined.
proof fn lemma_fnv_join(h: u64, a: Seq<u8>, b: Seq<u8>)
    ensures
        fnv_bytes(h, a + b) == fnv_bytes(fnv_bytes(h, a), b),
    decreases b.len(),
{
    if b.len() == 0 {
        assert(a + b =~= a);
    } else {
        assert((a + b).drop_last() =~= a + b.drop_last());
        lemma_fnv_join(h, a, b.drop_last());
    }
}

/// FNV-1a over four bytes. Chosen because it is stable across Rust versions
/// and platforms and carries no dependency. Not cryptographic strength, only
/// used to catch configuration mismatch.
fn fnv(h: u64, v: u32) -> (r: u64)
    ensures
        r == fnv_bytes(h, le::le_bytes(v as nat, 4)),
{
    let ghost whole = le::le_bytes(v as nat, 4);
    let mut h: u64 = h;
    let mut rest: u32 = v;
    let mut i: usize = 0;
    let ghost start = h;
    proof {
        le::lemma_le_len(v as nat, 4);
    }
    while i < 4
        invariant
            i <= 4,
            whole.len() == 4,
            whole.skip(i as int) == le::le_bytes(rest as nat, (4 - i) as nat),
            h == fnv_bytes(start, whole.take(i as int)),
        decreases 4 - i,
    {
        let b: u8 = (rest % 256) as u8;
        proof {
            assert(whole.skip(i as int)[0] == b);
            assert(whole.take(i + 1).drop_last() =~= whole.take(i as int));
            assert(whole.skip(i + 1) =~= whole.skip(i as int).skip(1));
            assert(whole.skip(i as int).skip(1) =~= le::le_bytes(
                (rest / 256) as nat,
                (3 - i) as nat,
            ));
        }
        h = (h ^ (b as u64)).wrapping_mul(FNV_PRIME);
        rest = rest / 256;
        i = i + 1;
    }
    assert(whole.take(4) =~= whole);
    h
}

// ---------------------------------------------------------------------------
// WorldConfig
// ---------------------------------------------------------------------------

/// Configuration of a world simulation
#[derive(Debug, Clone, Copy, PartialEq, Eq, Structural)]
pub struct WorldConfig {
    // Authored.
    region_size: Fixed,
    vertical_extent: Fixed,
    cell_size: Fixed,
    horizontal_view_radius: Fixed,
    max_horizontal_speed: Fixed,
    tick_hz: u32,
    horizontal_bits: u32,
    vertical_bits: u32,
    // Derived.
    cell_shift: u32,
    cell_mask: i32,
    cells_per_axis: u32,
    cells_per_region: u32,
    cell_radius: u32,
    sub_grid_axis: u32,
    sub_grid_cells: u32,
    tick_ms: u32,
    max_move_per_tick: Fixed,
}

impl View for WorldConfig {
    type V = World;

    closed spec fn view(&self) -> World {
        World {
            region_size: self.region_size.0 as int,
            vertical_extent: self.vertical_extent.0 as int,
            cell_size: self.cell_size.0 as int,
            view_radius: self.horizontal_view_radius.0 as int,
            max_speed: self.max_horizontal_speed.0 as int,
            tick_hz: self.tick_hz as int,
        }
    }
}

impl WorldConfig {
    /// Every derived value is what the authored ones imply.
    pub closed spec fn derived(self) -> bool {
        &&& self.horizontal_bits == self@.horizontal_bits()
        &&& self.vertical_bits == self@.vertical_bits()
        &&& self.cell_shift == self@.cell_shift()
        &&& self.cell_mask == self@.cell_size - 1
        &&& self.cells_per_axis == self@.cells_per_axis()
        &&& self.cells_per_region == self@.cells_per_region()
        &&& self.cell_radius == self@.cell_radius()
        &&& self.sub_grid_axis == self@.sub_grid_axis()
        &&& self.sub_grid_cells == self@.sub_grid_cells()
        &&& self.tick_ms == self@.tick_ms()
        &&& self.max_move_per_tick.0 == self@.max_move_per_tick()
    }

    /// A config that exists is a config that passed.
    #[verifier::type_invariant]
    pub open spec fn inv(self) -> bool {
        self@.valid() && self.derived()
    }

    /// Starts building a world configuration.
    /// [`WorldConfigBuilder::build`] validates the result.
    pub fn builder() -> (b: WorldConfigBuilder)
        ensures
            b == WorldConfigBuilder::blank(),
    {
        WorldConfigBuilder::default()
    }

    // -- authored ---------------------------------------------------------

    /// Region edge length on both horizontal axes.
    pub fn region_size(&self) -> (r: Fixed)
        ensures
            r.0 == self@.region_size,
    {
        self.region_size
    }

    /// Vertical range. Positions are expected within `0..vertical_extent`.
    pub fn vertical_extent(&self) -> (r: Fixed)
        ensures
            r.0 == self@.vertical_extent,
    {
        self.vertical_extent
    }

    /// Cell edge length. Always a power of two.
    pub fn cell_size(&self) -> (r: Fixed)
        ensures
            r.0 == self@.cell_size,
    {
        self.cell_size
    }

    /// How far a viewer perceives horizontally. Area of interest is a
    /// cylinder: there is no vertical bound.
    pub fn horizontal_view_radius(&self) -> (r: Fixed)
        ensures
            r.0 == self@.view_radius,
    {
        self.horizontal_view_radius
    }

    /// Horizontal speed cap. Entities exceeding this break the strip-delta
    /// invariant.
    pub fn max_horizontal_speed(&self) -> (r: Fixed)
        ensures
            r.0 == self@.max_speed,
    {
        self.max_horizontal_speed
    }

    /// Ticks per second when the server is running and managing tick delivery.
    pub fn tick_hz(&self) -> (hz: u32)
        ensures
            hz == self@.tick_hz,
    {
        self.tick_hz
    }

    /// Bits per horizontal axis on the wire.
    pub fn horizontal_bits(&self) -> (n: u32)
        ensures
            n == self@.horizontal_bits(),
    {
        proof {
            use_type_invariant(self);
        }
        self.horizontal_bits
    }

    /// Bits for the vertical axis on the wire.
    pub fn vertical_bits(&self) -> (n: u32)
        ensures
            n == self@.vertical_bits(),
    {
        proof {
            use_type_invariant(self);
        }
        self.vertical_bits
    }

    // -- derived ----------------------------------------------------------

    /// `log2(cell_size)`. Shifting a coordinate right by this yields its cell
    /// index along that axis, replacing a division.
    pub fn cell_shift(&self) -> (n: u32)
        ensures
            n == self@.cell_shift(),
    {
        proof {
            use_type_invariant(self);
        }
        self.cell_shift
    }

    /// `cell_size - 1`. AND a raw coordinate with this to get its offset
    /// within the cell.
    pub fn cell_mask(&self) -> (n: i32)
        ensures
            n == self@.cell_size - 1,
    {
        proof {
            use_type_invariant(self);
        }
        self.cell_mask
    }

    /// Cells along one horizontal axis.
    pub fn cells_per_axis(&self) -> (n: u32)
        ensures
            n == self@.cells_per_axis(),
    {
        proof {
            use_type_invariant(self);
        }
        self.cells_per_axis
    }

    /// Cells in the whole region, which is the square of the axis count.
    pub fn cells_per_region(&self) -> (n: u32)
        ensures
            n == self@.cells_per_region(),
    {
        proof {
            use_type_invariant(self);
        }
        self.cells_per_region
    }

    /// Cells from center to edge of a subscription.
    pub fn cell_radius(&self) -> (n: u32)
        ensures
            n == self@.cell_radius(),
    {
        proof {
            use_type_invariant(self);
        }
        self.cell_radius
    }

    /// Subscription grid edge in cells: `2 * cell_radius + 1`.
    pub fn sub_grid_axis(&self) -> (n: u32)
        ensures
            n == self@.sub_grid_axis(),
    {
        proof {
            use_type_invariant(self);
        }
        self.sub_grid_axis
    }

    /// Total cells in one subscription. Never exceeds 81, the 9x9 grid a
    /// four-cell radius implies.
    pub fn sub_grid_cells(&self) -> (n: u32)
        ensures
            n == self@.sub_grid_cells(),
            n <= 81,
    {
        proof {
            use_type_invariant(self);
            let a = self@.sub_grid_axis();
            assert(a * a <= 81) by (nonlinear_arith)
                requires
                    1 <= a <= 9,
            ;
        }
        self.sub_grid_cells
    }

    /// Milliseconds between ticks.
    pub fn tick_ms(&self) -> (n: u32)
        ensures
            n == self@.tick_ms(),
    {
        proof {
            use_type_invariant(self);
        }
        self.tick_ms
    }

    /// Furthest an entity can travel horizontally in one tick. Guaranteed
    /// less than `cell_size`. This doesn't take into account exceptions
    /// like teleporting/warping.
    pub fn max_move_per_tick(&self) -> (r: Fixed)
        ensures
            r.0 == self@.max_move_per_tick(),
            r.0 < self@.cell_size,
    {
        proof {
            use_type_invariant(self);
        }
        self.max_move_per_tick
    }

    // -- cells ------------------------------------------------------------

    /// Cell containing a horizontal position. A position outside the region
    /// counts as being in the nearest cell inside it.
    pub fn cell_of(&self, pos: Pos2) -> (c: CellCoord)
        ensures
            c == self@.cell_of(pos),
    {
        CellCoord::new(self.axis_to_cell(pos.x), self.axis_to_cell(pos.y))
    }

    fn axis_to_cell(&self, v: Fixed) -> (i: u16)
        ensures
            i == self@.axis_cell(v),
    {
        proof {
            use_type_invariant(self);
            let c = self@.cell_size;
            num::lemma_log2_of_pow2(self@.cell_shift());
            if v.0 < 0 {
                assert(v.0 as int / c < 0) by (nonlinear_arith)
                    requires
                        v.0 < 0,
                        c > 0,
                ;
                assert(0int / c == 0) by (nonlinear_arith)
                    requires
                        c > 0,
                ;
            } else {
                assert(v.0 as int / c >= 0) by (nonlinear_arith)
                    requires
                        v.0 >= 0,
                        c > 0,
                ;
            }
            self.lemma_shift_fits();
        }
        let raw: u32 = if v.raw() < 0 {
            0
        } else {
            v.raw() as u32
        };
        let idx: u32 = raw >> self.cell_shift;
        proof {
            vstd::bits::lemma_u32_shr_is_div(raw, self.cell_shift);
        }
        let last: u32 = self.cells_per_axis - 1;
        if idx < last {
            idx as u16
        } else {
            last as u16
        }
    }

    /// A cell is no wider than its type.
    proof fn lemma_shift_fits(self)
        requires
            self.inv(),
        ensures
            self.cell_shift < 31,
    {
        num::lemma_pow2_ordered(self@.cell_shift(), 31);
        lemma2_to64();
    }

    /// Offset of a coordinate within its own cell.
    pub fn offset_in_cell(&self, v: Fixed) -> (r: Fixed)
        ensures
            r.0 == v.0 as int % self@.cell_size,
    {
        let raw: i32 = v.raw();
        let mask: i32 = self.cell_mask;
        proof {
            use_type_invariant(self);
            self.lemma_shift_fits();
            let k = self@.cell_shift();
            let u = raw as u32;
            let m = mask as u32;
            assert(raw & mask == ((raw as u32) & (mask as u32)) as i32 && (raw as u32) as int == (
            if raw < 0 {
                raw + 0x1_0000_0000
            } else {
                raw as int
            })) by (bit_vector)
                requires
                    mask >= 0,
            ;
            assert(m == vstd::bits::low_bits_mask(k)) by {
                reveal(vstd::bits::low_bits_mask);
            }
            vstd::bits::lemma_u32_low_bits_mask_is_mod(u, k);
            lemma2_to64();
            num::lemma_pow2_divides(k, 32);
            let c = self@.cell_size;
            let n = pow2((32 - k) as nat) as int;
            assert((raw + n * c) % c == raw as int % c) by {
                vstd::arithmetic::div_mod::lemma_mod_multiples_vanish(n, raw as int, c);
                assert(c * n + raw == raw + n * c) by (nonlinear_arith);
            }
            assert(u as int % c == raw as int % c);
            assert((u & m) as int == raw as int % c);
            assert(0 <= raw as int % c < c);
        }
        Fixed::from_raw(raw & mask)
    }

    /// Linear index for a cell, for array lookup.
    ///
    /// Row-major today. If cells are later ordered along a Hilbert curve for
    /// cross-node partitioning only this function changes, so treat [`CellId`]
    /// as opaque and do not assume `y * width + x` anywhere else.
    pub fn cell_id(&self, c: CellCoord) -> (id: CellId)
        ensures
            id.0 == self@.cell_id(c),
    {
        proof {
            use_type_invariant(self);
            let y = c.y;
            let n = self.cells_per_axis;
            assert(0 <= y * n <= 0xffff * 0xffff) by (nonlinear_arith)
                requires
                    0 <= y <= 0xffff,
                    0 <= n <= 0xffff,
            ;
        }
        CellId::from_raw(c.y as u32 * self.cells_per_axis + c.x as u32)
    }

    /// Inverse of [`Self::cell_id`].
    pub fn cell_coord(&self, id: CellId) -> (c: CellCoord)
        ensures
            c == self@.cell_coord(id),
    {
        proof {
            use_type_invariant(self);
        }
        let raw: u32 = id.raw();
        CellCoord::new(
            (raw % self.cells_per_axis) as u16,
            (raw / self.cells_per_axis % 0x1_0000) as u16,
        )
    }

    /// Whether a horizontal position lies inside the region.
    pub fn contains_2d(&self, pos: Pos2) -> (b: bool)
        ensures
            b == self@.contains_2d(pos),
    {
        pos.x.raw() >= 0 && pos.y.raw() >= 0 && pos.x.raw() < self.region_size.raw()
            && pos.y.raw() < self.region_size.raw()
    }

    /// Whether a full position lies inside the region and vertical range.
    pub fn contains(&self, pos: Pos3) -> (b: bool)
        ensures
            b == self@.contains(pos),
    {
        self.contains_2d(pos.horizontal()) && pos.z.raw() >= 0 && pos.z.raw()
            < self.vertical_extent.raw()
    }

    /// The nearest position inside the region and vertical range. A position
    /// already inside comes back unchanged.
    pub fn clamp(&self, pos: Pos3) -> (r: Pos3)
        ensures
            r == self@.clamp(pos),
            self@.contains(r),
            self@.contains(pos) ==> r == pos,
    {
        proof {
            use_type_invariant(self);
        }
        let side: i32 = self.region_size.raw() - 1;
        let top: i32 = self.vertical_extent.raw() - 1;
        Pos3::new(
            Fixed::from_raw(clamp_raw(pos.x.raw(), side)),
            Fixed::from_raw(clamp_raw(pos.y.raw(), side)),
            Fixed::from_raw(clamp_raw(pos.z.raw(), top)),
        )
    }

    // -- misc -------------------------------------------------------------

    /// Stable digest of the fields that affect wire decoding. Exchanged at
    /// connect time and reject on mismatch. This digest only covers the
    /// configuration values that are required for protocol setup and
    /// exchange over the wire. All other configuration values can change
    /// without invalidating communications.
    pub fn protocol_hash(&self) -> (h: u64)
        ensures
            h == self@.protocol_hash(),
    {
        proof {
            use_type_invariant(self);
            let w = self@;
            let a = le::le_bytes(FIXED_SHIFT as nat, 4);
            let b = le::le_bytes(w.region_size as nat, 4);
            let c = le::le_bytes(w.vertical_extent as nat, 4);
            let d = le::le_bytes(w.cell_size as nat, 4);
            let e = le::le_bytes(w.view_radius as nat, 4);
            let f = le::le_bytes(w.horizontal_bits(), 4);
            let g = le::le_bytes(w.vertical_bits(), 4);
            lemma_fnv_join(FNV_OFFSET, a, b);
            lemma_fnv_join(FNV_OFFSET, a + b, c);
            lemma_fnv_join(FNV_OFFSET, a + b + c, d);
            lemma_fnv_join(FNV_OFFSET, a + b + c + d, e);
            lemma_fnv_join(FNV_OFFSET, a + b + c + d + e, f);
            lemma_fnv_join(FNV_OFFSET, a + b + c + d + e + f, g);
        }
        let h: u64 = fnv(FNV_OFFSET, FIXED_SHIFT);
        let h: u64 = fnv(h, self.region_size.raw() as u32);
        let h: u64 = fnv(h, self.vertical_extent.raw() as u32);
        let h: u64 = fnv(h, self.cell_size.raw() as u32);
        let h: u64 = fnv(h, self.horizontal_view_radius.raw() as u32);
        let h: u64 = fnv(h, self.horizontal_bits);
        fnv(h, self.vertical_bits)
    }

    /// A copy of the world configuration with `cell_size` overridden, for
    /// benchmarking the spatial index at sizes the derivation would not pick.
    ///
    /// Not a consumer path. Cell size derives from the view radius and nothing
    /// outside a sweep has a reason to set it, so this is reached through
    /// `internals` rather than from here.
    pub fn with_cell_size_m(&self, m: i32) -> (w: WorldConfig)
        requires
            self@.takes_cell_size(m * 1024),
        ensures
            w@ == (World { cell_size: m * 1024, ..self@ }),
    {
        proof {
            use_type_invariant(self);
        }
        let cell_size: Fixed = Fixed::from_meters(m);
        let cell_raw: u32 = cell_size.raw() as u32;
        let region_raw: u32 = self.region_size.raw() as u32;
        let ghost cut = World { cell_size: m * 1024, ..self@ };
        proof {
            vstd::arithmetic::div_mod::lemma_fundamental_div_mod(
                cut.region_size,
                cut.cell_size,
            );
            assert(cut.cells_per_axis() * cut.cell_size == cut.cell_size * cut.cells_per_axis())
                by (nonlinear_arith);
            lemma_radius_positive(cut.view_radius, cut.cell_size);
            let (n, c) = (cut.cells_per_axis(), cut.cell_size);
            assert(n * c >= c) by (nonlinear_arith)
                requires
                    n >= 1,
                    c > 0,
            ;
        }
        let grid = Grid::derive(region_raw, cell_raw, self.horizontal_view_radius);
        WorldConfig {
            region_size: self.region_size,
            vertical_extent: self.vertical_extent,
            cell_size,
            horizontal_view_radius: self.horizontal_view_radius,
            max_horizontal_speed: self.max_horizontal_speed,
            tick_hz: self.tick_hz,
            horizontal_bits: self.horizontal_bits,
            vertical_bits: self.vertical_bits,
            cell_shift: grid.cell_shift,
            cell_mask: grid.cell_mask,
            cells_per_axis: grid.cells_per_axis,
            cells_per_region: grid.cells_per_region,
            cell_radius: grid.cell_radius,
            sub_grid_axis: grid.sub_grid_axis,
            sub_grid_cells: grid.sub_grid_cells,
            tick_ms: self.tick_ms,
            max_move_per_tick: self.max_move_per_tick,
        }
    }

    /// Uniform-distribution estimate of entities in one viewer's subscription.
    /// A planning aid, not a runtime quantity.
    pub fn est_entities_in_view(&self, entities_per_region: u32) -> (n: u32)
        requires
            entities_per_region as int / self@.cells_per_region() * self@.sub_grid_cells()
                <= u32::MAX,
        ensures
            n == entities_per_region as int / self@.cells_per_region() * self@.sub_grid_cells(),
    {
        proof {
            use_type_invariant(self);
            let a = self@.cells_per_axis();
            assert(a * a > 0) by (nonlinear_arith)
                requires
                    a >= 1,
            ;
        }
        let per_cell: u32 = entities_per_region / self.cells_per_region;
        per_cell * self.sub_grid_cells
    }
}

impl World {
    /// Whether a grid of cells this size fits the world otherwise unchanged.
    pub open spec fn takes_cell_size(self, cell: int) -> bool {
        let cut = World { cell_size: cell, ..self };
        &&& 0 < cell <= i32::MAX
        &&& num::is_power_of_two(cell)
        &&& self.region_size % cell == 0
        &&& 1 <= cut.cells_per_axis() <= MAX_CELLS_PER_AXIS
        &&& cut.cell_radius() <= MAX_CELL_RADIUS
        &&& self.max_move_per_tick() < cell
    }
}

impl Default for WorldConfig {
    /// 4096 m region, 1024 m vertical, 256 m view radius, 40 m/s cap, 20 Hz.
    /// Cell size derives to 128 m.
    fn default() -> (w: WorldConfig)
        ensures
            w@ == (World {
                region_size: 4096int * 1024,
                vertical_extent: 1024int * 1024,
                cell_size: 128int * 1024,
                view_radius: 256int * 1024,
                max_speed: 40int * 1024,
                tick_hz: 20,
            }),
    {
        proof {
            lemma2_to64();
            num::lemma_log2_of_pow2(22);
            num::lemma_log2_of_pow2(20);
            num::lemma_log2_of_pow2(17);
            assert(derived_cell_size(256int * 1024) == 128int * 1024);
            assert((4096int * 1024) / (128int * 1024) == 32);
        }
        let built = WorldConfigBuilder::default().region_size_m(4096).vertical_extent_m(
            1024,
        ).horizontal_view_radius_m(256).max_horizontal_speed_m_per_sec(40).tick_hz(20).build();
        built.unwrap()
    }
}

// ---------------------------------------------------------------------------
// Builder
// ---------------------------------------------------------------------------

/// The validating builder used to create checked instances of world configuration.
/// Never create world configurations outside the builder except for internal testing.
#[derive(Debug, Clone)]
pub struct WorldConfigBuilder {
    /// Region edge length on both horizontal axes.
    pub region_size: Option<Fixed>,
    /// Vertical range.
    pub vertical_extent: Option<Fixed>,
    /// How far a viewer perceives horizontally.
    pub horizontal_view_radius: Option<Fixed>,
    /// Horizontal speed cap, per second.
    pub max_horizontal_speed: Option<Fixed>,
    /// Ticks per second.
    pub tick_hz: Option<u32>,
}

impl Default for WorldConfigBuilder {
    /// Nothing set.
    fn default() -> (b: WorldConfigBuilder)
        ensures
            b == WorldConfigBuilder::blank(),
    {
        WorldConfigBuilder {
            region_size: None,
            vertical_extent: None,
            horizontal_view_radius: None,
            max_horizontal_speed: None,
            tick_hz: None,
        }
    }
}

impl WorldConfigBuilder {
    /// Nothing set.
    pub open spec fn blank() -> WorldConfigBuilder {
        WorldConfigBuilder {
            region_size: None,
            vertical_extent: None,
            horizontal_view_radius: None,
            max_horizontal_speed: None,
            tick_hz: None,
        }
    }

    /// The world the five numbers describe, with the cell size they imply.
    /// Meaningful once all five are set.
    pub open spec fn world(self) -> World {
        World {
            region_size: (self.region_size->0).0 as int,
            vertical_extent: (self.vertical_extent->0).0 as int,
            cell_size: derived_cell_size((self.horizontal_view_radius->0).0 as int),
            view_radius: (self.horizontal_view_radius->0).0 as int,
            max_speed: (self.max_horizontal_speed->0).0 as int,
            tick_hz: self.tick_hz->0 as int,
        }
    }

    /// The first thing wrong before any cell is counted, if anything is.
    pub open spec fn misshapen(self) -> Option<ConfigError> {
        if self.region_size is None {
            Some(ConfigError::Missing("region_size"))
        } else if self.vertical_extent is None {
            Some(ConfigError::Missing("vertical_extent"))
        } else if self.horizontal_view_radius is None {
            Some(ConfigError::Missing("horizontal_view_radius"))
        } else if self.max_horizontal_speed is None {
            Some(ConfigError::Missing("max_horizontal_speed"))
        } else if self.tick_hz is None {
            Some(ConfigError::Missing("tick_hz"))
        } else if self.world().region_size <= 0 {
            Some(ConfigError::NonPositive("region_size"))
        } else if self.world().vertical_extent <= 0 {
            Some(ConfigError::NonPositive("vertical_extent"))
        } else if self.world().view_radius <= 0 {
            Some(ConfigError::NonPositive("horizontal_view_radius"))
        } else if self.world().max_speed <= 0 {
            Some(ConfigError::NonPositive("max_horizontal_speed"))
        } else if !num::is_power_of_two(self.world().region_size) {
            Some(
                ConfigError::ExtentNotPowerOfTwo {
                    axis: Axis::Horizontal,
                    extent: self.region_size->0,
                },
            )
        } else if !num::is_power_of_two(self.world().vertical_extent) {
            Some(
                ConfigError::ExtentNotPowerOfTwo {
                    axis: Axis::Vertical,
                    extent: self.vertical_extent->0,
                },
            )
        } else if self.world().view_radius > self.world().region_size {
            Some(
                ConfigError::RadiusExceedsRegion {
                    radius: self.horizontal_view_radius->0,
                    region_size: self.region_size->0,
                },
            )
        } else if self.tick_hz->0 == 0 || 1000int % self.world().tick_hz != 0 {
            Some(ConfigError::TickRateIndivisible { tick_hz: self.tick_hz->0 })
        } else {
            None
        }
    }

    /// The first thing wrong with what was asked for, if anything is.
    pub open spec fn refusal(self) -> Option<ConfigError> {
        if self.misshapen() is Some {
            self.misshapen()
        } else if self.world().max_move_per_tick() >= self.world().cell_size {
            Some(
                ConfigError::SpeedExceedsCellPerTick {
                    move_per_tick: Fixed(self.world().max_move_per_tick() as i32),
                    cell_size: Fixed(self.world().cell_size as i32),
                },
            )
        } else {
            None
        }
    }

    /// Region edge length in whole meters. Must be a power of two in fixed
    /// point, which for whole meters means a power of two in meters.
    pub fn region_size_m(self, m: i32) -> (b: Self)
        requires
            fixed::fits_i32(m * 1024),
        ensures
            b == (WorldConfigBuilder { region_size: Some(Fixed((m * 1024) as i32)), ..self }),
    {
        WorldConfigBuilder { region_size: Some(Fixed::from_meters(m)), ..self }
    }

    /// Vertical range in whole meters. Also power-of-two constrained.
    pub fn vertical_extent_m(self, m: i32) -> (b: Self)
        requires
            fixed::fits_i32(m * 1024),
        ensures
            b == (WorldConfigBuilder { vertical_extent: Some(Fixed((m * 1024) as i32)), ..self }),
    {
        WorldConfigBuilder { vertical_extent: Some(Fixed::from_meters(m)), ..self }
    }

    /// How far an observer sees, in meters. Rounds up to whole cells.
    pub fn horizontal_view_radius_m(self, m: i32) -> (b: Self)
        requires
            fixed::fits_i32(m * 1024),
        ensures
            b == (WorldConfigBuilder {
                horizontal_view_radius: Some(Fixed((m * 1024) as i32)),
                ..self
            }),
    {
        WorldConfigBuilder { horizontal_view_radius: Some(Fixed::from_meters(m)), ..self }
    }

    /// The fastest anything may travel horizontally, in meters per second.
    ///
    /// Bounds how far an entity moves in one tick, which is what lets a
    /// subscription be rebuilt from a cell rather than from scratch.
    pub fn max_horizontal_speed_m_per_sec(self, m: i32) -> (b: Self)
        requires
            fixed::fits_i32(m * 1024),
        ensures
            b == (WorldConfigBuilder {
                max_horizontal_speed: Some(Fixed((m * 1024) as i32)),
                ..self
            }),
    {
        WorldConfigBuilder { max_horizontal_speed: Some(Fixed::from_meters(m)), ..self }
    }

    /// Ticks per second. Must divide evenly into 1000, so a tick lasts a
    /// whole number of milliseconds.
    pub fn tick_hz(self, hz: u32) -> (b: Self)
        ensures
            b == (WorldConfigBuilder { tick_hz: Some(hz), ..self }),
    {
        WorldConfigBuilder { tick_hz: Some(hz), ..self }
    }

    /// Whether the cells of the whole region are countable in 32 bits, where
    /// what was asked for has a shape at all.
    pub fn countable(&self) -> (b: bool)
        ensures
            b == (self.misshapen() is None ==> self.world().cells_per_axis()
                <= MAX_CELLS_PER_AXIS),
    {
        let region: i32 = match self.region_size {
            Some(x) => x.raw(),
            None => return true,
        };
        let vertical: i32 = match self.vertical_extent {
            Some(x) => x.raw(),
            None => return true,
        };
        let radius: i32 = match self.horizontal_view_radius {
            Some(x) => x.raw(),
            None => return true,
        };
        let speed: i32 = match self.max_horizontal_speed {
            Some(x) => x.raw(),
            None => return true,
        };
        let hz: u32 = match self.tick_hz {
            Some(x) => x,
            None => return true,
        };
        if region <= 0 || vertical <= 0 || radius <= 0 || speed <= 0 {
            return true;
        }
        let (_, region_floor) = floor_pow2(region as u32);
        let (_, vertical_floor) = floor_pow2(vertical as u32);
        if region_floor != region as u32 || vertical_floor != vertical as u32 || radius > region
            || hz == 0 || 1_000 % hz != 0 {
            return true;
        }
        let half: u32 = radius as u32 / 2;
        let (_, cell) = floor_pow2(
            if half < 1 {
                1
            } else {
                half
            },
        );
        proof {
            lemma_derived_grid(self.world());
        }
        region as u32 / cell <= MAX_CELLS_PER_AXIS
    }

    /// Validate and compute all derived values.
    ///
    /// The cells of the whole region have to be countable in 32 bits.
    pub fn build(self) -> (r: Result<WorldConfig, ConfigError>)
        requires
            self.misshapen() is None ==> self.world().cells_per_axis() <= MAX_CELLS_PER_AXIS,
        ensures
            match r {
                Ok(w) => self.refusal() is None && w@ == self.world(),
                Err(e) => self.refusal() == Some(e),
            },
    {
        let region_size: Fixed = self.region_size.ok_or(ConfigError::Missing("region_size"))?;
        let vertical_extent: Fixed = self.vertical_extent.ok_or(
            ConfigError::Missing("vertical_extent"),
        )?;
        let horizontal_view_radius: Fixed = self.horizontal_view_radius.ok_or(
            ConfigError::Missing("horizontal_view_radius"),
        )?;
        let max_horizontal_speed: Fixed = self.max_horizontal_speed.ok_or(
            ConfigError::Missing("max_horizontal_speed"),
        )?;
        let tick_hz: u32 = self.tick_hz.ok_or(ConfigError::Missing("tick_hz"))?;

        // Fixed is signed, so positivity has to be established before any
        // unsigned operation below.
        positive(region_size, "region_size")?;
        positive(vertical_extent, "vertical_extent")?;
        positive(horizontal_view_radius, "horizontal_view_radius")?;
        positive(max_horizontal_speed, "max_horizontal_speed")?;

        let region_raw: u32 = region_size.raw() as u32;
        let vertical_raw: u32 = vertical_extent.raw() as u32;

        // Cell size is derived, not supplied.
        let half: u32 = horizontal_view_radius.raw() as u32 / 2;
        let (_, cell_raw) = floor_pow2(
            if half < 1 {
                1
            } else {
                half
            },
        );
        let ghost w = self.world();
        proof {
            num::lemma_floor_log2(half as nat + 1);
            num::lemma_floor_log2(
                (if half < 1 {
                    1
                } else {
                    half as int
                }) as nat,
            );
            assert(cell_raw == w.cell_size);
            assert(cell_raw <= 0x4000_0000);
        }
        let cell_size: Fixed = Fixed::from_raw(cell_raw as i32);

        // An axis needs exactly as many bits as its extent has raw units: a
        // position travels at the full precision the simulation computed with.
        let (horizontal_bits, region_floor) = floor_pow2(region_raw);
        if region_floor != region_raw {
            return Err(
                ConfigError::ExtentNotPowerOfTwo { axis: Axis::Horizontal, extent: region_size },
            );
        }
        let (vertical_bits, vertical_floor) = floor_pow2(vertical_raw);
        if vertical_floor != vertical_raw {
            return Err(
                ConfigError::ExtentNotPowerOfTwo { axis: Axis::Vertical, extent: vertical_extent },
            );
        }
        if horizontal_view_radius.raw() > region_size.raw() {
            return Err(
                ConfigError::RadiusExceedsRegion { radius: horizontal_view_radius, region_size },
            );
        }
        if tick_hz == 0 || 1_000 % tick_hz != 0 {
            return Err(ConfigError::TickRateIndivisible { tick_hz });
        }
        proof {
            assert(tick_hz <= 1000) by (nonlinear_arith)
                requires
                    tick_hz > 0,
                    1000u32 % tick_hz == 0,
            ;
            lemma_derived_grid(w);
        }
        let grid = Grid::derive(region_raw, cell_raw, horizontal_view_radius);

        let max_move_per_tick: Fixed = Fixed::from_raw(
            (max_horizontal_speed.raw() as u32 / tick_hz) as i32,
        );
        proof {
            assert(0 <= w.max_speed / w.tick_hz <= w.max_speed) by (nonlinear_arith)
                requires
                    w.max_speed > 0,
                    w.tick_hz > 0,
            ;
        }
        if max_move_per_tick.raw() as u32 >= cell_raw {
            return Err(
                ConfigError::SpeedExceedsCellPerTick { move_per_tick: max_move_per_tick, cell_size },
            );
        }
        Ok(
            WorldConfig {
                region_size,
                vertical_extent,
                cell_size,
                horizontal_view_radius,
                max_horizontal_speed,
                tick_hz,
                horizontal_bits,
                vertical_bits,
                tick_ms: 1_000 / tick_hz,
                max_move_per_tick,
                cell_shift: grid.cell_shift,
                cell_mask: grid.cell_mask,
                cells_per_axis: grid.cells_per_axis,
                cells_per_region: grid.cells_per_region,
                cell_radius: grid.cell_radius,
                sub_grid_axis: grid.sub_grid_axis,
                sub_grid_cells: grid.sub_grid_cells,
            },
        )
    }
}

/// The cell size a radius implies divides the region, and keeps the radius
/// within the bound on cells.
proof fn lemma_derived_grid(w: World)
    requires
        0 < w.region_size <= i32::MAX,
        num::is_power_of_two(w.region_size),
        0 < w.view_radius <= w.region_size,
        w.cell_size == derived_cell_size(w.view_radius),
    ensures
        0 < w.cell_size <= w.region_size,
        num::is_power_of_two(w.cell_size),
        w.cells_per_axis() * w.cell_size == w.region_size,
        w.cells_per_axis() >= 1,
        1 <= w.cell_radius() <= MAX_CELL_RADIUS,
{
    let half = if w.view_radius / 2 < 1 {
        1
    } else {
        w.view_radius / 2
    };
    let c = w.cell_size;
    num::lemma_floor_log2(half as nat);
    let k = num::floor_log2(half as nat);
    let n = num::floor_log2(w.region_size as nat);
    num::lemma_log2_of_pow2(k);
    num::lemma_pow2_ordered(n, k);
    num::lemma_pow2_divides(k, n);
    lemma_pow2_pos((n - k) as nat);
    let r = w.view_radius;
    assert(r <= 4 * c - 1);
    assert(1 <= (r + c - 1) / c <= 4) by (nonlinear_arith)
        requires
            1 <= r <= 4 * c - 1,
            c >= 1,
    ;
}

/// A radius is at least one cell.
proof fn lemma_radius_positive(r: int, c: int)
    requires
        r > 0,
        c > 0,
    ensures
        num::div_up(r, c) >= 1,
{
    assert((r + c - 1) / c >= 1) by (nonlinear_arith)
        requires
            r > 0,
            c > 0,
    ;
}

/// Everything a cell size implies, derived once so the builder and the
/// benchmarking override cannot disagree about what a grid is.
#[derive(Clone, Copy)]
struct Grid {
    cell_shift: u32,
    cell_mask: i32,
    cells_per_axis: u32,
    cells_per_region: u32,
    cell_radius: u32,
    sub_grid_axis: u32,
    sub_grid_cells: u32,
}

impl Grid {
    fn derive(region_raw: u32, cell_raw: u32, view_radius: Fixed) -> (g: Grid)
        requires
            0 < cell_raw <= i32::MAX,
            0 < view_radius.0,
            region_raw as int / cell_raw as int <= MAX_CELLS_PER_AXIS,
            num::div_up(view_radius.0 as int, cell_raw as int) <= MAX_CELL_RADIUS,
            num::div_up(view_radius.0 as int, cell_raw as int) >= 1,
        ensures
            g.cell_shift == num::floor_log2(cell_raw as nat),
            g.cell_mask == cell_raw - 1,
            g.cells_per_axis == region_raw as int / cell_raw as int,
            g.cells_per_region == (region_raw as int / cell_raw as int) * (region_raw as int
                / cell_raw as int),
            g.cell_radius == num::div_up(view_radius.0 as int, cell_raw as int),
            g.sub_grid_axis == 2 * g.cell_radius + 1,
            g.sub_grid_cells == g.sub_grid_axis * g.sub_grid_axis,
    {
        let cells_per_axis: u32 = region_raw / cell_raw;
        let cell_radius: u32 = div_ceil(view_radius.raw() as u32, cell_raw);
        let sub_grid_axis: u32 = 2 * cell_radius + 1;
        let (cell_shift, _) = floor_pow2(cell_raw);
        proof {
            let n = cells_per_axis as int;
            assert(0 <= n * n <= 0xffff * 0xffff) by (nonlinear_arith)
                requires
                    0 <= n <= 0xffff,
            ;
            let a = sub_grid_axis as int;
            assert(a * a <= 81) by (nonlinear_arith)
                requires
                    0 <= a <= 9,
            ;
        }
        Grid {
            cell_shift,
            cell_mask: (cell_raw - 1) as i32,
            cells_per_axis,
            cells_per_region: cells_per_axis * cells_per_axis,
            cell_radius,
            sub_grid_axis,
            sub_grid_cells: sub_grid_axis * sub_grid_axis,
        }
    }
}

fn positive(v: Fixed, name: &'static str) -> (r: Result<(), ConfigError>)
    ensures
        r == if v.0 <= 0 {
            Err::<(), ConfigError>(ConfigError::NonPositive(name))
        } else {
            Ok(())
        },
{
    if v.raw() <= 0 {
        Err(ConfigError::NonPositive(name))
    } else {
        Ok(())
    }
}

/// `raw` held to `0..=last`.
fn clamp_raw(raw: i32, last: i32) -> (r: i32)
    requires
        last >= 0,
    ensures
        r == held(raw as int, last as int),
{
    if raw < 0 {
        0
    } else if raw > last {
        last
    } else {
        raw
    }
}

// ---------------------------------------------------------------------------
// Laws
// ---------------------------------------------------------------------------

/// A cell's place in the array names that cell and no other.
pub proof fn law_cell_id_round_trips(w: World, c: CellCoord)
    requires
        w.valid(),
        c.x < w.cells_per_axis(),
    ensures
        0 <= w.cell_id(c) <= u32::MAX,
        w.cell_coord(CellId(w.cell_id(c) as u32)) == c,
{
    let n = w.cells_per_axis();
    let (x, y) = (c.x as int, c.y as int);
    assert(0 <= y * n <= 0xffff * 0xffff) by (nonlinear_arith)
        requires
            0 <= y <= 0xffff,
            0 <= n <= 0xffff,
    ;
    assert((y * n + x) / n == y && (y * n + x) % n == x) by (nonlinear_arith)
        requires
            0 <= x < n,
            0 <= y,
    ;
}

/// A place in the array is the place of the cell it names.
pub proof fn law_cell_coord_round_trips(w: World, id: CellId)
    requires
        w.valid(),
        id.0 < w.cells_per_region(),
    ensures
        w.cell_coord(id).x < w.cells_per_axis(),
        w.cell_coord(id).y < w.cells_per_axis(),
        w.cell_id(w.cell_coord(id)) == id.0,
{
    let n = w.cells_per_axis();
    let i = id.0 as int;
    assert(0 <= i / n < n && 0 <= i % n < n && (i / n) * n + i % n == i) by (nonlinear_arith)
        requires
            0 <= i < n * n,
            0 < n,
    ;
}

/// A position in the region falls in a cell of the region, at an offset inside
/// that cell.
pub proof fn law_a_position_is_in_its_cell(w: World, pos: Pos2)
    requires
        w.valid(),
        w.contains_2d(pos),
    ensures
        w.cell_of(pos).x < w.cells_per_axis(),
        w.cell_of(pos).y < w.cells_per_axis(),
        w.cell_of(pos).x * w.cell_size + pos.x.0 as int % w.cell_size == pos.x.0,
        w.cell_of(pos).y * w.cell_size + pos.y.0 as int % w.cell_size == pos.y.0,
{
    let c = w.cell_size;
    let n = w.cells_per_axis();
    lemma_cell_index(pos.x.0 as int, c, n);
    lemma_cell_index(pos.y.0 as int, c, n);
}

/// A coordinate below `n` cells of size `c` is in one of them.
proof fn lemma_cell_index(v: int, c: int, n: int)
    requires
        0 <= v < n * c,
        c > 0,
    ensures
        0 <= v / c < n,
        (v / c) * c + v % c == v,
{
    assert(0 <= v / c < n && (v / c) * c + v % c == v) by (nonlinear_arith)
        requires
            0 <= v < n * c,
            c > 0,
    ;
}

/// The digest ignores what only the simulation uses.
pub proof fn law_the_digest_ignores_speed_and_tick_rate(a: World, b: World)
    requires
        a.region_size == b.region_size,
        a.vertical_extent == b.vertical_extent,
        a.cell_size == b.cell_size,
        a.view_radius == b.view_radius,
    ensures
        a.protocol_hash() == b.protocol_hash(),
{
}

/// An axis is wide enough for every position in it, and no wider.
pub proof fn law_an_axis_is_exactly_as_wide_as_its_extent(w: World)
    requires
        w.valid(),
    ensures
        pow2(w.horizontal_bits()) == w.region_size,
        pow2(w.vertical_bits()) == w.vertical_extent,
{
}

/// What the builder accepts keeps the bound on a subscription's radius.
pub proof fn law_the_derived_cell_keeps_the_radius_bound(b: WorldConfigBuilder)
    requires
        b.refusal() is None,
    ensures
        1 <= b.world().cell_radius() <= MAX_CELL_RADIUS,
        b.world().cells_per_axis() <= MAX_CELLS_PER_AXIS ==> b.world().valid(),
{
    let w = b.world();
    lemma_derived_grid(w);
    assert(w.tick_hz <= 1000) by (nonlinear_arith)
        requires
            w.tick_hz > 0,
            1000int % w.tick_hz == 0,
    ;
}

/// A config is no more than the world it describes: two configs of one world
/// are the same.
pub proof fn law_a_config_is_its_world(a: WorldConfig, b: WorldConfig)
    requires
        a.inv(),
        b.inv(),
        a@ == b@,
    ensures
        a == b,
{
}

/// Clamping leaves an axis that is inside as it is, and puts one that is not
/// at the end it is past.
pub proof fn law_clamping_moves_an_axis_no_further_than_it_must(w: World, p: Pos3)
    requires
        w.valid(),
    ensures
        ({
            let q = w.clamp(p);
            let (side, top) = (w.region_size, w.vertical_extent);
            &&& q.x.0 == if p.x.0 < 0 {
                0
            } else if p.x.0 >= side {
                side - 1
            } else {
                p.x.0 as int
            }
            &&& q.y.0 == if p.y.0 < 0 {
                0
            } else if p.y.0 >= side {
                side - 1
            } else {
                p.y.0 as int
            }
            &&& q.z.0 == if p.z.0 < 0 {
                0
            } else if p.z.0 >= top {
                top - 1
            } else {
                p.z.0 as int
            }
        }),
        w.contains(p) <==> 0 <= p.x.0 < w.region_size && 0 <= p.y.0 < w.region_size && 0 <= p.z.0
            < w.vertical_extent,
        w.contains(p) <==> w.clamp(p) == p,
{
}

/// A position inside the region is in the cell whose corner it is less than a
/// cell past; one outside, in the last cell on the side it is past.
pub proof fn law_a_cell_is_a_cell_size_wide(w: World, pos: Pos2)
    requires
        w.valid(),
    ensures
        ({
            let c = w.cell_of(pos);
            let (s, last) = (w.cell_size, w.region_size / w.cell_size - 1);
            &&& 0 <= c.x <= last
            &&& 0 <= c.y <= last
            &&& 0 <= pos.x.0 < w.region_size ==> c.x * s <= pos.x.0 < c.x * s + s
            &&& 0 <= pos.y.0 < w.region_size ==> c.y * s <= pos.y.0 < c.y * s + s
            &&& pos.x.0 < 0 ==> c.x == 0
            &&& pos.y.0 < 0 ==> c.y == 0
            &&& pos.x.0 >= w.region_size ==> c.x == last
            &&& pos.y.0 >= w.region_size ==> c.y == last
        }),
{
    lemma_axis_cell_raw(w, pos.x);
    lemma_axis_cell_raw(w, pos.y);
}

proof fn lemma_axis_cell_raw(w: World, v: Fixed)
    requires
        w.valid(),
    ensures
        ({
            let c = w.axis_cell(v);
            let (s, last) = (w.cell_size, w.region_size / w.cell_size - 1);
            &&& 0 <= c <= last < 0x1_0000
            &&& 0 <= v.0 < w.region_size ==> c * s <= v.0 < c * s + s
            &&& v.0 < 0 ==> c == 0
            &&& v.0 >= w.region_size ==> c == last
        }),
{
    let (s, n, x) = (w.cell_size, w.region_size / w.cell_size, v.0 as int);
    let q = x / s;
    assert(q * s <= x < q * s + s) by (nonlinear_arith)
        requires
            s > 0,
            q == x / s,
    ;
    if 0 <= x < w.region_size {
        assert(0 <= q < n) by (nonlinear_arith)
            requires
                s > 0,
                q * s <= x < q * s + s,
                0 <= x < n * s,
        ;
    } else if x < 0 {
        assert(q < 0) by (nonlinear_arith)
            requires
                s > 0,
                q * s <= x < q * s + s,
                x < 0,
        ;
    } else {
        assert(q >= n) by (nonlinear_arith)
            requires
                s > 0,
                q * s <= x < q * s + s,
                x >= n * s,
        ;
    }
}

/// A view reaches as many cells as cover its radius and no more, a region has
/// as many as cover its side, and a square of them.
pub proof fn law_a_view_is_covered_by_its_cells(w: World)
    requires
        w.valid(),
    ensures
        ({
            let (r, s) = (w.cell_radius(), w.cell_size);
            &&& r * s >= w.view_radius > (r - 1) * s
            &&& w.cells_per_axis() * s == w.region_size
            &&& w.sub_grid_axis() == 2 * r + 1
            &&& w.sub_grid_cells() == (2 * r + 1) * (2 * r + 1)
            &&& w.cells_per_region() == w.cells_per_axis() * w.cells_per_axis()
        }),
{
    let (v, s, r) = (w.view_radius, w.cell_size, w.cell_radius());
    assert(r * s >= v > (r - 1) * s) by (nonlinear_arith)
        requires
            s > 0,
            v > 0,
            r == (v + s - 1) / s,
    ;
}

/// The digest of a world is FNV-1a over seven numbers of four bytes each, least
/// byte first: the fractional bits, the extents, the cell, the view, and how
/// many bits an axis takes on the wire.
pub proof fn law_the_digest_is_of_the_layout(w: World, h: u64, s: Seq<u8>, b: u8)
    requires
        w.valid(),
    ensures
        ({
            let bytes = w.protocol_bytes();
            &&& bytes.len() == 28
            &&& le::holds(bytes, 0, 4, 10)
            &&& le::holds(bytes, 4, 4, w.region_size)
            &&& le::holds(bytes, 8, 4, w.vertical_extent)
            &&& le::holds(bytes, 12, 4, w.cell_size)
            &&& le::holds(bytes, 16, 4, w.view_radius)
            &&& le::holds(bytes, 20, 4, w.horizontal_bits() as int)
            &&& le::holds(bytes, 24, 4, w.vertical_bits() as int)
        }),
        w.protocol_hash() == fnv_bytes(0xcbf2_9ce4_8422_2325, w.protocol_bytes()),
        fnv_bytes(h, Seq::empty()) == h,
        fnv_bytes(h, s.push(b)) as int == ((fnv_bytes(h, s) ^ (b as u64)) * 0x0000_0100_0000_01b3)
            % 0x1_0000_0000_0000_0000,
{
    let bytes = w.protocol_bytes();
    let (hb, vb) = (w.horizontal_bits(), w.vertical_bits());
    le::lemma_span();
    num::lemma_floor_log2(w.region_size as nat);
    num::lemma_floor_log2(w.vertical_extent as nat);
    lemma_few_bits(hb);
    lemma_few_bits(vb);
    le::lemma_le_len(FIXED_SHIFT as nat, 4);
    le::lemma_le_len(w.region_size as nat, 4);
    le::lemma_le_len(w.vertical_extent as nat, 4);
    le::lemma_le_len(w.cell_size as nat, 4);
    le::lemma_le_len(w.view_radius as nat, 4);
    le::lemma_le_len(hb, 4);
    le::lemma_le_len(vb, 4);
    assert(bytes.subrange(0, 4) =~= le::le_bytes(FIXED_SHIFT as nat, 4));
    assert(bytes.subrange(4, 8) =~= le::le_bytes(w.region_size as nat, 4));
    assert(bytes.subrange(8, 12) =~= le::le_bytes(w.vertical_extent as nat, 4));
    assert(bytes.subrange(12, 16) =~= le::le_bytes(w.cell_size as nat, 4));
    assert(bytes.subrange(16, 20) =~= le::le_bytes(w.view_radius as nat, 4));
    assert(bytes.subrange(20, 24) =~= le::le_bytes(hb, 4));
    assert(bytes.subrange(24, 28) =~= le::le_bytes(vb, 4));
    le::lemma_holds(bytes, 0, 4, FIXED_SHIFT as nat);
    le::lemma_holds(bytes, 4, 4, w.region_size as nat);
    le::lemma_holds(bytes, 8, 4, w.vertical_extent as nat);
    le::lemma_holds(bytes, 12, 4, w.cell_size as nat);
    le::lemma_holds(bytes, 16, 4, w.view_radius as nat);
    le::lemma_holds(bytes, 20, 4, hb);
    le::lemma_holds(bytes, 24, 4, vb);
    assert(s.push(b).drop_last() =~= s);
}

/// A power of two that a 32-bit number holds has a small exponent.
proof fn lemma_few_bits(k: nat)
    requires
        pow2(k) <= i32::MAX,
    ensures
        k < 0x1_0000_0000,
{
    if k >= 64 {
        vstd::arithmetic::power2::lemma2_to64();
        if k > 64 {
            vstd::arithmetic::power2::lemma_pow2_strictly_increases(64, k);
        }
    }
}

/// Ticks fill a second exactly, and what an entity may cover in one is its
/// speed shared among them; and the cell a view is given is the largest power
/// of two within half of it.
pub proof fn law_a_tick_is_a_share_of_a_second(w: World, radius: int)
    requires
        w.valid(),
        radius > 0,
    ensures
        w.tick_ms() * w.tick_hz == 1000,
        w.max_move_per_tick() * w.tick_hz <= w.max_speed < w.max_move_per_tick() * w.tick_hz
            + w.tick_hz,
        num::is_power_of_two(derived_cell_size(radius)),
        radius >= 2 ==> derived_cell_size(radius) <= radius / 2 < 2 * derived_cell_size(radius),
        radius == 1 ==> derived_cell_size(radius) == 1,
{
    let hz = w.tick_hz;
    assert((1000int / hz) * hz == 1000) by (nonlinear_arith)
        requires
            hz > 0,
            1000int % hz == 0,
    ;
    let v = w.max_speed;
    assert((v / hz) * hz <= v < (v / hz) * hz + hz) by (nonlinear_arith)
        requires
            hz > 0,
    ;
    let half = if radius / 2 < 1 {
        1
    } else {
        radius / 2
    };
    num::lemma_floor_log2(half as nat);
    num::lemma_log2_of_pow2(num::floor_log2(half as nat));
    vstd::arithmetic::power2::lemma_pow2_pos(num::floor_log2(half as nat));
}

/// A builder is taken exactly when all five numbers are set and more than
/// nothing, the extents are powers of two, the view is no wider than the
/// region, ticks fill a second exactly, and nothing crosses a cell in a tick.
pub proof fn law_a_builder_is_taken_exactly_when_it_describes_a_world(b: WorldConfigBuilder)
    ensures
        b.refusal() is None <==> {
            &&& b.region_size is Some && (b.region_size->0).0 > 0
            &&& b.vertical_extent is Some && (b.vertical_extent->0).0 > 0
            &&& b.horizontal_view_radius is Some && (b.horizontal_view_radius->0).0 > 0
            &&& b.max_horizontal_speed is Some && (b.max_horizontal_speed->0).0 > 0
            &&& b.tick_hz is Some && b.tick_hz->0 > 0 && 1000int % (b.tick_hz->0 as int) == 0
            &&& exists|k: nat| #[trigger] pow2(k) == (b.region_size->0).0
            &&& exists|k: nat| #[trigger] pow2(k) == (b.vertical_extent->0).0
            &&& (b.horizontal_view_radius->0).0 <= (b.region_size->0).0
            &&& (b.max_horizontal_speed->0).0 as int / (b.tick_hz->0 as int) < derived_cell_size(
                (b.horizontal_view_radius->0).0 as int,
            )
        },
        b.refusal() is None ==> {
            let w = b.world();
            &&& w.region_size == (b.region_size->0).0
            &&& w.vertical_extent == (b.vertical_extent->0).0
            &&& w.view_radius == (b.horizontal_view_radius->0).0
            &&& w.max_speed == (b.max_horizontal_speed->0).0
            &&& w.tick_hz == b.tick_hz->0
            &&& w.cell_size == derived_cell_size((b.horizontal_view_radius->0).0 as int)
        },
{
    num::law_a_power_of_two_is_two_to_some_power((b.region_size->0).0 as int);
    num::law_a_power_of_two_is_two_to_some_power((b.vertical_extent->0).0 as int);
}

} // verus!
