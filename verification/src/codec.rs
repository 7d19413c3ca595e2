//! Encoding and decoding for entity update records.
//!
//! A record is an [`EntityId`] followed by a position packed into the fewest
//! whole bytes the configured precision needs. The record size depends on the
//! horizontal and vertical bits derived by a [`WorldConfig`].
//!
//! Multiple records go in one packet.
//!
//! Records carry no game state.

use vstd::arithmetic::power2::*;
use vstd::prelude::*;

use crate::config::{ConfigError, World, WorldConfig, WorldConfigBuilder};
use crate::entity::EntityId;
use crate::fixed;
use crate::fixed::Fixed;
use crate::le;
use crate::le::{push_u32, push_wide, read_u32, read_wide};
use crate::num;
use crate::pos::Pos3;

verus! {

impl World {
    /// Bytes a packed position takes.
    pub open spec fn position_bytes(self) -> nat {
        ((2 * self.horizontal_bits() + self.vertical_bits() + 7) / 8) as nat
    }

    /// A position inside the world, as one number.
    pub open spec fn packed(self, pos: Pos3) -> nat {
        (pos.x.0 + pos.y.0 * self.region_size + pos.z.0 * (self.region_size * self.region_size))
            as nat
    }

    /// The position one number stands for.
    pub open spec fn unpacked(self, n: nat) -> Pos3 {
        Pos3 {
            x: Fixed((n as int % self.region_size) as i32),
            y: Fixed((n as int / self.region_size % self.region_size) as i32),
            z: Fixed(
                (n as int / (self.region_size * self.region_size) % self.vertical_extent) as i32,
            ),
        }
    }

    /// One entity's record. A position outside the world is held to it.
    pub open spec fn record(self, id: EntityId, pos: Pos3) -> Seq<u8> {
        le::le_bytes(id.0 as nat, 4) + le::le_bytes(
            self.packed(self.clamp(pos)),
            self.position_bytes(),
        )
    }
}

/// The extents are powers of two that leave a position well within 128 bits.
proof fn lemma_bits(w: World)
    requires
        w.valid(),
    ensures
        w.horizontal_bits() <= 30,
        w.vertical_bits() <= 30,
        pow2(w.horizontal_bits()) == w.region_size,
        pow2(w.vertical_bits()) == w.vertical_extent,
        w.region_size * w.region_size == pow2(2 * w.horizontal_bits()),
        w.region_size * w.region_size <= 0x1000_0000_0000_0000,
        w.region_size * w.region_size * w.vertical_extent == pow2(
            2 * w.horizontal_bits() + w.vertical_bits(),
        ),
{
    let h = w.horizontal_bits();
    let v = w.vertical_bits();
    lemma2_to64();
    lemma2_to64_rest();
    if h > 30 {
        num::lemma_pow2_ordered(h, 31);
        if h > 31 {
            lemma_pow2_strictly_increases(31, h);
        }
    }
    if v > 30 {
        if v > 31 {
            lemma_pow2_strictly_increases(31, v);
        }
    }
    lemma_pow2_adds(h, h);
    lemma_pow2_adds(2 * h, v);
    if 2 * h < 60 {
        lemma_pow2_strictly_increases(2 * h, 60);
    }
}

/// So many bytes tell apart as many numbers as eight times as many bits.
proof fn lemma_span_bits(width: nat)
    ensures
        le::span(width) == pow2(8 * width),
    decreases width,
{
    lemma2_to64();
    le::lemma_span();
    if width > 0 {
        lemma_span_bits((width - 1) as nat);
        le::lemma_span_step(width);
        lemma_pow2_adds(8, (8 * width - 8) as nat);
    }
}

/// A packed position fits the bytes kept for it.
proof fn lemma_packed(w: World, pos: Pos3)
    requires
        w.valid(),
        w.contains(pos),
    ensures
        w.packed(pos) == pos.x.0 + pos.y.0 * w.region_size + pos.z.0 * (w.region_size
            * w.region_size),
        w.packed(pos) < le::span(w.position_bytes()),
        w.packed(pos) < 0x1_0000_0000_0000_0000_0000_0000,
        w.unpacked(w.packed(pos)) == pos,
        w.position_bytes() <= 12,
{
    lemma_bits(w);
    let (r, v) = (w.region_size, w.vertical_extent);
    let (x, y, z) = (pos.x.0 as int, pos.y.0 as int, pos.z.0 as int);
    let n = x + y * r + z * (r * r);
    assert(0 <= y * r <= (r - 1) * r) by (nonlinear_arith)
        requires
            0 <= y < r,
    ;
    assert((r - 1) * r == r * r - r) by (nonlinear_arith);
    assert(0 <= z * (r * r) <= (v - 1) * (r * r)) by (nonlinear_arith)
        requires
            0 <= z < v,
            r > 0,
    ;
    assert((v - 1) * (r * r) == r * r * v - r * r) by (nonlinear_arith);
    assert(0 <= n < r * r * v);
    let total = 2 * w.horizontal_bits() + w.vertical_bits();
    let width = w.position_bytes();
    lemma_span_bits(width);
    if total < 8 * width {
        lemma_pow2_strictly_increases(total, 8 * width);
    }
    lemma2_to64();
    lemma2_to64_rest();
    lemma_pow2_adds(64, 32);
    if total < 96 {
        lemma_pow2_strictly_increases(total, 96);
    }
    // Digit by digit, from the least significant.
    assert(n == x + r * (y + r * z)) by (nonlinear_arith)
        requires
            n == x + y * r + z * (r * r),
    ;
    let m = y + r * z;
    vstd::arithmetic::div_mod::lemma_fundamental_div_mod_converse(n, r, m, x);
    vstd::arithmetic::div_mod::lemma_fundamental_div_mod_converse(m, r, z, y);
    vstd::arithmetic::div_mod::lemma_div_denominator(n, r, r);
    assert(n / (r * r) == z);
    assert(z % v == z) by {
        vstd::arithmetic::div_mod::lemma_small_mod(z as nat, v as nat);
    }
}

/// Encodes and decodes entity records.
#[derive(Debug, Clone, Copy)]
pub struct RecordCodec {
    cfg: WorldConfig,
    pos_bytes: usize,
}

/// What a region described only by its extents is built from.
pub open spec fn extents(region_size_m: i32, vertical_extent_m: i32) -> WorldConfigBuilder {
    WorldConfigBuilder {
        region_size: Some(Fixed((region_size_m * 1024) as i32)),
        vertical_extent: Some(Fixed((vertical_extent_m * 1024) as i32)),
        horizontal_view_radius: Some(
            Fixed(
                (if region_size_m >= 16 {
                    region_size_m as int / 16
                } else {
                    1
                } * 1024) as i32,
            ),
        ),
        max_horizontal_speed: Some(Fixed(1024)),
        tick_hz: Some(20),
    }
}

/// A region described only by its extents has cells that can be counted, and
/// nothing in it is too fast.
proof fn lemma_extents(region_size_m: i32, vertical_extent_m: i32)
    requires
        fixed::fits_i32(region_size_m * 1024),
        fixed::fits_i32(vertical_extent_m * 1024),
    ensures
        extents(region_size_m, vertical_extent_m).misshapen() is None ==> extents(
            region_size_m,
            vertical_extent_m,
        ).world().cells_per_axis() <= crate::config::MAX_CELLS_PER_AXIS,
        extents(region_size_m, vertical_extent_m).refusal() == extents(
            region_size_m,
            vertical_extent_m,
        ).misshapen(),
{
    let b = extents(region_size_m, vertical_extent_m);
    let w = b.world();
    if b.misshapen() is None {
        let half = w.view_radius / 2;
        num::lemma_floor_log2(half as nat);
        let c = w.cell_size;
        assert(half >= 512);
        assert(c <= half < 2 * c);
        assert(w.region_size <= 128 * c) by {
            if region_size_m >= 16 {
                assert(region_size_m <= 31 * (region_size_m as int / 16));
            }
        }
        assert(w.region_size / c <= 128) by (nonlinear_arith)
            requires
                0 < w.region_size <= 128 * c,
                c > 0,
        ;
        assert(w.max_move_per_tick() == 51);
    }
}

impl RecordCodec {
    /// The world positions are in.
    pub closed spec fn world(&self) -> World {
        self.cfg@
    }

    /// Whether the width is the one the world implies.
    pub closed spec fn wf(&self) -> bool {
        self.pos_bytes == self.cfg@.position_bytes()
    }

    /// A codec's world is a valid one.
    pub proof fn lemma_world(&self)
        requires
            self.wf(),
            self.world().valid(),
        ensures
            self.world().position_bytes() <= 12,
    {
        lemma_bits(self.world());
    }

    /// A codec for a region described only by its extents.
    ///
    /// The wire layout depends on exactly two numbers: horizontal bits are the
    /// region size's, vertical bits the extent's. View radius, speed cap and
    /// tick rate change nothing a decoder does, which is why a client is never
    /// told them. The three the builder still needs are set to valid values
    /// here and reach nothing.
    ///
    /// # Errors
    ///
    /// If the extents do not describe a world at all.
    pub fn for_extents(region_size_m: i32, vertical_extent_m: i32) -> (r: Result<
        RecordCodec,
        ConfigError,
    >)
        requires
            fixed::fits_i32(region_size_m * 1024),
            fixed::fits_i32(vertical_extent_m * 1024),
        ensures
            match r {
                Ok(c) => {
                    &&& c.wf()
                    &&& extents(region_size_m, vertical_extent_m).misshapen() is None
                    &&& c.world() == extents(region_size_m, vertical_extent_m).world()
                },
                Err(e) => extents(region_size_m, vertical_extent_m).misshapen() == Some(e),
            },
    {
        proof {
            lemma_extents(region_size_m, vertical_extent_m);
        }
        let radius: i32 = if region_size_m >= 16 {
            region_size_m / 16
        } else {
            1
        };
        let built = WorldConfig::builder().region_size_m(region_size_m).vertical_extent_m(
            vertical_extent_m,
        ).horizontal_view_radius_m(radius).max_horizontal_speed_m_per_sec(1).tick_hz(20).build();
        match built {
            Ok(cfg) => Ok(RecordCodec::new(&cfg)),
            Err(e) => Err(e),
        }
    }

    /// The layout this world implies.
    pub fn new(cfg: &WorldConfig) -> (c: RecordCodec)
        ensures
            c.wf(),
            c.world() == cfg@,
    {
        proof {
            use_type_invariant(cfg);
            lemma_bits(cfg@);
        }
        let total: u32 = 2 * cfg.horizontal_bits() + cfg.vertical_bits();
        RecordCodec { cfg: *cfg, pos_bytes: ((total + 7) / 8) as usize }
    }

    /// The number of bytes a record occupies
    pub fn record_bytes(&self) -> (n: usize)
        requires
            self.wf(),
        ensures
            n == 4 + self.world().position_bytes(),
            4 <= n <= 16,
    {
        proof {
            use_type_invariant(&self.cfg);
            lemma_bits(self.cfg@);
        }
        4 + self.pos_bytes
    }

    /// The number of bytes the encoded position occupies
    pub fn position_bytes(&self) -> (n: usize)
        requires
            self.wf(),
        ensures
            n == self.world().position_bytes(),
    {
        self.pos_bytes
    }

    /// Appends one record to the output buffer
    pub fn encode(&self, id: EntityId, pos: Pos3, out: &mut Vec<u8>)
        requires
            self.wf(),
        ensures
            final(out)@ == old(out)@ + self.world().record(id, pos),
    {
        push_u32(out, id.raw());
        let at = self.cfg.clamp(pos);
        proof {
            use_type_invariant(&self.cfg);
            lemma_bits(self.cfg@);
            lemma_packed(self.cfg@, at);
        }
        let r: u128 = self.cfg.region_size().raw() as u128;
        let (x, y, z) = (at.x.raw() as u128, at.y.raw() as u128, at.z.raw() as u128);
        proof {
            let (w, n) = (self.cfg@, self.cfg@.packed(at));
            assert(0 <= y * r) by (nonlinear_arith)
                requires
                    y >= 0,
                    r >= 0,
            ;
            assert(0 <= z * (r * r)) by (nonlinear_arith)
                requires
                    z >= 0,
                    r >= 0,
            ;
        }
        let packed: u128 = x + y * r + z * (r * r);
        push_wide(out, packed, self.pos_bytes);
        assert(out@ =~= old(out)@ + self.world().record(id, pos));
    }

    /// Reads one record from the front of `buf`.
    ///
    /// Returns `None` if `buf` is shorter than one record.
    pub fn decode(&self, buf: &[u8]) -> (r: Option<(EntityId, Pos3)>)
        requires
            self.wf(),
        ensures
            match r {
                None => buf@.len() < 4 + self.world().position_bytes(),
                Some((id, pos)) => {
                    &&& buf@.len() >= 4 + self.world().position_bytes()
                    &&& id.0 == le::from_le(buf@.take(4))
                    &&& pos == self.world().unpacked(
                        le::from_le(buf@.subrange(4, 4int + self.world().position_bytes())),
                    )
                },
            },
    {
        if buf.len() < self.record_bytes() {
            return None;
        }
        proof {
            use_type_invariant(&self.cfg);
            lemma_bits(self.cfg@);
        }
        let raw: u32 = read_u32(buf, 0);
        assert(buf@.subrange(0, 4) =~= buf@.take(4));
        let n: u128 = read_wide(buf, 4, self.pos_bytes);
        let r: u128 = self.cfg.region_size().raw() as u128;
        let v: u128 = self.cfg.vertical_extent().raw() as u128;
        assert(r * r > 0) by (nonlinear_arith)
            requires
                r > 0,
        ;
        let x: i32 = (n % r) as i32;
        let y: i32 = (n / r % r) as i32;
        let z: i32 = (n / (r * r) % v) as i32;
        Some(
            (
                EntityId::from_raw(raw),
                Pos3::new(Fixed::from_raw(x), Fixed::from_raw(y), Fixed::from_raw(z)),
            ),
        )
    }
}

/// A record of a position inside the world reads back as the entity and the
/// position, exactly.
pub proof fn law_a_record_round_trips(w: World, id: EntityId, pos: Pos3)
    requires
        w.valid(),
        w.contains(pos),
    ensures
        w.record(id, pos).len() == 4 + w.position_bytes(),
        le::from_le(w.record(id, pos).take(4)) == id.0,
        w.unpacked(le::from_le(w.record(id, pos).subrange(4, 4int + w.position_bytes()))) == pos,
{
    let width = w.position_bytes();
    let at = w.clamp(pos);
    assert(at == pos);
    lemma_packed(w, pos);
    le::lemma_span();
    le::lemma_le_len(id.0 as nat, 4);
    le::lemma_le_len(w.packed(pos), width);
    le::lemma_from_le_of_le(id.0 as nat, 4);
    le::lemma_from_le_of_le(w.packed(pos), width);
    assert(w.record(id, pos).take(4) =~= le::le_bytes(id.0 as nat, 4));
    assert(w.record(id, pos).subrange(4, 4int + width) =~= le::le_bytes(w.packed(pos), width));
}

/// The extents are the whole of the wire layout: worlds that share them encode
/// and decode alike, whatever else they differ in.
pub proof fn law_the_extents_are_the_whole_of_the_layout(
    a: World,
    b: World,
    id: EntityId,
    pos: Pos3,
    n: nat,
)
    requires
        a.region_size == b.region_size,
        a.vertical_extent == b.vertical_extent,
    ensures
        a.position_bytes() == b.position_bytes(),
        a.record(id, pos) == b.record(id, pos),
        a.unpacked(n) == b.unpacked(n),
{
}

/// A record is the entity's id and then its position as one number: how far
/// east it is, how far north in regions' sides, and how high in squares of
/// them. A position outside the world is written as the nearest inside.
pub proof fn law_a_record_is_the_id_and_then_the_position(w: World, id: EntityId, pos: Pos3)
    requires
        w.valid(),
    ensures
        ({
            let record = w.record(id, pos);
            let r = w.region_size;
            let x = vstd::math::max(0, vstd::math::min(pos.x.0 as int, r - 1));
            let y = vstd::math::max(0, vstd::math::min(pos.y.0 as int, r - 1));
            let z = vstd::math::max(0, vstd::math::min(pos.z.0 as int, w.vertical_extent - 1));
            &&& record.len() == 4 + w.position_bytes()
            &&& le::from_le(record.take(4)) == id.0
            &&& le::from_le(record.skip(4)) == x + y * r + z * (r * r)
        }),
{
    let at = w.clamp(pos);
    crate::config::law_clamping_moves_an_axis_no_further_than_it_must(w, pos);
    law_a_record_round_trips(w, id, at);
    assert(w.clamp(at) == at);
    assert(w.record(id, at) == w.record(id, pos));
    lemma_packed(w, at);
    let width = w.position_bytes();
    le::lemma_le_len(id.0 as nat, 4);
    le::lemma_le_len(w.packed(at), width);
    le::lemma_from_le_of_le(w.packed(at), width);
    assert(w.record(id, pos).skip(4) =~= le::le_bytes(w.packed(at), width));
}

/// A position takes as many whole bytes as tell every position of the world
/// apart, and not one more.
pub proof fn law_a_position_takes_no_byte_too_many(w: World)
    requires
        w.valid(),
    ensures
        w.region_size * w.region_size * w.vertical_extent <= le::span(w.position_bytes()),
        w.position_bytes() > 0 ==> le::span((w.position_bytes() - 1) as nat) < w.region_size
            * w.region_size * w.vertical_extent,
{
    lemma_bits(w);
    let total = 2 * w.horizontal_bits() + w.vertical_bits();
    let width = w.position_bytes();
    lemma_span_bits(width);
    if total < 8 * width {
        lemma_pow2_strictly_increases(total, 8 * width);
    }
    if width > 0 {
        lemma_span_bits((width - 1) as nat);
        lemma_pow2_strictly_increases((8 * (width - 1)) as nat, total);
    }
}

} // verus!
