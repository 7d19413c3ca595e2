//! The world map: which region sits where, and nothing else.
//!
//! A [`WorldMap`] is a set of placements, each a region and the square it
//! fills on a grid of region-sized squares. It is written by whatever starts
//! regions and read by every edge once at startup. A region never reads it,
//! and a region that is not in it is its own frame with no neighbors.
//!
//! A region fills its whole square, so placements do not overlap and no side
//! is split: each of a region's four sides faces one square, and every
//! boundary coordinate along that side is adjacent to the same region.
//!
//! On the wire the map is a plain array of bytes, encoded the way every other
//! wire struct in this crate is: four bytes of format version, then one
//! 12-byte record per placement holding the region as a `u32` and the square's
//! column and row as two `i32`, all little-endian. No count, no name, no
//! envelope.

use vstd::prelude::*;
use vstd::string::*;

use crate::fixed;
use crate::fixed::Fixed;
use crate::id::RegionId;
use crate::le;
use crate::le::{push_i32, push_u32, read_i32, read_u32};
use crate::pos::{Pos3, WorldPos};
use crate::table::Table;
use crate::text;
use crate::text::{push_decimal, push_signed};

verus! {

/// Which square of the grid a region fills.
///
/// Columns run east and rows run north, in units of one region size, from a
/// square somebody chose to call `(0, 0)`. Negative values are fine.
#[derive(Clone, Copy, Debug, PartialEq, Eq, Hash, Structural)]
pub struct Placement {
    /// East of the origin square, in squares.
    pub col: i32,
    /// North of the origin square, in squares.
    pub row: i32,
}

/// One of a square's four sides.
#[derive(Clone, Copy, Debug, PartialEq, Eq, Hash, Structural)]
pub enum Side {
    /// Toward larger `x`.
    East,
    /// Toward smaller `x`.
    West,
    /// Toward larger `y`.
    North,
    /// Toward smaller `y`.
    South,
}

impl Side {
    /// The side that faces this one across a boundary.
    pub open spec fn facing(self) -> Side {
        match self {
            Side::East => Side::West,
            Side::West => Side::East,
            Side::North => Side::South,
            Side::South => Side::North,
        }
    }
}

impl View for Placement {
    type V = Placement;

    open spec fn view(&self) -> Placement {
        *self
    }
}

/// One past a coordinate. The grid wraps where 32 bits do.
pub open spec fn after(v: i32) -> i32 {
    if v == i32::MAX {
        i32::MIN
    } else {
        (v + 1) as i32
    }
}

/// One before a coordinate. The grid wraps where 32 bits do.
pub open spec fn before(v: i32) -> i32 {
    if v == i32::MIN {
        i32::MAX
    } else {
        (v - 1) as i32
    }
}

impl Placement {
    /// A square by column and row.
    pub fn new(col: i32, row: i32) -> (p: Placement)
        ensures
            p == (Placement { col, row }),
    {
        Placement { col, row }
    }

    /// The square across one side of this one.
    pub open spec fn across(self, side: Side) -> Placement {
        match side {
            Side::East => Placement { col: after(self.col), row: self.row },
            Side::West => Placement { col: before(self.col), row: self.row },
            Side::North => Placement { col: self.col, row: after(self.row) },
            Side::South => Placement { col: self.col, row: before(self.row) },
        }
    }

    /// The square across one side of this one.
    pub fn beside(self, side: Side) -> (p: Placement)
        ensures
            p == self.across(side),
    {
        match side {
            Side::East => Placement::new(self.col.wrapping_add(1), self.row),
            Side::West => Placement::new(self.col.wrapping_sub(1), self.row),
            Side::North => Placement::new(self.col, self.row.wrapping_add(1)),
            Side::South => Placement::new(self.col, self.row.wrapping_sub(1)),
        }
    }

    /// A square as text, such as `square (3, -1)`.
    pub open spec fn text(self) -> Seq<char> {
        "square ("@ + text::signed(self.col as int) + ", "@ + text::signed(self.row as int)
            + ")"@
    }

    /// Appends the square as text.
    pub fn push_text(&self, out: &mut String)
        ensures
            final(out)@ == old(out)@ + self.text(),
    {
        out.append("square (");
        push_signed(out, self.col as i64);
        out.append(", ");
        push_signed(out, self.row as i64);
        out.append(")");
        assert(out@ =~= old(out)@ + self.text());
    }

    /// A square as text, such as `square (3, -1)`.
    pub fn to_string(&self) -> (s: String)
        ensures
            s@ == self.text(),
    {
        let mut s = String::new();
        self.push_text(&mut s);
        assert(s@ =~= self.text());
        s
    }

    /// The square as one number, told apart from every other square's.
    spec fn key(self) -> int {
        (self.col + 0x8000_0000) * 0x1_0000_0000 + self.row + 0x8000_0000
    }
}

/// The square as one number.
fn square_key(at: Placement) -> (k: u64)
    ensures
        k == at.key(),
{
    (at.col as i64 + 0x8000_0000) as u64 * 0x1_0000_0000 + (at.row as i64 + 0x8000_0000) as u64
}

/// Why a map was refused.
#[derive(Debug)]
pub enum MapError {
    /// The bytes are not four plus a multiple of twelve.
    BadLength(usize),
    /// A format version this build does not read.
    UnknownVersion(u32),
    /// A region placed twice.
    DuplicateRegion(RegionId),
    /// Two regions in one square.
    DuplicateSquare(Placement),
    /// A region id with the top bit set, which a composed entity name cannot
    /// carry.
    RegionIdTooWide(RegionId),
    /// The broker could not be read or written, in its own words.
    Broker(String),
}

impl MapError {
    /// What the error says.
    pub open spec fn text(self) -> Seq<char> {
        match self {
            MapError::BadLength(n) => "a map of "@ + text::decimal(n as nat)
                + " bytes is not 4 + 12n"@,
            MapError::UnknownVersion(v) => "map format version "@ + text::decimal(v as nat)
                + " is not read here"@,
            MapError::DuplicateRegion(r) => "region "@ + text::decimal(r.0 as nat)
                + " is placed twice"@,
            MapError::DuplicateSquare(s) => s.text() + " holds two regions"@,
            MapError::RegionIdTooWide(r) => "region "@ + text::decimal(r.0 as nat)
                + " does not fit 31 bits"@,
            MapError::Broker(e) => "map on the broker: "@ + e@,
        }
    }

    /// What the error says.
    pub fn to_string(&self) -> (s: String)
        ensures
            s@ == self.text(),
    {
        let mut s = String::new();
        match self {
            MapError::BadLength(n) => {
                s.append("a map of ");
                push_decimal(&mut s, *n as u64);
                s.append(" bytes is not 4 + 12n");
            },
            MapError::UnknownVersion(v) => {
                s.append("map format version ");
                push_decimal(&mut s, *v as u64);
                s.append(" is not read here");
            },
            MapError::DuplicateRegion(r) => {
                s.append("region ");
                push_decimal(&mut s, r.raw() as u64);
                s.append(" is placed twice");
            },
            MapError::DuplicateSquare(at) => {
                at.push_text(&mut s);
                s.append(" holds two regions");
            },
            MapError::RegionIdTooWide(r) => {
                s.append("region ");
                push_decimal(&mut s, r.raw() as u64);
                s.append(" does not fit 31 bits");
            },
            MapError::Broker(e) => {
                s.append("map on the broker: ");
                s.append(e.as_str());
            },
        }
        assert(s@ =~= self.text());
        s
    }
}

/// Placements in the order they were made.
pub type Places = Seq<(RegionId, Placement)>;

/// Whether no region and no square is placed twice, and every region's id fits
/// 31 bits.
pub open spec fn distinct(places: Places) -> bool {
    &&& forall|i: int, j: int|
        0 <= i < j < places.len() ==> (#[trigger] places[i]).0 != (#[trigger] places[j]).0
            && places[i].1 != places[j].1
    &&& forall|i: int| 0 <= i < places.len() ==> (#[trigger] places[i]).0.0 < 0x8000_0000
}

/// Where a region sits, if it is placed.
pub open spec fn square_of(places: Places, region: RegionId) -> Option<Placement> {
    if exists|p: Placement| places.contains((region, p)) {
        Some(choose|p: Placement| places.contains((region, p)))
    } else {
        None
    }
}

/// Which region fills a square, if any.
pub open spec fn region_in(places: Places, square: Placement) -> Option<RegionId> {
    if exists|r: RegionId| places.contains((r, square)) {
        Some(choose|r: RegionId| places.contains((r, square)))
    } else {
        None
    }
}

/// Why a placement is refused, if it is, on a map that holds these already.
pub open spec fn place_fault(places: Places, region: RegionId, at: Placement) -> Option<
    MapError,
> {
    if region.0 >= 0x8000_0000 {
        Some(MapError::RegionIdTooWide(region))
    } else if square_of(places, region) is Some {
        Some(MapError::DuplicateRegion(region))
    } else if region_in(places, at) is Some {
        Some(MapError::DuplicateSquare(at))
    } else {
        None
    }
}

/// The region across one side of another, if a placed one is there.
pub open spec fn neighbor_of(places: Places, region: RegionId, side: Side) -> Option<RegionId> {
    match square_of(places, region) {
        Some(square) => region_in(places, square.across(side)),
        None => None,
    }
}

/// The placed region a world position falls in, and the position inside it.
pub open spec fn located(places: Places, at: WorldPos, size: Fixed) -> Option<
    (RegionId, Pos3),
> {
    let col = at.x as int / size.0 as int;
    let row = at.y as int / size.0 as int;
    if !fixed::fits_i32(col) || !fixed::fits_i32(row) {
        None
    } else {
        let square = Placement { col: col as i32, row: row as i32 };
        match region_in(places, square) {
            None => None,
            Some(region) => match at.local(square, size) {
                None => None,
                Some(local) => Some((region, local)),
            },
        }
    }
}

/// One placement on the wire.
pub open spec fn place_bytes(place: (RegionId, Placement)) -> Seq<u8> {
    le::le_bytes(place.0.0 as nat, 4) + le::le_i32(place.1.col) + le::le_i32(place.1.row)
}

/// A run of placements on the wire.
pub open spec fn places_bytes(places: Places) -> Seq<u8>
    decreases places.len(),
{
    if places.len() == 0 {
        Seq::empty()
    } else {
        places_bytes(places.drop_last()) + place_bytes(places.last())
    }
}

/// A map on the wire.
pub open spec fn map_bytes(places: Places) -> Seq<u8> {
    le::le_bytes(WorldMap::VERSION as nat, 4) + places_bytes(places)
}

/// The placement the twelve bytes from `at` on hold.
pub open spec fn place_at(bytes: Seq<u8>, at: int) -> (RegionId, Placement) {
    (
        RegionId(le::from_le(bytes.subrange(at, at + 4)) as u32),
        Placement {
            col: le::from_le_i32(bytes.subrange(at + 4, at + 8)) as i32,
            row: le::from_le_i32(bytes.subrange(at + 8, at + 12)) as i32,
        },
    )
}

/// The first `n` placements of a map's bytes.
pub open spec fn places_in(bytes: Seq<u8>, n: nat) -> Places {
    Seq::new(n, |i: int| place_at(bytes, 4 + 12 * i))
}

/// The fault of the first of a run of placements that has one.
pub open spec fn first_fault(places: Places) -> Option<MapError>
    decreases places.len(),
{
    if places.len() == 0 {
        None
    } else {
        match first_fault(places.drop_last()) {
            Some(e) => Some(e),
            None => place_fault(places.drop_last(), places.last().0, places.last().1),
        }
    }
}

/// Which region sits where.
///
/// Immutable once built or decoded. An edge reads one at startup and keeps it
/// for its lifetime; a changed map reaches edges by restarting them.
#[derive(Clone, Debug, PartialEq, Eq)]
pub struct WorldMap {
    placements: Vec<(RegionId, Placement)>,
    by_region: Table<Placement>,
    by_square: Table<u32>,
}

impl View for WorldMap {
    type V = Places;

    closed spec fn view(&self) -> Places {
        self.placements@
    }
}

impl WorldMap {
    /// The format version this build writes and reads.
    pub const VERSION: u32 = 1;

    /// The bucket the map lives in.
    pub const BUCKET: &'static str = "umwelt";

    /// The key within that bucket.
    pub const KEY: &'static str = "map";

    /// Bytes per placement on the wire.
    pub const RECORD: usize = 12;

    /// Whether the two indexes hold exactly the placements, none of them
    /// twice.
    pub closed spec fn wf(&self) -> bool {
        &&& distinct(self.placements@)
        &&& forall|i: int|
            0 <= i < self.placements@.len() ==> {
                let (r, p) = #[trigger] self.placements@[i];
                &&& self.by_region@.contains_key(r.0 as u64)
                &&& self.by_region@[r.0 as u64] == p
                &&& self.by_square@.contains_key(p.key() as u64)
                &&& self.by_square@[p.key() as u64] == r.0
            }
        &&& forall|k: u64| #[trigger]
            self.by_region@.contains_key(k) ==> exists|i: int|
                0 <= i < self.placements@.len() && (#[trigger] self.placements@[i]).0.0 == k
        &&& forall|k: u64| #[trigger]
            self.by_square@.contains_key(k) ==> exists|i: int|
                0 <= i < self.placements@.len() && (#[trigger] self.placements@[i]).1.key() == k
    }

    /// A well-formed map places nothing twice.
    pub proof fn law_nothing_is_placed_twice(&self)
        requires
            self.wf(),
        ensures
            distinct(self@),
    {
    }

    /// A map with nothing on it.
    pub fn new() -> (m: WorldMap)
        ensures
            m.wf(),
            m@ == Places::empty(),
    {
        WorldMap { placements: Vec::new(), by_region: Table::new(), by_square: Table::new() }
    }

    /// Places a region. Refused if the region or the square is already taken,
    /// or if the region's id does not fit 31 bits.
    pub fn place(&mut self, region: RegionId, at: Placement) -> (r: Result<(), MapError>)
        requires
            old(self).wf(),
        ensures
            final(self).wf(),
            match r {
                Ok(_) => place_fault(old(self)@, region, at) is None && final(self)@ == old(
                    self,
                )@.push((region, at)),
                Err(e) => place_fault(old(self)@, region, at) == Some(e) && final(self)@ == old(
                    self,
                )@,
            },
    {
        if region.raw() >= 0x8000_0000 {
            return Err(MapError::RegionIdTooWide(region));
        }
        if self.placement_of(region).is_some() {
            return Err(MapError::DuplicateRegion(region));
        }
        if self.region_at(at).is_some() {
            return Err(MapError::DuplicateSquare(at));
        }
        self.placements.push((region, at));
        self.by_region.put(region.raw() as u64, at);
        self.by_square.put(square_key(at), region.raw());
        proof {
            let (before, now) = (old(self)@, self@);
            assert forall|i: int| 0 <= i < before.len() implies (#[trigger] before[i]).0 != region
                && before[i].1 != at by {
                assert(before.contains((before[i].0, before[i].1)));
            }
            assert forall|k: u64| #[trigger] self.by_region@.contains_key(k) implies exists|i: int|
                0 <= i < now.len() && (#[trigger] now[i]).0.0 == k by {
                if k == region.0 as u64 {
                    assert(now[before.len() as int].0.0 == k);
                } else {
                    let i = choose|i: int| 0 <= i < before.len() && (#[trigger] before[i]).0.0 == k;
                    assert(now[i] == before[i]);
                }
            }
            assert forall|k: u64| #[trigger] self.by_square@.contains_key(k) implies exists|i: int|
                0 <= i < now.len() && (#[trigger] now[i]).1.key() == k by {
                if k == at.key() as u64 {
                    assert(now[before.len() as int].1.key() == k);
                } else {
                    let i = choose|i: int|
                        0 <= i < before.len() && (#[trigger] before[i]).1.key() == k;
                    assert(now[i] == before[i]);
                }
            }
        }
        Ok(())
    }

    /// How many regions are placed.
    pub fn len(&self) -> (n: usize)
        ensures
            n == self@.len(),
    {
        self.placements.len()
    }

    /// Whether nothing is placed, which is how an edge with no map starts.
    pub fn is_empty(&self) -> (b: bool)
        ensures
            b == (self@.len() == 0),
    {
        self.placements.len() == 0
    }

    /// Every placement, in the order written.
    pub fn iter(&self) -> (places: &[(RegionId, Placement)])
        ensures
            places@ == self@,
    {
        self.placements.as_slice()
    }

    /// Where a region sits, or `None` for a region off the map.
    pub fn placement_of(&self, region: RegionId) -> (p: Option<Placement>)
        requires
            self.wf(),
        ensures
            p == square_of(self@, region),
    {
        match self.by_region.get(region.raw() as u64) {
            Some(p) => {
                proof {
                    let i = choose|i: int|
                        0 <= i < self@.len() && (#[trigger] self@[i]).0.0 == region.0 as u64;
                    assert(self@[i] == (region, *p));
                    assert(self@.contains((region, *p)));
                    lemma_one_square(self@, region, *p);
                }
                Some(*p)
            },
            None => {
                assert forall|p: Placement| !self@.contains((region, p)) by {
                    if self@.contains((region, p)) {
                        let i = choose|i: int| 0 <= i < self@.len() && self@[i] == (region, p);
                    }
                }
                None
            },
        }
    }

    /// Which region fills a square, if any.
    pub fn region_at(&self, square: Placement) -> (r: Option<RegionId>)
        requires
            self.wf(),
        ensures
            r == region_in(self@, square),
    {
        match self.by_square.get(square_key(square)) {
            Some(raw) => {
                proof {
                    let i = choose|i: int|
                        0 <= i < self@.len() && (#[trigger] self@[i]).1.key()
                            == square.key() as u64;
                    assert(self@[i] == (RegionId(*raw), square));
                    assert(self@.contains((RegionId(*raw), square)));
                    lemma_one_region(self@, RegionId(*raw), square);
                }
                Some(RegionId::from_raw(*raw))
            },
            None => {
                assert forall|r: RegionId| !self@.contains((r, square)) by {
                    if self@.contains((r, square)) {
                        let i = choose|i: int| 0 <= i < self@.len() && self@[i] == (r, square);
                    }
                }
                None
            },
        }
    }

    /// The region across one side of another, if a placed one is there.
    pub fn neighbor(&self, region: RegionId, side: Side) -> (r: Option<RegionId>)
        requires
            self.wf(),
        ensures
            r == neighbor_of(self@, region, side),
    {
        match self.placement_of(region) {
            Some(square) => self.region_at(square.beside(side)),
            None => None,
        }
    }

    /// The placed region a world position falls in, and the position inside
    /// it. `None` where no placed region is, or for a position too far from
    /// the origin for its square to be named.
    ///
    /// `region_size` is the world config's, which every placed region shares.
    /// The local position is always inside the box on `x` and `y`; `z` passes
    /// through and is the region's to accept.
    pub fn locate(&self, at: WorldPos, region_size: Fixed) -> (r: Option<(RegionId, Pos3)>)
        requires
            self.wf(),
            region_size.0 > 0,
        ensures
            r == located(self@, at, region_size),
    {
        let size: i64 = region_size.raw() as i64;
        proof {
            lemma_square_fits(at.x as int, size as int);
            lemma_square_fits(at.y as int, size as int);
        }
        let col: i64 = at.x.checked_div_euclid(size).unwrap();
        let row: i64 = at.y.checked_div_euclid(size).unwrap();
        let (lo, hi): (i64, i64) = (i32::MIN as i64, i32::MAX as i64);
        if col < lo || col > hi || row < lo || row > hi {
            return None;
        }
        let square = Placement::new(col as i32, row as i32);
        match self.region_at(square) {
            None => None,
            Some(region) => match at.to_local(square, region_size) {
                None => None,
                Some(local) => Some((region, local)),
            },
        }
    }

    /// The map as the bytes the bucket holds.
    pub fn encode(&self) -> (out: Vec<u8>)
        ensures
            out@ == map_bytes(self@),
    {
        let mut out: Vec<u8> = Vec::new();
        push_u32(&mut out, WorldMap::VERSION);
        let ghost head = out@;
        let mut i: usize = 0;
        assert(self.placements@.take(0) =~= Places::empty());
        assert(out@ =~= head + places_bytes(self.placements@.take(0)));
        while i < self.placements.len()
            invariant
                i <= self.placements@.len(),
                out@ == head + places_bytes(self.placements@.take(i as int)),
            decreases self.placements@.len() - i,
        {
            let (region, at) = self.placements[i];
            push_u32(&mut out, region.raw());
            push_i32(&mut out, at.col);
            push_i32(&mut out, at.row);
            proof {
                assert(self.placements@.take(i + 1).drop_last() =~= self.placements@.take(
                    i as int,
                ));
                assert(out@ =~= head + places_bytes(self.placements@.take(i + 1)));
            }
            i = i + 1;
        }
        assert(self.placements@.take(i as int) =~= self.placements@);
        out
    }

    /// Why a map's bytes are refused, if they are.
    pub open spec fn refusal(bytes: Seq<u8>) -> Option<MapError> {
        if bytes.len() < 4 || (bytes.len() - 4) % 12 != 0 {
            Some(MapError::BadLength(bytes.len() as usize))
        } else if le::from_le(bytes.take(4)) != WorldMap::VERSION {
            Some(MapError::UnknownVersion(le::from_le(bytes.take(4)) as u32))
        } else {
            first_fault(places_in(bytes, ((bytes.len() - 4) / 12) as nat))
        }
    }

    /// A map from the bytes the bucket holds. Refused whole on any fault.
    pub fn decode(bytes: &[u8]) -> (r: Result<WorldMap, MapError>)
        ensures
            match r {
                Ok(m) => {
                    &&& m.wf()
                    &&& WorldMap::refusal(bytes@) is None
                    &&& m@ == places_in(bytes@, ((bytes@.len() - 4) / 12) as nat)
                },
                Err(e) => WorldMap::refusal(bytes@) == Some(e),
            },
    {
        let len: usize = bytes.len();
        if len < 4 || (len - 4) % WorldMap::RECORD != 0 {
            return Err(MapError::BadLength(len));
        }
        let version: u32 = read_u32(bytes, 0);
        assert(bytes@.subrange(0, 4) =~= bytes@.take(4));
        if version != WorldMap::VERSION {
            return Err(MapError::UnknownVersion(version));
        }
        let ghost all = places_in(bytes@, ((bytes@.len() - 4) / 12) as nat);
        let mut map = WorldMap::new();
        let mut at: usize = 4;
        let ghost mut n: int = 0;
        assert(all.take(0) =~= Places::empty());
        while at < len
            invariant
                len == bytes@.len(),
                len >= 4,
                (len - 4) % 12 == 0,
                0 <= n <= all.len(),
                all == places_in(bytes@, ((bytes@.len() - 4) / 12) as nat),
                at == 4 + 12 * n,
                map.wf(),
                map@ == all.take(n),
                first_fault(all.take(n)) is None,
                le::from_le(bytes@.take(4)) == WorldMap::VERSION,
            decreases len - at,
        {
            assert(at + 12 <= len && n < all.len());
            let region = RegionId::from_raw(read_u32(bytes, at));
            let square = Placement::new(read_i32(bytes, at + 4), read_i32(bytes, at + 8));
            assert(all[n] == (region, square));
            proof {
                assert(all.take(n + 1).drop_last() =~= all.take(n));
                assert(all.take(n + 1) =~= all.take(n).push((region, square)));
            }
            match map.place(region, square) {
                Ok(_) => {},
                Err(e) => {
                    proof {
                        lemma_first_fault(all, n + 1);
                    }
                    return Err(e);
                },
            }
            at = at + 12;
            proof {
                n = n + 1;
            }
        }
        assert(all.take(n) =~= all);
        Ok(map)
    }
}

impl Default for WorldMap {
    /// A map with nothing on it.
    fn default() -> (m: WorldMap)
        ensures
            m.wf(),
            m@ == Places::empty(),
    {
        WorldMap::new()
    }
}

/// Which square a coordinate is in is no further out than the coordinate.
proof fn lemma_square_fits(v: int, size: int)
    requires
        size > 0,
    ensures
        v >= 0 ==> 0 <= v / size <= v,
        v < 0 ==> v <= v / size < 0,
{
    vstd::arithmetic::div_mod::lemma_fundamental_div_mod(v, size);
    let (q, r) = (v / size, v % size);
    assert(v >= 0 ==> 0 <= q <= v) by (nonlinear_arith)
        requires
            v == size * q + r,
            0 <= r < size,
            size > 0,
    ;
    assert(v < 0 ==> v <= q < 0) by (nonlinear_arith)
        requires
            v == size * q + r,
            0 <= r < size,
            size > 0,
    ;
}

/// On a map without repeats, a region's square is the only one it has.
proof fn lemma_one_square(places: Places, region: RegionId, at: Placement)
    requires
        distinct(places),
        places.contains((region, at)),
    ensures
        square_of(places, region) == Some(at),
{
    let p = choose|p: Placement| places.contains((region, p));
    let i = choose|i: int| 0 <= i < places.len() && places[i] == (region, at);
    let j = choose|j: int| 0 <= j < places.len() && places[j] == (region, p);
    assert(i == j);
}

/// On a map without repeats, a square's region is the only one in it.
proof fn lemma_one_region(places: Places, region: RegionId, at: Placement)
    requires
        distinct(places),
        places.contains((region, at)),
    ensures
        region_in(places, at) == Some(region),
{
    let r = choose|r: RegionId| places.contains((r, at));
    let i = choose|i: int| 0 <= i < places.len() && places[i] == (region, at);
    let j = choose|j: int| 0 <= j < places.len() && places[j] == (r, at);
    assert(i == j);
}

/// A fault among the first `n` placements is the fault of them all.
proof fn lemma_first_fault(places: Places, n: int)
    requires
        0 <= n <= places.len(),
        first_fault(places.take(n)) is Some,
    ensures
        first_fault(places) == first_fault(places.take(n)),
    decreases places.len() - n,
{
    if n < places.len() {
        assert(places.take(n + 1).drop_last() =~= places.take(n));
        lemma_first_fault(places, n + 1);
    } else {
        assert(places.take(n) =~= places);
    }
}

/// Placements without repeats have no fault.
proof fn lemma_no_fault(places: Places)
    requires
        distinct(places),
    ensures
        first_fault(places) is None,
    decreases places.len(),
{
    if places.len() > 0 {
        let front = places.drop_last();
        let (r, p) = places.last();
        assert forall|i: int, j: int| 0 <= i < j < front.len() implies (#[trigger] front[i]).0 != (
        #[trigger] front[j]).0 && front[i].1 != front[j].1 by {
            assert(front[i] == places[i] && front[j] == places[j]);
        }
        assert forall|i: int| 0 <= i < front.len() implies (#[trigger] front[i]).0.0
            < 0x8000_0000 by {
            assert(front[i] == places[i]);
        }
        lemma_no_fault(front);
        let last = places.len() - 1;
        assert(places[last] == (r, p));
        assert forall|q: Placement| !front.contains((r, q)) by {
            if front.contains((r, q)) {
                let i = choose|i: int| 0 <= i < front.len() && front[i] == (r, q);
                assert(places[i].0 != places[last].0);
            }
        }
        assert forall|s: RegionId| !front.contains((s, p)) by {
            if front.contains((s, p)) {
                let i = choose|i: int| 0 <= i < front.len() && front[i] == (s, p);
                assert(places[i].1 != places[last].1);
            }
        }
    }
}

/// One placement is twelve bytes, and is read back as it was written.
proof fn lemma_place_bytes(front: Seq<u8>, place: (RegionId, Placement), back: Seq<u8>)
    ensures
        place_bytes(place).len() == 12,
        place_at(front + place_bytes(place) + back, front.len() as int) == place,
{
    let (r, p) = place;
    le::lemma_le_len(r.0 as nat, 4);
    le::lemma_le_i32(p.col);
    le::lemma_le_i32(p.row);
    le::lemma_span();
    le::lemma_from_le_of_le(r.0 as nat, 4);
    let all = front + place_bytes(place) + back;
    let at = front.len() as int;
    assert(all.subrange(at, at + 4) =~= le::le_bytes(r.0 as nat, 4));
    assert(all.subrange(at + 4, at + 8) =~= le::le_i32(p.col));
    assert(all.subrange(at + 8, at + 12) =~= le::le_i32(p.row));
}

/// A run of placements is twelve bytes each.
proof fn lemma_places_len(places: Places)
    ensures
        places_bytes(places).len() == 12 * places.len(),
    decreases places.len(),
{
    if places.len() > 0 {
        lemma_places_len(places.drop_last());
        lemma_place_bytes(Seq::empty(), places.last(), Seq::empty());
    }
}

/// A run of placements is read back as it was written, whatever follows it.
proof fn lemma_places_back(head: Seq<u8>, places: Places, back: Seq<u8>)
    requires
        head.len() == 4,
    ensures
        places_in(head + places_bytes(places) + back, places.len()) == places,
    decreases places.len(),
{
    let bytes = head + places_bytes(places) + back;
    if places.len() > 0 {
        let front = places.drop_last();
        let tail = place_bytes(places.last()) + back;
        lemma_places_len(front);
        lemma_places_back(head, front, tail);
        assert(bytes =~= head + places_bytes(front) + tail);
        assert(bytes =~= (head + places_bytes(front)) + place_bytes(places.last()) + back);
        lemma_place_bytes(head + places_bytes(front), places.last(), back);
        assert forall|i: int| 0 <= i < places.len() implies place_at(bytes, 4 + 12 * i)
            == places[i] by {
            if i < front.len() {
                assert(places_in(bytes, front.len())[i] == front[i]);
            }
        }
    }
    assert(places_in(bytes, places.len()) =~= places);
}

/// Every map a bucket can hold comes back out of its own bytes, four plus
/// twelve per placement, as it went in.
pub proof fn law_a_map_round_trips(places: Places)
    requires
        distinct(places),
    ensures
        map_bytes(places).len() == 4 + 12 * places.len(),
        WorldMap::refusal(map_bytes(places)) is None,
        places_in(map_bytes(places), places.len()) == places,
{
    let head = le::le_bytes(WorldMap::VERSION as nat, 4);
    le::lemma_le_len(WorldMap::VERSION as nat, 4);
    le::lemma_span();
    le::lemma_from_le_of_le(WorldMap::VERSION as nat, 4);
    lemma_places_len(places);
    lemma_places_back(head, places, Seq::empty());
    lemma_no_fault(places);
    let bytes = map_bytes(places);
    assert(bytes =~= head + places_bytes(places) + Seq::empty());
    assert(bytes.take(4) =~= head);
    assert((bytes.len() - 4) / 12 == places.len());
}

/// A placement's bytes are the bytes it was read from.
proof fn lemma_place_again(bytes: Seq<u8>, at: int)
    requires
        0 <= at,
        at + 12 <= bytes.len(),
    ensures
        place_bytes(place_at(bytes, at)) == bytes.subrange(at, at + 12),
{
    let (a, b, c) = (
        bytes.subrange(at, at + 4),
        bytes.subrange(at + 4, at + 8),
        bytes.subrange(at + 8, at + 12),
    );
    le::lemma_span();
    le::lemma_from_le_bound(a);
    le::lemma_from_le_bound(b);
    le::lemma_from_le_bound(c);
    le::lemma_le_of_from_le(a);
    le::lemma_le_of_from_le(b);
    le::lemma_le_of_from_le(c);
    assert(bytes.subrange(at, at + 12) =~= a + b + c);
}

/// Placements' bytes are the bytes they were read from.
proof fn lemma_places_again(bytes: Seq<u8>, n: nat)
    requires
        4 + 12 * n <= bytes.len(),
    ensures
        places_bytes(places_in(bytes, n)) == bytes.subrange(4, 4int + 12 * n),
    decreases n,
{
    if n == 0 {
        assert(bytes.subrange(4, 4) =~= Seq::empty());
    } else {
        let m = (n - 1) as nat;
        lemma_places_again(bytes, m);
        lemma_place_again(bytes, 4int + 12 * m);
        assert(places_in(bytes, n).drop_last() =~= places_in(bytes, m));
        assert(bytes.subrange(4, 4int + 12 * n) =~= bytes.subrange(4, 4int + 12 * m) + bytes.subrange(
            4int + 12 * m,
            4int + 12 * n,
        ));
    }
}

/// Bytes that decode are the bytes of the map they decode to.
pub proof fn law_bytes_that_decode_are_their_maps(bytes: Seq<u8>)
    requires
        WorldMap::refusal(bytes) is None,
    ensures
        map_bytes(places_in(bytes, ((bytes.len() - 4) / 12) as nat)) == bytes,
{
    let n = ((bytes.len() - 4) / 12) as nat;
    lemma_places_again(bytes, n);
    le::lemma_le_of_from_le(bytes.take(4));
    assert(bytes =~= bytes.take(4) + bytes.subrange(4, 4int + 12 * n));
}

/// A decoded map is never one that repeats a region or a square.
pub proof fn law_a_map_that_decodes_repeats_nothing(bytes: Seq<u8>)
    requires
        WorldMap::refusal(bytes) is None,
    ensures
        distinct(places_in(bytes, ((bytes.len() - 4) / 12) as nat)),
{
    lemma_faultless(places_in(bytes, ((bytes.len() - 4) / 12) as nat));
}

/// Placements with no fault repeat nothing.
proof fn lemma_faultless(places: Places)
    requires
        first_fault(places) is None,
    ensures
        distinct(places),
    decreases places.len(),
{
    if places.len() > 0 {
        let front = places.drop_last();
        let last = places.len() - 1;
        lemma_faultless(front);
        assert forall|i: int, j: int| 0 <= i < j < places.len() implies (#[trigger] places[i]).0
            != (#[trigger] places[j]).0 && places[i].1 != places[j].1 by {
            assert(front[i] == places[i]);
            if j < last {
                assert(front[j] == places[j]);
            } else {
                assert(front.contains((places[i].0, places[i].1)));
            }
        }
        assert forall|i: int| 0 <= i < places.len() implies (#[trigger] places[i]).0.0
            < 0x8000_0000 by {
            if i < last {
                assert(front[i] == places[i]);
            }
        }
    }
}

/// Two regions face each other across one boundary: what lies east of one has
/// it to the west, and so for the other sides.
pub proof fn law_neighbors_face_each_other(places: Places, a: RegionId, side: Side, b: RegionId)
    requires
        distinct(places),
        neighbor_of(places, a, side) == Some(b),
    ensures
        neighbor_of(places, b, side.facing()) == Some(a),
{
    let here = square_of(places, a)->0;
    let there = here.across(side);
    assert(places.contains((a, here)));
    assert(places.contains((b, there)));
    lemma_one_square(places, b, there);
    assert(there.across(side.facing()) == here);
    lemma_one_region(places, a, here);
}

/// A located position is inside its region's box on the ground, is where the
/// map says that region's square is, and is the world position it came from.
pub proof fn law_a_located_position_is_in_its_square(places: Places, at: WorldPos, size: Fixed)
    requires
        distinct(places),
        size.0 > 0,
        located(places, at, size) is Some,
    ensures
        ({
            let (region, local) = located(places, at, size)->0;
            &&& 0 <= local.x.0 < size.0
            &&& 0 <= local.y.0 < size.0
            &&& square_of(places, region) is Some
            &&& WorldPos::of_local(local, square_of(places, region)->0, size) == at
        }),
{
    let (region, local) = located(places, at, size)->0;
    let (x, y, s) = (at.x as int, at.y as int, size.0 as int);
    let square = Placement { col: (x / s) as i32, row: (y / s) as i32 };
    assert(places.contains((region, square)));
    lemma_one_square(places, region, square);
    vstd::arithmetic::div_mod::lemma_fundamental_div_mod(x, s);
    vstd::arithmetic::div_mod::lemma_fundamental_div_mod(y, s);
    vstd::arithmetic::mul::lemma_mul_is_commutative(s, x / s);
    vstd::arithmetic::mul::lemma_mul_is_commutative(s, y / s);
}

/// A world position inside a placed region's square is located there, at its
/// offset from the square's corner.
pub proof fn law_a_position_in_a_placed_square_is_located(
    places: Places,
    region: RegionId,
    square: Placement,
    local: Pos3,
    at: WorldPos,
    size: Fixed,
)
    requires
        distinct(places),
        places.contains((region, square)),
        0 <= local.x.0 < size.0,
        0 <= local.y.0 < size.0,
        at.x == square.col * size.0 + local.x.0,
        at.y == square.row * size.0 + local.y.0,
        at.z == local.z.0,
    ensures
        located(places, at, size) == Some((region, local)),
        square_of(places, region) == Some(square),
        region_in(places, square) == Some(region),
{
    let s = size.0 as int;
    let (col, row) = (square.col as int, square.row as int);
    vstd::arithmetic::mul::lemma_mul_is_commutative(s, col);
    vstd::arithmetic::mul::lemma_mul_is_commutative(s, row);
    vstd::arithmetic::div_mod::lemma_fundamental_div_mod_converse(
        at.x as int,
        s,
        col,
        local.x.0 as int,
    );
    vstd::arithmetic::div_mod::lemma_fundamental_div_mod_converse(
        at.y as int,
        s,
        row,
        local.y.0 as int,
    );
    lemma_one_square(places, region, square);
    lemma_one_region(places, region, square);
    crate::pos::law_a_frame_is_an_offset(at, square, size, local);
}

/// A world position inside no placed region's square is located nowhere.
pub proof fn law_a_position_in_no_square_is_nowhere(places: Places, at: WorldPos, size: Fixed)
    requires
        size.0 > 0,
        forall|region: RegionId, square: Placement|
            #[trigger] places.contains((region, square)) ==> !(square.col * size.0 <= at.x
                < square.col * size.0 + size.0 && square.row * size.0 <= at.y < square.row * size.0
                + size.0),
    ensures
        located(places, at, size) is None,
{
    if located(places, at, size) is Some {
        let (x, y, s) = (at.x as int, at.y as int, size.0 as int);
        let square = Placement { col: (x / s) as i32, row: (y / s) as i32 };
        let region = region_in(places, square)->0;
        assert(places.contains((region, square)));
        vstd::arithmetic::div_mod::lemma_fundamental_div_mod(x, s);
        vstd::arithmetic::div_mod::lemma_fundamental_div_mod(y, s);
        vstd::arithmetic::mul::lemma_mul_is_commutative(s, x / s);
        vstd::arithmetic::mul::lemma_mul_is_commutative(s, y / s);
    }
}

/// A region that is placed in a square sits there and nowhere else, and no
/// other region does; one that is placed in no square sits nowhere.
pub proof fn law_a_placed_region_has_one_square(
    places: Places,
    region: RegionId,
    square: Placement,
)
    requires
        distinct(places),
    ensures
        square_of(places, region) == Some(square) <==> places.contains((region, square)),
        region_in(places, square) == Some(region) <==> places.contains((region, square)),
        square_of(places, region) is None <==> forall|p: Placement|
            !#[trigger] places.contains((region, p)),
        region_in(places, square) is None <==> forall|r: RegionId|
            !#[trigger] places.contains((r, square)),
{
    if places.contains((region, square)) {
        lemma_one_square(places, region, square);
        lemma_one_region(places, region, square);
    }
}

/// A map is the version of its format in four bytes and then twelve bytes for
/// each region placed: its id, its column and its row, in four bytes each.
pub proof fn law_a_map_is_laid_out_in_order(places: Places, k: int)
    ensures
        ({
            let b = map_bytes(places);
            &&& b.len() == 4 + 12 * places.len()
            &&& le::holds(b, 0, 4, 1)
            &&& 0 <= k < places.len() ==> {
                &&& le::holds(b, 4 + 12 * k, 4, places[k].0.0 as int)
                &&& le::holds_i32(b, 8 + 12 * k, places[k].1.col)
                &&& le::holds_i32(b, 12 + 12 * k, places[k].1.row)
            }
        }),
{
    let b = map_bytes(places);
    le::lemma_span();
    le::lemma_le_len(1, 4);
    lemma_placed_len(places);
    assert(b.subrange(0, 4) =~= le::le_bytes(1, 4));
    le::lemma_holds(b, 0, 4, 1);
    if 0 <= k < places.len() {
        let (region, at) = places[k];
        lemma_placed_at(places, k);
        let one = place_bytes(places[k]);
        le::lemma_le_len(region.0 as nat, 4);
        le::lemma_le_i32(at.col);
        le::lemma_le_i32(at.row);
        let c = places_bytes(places).subrange(12 * k, 12 * k + 12);
        assert(b.subrange(4 + 12 * k, 8 + 12 * k) =~= c.subrange(0, 4));
        assert(b.subrange(8 + 12 * k, 12 + 12 * k) =~= c.subrange(4, 8));
        assert(b.subrange(12 + 12 * k, 16 + 12 * k) =~= c.subrange(8, 12));
        assert(one.subrange(0, 4) =~= le::le_bytes(region.0 as nat, 4));
        assert(one.subrange(4, 8) =~= le::le_i32(at.col));
        assert(one.subrange(8, 12) =~= le::le_i32(at.row));
        le::lemma_holds(b, 4 + 12 * k, 4, region.0 as nat);
        le::lemma_holds(b, 8 + 12 * k, 4, le::bits32(at.col));
        le::lemma_holds(b, 12 + 12 * k, 4, le::bits32(at.row));
    }
}

proof fn lemma_placed_len(places: Places)
    ensures
        places_bytes(places).len() == 12 * places.len(),
    decreases places.len(),
{
    if places.len() > 0 {
        let last = places.last();
        lemma_placed_len(places.drop_last());
        le::lemma_le_len(last.0.0 as nat, 4);
        le::lemma_le_i32(last.1.col);
        le::lemma_le_i32(last.1.row);
    }
}

proof fn lemma_placed_at(places: Places, k: int)
    requires
        0 <= k < places.len(),
    ensures
        places_bytes(places).subrange(12 * k, 12 * k + 12) == place_bytes(places[k]),
    decreases places.len(),
{
    let front = places.drop_last();
    lemma_placed_len(front);
    lemma_placed_len(places);
    if k < front.len() {
        lemma_placed_at(front, k);
        assert(places_bytes(places).subrange(12 * k, 12 * k + 12) =~= places_bytes(front).subrange(
            12 * k,
            12 * k + 12,
        ));
    } else {
        assert(places_bytes(places).subrange(12 * k, 12 * k + 12) =~= place_bytes(places[k]));
    }
}

/// The square across a side is one column or one row on, east and north
/// counting up; and the region across a side is the one placed there.
pub proof fn law_a_neighbor_is_one_square_over(
    places: Places,
    region: RegionId,
    square: Placement,
    side: Side,
    other: RegionId,
)
    requires
        distinct(places),
        places.contains((region, square)),
        i32::MIN < square.col < i32::MAX,
        i32::MIN < square.row < i32::MAX,
    ensures
        ({
            let next = square.across(side);
            &&& next.col - square.col == match side {
                Side::East => 1int,
                Side::West => -1,
                _ => 0,
            }
            &&& next.row - square.row == match side {
                Side::North => 1int,
                Side::South => -1,
                _ => 0,
            }
            &&& neighbor_of(places, region, side) == Some(other) <==> places.contains(
                (other, next),
            )
        }),
{
    law_a_placed_region_has_one_square(places, region, square);
    law_a_placed_region_has_one_square(places, other, square.across(side));
}

} // verus!
