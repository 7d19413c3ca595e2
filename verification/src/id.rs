//! Identifying participants in a world simulation at a logical level.
//! These IDs are transport agnostic and provide newtype identities
//! for regions, connections, edge-held entities, and game-held entities.
//!
//! It might seem excessive to have newtypes for IDs as understood by
//! each simulation, edge, and game client. However, since all of these
//! IDs are just numbers, the type system does some work here in avoiding
//! confusion at call sites.
//!
//! [`EntityId`] is the exception that can be found at the root of the crate.

use vstd::prelude::*;
use vstd::string::*;

use crate::entity::EntityId;
use crate::text;
use crate::text::labeled;

verus! {

/// Which region a simulation owns.
///
/// Typically assigned by a control plane but can also be explicitly set
/// in tests and rigid configuration scenarios.
#[derive(Clone, Copy, PartialEq, Eq, PartialOrd, Ord, Hash, Debug, Structural)]
pub struct RegionId(pub u32);

impl RegionId {
    /// From the raw value, which is how one crosses a wire.
    pub fn from_raw(raw: u32) -> (id: RegionId)
        ensures
            id == RegionId(raw),
    {
        RegionId(raw)
    }

    /// The raw value.
    pub fn raw(self) -> (raw: u32)
        ensures
            raw == self.0,
    {
        self.0
    }

    /// A region as a message names it, such as `region 7`.
    pub fn to_string(&self) -> (s: String)
        ensures
            s@ == "region "@ + text::decimal(self.0 as nat),
    {
        labeled("region ", self.0 as u64)
    }

    /// A region in short, such as `R7`.
    pub fn short(&self) -> (s: String)
        ensures
            s@ == "R"@ + text::decimal(self.0 as nat),
    {
        labeled("R", self.0 as u64)
    }
}

/// One live game client connection.
///
/// Whatever a game knows about *who* is behind a connection is the responsibility
/// of the game and not Umwelt.
#[derive(Clone, Copy, PartialEq, Eq, PartialOrd, Ord, Hash, Debug, Structural)]
pub struct ClientId(pub u64);

impl ClientId {
    /// From the raw value. Minting one is the edge's; this is for decoding.
    pub fn from_raw(raw: u64) -> (id: ClientId)
        ensures
            id == ClientId(raw),
    {
        ClientId(raw)
    }

    /// The raw value.
    pub fn raw(self) -> (raw: u64)
        ensures
            raw == self.0,
    {
        self.0
    }

    /// A client as a message names it, such as `client 7`.
    pub fn to_string(&self) -> (s: String)
        ensures
            s@ == "client "@ + text::decimal(self.0 as nat),
    {
        labeled("client ", self.0)
    }

    /// A client in short, such as `C7`.
    pub fn short(&self) -> (s: String)
        ensures
            s@ == "C"@ + text::decimal(self.0 as nat),
    {
        labeled("C", self.0)
    }
}

/// One entity this edge manages, wherever it is.
///
/// The edge's own name for an entity, minted when it asks a region for one and
/// valid before the region has answered. It doubles as the token an edge sends
/// with a spawn, which the region echoes back without looking inside, so an
/// edge needs no separate token space.
///
/// **Never reused**, for the same reason an [`EntityId`] is not: a stale key
/// must resolve to nothing rather than to a different entity.
#[derive(Clone, Copy, PartialEq, Eq, PartialOrd, Ord, Hash, Debug, Structural)]
pub struct EntityKey(pub u64);

/// The bit every seeded id carries, so a seeded id never equals a name a
/// region composes from its own id and an entity's.
pub const TOP: u64 = 0x8000_0000_0000_0000;

impl EntityKey {
    /// From the raw value, which is what a region echoes back as a token.
    pub fn from_raw(raw: u64) -> (key: EntityKey)
        ensures
            key == EntityKey(raw),
    {
        EntityKey(raw)
    }

    /// The raw value.
    pub fn raw(self) -> (raw: u64)
        ensures
            raw == self.0,
    {
        self.0
    }

    /// The name a region composes for an entity of its own.
    pub open spec fn composed(region: RegionId, id: EntityId) -> EntityKey {
        EntityKey((region.0 * 0x1_0000_0000 + id.0) as u64)
    }

    /// Whether an edge minted this key.
    pub open spec fn is_minted(self) -> bool {
        self.0 >= TOP
    }

    /// The name of an entity the region's own game spawned, which no edge
    /// minted a key for: the region in the high half, the entity's id in the
    /// low, and the top bit clear. A key an edge mints carries the top bit
    /// set, so the two never meet. A region's id has to fit 31 bits.
    pub fn of_region(region: RegionId, id: EntityId) -> (key: EntityKey)
        requires
            region.0 < 0x8000_0000,
        ensures
            key == EntityKey::composed(region, id),
            key.0 == region.0 * 0x1_0000_0000 + id.0,
            !key.is_minted(),
    {
        EntityKey(region.0 as u64 * 0x1_0000_0000 + id.0 as u64)
    }

    /// Whether an edge minted this key, as opposed to a region composing it.
    pub fn minted_by_an_edge(self) -> (b: bool)
        ensures
            b == self.is_minted(),
    {
        self.0 >= TOP
    }

    /// A key as a message names it, such as `entity key 7`.
    pub fn to_string(&self) -> (s: String)
        ensures
            s@ == "entity key "@ + text::decimal(self.0 as nat),
    {
        labeled("entity key ", self.0)
    }

    /// A key in short, such as `K7`.
    pub fn short(&self) -> (s: String)
        ensures
            s@ == "K"@ + text::decimal(self.0 as nat),
    {
        labeled("K", self.0)
    }
}

/// A game client's own name for one of its entities.
///
/// Minted when a game asks for an entity, and usable before any region has
/// answered: a move sent under one is held at the edge until the id arrives.
///
/// One connection's own numbering. **Never reused**, so a stale one names
/// nothing rather than a different entity, and it means nothing to any other
/// connection. A game holding entities in two regions at once tells them apart
/// by this, since [`EntityId`] is only unique within a region.
#[derive(Clone, Copy, PartialEq, Eq, PartialOrd, Ord, Hash, Debug, Structural)]
pub struct EntityHandle(pub u32);

impl EntityHandle {
    /// From the raw value.
    pub fn from_raw(raw: u32) -> (h: EntityHandle)
        ensures
            h == EntityHandle(raw),
    {
        EntityHandle(raw)
    }

    /// The raw value.
    pub fn raw(self) -> (raw: u32)
        ensures
            raw == self.0,
    {
        self.0
    }

    /// A handle as a message names it, such as `handle 7`.
    pub fn to_string(&self) -> (s: String)
        ensures
            s@ == "handle "@ + text::decimal(self.0 as nat),
    {
        labeled("handle ", self.0 as u64)
    }

    /// A handle in short, such as `H7`.
    pub fn short(&self) -> (s: String)
        ensures
            s@ == "H"@ + text::decimal(self.0 as nat),
    {
        labeled("H", self.0 as u64)
    }
}

/// Hands out ids that are never reused.
///
/// Starts at one, so zero is never a live id and a zeroed field is visibly not
/// one.
#[derive(Debug)]
pub struct Mint {
    upcoming: u64,
}

/// The id a mint that starts at `first` hands out after `n` others.
pub open spec fn issued(first: u64, n: nat) -> nat {
    (first + n) as nat % 0x1_0000_0000_0000_0000
}

/// The first id of a mint seeded with a prefix.
pub open spec fn seed(prefix: u32) -> u64 {
    (TOP + (prefix % 0x8000_0000u32) * 0x1_0000_0000 + 1) as u64
}

impl Mint {
    /// The id the next call hands out.
    pub closed spec fn upcoming(&self) -> u64 {
        self.upcoming
    }

    /// A mint that counts from one.
    pub fn new() -> (m: Mint)
        ensures
            m.upcoming() == 1,
    {
        Mint { upcoming: 1 }
    }

    /// A mint whose ids carry `prefix` in the high half with the top bit set,
    /// counting from one in the low half. Two mints with different prefixes
    /// never hand out the same id, which is what lets every edge mint entity
    /// keys without asking anyone. Only the low 31 bits of `prefix` are used.
    ///
    /// The low half runs into the prefix after 2^32 ids. An edge does not
    /// mint that many in one incarnation.
    pub fn seeded(prefix: u32) -> (m: Mint)
        ensures
            m.upcoming() == seed(prefix),
    {
        Mint { upcoming: TOP + (prefix % 0x8000_0000) as u64 * 0x1_0000_0000 + 1 }
    }

    /// The next id.
    pub fn next(&mut self) -> (id: u64)
        ensures
            id == old(self).upcoming(),
            final(self).upcoming() == issued(old(self).upcoming(), 1),
    {
        let id: u64 = self.upcoming;
        self.upcoming = id.wrapping_add(1);
        id
    }
}

/// What a mint hands out after `n` calls is where it started, `n` further on.
pub proof fn law_a_mint_counts_up(first: u64, n: nat)
    requires
        n < 0x1_0000_0000_0000_0000,
    ensures
        issued(first, 0) == first,
        issued(issued(first, n) as u64, 1) == issued(first, n + 1),
{
}

/// A mint does not hand out the same id twice before its numbers run out.
pub proof fn law_a_mint_never_repeats(first: u64, i: nat, j: nat)
    requires
        i < j,
        j - i < 0x1_0000_0000_0000_0000,
    ensures
        issued(first, i) != issued(first, j),
{
    let m = 0x1_0000_0000_0000_0000int;
    if issued(first, i) == issued(first, j) {
        vstd::arithmetic::div_mod::lemma_fundamental_div_mod(first + i, m);
        vstd::arithmetic::div_mod::lemma_fundamental_div_mod(first + j, m);
        let a = (first + i) / m;
        let b = (first + j) / m;
        assert(j - i == m * (b - a)) by (nonlinear_arith)
            requires
                first + i == m * a + (first + i) % m,
                first + j == m * b + (first + j) % m,
                (first + i) % m == (first + j) % m,
        ;
        assert(false) by (nonlinear_arith)
            requires
                j - i == m * (b - a),
                0 < j - i < m,
                m > 0,
        ;
    }
}

/// A mint that counts from one does not hand out zero before its numbers run
/// out.
pub proof fn law_a_mint_never_hands_out_zero(n: nat)
    requires
        n < 0xffff_ffff_ffff_ffff,
    ensures
        issued(1, n) != 0,
{
}

/// A seeded id carries its prefix under the top bit, and counts from one.
pub proof fn law_a_seeded_id_carries_its_prefix(prefix: u32, n: nat)
    requires
        n < 0xffff_ffff,
    ensures
        issued(seed(prefix), n) >= TOP,
        issued(seed(prefix), n) / 0x1_0000_0000 % 0x8000_0000 == prefix % 0x8000_0000u32,
        issued(seed(prefix), n) % 0x1_0000_0000 == n + 1,
{
}

/// Two seeds that differ in their low 31 bits never hand out the same id.
pub proof fn law_two_seeds_never_meet(a: u32, b: u32, i: nat, j: nat)
    requires
        a % 0x8000_0000u32 != b % 0x8000_0000u32,
        i < 0xffff_ffff,
        j < 0xffff_ffff,
    ensures
        issued(seed(a), i) != issued(seed(b), j),
{
    law_a_seeded_id_carries_its_prefix(a, i);
    law_a_seeded_id_carries_its_prefix(b, j);
}

/// A name a region composes never equals a key an edge minted, and two
/// different entities never share a composed name.
pub proof fn law_a_composed_name_never_meets_a_minted_key(
    region: RegionId,
    id: EntityId,
    other_region: RegionId,
    other_id: EntityId,
    prefix: u32,
    n: nat,
)
    requires
        region.0 < 0x8000_0000,
        other_region.0 < 0x8000_0000,
        n < 0xffff_ffff,
    ensures
        EntityKey::composed(region, id).0 != issued(seed(prefix), n),
        EntityKey::composed(region, id) == EntityKey::composed(other_region, other_id)
            ==> region == other_region && id == other_id,
{
    law_a_seeded_id_carries_its_prefix(prefix, n);
}

} // verus!
