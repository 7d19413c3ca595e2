//! Ids, and minting them.

use umwelt::entity::EntityId;
use umwelt::id::{ClientId, EntityHandle, EntityKey, Mint, RegionId};

#[test]
fn ids_are_transparent() {
    assert_eq!(core::mem::size_of::<ClientId>(), core::mem::size_of::<u64>());
    assert_eq!(core::mem::size_of::<EntityKey>(), core::mem::size_of::<u64>());
    assert_eq!(core::mem::size_of::<EntityHandle>(), core::mem::size_of::<u32>());
    assert_eq!(core::mem::size_of::<RegionId>(), core::mem::size_of::<u32>());
}

#[test]
fn a_mint_never_repeats_and_never_hands_out_zero() {
    let mut m = Mint::new();
    let first = m.next();
    assert_ne!(first, 0);
    assert_eq!(m.next(), first + 1);
    assert_eq!(m.next(), first + 2);
}

#[test]
fn a_seeded_mint_carries_its_prefix_under_the_top_bit() {
    let mut m = Mint::seeded(0x1234);
    let first = m.next();
    assert_eq!(first >> 63, 1, "the top bit is set");
    assert_eq!((first >> 32) & 0x7fff_ffff, 0x1234, "the prefix is in the high half");
    assert_eq!(first & 0xffff_ffff, 1, "counting starts at one");
    assert_eq!(m.next(), first + 1);
}

#[test]
fn a_prefix_wider_than_31_bits_is_cut_to_31() {
    let a = Mint::seeded(0x8000_0001).next();
    let b = Mint::seeded(0x0000_0001).next();
    assert_eq!(a, b, "bit 31 of the prefix is not the top bit");
}

#[test]
fn two_seeds_never_meet() {
    let mut a = Mint::seeded(1);
    let mut b = Mint::seeded(2);
    let from_a: std::collections::HashSet<u64> = (0..1000).map(|_| a.next()).collect();
    assert!((0..1000).map(|_| b.next()).all(|k| !from_a.contains(&k)));
}

#[test]
fn a_composed_name_never_meets_a_minted_key() {
    let name = EntityKey::of_region(RegionId::from_raw(7), EntityId::from_raw(3));
    assert!(!name.minted_by_an_edge());
    assert_eq!(name.raw(), (7u64 << 32) | 3);
    let widest = EntityKey::of_region(
        RegionId::from_raw(0x7fff_ffff),
        EntityId::from_raw(u32::MAX),
    );
    assert!(!widest.minted_by_an_edge());
    let mut m = Mint::seeded(7);
    for _ in 0..1000 {
        let key = EntityKey::from_raw(m.next());
        assert!(key.minted_by_an_edge());
        assert_ne!(key, name);
    }
}
