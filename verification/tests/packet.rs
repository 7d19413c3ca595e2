//! One tick for one viewer, as bytes.

use umwelt::budget::DEFAULT_HEADER_BYTES;
use umwelt::codec::RecordCodec;
use umwelt::config::WorldConfig;
use umwelt::entity::EntityId;
use umwelt::fixed::Fixed;
use umwelt::packet::{PacketHeader, PacketWriter, TickObservation};
use umwelt::pos::Pos3;

fn codec() -> RecordCodec {
    RecordCodec::new(&WorldConfig::default())
}

fn id(n: u32) -> EntityId {
    EntityId::from_raw(n)
}

#[test]
fn a_header_is_the_sixteen_bytes_the_budget_assumed() {
    assert_eq!(PacketHeader::BYTES, DEFAULT_HEADER_BYTES as usize);
    let mut buf = Vec::new();
    PacketHeader::default().encode(&mut buf);
    assert_eq!(buf.len(), PacketHeader::BYTES);
}

#[test]
fn a_header_round_trips() {
    let h = PacketHeader {
        tick: 0xDEAD_BEEF,
        sequence: 0x1234,
        ack: 0x5678,
        ack_bits: 0xAABB_CCDD,
        despawns: 7,
        updates: 91,
    };
    let mut buf = Vec::new();
    h.encode(&mut buf);
    assert_eq!(PacketHeader::decode(&buf), Some(h));
}

#[test]
fn a_short_buffer_holds_no_header() {
    assert_eq!(PacketHeader::decode(&[0u8; 15]), None);
}

#[test]
fn a_payload_round_trips() {
    let c = codec();
    let mut w = PacketWriter::new(c.clone(), 1200);
    let gone = [id(4), id(9)];
    let moved = vec![
        (id(1), Pos3::from_meters(100, 200, 5), 0u16),
        (
            id(2),
            Pos3::new(
                Fixed::from_millimeters(7, 500),
                Fixed::zero(),
                Fixed::from_meters(3),
            ),
            42,
        ),
        (id(3), Pos3::from_meters(4095, 4095, 1023), 999),
    ];

    let bytes = w.build(77, 5, &gone, &moved);
    let r = TickObservation::new(&c, bytes).expect("well formed");

    assert_eq!(r.header().tick, 77);
    assert_eq!(r.header().sequence, 5);
    assert_eq!(r.header().despawns, 2);
    assert_eq!(r.header().updates, 3);
    assert_eq!(r.despawns(), gone);
    assert_eq!(r.updates(), moved);
}

#[test]
fn an_empty_payload_is_just_a_header() {
    let c = codec();
    let mut w = PacketWriter::new(c.clone(), 1200);
    let bytes = w.build(1, 1, &[], &[]);
    assert_eq!(bytes.len(), PacketHeader::BYTES);
    let r = TickObservation::new(&c, bytes).expect("well formed");
    assert_eq!(r.despawns().len(), 0);
    assert_eq!(r.updates().len(), 0);
}

#[test]
fn a_payload_is_a_header_then_its_records() {
    let c = codec();
    let mut w = PacketWriter::new(c.clone(), 1200);
    let gone: Vec<EntityId> = (0..5).map(id).collect();
    let moved: Vec<(EntityId, Pos3, u16)> =
        (0..30).map(|k| (id(100 + k), Pos3::from_meters(k as i32, 0, 0), 0)).collect();
    // 16 header + 5 × 4 despawns + 30 × 14 records = 16 + 20 + 420 = 456
    assert_eq!(w.build(1, 1, &gone, &moved).len(), 16 + 5 * 4 + 30 * 14);
}

#[test]
fn a_full_packet_of_records_fits_the_budget() {
    // 1200 - 16 = 1184, and 1184 / 14 = 84 with 8 bytes left over.
    let c = codec();
    let mut w = PacketWriter::new(c.clone(), 1200);
    let moved: Vec<(EntityId, Pos3, u16)> =
        (0..84).map(|k| (id(k), Pos3::from_meters(k as i32, 0, 0), 0)).collect();
    assert_eq!(w.build(1, 1, &[], &moved).len(), 16 + 84 * 14);
    assert!(w.build(1, 1, &[], &[]).len() <= 1200);
}

#[test]
fn a_truncated_payload_is_refused() {
    let c = codec();
    let mut w = PacketWriter::new(c.clone(), 1200);
    let moved = vec![(id(1), Pos3::from_meters(1, 2, 3), 0u16)];
    let bytes = w.build(1, 1, &[id(9)], &moved).to_vec();
    for cut in 1..bytes.len() {
        assert!(
            TickObservation::new(&c, &bytes[..cut]).is_none(),
            "a payload {cut} bytes short must not parse"
        );
    }
}

#[test]
fn the_buffer_is_reused_across_payloads() {
    let c = codec();
    let mut w = PacketWriter::new(c.clone(), 1200);
    let moved: Vec<(EntityId, Pos3, u16)> =
        (0..84).map(|k| (id(k), Pos3::from_meters(k as i32, 0, 0), 0)).collect();
    w.build(1, 1, &[], &moved);
    let at = w.payload().as_ptr();
    for tick in 2..200u32 {
        w.build(tick, tick as u16, &[id(1)], &moved);
    }
    assert_eq!(w.payload().as_ptr(), at, "steady state must not reallocate");
}
