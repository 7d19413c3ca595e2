//! A game client and its edge, through what they say to each other.

use umwelt::entity::{EntityId, EntityKind};
use umwelt::id::{EntityHandle, EntityKey, RegionId};
use umwelt::net::edge::client::{read_stream, EdgeClient, FromEdge};
use umwelt::net::edge::model::Outgoing;
use umwelt::net::edge::pile::Dispatch;
use umwelt::net::edge::protocol::{Framer, FromClient, ToClient};
use umwelt::net::edge::server::{mint_name, on_stream, transport_of, Transport};
use umwelt::net::region::protocol::Spawn;
use umwelt::pos::{Pos3, WorldPos};

fn r(n: u32) -> RegionId {
    RegionId::from_raw(n)
}

fn h(n: u32) -> EntityHandle {
    EntityHandle::from_raw(n)
}

#[test]
fn a_state_packet_is_sliced_out_of_its_datagram() {
    let mut body = Vec::new();
    ToClient::State { handle: h(3), region: r(9), packet: b"seen" }.encode(&mut body);
    let datagram = bytes::Bytes::from(body);
    match FromEdge::in_datagram(&datagram) {
        Some(FromEdge::State { handle, region, packet }) => {
            assert_eq!((handle, region), (h(3), r(9)));
            assert_eq!(&packet[..], b"seen");
            assert_eq!(packet.as_ptr(), datagram[9..].as_ptr(), "not copied");
        }
        other => panic!("{other:?}"),
    }
    let mut body = Vec::new();
    ToClient::Message(b"chat").encode(&mut body);
    assert!(matches!(
        FromEdge::in_datagram(&bytes::Bytes::from(body)),
        Some(FromEdge::Message(text)) if text == b"chat"
    ));
    assert!(FromEdge::in_datagram(&bytes::Bytes::from_static(&[200])).is_none());
}

#[test]
fn a_state_packet_off_the_stream_is_kept_in_memory_of_its_own() {
    let mut body = Vec::new();
    ToClient::State { handle: h(3), region: r(9), packet: b"seen" }.encode(&mut body);
    match FromEdge::decode(&body) {
        Some(FromEdge::State { packet, .. }) => {
            assert_eq!(&packet[..], b"seen");
            assert_ne!(packet.as_ptr(), body[9..].as_ptr());
        }
        other => panic!("{other:?}"),
    }
    assert!(FromEdge::decode(&[]).is_none());
}

#[test]
fn a_stream_is_read_past_a_bad_message_and_stops_at_a_bad_length() {
    let mut wire = on_stream(&ToClient::Removed { handle: h(1) });
    let mut framed = Vec::new();
    Framer::frame(&[200, 1], &mut framed);
    wire.extend_from_slice(&framed);
    wire.extend_from_slice(&on_stream(&ToClient::Teleported { handle: h(2), region: r(4) }));
    let mut framer = Framer::new();
    let (half, broken) = read_stream(&mut framer, &wire[..7]);
    assert!(half.is_empty() && !broken);
    let (kept, broken) = read_stream(&mut framer, &wire[7..]);
    assert!(!broken);
    assert_eq!(kept.len(), 2, "the bad one is dropped");
    assert!(matches!(kept[0], FromEdge::Removed { handle } if handle == h(1)));
    assert!(
        matches!(kept[1], FromEdge::Teleported { handle, region } if handle == h(2) && region == r(4))
    );
    let (kept, broken) = read_stream(&mut framer, &u32::MAX.to_le_bytes());
    assert!(kept.is_empty() && broken);
}

#[test]
fn handles_are_spent_in_order_and_commands_ride_what_they_should() {
    let mut client = EdgeClient::new();
    let at = WorldPos::from_meters(1, 2, 3);
    let (first, framed) = client.spawn(at, EntityKind::observer(0));
    let (second, into) = client.spawn_into(r(9), at, EntityKind::unattended(1));
    assert_eq!((first.raw(), second.raw()), (1, 2));
    let mut framer = Framer::new();
    framer.push(&framed);
    framer.push(&into);
    let (bodies, broken) = framer.take_all();
    assert!(!broken);
    assert_eq!(
        FromClient::decode(&bodies[0]).unwrap(),
        FromClient::Spawn { handle: first, position: at, kind: EntityKind::observer(0) }
    );
    assert_eq!(
        FromClient::decode(&bodies[1]).unwrap(),
        FromClient::SpawnInto {
            handle: second,
            region: r(9),
            position: at,
            kind: EntityKind::unattended(1)
        }
    );
    let moved = client.move_entities(&[(first, at), (second, at)]);
    assert_eq!(moved.len(), 2);
    assert_eq!(
        FromClient::decode(&moved[1]).unwrap(),
        FromClient::Move { handle: second, position: at }
    );
    assert_eq!(client.move_entity(first, at), moved[0]);
    let mut framer = Framer::new();
    framer.push(&client.despawn(first));
    framer.push(&client.send(b"hi"));
    let (bodies, _) = framer.take_all();
    assert_eq!(FromClient::decode(&bodies[0]).unwrap(), FromClient::Despawn { handle: first });
    assert_eq!(FromClient::decode(&bodies[1]).unwrap(), FromClient::Message(b"hi".to_vec()));
    assert_eq!(client.send_datagram(b"hi"), bodies[1]);
}

#[test]
fn what_is_said_to_regions_is_sorted_by_region() {
    let spawn = |token| Spawn {
        position: Pos3::zero(),
        kind: EntityKind::observer(0),
        token,
    };
    let key = EntityKey::from_raw(1);
    let e = EntityId::from_raw(5);
    let sorted = Dispatch::sort(vec![
        Outgoing::Despawn(r(1), e),
        Outgoing::Spawn(r(2), spawn(1), key),
        Outgoing::Message(r(1), e, b"a".to_vec()),
        Outgoing::Spawn(r(1), spawn(2), key),
        Outgoing::Spawn(r(2), spawn(3), key),
        Outgoing::Message(r(1), e, b"b".to_vec()),
    ]);
    let mut tokens: Vec<(u32, Vec<u64>)> = sorted
        .spawns
        .iter()
        .map(|p| (p.region.raw(), p.items.iter().map(|s| s.token).collect()))
        .collect();
    tokens.sort();
    assert_eq!(tokens, vec![(1, vec![2]), (2, vec![1, 3])]);
    assert_eq!(sorted.messages.len(), 1);
    assert_eq!(sorted.messages[0].items, vec![(e, b"a".to_vec()), (e, b"b".to_vec())]);
    assert_eq!(sorted.gone.len(), 1);
    assert_eq!(sorted.gone[0].items, vec![e]);
}

#[test]
fn only_state_rides_a_datagram() {
    assert_eq!(
        transport_of(&ToClient::State { handle: h(1), region: r(1), packet: b"" }),
        Transport::Datagram
    );
    assert_eq!(transport_of(&ToClient::Message(b"")), Transport::Stream);
}

#[test]
fn a_name_is_minted_from_forty_eight_bits() {
    assert_eq!(mint_name(0), "edge-000000000000");
    assert_eq!(mint_name(0xffff_0123_4567_89ab), "edge-0123456789ab");
    assert_ne!(mint_name(0xffff_0123_4567_89ab), mint_name(0xffff_0123_4567_89ac));
}
