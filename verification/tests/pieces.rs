//! Small pieces the rest is built from.

use umwelt::fixed::Fixed;
use umwelt::net::beat::{Beat, HEARTBEAT_GRANULARITY};
use umwelt::net::error::NetError;
use umwelt::net::region::wire::{read_frame, write_frame, write_frame_parts, MAX_FRAME_BYTES};
use umwelt::net::version::parse_u16;

#[test]
fn a_frame_in_parts_is_the_frame_of_the_whole() {
    let mut whole = Vec::new();
    write_frame(&mut whole, 9, b"id and payload").expect("fits");
    let mut parts = Vec::new();
    let pieces: [&[u8]; 3] = [b"id ", b"", b"and payload"];
    write_frame_parts(&mut parts, 9, &pieces).expect("fits");
    assert_eq!(parts, whole);

    let mut body = Vec::new();
    assert_eq!(read_frame(&parts, &mut body).expect("well formed").0, 9);
    assert_eq!(body, b"id and payload");
}

#[test]
fn parts_past_the_cap_write_nothing() {
    let half = vec![0u8; MAX_FRAME_BYTES / 2 + 1];
    let pieces: [&[u8]; 2] = [&half, &half];
    let mut out = vec![1u8, 2];
    match write_frame_parts(&mut out, 1, &pieces) {
        Err(NetError::FrameTooLarge { claimed, max }) => {
            assert_eq!(claimed, 2 * half.len());
            assert_eq!(max, MAX_FRAME_BYTES);
        }
        other => panic!("too much for one frame, got {other:?}"),
    }
    assert_eq!(out, [1, 2]);
}

#[test]
fn a_version_component_is_a_decimal() {
    assert_eq!(parse_u16(b""), 0);
    assert_eq!(parse_u16(b"0"), 0);
    assert_eq!(parse_u16(b"42"), 42);
    assert_eq!(parse_u16(b"65535"), u16::MAX);
}

#[test]
fn a_heartbeat_comes_once_an_interval() {
    let mut beat = Beat::new();
    beat.set_interval(3 * HEARTBEAT_GRANULARITY);
    let due: Vec<bool> = (0..6).map(|_| beat.wake()).collect();
    assert_eq!(due, [false, false, true, false, false, true]);
}

#[test]
fn no_interval_is_no_heartbeat() {
    let mut beat = Beat::new();
    beat.set_interval(0);
    assert!((0..1000).all(|_| !beat.wake()));
    beat.set_interval(1);
    assert!(beat.wake());
}

#[test]
fn lengths_add_and_turn_about() {
    let mut at = Fixed::from_meters(3) + Fixed::from_meters(-5);
    assert_eq!(at, Fixed::from_meters(-2));
    assert_eq!(-at, Fixed::from_meters(2));
    at.add_assign(Fixed::from_meters(4));
    assert_eq!(at, Fixed::from_meters(2));
    at.sub_assign(Fixed::epsilon());
    assert_eq!(at.raw(), Fixed::from_meters(2).raw() - 1);
    assert_eq!(at - Fixed::from_meters(2), -Fixed::epsilon());
}
