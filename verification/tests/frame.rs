//! Frames.

use umwelt::net::error::NetError;
use umwelt::net::region::wire::{read_frame, write_frame, HEADER_BYTES, MAX_FRAME_BYTES};
use umwelt::net::wire::Cursor;

#[test]
fn a_frame_round_trips() {
    let mut wire = Vec::new();
    write_frame(&mut wire, 7, b"body bytes").expect("writes to a vec");

    let mut body = Vec::new();
    let (kind, _) = read_frame(&wire, &mut body).expect("well formed");
    assert_eq!(kind, 7);
    assert_eq!(body, b"body bytes");
}

#[test]
fn an_empty_body_is_a_frame() {
    let mut wire = Vec::new();
    write_frame(&mut wire, 4, &[]).expect("writes to a vec");
    assert_eq!(wire.len(), HEADER_BYTES);

    let mut body = Vec::new();
    assert_eq!(read_frame(&wire, &mut body).expect("well formed").0, 4);
    assert!(body.is_empty());
}

#[test]
fn a_length_past_the_cap_is_refused_before_it_allocates() {
    let mut wire = vec![1u8];
    wire.extend_from_slice(&(u32::MAX).to_le_bytes());
    let mut body = Vec::new();
    match read_frame(&wire, &mut body) {
        Err(NetError::FrameTooLarge { claimed, max }) => {
            assert_eq!(claimed, u32::MAX as usize);
            assert_eq!(max, MAX_FRAME_BYTES);
        }
        other => panic!("a 4 GB claim must be refused, got {other:?}"),
    }
    assert!(body.capacity() < MAX_FRAME_BYTES + 1, "nothing was allocated for the claim");
}

#[test]
fn a_truncated_frame_reads_as_closed() {
    let mut wire = Vec::new();
    write_frame(&mut wire, 2, b"twenty four bytes of body").expect("writes to a vec");
    for cut in 0..wire.len() {
        let mut body = Vec::new();
        assert!(
            matches!(read_frame(&wire[..cut], &mut body), Err(NetError::Closed)),
            "a frame {cut} bytes in must not parse"
        );
    }
}

#[test]
fn the_buffer_is_reused_across_frames() {
    let mut wire = Vec::new();
    write_frame(&mut wire, 1, &[9u8; 64]).expect("writes to a vec");
    write_frame(&mut wire, 1, &[9u8; 8]).expect("writes to a vec");

    let mut body = Vec::new();
    let (_, taken) = read_frame(&wire, &mut body).expect("well formed");
    let cap = body.capacity();
    read_frame(&wire[taken..], &mut body).expect("well formed");
    assert_eq!(body.len(), 8, "the second frame is shorter");
    assert_eq!(body.capacity(), cap, "and it reused the first frame's allocation");
}

#[test]
fn a_cursor_refuses_to_run_off_the_end() {
    let mut c = Cursor::new(&[1, 2, 3], "test frame");
    assert_eq!(c.u16().expect("two bytes are there"), 0x0201);
    assert!(matches!(c.u32(), Err(NetError::Malformed("test frame"))));
}

#[test]
fn a_cursor_refuses_trailing_bytes() {
    let mut c = Cursor::new(&[1, 2, 3, 4], "test frame");
    c.u16().expect("two bytes are there");
    assert!(matches!(c.finish(), Err(NetError::Malformed("test frame"))));
}

#[test]
fn a_cursor_reads_every_width() {
    let mut buf = Vec::new();
    buf.push(0xABu8);
    buf.extend_from_slice(&0x1234u16.to_le_bytes());
    buf.extend_from_slice(&0xDEAD_BEEFu32.to_le_bytes());
    buf.extend_from_slice(&(-7i32).to_le_bytes());
    buf.extend_from_slice(&0x0123_4567_89AB_CDEFu64.to_le_bytes());
    buf.extend_from_slice(b"tail");

    let mut c = Cursor::new(&buf, "test frame");
    assert_eq!(c.u8().unwrap(), 0xAB);
    assert_eq!(c.u16().unwrap(), 0x1234);
    assert_eq!(c.u32().unwrap(), 0xDEAD_BEEF);
    assert_eq!(c.i32().unwrap(), -7);
    assert_eq!(c.u64().unwrap(), 0x0123_4567_89AB_CDEF);
    assert_eq!(c.bytes(4).unwrap(), b"tail");
    assert!(c.finish().is_ok());
}
