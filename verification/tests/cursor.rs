//! Reading fields off a message.

use umwelt::net::error::NetError;
use umwelt::net::wire::Cursor;

#[test]
fn wire_a_cursor_refuses_to_run_off_the_end() {
    let mut c = Cursor::new(&[1, 2, 3], "test");
    assert_eq!(c.u16().expect("two bytes are there"), 0x0201);
    assert!(matches!(c.u32(), Err(NetError::Malformed("test"))));
}

#[test]
fn wire_a_cursor_refuses_trailing_bytes() {
    let mut c = Cursor::new(&[1, 2, 3, 4], "test");
    c.u16().expect("two bytes are there");
    assert!(matches!(c.finish(), Err(NetError::Malformed("test"))));
}

#[test]
fn wire_a_cursor_reads_every_width() {
    let mut buf = vec![0xABu8];
    buf.extend_from_slice(&0x1234u16.to_le_bytes());
    buf.extend_from_slice(&0xDEAD_BEEFu32.to_le_bytes());
    buf.extend_from_slice(&(-7i32).to_le_bytes());
    buf.extend_from_slice(&0x0123_4567_89AB_CDEFu64.to_le_bytes());
    buf.extend_from_slice(b"tail");

    let mut c = Cursor::new(&buf, "test");
    assert_eq!(c.u8().unwrap(), 0xAB);
    assert_eq!(c.u16().unwrap(), 0x1234);
    assert_eq!(c.u32().unwrap(), 0xDEAD_BEEF);
    assert_eq!(c.i32().unwrap(), -7);
    assert_eq!(c.u64().unwrap(), 0x0123_4567_89AB_CDEF);
    assert!(matches!(c.finish(), Err(NetError::Malformed("test"))), "tail is left over");
}
