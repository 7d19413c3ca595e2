//! What goes wrong on a link.

use umwelt::net::error::NetError;

#[test]
fn an_io_error_keeps_its_source() {
    let e = NetError::Io(String::from("no broker"));
    assert!(e.source().is_some(), "a consumer chaining causes needs the inner error");
}

#[test]
fn a_malformed_message_names_what_was_read_and_not_the_bytes() {
    let shown = NetError::Malformed("move entities").to_string();
    assert_eq!(shown, "malformed move entities");
}
