//! Who may relay for a region.

use umwelt::net::region::auth::{AllowAll, Authorizer, Denied, SharedSecret};

#[test]
fn the_right_secret_authorizes() {
    let a = SharedSecret::new(b"region-7-edge-key");
    assert_eq!(a.authorize(b"region-7-edge-key"), Ok(()));
}

#[test]
fn a_wrong_secret_does_not() {
    let a = SharedSecret::new(b"region-7-edge-key");
    assert_eq!(a.authorize(b"region-8-edge-key"), Err(Denied));
    assert_eq!(a.authorize(b""), Err(Denied));
    assert_eq!(a.authorize(b"region-7-edge-key-and-more"), Err(Denied));
    assert_eq!(a.authorize(b"region-7-edge-ke"), Err(Denied));
}

#[test]
fn a_prefix_of_the_secret_does_not_authorize() {
    // The failure a short-circuiting compare would make cheap to find.
    let a = SharedSecret::new(b"abcdefgh");
    for n in 0..8 {
        assert_eq!(a.authorize(&b"abcdefgh"[..n]), Err(Denied));
    }
}

#[test]
fn a_secret_does_not_print_itself() {
    let a = SharedSecret::new(b"hunter2");
    let shown = a.redacted();
    assert!(!shown.contains("hunter2"), "Debug leaked the secret: {shown}");
    assert!(shown.contains("redacted"));
}

#[test]
fn allow_all_takes_anything() {
    assert_eq!(AllowAll.authorize(b""), Ok(()));
    assert_eq!(AllowAll.authorize(b"whatever"), Ok(()));
    assert_eq!(core::mem::size_of::<AllowAll>(), 0, "the test default costs nothing to hold");
}

#[test]
fn an_authorizer_can_be_held_behind_a_trait_object() {
    // The shape RegionServer stores it in.
    let held: std::sync::Arc<dyn Authorizer> = std::sync::Arc::new(SharedSecret::new(b"k"));
    assert_eq!(held.authorize(b"k"), Ok(()));
}
