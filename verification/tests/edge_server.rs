//! An edge's name.

use std::collections::HashSet;

use umwelt::net::edge::server::mint_name;
use umwelt::net::region::names::EdgeName;

#[test]
fn a_minted_name_is_a_valid_subject_token() {
    for n in 0..100u64 {
        let name = mint_name(n.wrapping_mul(0x9e37_79b9_7f4a_7c15));
        EdgeName::new(&name).unwrap_or_else(|e| panic!("{name:?}: {}", e.to_string()));
    }
}

#[test]
fn two_edges_started_together_do_not_share_a_name() {
    let names: HashSet<String> = (0..64u64).map(|n| mint_name(n)).collect();
    assert_eq!(names.len(), 64, "a name repeated within one process");
}
