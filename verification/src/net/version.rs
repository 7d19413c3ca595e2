//! The version numbers both links and the control plane report.
//!
//! Two separate things. A [`ProtocolVersion`] says what shape the messages on
//! a link have, and has to match exactly. A [`ServerVersion`] says which build
//! is running, and nothing rejects on it. A world's wire layout is a third,
//! carried as
//! [`WorldConfig::protocol_hash`](crate::config::WorldConfig::protocol_hash),
//! and all three move independently.
//!
//! They live here rather than beside either protocol because each link carries
//! its own protocol version, and the control plane and
//! [`NetError`](crate::net::NetError) name these types without belonging to
//! either link.

use vstd::prelude::*;
use vstd::string::*;

use crate::text;
use crate::text::{labeled, push_decimal};

verus! {

/// The version of one protocol.
///
/// Bumped when that protocol's messages change shape. Each link owns its own
/// value.
#[derive(Clone, Copy, PartialEq, Eq, PartialOrd, Ord, Hash, Debug, Structural)]
pub struct ProtocolVersion(pub u16);

impl ProtocolVersion {
    /// From the raw value.
    pub fn from_raw(raw: u16) -> (v: ProtocolVersion)
        ensures
            v == ProtocolVersion(raw),
    {
        ProtocolVersion(raw)
    }

    /// The raw value.
    pub fn raw(self) -> (raw: u16)
        ensures
            raw == self.0,
    {
        self.0
    }

    /// The version as text, such as `v1`.
    pub open spec fn text(self) -> Seq<char> {
        "v"@ + text::decimal(self.0 as nat)
    }

    /// The version as text, such as `v1`.
    pub fn to_string(&self) -> (s: String)
        ensures
            s@ == self.text(),
    {
        labeled("v", self.0 as u64)
    }
}

/// The crate version a server is running.
///
/// Informational: it is reported so an operator can see what a region or an
/// edge is running without asking it, and nothing rejects on it. A protocol
/// version is what has to match.
#[derive(Clone, Copy, Debug, PartialEq, Eq, PartialOrd, Ord, Hash, Structural)]
pub struct ServerVersion {
    /// Breaking changes.
    pub major: u16,
    /// Additions.
    pub minor: u16,
    /// Fixes.
    pub patch: u16,
}

impl ServerVersion {
    /// The version this crate is at.
    pub open spec fn this() -> ServerVersion {
        ServerVersion { major: 0, minor: 1, patch: 0 }
    }

    /// The version this crate is at.
    pub fn current() -> (v: ServerVersion)
        ensures
            v == ServerVersion::this(),
    {
        ServerVersion { major: 0, minor: 1, patch: 0 }
    }

    /// The version as text, such as `0.1.0`.
    pub open spec fn text(self) -> Seq<char> {
        text::decimal(self.major as nat) + "."@ + text::decimal(self.minor as nat) + "."@
            + text::decimal(self.patch as nat)
    }

    /// The version as text, such as `0.1.0`.
    pub fn to_string(&self) -> (s: String)
        ensures
            s@ == self.text(),
    {
        let mut s = String::new();
        push_decimal(&mut s, self.major as u64);
        s.append(".");
        push_decimal(&mut s, self.minor as u64);
        s.append(".");
        push_decimal(&mut s, self.patch as u64);
        assert(s@ =~= self.text());
        s
    }
}

/// Whether every byte is a decimal digit.
pub open spec fn all_digits(s: Seq<u8>) -> bool {
    forall|i: int| 0 <= i < s.len() ==> 48 <= #[trigger] s[i] <= 57
}

/// The number a run of decimal digits spells.
pub open spec fn digits_value(s: Seq<u8>) -> nat
    decreases s.len(),
{
    if s.len() == 0 {
        0
    } else {
        10 * digits_value(s.drop_last()) + (s.last() - 48) as nat
    }
}

/// A shorter run of the same digits spells no larger a number.
pub proof fn lemma_prefix_value(s: Seq<u8>, i: int)
    requires
        all_digits(s),
        0 <= i <= s.len(),
    ensures
        digits_value(s.take(i)) <= digits_value(s),
    decreases s.len() - i,
{
    if i == s.len() {
        assert(s.take(i) =~= s);
    } else {
        lemma_prefix_value(s, i + 1);
        assert(s.take(i + 1).drop_last() =~= s.take(i));
    }
}

/// Reads one component of a version.
pub fn parse_u16(digits: &[u8]) -> (n: u16)
    requires
        all_digits(digits@),
        digits_value(digits@) <= u16::MAX,
    ensures
        n == digits_value(digits@),
{
    let mut n: u16 = 0;
    let mut i: usize = 0;
    assert(digits@.take(0) =~= Seq::<u8>::empty());
    while i < digits.len()
        invariant
            i <= digits@.len(),
            all_digits(digits@),
            digits_value(digits@) <= u16::MAX,
            n == digits_value(digits@.take(i as int)),
        decreases digits@.len() - i,
    {
        proof {
            assert(digits@.take(i + 1).drop_last() =~= digits@.take(i as int));
            lemma_prefix_value(digits@, i + 1);
        }
        n = n * 10 + (digits[i] - 48) as u16;
        i = i + 1;
    }
    assert(digits@.take(i as int) =~= digits@);
    n
}

} // verus!
