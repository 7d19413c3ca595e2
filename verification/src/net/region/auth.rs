//! Who is allowed to open a connection to a region.
//!
//! **What this is.** A bearer secret. A peer presents bytes, the region
//! compares them against bytes it holds, and a peer that cannot produce them
//! is refused before it is told anything about the region.
//!
//! **What this is not.** Protection against anyone who can read the link. The
//! secret crosses the wire on every connect, so whoever sees the traffic has
//! it. The deployment assumption is that a region and its edges talk over a
//! network that is already private, and this check is the second lock rather
//! than the first: it stops a process that wandered onto the right port, a
//! misconfigured edge pointed at the wrong region, and a stale binary from a
//! previous deployment. It does not stop an attacker already on the wire.
//!
//! Raising that bar means challenge-response over a MAC, so the secret itself
//! never travels. That needs a vetted crypto implementation rather than a
//! hand-rolled one, which is a dependency this crate does not have and a
//! decision that has not been made. [`Authorizer`] is the seam it would arrive
//! through.

use vstd::prelude::*;
use vstd::slice::slice_to_vec;
use vstd::string::*;

use crate::text;
use crate::text::push_decimal;

verus! {

/// The credential did not authorize.
///
/// Carries no reason. A type carrying one could be forwarded to the peer by
/// mistake.
#[derive(Clone, Copy, Debug, PartialEq, Eq, Structural)]
pub struct Denied;

impl Denied {
    /// What the error says.
    pub fn to_string(&self) -> (s: String)
        ensures
            s@ == "credential denied"@,
    {
        let mut s = String::new();
        s.append("credential denied");
        assert(s@ =~= "credential denied"@);
        s
    }
}

/// Decides whether a connecting peer may proceed.
///
/// Consulted once per connection, before the region says anything about
/// itself. Implementations are shared across threads, which is why this is
/// `Send + Sync` and takes `&self`.
///
/// `credential` is the opaque bytes the peer sent. This crate never interprets
/// them.
pub trait Authorizer: Send + Sync {
    /// Whether the peer that sent these bytes may proceed.
    fn authorize(&self, credential: &[u8]) -> Result<(), Denied>;
}

/// Longest credential a server will read.
///
/// Bounds the read before the credential is examined, since the length arrives
/// from a peer that has not authorized.
pub const MAX_CREDENTIAL_BYTES: usize = 256;

/// One secret, shared by every edge entitled to connect to this region.
///
/// Holds the secret for the process's lifetime. It is not zeroized on drop and
/// this crate makes no claim about where in memory it has been copied. It does
/// not print itself: a secret that does ends up in a log.
pub struct SharedSecret {
    secret: Vec<u8>,
}

impl View for SharedSecret {
    type V = Seq<u8>;

    closed spec fn view(&self) -> Seq<u8> {
        self.secret@
    }
}

impl SharedSecret {
    /// An empty secret would authorize a peer that sent nothing, and one past
    /// [`MAX_CREDENTIAL_BYTES`] could never be presented.
    pub fn new(secret: &[u8]) -> (s: SharedSecret)
        requires
            0 < secret@.len() <= MAX_CREDENTIAL_BYTES,
        ensures
            s@ == secret@,
    {
        SharedSecret { secret: slice_to_vec(secret) }
    }

    /// What may be printed of a secret: how long it is.
    pub fn redacted(&self) -> (s: String)
        ensures
            s@ == "SharedSecret("@ + text::decimal(self@.len()) + " bytes, redacted)"@,
    {
        let mut s = String::new();
        s.append("SharedSecret(");
        push_decimal(&mut s, self.secret.len() as u64);
        s.append(" bytes, redacted)");
        assert(s@ =~= "SharedSecret("@ + text::decimal(self@.len()) + " bytes, redacted)"@);
        s
    }
}

impl Authorizer for SharedSecret {
    fn authorize(&self, credential: &[u8]) -> (r: Result<(), Denied>)
        ensures
            r == if credential@ == self@ {
                Ok::<(), Denied>(())
            } else {
                Err(Denied)
            },
    {
        if equal_without_short_circuit(self.secret.as_slice(), credential) {
            Ok(())
        } else {
            Err(Denied)
        }
    }
}

/// Compares every byte rather than stopping at the first difference, so the
/// time taken does not report how much of a guess was right.
///
/// **Not a hardened primitive.** Nothing in the language stops the optimizer
/// from rewriting this, and no timing measurement of the compiled output has
/// been taken. It is written this way because the naive `==` is measurably
/// worse and this costs nothing, not because the result is guaranteed. A
/// deployment that needs the guarantee wants a vetted constant-time compare.
///
/// Length is compared up front and therefore leaks, which is standard: the
/// length of a secret is not the secret.
fn equal_without_short_circuit(a: &[u8], b: &[u8]) -> (same: bool)
    ensures
        same == (a@ == b@),
{
    if a.len() != b.len() {
        return false;
    }
    let mut differing: u8 = 0;
    let mut i: usize = 0;
    assert(a@.take(0) =~= b@.take(0));
    while i < a.len()
        invariant
            i <= a@.len(),
            a@.len() == b@.len(),
            (differing == 0) == (a@.take(i as int) == b@.take(i as int)),
        decreases a@.len() - i,
    {
        let (x, y): (u8, u8) = (a[i], b[i]);
        let ghost before = differing;
        differing = differing | (x ^ y);
        proof {
            assert((before | (x ^ y)) == 0u8 <==> (before == 0u8 && x == y)) by (bit_vector);
            let (s, t) = (a@.take(i as int), b@.take(i as int));
            let (u, v) = (a@.take(i + 1), b@.take(i + 1));
            assert(u =~= s.push(x));
            assert(v =~= t.push(y));
            assert(u.drop_last() =~= s && v.drop_last() =~= t);
            assert(u.last() == x && v.last() == y);
        }
        i = i + 1;
    }
    assert(a@.take(i as int) =~= a@);
    assert(b@.take(i as int) =~= b@);
    differing == 0
}

/// Authorizes everyone.
///
/// For tests, benchmarks, and a single-process example where there is no other
/// process to keep out. The name is explicit so that a deployment selecting it
/// is visible at the line that constructs it.
#[derive(Clone, Copy, Debug, PartialEq, Eq, Structural)]
pub struct AllowAll;

impl Authorizer for AllowAll {
    fn authorize(&self, _credential: &[u8]) -> (r: Result<(), Denied>)
        ensures
            r is Ok,
    {
        Ok(())
    }
}

} // verus!
