//! What an edge calls itself.

use vstd::prelude::*;
use vstd::string::*;

use crate::net::error::NetError;

verus! {

/// What an edge calls itself, and the token that names it in a subject.
///
/// Chosen by the edge and stable across restarts of any region, unlike
/// [`EdgeId`](crate::net::region::edges::EdgeId), which is one region's dense
/// internal index.
#[derive(PartialEq, Eq, PartialOrd, Ord, Hash, Debug)]
pub struct EdgeName {
    name: String,
}

/// Whether a character may stand in a name: a letter, a digit, a dash or an
/// underscore.
pub open spec fn plain(c: char) -> bool {
    ||| 'a' <= c <= 'z'
    ||| 'A' <= c <= 'Z'
    ||| '0' <= c <= '9'
    ||| c == '-'
    ||| c == '_'
}

/// Whether every character may stand in a name.
pub open spec fn all_plain(s: Seq<char>) -> bool {
    forall|i: int| 0 <= i < s.len() ==> plain(#[trigger] s[i])
}

/// Whether a byte may stand in a name.
fn is_plain(b: u8) -> (ok: bool)
    ensures
        ok == plain(b as char),
{
    (b >= 97 && b <= 122) || (b >= 65 && b <= 90) || (b >= 48 && b <= 57) || b == 45 || b == 95
}

impl View for EdgeName {
    type V = Seq<char>;

    closed spec fn view(&self) -> Seq<char> {
        self.name@
    }
}

impl EdgeName {
    /// Why a name is refused, if it is.
    pub open spec fn refusal(name: Seq<char>) -> Option<NetError> {
        let len = vstd::utf8::encode_utf8(name).len();
        if len == 0 || len > 64 {
            Some(NetError::BadEdgeName("length must be 1 to 64 bytes"))
        } else if !all_plain(name) {
            Some(NetError::BadEdgeName("only letters, digits, dash and underscore"))
        } else {
            None
        }
    }

    /// Only a name that is not refused is ever held.
    #[verifier::type_invariant]
    pub open spec fn inv(self) -> bool {
        EdgeName::refusal(self@) is None
    }

    /// # Errors
    ///
    /// If the name is empty, longer than 64 bytes, or holds a character that
    /// would change how a subject parses. Subjects are dot-separated and NATS
    /// reads `*` and `>` as wildcards, so a name carrying one of those could
    /// address subjects belonging to another edge.
    pub fn new(name: &str) -> (r: Result<EdgeName, NetError>)
        ensures
            match r {
                Ok(n) => n@ == name@ && EdgeName::refusal(name@) is None,
                Err(e) => EdgeName::refusal(name@) == Some(e),
            },
    {
        let bytes = name.as_bytes();
        if bytes.len() == 0 || bytes.len() > 64 {
            return Err(NetError::BadEdgeName("length must be 1 to 64 bytes"));
        }
        if !name.is_ascii() {
            assert(!all_plain(name@));
            return Err(NetError::BadEdgeName("only letters, digits, dash and underscore"));
        }
        let mut i: usize = 0;
        while i < bytes.len()
            invariant
                i <= bytes@.len(),
                0 < bytes@.len() <= 64,
                is_ascii(name),
                bytes@ == name.spec_bytes(),
                forall|j: int| 0 <= j < i ==> plain(#[trigger] name@[j]),
            decreases bytes@.len() - i,
        {
            assert(bytes@[i as int] == name@[i as int] as u8);
            if !is_plain(bytes[i]) {
                assert(!plain(name@[i as int]));
                return Err(NetError::BadEdgeName("only letters, digits, dash and underscore"));
            }
            i = i + 1;
        }
        Ok(EdgeName { name: name.to_owned() })
    }

    /// The name.
    pub fn as_str(&self) -> (s: &str)
        ensures
            s@ == self@,
    {
        self.name.as_str()
    }

    /// Whether two names are one.
    pub fn is(&self, other: &EdgeName) -> (b: bool)
        ensures
            b == (self@ == other@),
    {
        self.name == other.name
    }
}

impl Clone for EdgeName {
    fn clone(&self) -> (n: EdgeName)
        ensures
            n@ == self@,
    {
        proof {
            use_type_invariant(self);
        }
        EdgeName { name: self.name.clone() }
    }
}

/// A name is taken exactly when it is one to sixty-four bytes of letters,
/// digits, dashes and underscores: so it holds nothing that parts a subject or
/// stands for others in one.
pub proof fn law_a_name_parts_no_subject(name: Seq<char>)
    ensures
        EdgeName::refusal(name) is None <==> {
            &&& 1 <= vstd::utf8::encode_utf8(name).len() <= 64
            &&& forall|c: char| #[trigger]
                name.contains(c) ==> 'a' <= c <= 'z' || 'A' <= c <= 'Z' || '0' <= c <= '9' || c
                    == '-' || c == '_'
        },
        EdgeName::refusal(name) is None ==> !name.contains('.') && !name.contains('*')
            && !name.contains('>') && !name.contains(' '),
{
    if all_plain(name) {
        assert forall|c: char| #[trigger] name.contains(c) implies plain(c) by {
            let i = choose|i: int| 0 <= i < name.len() && name[i] == c;
            assert(plain(name[i]));
        }
    } else {
        let i = choose|i: int| 0 <= i < name.len() && !plain(#[trigger] name[i]);
        assert(name.contains(name[i]));
    }
}

} // verus!
