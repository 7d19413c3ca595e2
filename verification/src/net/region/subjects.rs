//! The subjects the region-to-edge protocol uses, and how to read one back.
//!
//! Four shapes, all rooted at `umwelt`:
//!
//! | subject | direction |
//! |---|---|
//! | `umwelt.{region}.info` | request and reply |
//! | `umwelt.{region}.edge.{edge}.payload` | region to edge |
//! | `umwelt.{region}.edge.{edge}.reply` | region to edge |
//! | `umwelt.{region}.edge.{edge}.command` | edge to region |
//!
//! An edge subscribes to `umwelt.*.edge.{edge}.payload` once and never again:
//! payloads from a region it has never heard of match a subscription it already
//! holds. That is why migrating an entity between regions costs the edge
//! nothing.

use vstd::prelude::*;
use vstd::string::*;

use crate::id::RegionId;
use crate::net::error::NetError;
use crate::net::region::names;
use crate::net::region::names::EdgeName;
use crate::text;
use crate::text::push_decimal;

verus! {

/// The subject of one leaf between a region and an edge.
pub open spec fn edge_subject(region: RegionId, edge: Seq<char>, leaf: Seq<char>) -> Seq<char> {
    "umwelt."@ + text::decimal(region.0 as nat) + ".edge."@ + edge + "."@ + leaf
}

/// The subject of one leaf between a region and an edge.
fn between(region: RegionId, edge: &str, leaf: &str) -> (s: String)
    ensures
        s@ == edge_subject(region, edge@, leaf@),
{
    let mut s = String::new();
    s.append("umwelt.");
    push_decimal(&mut s, region.raw() as u64);
    s.append(".edge.");
    s.append(edge);
    s.append(".");
    s.append(leaf);
    assert(s@ =~= edge_subject(region, edge@, leaf@));
    s
}

/// Where a region answers what it is.
pub fn info(region: RegionId) -> (s: String)
    ensures
        s@ == "umwelt."@ + text::decimal(region.0 as nat) + ".info"@,
{
    let mut s = String::new();
    s.append("umwelt.");
    push_decimal(&mut s, region.raw() as u64);
    s.append(".info");
    assert(s@ =~= "umwelt."@ + text::decimal(region.0 as nat) + ".info"@);
    s
}

/// Where a region sends an edge its packets.
pub fn payload(region: RegionId, edge: &EdgeName) -> (s: String)
    ensures
        s@ == edge_subject(region, edge@, "payload"@),
{
    between(region, edge.as_str(), "payload")
}

/// Where a region sends an edge everything else.
pub fn reply(region: RegionId, edge: &EdgeName) -> (s: String)
    ensures
        s@ == edge_subject(region, edge@, "reply"@),
{
    between(region, edge.as_str(), "reply")
}

/// Where an edge sends a region its commands.
pub fn command(region: RegionId, edge: &EdgeName) -> (s: String)
    ensures
        s@ == edge_subject(region, edge@, "command"@),
{
    between(region, edge.as_str(), "command")
}

/// Every command sent to one region, whichever edge sent it.
pub fn commands_to(region: RegionId) -> (s: String)
    ensures
        s@ == edge_subject(region, "*"@, "command"@),
{
    between(region, "*", "command")
}

/// Everything addressed to one edge with the given leaf, from any region.
pub fn to_edge(edge: &EdgeName, leaf: &str) -> (s: String)
    ensures
        s@ == "umwelt.*.edge."@ + edge@ + "."@ + leaf@,
{
    let mut s = String::new();
    s.append("umwelt.*.edge.");
    s.append(edge.as_str());
    s.append(".");
    s.append(leaf);
    assert(s@ =~= "umwelt.*.edge."@ + edge@ + "."@ + leaf@);
    s
}

// ---------------------------------------------------------------------------
// Reading one back
// ---------------------------------------------------------------------------

/// Where the first dot is, or the end where there is none.
pub open spec fn first_dot(s: Seq<char>) -> nat
    decreases s.len(),
{
    if s.len() == 0 {
        0
    } else if s[0] == '.' {
        0
    } else {
        1 + first_dot(s.skip(1))
    }
}

/// The tokens between the dots.
pub open spec fn tokens(s: Seq<char>) -> Seq<Seq<char>>
    decreases s.len(),
{
    let at = first_dot(s) as int;
    if at >= s.len() {
        seq![s]
    } else {
        seq![s.take(at)] + tokens(s.skip(at + 1))
    }
}

/// Where the first dot is, seen.
proof fn lemma_first_dot(s: Seq<char>, at: int)
    requires
        0 <= at <= s.len(),
        forall|j: int| 0 <= j < at ==> s[j] != '.',
        at == s.len() || s[at] == '.',
    ensures
        first_dot(s) == at,
    decreases at,
{
    if at > 0 {
        assert forall|j: int| 0 <= j < at - 1 implies s.skip(1)[j] != '.' by {
            assert(s.skip(1)[j] == s[j + 1]);
        }
        lemma_first_dot(s.skip(1), at - 1);
    }
}

/// The characters of a string.
fn letters(s: &str) -> (v: Vec<char>)
    ensures
        v@ == s@,
{
    let mut v: Vec<char> = Vec::new();
    let n: usize = s.unicode_len();
    let mut i: usize = 0;
    while i < n
        invariant
            i <= n,
            n == s@.len(),
            v@ == s@.take(i as int),
        decreases n - i,
    {
        v.push(s.get_char(i));
        i = i + 1;
        assert(v@ =~= s@.take(i as int));
    }
    assert(v@ =~= s@);
    v
}

/// The tokens between the dots of a subject.
fn split<'a>(subject: &'a str) -> (out: Vec<&'a str>)
    ensures
        out@.map_values(|t: &'a str| t@) == tokens(subject@),
{
    let chars = letters(subject);
    let len: usize = chars.len();
    let mut out: Vec<&'a str> = Vec::new();
    let mut start: usize = 0;
    let mut i: usize = 0;
    let ghost s = subject@;
    assert(s.skip(0) =~= s);
    assert(out@.map_values(|t: &'a str| t@) + tokens(s) =~= tokens(s));
    while i < len
        invariant
            s == subject@,
            chars@ == s,
            len == s.len(),
            start <= i <= len,
            forall|j: int| start <= j < i ==> s[j] != '.',
            out@.map_values(|t: &'a str| t@) + tokens(s.skip(start as int)) == tokens(s),
        decreases len - i,
    {
        if chars[i] == '.' {
            let ghost was = out@.map_values(|t: &'a str| t@);
            let ghost rest = s.skip(start as int);
            let token = subject.substring_char(start, i);
            out.push(token);
            proof {
                lemma_first_dot(rest, i - start);
                assert(rest.take(i - start) =~= s.subrange(start as int, i as int));
                assert(rest.skip(i - start + 1) =~= s.skip(i + 1));
                let now = out@.map_values(|t: &'a str| t@);
                assert(now =~= was.push(token@));
                assert(now + tokens(s.skip(i + 1)) =~= was + (seq![token@] + tokens(
                    s.skip(i + 1),
                )));
            }
            start = i + 1;
        }
        i = i + 1;
    }
    let ghost was = out@.map_values(|t: &'a str| t@);
    let token = subject.substring_char(start, len);
    out.push(token);
    proof {
        let rest = s.skip(start as int);
        lemma_first_dot(rest, rest.len() as int);
        assert(rest =~= token@);
        assert(out@.map_values(|t: &'a str| t@) =~= was + tokens(rest));
    }
    out
}

/// Whether two strings are the same.
fn same(a: &str, b: &str) -> (yes: bool)
    ensures
        yes == (a@ == b@),
{
    a.to_owned() == b.to_owned()
}

/// The edge a command's subject names, if it is the subject of a command.
pub open spec fn sender_of(subject: Seq<char>) -> Option<Seq<char>> {
    let t = tokens(subject);
    if t.len() == 5 && t[0] == "umwelt"@ && t[2] == "edge"@ && t[4] == "command"@ {
        Some(t[3])
    } else {
        None
    }
}

/// The edge that sent a command, read out of the subject it arrived on.
pub fn sender(subject: &str) -> (r: Result<EdgeName, NetError>)
    ensures
        match sender_of(subject@) {
            None => r == Err::<EdgeName, NetError>(NetError::BadSubject),
            Some(name) => match r {
                Ok(n) => n@ == name,
                Err(e) => EdgeName::refusal(name) == Some(e),
            },
        },
        r is Ok ==> EdgeName::refusal(sender_of(subject@)->0) is None,
{
    let t = split(subject);
    let ghost all = t@.map_values(|t: &str| t@);
    if t.len() != 5 {
        return Err(NetError::BadSubject);
    }
    assert(all[0] == t@[0]@ && all[2] == t@[2]@ && all[3] == t@[3]@ && all[4] == t@[4]@);
    if !same(t[0], "umwelt") || !same(t[2], "edge") || !same(t[4], "command") {
        return Err(NetError::BadSubject);
    }
    EdgeName::new(t[3])
}

/// Whether every character is a decimal digit.
pub open spec fn all_digits(s: Seq<char>) -> bool {
    forall|i: int| 0 <= i < s.len() ==> '0' <= #[trigger] s[i] <= '9'
}

/// The number a run of decimal digits spells.
pub open spec fn digits_value(s: Seq<char>) -> nat
    decreases s.len(),
{
    if s.len() == 0 {
        0
    } else {
        10 * digits_value(s.drop_last()) + (s.last() as nat - '0' as nat) as nat
    }
}

/// What a token spells as a 32-bit number, if it does: digits, with or without
/// a plus sign in front.
pub open spec fn number_of(s: Seq<char>) -> Option<u32> {
    let digits = if s.len() > 0 && s[0] == '+' {
        s.skip(1)
    } else {
        s
    };
    if digits.len() == 0 || !all_digits(digits) || digits_value(digits) > u32::MAX {
        None
    } else {
        Some(digits_value(digits) as u32)
    }
}

/// More digits spell no smaller a number.
proof fn lemma_more_digits(s: Seq<char>, n: int)
    requires
        0 <= n <= s.len(),
    ensures
        digits_value(s.take(n)) <= digits_value(s),
    decreases s.len() - n,
{
    if n < s.len() {
        assert(s.take(n + 1).drop_last() =~= s.take(n));
        lemma_more_digits(s, n + 1);
    } else {
        assert(s.take(n) =~= s);
    }
}

/// Reads a token as a 32-bit number.
fn number(token: &str) -> (n: Option<u32>)
    ensures
        n == number_of(token@),
{
    let chars = letters(token);
    let len: usize = chars.len();
    let from: usize = if len > 0 && chars[0] == '+' {
        1
    } else {
        0
    };
    let ghost digits = if from == 1 {
        token@.skip(1)
    } else {
        token@
    };
    if from == len {
        return None;
    }
    let mut n: u64 = 0;
    let mut i: usize = from;
    assert(digits.take(0) =~= Seq::empty());
    while i < len
        invariant
            from <= i <= len,
            from <= 1,
            len == chars@.len(),
            digits.len() == len - from,
            forall|j: int| 0 <= j < digits.len() ==> digits[j] == #[trigger] chars@[j + from],
            all_digits(digits.take(i - from)),
            n == digits_value(digits.take(i - from)),
            n <= u32::MAX,
            number_of(token@) == if digits.len() == 0 || !all_digits(digits) || digits_value(
                digits,
            ) > u32::MAX {
                None
            } else {
                Some(digits_value(digits) as u32)
            },
        decreases len - i,
    {
        let c = chars[i];
        let ghost k = i - from;
        assert(digits[k] == chars@[k + from]);
        if c < '0' || c > '9' {
            assert(!all_digits(digits));
            return None;
        }
        n = n * 10 + (c as u64 - 48);
        proof {
            assert(digits.take(k + 1).drop_last() =~= digits.take(k));
            lemma_more_digits(digits, k + 1);
            assert forall|j: int| 0 <= j < k + 1 implies '0' <= #[trigger] digits.take(k + 1)[j]
                <= '9' by {
                if j < k {
                    assert(digits.take(k)[j] == digits[j]);
                }
            }
        }
        if n > u32::MAX as u64 {
            return None;
        }
        i = i + 1;
    }
    assert(digits.take(i - from) =~= digits);
    Some(n as u32)
}

/// The region a subject of a region's own names, if it is one.
pub open spec fn origin_of(subject: Seq<char>) -> Option<RegionId> {
    let t = tokens(subject);
    if t.len() == 5 && t[0] == "umwelt"@ && t[2] == "edge"@ && (t[4] == "payload"@ || t[4]
        == "reply"@) {
        match number_of(t[1]) {
            Some(n) => Some(RegionId(n)),
            None => None,
        }
    } else {
        None
    }
}

/// The region a payload or reply came from, read out of its subject.
pub fn origin(subject: &str) -> (r: Result<RegionId, NetError>)
    ensures
        r == match origin_of(subject@) {
            Some(region) => Ok::<RegionId, NetError>(region),
            None => Err(NetError::BadSubject),
        },
{
    let t = split(subject);
    let ghost all = t@.map_values(|t: &str| t@);
    if t.len() != 5 {
        return Err(NetError::BadSubject);
    }
    assert(all[0] == t@[0]@ && all[1] == t@[1]@ && all[2] == t@[2]@ && all[4] == t@[4]@);
    if !same(t[0], "umwelt") || !same(t[2], "edge") {
        return Err(NetError::BadSubject);
    }
    if !same(t[4], "payload") && !same(t[4], "reply") {
        return Err(NetError::BadSubject);
    }
    match number(t[1]) {
        Some(n) => Ok(RegionId::from_raw(n)),
        None => Err(NetError::BadSubject),
    }
}

// ---------------------------------------------------------------------------
// Laws
// ---------------------------------------------------------------------------

/// Whether a run of characters is one token.
pub open spec fn undotted(s: Seq<char>) -> bool {
    forall|i: int| 0 <= i < s.len() ==> #[trigger] s[i] != '.'
}

/// One token alone is its only token.
pub proof fn lemma_one_token(s: Seq<char>)
    requires
        undotted(s),
    ensures
        tokens(s) == seq![s],
{
    lemma_first_dot(s, s.len() as int);
}

/// A token in front of a dot is the first token.
pub proof fn lemma_token_in_front(a: Seq<char>, b: Seq<char>)
    requires
        undotted(a),
    ensures
        tokens(a + seq!['.'] + b) == seq![a] + tokens(b),
{
    let s = a + seq!['.'] + b;
    lemma_first_dot(s, a.len() as int);
    assert(s.take(a.len() as int) =~= a);
    assert(s.skip(a.len() as int + 1) =~= b);
}

/// A number's digits, read back.
proof fn lemma_decimal(n: nat)
    ensures
        text::decimal(n).len() > 0,
        all_digits(text::decimal(n)),
        digits_value(text::decimal(n)) == n,
    decreases n,
{
    if n < 10 {
        let s = seq![text::digit(n)];
        assert(s.drop_last() =~= Seq::empty());
        assert(digits_value(s.drop_last()) == 0);
        assert(s.last() as nat == '0' as nat + n);
    } else {
        lemma_decimal(n / 10);
        let front = text::decimal(n / 10);
        let s = front.push(text::digit(n % 10));
        assert(s.drop_last() =~= front);
        assert(s.last() as nat == '0' as nat + n % 10);
        assert forall|i: int| 0 <= i < s.len() implies '0' <= #[trigger] s[i] <= '9' by {
            if i < front.len() {
                assert(s[i] == front[i]);
            }
        }
    }
}

/// A number's digits are one token, and are read back as the number.
pub proof fn lemma_number(n: u32)
    ensures
        undotted(text::decimal(n as nat)),
        number_of(text::decimal(n as nat)) == Some(n),
{
    lemma_decimal(n as nat);
    let s = text::decimal(n as nat);
    assert forall|i: int| 0 <= i < s.len() implies #[trigger] s[i] != '.' by {
        assert('0' <= s[i] <= '9');
    }
    assert('0' <= s[0] <= '9');
}

/// A subject between a region and an edge, token by token.
proof fn lemma_edge_subject(region: Seq<char>, edge: Seq<char>, leaf: Seq<char>)
    requires
        undotted(region),
        undotted(edge),
        undotted(leaf),
    ensures
        tokens("umwelt."@ + region + ".edge."@ + edge + "."@ + leaf) == seq![
            "umwelt"@,
            region,
            "edge"@,
            edge,
            leaf,
        ],
{
    reveal_strlit("umwelt");
    reveal_strlit("umwelt.");
    reveal_strlit("edge");
    reveal_strlit(".edge.");
    reveal_strlit(".");
    let dot = seq!['.'];
    assert("umwelt."@ =~= "umwelt"@ + dot);
    assert(".edge."@ =~= dot + "edge"@ + dot);
    assert("."@ =~= dot);
    let d = leaf;
    let c = edge + dot + d;
    let b = "edge"@ + dot + c;
    let a = region + dot + b;
    let s = "umwelt."@ + region + ".edge."@ + edge + "."@ + leaf;
    assert(s =~= "umwelt"@ + dot + a);
    lemma_one_token(d);
    lemma_token_in_front(edge, d);
    lemma_token_in_front("edge"@, c);
    lemma_token_in_front(region, b);
    lemma_token_in_front("umwelt"@, a);
    assert(tokens(s) =~= seq!["umwelt"@, region, "edge"@, edge, leaf]);
}

/// An edge's name is one token of a subject, which is what keeps it from
/// addressing another edge's.
pub proof fn law_a_name_is_one_token(name: Seq<char>)
    requires
        EdgeName::refusal(name) is None,
    ensures
        tokens(name) == seq![name],
        name != "*"@,
        name != ">"@,
{
    reveal_strlit("*");
    reveal_strlit(">");
    assert(undotted(name)) by {
        assert forall|i: int| 0 <= i < name.len() implies #[trigger] name[i] != '.' by {
            assert(names::plain(name[i]));
        }
    }
    lemma_one_token(name);
    if name == "*"@ || name == ">"@ {
        assert(names::plain(name[0]));
    }
}

/// A command's subject names the edge that sent it, and no other kind of
/// subject names a sender.
pub proof fn law_a_command_subject_names_its_sender(region: RegionId, name: Seq<char>)
    requires
        EdgeName::refusal(name) is None,
    ensures
        sender_of(edge_subject(region, name, "command"@)) == Some(name),
        sender_of(edge_subject(region, name, "payload"@)) is None,
        sender_of(edge_subject(region, name, "reply"@)) is None,
{
    lemma_plain_name(name);
    lemma_number(region.0);
    lemma_leaves();
    lemma_edge_subject(text::decimal(region.0 as nat), name, "command"@);
    lemma_edge_subject(text::decimal(region.0 as nat), name, "payload"@);
    lemma_edge_subject(text::decimal(region.0 as nat), name, "reply"@);
}

/// A payload's or a reply's subject names the region it came from, and a
/// command's does not name one.
pub proof fn law_a_payload_subject_names_its_region(region: RegionId, name: Seq<char>)
    requires
        EdgeName::refusal(name) is None,
    ensures
        origin_of(edge_subject(region, name, "payload"@)) == Some(region),
        origin_of(edge_subject(region, name, "reply"@)) == Some(region),
        origin_of(edge_subject(region, name, "command"@)) is None,
{
    lemma_plain_name(name);
    lemma_number(region.0);
    lemma_leaves();
    lemma_edge_subject(text::decimal(region.0 as nat), name, "command"@);
    lemma_edge_subject(text::decimal(region.0 as nat), name, "payload"@);
    lemma_edge_subject(text::decimal(region.0 as nat), name, "reply"@);
}

/// A name is one token.
pub proof fn lemma_plain_name(name: Seq<char>)
    requires
        EdgeName::refusal(name) is None,
    ensures
        undotted(name),
{
    assert forall|i: int| 0 <= i < name.len() implies #[trigger] name[i] != '.' by {
        assert(names::plain(name[i]));
    }
}

/// The leaves are one token each, and no two the same.
proof fn lemma_leaves()
    ensures
        undotted("command"@),
        undotted("payload"@),
        undotted("reply"@),
        "command"@ != "payload"@,
        "command"@ != "reply"@,
        "payload"@ != "reply"@,
{
    reveal_strlit("command");
    reveal_strlit("payload");
    reveal_strlit("reply");
    assert("command"@[0] != "payload"@[0]);
    assert("command"@[0] != "reply"@[0]);
    assert("payload"@[0] != "reply"@[0]);
}

/// Whether a pattern of tokens, some of them `*`, matches a subject.
pub open spec fn matched(pattern: Seq<char>, subject: Seq<char>) -> bool {
    let (p, s) = (tokens(pattern), tokens(subject));
    &&& p.len() == s.len()
    &&& forall|i: int| 0 <= i < p.len() ==> #[trigger] p[i] == "*"@ || p[i] == s[i]
}

/// One subscription, taken at startup, matches every region there will ever
/// be, and no other edge's subjects.
pub proof fn law_an_edges_subscription_matches_every_region(
    region: RegionId,
    name: Seq<char>,
    other: Seq<char>,
    leaf: Seq<char>,
)
    requires
        EdgeName::refusal(name) is None,
        EdgeName::refusal(other) is None,
        undotted(leaf),
    ensures
        matched(
            "umwelt.*.edge."@ + name + "."@ + leaf,
            edge_subject(region, other, leaf),
        ) <==> name == other,
{
    reveal_strlit("umwelt.*.edge.");
    reveal_strlit("umwelt.");
    reveal_strlit(".edge.");
    reveal_strlit("*");
    lemma_plain_name(name);
    lemma_plain_name(other);
    lemma_number(region.0);
    law_a_name_is_one_token(name);
    let dec = text::decimal(region.0 as nat);
    lemma_edge_subject(dec, other, leaf);
    lemma_edge_subject("*"@, name, leaf);
    let pattern = "umwelt.*.edge."@ + name + "."@ + leaf;
    assert("umwelt.*.edge."@ =~= "umwelt."@ + "*"@ + ".edge."@);
    assert(pattern =~= "umwelt."@ + "*"@ + ".edge."@ + name + "."@ + leaf);
    let p = seq!["umwelt"@, "*"@, "edge"@, name, leaf];
    let s = seq!["umwelt"@, dec, "edge"@, other, leaf];
    assert(tokens(pattern) == p);
    assert(tokens(edge_subject(region, other, leaf)) == s);
    assert(p[3] == name && s[3] == other);
}

/// A region's subscription to its commands matches every edge, and no other
/// region's.
pub proof fn law_a_regions_subscription_matches_every_edge(
    region: RegionId,
    other: RegionId,
    name: Seq<char>,
)
    requires
        EdgeName::refusal(name) is None,
    ensures
        matched(
            edge_subject(region, "*"@, "command"@),
            edge_subject(other, name, "command"@),
        ) <==> region == other,
{
    reveal_strlit("*");
    lemma_plain_name(name);
    lemma_number(region.0);
    lemma_number(other.0);
    lemma_leaves();
    let (a, b) = (text::decimal(region.0 as nat), text::decimal(other.0 as nat));
    lemma_edge_subject(a, "*"@, "command"@);
    lemma_edge_subject(b, name, "command"@);
    let p = seq!["umwelt"@, a, "edge"@, "*"@, "command"@];
    let s = seq!["umwelt"@, b, "edge"@, name, "command"@];
    assert(tokens(edge_subject(region, "*"@, "command"@)) == p);
    assert(tokens(edge_subject(other, name, "command"@)) == s);
    assert(p[1] == a && s[1] == b);
    lemma_decimal(region.0 as nat);
    assert(a[0] != '*') by {
        assert('0' <= a[0] <= '9');
    }
    assert("*"@[0] == '*');
}

} // verus!
