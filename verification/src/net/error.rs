//! What can go wrong on either link.

use vstd::prelude::*;
use vstd::string::*;

use crate::config::ConfigError;
use crate::net::version::ProtocolVersion;
use crate::text;
use crate::text::{push_decimal, push_padded};

verus! {

/// A failure on either link.
#[allow(inconsistent_fields)]
#[derive(Debug, PartialEq, Eq)]
pub enum NetError {
    /// The NATS client failed: connecting, publishing, subscribing or a request
    /// that went unanswered. Holds what it said.
    Nats(String),
    /// The client link failed: a connection lost, a stream that could not be
    /// written, or a datagram the peer will not take. Holds what it said.
    Quic(String),
    /// A control stream could not be read or written. Holds what it said.
    Io(String),
    /// The peer closed the stream, between frames or inside one.
    Closed,
    /// The connection has no room for a datagram now, or never will.
    Congested,
    /// A world position no placed region covers.
    OffMap,
    /// Named a client or an entity this edge does not hold.
    ///
    /// A race rather than a mistake, in most cases: a removal can arrive
    /// unprompted, so anything acting on a key may find it already gone.
    Unknown(&'static str),
    /// A message arrived but did not decode. The string names what was being
    /// read rather than echoing any of the sender's bytes back.
    Malformed(&'static str),
    /// A well-formed message of a kind that does not belong there.
    Unexpected {
        /// What would have belonged.
        expected: &'static str,
        /// The kind that came.
        got: u8,
        /// What the link it came on calls that kind.
        name: &'static str,
    },
    /// A message body past what this side will allocate for it.
    MessageTooLarge {
        /// What the body claims to be.
        claimed: usize,
        /// The most this side takes.
        max: usize,
    },
    /// A control frame past what this side will allocate for it.
    FrameTooLarge {
        /// What the frame claims to be.
        claimed: usize,
        /// The most this side takes.
        max: usize,
    },
    /// A subject carried an edge name this build will not accept.
    BadEdgeName(&'static str),
    /// A subject did not parse into the tokens it should have.
    BadSubject,
    /// The two ends do not speak the same protocol version.
    ProtocolMismatch {
        /// What this end speaks.
        ours: ProtocolVersion,
        /// What the other end speaks.
        theirs: ProtocolVersion,
    },
    /// The advertised world parameters do not rebuild into a valid config.
    Config(ConfigError),
    /// The parameters rebuilt, but into a world that decodes packets
    /// differently from the one the region is running.
    ///
    /// The digest is [`WorldConfig::protocol_hash`](crate::WorldConfig::protocol_hash),
    /// which covers exactly the fields that affect wire decoding.
    ConfigMismatch {
        /// The digest of what the parameters rebuild into.
        ours: u64,
        /// The digest that came with them.
        theirs: u64,
    },
}

/// A digest as text: `0x` and sixteen hexadecimal digits.
pub open spec fn digest_text(h: u64) -> Seq<char> {
    "0x"@ + text::padded(h as nat, 16, 16)
}

/// Appends a digest as text.
pub fn push_digest(out: &mut String, h: u64)
    ensures
        final(out)@ == old(out)@ + digest_text(h),
{
    out.append("0x");
    push_padded(out, h, 16, 16);
    assert(out@ =~= old(out)@ + digest_text(h));
}

impl NetError {
    /// The failure in words.
    pub open spec fn text(self) -> Seq<char> {
        match self {
            NetError::Nats(e) => "nats: "@ + e@,
            NetError::Quic(e) => "quic: "@ + e@,
            NetError::Io(e) => "io: "@ + e@,
            NetError::Closed => "connection closed"@,
            NetError::Congested => "no room on the connection"@,
            NetError::OffMap => "no placed region there"@,
            NetError::Unknown(what) => "no such "@ + what@,
            NetError::Malformed(what) => "malformed "@ + what@,
            NetError::Unexpected { expected, got, name } => "expected "@ + expected@ + ", got "@
                + name@ + " (kind "@ + text::decimal(got as nat) + ")"@,
            NetError::MessageTooLarge { claimed, max } => "message claims "@ + text::decimal(
                claimed as nat,
            ) + " bytes, past the "@ + text::decimal(max as nat) + " byte cap"@,
            NetError::FrameTooLarge { claimed, max } => "frame claims "@ + text::decimal(
                claimed as nat,
            ) + " bytes, past the "@ + text::decimal(max as nat) + " byte cap"@,
            NetError::BadEdgeName(why) => "edge name: "@ + why@,
            NetError::BadSubject => "subject does not parse"@,
            NetError::ProtocolMismatch { ours, theirs } => "this end speaks protocol "@
                + ours.text() + ", the other speaks "@ + theirs.text(),
            NetError::Config(e) => "advertised world parameters are not valid: "@ + e.text(),
            NetError::ConfigMismatch { ours, theirs } => "world config digest "@ + digest_text(
                ours,
            ) + " does not match the region's "@ + digest_text(theirs),
        }
    }

    /// The failure in words.
    pub fn to_string(&self) -> (s: String)
        ensures
            s@ == self.text(),
    {
        let mut s = String::new();
        match self {
            NetError::Nats(e) => {
                s.append("nats: ");
                s.append(e.as_str());
            },
            NetError::Quic(e) => {
                s.append("quic: ");
                s.append(e.as_str());
            },
            NetError::Io(e) => {
                s.append("io: ");
                s.append(e.as_str());
            },
            NetError::Closed => {
                s.append("connection closed");
            },
            NetError::Congested => {
                s.append("no room on the connection");
            },
            NetError::OffMap => {
                s.append("no placed region there");
            },
            NetError::Unknown(what) => {
                s.append("no such ");
                s.append(what);
            },
            NetError::Malformed(what) => {
                s.append("malformed ");
                s.append(what);
            },
            NetError::Unexpected { expected, got, name } => {
                s.append("expected ");
                s.append(expected);
                s.append(", got ");
                s.append(name);
                s.append(" (kind ");
                push_decimal(&mut s, *got as u64);
                s.append(")");
            },
            NetError::MessageTooLarge { claimed, max } => {
                s.append("message claims ");
                push_decimal(&mut s, *claimed as u64);
                s.append(" bytes, past the ");
                push_decimal(&mut s, *max as u64);
                s.append(" byte cap");
            },
            NetError::FrameTooLarge { claimed, max } => {
                s.append("frame claims ");
                push_decimal(&mut s, *claimed as u64);
                s.append(" bytes, past the ");
                push_decimal(&mut s, *max as u64);
                s.append(" byte cap");
            },
            NetError::BadEdgeName(why) => {
                s.append("edge name: ");
                s.append(why);
            },
            NetError::BadSubject => {
                s.append("subject does not parse");
            },
            NetError::ProtocolMismatch { ours, theirs } => {
                s.append("this end speaks protocol ");
                s.append(ours.to_string().as_str());
                s.append(", the other speaks ");
                s.append(theirs.to_string().as_str());
            },
            NetError::Config(e) => {
                s.append("advertised world parameters are not valid: ");
                s.append(e.to_string().as_str());
            },
            NetError::ConfigMismatch { ours, theirs } => {
                s.append("world config digest ");
                push_digest(&mut s, *ours);
                s.append(" does not match the region's ");
                push_digest(&mut s, *theirs);
            },
        }
        assert(s@ =~= self.text());
        s
    }

    /// What the transport underneath said, for a consumer chaining causes.
    /// `None` for a failure umwelt found itself.
    pub fn source(&self) -> (cause: Option<&String>)
        ensures
            match cause {
                Some(e) => *self == NetError::Nats(*e) || *self == NetError::Quic(*e) || *self
                    == NetError::Io(*e),
                None => !(self is Nats || self is Quic || self is Io),
            },
    {
        match self {
            NetError::Nats(e) => Some(e),
            NetError::Quic(e) => Some(e),
            NetError::Io(e) => Some(e),
            _ => None,
        }
    }
}

impl From<ConfigError> for NetError {
    fn from(e: ConfigError) -> (r: NetError) {
        NetError::Config(e)
    }
}

impl vstd::std_specs::convert::FromSpecImpl<ConfigError> for NetError {
    open spec fn obeys_from_spec() -> bool {
        true
    }

    open spec fn from_spec(e: ConfigError) -> NetError {
        NetError::Config(e)
    }
}

} // verus!
