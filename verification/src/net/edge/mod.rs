//! The edge-to-client link, over QUIC.
//!
//! One edge server, and the game clients connected to it. Many peers, none of
//! them trusted, running on someone else's machine and updated on someone
//! else's schedule — the opposite of [`crate::net::region`] in every way that
//! matters, which is why the two share no types.
//!
//! - [`protocol`] is the messages and how they are framed.

pub mod client;
pub mod handle;
pub mod laws;
pub mod model;
pub mod pile;
pub mod promises;
pub mod protocol;
pub mod seam;
pub mod server;

pub use client::EdgeClient;
pub use handle::{EdgeHandle, EdgeStats};
pub use protocol::{Framer, FromClient, ToClient, MAX_MESSAGE_BYTES};
pub use server::EdgeServer;
