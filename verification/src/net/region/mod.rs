//! The region-to-edge protocol, over NATS.
//!
//! One region simulation, and the edges relaying for it.
//!
//! - [`protocol`] is the messages and the versions.

pub mod auth;
pub mod client;
pub mod edges;
pub mod laws;
pub mod names;
pub mod protocol;
pub mod server;
pub mod session;
pub mod subjects;
pub mod wire;

pub use client::RegionClient;
pub use edges::{EdgeId, EdgeView, Edges};
pub use names::EdgeName;
pub use server::RegionServer;
pub use session::{Applied, EdgeSink, Inbound, Settled};
