//! A spatial simulation server: regions that hold entities, edges that relay
//! for game clients, and the wire between them.

pub mod budget;
pub mod codec;
pub mod config;
pub mod entity;
pub mod fan;
pub mod fixed;
pub mod game;
pub mod gather;
pub mod ghost;
pub mod id;
pub mod internals;
pub mod le;
pub mod map;
pub mod net;
pub mod num;
pub mod odometer;
pub mod packet;
pub mod pos;
pub mod sim;
pub mod snapshot;
pub mod subscription;
pub mod table;
pub mod text;

pub use config::{ConfigError, WorldConfig, WorldConfigBuilder};
pub use entity::{EntityId, EntityKind, Live, LiveIter, LiveSet};
pub use fixed::{DistSq, Fixed};
pub use game::{ClientGame, Game};
pub use id::{ClientId, EntityHandle, EntityKey, RegionId};
pub use net::version::{ProtocolVersion, ServerVersion};
pub use net::{EdgeClient, EdgeHandle, EdgeServer, NetError, RegionServer};
pub use packet::TickObservation;
pub use pos::{CellCoord, CellId, Pos2, Pos3};
pub use sim::{Step, ViewerId};
