//! Engine-independent core of a client/server state-replication protocol
//! for a multiplayer game.
//!
//! A server holds the authoritative position of every player entity and
//! tells its clients which entities exist and where they stand; each client
//! mirrors that state and reports its own input and position. Messages
//! travel over logical channels of a connection-oriented transport on UDP:
//! lifecycle events and client reports reliably and in order, the per-tick
//! position snapshot unreliably.
//!
//! - [`channel`]: the channels of both directions and their delivery
//!   policies.
//! - [`wire`]: the fixed-size messages and their binary encoding.
//! - [`snapshot`]: the bulk position snapshot and its encoding.
//! - [`server`]: the authority over the entities, as a state machine over
//!   connection events and client reports.
//! - [`client`]: the mirror of the authority's entities, as a state machine
//!   over lifecycle messages and snapshots.
//! - [`spawn`]: where a newly connected player is placed.
//! - [`transport`]: one tick of either side over the connection values of
//!   the `renet` crate.
//! - [`agreement`]: why a client that has handled its lifecycle messages
//!   knows the players that the server knows.
//!
//! Every function is verified with Verus against the contract it carries.
//! What is taken on trust about `renet` and `fastrand` is stated, item by
//! item, in [`transport`].

pub mod agreement;
pub mod channel;
pub mod client;
pub mod server;
pub mod snapshot;
pub mod spawn;
pub mod transport;
pub mod wire;
