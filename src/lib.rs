//! A sharded, replicated key-value store: the storage engine, the command
//! log and its record codec, the connection protocol, replication fan-out,
//! and the namespace allocation and failover rules of the coordinator.

pub mod allocation;
pub mod codec;
pub mod command_log;
pub mod failover;
pub mod gateway;
pub mod message;
pub mod options;
pub mod replication;
pub mod session;
pub mod store;

pub use allocation::{select_key_owner, NamespaceAllocation};
pub use command_log::{CommandLog, LogLine};
pub use message::{Command, CommandView, Connect, ConnectOk, Message, Node, ReplicationCommand};
pub use options::{StartKVServerOptions, StartPingOptions, StartReplOptions};
pub use replication::{ReplicationPeer, ReplicationPeers};
pub use store::KV;
