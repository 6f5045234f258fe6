//! A Raft consensus library. The consensus algorithm is a synchronous state machine that turns
//! ticks, messages and proposals into a list of actions; everything that touches a network, a disk
//! or a clock lives outside of it.

pub mod agreement;
pub mod calls;
pub mod clients;
pub mod cluster;
pub mod codec;
pub mod config;
pub mod driver;
pub mod durability;
pub mod duties;
pub mod election;
pub mod files;
pub mod frames;
pub mod kv;
pub mod kv_node;
pub mod laws;
pub mod model;
pub mod peer_link;
pub mod quorum;
pub mod raft;
pub mod reads;
pub mod replication;
pub mod statemachine;
pub mod storage;
pub mod text;
pub mod types;
