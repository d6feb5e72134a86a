//! A multi-lane Raft consensus core, written as a set of deterministic state
//! machines: every operation takes plain values and returns plain values, so the
//! embedding program owns all timers, storage devices and sockets.

pub mod agreement;
pub mod ballot;
pub mod clock;
pub mod cluster;
pub mod command;
pub mod command_log;
pub mod commitment;
pub mod driver;
pub mod entry;
pub mod error;
pub mod event;
pub mod heartbeat;
pub mod index_key;
pub mod log_model;
pub mod log_store;
pub mod membership;
pub mod ordered_map;
pub mod peers;
pub mod process;
pub mod protocol;
pub mod quorum_join;
pub mod retained_log;
pub mod safety;
pub mod snapshot;
pub mod storage;
pub mod thread;
pub mod voter;
pub mod wire;
