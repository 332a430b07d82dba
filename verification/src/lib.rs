//! Verified core of a BitTorrent torrent manager: the torrent's state machine
//! and the rules it is built from, block bookkeeping, and file probing
//! outcomes.
pub mod probe;
pub mod block_manager;
pub mod block_laws;
pub mod deletion;
pub mod storage;
pub mod state;
pub mod tracker;
pub mod text;
pub mod activity;
pub mod metainfo;
pub mod disk;
pub mod geometry;
pub mod assign;
pub mod session;
pub mod lifecycle;
pub mod state_laws;
pub mod metrics;
pub mod peer;
pub mod machine;
pub mod machine_laws;
