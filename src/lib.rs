//! A data-structure server's command layer laid over a flat, ordered,
//! transactional key-value store: the key codec, the per-type command
//! contexts, the command values, and the cluster slot topology.
pub mod encoding;
pub mod frame;
pub mod store;
pub mod record;
pub mod string;
pub mod hash;
pub mod set;
pub mod zset;
pub mod list;
pub mod txn_scope;
pub mod cmd;
pub mod cluster;
