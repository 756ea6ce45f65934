//! Replication: the wire protocol, the leader-side segment server state,
//! and the replica-side agent with its persistent state, health tracking
//! and retry backoff.

pub mod backoff;
pub mod health;
pub mod leader;
pub mod metrics;
pub mod protocol;
pub mod registry;
pub mod replica;
pub mod state;
