//! Epidemic membership and liveness propagation: versioned node records, a
//! membership table that never regresses, random peer selection, and the
//! decisions of the heartbeat emitter and the gossip receiver.

pub mod record;
pub mod table;
pub mod selector;
pub mod watcher;
pub mod laws;
pub mod registration;
pub mod ooze;
