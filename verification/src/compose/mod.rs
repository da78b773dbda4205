//! Naming the state pairs that a composition meets, in memory or on disk.

pub mod accounting;
pub mod compose_state_store;
pub mod disk_laws;
pub mod disk_store;
pub mod failure;
pub mod memory_store;
pub mod migration;
pub mod request_laws;
pub mod room_laws;
pub mod scratch;
pub mod slots;
pub mod store_laws;
pub mod tuple;
