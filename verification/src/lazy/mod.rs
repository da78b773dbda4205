//! Machines whose states are computed when they are asked for.

pub mod cache;
pub mod failure_laws;
pub mod fst_op;
pub mod laws;
pub mod lazy_fst;
pub mod null_cache;
pub mod reach_laws;
pub mod simulation_laws;
pub mod steady_laws;
pub mod unsync_hash_map_cache;
pub mod unsync_vec_cache;
pub mod walk_laws;
