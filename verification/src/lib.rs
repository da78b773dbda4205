//! Weighted finite-state transducers: lazy machines and their materialization,
//! determinization, pruning, and the tables behind them.

pub mod bytes;
pub mod compose;
pub mod connect;
pub mod convert_laws;
pub mod determinize;
pub mod error;
pub mod factor_laws;
pub mod factor_success_laws;
pub mod factor_weight;
pub mod fst;
pub mod fx_hasher;
pub mod lazy;
pub mod message;
pub mod parsers;
pub mod paths;
pub mod prune;
pub mod prune_flag_laws;
pub mod prune_laws;
pub mod prune_property_laws;
pub mod prune_success_laws;
pub mod reprune_laws;
pub mod semirings;
pub mod settle_laws;
pub mod shortest_distance;
pub mod weight_convert;
