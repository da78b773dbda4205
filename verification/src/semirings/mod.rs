//! Weight types and the interface they share.

pub mod gallic;
pub mod gallic_laws;
pub mod gallic_results;
pub mod gallic_union;
pub mod laws;
pub mod path_weights;
pub mod rounding;
pub mod semiring;
pub mod series;
pub mod tropical;
pub mod tropical_laws;
