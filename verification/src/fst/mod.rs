//! Transitions, symbol tables and mutable machines.

pub mod build_laws;
pub mod keep_laws;
pub mod properties;
pub mod property_laws;
pub mod symbol_table;
pub mod tr;
pub mod vector_fst;
