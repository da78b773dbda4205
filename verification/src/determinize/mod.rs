//! Determinization of weighted automata and transducers.

pub mod ambiguity_laws;
pub mod c_config;
pub mod determinize_fsa;
pub mod determinize_fsa_op;
pub mod determinize_static;
pub mod disambiguation_laws;
pub mod disambiguation_rounding;
pub mod distance_laws;
pub mod divisor_laws;
pub mod divisors;
pub mod element;
pub mod expansion_laws;
pub mod known_laws;
pub mod laws;
pub mod lean_laws;
pub mod limit_laws;
pub mod output_series;
pub mod plain_laws;
pub mod reason_laws;
pub mod refusal_laws;
pub mod relax_laws;
pub mod rounding_laws;
pub mod state_table;
pub mod static_laws;
pub mod success_laws;
pub mod table_laws;
pub mod transducer_laws;
pub mod transducer_success_laws;
