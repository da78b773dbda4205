//! Reading and writing the file formats of machines.

pub mod bin_symt;
pub mod layout_laws;
