//! Building the database: the passes over a trace that size, partition and fill it.
pub mod disjoint;
pub mod drive;
pub mod fill;
pub mod hilbert_partition;
pub mod hilbert_spec;
pub mod image;
pub mod layout;
pub mod nodes;
pub mod parser;
pub mod pass;
pub mod scout;
pub mod tenet;
