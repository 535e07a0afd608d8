//! Read-depth analysis of aligned sequencing reads: a windowed depth
//! accumulator, depth normalization, copy-number hypothesis scoring support,
//! breakpoint event pairing, edge refinement, and cluster merging.

pub mod alignment;
pub mod cluster;
pub mod edge;
pub mod event_pair;
pub mod frontend;
pub mod histogram;
pub mod scanner;
pub mod validate;
pub mod window;
pub mod window_model;
