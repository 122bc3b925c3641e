//! A KD-tree index over quantised vectors, one tree for each of eight
//! partitions.
pub mod best;
pub mod check;
pub mod codec;
pub mod grow;
pub mod index;
pub mod kernel;
pub mod measure;
pub mod model;
pub mod order;
pub mod search;
pub mod walk;
