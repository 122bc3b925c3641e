//! A hierarchical small-world graph: layers of links, each node on the lowest
//! and fewer on each above. A query walks greedily down the upper layers and
//! searches the lowest with a beam.
pub mod codec;
pub mod exact;
pub mod freeze;
pub mod graph;
pub mod index;
pub mod linking;
pub mod load;
pub mod local;
pub mod ranked;
pub mod roundtrip;
pub mod search;
pub mod validate;
pub mod visited;
