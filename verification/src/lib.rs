pub mod balance;
pub mod bvecs;
pub mod bytes;
pub mod calendar;
pub mod distance;
pub mod draws;
pub mod event_loop;
pub mod head;
pub mod health;
pub mod hnsw;
pub mod input;
pub mod ivf;
pub mod knn;
pub mod loader;
pub mod nearest;
pub mod normalizer;
pub mod score;
pub mod server;
pub mod top;
pub mod touch;
pub mod tree;
pub mod types;
