//! An inverted-file index: vectors in buckets, each around a centroid. A query
//! looks into the buckets of its nearest centroids only.
pub mod buckets;
pub mod builder;
pub mod codec;
pub mod index;
pub mod kmeans;
pub mod means;
