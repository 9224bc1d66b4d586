//! Clustering of songs by their audio features: a divergence metric, a graph
//! of strongly diverging pairs, k-means partitioning, near-duplicate removal
//! and per-cluster year averages.

pub mod error;
pub mod song;
pub mod graph;
pub mod kmeans;
pub mod dedupe;
pub mod aggregate;
pub mod pipeline;

pub use aggregate::{average_cluster_year, YearAverage};
pub use dedupe::get_unique_clusters;
pub use error::ClusterError;
pub use graph::{create_dgraph, SongGraph, THRESHOLD};
pub use pipeline::{analyze, Analysis};
pub use kmeans::{kmeans_cluster, kmeans_from_seeds, Cluster};
pub use song::{floor_sqrt, squared_divergence, Point, Song, SCALE};
