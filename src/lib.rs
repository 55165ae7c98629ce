//! Greedy agglomerative clustering of word embeddings into a binary
//! dendrogram, one round of best-partner merging at a time.

pub mod tree;
pub mod error;
pub mod embedding;
pub mod similarity;
pub mod centroid;
pub mod engine;
pub mod plan;
pub mod resolve;
pub mod invariants;
pub mod driver;
pub mod laws;

pub use centroid::{centroid_sum, dot_sums, sim_greater};
pub use driver::{cluster, singletons};
pub use embedding::{EmbeddingMatrix, MAX_DIM, MAX_ROWS};
pub use engine::ForestSums;
pub use error::ClusterError;
pub use plan::merge_plan;
pub use resolve::{cluster_step, resolve_merges};
pub use similarity::{PairSim, Similarity};
pub use tree::{copy_tree, flatten_b_tree, flatten_recursive, format_b_tree, format_b_tree_indices, BTree};
