//! Near-duplicate clustering of embedding vectors by cosine similarity.
//!
//! Embeddings are fixed-point integer vectors (`vector_space::UNIT` stands for 1.0),
//! so similarities are exact inner products and every strategy is verified to produce
//! a disjoint partition whose clusters respect the similarity threshold and the
//! minimum size.
pub mod community;
pub mod config;
pub mod massive;
pub mod merge;
pub mod partition;
pub mod phatic;
pub mod projection;
pub mod strategy;
pub mod vector_space;

pub use community::{
    count_scores_over_threshold, idx_over_threshold, push_clusters, similarity_window, Clusters,
    Community,
};
pub use config::{ClusterError, Config, CHUNK_SIZE, MIN_CLUSTER_SIZE, MIN_SIMILARITY, SIMILARITY_ONE};
pub use massive::{assign_stragglers, check_separation, cluster_massive};
pub use merge::{
    centroids, clustered_document_indexes, count_docs_in_clusters, get_embeddings, merge_clusters,
    merge_community,
};
pub use partition::{sort_by_size, unique_clusters};
pub use phatic::phatic_by_word_count;
pub use projection::tsne_perplexity;
pub use strategy::{
    cluster_no_splitting, cluster_no_splitting_view, cluster_using_ndarray,
    cluster_using_ndarray_batched, cluster_using_ndarray_batched_unique_on_the_go,
    cluster_using_ndarray_low_memory, vectors_to_array,
};
pub use vector_space::{dot_product, normalize, normalize_all_inplace, Embedding, UNIT};
