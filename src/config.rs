//! Parameters of a clustering run and the errors a run can end with.
use vstd::prelude::*;

verus! {

/// Scale of a similarity score: a score `s` stands for the cosine similarity
/// `s / SIMILARITY_ONE`. It is the square of the component scale `UNIT`.
pub const SIMILARITY_ONE: i64 = 0x1_0000_0000_0000;

/// Default similarity threshold, 0.70 on the scale of `SIMILARITY_ONE`.
pub const MIN_SIMILARITY: i64 = 197_032_483_697_459;

/// Default minimum size: a cluster needs strictly more members than this.
pub const MIN_CLUSTER_SIZE: usize = 5;

/// Default number of rows in one block of the chunked strategies.
pub const CHUNK_SIZE: usize = 1000;

/// Why a run did not produce a partition.
#[derive(Debug, Clone, Copy, PartialEq, Eq, Structural)]
pub enum ClusterError {
    /// No vectors, or vectors of different lengths.
    InputShape,
    /// A threshold outside the open interval (0, 1), a minimum size of zero, or a block size of zero.
    Configuration,
    /// Two clusters of the final partition have centroids more similar than the threshold.
    InvariantViolation { first: usize, second: usize, score: i128 },
}

/// The knobs of a run: similarity threshold, minimum cluster size and block size.
#[derive(Debug, Clone, Copy, PartialEq, Eq, Structural)]
pub struct Config {
    /// A document joins a cluster when its similarity to the centroid is strictly above this.
    pub min_similarity: i64,
    /// A cluster is kept when it has strictly more members than this.
    pub min_cluster_size: usize,
    /// Rows per block in the chunked strategies; does not change the partition.
    pub chunk_size: usize,
}

/// The values that a run accepts.
pub open spec fn config_ok(min_similarity: int, min_cluster_size: int, chunk_size: int) -> bool {
    &&& 0 < min_similarity < SIMILARITY_ONE
    &&& min_cluster_size >= 1
    &&& chunk_size >= 1
}

impl Config {
    pub open spec fn wf(&self) -> bool {
        config_ok(self.min_similarity as int, self.min_cluster_size as int, self.chunk_size as int)
    }

    /// A checked configuration; out-of-range values are a configuration error.
    pub fn new(min_similarity: i64, min_cluster_size: usize, chunk_size: usize) -> (r: Result<
        Config,
        ClusterError,
    >)
        ensures
            config_ok(min_similarity as int, min_cluster_size as int, chunk_size as int) <==> r.is_ok(),
            r.is_ok() ==> r == Ok::<Config, ClusterError>(
                (Config { min_similarity, min_cluster_size, chunk_size }),
            ),
            r.is_err() ==> r == Err::<Config, ClusterError>(ClusterError::Configuration),
    {
        if min_similarity <= 0 || min_similarity >= SIMILARITY_ONE || min_cluster_size < 1
            || chunk_size < 1 {
            Err(ClusterError::Configuration)
        } else {
            Ok(Config { min_similarity, min_cluster_size, chunk_size })
        }
    }

    /// Whether the values are ones that a run accepts.
    pub fn is_valid(&self) -> (r: bool)
        ensures
            r == self.wf(),
    {
        self.min_similarity > 0 && self.min_similarity < SIMILARITY_ONE && self.min_cluster_size >= 1
            && self.chunk_size >= 1
    }

    /// The same configuration with another block size.
    pub fn with_chunk_size(self, chunk_size: usize) -> (r: Result<Config, ClusterError>)
        ensures
            r.is_ok() <==> config_ok(
                self.min_similarity as int,
                self.min_cluster_size as int,
                chunk_size as int,
            ),
            r.is_ok() ==> r == Ok::<Config, ClusterError>(
                (Config { chunk_size, ..self }),
            ),
            r.is_err() ==> r == Err::<Config, ClusterError>(ClusterError::Configuration),
    {
        Config::new(self.min_similarity, self.min_cluster_size, chunk_size)
    }
}

impl Default for Config {
    fn default() -> (r: Config)
        ensures
            r == (Config {
                min_similarity: MIN_SIMILARITY,
                min_cluster_size: MIN_CLUSTER_SIZE,
                chunk_size: CHUNK_SIZE,
            }),
            r.wf(),
    {
        Config {
            min_similarity: MIN_SIMILARITY,
            min_cluster_size: MIN_CLUSTER_SIZE,
            chunk_size: CHUNK_SIZE,
        }
    }
}

} // verus!
