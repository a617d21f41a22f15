//! Batch certificates for audited database changes.
//!
//! A certificate binds the Merkle root of a batch of transaction hashes to
//! the batch's descriptive data. The crate holds the Merkle engine (roots,
//! inclusion proofs and their verification), the catalog of secondary
//! indices that every recorded certificate is projected into, and the
//! read-only queries over that catalog.

pub mod hashing;
pub mod merkle;
pub mod inclusion;
pub mod types;
pub mod calendar;
pub mod string_map;
pub mod time_index;
pub mod catalog;
pub mod contract;
pub mod queries;

pub use catalog::RECENT_TOKENS_LIMIT;
pub use contract::{ContractError, ETRAPContract, ETRAPSettings, ETRAP_FEE_PERCENTAGE};
pub use queries::BatchStats;
pub use types::{
    AnchoringData, BatchInfo, BatchSearchResult, BatchSummary, BatchSummaryInfo,
    MerkleTreeBatchSummary, OperationCounts, OperationsSummary,
};
