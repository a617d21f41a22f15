//! The records that a certificate is made of, and their mathematical views.

use vstd::prelude::*;
use crate::merkle::texts;

verus! {

/// How many operations of each kind a batch holds.
#[derive(Clone, Copy, Debug, PartialEq, Eq, Structural)]
pub struct OperationCounts {
    pub inserts: u32,
    pub updates: u32,
    pub deletes: u32,
}

/// What a certificate records of its batch.
#[derive(Debug, PartialEq, Eq)]
pub struct BatchSummary {
    pub database_name: String,
    pub table_names: Vec<String>,
    /// Milliseconds since the epoch.
    pub timestamp: u64,
    pub tx_count: u32,
    pub merkle_root: String,
    pub s3_bucket: String,
    pub s3_key: String,
    pub size_bytes: u64,
    pub operation_counts: OperationCounts,
}

/// A batch summary as plain mathematical values.
pub struct BatchSummaryView {
    pub database_name: Seq<char>,
    pub table_names: Seq<Seq<char>>,
    pub timestamp: u64,
    pub tx_count: u32,
    pub merkle_root: Seq<char>,
    pub s3_bucket: Seq<char>,
    pub s3_key: Seq<char>,
    pub size_bytes: u64,
    pub operation_counts: OperationCounts,
}

impl View for BatchSummary {
    type V = BatchSummaryView;

    open spec fn view(&self) -> BatchSummaryView {
        BatchSummaryView {
            database_name: self.database_name@,
            table_names: texts(self.table_names@),
            timestamp: self.timestamp,
            tx_count: self.tx_count,
            merkle_root: self.merkle_root@,
            s3_bucket: self.s3_bucket@,
            s3_key: self.s3_key@,
            size_bytes: self.size_bytes,
            operation_counts: self.operation_counts,
        }
    }
}

/// Copies a list of strings, text for text.
pub fn clone_strings(strings: &Vec<String>) -> (copy: Vec<String>)
    ensures
        texts(copy@) == texts(strings@),
{
    let mut copy: Vec<String> = Vec::new();
    let mut i: usize = 0;
    while i < strings.len()
        invariant
            i <= strings@.len(),
            copy@.len() == i,
            forall|k: int| 0 <= k < i ==> (#[trigger] copy@[k])@ == strings@[k]@,
        decreases strings@.len() - i,
    {
        copy.push(strings[i].clone());
        i = i + 1;
    }
    assert(texts(copy@) =~= texts(strings@));
    copy
}

impl Clone for BatchSummary {
    fn clone(&self) -> (copy: Self)
        ensures
            copy@ == self@,
    {
        BatchSummary {
            database_name: self.database_name.clone(),
            table_names: clone_strings(&self.table_names),
            timestamp: self.timestamp,
            tx_count: self.tx_count,
            merkle_root: self.merkle_root.clone(),
            s3_bucket: self.s3_bucket.clone(),
            s3_key: self.s3_key.clone(),
            size_bytes: self.size_bytes,
            operation_counts: self.operation_counts,
        }
    }
}

/// A certificate as queries return it: its id and its batch summary. The
/// owner and the descriptive metadata of a certificate live with the
/// ownership ledger, under the same id.
#[derive(Debug, PartialEq, Eq)]
pub struct BatchInfo {
    pub token_id: String,
    pub batch_summary: BatchSummary,
}

/// A returned certificate as plain mathematical values.
pub struct BatchInfoView {
    pub token_id: Seq<char>,
    pub batch_summary: BatchSummaryView,
}

impl View for BatchInfo {
    type V = BatchInfoView;

    open spec fn view(&self) -> BatchInfoView {
        BatchInfoView { token_id: self.token_id@, batch_summary: self.batch_summary@ }
    }
}

/// The views of a list of returned certificates.
pub open spec fn info_views(infos: Seq<BatchInfo>) -> Seq<BatchInfoView> {
    Seq::new(infos.len(), |i: int| infos[i]@)
}

/// One page of certificates.
#[derive(Debug, PartialEq, Eq)]
pub struct BatchSearchResult {
    pub batches: Vec<BatchInfo>,
    /// How many certificates the whole listing holds.
    pub total_count: u64,
    /// Whether certificates follow after this page.
    pub has_more: bool,
}

/// The operation counts of a Merkle-tree batch.
#[derive(Clone, Copy, Debug, PartialEq, Eq, Structural)]
pub struct OperationsSummary {
    pub inserts: u32,
    pub updates: u32,
    pub deletes: u32,
}

/// The time window and size of a Merkle-tree batch.
#[derive(Clone, Copy, Debug, PartialEq, Eq, Structural)]
pub struct BatchSummaryInfo {
    pub start_timestamp: u64,
    pub end_timestamp: u64,
    pub total_transactions: u32,
    pub operations_summary: OperationsSummary,
}

/// Where and at what cost a batch was anchored on chain.
#[derive(Clone, Debug, PartialEq, Eq)]
pub struct AnchoringData {
    pub block_height: u64,
    pub tx_hash: String,
    pub gas_used: String,
    pub etrap_fee: String,
}

/// The full description of a batch whose tree is kept off chain.
#[derive(Clone, Debug, PartialEq, Eq)]
pub struct MerkleTreeBatchSummary {
    pub merkle_root: String,
    pub leaf_count: u32,
    pub hash_algorithm: String,
    pub batch_id: String,
    pub organization_id: String,
    pub database_name: String,
    pub batch_summary: BatchSummaryInfo,
    pub s3_bucket: String,
    pub s3_prefix: String,
    pub anchoring_data: AnchoringData,
}

} // verus!
