//! The contract state: the certificate store with its indices, and the
//! administrative settings. Certificates are recorded once and never
//! changed or removed.

use vstd::prelude::*;
use crate::calendar::timestamp_to_year_month;
use crate::catalog::{
    consistent, empty_catalog, empty_catalog_is_consistent, lemma_recorded_consistent, recorded,
    with_tables, CatalogView, RECENT_TOKENS_LIMIT,
};
use crate::merkle::{
    compute_root, generate_proof, leaf_verifies, merkle_proof, merkle_root, texts, verify_leaf,
};
use crate::string_map::{add_id, IdIndex, StringMap};
use crate::time_index::TimeIndex;
use crate::types::{BatchInfo, BatchInfoView, BatchSummary, BatchSummaryView};

verus! {

/// `near_sdk::AccountId`, the name of an account. The contract carries
/// such a value and never looks into it.
#[verifier::external_type_specification]
#[verifier::external_body]
pub struct ExAccountId(near_sdk::AccountId);

/// The share of a fee, in percent, that goes to the treasury.
pub const ETRAP_FEE_PERCENTAGE: u16 = 25;

/// The number of bytes of storage that a mint is taken to need.
pub const MINT_STORAGE_BYTES: u128 = 4000;

/// The administrative settings.
pub struct ETRAPSettings {
    pub fee_percentage: u16,
    pub etrap_treasury: near_sdk::AccountId,
    pub paused: bool,
}

/// Why an operation was refused.
#[derive(Clone, Copy, Debug, PartialEq, Eq, Structural)]
pub enum ContractError {
    /// Minting is paused.
    Paused,
    /// A certificate with this id is recorded already.
    AlreadyExists,
    /// The deposit does not cover the storage of a certificate.
    InsufficientDeposit,
    /// No certificate with this id is recorded.
    NotFound,
}

impl ContractError {
    /// The message of the error.
    pub fn message(&self) -> (text: String)
        ensures
            text@ == match *self {
                ContractError::Paused => "Contract is paused"@,
                ContractError::AlreadyExists => "Token already exists"@,
                ContractError::InsufficientDeposit => "Insufficient deposit for storage"@,
                ContractError::NotFound => "Batch not found"@,
            },
    {
        match self {
            ContractError::Paused => "Contract is paused".to_owned(),
            ContractError::AlreadyExists => "Token already exists".to_owned(),
            ContractError::InsufficientDeposit => "Insufficient deposit for storage".to_owned(),
            ContractError::NotFound => "Batch not found".to_owned(),
        }
    }
}

/// The error that refuses a mint, if one does: a paused contract, then an
/// id that exists, then a deposit below the cost of the storage.
pub open spec fn mint_refusal(
    paused: bool,
    exists: bool,
    attached_deposit: u128,
    storage_byte_cost: u128,
) -> Option<ContractError> {
    if paused {
        Some(ContractError::Paused)
    } else if exists {
        Some(ContractError::AlreadyExists)
    } else if attached_deposit < storage_byte_cost * MINT_STORAGE_BYTES {
        Some(ContractError::InsufficientDeposit)
    } else {
        None
    }
}

/// The certificate store and its indices.
pub(crate) struct Catalog {
    pub(crate) batch_summaries: StringMap<BatchSummary>,
    pub(crate) tokens_by_database: IdIndex,
    pub(crate) tokens_by_month: IdIndex,
    pub(crate) tokens_by_timestamp: TimeIndex,
    pub(crate) recent_tokens: Vec<String>,
    pub(crate) tokens_by_table: IdIndex,
    pub(crate) total_batches_per_database: StringMap<u64>,
    pub(crate) database_list: Vec<String>,
}

impl View for Catalog {
    type V = CatalogView;

    open(crate) spec fn view(&self) -> CatalogView {
        CatalogView {
            summaries: self.batch_summaries@.map_values(|summary: BatchSummary| summary@),
            by_database: self.tokens_by_database@,
            by_month: self.tokens_by_month@,
            by_timestamp: self.tokens_by_timestamp@,
            recent: texts(self.recent_tokens@),
            by_table: self.tokens_by_table@,
            counts: self.total_batches_per_database@.map_values(|count: u64| count as nat),
            databases: texts(self.database_list@),
        }
    }
}

/// The contract: the catalog of certificates, which is consistent at all
/// times, and the settings.
pub struct ETRAPContract {
    pub(crate) catalog: Catalog,
    pub(crate) etrap_settings: ETRAPSettings,
}

impl View for ETRAPContract {
    type V = CatalogView;

    open(crate) spec fn view(&self) -> CatalogView {
        self.catalog@
    }
}

fn add_to_tables(index: &mut IdIndex, tables: &Vec<String>, id: &String)
    ensures
        final(index)@ == with_tables(old(index)@, texts(tables@), id@),
{
    let ghost names = texts(tables@);
    let mut i: usize = 0;
    assert(names.take(0) =~= Seq::<Seq<char>>::empty());
    while i < tables.len()
        invariant
            i <= tables@.len(),
            names == texts(tables@),
            index@ == with_tables(old(index)@, names.take(i as int), id@),
        decreases tables@.len() - i,
    {
        index.add_member(&tables[i], id.clone());
        proof {
            let upto = names.take(i as int + 1);
            assert(upto.drop_last() =~= names.take(i as int));
            assert(upto.last() == tables@[i as int]@);
        }
        i = i + 1;
    }
    assert(names.take(i as int) =~= names);
}

impl Catalog {
    /// The catalog is consistent.
    pub(crate) open spec fn wf(&self) -> bool {
        consistent(self@)
    }

    pub(crate) fn new() -> (catalog: Self)
        ensures
            catalog.wf(),
            catalog@ == empty_catalog(),
    {
        let catalog = Catalog {
            batch_summaries: StringMap::new(),
            tokens_by_database: IdIndex::new(),
            tokens_by_month: IdIndex::new(),
            tokens_by_timestamp: TimeIndex::new(),
            recent_tokens: Vec::new(),
            tokens_by_table: IdIndex::new(),
            total_batches_per_database: StringMap::new(),
            database_list: Vec::new(),
        };
        proof {
            assert(catalog@.summaries =~= Map::<Seq<char>, BatchSummaryView>::empty());
            assert(catalog@.counts =~= Map::<Seq<char>, nat>::empty());
            assert(catalog@.recent =~= Seq::<Seq<char>>::empty());
            assert(catalog@.databases =~= Seq::<Seq<char>>::empty());
            assert(catalog@ == empty_catalog());
            empty_catalog_is_consistent();
        }
        catalog
    }

    pub(crate) fn record(&mut self, token_id: String, batch_summary: BatchSummary) -> (info:
        BatchInfo)
        requires
            old(self).wf(),
            !old(self)@.summaries.contains_key(token_id@),
        ensures
            final(self).wf(),
            final(self)@ == recorded(old(self)@, token_id@, batch_summary@),
            info@ == (BatchInfoView { token_id: token_id@, batch_summary: batch_summary@ }),
    {
        let ghost before = self@;
        let database = batch_summary.database_name.clone();
        let timestamp = batch_summary.timestamp;
        let year_month = timestamp_to_year_month(timestamp);

        self.tokens_by_database.add_member(&database, token_id.clone());
        self.tokens_by_month.append(&year_month, token_id.clone());
        self.tokens_by_timestamp.insert(timestamp, token_id.clone());
        add_to_tables(&mut self.tokens_by_table, &batch_summary.table_names, &token_id);

        self.recent_tokens.push(token_id.clone());
        if self.recent_tokens.len() > RECENT_TOKENS_LIMIT {
            self.recent_tokens.swap_remove(0);
        }
        let info = BatchInfo { token_id: token_id.clone(), batch_summary: batch_summary.clone() };
        self.batch_summaries.insert(token_id, batch_summary);

        let earlier: u64 = match self.total_batches_per_database.get(&database) {
            Some(count) => *count,
            None => 0,
        };
        proof {
            lemma_recorded_consistent(before, token_id@, batch_summary@);
            let after = recorded(before, token_id@, batch_summary@);
            self.tokens_by_database.lemma_list_len(database@);
            assert(after.counts[database@] == after.by_database[database@].len());
        }
        self.total_batches_per_database.insert(database.clone(), earlier + 1);
        add_id(&mut self.database_list, database);
        proof {
            let after = recorded(before, token_id@, batch_summary@);
            assert(self@.summaries =~= after.summaries);
            assert(self@.counts =~= after.counts);
            assert(self@.recent =~= after.recent);
            assert(self@ == after);
        }
        info
    }
}

impl ETRAPContract {
    #[verifier::type_invariant]
    pub(crate) open spec fn well_formed(self) -> bool {
        self.catalog.wf()
    }

    /// The settings of the contract.
    pub open(crate) spec fn settings(&self) -> ETRAPSettings {
        self.etrap_settings
    }

    /// A contract without certificates, not paused, with the standard fee.
    pub fn new(etrap_treasury: near_sdk::AccountId) -> (contract: Self)
        ensures
            contract@ == empty_catalog(),
            consistent(contract@),
            contract.settings().fee_percentage == ETRAP_FEE_PERCENTAGE,
            contract.settings().etrap_treasury == etrap_treasury,
            !contract.settings().paused,
    {
        ETRAPContract {
            catalog: Catalog::new(),
            etrap_settings: ETRAPSettings {
                fee_percentage: ETRAP_FEE_PERCENTAGE,
                etrap_treasury,
                paused: false,
            },
        }
    }

    /// Records a certificate: stores its summary and enters its id into
    /// every index. An id that is recorded already is refused and nothing
    /// changes.
    pub fn internal_mint_with_indices(&mut self, token_id: String, batch_summary: BatchSummary) -> (result:
        Result<BatchInfo, ContractError>)
        ensures
            final(self).settings() == old(self).settings(),
            consistent(final(self)@),
            match result {
                Ok(info) => {
                    &&& !old(self)@.summaries.contains_key(token_id@)
                    &&& final(self)@ == recorded(old(self)@, token_id@, batch_summary@)
                    &&& info@ == (BatchInfoView {
                        token_id: token_id@,
                        batch_summary: batch_summary@,
                    })
                },
                Err(error) => {
                    &&& old(self)@.summaries.contains_key(token_id@)
                    &&& error == ContractError::AlreadyExists
                    &&& *final(self) == *old(self)
                },
            },
    {
        proof {
            use_type_invariant(&*self);
        }
        if self.catalog.batch_summaries.contains_key(&token_id) {
            return Err(ContractError::AlreadyExists);
        }
        let mut catalog = Catalog::new();
        std::mem::swap(&mut catalog, &mut self.catalog);
        let info = catalog.record(token_id, batch_summary);
        self.catalog = catalog;
        Ok(info)
    }

    /// Mints a certificate: checks that minting is allowed, that the id is
    /// new and that the deposit covers the storage, then records it.
    pub fn mint_batch(
        &mut self,
        token_id: String,
        batch_summary: BatchSummary,
        attached_deposit: u128,
        storage_byte_cost: u128,
    ) -> (result: Result<BatchInfo, ContractError>)
        ensures
            final(self).settings() == old(self).settings(),
            consistent(final(self)@),
            match mint_refusal(
                old(self).settings().paused,
                old(self)@.summaries.contains_key(token_id@),
                attached_deposit,
                storage_byte_cost,
            ) {
                Some(error) => result == Err::<BatchInfo, ContractError>(error) && *final(self)
                    == *old(self),
                None => {
                    &&& result is Ok
                    &&& result->Ok_0@ == (BatchInfoView {
                        token_id: token_id@,
                        batch_summary: batch_summary@,
                    })
                    &&& final(self)@ == recorded(old(self)@, token_id@, batch_summary@)
                },
            },
    {
        proof {
            use_type_invariant(&*self);
        }
        if self.etrap_settings.paused {
            return Err(ContractError::Paused);
        }
        if self.catalog.batch_summaries.contains_key(&token_id) {
            return Err(ContractError::AlreadyExists);
        }
        let covered = match storage_byte_cost.checked_mul(MINT_STORAGE_BYTES) {
            Some(cost) => attached_deposit >= cost,
            None => false,
        };
        if !covered {
            return Err(ContractError::InsufficientDeposit);
        }
        self.internal_mint_with_indices(token_id, batch_summary)
    }

    /// Checks that a document lies in the batch of a certificate: that the
    /// certificate is recorded and the proof verifies against its root.
    pub fn verify_document_in_batch(
        &self,
        token_id: String,
        document_hash: String,
        merkle_proof: Vec<String>,
        leaf_index: u32,
    ) -> (valid: bool)
        ensures
            valid == (self@.summaries.contains_key(token_id@) && leaf_verifies(
                document_hash@,
                texts(merkle_proof@),
                leaf_index as int,
                self@.summaries[token_id@].merkle_root,
            )),
    {
        proof {
            use_type_invariant(self);
        }
        match self.catalog.batch_summaries.get(&token_id) {
            Some(summary) => verify_leaf(
                &document_hash,
                &merkle_proof,
                leaf_index,
                &summary.merkle_root,
            ),
            None => false,
        }
    }

    /// Computes the Merkle root over transaction hashes.
    pub fn compute_merkle_root(&self, transaction_hashes: Vec<String>, use_sha256: bool) -> (root:
        String)
        ensures
            root@ == merkle_root(texts(transaction_hashes@), use_sha256),
    {
        compute_root(&transaction_hashes, use_sha256)
    }

    /// Generates the inclusion proof of one transaction.
    pub fn generate_merkle_proof(&self, transactions: Vec<String>, tx_index: u32, use_sha256: bool)
        -> (proof: Vec<String>)
        ensures
            texts(proof@) == merkle_proof(texts(transactions@), tx_index as int, use_sha256),
    {
        generate_proof(&transactions, tx_index, use_sha256)
    }

    /// Pauses or resumes minting.
    pub fn set_paused(&mut self, paused: bool)
        ensures
            final(self).settings().paused == paused,
            final(self).settings().fee_percentage == old(self).settings().fee_percentage,
            final(self).settings().etrap_treasury == old(self).settings().etrap_treasury,
            final(self)@ == old(self)@,
    {
        proof {
            use_type_invariant(&*self);
        }
        self.etrap_settings.paused = paused;
    }

    /// The settings of the contract.
    pub fn get_settings(&self) -> (settings: &ETRAPSettings)
        ensures
            *settings == self.settings(),
    {
        &self.etrap_settings
    }

    /// Names a new treasury.
    pub fn update_treasury(&mut self, new_treasury: near_sdk::AccountId)
        ensures
            final(self).settings().etrap_treasury == new_treasury,
            final(self).settings().fee_percentage == old(self).settings().fee_percentage,
            final(self).settings().paused == old(self).settings().paused,
            final(self)@ == old(self)@,
    {
        proof {
            use_type_invariant(&*self);
        }
        self.etrap_settings.etrap_treasury = new_treasury;
    }
}

} // verus!
