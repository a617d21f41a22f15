use etrap_nft::{
    BatchInfo, BatchSearchResult, BatchStats, BatchSummary, ContractError, ETRAPContract,
    OperationCounts, ETRAP_FEE_PERCENTAGE, RECENT_TOKENS_LIMIT,
};
use near_sdk::AccountId;

fn account(name: &str) -> AccountId {
    name.parse().unwrap()
}

fn contract() -> ETRAPContract {
    ETRAPContract::new(account("treasury.near"))
}

fn summary(database: &str, tables: &[&str], timestamp: u64) -> BatchSummary {
    BatchSummary {
        database_name: database.to_string(),
        table_names: tables.iter().map(|t| t.to_string()).collect(),
        timestamp,
        tx_count: 3,
        merkle_root: "abcd".to_string(),
        s3_bucket: "bucket".to_string(),
        s3_key: format!("{}/{}", database, timestamp),
        size_bytes: 1024,
        operation_counts: OperationCounts { inserts: 1, updates: 1, deletes: 1 },
    }
}

fn record(contract: &mut ETRAPContract, id: &str, summary: BatchSummary) {
    let info = contract.internal_mint_with_indices(id.to_string(), summary.clone()).unwrap();
    assert_eq!(info, BatchInfo { token_id: id.to_string(), batch_summary: summary });
}

fn ids(batches: &[BatchInfo]) -> Vec<String> {
    batches.iter().map(|b| b.token_id.clone()).collect()
}

fn names(items: &[&str]) -> Vec<String> {
    items.iter().map(|s| s.to_string()).collect()
}

#[test]
fn new_contract_is_empty_and_not_paused() {
    let contract = contract();
    assert_eq!(contract.get_settings().fee_percentage, ETRAP_FEE_PERCENTAGE);
    assert_eq!(contract.get_settings().fee_percentage, 25);
    assert_eq!(contract.get_settings().etrap_treasury, account("treasury.near"));
    assert!(!contract.get_settings().paused);
    assert!(contract.get_databases().is_empty());
    assert!(contract.get_recent_batches(None).is_empty());
    assert_eq!(contract.get_batch_summary("any".to_string()), None);
    assert_eq!(
        contract.get_batches_by_database("db".to_string(), None, None),
        BatchSearchResult { batches: vec![], total_count: 0, has_more: false }
    );
    assert!(contract.get_batches_by_time_range(0, u64::MAX, None, None).is_empty());
    assert!(contract.get_batches_by_table("t".to_string(), None).is_empty());
}

#[test]
fn recent_limit_is_one_hundred() {
    assert_eq!(RECENT_TOKENS_LIMIT, 100);
}

#[test]
fn record_enters_the_id_into_every_view() {
    let mut contract = contract();
    let s = summary("sales", &["orders", "items"], 86_400_000 * 40);
    record(&mut contract, "cert-1", s.clone());

    assert_eq!(contract.get_batch_summary("cert-1".to_string()), Some(s.clone()));
    assert_eq!(contract.get_databases(), names(&["sales"]));
    let page = contract.get_batches_by_database("sales".to_string(), None, None);
    assert_eq!(ids(&page.batches), names(&["cert-1"]));
    assert_eq!(page.total_count, 1);
    assert_eq!(ids(&contract.get_batches_by_table("orders".to_string(), None)), names(&["cert-1"]));
    assert_eq!(ids(&contract.get_batches_by_table("items".to_string(), None)), names(&["cert-1"]));
    assert_eq!(
        ids(&contract.get_batches_by_time_range(86_400_000 * 40, 86_400_000 * 40, None, None)),
        names(&["cert-1"])
    );
    assert_eq!(ids(&contract.get_recent_batches(None)), names(&["cert-1"]));
    assert_eq!(
        contract.get_batch_stats(None),
        Ok(BatchStats::Global {
            total_batches: 1,
            total_databases: 1,
            databases: names(&["sales"]),
            batches_per_database: vec![1],
        })
    );
}

#[test]
fn record_returns_the_certificate() {
    let mut contract = contract();
    let s = summary("sales", &["orders"], 1000);
    let info = contract.internal_mint_with_indices("cert-1".to_string(), s.clone());
    assert_eq!(info, Ok(BatchInfo { token_id: "cert-1".to_string(), batch_summary: s }));
}

#[test]
fn record_refuses_an_id_that_exists_and_changes_nothing() {
    let mut contract = contract();
    record(&mut contract, "cert-1", summary("sales", &["orders"], 1000));
    record(&mut contract, "cert-2", summary("sales", &["orders"], 2000));

    let again = contract.internal_mint_with_indices(
        "cert-1".to_string(),
        summary("hr", &["people"], 86_400_000 * 400),
    );
    assert_eq!(again, Err(ContractError::AlreadyExists));

    assert_eq!(
        contract.get_batch_summary("cert-1".to_string()),
        Some(summary("sales", &["orders"], 1000))
    );
    assert_eq!(contract.get_databases(), names(&["sales"]));
    let page = contract.get_batches_by_database("sales".to_string(), None, None);
    assert_eq!(ids(&page.batches), names(&["cert-1", "cert-2"]));
    assert_eq!(contract.get_batches_by_database("hr".to_string(), None, None).total_count, 0);
    assert!(contract.get_batches_by_table("people".to_string(), None).is_empty());
    assert_eq!(
        ids(&contract.get_batches_by_table("orders".to_string(), None)),
        names(&["cert-1", "cert-2"])
    );
    assert_eq!(
        ids(&contract.get_batches_by_time_range(0, u64::MAX, None, None)),
        names(&["cert-1", "cert-2"])
    );
    assert_eq!(ids(&contract.get_recent_batches(None)), names(&["cert-2", "cert-1"]));
    assert_eq!(
        contract.get_batch_stats(None),
        Ok(BatchStats::Global {
            total_batches: 2,
            total_databases: 1,
            databases: names(&["sales"]),
            batches_per_database: vec![2],
        })
    );
}

#[test]
fn record_counts_certificates_per_database() {
    let mut contract = contract();
    record(&mut contract, "a1", summary("alpha", &[], 1));
    record(&mut contract, "b1", summary("beta", &[], 2));
    record(&mut contract, "a2", summary("alpha", &[], 3));
    record(&mut contract, "a3", summary("alpha", &[], 4));
    assert_eq!(
        contract.get_batch_stats(None),
        Ok(BatchStats::Global {
            total_batches: 4,
            total_databases: 2,
            databases: names(&["alpha", "beta"]),
            batches_per_database: vec![3, 1],
        })
    );
    assert_eq!(contract.get_databases(), names(&["alpha", "beta"]));
}

#[test]
fn record_enters_a_repeated_table_once() {
    let mut contract = contract();
    record(&mut contract, "c1", summary("db", &["t", "u", "t"], 1));
    assert_eq!(ids(&contract.get_batches_by_table("t".to_string(), None)), names(&["c1"]));
    assert_eq!(ids(&contract.get_batches_by_table("u".to_string(), None)), names(&["c1"]));
}

#[test]
fn record_without_tables_enters_no_table() {
    let mut contract = contract();
    record(&mut contract, "c1", summary("db", &[], 1));
    assert!(contract.get_batches_by_table("".to_string(), None).is_empty());
    assert_eq!(ids(&contract.get_recent_batches(None)), names(&["c1"]));
}

#[test]
fn second_certificate_at_a_timestamp_takes_its_place_in_the_time_index() {
    let mut contract = contract();
    record(&mut contract, "first", summary("db", &[], 5000));
    record(&mut contract, "second", summary("db", &[], 5000));
    assert_eq!(
        ids(&contract.get_batches_by_time_range(0, 10_000, None, None)),
        names(&["second"])
    );
    // Both remain certificates.
    assert!(contract.get_batch_summary("first".to_string()).is_some());
    assert!(contract.get_batch_summary("second".to_string()).is_some());
    let page = contract.get_batches_by_database("db".to_string(), None, None);
    assert_eq!(ids(&page.batches), names(&["first", "second"]));
}

#[test]
fn recent_cache_holds_one_hundred_after_one_hundred_and_fifty() {
    let mut contract = contract();
    for i in 0..150u64 {
        record(&mut contract, &format!("cert-{}", i), summary("db", &[], i));
    }
    let recent = contract.get_recent_batches(Some(100));
    assert_eq!(recent.len(), 100);
    assert_eq!(contract.get_recent_batches(Some(1000)).len(), 100);
    assert_eq!(contract.get_recent_batches(Some(u64::MAX)).len(), 100);
    // Each id past the limit took the place at the head of the cache.
    let got = ids(&recent);
    assert_eq!(got[0], "cert-99");
    assert_eq!(got[1], "cert-98");
    assert_eq!(got[98], "cert-1");
    assert_eq!(got[99], "cert-149");
    assert!(!got.contains(&"cert-0".to_string()));
    assert!(!got.contains(&"cert-100".to_string()));
    assert!(!got.contains(&"cert-148".to_string()));
}

#[test]
fn recent_cache_evicts_the_head_by_swapping_in_the_last() {
    let mut contract = contract();
    for i in 0..101u64 {
        record(&mut contract, &format!("cert-{}", i), summary("db", &[], i));
    }
    let got = ids(&contract.get_recent_batches(Some(100)));
    assert_eq!(got.len(), 100);
    assert_eq!(got[0], "cert-99");
    assert_eq!(got[99], "cert-100");
    assert!(!got.contains(&"cert-0".to_string()));
}

#[test]
fn recent_batches_come_last_recorded_first() {
    let mut contract = contract();
    for i in 0..30u64 {
        record(&mut contract, &format!("cert-{}", i), summary("db", &[], i));
    }
    let all = ids(&contract.get_recent_batches(Some(100)));
    assert_eq!(all.len(), 30);
    assert_eq!(all[0], "cert-29");
    assert_eq!(all[29], "cert-0");
    assert_eq!(ids(&contract.get_recent_batches(Some(3))), names(&["cert-29", "cert-28", "cert-27"]));
    assert!(contract.get_recent_batches(Some(0)).is_empty());
}

#[test]
fn recent_batches_default_to_twenty() {
    let mut contract = contract();
    for i in 0..30u64 {
        record(&mut contract, &format!("cert-{}", i), summary("db", &[], i));
    }
    let got = ids(&contract.get_recent_batches(None));
    assert_eq!(got.len(), 20);
    assert_eq!(got[0], "cert-29");
    assert_eq!(got[19], "cert-10");
}

#[test]
fn mint_records_when_allowed() {
    let mut contract = contract();
    let s = summary("sales", &["orders"], 1000);
    let minted = contract.mint_batch("cert-1".to_string(), s.clone(), 4000, 1);
    assert_eq!(minted, Ok(BatchInfo { token_id: "cert-1".to_string(), batch_summary: s.clone() }));
    assert_eq!(contract.get_batch_summary("cert-1".to_string()), Some(s));
}

#[test]
fn mint_is_refused_while_paused() {
    let mut contract = contract();
    contract.set_paused(true);
    let refused = contract.mint_batch("cert-1".to_string(), summary("db", &[], 1), u128::MAX, 1);
    assert_eq!(refused, Err(ContractError::Paused));
    assert_eq!(contract.get_batch_summary("cert-1".to_string()), None);
    assert!(contract.get_recent_batches(None).is_empty());

    contract.set_paused(false);
    assert!(contract.mint_batch("cert-1".to_string(), summary("db", &[], 1), 4000, 1).is_ok());
}

#[test]
fn mint_is_refused_for_an_id_that_exists() {
    let mut contract = contract();
    assert!(contract.mint_batch("cert-1".to_string(), summary("db", &[], 1), 4000, 1).is_ok());
    let refused = contract.mint_batch("cert-1".to_string(), summary("other", &["t"], 2), 4000, 1);
    assert_eq!(refused, Err(ContractError::AlreadyExists));
    assert_eq!(contract.get_databases(), names(&["db"]));
    assert_eq!(contract.get_batch_summary("cert-1".to_string()), Some(summary("db", &[], 1)));
}

#[test]
fn mint_is_refused_for_a_deposit_below_the_storage_cost() {
    let mut contract = contract();
    let refused = contract.mint_batch("cert-1".to_string(), summary("db", &[], 1), 3999, 1);
    assert_eq!(refused, Err(ContractError::InsufficientDeposit));
    let refused = contract.mint_batch(
        "cert-1".to_string(),
        summary("db", &[], 1),
        39_999_999_999_999_999_999_999,
        10_000_000_000_000_000_000,
    );
    assert_eq!(refused, Err(ContractError::InsufficientDeposit));
    assert_eq!(contract.get_batch_summary("cert-1".to_string()), None);
    assert!(contract
        .mint_batch(
            "cert-1".to_string(),
            summary("db", &[], 1),
            40_000_000_000_000_000_000_000,
            10_000_000_000_000_000_000,
        )
        .is_ok());
}

#[test]
fn mint_is_refused_when_the_storage_cost_exceeds_every_deposit() {
    let mut contract = contract();
    let refused = contract.mint_batch("c".to_string(), summary("db", &[], 1), u128::MAX, u128::MAX);
    assert_eq!(refused, Err(ContractError::InsufficientDeposit));
}

#[test]
fn mint_with_a_free_storage_needs_no_deposit() {
    let mut contract = contract();
    assert!(contract.mint_batch("c".to_string(), summary("db", &[], 1), 0, 0).is_ok());
}

#[test]
fn mint_checks_the_pause_first_and_the_id_second() {
    let mut contract = contract();
    assert!(contract.mint_batch("c".to_string(), summary("db", &[], 1), 4000, 1).is_ok());
    assert_eq!(
        contract.mint_batch("c".to_string(), summary("db", &[], 1), 0, 1),
        Err(ContractError::AlreadyExists)
    );
    contract.set_paused(true);
    assert_eq!(
        contract.mint_batch("c".to_string(), summary("db", &[], 1), 0, 1),
        Err(ContractError::Paused)
    );
}

#[test]
fn error_messages() {
    assert_eq!(ContractError::Paused.message(), "Contract is paused");
    assert_eq!(ContractError::AlreadyExists.message(), "Token already exists");
    assert_eq!(ContractError::InsufficientDeposit.message(), "Insufficient deposit for storage");
    assert_eq!(ContractError::NotFound.message(), "Batch not found");
}

#[test]
fn settings_can_be_changed() {
    let mut contract = contract();
    contract.set_paused(true);
    assert!(contract.get_settings().paused);
    assert_eq!(contract.get_settings().etrap_treasury, account("treasury.near"));
    contract.update_treasury(account("vault.near"));
    assert_eq!(contract.get_settings().etrap_treasury, account("vault.near"));
    assert!(contract.get_settings().paused);
    assert_eq!(contract.get_settings().fee_percentage, 25);
    contract.set_paused(false);
    assert!(!contract.get_settings().paused);
}

#[test]
fn document_is_verified_against_the_recorded_root() {
    let mut contract = contract();
    let leaves: Vec<String> = ["tx1", "tx2", "tx3", "tx4"].iter().map(|s| s.to_string()).collect();
    let root = contract.compute_merkle_root(leaves.clone(), true);
    let mut s = summary("sales", &["orders"], 1000);
    s.merkle_root = root;
    record(&mut contract, "cert-1", s);

    for index in 0..4u32 {
        let proof = contract.generate_merkle_proof(leaves.clone(), index, true);
        assert_eq!(proof.len(), 2);
        assert!(contract.verify_document_in_batch(
            "cert-1".to_string(),
            leaves[index as usize].clone(),
            proof.clone(),
            index
        ));
        assert!(!contract.verify_document_in_batch(
            "cert-1".to_string(),
            "tx5".to_string(),
            proof.clone(),
            index
        ));
        assert!(!contract.verify_document_in_batch(
            "cert-2".to_string(),
            leaves[index as usize].clone(),
            proof,
            index
        ));
    }
}

#[test]
fn document_is_verified_against_a_digest_root_in_upper_case() {
    let mut contract = contract();
    let mut s = summary("sales", &[], 1000);
    s.merkle_root =
        "BA7816BF8F01CFEA414140DE5DAE2223B00361A396177A9CB410FF61F20015AD".to_string();
    record(&mut contract, "t", s);
    assert!(contract.verify_document_in_batch("t".to_string(), "abc".to_string(), vec![], 0));
    assert!(!contract.verify_document_in_batch("t".to_string(), "abd".to_string(), vec![], 0));
}

#[test]
fn document_is_verified_against_a_tagged_root() {
    let mut contract = contract();
    let leaves: Vec<String> = ["a", "b", "c", "d"].iter().map(|s| s.to_string()).collect();
    let root = contract.compute_merkle_root(leaves.clone(), false);
    assert_eq!(root, "abcd");
    let mut s = summary("sales", &[], 1000);
    s.merkle_root = format!("simple_concat:{}", root);
    record(&mut contract, "cert-1", s);
    let proof = contract.generate_merkle_proof(leaves, 2, false);
    assert_eq!(proof, names(&["d", "ab"]));
    assert!(contract.verify_document_in_batch("cert-1".to_string(), "c".to_string(), proof.clone(), 2));
    assert!(!contract.verify_document_in_batch("cert-1".to_string(), "c".to_string(), proof, 3));
}

#[test]
fn contract_roots_and_proofs_of_empty_input() {
    let contract = contract();
    assert_eq!(contract.compute_merkle_root(vec![], true), "");
    assert_eq!(contract.compute_merkle_root(vec![], false), "");
    assert!(contract.generate_merkle_proof(vec![], 0, true).is_empty());
    assert!(contract.generate_merkle_proof(vec!["a".to_string()], 1, false).is_empty());
}
