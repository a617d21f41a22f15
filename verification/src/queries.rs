//! Read-only queries over the catalog: listings by database, by time, by
//! table and by recency, and statistics.

use vstd::prelude::*;
use crate::catalog::{consistent, least, CatalogView, RECENT_TOKENS_LIMIT};
use crate::contract::{ContractError, ETRAPContract};
use crate::merkle::texts;
use crate::string_map::ids_under;
use crate::time_index::{ascending, lemma_filter_ascending};
use crate::types::{
    clone_strings, info_views, BatchInfo, BatchInfoView, BatchSearchResult, BatchSummary,
    OperationCounts,
};

verus! {

/// Statistics of one certificate, or of the whole catalog.
#[derive(Debug, PartialEq, Eq)]
pub enum BatchStats {
    /// What one certificate records.
    Batch {
        token_id: String,
        database: String,
        transaction_count: u32,
        merkle_root: String,
        timestamp: u64,
        operations: OperationCounts,
    },
    /// The number of certificates, and the databases with the number of
    /// certificates of each, in the order in which the databases appeared.
    Global {
        total_batches: u64,
        total_databases: u64,
        databases: Vec<String>,
        batches_per_database: Vec<u64>,
    },
}

/// The page size that a request asks for: its limit, or the default
/// where it names none, and never more than `most`.
pub open spec fn page_limit(limit: Option<u64>, default: u64, most: u64) -> int {
    least(
        match limit {
            Some(n) => n as int,
            None => default as int,
        },
        most as int,
    )
}

/// The text of an optional string.
pub open spec fn optional_text(text: Option<String>) -> Option<Seq<char>> {
    match text {
        Some(s) => Some(s@),
        None => None,
    }
}

/// The certificate with the given id as a query returns it.
pub open spec fn info_for(catalog: CatalogView, id: Seq<char>) -> BatchInfoView {
    BatchInfoView { token_id: id, batch_summary: catalog.summaries[id] }
}

/// The certificates with the given ids, in the order of the ids.
pub open spec fn infos_for(catalog: CatalogView, ids: Seq<Seq<char>>) -> Seq<BatchInfoView> {
    Seq::new(ids.len(), |i: int| info_for(catalog, ids[i]))
}

/// Up to `limit` ids from the end of the recent cache, last first.
pub open spec fn recent_ids(catalog: CatalogView, limit: Option<u64>) -> Seq<Seq<char>> {
    let count = least(page_limit(limit, 20, RECENT_TOKENS_LIMIT as u64), catalog.recent.len() as int);
    Seq::new(count as nat, |k: int| catalog.recent[catalog.recent.len() - 1 - k])
}

/// Where a page of a listing of `total` entries starts.
pub open spec fn page_start(from_index: Option<u64>, total: int) -> int {
    least(
        match from_index {
            Some(n) => n as int,
            None => 0,
        },
        total,
    )
}

/// The page of ids of a database: from `from_index` on, up to the limit.
pub open spec fn database_page(
    catalog: CatalogView,
    database: Seq<char>,
    from_index: Option<u64>,
    limit: Option<u64>,
) -> Seq<Seq<char>> {
    let ids = ids_under(catalog.by_database, database);
    let start = page_start(from_index, ids.len() as int);
    let count = least(page_limit(limit, 50, 100), ids.len() - start);
    ids.subrange(start, start + count)
}

/// Whether ids of the database follow after the page.
pub open spec fn database_has_more(
    catalog: CatalogView,
    database: Seq<char>,
    from_index: Option<u64>,
    limit: Option<u64>,
) -> bool {
    (match from_index {
        Some(n) => n as int,
        None => 0,
    }) + page_limit(limit, 50, 100) < ids_under(catalog.by_database, database).len()
}

/// Whether an entry of the time index lies in the range, and belongs to
/// the database where one is asked for.
pub open spec fn in_time_range(
    catalog: CatalogView,
    entry: (u64, Seq<char>),
    start: u64,
    end: u64,
    database: Option<Seq<char>>,
) -> bool {
    &&& start <= entry.0 <= end
    &&& database is Some ==> catalog.summaries[entry.1].database_name == database->0
}

/// The ids in the range, in ascending order of timestamp, up to the limit.
pub open spec fn time_range_ids(
    catalog: CatalogView,
    start: u64,
    end: u64,
    database: Option<Seq<char>>,
    limit: Option<u64>,
) -> Seq<Seq<char>> {
    let matching = catalog.by_timestamp.filter(
        |entry: (u64, Seq<char>)| in_time_range(catalog, entry, start, end, database),
    );
    let count = least(page_limit(limit, 100, 1000), matching.len() as int);
    matching.take(count).map_values(|entry: (u64, Seq<char>)| entry.1)
}

/// The first ids of a table, up to the limit; none for an unknown table.
pub open spec fn table_ids(catalog: CatalogView, table: Seq<char>, limit: Option<u64>) -> Seq<
    Seq<char>,
> {
    let ids = ids_under(catalog.by_table, table);
    ids.take(least(page_limit(limit, 50, 100), ids.len() as int))
}

/// A page of a database holds as many ids as the limit allows and the
/// listing has from the start of the page on: none where the page starts
/// at the end of the listing or beyond. More ids follow exactly when the
/// start and the limit together fall short of the listing.
pub proof fn database_page_size(
    catalog: CatalogView,
    database: Seq<char>,
    from_index: u64,
    limit: u64,
)
    ensures
        ({
            let total = ids_under(catalog.by_database, database).len();
            let page = database_page(catalog, database, Some(from_index), Some(limit));
            let most = least(limit as int, 100);
            &&& from_index >= total ==> page.len() == 0
            &&& from_index < total ==> page.len() == least(most, total - from_index)
            &&& database_has_more(catalog, database, Some(from_index), Some(limit)) <==> from_index
                + most < total
            &&& forall|k: int| 0 <= k < page.len() ==> page[k] == ids_under(
                catalog.by_database,
                database,
            )[from_index + k]
        }),
{
}

/// In a consistent catalog, a listing by time holds no more certificates
/// than the limit; each lies in the range and belongs to the database
/// that was asked for; and their timestamps rise strictly from each to
/// the next.
pub proof fn time_range_is_ascending(
    catalog: CatalogView,
    start: u64,
    end: u64,
    database: Option<Seq<char>>,
    limit: Option<u64>,
)
    requires
        consistent(catalog),
    ensures
        ({
            let ids = time_range_ids(catalog, start, end, database, limit);
            &&& ids.len() <= page_limit(limit, 100, 1000)
            &&& forall|i: int|
                0 <= i < ids.len() ==> {
                    &&& catalog.summaries.contains_key(#[trigger] ids[i])
                    &&& start <= catalog.summaries[ids[i]].timestamp <= end
                    &&& database is Some ==> catalog.summaries[ids[i]].database_name
                        == database->0
                }
            &&& forall|i: int, j: int|
                0 <= i < j < ids.len() ==> catalog.summaries[ids[i]].timestamp
                    < catalog.summaries[ids[j]].timestamp
        }),
{
    let keep = |entry: (u64, Seq<char>)| in_time_range(catalog, entry, start, end, database);
    let matching = catalog.by_timestamp.filter(keep);
    let ids = time_range_ids(catalog, start, end, database, limit);
    lemma_filter_ascending(catalog.by_timestamp, keep);
    assert forall|i: int| 0 <= i < ids.len() implies {
        &&& catalog.summaries.contains_key(#[trigger] ids[i])
        &&& catalog.summaries[ids[i]].timestamp == matching[i].0
        &&& start <= catalog.summaries[ids[i]].timestamp <= end
        &&& database is Some ==> catalog.summaries[ids[i]].database_name == database->0
    } by {
        assert(ids[i] == matching[i].1);
        assert(keep(matching[i]));
        let j = choose|j: int|
            0 <= j < catalog.by_timestamp.len() && catalog.by_timestamp[j] == matching[i];
        assert(catalog.summaries.contains_key(catalog.by_timestamp[j].1));
    }
}

/// In a consistent catalog, the certificates listed under a database are
/// exactly those of that database, each listed once; and so for a table
/// and the certificates that name it.
pub proof fn listings_are_projections(catalog: CatalogView, key: Seq<char>)
    requires
        consistent(catalog),
    ensures
        ids_under(catalog.by_database, key).no_duplicates(),
        forall|id: Seq<char>|
            #[trigger] ids_under(catalog.by_database, key).contains(id)
                <==> catalog.summaries.contains_key(id) && catalog.summaries[id].database_name
                == key,
        ids_under(catalog.by_table, key).no_duplicates(),
        forall|id: Seq<char>|
            #[trigger] ids_under(catalog.by_table, key).contains(id)
                <==> catalog.summaries.contains_key(id)
                && catalog.summaries[id].table_names.contains(key),
{
    if catalog.by_database.contains_key(key) {
        assert(catalog.by_database[key].no_duplicates());
    }
    if catalog.by_table.contains_key(key) {
        assert(catalog.by_table[key].no_duplicates());
    }
}

fn limit_of(limit: Option<u64>, default: u64, most: u64) -> (n: u64)
    ensures
        n == page_limit(limit, default, most),
{
    let asked = match limit {
        Some(n) => n,
        None => default,
    };
    if asked <= most {
        asked
    } else {
        most
    }
}

impl ETRAPContract {
    /// The certificate with the given id, if it is recorded.
    pub fn get_batch_info(&self, token_id: &String) -> (result: Result<BatchInfo, ContractError>)
        ensures
            match result {
                Ok(info) => self@.summaries.contains_key(token_id@) && info@ == info_for(
                    self@,
                    token_id@,
                ),
                Err(error) => !self@.summaries.contains_key(token_id@) && error
                    == ContractError::NotFound,
            },
    {
        proof {
            use_type_invariant(self);
        }
        match self.catalog.batch_summaries.get(token_id) {
            Some(summary) => Ok(
                BatchInfo { token_id: token_id.clone(), batch_summary: summary.clone() },
            ),
            None => Err(ContractError::NotFound),
        }
    }

    fn collect_infos(&self, ids: &Vec<String>, start: usize, count: usize) -> (infos: Vec<BatchInfo>)
        requires
            start + count <= ids@.len(),
            forall|i: int|
                0 <= i < ids@.len() ==> self@.summaries.contains_key(#[trigger] texts(ids@)[i]),
        ensures
            info_views(infos@) == infos_for(
                self@,
                texts(ids@).subrange(start as int, start + count),
            ),
    {
        proof {
            use_type_invariant(self);
        }
        let ghost wanted = texts(ids@).subrange(start as int, start + count);
        let mut infos: Vec<BatchInfo> = Vec::new();
        let mut k: usize = 0;
        let total = ids.len();
        while k < count
            invariant
                self.catalog.wf(),
                k <= count,
                total == ids@.len(),
                start + count <= ids@.len(),
                wanted == texts(ids@).subrange(start as int, start + count),
                forall|i: int|
                    0 <= i < ids@.len() ==> self@.summaries.contains_key(#[trigger] texts(ids@)[i]),
                infos@.len() == k,
                forall|i: int| 0 <= i < k ==> (#[trigger] infos@[i])@ == info_for(self@, wanted[i]),
            decreases count - k,
        {
            assert(texts(ids@)[start + k] == ids@[start + k]@);
            infos.push(self.get_batch_info(&ids[start + k]).unwrap());
            k = k + 1;
        }
        assert(info_views(infos@) =~= infos_for(self@, wanted));
        infos
    }

    /// The most recently recorded certificates, last recorded first: up to
    /// `limit` of them, 20 where no limit is given, never more than 100.
    pub fn get_recent_batches(&self, limit: Option<u64>) -> (batches: Vec<BatchInfo>)
        ensures
            info_views(batches@) == infos_for(self@, recent_ids(self@, limit)),
    {
        proof {
            use_type_invariant(self);
        }
        let limit = limit_of(limit, 20, RECENT_TOKENS_LIMIT as u64);
        let len = self.catalog.recent_tokens.len();
        let count: usize = if limit < len as u64 {
            limit as usize
        } else {
            len
        };
        let ghost wanted = recent_ids(self@, Some(limit));
        let mut batches: Vec<BatchInfo> = Vec::new();
        let mut k: usize = 0;
        while k < count
            invariant
                self.catalog.wf(),
                k <= count <= len,
                len == self.catalog.recent_tokens@.len(),
                wanted.len() == count,
                forall|i: int|
                    0 <= i < count ==> #[trigger] wanted[i] == self.catalog.recent_tokens@[len - 1 - i]@,
                batches@.len() == k,
                forall|i: int|
                    0 <= i < k ==> (#[trigger] batches@[i])@ == info_for(self@, wanted[i]),
            decreases count - k,
        {
            let id = &self.catalog.recent_tokens[len - 1 - k];
            assert(self@.summaries.contains_key(self@.recent[len - 1 - k]));
            batches.push(self.get_batch_info(id).unwrap());
            k = k + 1;
        }
        assert(info_views(batches@) =~= infos_for(self@, wanted));
        batches
    }

    /// One page of the certificates of a database, in the order in which
    /// they were recorded: from `from_index` on, up to `limit` of them, 50
    /// where no limit is given, never more than 100.
    pub fn get_batches_by_database(
        &self,
        database: String,
        from_index: Option<u64>,
        limit: Option<u64>,
    ) -> (page: BatchSearchResult)
        ensures
            info_views(page.batches@) == infos_for(
                self@,
                database_page(self@, database@, from_index, limit),
            ),
            page.total_count == ids_under(self@.by_database, database@).len(),
            page.has_more == database_has_more(self@, database@, from_index, limit),
            page.batches@.len() == least(
                page_limit(limit, 50, 100),
                page.total_count - page_start(from_index, page.total_count as int),
            ),
    {
        proof {
            use_type_invariant(self);
        }
        let limit = limit_of(limit, 50, 100);
        let from: u64 = match from_index {
            Some(n) => n,
            None => 0,
        };
        match self.catalog.tokens_by_database.get(&database) {
            Some(ids) => {
                let total = ids.len();
                let start: usize = if from < total as u64 {
                    from as usize
                } else {
                    total
                };
                let count: usize = if limit < (total - start) as u64 {
                    limit as usize
                } else {
                    total - start
                };
                proof {
                    assert forall|i: int| 0 <= i < ids@.len() implies self@.summaries.contains_key(
                        #[trigger] texts(ids@)[i],
                    ) by {
                        assert(ids_under(self@.by_database, database@).contains(texts(ids@)[i]));
                    }
                }
                let batches = self.collect_infos(ids, start, count);
                assert(info_views(batches@).len() == batches@.len());
                BatchSearchResult {
                    batches,
                    total_count: total as u64,
                    has_more: from < total as u64 && limit < total as u64 - from,
                }
            },
            None => {
                let batches: Vec<BatchInfo> = Vec::new();
                assert(info_views(batches@) =~= infos_for(
                    self@,
                    database_page(self@, database@, from_index, Some(limit)),
                ));
                BatchSearchResult { batches, total_count: 0, has_more: false }
            },
        }
    }

    /// The certificates whose timestamp lies between `start_timestamp` and
    /// `end_timestamp`, both included, in ascending order of timestamp; of
    /// one database where one is named; up to `limit` of them, 100 where no
    /// limit is given, never more than 1000.
    pub fn get_batches_by_time_range(
        &self,
        start_timestamp: u64,
        end_timestamp: u64,
        database: Option<String>,
        limit: Option<u64>,
    ) -> (batches: Vec<BatchInfo>)
        ensures
            info_views(batches@) == infos_for(
                self@,
                time_range_ids(
                    self@,
                    start_timestamp,
                    end_timestamp,
                    optional_text(database),
                    limit,
                ),
            ),
    {
        proof {
            use_type_invariant(self);
        }
        let limit = limit_of(limit, 100, 1000);
        let ghost entries = self@.by_timestamp;
        let ghost wanted = optional_text(database);
        let ghost keep = |entry: (u64, Seq<char>)|
            in_time_range(self@, entry, start_timestamp, end_timestamp, wanted);
        let ghost id_of = |entry: (u64, Seq<char>)| entry.1;
        let mut batches: Vec<BatchInfo> = Vec::new();
        let mut i: usize = 0;
        let len = self.catalog.tokens_by_timestamp.len();
        proof {
            assert(entries.take(0) =~= Seq::<(u64, Seq<char>)>::empty());
            assert(entries.take(0).filter(keep) =~= Seq::<(u64, Seq<char>)>::empty());
        }
        while i < len && (batches.len() as u64) < limit
            && self.catalog.tokens_by_timestamp.timestamp_at(i) <= end_timestamp
            invariant
                self.catalog.wf(),
                i <= len,
                len == entries.len(),
                entries == self@.by_timestamp,
                wanted == optional_text(database),
                keep == |entry: (u64, Seq<char>)|
                    in_time_range(self@, entry, start_timestamp, end_timestamp, wanted),
                batches@.len() <= limit,
                batches@.len() == entries.take(i as int).filter(keep).len(),
                forall|k: int|
                    0 <= k < batches@.len() ==> (#[trigger] batches@[k])@ == info_for(
                        self@,
                        entries.take(i as int).filter(keep)[k].1,
                    ),
            decreases len - i,
        {
            let timestamp = self.catalog.tokens_by_timestamp.timestamp_at(i);
            let id = self.catalog.tokens_by_timestamp.id_at(i);
            let ghost entry = entries[i as int];
            assert(self@.summaries.contains_key(entry.1));
            let in_range = start_timestamp <= timestamp && timestamp <= end_timestamp;
            let selected = in_range && match &database {
                Some(name) => self.catalog.batch_summaries.get(id).unwrap().database_name == *name,
                None => true,
            };
            proof {
                assert(selected == keep(entry));
                assert(entries.take(i as int + 1) =~= entries.take(i as int).push(entry));
                entries.take(i as int).lemma_filter_push(entry, keep);
            }
            if selected {
                batches.push(self.get_batch_info(id).unwrap());
            }
            i = i + 1;
        }
        proof {
            let found = entries.take(i as int).filter(keep);
            let matching = entries.filter(keep);
            assert(entries =~= entries.take(i as int) + entries.skip(i as int));
            Seq::filter_distributes_over_add(entries.take(i as int), entries.skip(i as int), keep);
            assert(matching == found + entries.skip(i as int).filter(keep));
            if (batches@.len() as u64) < limit {
                // Whatever is left of the index lies beyond the range.
                let rest = entries.skip(i as int);
                assert(ascending(rest)) by {
                    assert forall|a: int, b: int| 0 <= a < b < rest.len() implies rest[a].0
                        < rest[b].0 by {
                        assert(rest[a] == entries[i + a] && rest[b] == entries[i + b]);
                    }
                }
                lemma_filter_ascending(rest, keep);
                if rest.filter(keep).len() > 0 {
                    let first = rest.filter(keep)[0];
                    let at = choose|k: int| 0 <= k < rest.len() && rest[k] == first;
                    assert(rest[at] == entries[i + at]);
                    assert(entries[i as int].0 <= entries[i + at].0);
                }
            }
            let count = least(limit as int, matching.len() as int);
            assert(matching.take(count) =~= found);
            assert(info_views(batches@) =~= infos_for(self@, found.map_values(id_of)));
            assert(time_range_ids(self@, start_timestamp, end_timestamp, wanted, Some(limit))
                == matching.take(count).map_values(id_of));
        }
        batches
    }

    /// The first certificates of a table, in the order in which they were
    /// recorded: up to `limit` of them, 50 where no limit is given, never
    /// more than 100; none for a table that no certificate names.
    pub fn get_batches_by_table(&self, table_name: String, limit: Option<u64>) -> (batches: Vec<
        BatchInfo,
    >)
        ensures
            info_views(batches@) == infos_for(self@, table_ids(self@, table_name@, limit)),
    {
        proof {
            use_type_invariant(self);
        }
        let limit = limit_of(limit, 50, 100);
        match self.catalog.tokens_by_table.get(&table_name) {
            Some(ids) => {
                let count: usize = if limit < ids.len() as u64 {
                    limit as usize
                } else {
                    ids.len()
                };
                proof {
                    assert forall|i: int| 0 <= i < ids@.len() implies self@.summaries.contains_key(
                        #[trigger] texts(ids@)[i],
                    ) by {
                        assert(ids_under(self@.by_table, table_name@).contains(texts(ids@)[i]));
                    }
                    assert(texts(ids@).subrange(0, count as int) =~= texts(ids@).take(count as int));
                }
                self.collect_infos(ids, 0, count)
            },
            None => {
                let batches: Vec<BatchInfo> = Vec::new();
                assert(info_views(batches@) =~= infos_for(
                    self@,
                    table_ids(self@, table_name@, Some(limit)),
                ));
                batches
            },
        }
    }

    /// The statistics of one certificate where an id is given, which must
    /// be recorded; else those of the whole catalog.
    pub fn get_batch_stats(&self, token_id: Option<String>) -> (result: Result<
        BatchStats,
        ContractError,
    >)
        ensures
            match token_id {
                Some(id) => if self@.summaries.contains_key(id@) {
                    &&& result matches Ok(
                        BatchStats::Batch {
                            token_id,
                            database,
                            transaction_count,
                            merkle_root,
                            timestamp,
                            operations,
                        },
                    )
                    &&& token_id@ == id@
                    &&& database@ == self@.summaries[id@].database_name
                    &&& transaction_count == self@.summaries[id@].tx_count
                    &&& merkle_root@ == self@.summaries[id@].merkle_root
                    &&& timestamp == self@.summaries[id@].timestamp
                    &&& operations == self@.summaries[id@].operation_counts
                } else {
                    result == Err::<BatchStats, ContractError>(ContractError::NotFound)
                },
                None => {
                    &&& result matches Ok(
                        BatchStats::Global {
                            total_batches,
                            total_databases,
                            databases,
                            batches_per_database,
                        },
                    )
                    &&& total_batches == self@.summaries.dom().len()
                    &&& total_databases == self@.databases.len()
                    &&& texts(databases@) == self@.databases
                    &&& batches_per_database@.len() == self@.databases.len()
                    &&& forall|i: int|
                        0 <= i < self@.databases.len() ==> #[trigger] batches_per_database@[i]
                            == self@.counts[self@.databases[i]]
                },
            },
    {
        proof {
            use_type_invariant(self);
        }
        match token_id {
            Some(id) => {
                match self.catalog.batch_summaries.get(&id) {
                    Some(summary) => Ok(
                        BatchStats::Batch {
                            token_id: id,
                            database: summary.database_name.clone(),
                            transaction_count: summary.tx_count,
                            merkle_root: summary.merkle_root.clone(),
                            timestamp: summary.timestamp,
                            operations: summary.operation_counts,
                        },
                    ),
                    None => Err(ContractError::NotFound),
                }
            },
            None => {
                let mut batches_per_database: Vec<u64> = Vec::new();
                let mut i: usize = 0;
                while i < self.catalog.database_list.len()
                    invariant
                        self.catalog.wf(),
                        i <= self.catalog.database_list@.len(),
                        batches_per_database@.len() == i,
                        forall|k: int|
                            0 <= k < i ==> #[trigger] batches_per_database@[k]
                                == self@.counts[self@.databases[k]],
                    decreases self.catalog.database_list@.len() - i,
                {
                    assert(self@.databases.contains(self@.databases[i as int]));
                    assert(self@.counts.contains_key(self@.databases[i as int]));
                    let count: u64 = match self.catalog.total_batches_per_database.get(
                        &self.catalog.database_list[i],
                    ) {
                        Some(count) => *count,
                        None => 0,
                    };
                    batches_per_database.push(count);
                    i = i + 1;
                }
                let total = self.catalog.batch_summaries.len();
                assert(self@.summaries.dom() =~= self.catalog.batch_summaries@.dom());
                Ok(
                    BatchStats::Global {
                        total_batches: total as u64,
                        total_databases: self.catalog.database_list.len() as u64,
                        databases: clone_strings(&self.catalog.database_list),
                        batches_per_database,
                    },
                )
            },
        }
    }

    /// The names of the databases seen, in the order of their appearance.
    pub fn get_databases(&self) -> (databases: Vec<String>)
        ensures
            texts(databases@) == self@.databases,
    {
        clone_strings(&self.catalog.database_list)
    }

    /// The summary of a certificate, if it is recorded.
    pub fn get_batch_summary(&self, token_id: String) -> (summary: Option<BatchSummary>)
        ensures
            match summary {
                Some(found) => self@.summaries.contains_key(token_id@) && found@
                    == self@.summaries[token_id@],
                None => !self@.summaries.contains_key(token_id@),
            },
    {
        proof {
            use_type_invariant(self);
        }
        match self.catalog.batch_summaries.get(&token_id) {
            Some(summary) => Some(summary.clone()),
            None => None,
        }
    }
}

} // verus!
