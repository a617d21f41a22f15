//! The catalog as a mathematical value: the certificate store and the
//! views derived from it, what recording a certificate does to them, and
//! what holds of them at all times.

use vstd::prelude::*;
use crate::calendar::year_month;
use crate::string_map::{ids_under, with_member};
use crate::time_index::{ascending, lemma_with_entry, with_entry};
use crate::types::BatchSummaryView;

verus! {

/// The most ids that the cache of recent certificates holds.
pub const RECENT_TOKENS_LIMIT: usize = 100;

/// The certificate store and its views.
pub struct CatalogView {
    /// Certificate id to batch summary.
    pub summaries: Map<Seq<char>, BatchSummaryView>,
    /// Database name to the ids recorded for it, each once, oldest first.
    pub by_database: Map<Seq<char>, Seq<Seq<char>>>,
    /// Year-month bucket to the ids recorded in it, oldest first.
    pub by_month: Map<Seq<char>, Seq<Seq<char>>>,
    /// Timestamp and id, one entry per timestamp, in ascending order.
    pub by_timestamp: Seq<(u64, Seq<char>)>,
    /// The cache of recently recorded ids.
    pub recent: Seq<Seq<char>>,
    /// Table name to the ids recorded for it, each once, oldest first.
    pub by_table: Map<Seq<char>, Seq<Seq<char>>>,
    /// Database name to the number of certificates recorded for it.
    pub counts: Map<Seq<char>, nat>,
    /// The database names seen, each once, oldest first.
    pub databases: Seq<Seq<char>>,
}

/// The smaller of two numbers.
pub open spec fn least(a: int, b: int) -> int {
    if a <= b {
        a
    } else {
        b
    }
}

/// The count under `database`, or zero where there is none.
pub open spec fn count_of(counts: Map<Seq<char>, nat>, database: Seq<char>) -> nat {
    if counts.contains_key(database) {
        counts[database]
    } else {
        0
    }
}

/// The cache once `id` is appended. A cache grown past its limit loses
/// its first entry: the last entry takes that place.
pub open spec fn recent_after(recent: Seq<Seq<char>>, id: Seq<char>) -> Seq<Seq<char>> {
    let grown = recent.push(id);
    if grown.len() > RECENT_TOKENS_LIMIT {
        grown.update(0, grown.last()).drop_last()
    } else {
        grown
    }
}

/// The table index once `id` is a member under each of `tables`.
pub open spec fn with_tables(
    by_table: Map<Seq<char>, Seq<Seq<char>>>,
    tables: Seq<Seq<char>>,
    id: Seq<char>,
) -> Map<Seq<char>, Seq<Seq<char>>>
    decreases tables.len(),
{
    if tables.len() == 0 {
        by_table
    } else {
        let earlier = with_tables(by_table, tables.drop_last(), id);
        earlier.insert(tables.last(), with_member(ids_under(earlier, tables.last()), id))
    }
}

/// The catalog once the certificate `id` with `summary` is recorded.
pub open spec fn recorded(before: CatalogView, id: Seq<char>, summary: BatchSummaryView)
    -> CatalogView {
    let database = summary.database_name;
    let bucket = year_month(summary.timestamp);
    CatalogView {
        summaries: before.summaries.insert(id, summary),
        by_database: before.by_database.insert(
            database,
            with_member(ids_under(before.by_database, database), id),
        ),
        by_month: before.by_month.insert(bucket, ids_under(before.by_month, bucket).push(id)),
        by_timestamp: with_entry(before.by_timestamp, summary.timestamp, id),
        recent: recent_after(before.recent, id),
        by_table: with_tables(before.by_table, summary.table_names, id),
        counts: before.counts.insert(database, count_of(before.counts, database) + 1),
        databases: with_member(before.databases, database),
    }
}

/// The catalog that holds nothing.
pub open spec fn empty_catalog() -> CatalogView {
    CatalogView {
        summaries: Map::empty(),
        by_database: Map::empty(),
        by_month: Map::empty(),
        by_timestamp: Seq::empty(),
        recent: Seq::empty(),
        by_table: Map::empty(),
        counts: Map::empty(),
        databases: Seq::empty(),
    }
}

/// Each index is the projection of the certificate store that it is
/// meant to be: a database lists exactly the certificates of that
/// database, a bucket those whose timestamp falls into it, a table those
/// that name it, and an entry of the time index stands under the
/// timestamp of its certificate.
pub open spec fn projected(catalog: CatalogView) -> bool {
    &&& forall|database: Seq<char>, id: Seq<char>|
        #[trigger] ids_under(catalog.by_database, database).contains(id)
            <==> catalog.summaries.contains_key(id) && catalog.summaries[id].database_name
            == database
    &&& forall|bucket: Seq<char>, id: Seq<char>|
        #[trigger] ids_under(catalog.by_month, bucket).contains(id)
            <==> catalog.summaries.contains_key(id) && year_month(catalog.summaries[id].timestamp)
            == bucket
    &&& forall|table: Seq<char>, id: Seq<char>|
        #[trigger] ids_under(catalog.by_table, table).contains(id)
            <==> catalog.summaries.contains_key(id)
            && catalog.summaries[id].table_names.contains(table)
    &&& forall|i: int|
        0 <= i < catalog.by_timestamp.len() ==> catalog.summaries.contains_key(
            (#[trigger] catalog.by_timestamp[i]).1,
        ) && catalog.summaries[catalog.by_timestamp[i].1].timestamp == catalog.by_timestamp[i].0
}

/// No list of the index holds an id twice.
pub open spec fn lists_are_sets(lists: Map<Seq<char>, Seq<Seq<char>>>) -> bool {
    forall|key: Seq<char>| lists.contains_key(key) ==> (#[trigger] lists[key]).no_duplicates()
}

/// What holds of a catalog at all times.
pub open spec fn consistent(catalog: CatalogView) -> bool {
    &&& catalog.summaries.dom().finite()
    &&& projected(catalog)
    &&& ascending(catalog.by_timestamp)
    &&& lists_are_sets(catalog.by_database)
    &&& lists_are_sets(catalog.by_month)
    &&& lists_are_sets(catalog.by_table)
    &&& catalog.recent.len() == least(
        catalog.summaries.dom().len() as int,
        RECENT_TOKENS_LIMIT as int,
    )
    &&& forall|i: int|
        0 <= i < catalog.recent.len() ==> catalog.summaries.contains_key(
            #[trigger] catalog.recent[i],
        )
    &&& catalog.databases.no_duplicates()
    &&& forall|database: Seq<char>|
        catalog.databases.contains(database) <==> #[trigger] catalog.by_database.contains_key(
            database,
        )
    &&& forall|database: Seq<char>|
        catalog.by_database.contains_key(database) <==> #[trigger] catalog.counts.contains_key(
            database,
        )
    &&& forall|database: Seq<char>|
        catalog.counts.contains_key(database) ==> #[trigger] catalog.counts[database]
            == catalog.by_database[database].len()
}

/// A list that gains a member holds what it held, and the member.
pub proof fn lemma_with_member(list: Seq<Seq<char>>, item: Seq<char>)
    ensures
        with_member(list, item).contains(item),
        forall|other: Seq<char>|
            #[trigger] with_member(list, item).contains(other) <==> other == item
                || list.contains(other),
        list.no_duplicates() ==> with_member(list, item).no_duplicates(),
        !list.contains(item) ==> with_member(list, item).len() == list.len() + 1,
{
    if !list.contains(item) {
        lemma_pushed(list, item);
    }
}

/// A list with an item appended holds what it held, and the item; it
/// holds nothing twice if it did not and the item is new.
pub proof fn lemma_pushed(list: Seq<Seq<char>>, item: Seq<char>)
    ensures
        forall|other: Seq<char>|
            #[trigger] list.push(item).contains(other) <==> other == item || list.contains(other),
        list.no_duplicates() && !list.contains(item) ==> list.push(item).no_duplicates(),
{
    let after = list.push(item);
    assert(after[list.len() as int] == item);
    assert forall|other: Seq<char>| #[trigger] after.contains(other) implies other == item
        || list.contains(other) by {
        let i = choose|i: int| 0 <= i < after.len() && after[i] == other;
        if i < list.len() {
            assert(list[i] == other);
        }
    }
    assert forall|other: Seq<char>| list.contains(other) implies #[trigger] after.contains(
        other,
    ) by {
        let i = choose|i: int| 0 <= i < list.len() && list[i] == other;
        assert(after[i] == other);
    }
}

/// Once an id is entered under table names, a table lists what it listed
/// and, if it is one of the names, the id.
pub proof fn lemma_with_tables(
    by_table: Map<Seq<char>, Seq<Seq<char>>>,
    tables: Seq<Seq<char>>,
    id: Seq<char>,
)
    ensures
        forall|table: Seq<char>, other: Seq<char>|
            #[trigger] ids_under(with_tables(by_table, tables, id), table).contains(other)
                <==> ids_under(by_table, table).contains(other) || (other == id
                && tables.contains(table)),
        lists_are_sets(by_table) ==> lists_are_sets(with_tables(by_table, tables, id)),
    decreases tables.len(),
{
    let after = with_tables(by_table, tables, id);
    if tables.len() > 0 {
        let earlier = with_tables(by_table, tables.drop_last(), id);
        let last = tables.last();
        lemma_with_tables(by_table, tables.drop_last(), id);
        lemma_with_member(ids_under(earlier, last), id);
        assert(tables[tables.len() - 1] == last);
        assert forall|table: Seq<char>, other: Seq<char>|
            #[trigger] ids_under(after, table).contains(other) <==> ids_under(
                by_table,
                table,
            ).contains(other) || (other == id && tables.contains(table)) by {
            let before = ids_under(earlier, table).contains(other);
            assert(before <==> ids_under(by_table, table).contains(other) || (other == id
                && tables.drop_last().contains(table)));
            if tables.drop_last().contains(table) {
                let k = choose|k: int|
                    0 <= k < tables.drop_last().len() && tables.drop_last()[k] == table;
                assert(tables[k] == table);
            }
            if table != last && tables.contains(table) {
                let k = choose|k: int| 0 <= k < tables.len() && tables[k] == table;
                assert(tables.drop_last()[k] == table);
            }
        }
        if lists_are_sets(by_table) {
            assert forall|key: Seq<char>| after.contains_key(key) implies (
            #[trigger] after[key]).no_duplicates() by {
                if key != last {
                    assert(earlier[key].no_duplicates());
                } else if earlier.contains_key(last) {
                    assert(earlier[last].no_duplicates());
                }
            }
        }
    } else {
        assert forall|table: Seq<char>| !tables.contains(table) by {}
    }
}

/// Recording a certificate under a new id keeps the indices the
/// projections of the certificate store.
pub proof fn lemma_recorded_projected(before: CatalogView, id: Seq<char>, summary: BatchSummaryView)
    requires
        projected(before),
        ascending(before.by_timestamp),
        !before.summaries.contains_key(id),
    ensures
        projected(recorded(before, id, summary)),
{
    let after = recorded(before, id, summary);
    let database = summary.database_name;
    let bucket = year_month(summary.timestamp);
    lemma_with_member(ids_under(before.by_database, database), id);
    lemma_pushed(ids_under(before.by_month, bucket), id);
    lemma_with_tables(before.by_table, summary.table_names, id);
    lemma_with_entry(before.by_timestamp, summary.timestamp, id);
    assert forall|name: Seq<char>, other: Seq<char>|
        #[trigger] ids_under(after.by_database, name).contains(other)
            <==> after.summaries.contains_key(other) && after.summaries[other].database_name
            == name by {
        let held = ids_under(before.by_database, name).contains(other);
        assert(held <==> before.summaries.contains_key(other)
            && before.summaries[other].database_name == name);
    }
    assert forall|month: Seq<char>, other: Seq<char>|
        #[trigger] ids_under(after.by_month, month).contains(other)
            <==> after.summaries.contains_key(other) && year_month(
            after.summaries[other].timestamp,
        ) == month by {
        let held = ids_under(before.by_month, month).contains(other);
        assert(held <==> before.summaries.contains_key(other) && year_month(
            before.summaries[other].timestamp,
        ) == month);
    }
    assert forall|table: Seq<char>, other: Seq<char>|
        #[trigger] ids_under(after.by_table, table).contains(other)
            <==> after.summaries.contains_key(other)
            && after.summaries[other].table_names.contains(table) by {
        let held = ids_under(before.by_table, table).contains(other);
        assert(held <==> before.summaries.contains_key(other)
            && before.summaries[other].table_names.contains(table));
    }
    assert forall|i: int| 0 <= i < after.by_timestamp.len() implies after.summaries.contains_key(
        (#[trigger] after.by_timestamp[i]).1,
    ) && after.summaries[after.by_timestamp[i].1].timestamp == after.by_timestamp[i].0 by {
        if after.by_timestamp[i] != (summary.timestamp, id) {
            let j = choose|j: int|
                0 <= j < before.by_timestamp.len() && before.by_timestamp[j]
                    == after.by_timestamp[i];
            assert(before.summaries.contains_key(before.by_timestamp[j].1));
        }
    }
}

/// Recording a certificate under a new id keeps a consistent catalog
/// consistent.
pub proof fn lemma_recorded_consistent(before: CatalogView, id: Seq<char>, summary: BatchSummaryView)
    requires
        consistent(before),
        !before.summaries.contains_key(id),
    ensures
        consistent(recorded(before, id, summary)),
{
    let after = recorded(before, id, summary);
    let database = summary.database_name;
    let bucket = year_month(summary.timestamp);
    let old_ids = ids_under(before.by_database, database);
    let old_month = ids_under(before.by_month, bucket);
    lemma_recorded_projected(before, id, summary);
    lemma_with_entry(before.by_timestamp, summary.timestamp, id);
    lemma_with_tables(before.by_table, summary.table_names, id);
    lemma_with_member(old_ids, id);
    lemma_pushed(old_month, id);
    lemma_with_member(before.databases, database);
    assert(!old_ids.contains(id) && !old_month.contains(id));
    assert forall|i: int| 0 <= i < after.recent.len() implies after.summaries.contains_key(
        #[trigger] after.recent[i],
    ) by {
        let grown = before.recent.push(id);
        if grown.len() > RECENT_TOKENS_LIMIT {
            if i > 0 {
                assert(after.recent[i] == before.recent[i]);
                assert(before.summaries.contains_key(before.recent[i]));
            }
        } else if i < before.recent.len() {
            assert(before.summaries.contains_key(before.recent[i]));
        }
    }
    assert(lists_are_sets(after.by_database)) by {
        assert forall|key: Seq<char>| after.by_database.contains_key(key) implies (
        #[trigger] after.by_database[key]).no_duplicates() by {
            if key != database {
                assert(before.by_database[key].no_duplicates());
            } else if before.by_database.contains_key(database) {
                assert(before.by_database[database].no_duplicates());
            }
        }
    }
    assert(lists_are_sets(after.by_month)) by {
        assert forall|key: Seq<char>| after.by_month.contains_key(key) implies (
        #[trigger] after.by_month[key]).no_duplicates() by {
            if key != bucket {
                assert(before.by_month[key].no_duplicates());
            } else if before.by_month.contains_key(bucket) {
                assert(before.by_month[bucket].no_duplicates());
            }
        }
    }
    assert forall|name: Seq<char>| after.counts.contains_key(name) implies #[trigger] after.counts[name]
        == after.by_database[name].len() by {
        if name != database {
            assert(before.counts[name] == before.by_database[name].len());
        } else if before.counts.contains_key(database) {
            assert(before.counts[database] == before.by_database[database].len());
        }
    }
}

/// Recording a certificate puts its id into every view: under its
/// database, its bucket, its timestamp, each of its tables, and into the
/// cache of recent ids.
pub proof fn recorded_id_is_indexed(before: CatalogView, id: Seq<char>, summary: BatchSummaryView)
    requires
        ascending(before.by_timestamp),
    ensures
        ({
            let after = recorded(before, id, summary);
            &&& after.summaries.contains_key(id) && after.summaries[id] == summary
            &&& after.by_database.contains_key(summary.database_name)
            &&& after.by_database[summary.database_name].contains(id)
            &&& after.by_month.contains_key(year_month(summary.timestamp))
            &&& after.by_month[year_month(summary.timestamp)].contains(id)
            &&& after.by_timestamp.contains((summary.timestamp, id))
            &&& forall|t: int|
                0 <= t < summary.table_names.len() ==> after.by_table.contains_key(
                    #[trigger] summary.table_names[t],
                ) && after.by_table[summary.table_names[t]].contains(id)
            &&& after.recent.contains(id)
            &&& after.databases.contains(summary.database_name)
            &&& after.counts.contains_key(summary.database_name)
        }),
{
    let after = recorded(before, id, summary);
    let bucket = year_month(summary.timestamp);
    lemma_with_member(ids_under(before.by_database, summary.database_name), id);
    lemma_with_member(before.databases, summary.database_name);
    lemma_with_entry(before.by_timestamp, summary.timestamp, id);
    lemma_with_tables(before.by_table, summary.table_names, id);
    let month = ids_under(before.by_month, bucket).push(id);
    assert(month[month.len() - 1] == id);
    let grown = before.recent.push(id);
    if grown.len() > RECENT_TOKENS_LIMIT {
        assert(after.recent[0] == id);
    } else {
        assert(after.recent[grown.len() - 1] == id);
    }
    assert forall|t: int| 0 <= t < summary.table_names.len() implies after.by_table.contains_key(
        #[trigger] summary.table_names[t],
    ) && after.by_table[summary.table_names[t]].contains(id) by {
        let table = summary.table_names[t];
        assert(summary.table_names.contains(table));
        assert(ids_under(after.by_table, table).contains(id));
    }
}

/// The catalog once each of the certificates is recorded, first to last.
pub open spec fn recorded_all(
    start: CatalogView,
    certificates: Seq<(Seq<char>, BatchSummaryView)>,
) -> CatalogView
    decreases certificates.len(),
{
    if certificates.len() == 0 {
        start
    } else {
        recorded(
            recorded_all(start, certificates.drop_last()),
            certificates.last().0,
            certificates.last().1,
        )
    }
}

/// The ids of certificates, in their order.
pub open spec fn ids_of(certificates: Seq<(Seq<char>, BatchSummaryView)>) -> Seq<Seq<char>> {
    Seq::new(certificates.len(), |i: int| certificates[i].0)
}

/// The catalog that holds nothing is consistent.
pub proof fn empty_catalog_is_consistent()
    ensures
        consistent(empty_catalog()),
{
    assert(empty_catalog().summaries.dom() =~= Set::<Seq<char>>::empty());
}

/// The cache of recent ids never holds more than its limit.
pub proof fn recent_cache_is_bounded(catalog: CatalogView)
    requires
        consistent(catalog),
    ensures
        catalog.recent.len() <= RECENT_TOKENS_LIMIT,
{
}

/// After certificates with distinct ids are recorded into an empty
/// catalog, the catalog is consistent, stores one summary for each, and
/// its cache of recent ids holds as many ids as certificates were
/// recorded, up to its limit.
pub proof fn recent_cache_after_recording(certificates: Seq<(Seq<char>, BatchSummaryView)>)
    requires
        ids_of(certificates).no_duplicates(),
    ensures
        ({
            let catalog = recorded_all(empty_catalog(), certificates);
            &&& consistent(catalog)
            &&& catalog.summaries.dom() == ids_of(certificates).to_set()
            &&& catalog.summaries.dom().len() == certificates.len()
            &&& catalog.recent.len() == least(
                certificates.len() as int,
                RECENT_TOKENS_LIMIT as int,
            )
        }),
    decreases certificates.len(),
{
    let ids = ids_of(certificates);
    if certificates.len() == 0 {
        empty_catalog_is_consistent();
        assert(empty_catalog().summaries.dom() =~= ids.to_set());
    } else {
        let earlier = certificates.drop_last();
        let last = certificates.last();
        assert(ids_of(earlier) =~= ids.drop_last());
        assert(ids_of(earlier).no_duplicates()) by {
            assert forall|i: int, j: int|
                0 <= i < ids_of(earlier).len() && 0 <= j < ids_of(earlier).len() && i
                    != j implies ids_of(earlier)[i] != ids_of(earlier)[j] by {
                assert(ids[i] != ids[j]);
            }
        }
        recent_cache_after_recording(earlier);
        let before = recorded_all(empty_catalog(), earlier);
        assert(!before.summaries.contains_key(last.0)) by {
            if ids_of(earlier).contains(last.0) {
                let i = choose|i: int| 0 <= i < ids_of(earlier).len() && ids_of(earlier)[i] == last.0;
                assert(ids[i] == ids[ids.len() - 1]);
            }
        }
        lemma_recorded_consistent(before, last.0, last.1);
        let catalog = recorded(before, last.0, last.1);
        assert(catalog.summaries.dom() =~= ids.to_set()) by {
            assert forall|id: Seq<char>| ids.to_set().contains(id) implies #[trigger]
                catalog.summaries.dom().contains(id) by {
                let i = choose|i: int| 0 <= i < ids.len() && ids[i] == id;
                if i < ids.len() - 1 {
                    assert(ids_of(earlier)[i] == id);
                }
            }
            assert forall|id: Seq<char>| #[trigger]
                catalog.summaries.dom().contains(id) implies ids.to_set().contains(id) by {
                if id == last.0 {
                    assert(ids[ids.len() - 1] == id);
                } else {
                    let i = choose|i: int|
                        0 <= i < ids_of(earlier).len() && ids_of(earlier)[i] == id;
                    assert(ids[i] == id);
                }
            }
        }
    }
}

} // verus!
