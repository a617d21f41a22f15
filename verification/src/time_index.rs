//! The index from timestamps to certificate ids, kept in ascending order
//! of timestamp with one entry per timestamp.

use vstd::prelude::*;

verus! {

struct TimeEntry {
    timestamp: u64,
    token_id: String,
}

/// An index from timestamps to certificate ids.
pub struct TimeIndex {
    entries: Vec<TimeEntry>,
}

/// Timestamps rise strictly from each entry to the next.
pub open spec fn ascending(entries: Seq<(u64, Seq<char>)>) -> bool {
    forall|i: int, j: int| 0 <= i < j < entries.len() ==> entries[i].0 < entries[j].0
}

/// The position of the first entry whose timestamp is not below
/// `timestamp`; the length where every timestamp is below it.
pub open spec fn slot(entries: Seq<(u64, Seq<char>)>, timestamp: u64) -> int
    decreases entries.len(),
{
    if entries.len() == 0 || entries[0].0 >= timestamp {
        0
    } else {
        1 + slot(entries.drop_first(), timestamp)
    }
}

/// The entries with `id` under `timestamp`: in place of the entry with
/// that timestamp if there is one, else as a new entry in its slot.
pub open spec fn with_entry(entries: Seq<(u64, Seq<char>)>, timestamp: u64, id: Seq<char>) -> Seq<
    (u64, Seq<char>),
> {
    let at = slot(entries, timestamp);
    if at < entries.len() && entries[at].0 == timestamp {
        entries.update(at, (timestamp, id))
    } else {
        entries.insert(at, (timestamp, id))
    }
}

/// A position is the slot when all before it is below the timestamp and
/// what stands at it is not.
pub proof fn lemma_slot_is(entries: Seq<(u64, Seq<char>)>, timestamp: u64, at: int)
    requires
        0 <= at <= entries.len(),
        forall|k: int| 0 <= k < at ==> (#[trigger] entries[k]).0 < timestamp,
        at < entries.len() ==> entries[at].0 >= timestamp,
    ensures
        slot(entries, timestamp) == at,
    decreases entries.len(),
{
    if at > 0 {
        assert(entries[0].0 < timestamp);
        let rest = entries.drop_first();
        assert forall|k: int| 0 <= k < at - 1 implies (#[trigger] rest[k]).0 < timestamp by {
            assert(rest[k] == entries[k + 1]);
        }
        lemma_slot_is(rest, timestamp, at - 1);
    }
}

/// The slot lies within the entries; all before it is below the timestamp
/// and what stands at it is not.
pub proof fn lemma_slot_bounds(entries: Seq<(u64, Seq<char>)>, timestamp: u64)
    ensures
        0 <= slot(entries, timestamp) <= entries.len(),
        forall|k: int| 0 <= k < slot(entries, timestamp) ==> (#[trigger] entries[k]).0 < timestamp,
        slot(entries, timestamp) < entries.len() ==> entries[slot(entries, timestamp)].0
            >= timestamp,
    decreases entries.len(),
{
    if !(entries.len() == 0 || entries[0].0 >= timestamp) {
        let rest = entries.drop_first();
        lemma_slot_bounds(rest, timestamp);
        assert forall|k: int| 0 <= k < slot(entries, timestamp) implies (#[trigger] entries[k]).0
            < timestamp by {
            if k > 0 {
                assert(entries[k] == rest[k - 1]);
            }
        }
    }
}

/// Entering a timestamp keeps ascending entries ascending, makes `id` the
/// id under that timestamp, and leaves every other entry in the index.
pub proof fn lemma_with_entry(entries: Seq<(u64, Seq<char>)>, timestamp: u64, id: Seq<char>)
    requires
        ascending(entries),
    ensures
        ascending(with_entry(entries, timestamp, id)),
        with_entry(entries, timestamp, id).contains((timestamp, id)),
        forall|k: int|
            0 <= k < with_entry(entries, timestamp, id).len() ==> (#[trigger] with_entry(
                entries,
                timestamp,
                id,
            )[k]) == (timestamp, id) || entries.contains(with_entry(entries, timestamp, id)[k]),
{
    lemma_slot_bounds(entries, timestamp);
    let at = slot(entries, timestamp);
    let after = with_entry(entries, timestamp, id);
    if at < entries.len() && entries[at].0 == timestamp {
        assert(after[at] == (timestamp, id));
        assert forall|k: int| 0 <= k < after.len() implies (#[trigger] after[k]) == (timestamp, id)
            || entries.contains(after[k]) by {
            if k != at {
                assert(after[k] == entries[k]);
            }
        }
    } else {
        assert(after[at] == (timestamp, id));
        assert forall|i: int, j: int| 0 <= i < j < after.len() implies after[i].0 < after[j].0 by {
            if j < at {
                assert(after[i] == entries[i] && after[j] == entries[j]);
            } else if j == at {
                assert(after[i] == entries[i]);
            } else if i < at {
                assert(after[i] == entries[i] && after[j] == entries[j - 1]);
                assert(entries[j - 1].0 >= entries[at].0);
            } else if i == at {
                assert(after[j] == entries[j - 1]);
                assert(entries[j - 1].0 >= entries[at].0);
            } else {
                assert(after[i] == entries[i - 1] && after[j] == entries[j - 1]);
            }
        }
        assert forall|k: int| 0 <= k < after.len() implies (#[trigger] after[k]) == (timestamp, id)
            || entries.contains(after[k]) by {
            if k < at {
                assert(after[k] == entries[k]);
            } else if k > at {
                assert(after[k] == entries[k - 1]);
            }
        }
    }
}

/// The entries of ascending entries that a condition keeps are ascending,
/// each of them is one of the entries, and the condition holds of each.
pub proof fn lemma_filter_ascending(
    entries: Seq<(u64, Seq<char>)>,
    keep: spec_fn((u64, Seq<char>)) -> bool,
)
    requires
        ascending(entries),
    ensures
        ascending(entries.filter(keep)),
        forall|i: int|
            0 <= i < entries.filter(keep).len() ==> keep(#[trigger] entries.filter(keep)[i])
                && entries.contains(entries.filter(keep)[i]),
    decreases entries.len(),
{
    let kept = entries.filter(keep);
    if entries.len() == 0 {
        entries.lemma_filter_len(keep);
    } else {
        let earlier = entries.drop_last();
        let last = entries.last();
        assert(entries =~= earlier.push(last));
        earlier.lemma_filter_push(last, keep);
        lemma_filter_ascending(earlier, keep);
        let before = earlier.filter(keep);
        assert forall|i: int| 0 <= i < kept.len() implies keep(#[trigger] kept[i])
            && entries.contains(kept[i]) by {
            if i < before.len() {
                assert(kept[i] == before[i]);
                let j = choose|j: int| 0 <= j < earlier.len() && earlier[j] == before[i];
                assert(entries[j] == kept[i]);
            } else {
                assert(entries[entries.len() - 1] == kept[i]);
            }
        }
        assert forall|i: int, j: int| 0 <= i < j < kept.len() implies kept[i].0 < kept[j].0 by {
            if j < before.len() {
                assert(kept[i] == before[i] && kept[j] == before[j]);
            } else {
                assert(kept[i] == before[i]);
                let k = choose|k: int| 0 <= k < earlier.len() && earlier[k] == before[i];
                assert(entries[k].0 < entries[entries.len() - 1].0);
            }
        }
    }
}

impl View for TimeIndex {
    type V = Seq<(u64, Seq<char>)>;

    closed spec fn view(&self) -> Seq<(u64, Seq<char>)> {
        Seq::new(
            self.entries@.len(),
            |i: int| (self.entries@[i].timestamp, self.entries@[i].token_id@),
        )
    }
}

impl TimeIndex {
    /// An empty index.
    pub fn new() -> (index: Self)
        ensures
            index@ == Seq::<(u64, Seq<char>)>::empty(),
    {
        let index = TimeIndex { entries: Vec::new() };
        assert(index@ =~= Seq::<(u64, Seq<char>)>::empty());
        index
    }

    /// The number of entries.
    pub fn len(&self) -> (len: usize)
        ensures
            len == self@.len(),
    {
        self.entries.len()
    }

    /// The timestamp of the entry at a position.
    pub fn timestamp_at(&self, position: usize) -> (timestamp: u64)
        requires
            position < self@.len(),
        ensures
            timestamp == self@[position as int].0,
    {
        self.entries[position].timestamp
    }

    /// The certificate id of the entry at a position.
    pub fn id_at(&self, position: usize) -> (id: &String)
        requires
            position < self@.len(),
        ensures
            id@ == self@[position as int].1,
    {
        &self.entries[position].token_id
    }

    /// Puts `id` under `timestamp`, in place of any id that was there.
    pub fn insert(&mut self, timestamp: u64, id: String)
        ensures
            final(self)@ == with_entry(old(self)@, timestamp, id@),
            ascending(old(self)@) ==> ascending(final(self)@),
    {
        let ghost before = self@;
        proof {
            if ascending(before) {
                lemma_with_entry(before, timestamp, id@);
            }
        }
        let mut at: usize = 0;
        while at < self.entries.len() && self.entries[at].timestamp < timestamp
            invariant
                at <= self.entries@.len(),
                self@ == before,
                forall|k: int| 0 <= k < at ==> (#[trigger] before[k]).0 < timestamp,
            decreases self.entries@.len() - at,
        {
            assert(before[at as int].0 == self.entries@[at as int].timestamp);
            at = at + 1;
        }
        proof {
            if at < before.len() {
                assert(before[at as int].0 == self.entries@[at as int].timestamp);
            }
            lemma_slot_is(before, timestamp, at as int);
        }
        if at < self.entries.len() && self.entries[at].timestamp == timestamp {
            self.entries[at].token_id = id;
            assert(self@ =~= before.update(at as int, (timestamp, id@)));
        } else {
            self.entries.insert(at, TimeEntry { timestamp, token_id: id });
            assert(self@ =~= before.insert(at as int, (timestamp, id@)));
        }
    }
}

} // verus!
