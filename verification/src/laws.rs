//! The table's stated laws, proved once over the invariants and the spec
//! functions that the operations' contracts are written in.

use vstd::prelude::*;

use crate::hashtable::AggregateHashTable;
use crate::hashtable::entry_row_index;
use crate::hashtable::keys_distinct;
use crate::hashtable::keys_from_batch;
use crate::hashtable::row_has_entry_in;
use crate::hashtable::slot_live_in;
use crate::hash::spec_hash_key;
use crate::hash::spec_salt;
use crate::payload::Row;
use crate::types::Column;
use crate::types::GroupValue;
use crate::types::key_at;

verus! {

/// Whether the next ingestion of `row_count` rows will resize before it
/// touches the directory: the capacity check fires when free slots run
/// short or the load factor is exceeded.
pub open spec fn must_resize(t: AggregateHashTable, row_count: int) -> bool {
    t.spec_must_resize(row_count)
}

/// Load factor law: at any point, either the stored groups are within the
/// capacity's load budget (`len <= capacity / 1.5`), or the very next
/// ingestion resizes before inserting.
pub proof fn lemma_within_budget_or_next_resizes(t: AggregateHashTable, row_count: int)
    requires
        t.wf(),
    ensures
        t.spec_len() <= t.spec_resize_threshold() || must_resize(t, row_count),
{
}

/// Directory bijection law: every stored row is pointed at by exactly one
/// occupied directory entry.
pub proof fn lemma_unique_directory_entry(t: AggregateHashTable, r: int)
    requires
        t.wf(),
        0 <= r < t.spec_len(),
    ensures
        row_has_entry_in(t.entries@, r),
        forall|s1: int, s2: int|
            0 <= s1 < t.entries@.len() && 0 <= s2 < t.entries@.len() && #[trigger] slot_live_in(
                t.entries@,
                s1,
            ) && #[trigger] slot_live_in(t.entries@, s2) && entry_row_index(t.entries@[s1]) == r
                && entry_row_index(t.entries@[s2]) == r ==> s1 == s2,
{
}

/// Salt law: every occupied entry carries the high 16 bits of the hash
/// stored in the row it points at.
pub proof fn lemma_entry_salt_matches(t: AggregateHashTable, s: int)
    requires
        t.wf(),
        0 <= s < t.entries@.len(),
        slot_live_in(t.entries@, s),
    ensures
        t.entries@[s].salt == spec_salt(
            t.payload.rows@[entry_row_index(t.entries@[s])].hash,
        ),
        t.entries@[s].salt == (t.payload.rows@[entry_row_index(t.entries@[s])].hash >> 48) as u16,
{
}

/// Finalize determinism law: the emitted cells are a function of the
/// stored payload alone, so two tables holding equal rows, states and
/// aggregates finalize to exactly the same output, in the same order.
pub proof fn lemma_finalize_deterministic(
    t1: AggregateHashTable,
    t2: AggregateHashTable,
    r: int,
    c: int,
    j: int,
)
    requires
        t1.payload.rows@ == t2.payload.rows@,
        t1.payload.arena@ == t2.payload.arena@,
        t1.payload.aggrs@ == t2.payload.aggrs@,
    ensures
        t1.group_out_cell(r, c) == t2.group_out_cell(r, c),
        t1.agg_out_cell(r, j) == t2.agg_out_cell(r, j),
{
}

/// Group uniqueness law: a well-formed table never stores two rows with
/// the same composite key, so ingestion reuses an existing group rather
/// than duplicating it.
pub proof fn lemma_groups_unique(t: AggregateHashTable)
    requires
        t.wf(),
    ensures
        keys_distinct(t.payload.rows@),
{
}

/// Group uniqueness across calls: a batch whose keys are all already
/// stored creates no group. `rows1` is the payload before the batch and
/// `rows2` after it; the hypotheses are exactly what one ingestion
/// ensures, with `all_placed` from an earlier identical batch giving the
/// presence of every batch key. So feeding the same rows twice leaves the
/// group count unchanged the second time.
pub proof fn lemma_repeated_batch_creates_no_groups(
    rows1: Seq<Row>,
    rows2: Seq<Row>,
    cols: Seq<Column>,
    n: int,
)
    requires
        rows1.len() <= rows2.len(),
        forall|r: int| 0 <= r < rows1.len() ==> rows2[r] == rows1[r],
        keys_from_batch(rows2, rows1.len() as int, rows2.len() as int, cols, n),
        keys_distinct(rows2),
        forall|i: int|
            0 <= i < n ==> exists|r: int|
                0 <= r < rows1.len() && #[trigger] key_at(cols, i) == rows1[r].key(),
    ensures
        rows2.len() == rows1.len(),
{
    if rows2.len() > rows1.len() {
        let rr = rows1.len() as int;
        assert(keys_from_batch(rows2, rows1.len() as int, rows2.len() as int, cols, n));
        assert(rows1.len() as int <= rr < rows2.len() as int);
        assert(exists|i: int| 0 <= i < n && (#[trigger] rows2[rr]).key() == key_at(cols, i)) by {
            assert(rows2[rr].key() == rows2[rr].key());
        }
        let iw = choose|i: int| 0 <= i < n && (#[trigger] rows2[rr]).key() == key_at(cols, i);
        assert(key_at(cols, iw) == rows2[rr].key());
        let r0 = choose|r: int|
            0 <= r < rows1.len() && #[trigger] key_at(cols, iw) == rows1[r].key();
        assert(rows2[r0] == rows1[r0]);
        assert(rows2[r0].key() == rows2[rr].key());
        assert(r0 != rr);
        assert(false);
    }
}

/// Salt screening is sound: the hash, and with it the stored salt, is a
/// function of the key alone, so a salt mismatch can only separate rows
/// whose keys already differ.
pub proof fn lemma_salt_mismatch_means_key_mismatch(k1: Seq<GroupValue>, k2: Seq<GroupValue>)
    requires
        spec_salt(spec_hash_key(k1)) != spec_salt(spec_hash_key(k2)),
    ensures
        k1 != k2,
{
}

} // verus!
