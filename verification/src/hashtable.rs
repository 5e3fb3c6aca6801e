//! The aggregation hash table: a packed-entry directory over the payload.
//!
//! The directory is a zero-initialized array of `capacity` entries,
//! `capacity` a power of two. An entry names a payload row by 1-based page
//! number and offset within the page, with `page_nr == 0` the empty slot,
//! and carries the row's hash salt so most negative probes are rejected
//! without touching payload memory. Collisions resolve by linear probing
//! with wrap-around.

use vstd::prelude::*;

use crate::ErrorKind;
use crate::aggregate::AggState;
use crate::aggregate::AggregateKind;
use crate::arena::Arena;
use crate::hash::is_pow2;
use crate::hash::salt_of;
use crate::hash::spec_salt;
use crate::payload::MAX_AGGREGATES;
use crate::payload::MAX_GROUP_COLUMNS;
use crate::payload::MAX_ROWS;
use crate::payload::Payload;
use crate::payload::ROWS_PER_PAGE;
use crate::payload::Row;
use crate::hash::spec_bucket;
use crate::hash::spec_hash_key;
use crate::payload::cols_match;
use crate::probe_state::ProbeState;
use crate::probing::path_live;
use crate::probing::probe_budget;
use crate::probing::row_bucket;
use crate::probing::row_dist;
use crate::probing::wrap_dist;
use crate::types::Column;
use crate::types::DataType;
use crate::types::GroupValue;
use crate::types::key_at;

verus! {

/// Capacity of a freshly built table.
pub const INITIAL_CAPACITY: usize = 128;

/// Hard bound on the directory size.
pub const MAX_CAPACITY: usize = 0x1000_0000;

/// Hard bound on the rows of one batch.
pub const MAX_BATCH_ROWS: usize = 0x10_0000;

/// One packed directory entry: the row's hash salt, its offset within its
/// payload page, and the 1-based page number. A zero page number marks the
/// slot empty, so a zeroed allocation is a valid empty directory.
#[derive(Clone, Copy, Debug, Default, PartialEq, Eq, Structural)]
pub struct Entry {
    pub salt: u16,
    pub page_offset: u16,
    pub page_nr: u32,
}

/// The payload row an entry points at.
pub open spec fn entry_row_index(e: Entry) -> int {
    (e.page_nr - 1) * (ROWS_PER_PAGE as int) + e.page_offset
}

/// Whether slot `s` is occupied.
pub open spec fn slot_live_in(entries: Seq<Entry>, s: int) -> bool {
    entries[s].page_nr != 0
}

/// Every occupied slot points at an existing row and carries that row's
/// hash salt.
pub open spec fn dir_entries_valid(entries: Seq<Entry>, rows: Seq<Row>) -> bool {
    forall|s: int|
        0 <= s < entries.len() && #[trigger] slot_live_in(entries, s) ==> {
            &&& entries[s].page_offset < ROWS_PER_PAGE
            &&& 0 <= entry_row_index(entries[s]) < rows.len()
            &&& entries[s].salt == spec_salt(rows[entry_row_index(entries[s])].hash)
        }
}

/// No two occupied slots point at the same row.
pub open spec fn dir_injective(entries: Seq<Entry>) -> bool {
    forall|s1: int, s2: int|
        0 <= s1 < entries.len() && 0 <= s2 < entries.len() && s1 != s2 && #[trigger] slot_live_in(
            entries,
            s1,
        ) && #[trigger] slot_live_in(entries, s2) ==> entry_row_index(entries[s1])
            != entry_row_index(entries[s2])
}

/// Some occupied slot points at row `r`.
pub open spec fn row_has_entry_in(entries: Seq<Entry>, r: int) -> bool {
    exists|s: int|
        0 <= s < entries.len() && #[trigger] slot_live_in(entries, s) && entry_row_index(
            entries[s],
        ) == r
}

/// Every stored row is pointed at by some occupied slot.
pub open spec fn dir_complete(entries: Seq<Entry>, nrows: int) -> bool {
    forall|r: int| 0 <= r < nrows ==> #[trigger] row_has_entry_in(entries, r)
}

/// The aggregation hash table.
pub struct AggregateHashTable {
    pub payload: Payload,
    pub entries: Vec<Entry>,
    pub capacity: usize,
}

impl AggregateHashTable {
    pub open spec fn spec_len(self) -> nat {
        self.payload.spec_len()
    }

    /// The table invariant.
    ///
    /// Beyond the payload's own shape: the directory has `capacity` slots,
    /// `capacity` is a power of two between the initial size and the hard
    /// bound, strictly more slots than rows exist, and the directory points
    /// at the rows one-to-one and onto with matching salts.
    pub open spec fn wf(self) -> bool {
        &&& self.payload.wf()
        &&& self.entries@.len() == self.capacity
        &&& is_pow2(self.capacity as u64)
        &&& INITIAL_CAPACITY <= self.capacity <= MAX_CAPACITY
        &&& self.payload.rows@.len() < self.capacity
        &&& dir_entries_valid(self.entries@, self.payload.rows@)
        &&& dir_injective(self.entries@)
        &&& dir_complete(self.entries@, self.payload.rows@.len() as int)
        &&& dir_no_holes(self.entries@, self.payload.rows@, self.capacity as int)
        &&& keys_distinct(self.payload.rows@)
    }

    /// Largest row count the current capacity is meant to carry:
    /// `capacity` divided by the load factor 1.5.
    pub open spec fn spec_resize_threshold(self) -> int {
        2 * self.capacity / 3
    }

    /// Whether ingesting `row_count` rows resizes before touching the
    /// directory: free slots run short, or the load factor is exceeded.
    pub open spec fn spec_must_resize(self, row_count: int) -> bool {
        self.capacity - self.spec_len() <= row_count || self.spec_len()
            > self.spec_resize_threshold()
    }

    /// Build a table over the given arena, group column types and
    /// aggregates, with the initial directory capacity.
    pub fn new(arena: Arena, group_types: Vec<DataType>, aggrs: Vec<AggregateKind>) -> (r: Self)
        requires
            arena@.len() == 0,
            group_types@.len() <= MAX_GROUP_COLUMNS,
            aggrs@.len() <= MAX_AGGREGATES,
        ensures
            r.wf(),
            r.spec_len() == 0,
            r.payload.group_types == group_types,
            r.payload.aggrs == aggrs,
            r.capacity == INITIAL_CAPACITY,
    {
        proof {
            assert(128u64 & 127u64 == 0) by (bit_vector);
        }
        AggregateHashTable {
            payload: Payload::new(arena, group_types, aggrs),
            entries: new_entries(INITIAL_CAPACITY),
            capacity: INITIAL_CAPACITY,
        }
    }

    pub fn len(&self) -> (n: usize)
        ensures
            n == self.spec_len(),
    {
        self.payload.len()
    }

    fn resize_threshold(&self) -> (t: usize)
        requires
            self.capacity <= MAX_CAPACITY,
        ensures
            t == self.spec_resize_threshold(),
    {
        2 * self.capacity / 3
    }

    /// Rebuild the directory at a new capacity. Only directory positions
    /// change: the payload, and with it every stored group and aggregate
    /// state, stays exactly as it was.
    #[verifier::rlimit(100)]
    #[verifier::spinoff_prover]
    pub fn resize(&mut self, new_capacity: usize)
        requires
            old(self).wf(),
            is_pow2(new_capacity as u64),
            INITIAL_CAPACITY <= new_capacity <= MAX_CAPACITY,
            old(self).spec_len() < new_capacity,
        ensures
            final(self).wf(),
            final(self).payload == old(self).payload,
            final(self).capacity == new_capacity,
    {
        let nrows = self.payload.len();
        let mut entries = new_entries(new_capacity);
        let cap64 = new_capacity as u64;
        let mut row: usize = 0;
        while row < nrows
            invariant
                row <= nrows,
                nrows == self.payload.rows@.len(),
                self == old(self),
                old(self).wf(),
                is_pow2(cap64),
                cap64 == new_capacity as u64,
                INITIAL_CAPACITY <= new_capacity <= MAX_CAPACITY,
                nrows < new_capacity,
                entries@.len() == new_capacity,
                dir_entries_valid(entries@, self.payload.rows@),
                dir_injective(entries@),
                dir_complete(entries@, row as int),
                dir_no_holes(entries@, self.payload.rows@, new_capacity as int),
                forall|s: int|
                    0 <= s < entries@.len() && #[trigger] slot_live_in(entries@, s)
                        ==> entry_row_index(entries@[s]) < row,
            decreases nrows - row,
        {
            let h = self.payload.get_row(row).hash;
            proof {
                crate::hash::lemma_bucket_in_range(h, cap64);
            }
            let mut slot: usize = (h & (cap64 - 1)) as usize;
            let ghost bq = bucket_of(h, new_capacity as int);
            proof {
                crate::probing::lemma_exists_empty_slot(entries@, row as int);
            }
            let ghost s_e = choose|s: int|
                0 <= s < entries@.len() && !slot_live_in(entries@, s);
            while entries[slot].page_nr != 0
                invariant
                    slot < new_capacity,
                    entries@.len() == new_capacity,
                    0 <= s_e < new_capacity,
                    !slot_live_in(entries@, s_e),
                    0 <= bq < new_capacity,
                    path_live(
                        entries@,
                        new_capacity as int,
                        bq,
                        wrap_dist(new_capacity as int, bq, slot as int),
                    ),
                decreases crate::probing::wrap_dist(new_capacity as int, slot as int, s_e),
            {
                proof {
                    let capn = new_capacity as int;
                    let d = wrap_dist(capn, bq, slot as int);
                    let de = wrap_dist(capn, bq, s_e);
                    crate::probing::lemma_slot_on_path(capn, bq, slot as int);
                    crate::probing::lemma_slot_on_path(capn, bq, s_e);
                    if d > de {
                        assert(slot_live_in(entries@, crate::probing::slot_at(capn, bq, de)));
                        assert(false);
                    }
                    assert(d < de);
                    let noff: int = if slot + 1 < new_capacity {
                        slot + 1
                    } else {
                        0
                    };
                    crate::probing::lemma_advance_dist(capn, bq, slot as int, noff);
                    assert forall|dd: int|
                        0 <= dd < d + 1 implies slot_live_in(
                        entries@,
                        #[trigger] crate::probing::slot_at(capn, bq, dd),
                    ) by {
                        if dd == d {
                            assert(crate::probing::slot_at(capn, bq, d) == slot as int);
                        }
                    }
                }
                slot += 1;
                if slot >= new_capacity {
                    slot = 0;
                }
            }
            let pn = row / ROWS_PER_PAGE + 1;
            let po = row % ROWS_PER_PAGE;
            let e = Entry { salt: salt_of(h), page_offset: po as u16, page_nr: pn as u32 };
            proof {
                assert(entry_row_index(e) == row);
            }
            let ghost pre = entries@;
            proof {
                assert(dir_injective(pre));
                assert(forall|s: int|
                    0 <= s < pre.len() && #[trigger] slot_live_in(pre, s) ==> entry_row_index(
                        pre[s],
                    ) < row);
            }
            entries.set(slot, e);
            proof {
                assert forall|s: int|
                    0 <= s < entries@.len() && #[trigger] slot_live_in(entries@, s) implies {
                    &&& entries@[s].page_offset < ROWS_PER_PAGE
                    &&& 0 <= entry_row_index(entries@[s]) < self.payload.rows@.len()
                    &&& entries@[s].salt == spec_salt(
                        self.payload.rows@[entry_row_index(entries@[s])].hash,
                    )
                    &&& entry_row_index(entries@[s]) < row + 1
                } by {
                    if s != slot as int {
                        assert(entries@[s] == pre[s]);
                        assert(slot_live_in(pre, s));
                    }
                }
                assert(dir_entries_valid(entries@, self.payload.rows@));
                assert forall|s1: int, s2: int|
                    0 <= s1 < entries@.len() && 0 <= s2 < entries@.len() && s1 != s2
                        && #[trigger] slot_live_in(entries@, s1) && #[trigger] slot_live_in(
                        entries@,
                        s2,
                    ) implies entry_row_index(entries@[s1]) != entry_row_index(entries@[s2]) by {
                    if s1 != slot as int && s2 != slot as int {
                        assert(slot_live_in(pre, s1) && slot_live_in(pre, s2));
                    } else if s1 == slot as int {
                        assert(entries@[s2] == pre[s2]);
                        assert(slot_live_in(pre, s2) && entry_row_index(pre[s2]) < row);
                    } else {
                        assert(entries@[s1] == pre[s1]);
                        assert(0 <= s1 < pre.len());
                        assert(slot_live_in(pre, s1));
                        assert(entry_row_index(pre[s1]) < row);
                        assert(entry_row_index(entries@[s2]) == row);
                    }
                }
                assert forall|rr: int| 0 <= rr < row + 1 implies row_has_entry_in(
                    entries@,
                    rr,
                ) by {
                    if rr < row {
                        assert(row_has_entry_in(pre, rr));
                        let s0 = choose|s: int|
                            0 <= s < pre.len() && slot_live_in(pre, s) && entry_row_index(pre[s])
                                == rr;
                        assert(s0 != slot as int);
                        assert(slot_live_in(entries@, s0) && entry_row_index(entries@[s0]) == rr);
                    } else {
                        assert(slot_live_in(entries@, slot as int) && entry_row_index(
                            entries@[slot as int],
                        ) == row);
                    }
                }
                let capn = new_capacity as int;
                assert forall|sq: int|
                    0 <= sq < entries@.len() && #[trigger] slot_live_in(entries@, sq) implies
                    path_live(
                    entries@,
                    capn,
                    bucket_of(self.payload.rows@[entry_row_index(entries@[sq])].hash, capn),
                    wrap_dist(
                        capn,
                        bucket_of(self.payload.rows@[entry_row_index(entries@[sq])].hash, capn),
                        sq,
                    ),
                ) by {
                    let rq = entry_row_index(entries@[sq]);
                    let bs = bucket_of(self.payload.rows@[rq].hash, capn);
                    crate::hash::lemma_bucket_in_range(self.payload.rows@[rq].hash, cap64);
                    assert forall|sx: int|
                        0 <= sx < capn && slot_live_in(pre, sx) implies slot_live_in(
                        entries@,
                        sx,
                    ) by {
                        if sx != slot as int {
                            assert(entries@[sx] == pre[sx]);
                        }
                    }
                    if sq != slot as int {
                        assert(entries@[sq] == pre[sq]);
                        assert(slot_live_in(pre, sq));
                        crate::probing::lemma_path_live_mono(
                            pre,
                            entries@,
                            capn,
                            bs,
                            wrap_dist(capn, bs, sq),
                        );
                    } else {
                        assert(rq == row);
                        assert(bs == bq);
                        crate::probing::lemma_slot_on_path(capn, bq, slot as int);
                        crate::probing::lemma_path_live_mono(
                            pre,
                            entries@,
                            capn,
                            bq,
                            wrap_dist(capn, bq, slot as int),
                        );
                    }
                }
            }
            row += 1;
        }
        self.entries = entries;
        self.capacity = new_capacity;
    }

    /// Resolve or create a group for every batch row.
    ///
    /// Classifies each still-unplaced row by its current directory slot
    /// (empty, salt match, salt mismatch), appends the new groups to the
    /// payload, compares candidate keys, advances the mismatches one probe
    /// step, and repeats until every row's address names a stored row with
    /// that row's key. Returns the number of groups created.
    #[verifier::loop_isolation(false)]
    #[verifier::rlimit(100)]
    fn probe_and_create(
        &mut self,
        state: &mut ProbeState,
        group_columns: &Vec<Column>,
        row_count: usize,
    ) -> (n: usize)
        requires
            old(self).wf(),
            cols_match(group_columns@, old(self).payload.group_types@, row_count as nat),
            row_count <= MAX_BATCH_ROWS,
            old(self).spec_len() + row_count <= MAX_ROWS,
        ensures
            final(self).wf(),
            final(self).payload.group_types == old(self).payload.group_types,
            final(self).payload.aggrs == old(self).payload.aggrs,
            final(self).payload.row_per_page == old(self).payload.row_per_page,
            final(self).payload.state_addr_offsets == old(self).payload.state_addr_offsets,
            n as int == final(self).spec_len() - old(self).spec_len(),
            n <= row_count,
            forall|r: int|
                0 <= r < old(self).spec_len() ==> final(self).payload.rows@[r] == old(
                    self,
                ).payload.rows@[r],
            keys_from_batch(
                final(self).payload.rows@,
                old(self).spec_len() as int,
                final(self).spec_len() as int,
                group_columns@,
                row_count as int,
            ),
            final(self).payload.arena@ == old(self).payload.arena@ + Seq::new(
                (n * old(self).payload.aggrs@.len()) as nat,
                |t: int| crate::aggregate::spec_agg_init(),
            ),
            ps_core(*final(state), group_columns@, row_count as int),
            all_placed(
                final(state).addresses@,
                final(self).payload.rows@,
                group_columns@,
                row_count as int,
            ),
            row_count == 0 ==> *final(self) == *old(self),
            row_count > 0 ==> final(self).capacity == (if old(self).spec_must_resize(
                row_count as int,
            ) {
                spec_grown_capacity(2 * old(self).capacity, old(self).spec_len() as int, row_count as int)
            } else {
                old(self).capacity as int
            }),
    {
        if row_count == 0 {
            state.prepare(group_columns, row_count, self.capacity);
            proof {
                assert(self.payload.arena@ =~= old(self).payload.arena@ + Seq::new(
                    0,
                    |t: int| crate::aggregate::spec_agg_init(),
                ));
            }
            return 0;
        }
        let llen = self.payload.len();
        if self.capacity - llen <= row_count || llen > self.resize_threshold() {
            proof {
                assert(self.capacity < 0x200_0000);
            }
            let mut new_capacity = self.capacity * 2;
            proof {
                lemma_pow2_double(self.capacity as u64);
            }
            while new_capacity - llen <= row_count
                invariant
                    is_pow2(new_capacity as u64),
                    256 <= new_capacity <= 0x400_0000,
                    llen < new_capacity,
                    spec_grown_capacity(new_capacity as int, llen as int, row_count as int)
                        == spec_grown_capacity(
                        2 * old(self).capacity,
                        llen as int,
                        row_count as int,
                    ),
                decreases 0x400_0000 - new_capacity,
            {
                proof {
                    lemma_pow2_double(new_capacity as u64);
                }
                new_capacity *= 2;
            }
            self.resize(new_capacity);
        }
        let ghost len_start = self.spec_len() as int;
        let cap = self.capacity;
        let ghost capi = cap as int;
        let ghost n_aggr = self.payload.aggrs@.len() as int;
        proof {
            assert(capi - len_start > row_count);
        }
        state.prepare(group_columns, row_count, cap);
        let mut select_vector: Vec<usize> = Vec::new();
        let mut i0: usize = 0;
        while i0 < row_count
            invariant
                i0 <= row_count,
                select_vector@.len() == i0,
                forall|u: int| 0 <= u < i0 ==> #[trigger] select_vector@[u] == u,
            decreases row_count - i0,
        {
            select_vector.push(i0);
            i0 += 1;
        }
        let mut new_group_count: usize = 0;
        proof {
            assert(self.payload.arena@ =~= old(self).payload.arena@ + Seq::new(
                0,
                |t: int| crate::aggregate::spec_agg_init(),
            ));
            assert forall|ii: int| 0 <= ii < row_count implies #[trigger] select_vector@.contains(
                ii as usize,
            ) by {
                assert(select_vector@[ii] == ii as usize);
            }
        }
        while select_vector.len() > 0
            invariant
                self.wf(),
                self.capacity == cap,
                self.payload.group_types == old(self).payload.group_types,
                self.payload.aggrs == old(self).payload.aggrs,
                self.payload.row_per_page == old(self).payload.row_per_page,
                self.payload.state_addr_offsets == old(self).payload.state_addr_offsets,
                ps_core(*state, group_columns@, row_count as int),
                forall|ii: int| 0 <= ii < row_count ==> #[trigger] state.ht_offsets@[ii] < cap,
                forall|ii: int|
                    0 <= ii < row_count ==> path_live(
                        self.entries@,
                        capi,
                        row_bucket(capi, state.hashes@, ii),
                        #[trigger] row_dist(capi, state.hashes@, state.ht_offsets@, ii),
                    ),
                forall|ii: int|
                    0 <= ii < row_count ==> path_keys_differ(
                        self.entries@,
                        self.payload.rows@,
                        capi,
                        row_bucket(capi, state.hashes@, ii),
                        #[trigger] row_dist(capi, state.hashes@, state.ht_offsets@, ii),
                        key_at(group_columns@, ii),
                    ),
                len_start <= self.spec_len(),
                forall|r: int|
                    0 <= r < len_start ==> self.payload.rows@[r] == old(self).payload.rows@[r],
                forall|r: int|
                    len_start <= r < self.spec_len() ==> exists|i: int|
                        0 <= i < row_count && (#[trigger] self.payload.rows@[r]).key() == key_at(
                            group_columns@,
                            i,
                        ),
                self.payload.arena@ == old(self).payload.arena@ + Seq::new(
                    ((self.spec_len() - len_start) * n_aggr) as nat,
                    |t: int| crate::aggregate::spec_agg_init(),
                ),
                new_group_count as int == self.spec_len() - len_start,
                self.spec_len() - len_start + select_vector@.len() <= row_count,
                distinct_seq(select_vector@),
                forall|u: int| 0 <= u < select_vector@.len() ==> #[trigger] select_vector@[u] < row_count,
                forall|ii: int|
                    0 <= ii < row_count && !select_vector@.contains(ii as usize) ==> placed(
                        *state,
                        self.payload.rows@,
                        group_columns@,
                        ii,
                    ),
            decreases probe_budget(capi, state.hashes@, state.ht_offsets@, row_count as int)
                + select_vector@.len(),
        {
            let ghost table_head = *self;
            let ghost e_head = self.entries@;
            let ghost rows_head = self.payload.rows@;
            let ghost len_head = self.spec_len() as int;
            let ghost sel_head = select_vector@;
            let ghost budget_head = probe_budget(
                capi,
                state.hashes@,
                state.ht_offsets@,
                row_count as int,
            );
            let sel_len = select_vector.len();
            let ghost st_head = *state;
            let ghost a_head = state.addresses@;
            let ghost ngc_head = new_group_count as int;
            state.empty_vector = Vec::new();
            state.group_compare_vector = Vec::new();
            state.no_match_vector = Vec::new();

            // classification: each selected row inspects its current slot
            let mut t: usize = 0;
            while t < sel_len
                invariant
                    t <= sel_len,
                    self.payload == table_head.payload,
                    self.capacity == cap,
                    self.entries@.len() == capi,
                    state.hashes@ == st_head.hashes@,
                    state.hash_salts@ == st_head.hash_salts@,
                    state.ht_offsets@ == st_head.ht_offsets@,
                    state.addresses@ == st_head.addresses@,
                    state.state_places@ == st_head.state_places@,
                    state.new_groups@ == st_head.new_groups@,
                    state.empty_vector@.len() + state.group_compare_vector@.len()
                        + state.no_match_vector@.len() == t,
                    forall|u: int|
                        0 <= u < t ==> state.empty_vector@.contains(#[trigger] sel_head[u])
                            || state.group_compare_vector@.contains(sel_head[u])
                            || state.no_match_vector@.contains(sel_head[u]),
                    forall|k: int|
                        0 <= k < state.empty_vector@.len() ==> #[trigger] state.empty_vector@[k]
                            < row_count && sel_head.take(t as int).contains(state.empty_vector@[k]),
                    forall|k: int|
                        0 <= k < state.group_compare_vector@.len()
                            ==> #[trigger] state.group_compare_vector@[k] < row_count
                            && sel_head.take(t as int).contains(state.group_compare_vector@[k]),
                    forall|k: int|
                        0 <= k < state.no_match_vector@.len()
                            ==> #[trigger] state.no_match_vector@[k] < row_count && sel_head.take(
                            t as int,
                        ).contains(state.no_match_vector@[k]),
                    distinct_seq(state.empty_vector@),
                    distinct_seq(state.group_compare_vector@),
                    distinct_seq(state.no_match_vector@),
                    disjoint_seqs(state.empty_vector@, state.group_compare_vector@),
                    disjoint_seqs(state.empty_vector@, state.no_match_vector@),
                    disjoint_seqs(state.group_compare_vector@, state.no_match_vector@),
                    forall|s: int|
                        0 <= s < capi && e_head[s].page_nr != 0 ==> #[trigger] self.entries@[s]
                            == e_head[s],
                    forall|s: int|
                        0 <= s < capi && #[trigger] self.entries@[s] != e_head[s] ==> marked_slot(
                            state.ht_offsets@,
                            state.empty_vector@,
                            s,
                        ),
                    forall|k: int|
                        0 <= k < state.empty_vector@.len() ==> {
                            let sl = state.ht_offsets@[#[trigger] state.empty_vector@[k] as int] as int;
                            &&& e_head[sl].page_nr == 0
                            &&& self.entries@[sl] == sentinel_entry(
                                state.hash_salts@[state.empty_vector@[k] as int],
                            )
                        },
                    forall|k1: int, k2: int|
                        0 <= k1 < k2 < state.empty_vector@.len()
                            ==> state.ht_offsets@[#[trigger] state.empty_vector@[k1] as int]
                            != state.ht_offsets@[#[trigger] state.empty_vector@[k2] as int],
                    forall|k: int|
                        0 <= k < state.group_compare_vector@.len() ==> {
                            let sl = state.ht_offsets@[#[trigger] state.group_compare_vector@[k] as int] as int;
                            &&& slot_live_in(self.entries@, sl)
                            &&& self.entries@[sl].salt == state.hash_salts@[state.group_compare_vector@[k] as int]
                        },
                    forall|k: int|
                        0 <= k < state.no_match_vector@.len() ==> {
                            let sl = state.ht_offsets@[#[trigger] state.no_match_vector@[k] as int] as int;
                            &&& slot_live_in(self.entries@, sl)
                            &&& self.entries@[sl].salt != state.hash_salts@[state.no_match_vector@[k] as int]
                        },
                    forall|ii: int|
                        0 <= ii < row_count ==> path_live(
                            self.entries@,
                            capi,
                            row_bucket(capi, state.hashes@, ii),
                            #[trigger] row_dist(capi, state.hashes@, state.ht_offsets@, ii),
                        ),
                decreases sel_len - t,
            {
                let idx = select_vector[t];
                proof {
                    assert(sel_head[t as int] == idx);
                    if sel_head.take(t as int).contains(idx) {
                        let u = choose|u: int|
                            0 <= u < t && sel_head.take(t as int)[u] == idx;
                        assert(sel_head[u] == idx && sel_head[t as int] == idx);
                        assert(false);
                    }
                }
                let slot = state.ht_offsets[idx];
                let entry = self.entries[slot];
                let ghost ev_b = state.empty_vector@;
                let ghost cv_b = state.group_compare_vector@;
                let ghost nv_b = state.no_match_vector@;
                if entry.page_nr == 0 {
                    let ghost pre = self.entries@;
                    self.entries.set(
                        slot,
                        Entry { salt: state.hash_salts[idx], page_offset: 0, page_nr: 1 },
                    );
                    let ghost ev_pre = state.empty_vector@;
                    state.empty_vector.push(idx);
                    proof {
                        assert forall|ii: int| 0 <= ii < row_count implies path_live(
                            self.entries@,
                            capi,
                            row_bucket(capi, state.hashes@, ii),
                            #[trigger] row_dist(capi, state.hashes@, state.ht_offsets@, ii),
                        ) by {
                            crate::hash::lemma_bucket_in_range(state.hashes@[ii], cap as u64);
                            assert forall|sq: int|
                                0 <= sq < capi && slot_live_in(pre, sq) implies slot_live_in(
                                self.entries@,
                                sq,
                            ) by {
                                if sq != slot as int {
                                    assert(self.entries@[sq] == pre[sq]);
                                }
                            }
                            crate::probing::lemma_path_live_mono(
                                pre,
                                self.entries@,
                                capi,
                                row_bucket(capi, state.hashes@, ii),
                                row_dist(capi, state.hashes@, state.ht_offsets@, ii),
                            );
                        }
                        assert forall|s: int|
                            0 <= s < capi && #[trigger] self.entries@[s] != e_head[s] implies
                            marked_slot(state.ht_offsets@, state.empty_vector@, s) by {
                            if s == slot as int {
                                let k = state.empty_vector@.len() - 1;
                                assert(state.empty_vector@[k] == idx);
                                assert(state.ht_offsets@[state.empty_vector@[k] as int] as int == s);
                            } else {
                                assert(pre[s] != e_head[s]);
                                assert(marked_slot(state.ht_offsets@, ev_pre, s));
                                let k = choose|k: int|
                                    0 <= k < ev_pre.len() && state.ht_offsets@[#[trigger] ev_pre[k] as int] as int == s;
                                assert(state.empty_vector@[k] == ev_pre[k]);
                                assert(state.ht_offsets@[state.empty_vector@[k] as int] as int == s);
                            }
                        }
                    }
                } else if entry.salt == state.hash_salts[idx] {
                    state.group_compare_vector.push(idx);
                } else {
                    state.no_match_vector.push(idx);
                }
                proof {
                    lemma_push_contains(ev_b, idx);
                    lemma_push_contains(cv_b, idx);
                    lemma_push_contains(nv_b, idx);
                    lemma_take_grow(sel_head, t as int, (t + 1) as int);
                    assert(sel_head.take((t + 1) as int)[t as int] == idx);
                    assert(sel_head.take((t + 1) as int).contains(idx));
                }
                t += 1;
            }
            proof {
                assert(sel_head.take(sel_len as int) =~= sel_head);
            }

            // append the new groups and write their real directory entries
            let ev_len = state.empty_vector.len();
            let ghost cv_a = state.group_compare_vector@;
            let ghost nv_a = state.no_match_vector@;
            let ghost cv_len_a = state.group_compare_vector@.len() as int;
            let ghost nv_len_a = state.no_match_vector@.len() as int;
            let ghost ev_snap = state.empty_vector@;
            let mut k: usize = 0;
            while k < ev_len
                invariant
                    k <= ev_len,
                    ev_len + cv_len_a + nv_len_a == sel_len,
                    self.capacity == cap,
                    self.entries@.len() == capi,
                    self.payload.wf(),
                    self.payload.group_types == table_head.payload.group_types,
                    self.payload.aggrs == table_head.payload.aggrs,
                    self.payload.row_per_page == table_head.payload.row_per_page,
                    self.payload.state_addr_offsets == table_head.payload.state_addr_offsets,
                    self.payload.rows@.len() == len_head + k,
                    forall|r: int| 0 <= r < len_head ==> self.payload.rows@[r] == rows_head[r],
                    forall|kk: int|
                        0 <= kk < k ==> (#[trigger] self.payload.rows@[len_head + kk]).key()
                            == key_at(group_columns@, ev_snap[kk] as int)
                            && self.payload.rows@[len_head + kk].hash == state.hashes@[ev_snap[kk] as int],
                    self.payload.arena@ == table_head.payload.arena@ + Seq::new(
                        (k * n_aggr) as nat,
                        |tq: int| crate::aggregate::spec_agg_init(),
                    ),
                    state.hashes@ == st_head.hashes@,
                    state.hash_salts@ == st_head.hash_salts@,
                    state.ht_offsets@ == st_head.ht_offsets@,
                    state.state_places@ == st_head.state_places@,
                    state.empty_vector@ == ev_snap,
                    state.group_compare_vector@ == cv_a,
                    state.no_match_vector@ == nv_a,
                    state.addresses@.len() == row_count,
                    forall|kk: int|
                        0 <= kk < k ==> state.addresses@[#[trigger] ev_snap[kk] as int] as int
                            == len_head + kk,
                    forall|ii: int|
                        0 <= ii < row_count && !ev_snap.take(k as int).contains(ii as usize)
                            ==> #[trigger] state.addresses@[ii] == a_head[ii],
                    new_group_count as int == ngc_head + k,
                    state.new_groups@.len() == st_head.new_groups@.len() + k,
                    forall|s: int|
                        0 <= s < capi && e_head[s].page_nr != 0 ==> #[trigger] self.entries@[s]
                            == e_head[s],
                    forall|s: int|
                        0 <= s < capi && #[trigger] self.entries@[s] != e_head[s] ==> marked_slot(
                            state.ht_offsets@,
                            ev_snap,
                            s,
                        ),
                    forall|kk: int|
                        0 <= kk < k ==> {
                            let sl = state.ht_offsets@[#[trigger] ev_snap[kk] as int] as int;
                            &&& self.entries@[sl].salt == state.hash_salts@[ev_snap[kk] as int]
                            &&& self.entries@[sl].page_offset < ROWS_PER_PAGE
                            &&& self.entries@[sl].page_nr != 0
                            &&& entry_row_index(self.entries@[sl]) == len_head + kk
                        },
                    forall|kk: int|
                        k <= kk < ev_len ==> {
                            let sl = state.ht_offsets@[#[trigger] ev_snap[kk] as int] as int;
                            &&& e_head[sl].page_nr == 0
                            &&& self.entries@[sl] == sentinel_entry(
                                state.hash_salts@[ev_snap[kk] as int],
                            )
                        },
                    forall|k1: int, k2: int|
                        0 <= k1 < k2 < ev_len
                            ==> state.ht_offsets@[#[trigger] ev_snap[k1] as int]
                            != state.ht_offsets@[#[trigger] ev_snap[k2] as int],
                    forall|kq: int|
                        0 <= kq < state.group_compare_vector@.len() ==> {
                            let sl = state.ht_offsets@[#[trigger] state.group_compare_vector@[kq] as int] as int;
                            &&& slot_live_in(self.entries@, sl)
                            &&& self.entries@[sl].salt == state.hash_salts@[state.group_compare_vector@[kq] as int]
                        },
                    forall|kq: int|
                        0 <= kq < state.no_match_vector@.len() ==> {
                            let sl = state.ht_offsets@[#[trigger] state.no_match_vector@[kq] as int] as int;
                            &&& slot_live_in(self.entries@, sl)
                            &&& self.entries@[sl].salt != state.hash_salts@[state.no_match_vector@[kq] as int]
                        },
                    forall|ii: int|
                        0 <= ii < row_count ==> path_live(
                            self.entries@,
                            capi,
                            row_bucket(capi, state.hashes@, ii),
                            #[trigger] row_dist(capi, state.hashes@, state.ht_offsets@, ii),
                        ),
                decreases ev_len - k,
            {
                let idx = state.empty_vector[k];
                let h = state.hashes[idx];
                proof {
                    assert(len_head + k < len_start + row_count);
                }
                let row_nr = self.payload.append_row(group_columns, idx, h);
                let po = row_nr % ROWS_PER_PAGE;
                let pn = row_nr / ROWS_PER_PAGE + 1;
                let e = Entry { salt: state.hash_salts[idx], page_offset: po as u16, page_nr: pn as u32 };
                proof {
                    assert(entry_row_index(e) == row_nr);
                }
                let ghost pre = self.entries@;
                self.entries.set(state.ht_offsets[idx], e);
                state.addresses.set(idx, row_nr);
                state.new_groups.push(idx);
                new_group_count += 1;
                proof {
                    let ghost slq = state.ht_offsets@[ev_snap[k as int] as int] as int;
                    assert forall|ii: int| 0 <= ii < row_count implies path_live(
                        self.entries@,
                        capi,
                        row_bucket(capi, state.hashes@, ii),
                        #[trigger] row_dist(capi, state.hashes@, state.ht_offsets@, ii),
                    ) by {
                        crate::hash::lemma_bucket_in_range(state.hashes@[ii], cap as u64);
                        assert forall|sq: int|
                            0 <= sq < capi && slot_live_in(pre, sq) implies slot_live_in(
                            self.entries@,
                            sq,
                        ) by {
                            if sq != slq {
                                assert(self.entries@[sq] == pre[sq]);
                            }
                        }
                        crate::probing::lemma_path_live_mono(
                            pre,
                            self.entries@,
                            capi,
                            row_bucket(capi, state.hashes@, ii),
                            row_dist(capi, state.hashes@, state.ht_offsets@, ii),
                        );
                    }
                    let kq = k as int;
                    assert((kq + 1) * n_aggr == kq * n_aggr + n_aggr) by (nonlinear_arith);
                    lemma_take_grow(ev_snap, kq, kq + 1);
                    assert(ev_snap.take(kq + 1)[kq] == ev_snap[kq]);
                    assert forall|ii: int|
                        0 <= ii < row_count && !ev_snap.take(kq + 1).contains(ii as usize) implies
                        state.addresses@[ii] == a_head[ii] by {
                        if ii == ev_snap[kq] as int {
                            assert(ev_snap.take(kq + 1).contains(ev_snap[kq]));
                            assert(false);
                        } else {
                            assert(!ev_snap.take(kq).contains(ii as usize));
                        }
                    }
                    assert(self.payload.arena@ =~= table_head.payload.arena@ + Seq::new(
                        ((k + 1) * n_aggr) as nat,
                        |tq: int| crate::aggregate::spec_agg_init(),
                    ));
                }
                k += 1;
            }

            // the directory is whole again: every row has exactly one entry
            proof {
                assert(self.payload.rows@.len() == len_head + ev_len);
                assert(self.spec_len() < cap);
                lemma_batch_entries_restored(
                    e_head,
                    self.entries@,
                    rows_head,
                    self.payload.rows@,
                    state.ht_offsets@,
                    state.hash_salts@,
                    state.hashes@,
                    ev_snap,
                    capi,
                    len_head,
                    row_count as int,
                );
                assert(rows_hashed(rows_head)) by {
                    assert forall|r: int|
                        0 <= r < rows_head.len() implies (#[trigger] rows_head[r]).hash
                        == spec_hash_key(rows_head[r].key()) by {
                        assert(rows_head[r].shape_wf(table_head.payload.group_types@));
                    }
                }
                assert forall|i: int|
                    0 <= i < row_count implies 0 <= row_bucket(
                    capi,
                    state.hashes@,
                    #[trigger] (i * 1),
                ) < capi by {
                    crate::hash::lemma_bucket_in_range(state.hashes@[i], cap as u64);
                }
                assert forall|k: int| 0 <= k < ev_len implies path_live(
                    e_head,
                    capi,
                    row_bucket(capi, state.hashes@, #[trigger] ev_snap[k] as int),
                    wrap_dist(
                        capi,
                        row_bucket(capi, state.hashes@, ev_snap[k] as int),
                        state.ht_offsets@[ev_snap[k] as int] as int,
                    ),
                ) && path_keys_differ(
                    e_head,
                    rows_head,
                    capi,
                    row_bucket(capi, state.hashes@, ev_snap[k] as int),
                    wrap_dist(
                        capi,
                        row_bucket(capi, state.hashes@, ev_snap[k] as int),
                        state.ht_offsets@[ev_snap[k] as int] as int,
                    ),
                    key_at(group_columns@, ev_snap[k] as int),
                ) by {
                    let iq = ev_snap[k] as int;
                    assert(row_dist(capi, state.hashes@, state.ht_offsets@, iq) == wrap_dist(
                        capi,
                        row_bucket(capi, state.hashes@, iq),
                        state.ht_offsets@[iq] as int,
                    ));
                }
                lemma_batch_no_holes(
                    e_head,
                    self.entries@,
                    rows_head,
                    self.payload.rows@,
                    state.ht_offsets@,
                    state.hashes@,
                    ev_snap,
                    cap as u64,
                    capi,
                    len_head,
                    row_count as int,
                );
                lemma_batch_keys_distinct(
                    e_head,
                    rows_head,
                    self.payload.rows@,
                    state.ht_offsets@,
                    state.hashes@,
                    group_columns@,
                    ev_snap,
                    capi,
                    len_head,
                    row_count as int,
                );
                assert(self.wf());
            }

            // resolve candidates and compare their keys
            let cv_len = state.group_compare_vector.len();
            let ghost tb = *self;
            let ghost ab = state.addresses@;
            let ghost nvb = state.no_match_vector@;
            proof {
                assert(forall|kk: int|
                    0 <= kk < ev_len ==> ab[#[trigger] ev_snap[kk] as int] as int == len_head
                        + kk);
                assert(nvb == nv_a);
            }
            let mut t2: usize = 0;
            while t2 < cv_len
                invariant
                    t2 <= cv_len,
                    cv_len == state.group_compare_vector@.len(),
                    *self == tb,
                    state.hashes@ == st_head.hashes@,
                    state.hash_salts@ == st_head.hash_salts@,
                    state.ht_offsets@ == st_head.ht_offsets@,
                    state.state_places@ == st_head.state_places@,
                    state.empty_vector@ == ev_snap,
                    state.group_compare_vector@ == cv_a,
                    state.new_groups@.len() == st_head.new_groups@.len() + ev_len,
                    state.addresses@.len() == row_count,
                    forall|u: int|
                        0 <= u < t2 ==> placed(
                            *state,
                            self.payload.rows@,
                            group_columns@,
                            #[trigger] state.group_compare_vector@[u] as int,
                        ) || state.no_match_vector@.contains(state.group_compare_vector@[u]),
                    forall|ii: int|
                        0 <= ii < row_count && !state.group_compare_vector@.take(t2 as int).contains(
                            ii as usize,
                        ) ==> #[trigger] state.addresses@[ii] == ab[ii],
                    state.no_match_vector@.len() >= nvb.len(),
                    state.no_match_vector@.len() <= nvb.len() + t2,
                    state.no_match_vector@.take(nvb.len() as int) == nvb,
                    forall|kq: int|
                        nvb.len() <= kq < state.no_match_vector@.len()
                            ==> state.group_compare_vector@.take(t2 as int).contains(
                            #[trigger] state.no_match_vector@[kq],
                        ),
                    distinct_seq(state.no_match_vector@),
                    forall|kq: int|
                        0 <= kq < state.no_match_vector@.len()
                            ==> #[trigger] state.no_match_vector@[kq] < row_count,
                    forall|kq: int|
                        0 <= kq < state.no_match_vector@.len() ==> {
                            let sl = state.ht_offsets@[#[trigger] state.no_match_vector@[kq] as int] as int;
                            &&& slot_live_in(self.entries@, sl)
                            &&& (self.entries@[sl].salt != state.hash_salts@[state.no_match_vector@[kq] as int]
                                || (0 <= entry_row_index(self.entries@[sl])
                                    < self.payload.rows@.len()
                                    && self.payload.rows@[entry_row_index(self.entries@[sl])].key()
                                        != key_at(
                                        group_columns@,
                                        state.no_match_vector@[kq] as int,
                                    )))
                        },
                decreases cv_len - t2,
            {
                let idx = state.group_compare_vector[t2];
                proof {
                    assert(sel_head.contains(idx));
                    assert(idx < row_count);
                    let sl = state.ht_offsets@[idx as int] as int;
                    assert(slot_live_in(self.entries@, sl));
                    assert(dir_entries_valid(self.entries@, self.payload.rows@));
                }
                let slot = state.ht_offsets[idx];
                let e = self.entries[slot];
                proof {
                    assert(0 <= entry_row_index(e) < self.payload.rows@.len());
                }
                let row_nr = (e.page_nr - 1) as usize * ROWS_PER_PAGE + e.page_offset as usize;
                proof {
                    assert(row_nr as int == entry_row_index(e));
                }
                let ghost old_addrs_c = state.addresses@;
                state.addresses.set(idx, row_nr);
                let matched = crate::row_compare::row_matches_key(
                    &self.payload.rows[row_nr],
                    group_columns,
                    idx,
                );
                let ghost nv_pre_c = state.no_match_vector@;
                if !matched {
                    proof {
                        if state.no_match_vector@.contains(idx) {
                            let u = choose|u: int|
                                0 <= u < state.no_match_vector@.len()
                                    && state.no_match_vector@[u] == idx;
                            if u < nvb.len() {
                                assert(nvb[u] == idx);
                                assert(disjoint_seqs(state.group_compare_vector@, nvb));
                                assert(state.group_compare_vector@[t2 as int] == idx);
                                assert(false);
                            } else {
                                assert(state.group_compare_vector@.take(t2 as int).contains(idx));
                                let uq = choose|uq: int|
                                    0 <= uq < t2 && state.group_compare_vector@.take(t2 as int)[uq]
                                        == idx;
                                assert(state.group_compare_vector@[uq] == idx);
                                assert(distinct_seq(state.group_compare_vector@));
                                assert(false);
                            }
                        }
                    }
                    state.no_match_vector.push(idx);
                }
                proof {
                    lemma_push_contains(nv_pre_c, idx);
                    lemma_take_grow(
                        state.group_compare_vector@,
                        t2 as int,
                        (t2 + 1) as int,
                    );
                    assert forall|u: int| 0 <= u < t2 + 1 implies placed(
                        *state,
                        self.payload.rows@,
                        group_columns@,
                        #[trigger] state.group_compare_vector@[u] as int,
                    ) || state.no_match_vector@.contains(state.group_compare_vector@[u]) by {
                        if u < t2 {
                            assert(state.group_compare_vector@[u] != idx);
                            assert(state.addresses@[state.group_compare_vector@[u] as int]
                                == old_addrs_c[state.group_compare_vector@[u] as int]);
                        } else {
                            if matched {
                                assert(placed(
                                    *state,
                                    self.payload.rows@,
                                    group_columns@,
                                    idx as int,
                                ));
                            } else {
                                assert(state.no_match_vector@.contains(idx));
                            }
                        }
                    }
                    assert(state.group_compare_vector@.take((t2 + 1) as int)[t2 as int] == idx);
                    assert(state.group_compare_vector@.take((t2 + 1) as int).contains(idx));
                }
                t2 += 1;
            }
            proof {
                assert(state.group_compare_vector@.take(cv_len as int)
                    =~= state.group_compare_vector@);
            }

            // carry the scanned-path knowledge over the rebuilt directory
            proof {
                assert(rows_hashed(self.payload.rows@)) by {
                    assert forall|r: int|
                        0 <= r < self.payload.rows@.len() implies (
                        #[trigger] self.payload.rows@[r]).hash == spec_hash_key(
                            self.payload.rows@[r].key(),
                        ) by {
                        assert(self.payload.rows@[r].shape_wf(self.payload.group_types@));
                    }
                }
                assert forall|ii: int| 0 <= ii < row_count implies path_keys_differ(
                    self.entries@,
                    self.payload.rows@,
                    capi,
                    row_bucket(capi, state.hashes@, ii),
                    #[trigger] row_dist(capi, state.hashes@, state.ht_offsets@, ii),
                    key_at(group_columns@, ii),
                ) by {
                    crate::hash::lemma_bucket_in_range(state.hashes@[ii], cap as u64);
                    lemma_path_facts_carry(
                        e_head,
                        self.entries@,
                        rows_head,
                        self.payload.rows@,
                        capi,
                        row_bucket(capi, state.hashes@, ii),
                        row_dist(capi, state.hashes@, state.ht_offsets@, ii),
                        key_at(group_columns@, ii),
                    );
                }
            }
            // advance the unmatched rows one probe step
            let nv_len = state.no_match_vector.len();
            let ghost ac = state.addresses@;
            let ghost o_head = state.ht_offsets@;
            let ghost nv_snap = state.no_match_vector@;
            let ghost budget_b = probe_budget(capi, state.hashes@, o_head, row_count as int);
            let mut t3: usize = 0;
            while t3 < nv_len
                invariant
                    t3 <= nv_len,
                    nv_len == nv_snap.len(),
                    state.no_match_vector@ == nv_snap,
                    state.hashes@ == st_head.hashes@,
                    state.hash_salts@ == st_head.hash_salts@,
                    state.state_places@ == st_head.state_places@,
                    state.addresses@ == ac,
                    state.group_compare_vector@ == cv_a,
                    state.empty_vector@ == ev_snap,
                    state.new_groups@.len() == st_head.new_groups@.len() + ev_len,
                    state.ht_offsets@.len() == row_count,
                    forall|ii: int| 0 <= ii < row_count ==> #[trigger] state.ht_offsets@[ii] < cap,
                    forall|ii: int|
                        0 <= ii < row_count && !nv_snap.take(t3 as int).contains(ii as usize)
                            ==> #[trigger] state.ht_offsets@[ii] == o_head[ii],
                    probe_budget(capi, state.hashes@, state.ht_offsets@, row_count as int)
                        == budget_b - t3,
                    forall|ii: int|
                        0 <= ii < row_count ==> path_live(
                            self.entries@,
                            capi,
                            row_bucket(capi, state.hashes@, ii),
                            #[trigger] row_dist(capi, state.hashes@, state.ht_offsets@, ii),
                        ),
                    forall|ii: int|
                        0 <= ii < row_count ==> path_keys_differ(
                            self.entries@,
                            self.payload.rows@,
                            capi,
                            row_bucket(capi, state.hashes@, ii),
                            #[trigger] row_dist(capi, state.hashes@, state.ht_offsets@, ii),
                            key_at(group_columns@, ii),
                        ),
                    forall|kq: int|
                        0 <= kq < nv_snap.len() ==> {
                            let sl = o_head[#[trigger] nv_snap[kq] as int] as int;
                            &&& slot_live_in(self.entries@, sl)
                            &&& (self.entries@[sl].salt != state.hash_salts@[nv_snap[kq] as int]
                                || (0 <= entry_row_index(self.entries@[sl])
                                    < self.payload.rows@.len()
                                    && self.payload.rows@[entry_row_index(self.entries@[sl])].key()
                                        != key_at(group_columns@, nv_snap[kq] as int)))
                        },
                decreases nv_len - t3,
            {
                let idx = state.no_match_vector[t3];
                proof {
                    if nv_snap.take(t3 as int).contains(idx) {
                        let u = choose|u: int| 0 <= u < t3 && nv_snap.take(t3 as int)[u] == idx;
                        assert(nv_snap[u] == idx && nv_snap[t3 as int] == idx);
                        assert(false);
                    }
                }
                let off = state.ht_offsets[idx];
                let ghost b = row_bucket(capi, state.hashes@, idx as int);
                let ghost d = row_dist(capi, state.hashes@, state.ht_offsets@, idx as int);
                proof {
                    crate::hash::lemma_bucket_in_range(state.hashes@[idx as int], cap as u64);
                    crate::probing::lemma_slot_on_path(capi, b, off as int);
                    assert(state.ht_offsets@[idx as int] == o_head[idx as int]);
                    assert(slot_live_in(self.entries@, off as int));
                    assert(crate::probing::slot_at(capi, b, d) == off as int);
                    assert forall|dd: int| 0 <= dd < d + 1 implies slot_live_in(
                        self.entries@,
                        #[trigger] crate::probing::slot_at(capi, b, dd),
                    ) by {
                        if dd < d {
                            assert(path_live(self.entries@, capi, b, d));
                        }
                    }
                    assert(path_live(self.entries@, capi, b, d + 1));
                    assert(0 <= entry_row_index(self.entries@[off as int])
                        < self.payload.rows@.len());
                    crate::probing::lemma_path_shorter_than_capacity(
                        self.entries@,
                        self.payload.rows@.len() as int,
                        b,
                        d + 1,
                    );
                    assert(d + 1 < capi);
                }
                let mut new_off = off + 1;
                if new_off >= cap {
                    new_off = 0;
                }
                let ghost offs_pre = state.ht_offsets@;
                state.ht_offsets.set(idx, new_off);
                proof {
                    crate::probing::lemma_advance_dist(capi, b, off as int, new_off as int);
                    crate::probing::lemma_probe_budget_update(
                        capi,
                        state.hashes@,
                        offs_pre,
                        row_count as int,
                        idx as int,
                        new_off,
                    );
                    assert forall|ii: int| 0 <= ii < row_count implies path_live(
                        self.entries@,
                        capi,
                        row_bucket(capi, state.hashes@, ii),
                        #[trigger] row_dist(capi, state.hashes@, state.ht_offsets@, ii),
                    ) by {
                        if ii == idx as int {
                            assert(state.ht_offsets@[ii] == new_off);
                            assert(row_bucket(capi, state.hashes@, ii) == b);
                            assert(row_dist(capi, state.hashes@, state.ht_offsets@, ii)
                                == wrap_dist(capi, b, new_off as int));
                            assert(row_dist(capi, state.hashes@, state.ht_offsets@, ii) == d + 1);
                            assert(path_live(self.entries@, capi, b, d + 1));
                        } else {
                            assert(state.ht_offsets@[ii] == offs_pre[ii]);
                            assert(row_dist(capi, state.hashes@, state.ht_offsets@, ii)
                                == row_dist(capi, state.hashes@, offs_pre, ii));
                            assert(path_live(
                                self.entries@,
                                capi,
                                row_bucket(capi, state.hashes@, ii),
                                row_dist(capi, state.hashes@, offs_pre, ii),
                            ));
                        }
                    }
                    // the rejected slot's row holds a different key
                    let keyi = key_at(group_columns@, idx as int);
                    assert(self.payload.rows@[entry_row_index(self.entries@[off as int])].key()
                        != keyi) by {
                        let sl = off as int;
                        let pr = entry_row_index(self.entries@[sl]);
                        assert(slot_live_in(self.entries@, sl));
                        assert(0 <= pr < self.payload.rows@.len());
                        if self.entries@[sl].salt != state.hash_salts@[idx as int] {
                            assert(self.entries@[sl].salt == spec_salt(
                                self.payload.rows@[pr].hash,
                            ));
                            assert(self.payload.rows@[pr].hash == spec_hash_key(
                                self.payload.rows@[pr].key(),
                            ));
                            assert(state.hash_salts@[idx as int] == spec_salt(
                                state.hashes@[idx as int],
                            ));
                            assert(state.hashes@[idx as int] == spec_hash_key(keyi));
                            if self.payload.rows@[pr].key() == keyi {
                                assert(false);
                            }
                        }
                    }
                    assert forall|ii: int| 0 <= ii < row_count implies path_keys_differ(
                        self.entries@,
                        self.payload.rows@,
                        capi,
                        row_bucket(capi, state.hashes@, ii),
                        #[trigger] row_dist(capi, state.hashes@, state.ht_offsets@, ii),
                        key_at(group_columns@, ii),
                    ) by {
                        if ii == idx as int {
                            assert forall|dd: int|
                                0 <= dd < d + 1 implies self.payload.rows@[entry_row_index(
                                self.entries@[#[trigger] crate::probing::slot_at(capi, b, dd)],
                            )].key() != key_at(group_columns@, ii) by {
                                if dd < d {
                                    assert(path_keys_differ(
                                        self.entries@,
                                        self.payload.rows@,
                                        capi,
                                        b,
                                        d,
                                        keyi,
                                    ));
                                } else {
                                    assert(crate::probing::slot_at(capi, b, d) == off as int);
                                }
                            }
                            assert(row_dist(capi, state.hashes@, state.ht_offsets@, ii) == d + 1);
                        } else {
                            assert(state.ht_offsets@[ii] == offs_pre[ii]);
                            assert(row_dist(capi, state.hashes@, state.ht_offsets@, ii)
                                == row_dist(capi, state.hashes@, offs_pre, ii));
                            assert(path_keys_differ(
                                self.entries@,
                                self.payload.rows@,
                                capi,
                                row_bucket(capi, state.hashes@, ii),
                                row_dist(capi, state.hashes@, offs_pre, ii),
                                key_at(group_columns@, ii),
                            ));
                        }
                    }
                    assert forall|ii: int|
                        0 <= ii < row_count && !nv_snap.take((t3 + 1) as int).contains(ii as usize)
                            implies #[trigger] state.ht_offsets@[ii] == o_head[ii] by {
                        if ii != idx as int {
                            assert(!nv_snap.take(t3 as int).contains(ii as usize));
                        } else {
                            assert(nv_snap.take((t3 + 1) as int)[t3 as int] == idx);
                            assert(nv_snap.take((t3 + 1) as int).contains(idx));
                            assert(false);
                        }
                    }
                }
                t3 += 1;
            }

            let next_selection = state.no_match_vector.clone();
            proof {
                assert forall|u: int| 0 <= u < nv_snap.len() implies next_selection@[u]
                    == nv_snap[u] by {
                    assert(vstd::pervasive::cloned::<usize>(
                        state.no_match_vector@[u],
                        next_selection@[u],
                    ));
                }
                assert(next_selection@ =~= nv_snap);
            }
            select_vector = next_selection;
            proof {
                // every row that is not still selected is resolved
                assert(sel_head.take(sel_len as int) =~= sel_head);
                assert(ev_snap.take(ev_len as int) =~= ev_snap);
                assert(cv_a.take(cv_len as int) =~= cv_a);
                assert forall|ii: int|
                    0 <= ii < row_count && !sel_head.contains(ii as usize) implies placed_at(
                    a_head,
                    rows_head,
                    group_columns@,
                    ii,
                ) by {
                    assert(placed(st_head, rows_head, group_columns@, ii));
                }
                assert forall|ii: int|
                    0 <= ii < row_count && !ev_snap.contains(ii as usize) implies #[trigger] ab[ii]
                    == a_head[ii] by {
                    assert(!ev_snap.take(ev_len as int).contains(ii as usize));
                }
                assert forall|ii: int|
                    0 <= ii < row_count && !cv_a.contains(ii as usize) implies
                    #[trigger] state.addresses@[ii] == ab[ii] by {
                    assert(!cv_a.take(cv_len as int).contains(ii as usize));
                }
                lemma_iteration_accounting(
                    state.addresses@,
                    a_head,
                    ab,
                    self.payload.rows@,
                    rows_head,
                    group_columns@,
                    sel_head,
                    ev_snap,
                    cv_a,
                    nv_a,
                    state.no_match_vector@,
                    len_head,
                    row_count as int,
                );
                assert(select_vector@ == state.no_match_vector@);
                // the loop metric shrank: the budget fell by the surviving rows
                assert(select_vector@.len() <= nv_len_a + cv_len_a);
                assert(probe_budget(capi, state.hashes@, state.ht_offsets@, row_count as int)
                    + select_vector@.len() == budget_b);
                assert(budget_b == budget_head);
                assert(sel_head.len() >= 1);
                assert forall|iq: int| 0 <= iq < row_count implies row_dist(
                    capi,
                    state.hashes@,
                    state.ht_offsets@,
                    #[trigger] (iq * 1),
                ) <= capi by {
                    crate::hash::lemma_bucket_in_range(state.hashes@[iq], cap as u64);
                }
                crate::probing::lemma_probe_budget_nonneg(
                    capi,
                    state.hashes@,
                    state.ht_offsets@,
                    row_count as int,
                );
                assert(probe_budget(capi, state.hashes@, state.ht_offsets@, row_count as int)
                    + select_vector@.len() < budget_head + sel_head.len());
                // provenance and arena shape for the outer invariant
                assert forall|r: int|
                    len_start <= r < self.spec_len() implies exists|i: int|
                    0 <= i < row_count && (#[trigger] self.payload.rows@[r]).key() == key_at(
                        group_columns@,
                        i,
                    ) by {
                    if r < len_head {
                        assert(self.payload.rows@[r] == rows_head[r]);
                        assert(exists|i: int|
                            0 <= i < row_count && (#[trigger] rows_head[r]).key() == key_at(
                                group_columns@,
                                i,
                            ));
                    } else {
                        let kk = r - len_head;
                        let iq = ev_snap[kk] as int;
                        assert(self.payload.rows@[r].key() == key_at(group_columns@, iq));
                        assert(0 <= iq < row_count);
                    }
                }
                let aq = len_head - len_start;
                let bq = self.spec_len() - len_head;
                assert((aq + bq) * n_aggr == aq * n_aggr + bq * n_aggr) by (nonlinear_arith);
                assert(self.payload.arena@ =~= old(self).payload.arena@ + Seq::new(
                    ((self.spec_len() - len_start) * n_aggr) as nat,
                    |tq: int| crate::aggregate::spec_agg_init(),
                ));
            }
        }
        proof {
            assert forall|i: int| 0 <= i < row_count implies placed_at(
                state.addresses@,
                self.payload.rows@,
                group_columns@,
                #[trigger] (i * 1),
            ) by {
                assert(!select_vector@.contains(i as usize));
                assert(placed(*state, self.payload.rows@, group_columns@, i));
            }
            assert forall|r: int|
                len_start <= r < self.spec_len() implies exists|i: int|
                0 <= i < row_count && (#[trigger] self.payload.rows@[r]).key() == key_at(
                    group_columns@,
                    i,
                ) by {}
        }
        new_group_count
    }

    /// Whether a batch has the shape this table expects: one column of the
    /// right type and length per group column, and per aggregate exactly
    /// its argument columns, typed and sized to the batch.
    pub open spec fn batch_shape_ok(self, cols: Seq<Column>, params: Seq<Vec<Column>>, n: nat) -> bool {
        &&& cols.len() == self.payload.group_types@.len()
        &&& forall|c: int|
            0 <= c < cols.len() ==> (#[trigger] cols[c]).data_type == self.payload.group_types@[c]
        &&& forall|c: int| 0 <= c < cols.len() ==> (#[trigger] cols[c]).spec_len() == n
        &&& params.len() == self.payload.aggrs@.len()
        &&& forall|j: int|
            0 <= j < params.len() ==> (#[trigger] params[j])@.len()
                == self.payload.aggrs@[j].spec_num_args()
        &&& forall|j: int|
            0 <= j < params.len() ==> ((#[trigger] params[j])@.len() == 0 || (
            params[j]@[0].data_type == self.payload.aggrs@[j].spec_arg_type()
                && params[j]@[0].spec_len() == n))
    }

    fn check_batch(&self, cols: &Vec<Column>, params: &Vec<Vec<Column>>, row_count: usize) -> (b:
        bool)
        ensures
            b == self.batch_shape_ok(cols@, params@, row_count as nat),
    {
        if cols.len() != self.payload.group_types.len() {
            return false;
        }
        let ncols = cols.len();
        let mut c: usize = 0;
        while c < ncols
            invariant
                c <= ncols,
                ncols == cols@.len(),
                cols@.len() == self.payload.group_types@.len(),
                forall|t: int|
                    0 <= t < c ==> (#[trigger] cols@[t]).data_type
                        == self.payload.group_types@[t],
                forall|t: int| 0 <= t < c ==> (#[trigger] cols@[t]).spec_len() == row_count,
            decreases ncols - c,
        {
            let col = &cols[c];
            if col.data_type != self.payload.group_types[c] {
                return false;
            }
            if col.len() != row_count {
                return false;
            }
            c += 1;
        }
        if params.len() != self.payload.aggrs.len() {
            return false;
        }
        let naggr = params.len();
        let mut j: usize = 0;
        while j < naggr
            invariant
                j <= naggr,
                naggr == params@.len(),
                params@.len() == self.payload.aggrs@.len(),
                forall|t: int|
                    0 <= t < j ==> (#[trigger] params@[t])@.len()
                        == self.payload.aggrs@[t].spec_num_args(),
                forall|t: int|
                    0 <= t < j ==> ((#[trigger] params@[t])@.len() == 0 || (
                    params@[t]@[0].data_type == self.payload.aggrs@[t].spec_arg_type()
                        && params@[t]@[0].spec_len() == row_count)),
            decreases naggr - j,
        {
            let kind = self.payload.aggrs[j];
            let pj = &params[j];
            if pj.len() != kind.num_args() {
                return false;
            }
            if pj.len() > 0 {
                let col = &pj[0];
                if col.data_type != kind.arg_type() {
                    return false;
                }
                if col.len() != row_count {
                    return false;
                }
            }
            j += 1;
        }
        true
    }

    /// Ingest one batch of `row_count` rows: resolve or create the group of
    /// every row, then fold each aggregate's argument column into the
    /// resolved states, and answer how many groups the batch created.
    ///
    /// A batch of the wrong shape is rejected as `InvalidArgument` with the
    /// table untouched. A failing aggregate surfaces its error; the groups
    /// are placed regardless, the directory invariants keep holding, and
    /// the aggregates before the failing one are fully folded.
    #[verifier::loop_isolation(false)]
    pub fn add_groups(
        &mut self,
        state: &mut ProbeState,
        group_columns: &Vec<Column>,
        params: &Vec<Vec<Column>>,
        row_count: usize,
    ) -> (r: Result<usize, ErrorKind>)
        requires
            old(self).wf(),
            forall|c: int|
                0 <= c < group_columns@.len() ==> (#[trigger] group_columns@[c]).wf(),
            forall|j: int, c: int|
                0 <= j < params@.len() && 0 <= c < params@[j]@.len() ==> (#[trigger] params@[j]@[c]).wf(),
            row_count <= MAX_BATCH_ROWS,
            old(self).spec_len() + row_count <= MAX_ROWS,
        ensures
            final(self).wf(),
            final(self).payload.group_types == old(self).payload.group_types,
            final(self).payload.aggrs == old(self).payload.aggrs,
            (r == Result::<usize, ErrorKind>::Err(ErrorKind::InvalidArgument)) == !old(
                self,
            ).batch_shape_ok(group_columns@, params@, row_count as nat),
            !old(self).batch_shape_ok(group_columns@, params@, row_count as nat) ==> *final(self)
                == *old(self),
            old(self).batch_shape_ok(group_columns@, params@, row_count as nat) ==> {
                let new_rows = final(self).spec_len() - old(self).spec_len();
                let slots0 = old(self).payload.arena@ + Seq::new(
                    (new_rows * old(self).payload.aggrs@.len()) as nat,
                    |t: int| crate::aggregate::spec_agg_init(),
                );
                let folded = crate::payload::spec_accum_batch(
                    old(self).payload.aggrs@,
                    slots0,
                    final(state).state_places@,
                    params@,
                    row_count as int,
                    old(self).payload.aggrs@.len() as int,
                );
                &&& forall|rr: int|
                    0 <= rr < old(self).spec_len() ==> final(self).payload.rows@[rr] == old(
                        self,
                    ).payload.rows@[rr]
                &&& keys_from_batch(
                    final(self).payload.rows@,
                    old(self).spec_len() as int,
                    final(self).spec_len() as int,
                    group_columns@,
                    row_count as int,
                )
                &&& all_placed(
                    final(state).addresses@,
                    final(self).payload.rows@,
                    group_columns@,
                    row_count as int,
                )
                &&& forall|i: int|
                    0 <= i < row_count ==> #[trigger] final(state).state_places@[i]
                        == final(self).payload.rows@[final(state).addresses@[i] as int].state_addr
                &&& final(self).payload.arena@ == folded.0
                &&& (match folded.1 {
                    Option::None => r == Result::<usize, ErrorKind>::Ok((new_rows) as usize),
                    Option::Some(er) => r == Result::<usize, ErrorKind>::Err(er),
                })
                &&& new_rows <= row_count
                &&& (row_count == 0 ==> r == Result::<usize, ErrorKind>::Ok(0)
                    && *final(self) == *old(self))
                &&& (row_count > 0 ==> final(self).capacity == (if old(self).spec_must_resize(
                    row_count as int,
                ) {
                    spec_grown_capacity(
                        2 * old(self).capacity,
                        old(self).spec_len() as int,
                        row_count as int,
                    )
                } else {
                    old(self).capacity as int
                }))
                &&& ((forall|j: int|
                    0 <= j < old(self).payload.aggrs@.len()
                        ==> #[trigger] old(self).payload.aggrs@[j] != (
                    AggregateKind::SumDecimal128 { check_overflow: true })) ==> r
                    == Result::<usize, ErrorKind>::Ok((new_rows) as usize))
            },
    {
        if !self.check_batch(group_columns, params, row_count) {
            return Err(ErrorKind::InvalidArgument);
        }
        let n = self.probe_and_create(state, group_columns, row_count);
        let llen = self.payload.len();
        let ghost rows_after = self.payload.rows@;
        let ghost slots0 = self.payload.arena@;
        let ghost a2 = state.addresses@;
        let ghost st2 = *state;
        let mut i: usize = 0;
        while i < row_count
            invariant
                i <= row_count,
                state.addresses@ == a2,
                state.hashes@ == st2.hashes@,
                state.hash_salts@ == st2.hash_salts@,
                state.ht_offsets@ == st2.ht_offsets@,
                state.empty_vector@ == st2.empty_vector@,
                state.group_compare_vector@ == st2.group_compare_vector@,
                state.no_match_vector@ == st2.no_match_vector@,
                state.new_groups@ == st2.new_groups@,
                state.state_places@.len() == row_count,
                forall|t: int|
                    0 <= t < i ==> #[trigger] state.state_places@[t] == rows_after[a2[t] as int].state_addr,
            decreases row_count - i,
        {
            proof {
                assert(placed_at(a2, rows_after, group_columns@, (i as int) * 1));
            }
            let addr = state.addresses[i];
            let sp = self.payload.rows[addr].state_addr;
            state.state_places.set(i, sp);
            i += 1;
        }
        if row_count == 0 {
            proof {
                crate::payload::lemma_accum_batch_empty(
                    self.payload.aggrs@,
                    slots0,
                    state.state_places@,
                    params@,
                    self.payload.aggrs@.len() as int,
                );
                assert(slots0 =~= old(self).payload.arena@ + Seq::new(
                    0,
                    |t: int| crate::aggregate::spec_agg_init(),
                ));
            }
            return Ok(n);
        }
        let ghost places = state.state_places@;
        let ghost st3 = *state;
        let ghost cap2 = self.capacity;
        let ghost ents2 = self.entries@;
        let n_aggr = self.payload.aggrs.len();
        proof {
            assert forall|t: int| 0 <= t < row_count implies #[trigger] places[t] + n_aggr
                <= self.payload.arena@.len() by {
                assert(placed_at(a2, rows_after, group_columns@, t * 1));
                let addr = a2[t] as int;
                assert(places[t] == addr * n_aggr as int);
                let g = n_aggr as int;
                let lq = llen as int;
                assert(addr * g + g <= lq * g) by (nonlinear_arith)
                    requires
                        0 <= addr < lq,
                        g >= 0,
                ;
            }
        }
        let mut j: usize = 0;
        while j < n_aggr
            invariant
                j <= n_aggr,
                n_aggr == self.payload.aggrs@.len(),
                self.wf(),
                self.payload.group_types == old(self).payload.group_types,
                self.payload.aggrs == old(self).payload.aggrs,
                self.payload.rows@ == rows_after,
                self.payload.arena@.len() == slots0.len(),
                self.capacity == cap2,
                self.entries@ == ents2,
                *state == st3,
                crate::payload::spec_accum_batch(
                    self.payload.aggrs@,
                    slots0,
                    places,
                    params@,
                    row_count as int,
                    j as int,
                ) == (self.payload.arena@, Option::<ErrorKind>::None),
            decreases n_aggr - j,
        {
            let res = self.payload.accumulate_aggregate(
                j,
                &state.state_places,
                &params[j],
                row_count,
            );
            match res {
                Ok(()) => {},
                Err(er) => {
                    proof {
                        crate::payload::lemma_accum_batch_stops(
                            self.payload.aggrs@,
                            slots0,
                            places,
                            params@,
                            row_count as int,
                            j + 1,
                            n_aggr as int,
                        );
                        crate::payload::lemma_accum_batch_err_overflow(
                            self.payload.aggrs@,
                            slots0,
                            places,
                            params@,
                            row_count as int,
                            n_aggr as int,
                        );
                        if forall|jq: int|
                            0 <= jq < self.payload.aggrs@.len()
                                ==> #[trigger] self.payload.aggrs@[jq] != (
                            AggregateKind::SumDecimal128 { check_overflow: true }) {
                            crate::payload::lemma_accum_batch_total(
                                self.payload.aggrs@,
                                slots0,
                                places,
                                params@,
                                row_count as int,
                                n_aggr as int,
                            );
                            assert(false);
                        }
                    }
                    return Err(er);
                },
            }
            j += 1;
        }
        Ok(n)
    }

    /// Fold one row of `other` into this table: look its key up by the
    /// stored hash, append it as a fresh group if absent, then merge each
    /// aggregate state of that row into the group's state here.
    #[verifier::loop_isolation(false)]
    #[verifier::rlimit(100)]
    fn combine_one(&mut self, other: &Self, o: usize) -> (r: Result<usize, ErrorKind>)
        requires
            old(self).wf(),
            other.wf(),
            old(self).payload.group_types == other.payload.group_types,
            old(self).payload.aggrs == other.payload.aggrs,
            o < other.spec_len(),
            old(self).spec_len() < MAX_ROWS,
        ensures
            final(self).wf(),
            final(self).payload.group_types == old(self).payload.group_types,
            final(self).payload.aggrs == old(self).payload.aggrs,
            final(self).payload.row_per_page == old(self).payload.row_per_page,
            final(self).payload.state_addr_offsets == old(self).payload.state_addr_offsets,
            old(self).spec_len() <= final(self).spec_len(),
            final(self).spec_len() <= old(self).spec_len() + 1,
            forall|rr: int|
                0 <= rr < old(self).spec_len() ==> final(self).payload.rows@[rr] == old(
                    self,
                ).payload.rows@[rr],
            final(self).spec_len() > old(self).spec_len() ==> final(self).payload.rows@[old(
                self,
            ).spec_len() as int].key() == other.payload.rows@[o as int].key(),
            ({
                let g = old(self).payload.aggrs@.len() as int;
                let appended = final(self).spec_len() > old(self).spec_len();
                let slots0 = if appended {
                    old(self).payload.arena@ + Seq::new(
                        g as nat,
                        |tq: int| crate::aggregate::spec_agg_init(),
                    )
                } else {
                    old(self).payload.arena@
                };
                match r {
                    Ok(t) => {
                        let folded = crate::payload::spec_merge_row(
                            old(self).payload.aggrs@,
                            slots0,
                            t as int * g,
                            other.payload.arena@,
                            o as int * g,
                            g,
                        );
                        &&& t < final(self).spec_len()
                        &&& final(self).payload.rows@[t as int].key()
                            == other.payload.rows@[o as int].key()
                        &&& (appended ==> t as int == old(self).spec_len())
                        &&& (!appended ==> t < old(self).spec_len())
                        &&& folded.1 is None
                        &&& final(self).payload.arena@ == folded.0
                    },
                    Err(er) => {
                        &&& er == ErrorKind::Overflow
                        &&& exists|t: int|
                            0 <= t < final(self).spec_len() && (
                            #[trigger] final(self).payload.rows@[t]).key()
                                == other.payload.rows@[o as int].key()
                    },
                }
            }),
            (forall|j: int|
                0 <= j < old(self).payload.aggrs@.len() ==> #[trigger] old(
                    self,
                ).payload.aggrs@[j] != (AggregateKind::SumDecimal128 { check_overflow: true }))
                ==> r is Ok,
    {
        let n_aggr = self.payload.aggrs.len();
        let llen = self.payload.len();
        if self.capacity - llen <= 1 || llen > self.resize_threshold() {
            proof {
                assert(self.capacity < 0x200_0000);
            }
            let mut new_capacity = self.capacity * 2;
            proof {
                lemma_pow2_double(self.capacity as u64);
            }
            while new_capacity - llen <= 1
                invariant
                    is_pow2(new_capacity as u64),
                    256 <= new_capacity <= 0x400_0000,
                    llen < new_capacity,
                decreases 0x400_0000 - new_capacity,
            {
                proof {
                    lemma_pow2_double(new_capacity as u64);
                }
                new_capacity *= 2;
            }
            self.resize(new_capacity);
        }
        let ghost tpre = *self;
        let orow = &other.payload.rows[o];
        let h = orow.hash;
        let hsalt = salt_of(h);
        let cap = self.capacity;
        let cap64 = cap as u64;
        let ghost capi2 = cap as int;
        proof {
            crate::hash::lemma_bucket_in_range(h, cap64);
            crate::probing::lemma_exists_empty_slot(
                self.entries@,
                self.payload.rows@.len() as int,
            );
        }
        let ghost s_e = choose|sq: int|
            0 <= sq < self.entries@.len() && !slot_live_in(self.entries@, sq);
        let ghost bq = bucket_of(h, capi2);
        let ghost okey = other.payload.rows@[o as int].key();
        proof {
            assert(rows_hashed(self.payload.rows@)) by {
                assert forall|r: int|
                    0 <= r < self.payload.rows@.len() implies (
                    #[trigger] self.payload.rows@[r]).hash == spec_hash_key(
                        self.payload.rows@[r].key(),
                    ) by {
                    assert(self.payload.rows@[r].shape_wf(self.payload.group_types@));
                }
            }
            assert(h == spec_hash_key(okey)) by {
                assert(other.payload.rows@[o as int].shape_wf(other.payload.group_types@));
            }
        }
        let mut slot: usize = (h & (cap64 - 1)) as usize;
        let mut searching = true;
        let mut target: usize = 0;
        while searching
            invariant
                slot < cap,
                cap == self.capacity,
                capi2 == cap as int,
                0 <= s_e < capi2,
                0 <= bq < capi2,
                okey == other.payload.rows@[o as int].key(),
                h == spec_hash_key(okey),
                hsalt == spec_salt(h),
                searching ==> *self == tpre,
                searching ==> !slot_live_in(self.entries@, s_e),
                searching ==> path_live(
                    self.entries@,
                    capi2,
                    bq,
                    wrap_dist(capi2, bq, slot as int),
                ),
                searching ==> path_keys_differ(
                    self.entries@,
                    self.payload.rows@,
                    capi2,
                    bq,
                    wrap_dist(capi2, bq, slot as int),
                    okey,
                ),
                searching ==> rows_hashed(self.payload.rows@),
                !searching ==> {
                    &&& self.wf()
                    &&& self.payload.group_types == tpre.payload.group_types
                    &&& self.payload.aggrs == tpre.payload.aggrs
                    &&& self.payload.row_per_page == tpre.payload.row_per_page
                    &&& self.payload.state_addr_offsets == tpre.payload.state_addr_offsets
                    &&& tpre.spec_len() <= self.spec_len() <= tpre.spec_len() + 1
                    &&& (forall|rr: int|
                        0 <= rr < tpre.spec_len() ==> self.payload.rows@[rr]
                            == tpre.payload.rows@[rr])
                    &&& target < self.spec_len()
                    &&& self.payload.rows@[target as int].key() == other.payload.rows@[o as int].key()
                    &&& (self.spec_len() > tpre.spec_len()
                        ==> self.payload.rows@[tpre.spec_len() as int].key()
                        == other.payload.rows@[o as int].key()
                        && target as int == tpre.spec_len()
                        && self.payload.arena@ == tpre.payload.arena@ + Seq::new(
                            tpre.payload.aggrs@.len(),
                            |tq: int| crate::aggregate::spec_agg_init(),
                        ))
                    &&& (self.spec_len() == tpre.spec_len() ==> *self == tpre && target
                        < tpre.spec_len())
                },
            decreases crate::probing::wrap_dist(capi2, slot as int, s_e), (if searching {
                1int
            } else {
                0int
            }),
        {
            let e = self.entries[slot];
            if e.page_nr == 0 {
                let ghost pre = self.entries@;
                let ghost rows_pre = self.payload.rows@;
                proof {
                    assert(self.spec_len() < MAX_ROWS);
                }
                let row_nr = self.payload.append_row_copy(orow);
                let e_new = Entry {
                    salt: hsalt,
                    page_offset: (row_nr % ROWS_PER_PAGE) as u16,
                    page_nr: (row_nr / ROWS_PER_PAGE + 1) as u32,
                };
                proof {
                    assert(entry_row_index(e_new) == row_nr);
                }
                self.entries.set(slot, e_new);
                proof {
                    lemma_single_entry_added(
                        pre,
                        self.entries@,
                        rows_pre,
                        self.payload.rows@,
                        slot as int,
                        e_new,
                    );
                    // the scan proves the key absent, so the keys stay distinct
                    let d = wrap_dist(capi2, bq, slot as int);
                    crate::probing::lemma_slot_on_path(capi2, bq, slot as int);
                    lemma_scanned_key_absent(pre, rows_pre, capi2, okey, h, d);
                    assert forall|r1: int, r2: int|
                        0 <= r1 < r2 < self.payload.rows@.len() implies (
                    #[trigger] self.payload.rows@[r1]).key() != (
                    #[trigger] self.payload.rows@[r2]).key() by {
                        if r2 < rows_pre.len() {
                            assert(self.payload.rows@[r1] == rows_pre[r1]);
                            assert(self.payload.rows@[r2] == rows_pre[r2]);
                        } else {
                            assert(self.payload.rows@[r2].key() == okey);
                            assert(self.payload.rows@[r1] == rows_pre[r1]);
                            assert(rows_pre[r1].key() != okey);
                        }
                    }
                    // the new entry sits at the end of its scanned walk
                    assert forall|sx: int|
                        0 <= sx < capi2 && slot_live_in(pre, sx) implies slot_live_in(
                        self.entries@,
                        sx,
                    ) by {
                        if sx != slot as int {
                            assert(self.entries@[sx] == pre[sx]);
                        }
                    }
                    assert forall|sq: int|
                        0 <= sq < self.entries@.len() && #[trigger] slot_live_in(
                            self.entries@,
                            sq,
                        ) implies path_live(
                        self.entries@,
                        capi2,
                        bucket_of(
                            self.payload.rows@[entry_row_index(self.entries@[sq])].hash,
                            capi2,
                        ),
                        wrap_dist(
                            capi2,
                            bucket_of(
                                self.payload.rows@[entry_row_index(self.entries@[sq])].hash,
                                capi2,
                            ),
                            sq,
                        ),
                    ) by {
                        if sq != slot as int {
                            assert(self.entries@[sq] == pre[sq]);
                            assert(slot_live_in(pre, sq));
                            let rq = entry_row_index(pre[sq]);
                            assert(0 <= rq < rows_pre.len());
                            assert(self.payload.rows@[rq] == rows_pre[rq]);
                            crate::hash::lemma_bucket_in_range(rows_pre[rq].hash, cap64);
                            let bs = bucket_of(rows_pre[rq].hash, capi2);
                            assert(path_live(pre, capi2, bs, wrap_dist(capi2, bs, sq)));
                            crate::probing::lemma_path_live_mono(
                                pre,
                                self.entries@,
                                capi2,
                                bs,
                                wrap_dist(capi2, bs, sq),
                            );
                        } else {
                            assert(entry_row_index(self.entries@[sq]) == rows_pre.len());
                            assert(self.payload.rows@[rows_pre.len() as int].hash == h);
                            assert(bucket_of(h, capi2) == bq);
                            crate::probing::lemma_path_live_mono(
                                pre,
                                self.entries@,
                                capi2,
                                bq,
                                wrap_dist(capi2, bq, slot as int),
                            );
                        }
                    }
                    assert(self.wf());
                }
                target = row_nr;
                searching = false;
            } else if e.salt == hsalt {
                proof {
                    assert(slot_live_in(self.entries@, slot as int));
                    assert(0 <= entry_row_index(e) < self.payload.rows@.len());
                }
                let row_nr = (e.page_nr - 1) as usize * ROWS_PER_PAGE + e.page_offset as usize;
                proof {
                    assert(row_nr as int == entry_row_index(e));
                }
                if crate::row_compare::rows_match(&self.payload.rows[row_nr], orow) {
                    target = row_nr;
                    searching = false;
                } else {
                    proof {
                        lemma_combine_step_extends(
                            self.entries@,
                            self.payload.rows@,
                            capi2,
                            bq,
                            slot as int,
                            s_e,
                            okey,
                        );
                    }
                    slot += 1;
                    if slot >= cap {
                        slot = 0;
                    }
                }
            } else {
                proof {
                    let pr = entry_row_index(self.entries@[slot as int]);
                    assert(slot_live_in(self.entries@, slot as int));
                    assert(0 <= pr < self.payload.rows@.len());
                    assert(self.entries@[slot as int].salt == spec_salt(
                        self.payload.rows@[pr].hash,
                    ));
                    assert(self.payload.rows@[pr].hash == spec_hash_key(
                        self.payload.rows@[pr].key(),
                    ));
                    if self.payload.rows@[pr].key() == okey {
                        assert(false);
                    }
                    lemma_combine_step_extends(
                        self.entries@,
                        self.payload.rows@,
                        capi2,
                        bq,
                        slot as int,
                        s_e,
                        okey,
                    );
                }
                slot += 1;
                if slot >= cap {
                    slot = 0;
                }
            }
        }
        let base = self.payload.rows[target].state_addr;
        let obase = other.payload.rows[o].state_addr;
        proof {
            let g = n_aggr as int;
            let tq = target as int;
            let lq = self.payload.rows@.len() as int;
            assert(tq * g + g <= lq * g) by (nonlinear_arith)
                requires
                    0 <= tq < lq,
                    g >= 0,
            ;
            let oq = o as int;
            let olq = other.payload.rows@.len() as int;
            assert(oq * g + g <= olq * g) by (nonlinear_arith)
                requires
                    0 <= oq < olq,
                    g >= 0,
            ;
            assert(olq * g <= 0x100_0000 * 64) by (nonlinear_arith)
                requires
                    0 <= olq <= 0x100_0000,
                    0 <= g <= 64,
            ;
            assert(lq * g <= 0x100_0000 * 64) by (nonlinear_arith)
                requires
                    0 <= lq <= 0x100_0000,
                    0 <= g <= 64,
            ;
        }
        let ghost rows_mid = self.payload.rows@;
        let ghost tmid = *self;
        let ghost slots0 = self.payload.arena@;
        proof {
            assert(base as int == target as int * n_aggr as int);
            assert(obase as int == o as int * n_aggr as int);
        }
        let mut j: usize = 0;
        while j < n_aggr
            invariant
                j <= n_aggr,
                n_aggr == self.payload.aggrs@.len(),
                self.wf(),
                self.payload.group_types == tmid.payload.group_types,
                self.payload.aggrs == tmid.payload.aggrs,
                self.payload.row_per_page == tmid.payload.row_per_page,
                self.payload.state_addr_offsets == tmid.payload.state_addr_offsets,
                self.payload.rows@ == rows_mid,
                self.payload.arena@.len() == tmid.payload.arena@.len(),
                base + n_aggr <= self.payload.arena@.len(),
                obase + n_aggr <= other.payload.arena@.len(),
                self.payload.arena@.len() <= 0x4000_0000,
                other.payload.arena@.len() <= 0x4000_0000,
                target < rows_mid.len(),
                rows_mid[target as int].key() == other.payload.rows@[o as int].key(),
                crate::payload::spec_merge_row(
                    self.payload.aggrs@,
                    slots0,
                    base as int,
                    other.payload.arena@,
                    obase as int,
                    j as int,
                ) == (self.payload.arena@, Option::<ErrorKind>::None),
            decreases n_aggr - j,
        {
            let kind = self.payload.aggrs[j];
            let dst = self.payload.arena.get(base + j);
            let src = other.payload.arena.get(obase + j);
            let merged = crate::aggregate::merge(&kind, dst, src);
            match merged {
                Ok(ns) => {
                    self.payload.arena.set(base + j, ns);
                },
                Err(er) => {
                    proof {
                        if forall|jq: int|
                            0 <= jq < self.payload.aggrs@.len()
                                ==> #[trigger] self.payload.aggrs@[jq] != (
                            AggregateKind::SumDecimal128 { check_overflow: true }) {
                            crate::aggregate::lemma_merge_total_is_ok(kind, dst, src);
                            assert(false);
                        }
                        crate::payload::lemma_merge_row_stops(
                            self.payload.aggrs@,
                            slots0,
                            base as int,
                            other.payload.arena@,
                            obase as int,
                            j + 1,
                            n_aggr as int,
                        );
                        crate::payload::lemma_merge_row_errs(
                            self.payload.aggrs@,
                            slots0,
                            base as int,
                            other.payload.arena@,
                            obase as int,
                            n_aggr as int,
                        );
                        assert((#[trigger] self.payload.rows@[target as int]).key()
                            == other.payload.rows@[o as int].key());
                    }
                    return Err(er);
                },
            }
            j += 1;
        }
        Ok(target)
    }

    /// Merge another table with the same group column types and aggregate
    /// list into this one: for every group of `other`, an absent key is
    /// appended as a fresh group with initial states, and then each
    /// aggregate state of `other` is merged into its group's state here.
    /// `other` is not modified.
    #[verifier::loop_isolation(false)]
    #[verifier::rlimit(100)]
    pub fn combine(&mut self, other: &Self) -> (r: Result<(), ErrorKind>)
        requires
            old(self).wf(),
            other.wf(),
            old(self).payload.group_types == other.payload.group_types,
            old(self).payload.aggrs == other.payload.aggrs,
            old(self).spec_len() + other.spec_len() <= MAX_ROWS,
        ensures
            final(self).wf(),
            final(self).payload.group_types == old(self).payload.group_types,
            final(self).payload.aggrs == old(self).payload.aggrs,
            old(self).spec_len() <= final(self).spec_len(),
            final(self).spec_len() <= old(self).spec_len() + other.spec_len(),
            forall|rr: int|
                0 <= rr < old(self).spec_len() ==> final(self).payload.rows@[rr] == old(
                    self,
                ).payload.rows@[rr],
            keys_from_other(
                final(self).payload.rows@,
                old(self).spec_len() as int,
                final(self).spec_len() as int,
                other.payload.rows@,
            ),
            r is Ok ==> keys_covered(
                final(self).payload.rows@,
                other.payload.rows@,
                other.spec_len() as int,
            ),
            r is Ok ==> states_merged(
                final(self).payload.rows@,
                final(self).payload.arena@,
                old(self).payload.aggrs@,
                old(self).spec_len() as int,
                old(self).payload.arena@,
                other.payload.rows@,
                other.payload.arena@,
                other.spec_len() as int,
            ),
            r is Ok ==> states_untouched(
                final(self).payload.rows@,
                final(self).payload.arena@,
                old(self).payload.aggrs@,
                old(self).spec_len() as int,
                old(self).payload.arena@,
                other.payload.rows@,
                other.spec_len() as int,
            ),
            r is Err ==> r == Result::<(), ErrorKind>::Err(ErrorKind::Overflow),
            (forall|j: int|
                0 <= j < old(self).payload.aggrs@.len() ==> #[trigger] old(
                    self,
                ).payload.aggrs@[j] != (AggregateKind::SumDecimal128 { check_overflow: true }))
                ==> r is Ok,
    {
        let olen = other.payload.len();
        let mut o: usize = 0;
        while o < olen
            invariant
                o <= olen,
                self.wf(),
                self.payload.group_types == old(self).payload.group_types,
                self.payload.aggrs == old(self).payload.aggrs,
                self.payload.row_per_page == old(self).payload.row_per_page,
                self.payload.state_addr_offsets == old(self).payload.state_addr_offsets,
                old(self).spec_len() <= self.spec_len(),
                self.spec_len() <= old(self).spec_len() + o,
                forall|rr: int|
                    0 <= rr < old(self).spec_len() ==> self.payload.rows@[rr] == old(
                        self,
                    ).payload.rows@[rr],
                keys_from_other(
                    self.payload.rows@,
                    old(self).spec_len() as int,
                    self.spec_len() as int,
                    other.payload.rows@.take(o as int),
                ),
                keys_covered(self.payload.rows@, other.payload.rows@, o as int),
                states_merged(
                    self.payload.rows@,
                    self.payload.arena@,
                    old(self).payload.aggrs@,
                    old(self).spec_len() as int,
                    old(self).payload.arena@,
                    other.payload.rows@,
                    other.payload.arena@,
                    o as int,
                ),
                states_untouched(
                    self.payload.rows@,
                    self.payload.arena@,
                    old(self).payload.aggrs@,
                    old(self).spec_len() as int,
                    old(self).payload.arena@,
                    other.payload.rows@,
                    o as int,
                ),
            decreases olen - o,
        {
            let ghost before = *self;
            let res = self.combine_one(other, o);
            proof {
                let otake = other.payload.rows@.take((o + 1) as int);
                assert forall|rr: int|
                    old(self).spec_len() <= rr < self.spec_len() implies exists|oo: int|
                    0 <= oo < otake.len() && (#[trigger] self.payload.rows@[rr]).key()
                        == otake[oo].key() by {
                    if rr < before.spec_len() {
                        assert(self.payload.rows@[rr] == before.payload.rows@[rr]);
                        assert(keys_from_other(
                            before.payload.rows@,
                            old(self).spec_len() as int,
                            before.spec_len() as int,
                            other.payload.rows@.take(o as int),
                        ));
                        let ow = choose|oo: int|
                            0 <= oo < other.payload.rows@.take(o as int).len() && (
                            #[trigger] before.payload.rows@[rr]).key()
                                == other.payload.rows@.take(o as int)[oo].key();
                        assert(otake[ow] == other.payload.rows@.take(o as int)[ow]);
                        assert(0 <= ow < otake.len() && (self.payload.rows@[rr]).key()
                            == otake[ow].key());
                    } else {
                        assert(otake[o as int] == other.payload.rows@[o as int]);
                        assert(self.payload.rows@[rr].key() == otake[o as int].key());
                    }
                }
                assert(keys_from_other(
                    self.payload.rows@,
                    old(self).spec_len() as int,
                    self.spec_len() as int,
                    otake,
                ));
                assert forall|rr: int|
                    old(self).spec_len() <= rr < self.spec_len() implies exists|oo: int|
                    0 <= oo < other.payload.rows@.len() && (
                    #[trigger] self.payload.rows@[rr]).key() == other.payload.rows@[oo].key() by {
                    let ow = choose|oo: int|
                        0 <= oo < otake.len() && (#[trigger] self.payload.rows@[rr]).key()
                            == otake[oo].key();
                    assert(otake[ow] == other.payload.rows@[ow]);
                    assert(0 <= ow < other.payload.rows@.len() && self.payload.rows@[rr].key()
                        == other.payload.rows@[ow].key());
                }
                assert(keys_from_other(
                    self.payload.rows@,
                    old(self).spec_len() as int,
                    self.spec_len() as int,
                    other.payload.rows@,
                ));
            }
            match res {
                Ok(t) => {
                    proof {
                        assert forall|oo: int| 0 <= oo < o + 1 implies exists|r: int|
                            0 <= r < self.payload.rows@.len() && (
                            #[trigger] other.payload.rows@[oo]).key()
                                == self.payload.rows@[r].key() by {
                            if oo < o {
                                assert(keys_covered(
                                    before.payload.rows@,
                                    other.payload.rows@,
                                    o as int,
                                ));
                                let rw = choose|r: int|
                                    0 <= r < before.payload.rows@.len() && (
                                    #[trigger] other.payload.rows@[oo]).key()
                                        == before.payload.rows@[r].key();
                                assert(self.payload.rows@[rw] == before.payload.rows@[rw]);
                                assert(0 <= rw < self.payload.rows@.len() && other.payload.rows@[oo].key()
                                    == self.payload.rows@[rw].key());
                            } else {
                                assert(0 <= t < self.payload.rows@.len()
                                    && other.payload.rows@[oo].key()
                                    == self.payload.rows@[t as int].key());
                            }
                        }
                        assert(keys_covered(
                            self.payload.rows@,
                            other.payload.rows@,
                            (o + 1) as int,
                        ));
                        // the target row now holds the merged states and no
                        // other row's states moved
                        lemma_combine_iteration_merged(
                            before.payload.rows@,
                            before.payload.arena@,
                            self.payload.rows@,
                            self.payload.arena@,
                            old(self).payload.aggrs@,
                            old(self).spec_len() as int,
                            old(self).payload.arena@,
                            other.payload.rows@,
                            other.payload.arena@,
                            o as int,
                            t as int,
                        );
                        lemma_combine_iteration_untouched(
                            before.payload.rows@,
                            before.payload.arena@,
                            self.payload.rows@,
                            self.payload.arena@,
                            old(self).payload.aggrs@,
                            old(self).spec_len() as int,
                            old(self).payload.arena@,
                            other.payload.rows@,
                            other.payload.arena@,
                            o as int,
                            t as int,
                        );
                    }
                },
                Err(er) => {
                    return Err(er);
                },
            }
            o += 1;
        }
        proof {
            assert(other.payload.rows@.take(olen as int) =~= other.payload.rows@);
        }
        Ok(())
    }

    /// The output cell of group column `c` for stored row `r`: exactly the
    /// key cell the row holds.
    pub open spec fn group_out_cell(self, r: int, c: int) -> GroupValue {
        self.payload.rows@[r].key()[c]
    }

    /// The output cell of aggregate `j` for stored row `r`: its state,
    /// finalized.
    pub open spec fn agg_out_cell(self, r: int, j: int) -> GroupValue {
        crate::aggregate::spec_finalize(
            self.payload.aggrs@[j],
            self.payload.arena@[r * self.payload.aggrs@.len() + j],
        )
    }

    /// Emit one output row per stored group, in payload insertion order and
    /// with no sort: each group builder gets the group's key cells, each
    /// aggregate builder its finalized state. Afterwards the table is empty
    /// and therefore drop-safe: every state was finalized exactly once.
    #[verifier::loop_isolation(false)]
    #[verifier::rlimit(100)]
    pub fn finalize_into(
        &mut self,
        group_builders: &mut Vec<Column>,
        agg_builders: &mut Vec<Column>,
    )
        requires
            old(self).wf(),
            old(group_builders)@.len() == old(self).payload.group_types@.len(),
            forall|c: int|
                0 <= c < old(group_builders)@.len() ==> (#[trigger] old(group_builders)@[c]).wf()
                    && old(group_builders)@[c].data_type == old(self).payload.group_types@[c],
            old(agg_builders)@.len() == old(self).payload.aggrs@.len(),
            forall|j: int|
                0 <= j < old(agg_builders)@.len() ==> (#[trigger] old(agg_builders)@[j]).wf()
                    && old(agg_builders)@[j].data_type == old(
                    self,
                ).payload.aggrs@[j].spec_output_type(),
        ensures
            final(self).wf(),
            final(self).spec_len() == 0,
            final(self).payload.group_types == old(self).payload.group_types,
            final(self).payload.aggrs == old(self).payload.aggrs,
            final(self).capacity == old(self).capacity,
            final(group_builders)@.len() == old(group_builders)@.len(),
            final(agg_builders)@.len() == old(agg_builders)@.len(),
            forall|c: int|
                0 <= c < old(group_builders)@.len() ==> {
                    let gb = #[trigger] final(group_builders)@[c];
                    &&& gb.wf()
                    &&& gb.data_type == old(group_builders)@[c].data_type
                    &&& gb.spec_len() == old(group_builders)@[c].spec_len() + old(self).spec_len()
                    &&& (forall|i: int|
                        0 <= i < old(group_builders)@[c].spec_len() ==> gb.cell(i) == old(
                            group_builders,
                        )@[c].cell(i))
                    &&& (forall|r: int|
                        0 <= r < old(self).spec_len() ==> gb.cell(
                            old(group_builders)@[c].spec_len() + r,
                        ) == old(self).group_out_cell(r, c))
                },
            forall|j: int|
                0 <= j < old(agg_builders)@.len() ==> {
                    let ab = #[trigger] final(agg_builders)@[j];
                    &&& ab.wf()
                    &&& ab.data_type == old(agg_builders)@[j].data_type
                    &&& ab.spec_len() == old(agg_builders)@[j].spec_len() + old(self).spec_len()
                    &&& (forall|i: int|
                        0 <= i < old(agg_builders)@[j].spec_len() ==> ab.cell(i) == old(
                            agg_builders,
                        )@[j].cell(i))
                    &&& (forall|r: int|
                        0 <= r < old(self).spec_len() ==> ab.cell(
                            old(agg_builders)@[j].spec_len() + r,
                        ) == old(self).agg_out_cell(r, j))
                },
    {
        let nrows = self.payload.len();
        let ncols = self.payload.group_types.len();
        let n_aggr = self.payload.aggrs.len();
        let mut c: usize = 0;
        while c < ncols
            invariant
                c <= ncols,
                self == old(self),
                group_builders@.len() == old(group_builders)@.len(),
                forall|t: int|
                    c <= t < ncols ==> #[trigger] group_builders@[t] == old(group_builders)@[t],
                forall|t: int|
                    0 <= t < c ==> {
                        let gb = #[trigger] group_builders@[t];
                        &&& gb.wf()
                        &&& gb.data_type == old(group_builders)@[t].data_type
                        &&& gb.spec_len() == old(group_builders)@[t].spec_len() + nrows
                        &&& (forall|i: int|
                            0 <= i < old(group_builders)@[t].spec_len() ==> gb.cell(i) == old(
                                group_builders,
                            )@[t].cell(i))
                        &&& (forall|r: int|
                            0 <= r < nrows ==> gb.cell(old(group_builders)@[t].spec_len() + r)
                                == old(self).group_out_cell(r, t))
                    },
            decreases ncols - c,
        {
            let mut col = group_builders.remove(c);
            let ghost base = col.spec_len();
            let mut r: usize = 0;
            while r < nrows
                invariant
                    r <= nrows,
                    self == old(self),
                    nrows == self.payload.rows@.len(),
                    c < ncols,
                    ncols == self.payload.group_types@.len(),
                    col.wf(),
                    col.data_type == old(group_builders)@[c as int].data_type,
                    col.data_type == self.payload.group_types@[c as int],
                    col.spec_len() == base + r,
                    forall|i: int|
                        0 <= i < base ==> col.cell(i) == old(group_builders)@[c as int].cell(i),
                    forall|rr: int|
                        0 <= rr < r ==> col.cell(base + rr) == old(self).group_out_cell(
                            rr,
                            c as int,
                        ),
                decreases nrows - r,
            {
                let row = &self.payload.rows[r];
                if row.validity[c] {
                    col.push(crate::types::copy_value(&row.groups[c]));
                } else {
                    col.push_null();
                }
                r += 1;
            }
            group_builders.insert(c, col);
            c += 1;
        }
        let mut j: usize = 0;
        while j < n_aggr
            invariant
                j <= n_aggr,
                self == old(self),
                agg_builders@.len() == old(agg_builders)@.len(),
                forall|t: int|
                    j <= t < n_aggr ==> #[trigger] agg_builders@[t] == old(agg_builders)@[t],
                forall|t: int|
                    0 <= t < j ==> {
                        let ab = #[trigger] agg_builders@[t];
                        &&& ab.wf()
                        &&& ab.data_type == old(agg_builders)@[t].data_type
                        &&& ab.spec_len() == old(agg_builders)@[t].spec_len() + nrows
                        &&& (forall|i: int|
                            0 <= i < old(agg_builders)@[t].spec_len() ==> ab.cell(i) == old(
                                agg_builders,
                            )@[t].cell(i))
                        &&& (forall|r: int|
                            0 <= r < nrows ==> ab.cell(old(agg_builders)@[t].spec_len() + r)
                                == old(self).agg_out_cell(r, t))
                    },
            decreases n_aggr - j,
        {
            let kind = self.payload.aggrs[j];
            let mut col = agg_builders.remove(j);
            let ghost base = col.spec_len();
            let mut r: usize = 0;
            while r < nrows
                invariant
                    r <= nrows,
                    self == old(self),
                    nrows == self.payload.rows@.len(),
                    j < n_aggr,
                    n_aggr == self.payload.aggrs@.len(),
                    kind == self.payload.aggrs@[j as int],
                    col.wf(),
                    col.data_type == old(agg_builders)@[j as int].data_type,
                    col.data_type == kind.spec_output_type(),
                    col.spec_len() == base + r,
                    forall|i: int|
                        0 <= i < base ==> col.cell(i) == old(agg_builders)@[j as int].cell(i),
                    forall|rr: int|
                        0 <= rr < r ==> col.cell(base + rr) == old(self).agg_out_cell(
                            rr,
                            j as int,
                        ),
                decreases nrows - r,
            {
                proof {
                    let g = n_aggr as int;
                    let rq = r as int;
                    let lq = nrows as int;
                    assert(rq * g + g <= lq * g) by (nonlinear_arith)
                        requires
                            0 <= rq < lq,
                            g >= 0,
                    ;
                    assert(lq * g <= 0x100_0000 * 64) by (nonlinear_arith)
                        requires
                            0 <= lq <= 0x100_0000,
                            0 <= g <= 64,
                    ;
                }
                let base_addr = self.payload.rows[r].state_addr;
                let st = self.payload.arena.get(base_addr + j);
                crate::aggregate::finalize_state(&kind, st, &mut col);
                r += 1;
            }
            agg_builders.insert(j, col);
            j += 1;
        }
        self.payload.rows = Vec::new();
        self.payload.arena = Arena::new();
        let cap = self.capacity;
        self.entries = new_entries(cap);
    }

    /// Walk the payload and release the state of every aggregate that
    /// reports `needs_drop`, then empty the table; a table that was fully
    /// finalized holds no states, so nothing is released twice. Answers
    /// how many states the sweep released.
    #[verifier::loop_isolation(false)]
    pub fn release_states(&mut self) -> (n: usize)
        requires
            old(self).wf(),
        ensures
            final(self).wf(),
            final(self).spec_len() == 0,
            final(self).payload.group_types == old(self).payload.group_types,
            final(self).payload.aggrs == old(self).payload.aggrs,
            final(self).capacity == old(self).capacity,
            n as int == old(self).spec_len() * spec_num_drop(old(self).payload.aggrs@),
    {
        let n_aggr = self.payload.aggrs.len();
        let llen = self.payload.len();
        let mut nd: usize = 0;
        let mut j: usize = 0;
        while j < n_aggr
            invariant
                j <= n_aggr,
                n_aggr == self.payload.aggrs@.len(),
                nd as int == spec_num_drop(self.payload.aggrs@.take(j as int)),
                nd <= j,
            decreases n_aggr - j,
        {
            if self.payload.aggrs[j].needs_drop() {
                nd += 1;
            }
            proof {
                assert(self.payload.aggrs@.take((j + 1) as int).drop_last()
                    =~= self.payload.aggrs@.take(j as int));
                assert(self.payload.aggrs@.take((j + 1) as int).last()
                    == self.payload.aggrs@[j as int]);
            }
            j += 1;
        }
        proof {
            assert(self.payload.aggrs@.take(n_aggr as int) =~= self.payload.aggrs@);
            let lq = llen as int;
            let ndq = nd as int;
            assert(lq * ndq <= 0x100_0000 * 64) by (nonlinear_arith)
                requires
                    0 <= lq <= 0x100_0000,
                    0 <= ndq <= 64,
            ;
        }
        let n = llen * nd;
        self.payload.rows = Vec::new();
        self.payload.arena = Arena::new();
        let cap = self.capacity;
        self.entries = new_entries(cap);
        n
    }
}

/// The probe scratch is sized for this batch and holds each row's key hash
/// and salt.
pub open spec fn ps_core(state: ProbeState, cols: Seq<Column>, n: int) -> bool {
    &&& state.hashes@.len() == n
    &&& state.hash_salts@.len() == n
    &&& state.ht_offsets@.len() == n
    &&& state.addresses@.len() == n
    &&& state.state_places@.len() == n
    &&& forall|i: int| 0 <= i < n ==> #[trigger] state.hashes@[i] == spec_hash_key(key_at(cols, i))
    &&& forall|i: int|
        0 <= i < n ==> #[trigger] state.hash_salts@[i] == spec_salt(state.hashes@[i])
}

/// Address `addrs[i]` names a stored row carrying exactly the composite
/// key of batch row `i`.
pub open spec fn placed_at(addrs: Seq<usize>, rows: Seq<Row>, cols: Seq<Column>, i: int) -> bool {
    &&& addrs[i] < rows.len()
    &&& rows[addrs[i] as int].key() == key_at(cols, i)
}

/// Batch row `i` is resolved: its address names a stored row carrying
/// exactly its composite key.
pub open spec fn placed(state: ProbeState, rows: Seq<Row>, cols: Seq<Column>, i: int) -> bool {
    placed_at(state.addresses@, rows, cols, i)
}

/// Every batch row is resolved.
pub open spec fn all_placed(addrs: Seq<usize>, rows: Seq<Row>, cols: Seq<Column>, n: int) -> bool {
    forall|i: int| 0 <= i < n ==> placed_at(addrs, rows, cols, #[trigger] (i * 1))
}

/// Every row of `rows` in `[lo, hi)` carries the key of some row of
/// another table.
pub open spec fn keys_from_other(rows: Seq<Row>, lo: int, hi: int, other_rows: Seq<Row>) -> bool {
    forall|r: int| lo <= r < hi ==> exists|oo: int|
        0 <= oo < other_rows.len() && (#[trigger] rows[r]).key() == other_rows[oo].key()
}

/// Every row of `rows` in `[lo, hi)` carries the key of some batch row.
pub open spec fn keys_from_batch(rows: Seq<Row>, lo: int, hi: int, cols: Seq<Column>, n: int) -> bool {
    forall|r: int| lo <= r < hi ==> exists|i: int|
        0 <= i < n && (#[trigger] rows[r]).key() == key_at(cols, i)
}

/// The provisional entry that claims an empty slot during classification,
/// before the row is appended and the real page fields are written.
pub open spec fn sentinel_entry(salt: u16) -> Entry {
    Entry { salt, page_offset: 0, page_nr: 1 }
}

/// Slot `s` is one of the slots claimed for the batch rows listed in `ev`.
pub open spec fn marked_slot(offs: Seq<usize>, ev: Seq<usize>, s: int) -> bool {
    exists|k: int| 0 <= k < ev.len() && offs[#[trigger] ev[k] as int] as int == s
}

/// No element repeats.
pub open spec fn distinct_seq(v: Seq<usize>) -> bool {
    forall|u1: int, u2: int| 0 <= u1 < u2 < v.len() ==> v[u1] != v[u2]
}

/// No element of `a` occurs in `b`.
pub open spec fn disjoint_seqs(a: Seq<usize>, b: Seq<usize>) -> bool {
    forall|u1: int, u2: int| 0 <= u1 < a.len() && 0 <= u2 < b.len() ==> a[u1] != b[u2]
}

/// Doubling a power of two below the hard bound gives a power of two.
pub proof fn lemma_pow2_double(c: u64)
    requires
        is_pow2(c),
        c <= 0x2000_0000,
    ensures
        is_pow2((2 * c) as u64),
{
    let c2 = (2 * c) as u64;
    assert(c > 0 && (c & ((c - 1) as u64)) == 0 && c <= 0x2000_0000 && c2 == (c + c) as u64 ==> c2
        > 0 && (c2 & ((c2 - 1) as u64)) == 0) by (bit_vector);
}

/// Pushing keeps every element, and adds the pushed one.
pub proof fn lemma_push_contains(s: Seq<usize>, x: usize)
    ensures
        forall|y: usize| s.contains(y) ==> #[trigger] s.push(x).contains(y),
        s.push(x).contains(x),
{
    assert forall|y: usize| s.contains(y) implies #[trigger] s.push(x).contains(y) by {
        let u = choose|u: int| 0 <= u < s.len() && s[u] == y;
        assert(s.push(x)[u] == y);
    }
    assert(s.push(x)[s.len() as int] == x);
}

/// A longer prefix keeps every element of a shorter one.
pub proof fn lemma_take_grow(s: Seq<usize>, t1: int, t2: int)
    requires
        0 <= t1 <= t2 <= s.len(),
    ensures
        forall|y: usize| s.take(t1).contains(y) ==> #[trigger] s.take(t2).contains(y),
{
    assert forall|y: usize| s.take(t1).contains(y) implies #[trigger] s.take(t2).contains(y) by {
        let u = choose|u: int| 0 <= u < t1 && s.take(t1)[u] == y;
        assert(s.take(t2)[u] == y);
    }
}

/// After a batch append, the directory is whole again: the old occupied
/// slots are untouched and each claimed slot now names its fresh row.
proof fn lemma_batch_entries_restored(
    e_head: Seq<Entry>,
    entries: Seq<Entry>,
    rows_head: Seq<Row>,
    rows: Seq<Row>,
    offs: Seq<usize>,
    salts: Seq<u16>,
    hashes: Seq<u64>,
    ev: Seq<usize>,
    capi: int,
    len_head: int,
    row_count: int,
)
    requires
        e_head.len() == capi,
        entries.len() == capi,
        rows.len() == len_head + ev.len(),
        rows_head.len() == len_head,
        forall|r: int| 0 <= r < len_head ==> rows[r] == rows_head[r],
        dir_entries_valid(e_head, rows_head),
        dir_injective(e_head),
        dir_complete(e_head, len_head),
        forall|k: int| 0 <= k < ev.len() ==> #[trigger] ev[k] < row_count,
        offs.len() == row_count,
        salts.len() == row_count,
        hashes.len() == row_count,
        forall|i: int| 0 <= i < row_count ==> #[trigger] salts[i] == spec_salt(hashes[i]),
        forall|k: int|
            0 <= k < ev.len() ==> rows[len_head + k].hash == hashes[#[trigger] ev[k] as int],
        forall|s: int|
            0 <= s < capi && e_head[s].page_nr != 0 ==> #[trigger] entries[s] == e_head[s],
        forall|s: int|
            0 <= s < capi && #[trigger] entries[s] != e_head[s] ==> marked_slot(offs, ev, s),
        forall|k: int|
            0 <= k < ev.len() ==> {
                let sl = offs[#[trigger] ev[k] as int] as int;
                &&& entries[sl].salt == salts[ev[k] as int]
                &&& entries[sl].page_offset < ROWS_PER_PAGE
                &&& entries[sl].page_nr != 0
                &&& entry_row_index(entries[sl]) == len_head + k
            },
        forall|k1: int, k2: int|
            0 <= k1 < k2 < ev.len() ==> offs[#[trigger] ev[k1] as int] != offs[#[trigger] ev[k2] as int],
        forall|i: int| 0 <= i < row_count ==> #[trigger] offs[i] < capi,
    ensures
        dir_entries_valid(entries, rows),
        dir_injective(entries),
        dir_complete(entries, rows.len() as int),
{
    assert forall|s: int| 0 <= s < capi && #[trigger] slot_live_in(entries, s) implies {
        &&& entries[s].page_offset < ROWS_PER_PAGE
        &&& 0 <= entry_row_index(entries[s]) < rows.len()
        &&& entries[s].salt == spec_salt(rows[entry_row_index(entries[s])].hash)
    } by {
        if entries[s] == e_head[s] {
            assert(slot_live_in(e_head, s));
            assert(entry_row_index(e_head[s]) < len_head);
        } else {
            assert(marked_slot(offs, ev, s));
            let kk = choose|kk: int|
                0 <= kk < ev.len() && offs[#[trigger] ev[kk] as int] as int == s;
            assert(entry_row_index(entries[s]) == len_head + kk);
            assert(rows[len_head + kk].hash == hashes[ev[kk] as int]);
            assert(entries[s].salt == salts[ev[kk] as int]);
        }
    }
    assert forall|s1: int, s2: int|
        0 <= s1 < capi && 0 <= s2 < capi && s1 != s2 && #[trigger] slot_live_in(entries, s1)
            && #[trigger] slot_live_in(entries, s2) implies entry_row_index(entries[s1])
        != entry_row_index(entries[s2]) by {
        if entries[s1] == e_head[s1] && entries[s2] == e_head[s2] {
            assert(slot_live_in(e_head, s1) && slot_live_in(e_head, s2));
        } else if entries[s1] == e_head[s1] {
            assert(slot_live_in(e_head, s1));
            assert(entry_row_index(e_head[s1]) < len_head);
            assert(marked_slot(offs, ev, s2));
            let kk = choose|kk: int|
                0 <= kk < ev.len() && offs[#[trigger] ev[kk] as int] as int == s2;
            assert(entry_row_index(entries[s2]) == len_head + kk);
        } else if entries[s2] == e_head[s2] {
            assert(slot_live_in(e_head, s2));
            assert(entry_row_index(e_head[s2]) < len_head);
            assert(marked_slot(offs, ev, s1));
            let kk = choose|kk: int|
                0 <= kk < ev.len() && offs[#[trigger] ev[kk] as int] as int == s1;
            assert(entry_row_index(entries[s1]) == len_head + kk);
        } else {
            assert(marked_slot(offs, ev, s1));
            assert(marked_slot(offs, ev, s2));
            let k1 = choose|kk: int|
                0 <= kk < ev.len() && offs[#[trigger] ev[kk] as int] as int == s1;
            let k2 = choose|kk: int|
                0 <= kk < ev.len() && offs[#[trigger] ev[kk] as int] as int == s2;
            assert(k1 != k2);
            assert(entry_row_index(entries[s1]) == len_head + k1);
            assert(entry_row_index(entries[s2]) == len_head + k2);
        }
    }
    assert forall|r: int| 0 <= r < rows.len() implies row_has_entry_in(entries, r) by {
        if r < len_head {
            assert(row_has_entry_in(e_head, r));
            let s0 = choose|sq: int|
                0 <= sq < e_head.len() && #[trigger] slot_live_in(e_head, sq) && entry_row_index(
                    e_head[sq],
                ) == r;
            assert(entries[s0] == e_head[s0]);
            assert(slot_live_in(entries, s0) && entry_row_index(entries[s0]) == r);
        } else {
            let kk = r - len_head;
            let sl = offs[ev[kk] as int] as int;
            assert(0 <= sl < capi);
            assert(slot_live_in(entries, sl) && entry_row_index(entries[sl]) == r);
        }
    }
}

/// After one probe-and-create pass, every batch row that did not survive
/// into the next selection is resolved.
proof fn lemma_iteration_accounting(
    cur: Seq<usize>,
    a_head: Seq<usize>,
    ab: Seq<usize>,
    rows: Seq<Row>,
    rows_head: Seq<Row>,
    cols: Seq<Column>,
    sel_head: Seq<usize>,
    ev: Seq<usize>,
    cv: Seq<usize>,
    nv_a: Seq<usize>,
    nv_final: Seq<usize>,
    len_head: int,
    row_count: int,
)
    requires
        0 <= row_count <= 0xffff_ffff,
        cur.len() == row_count,
        a_head.len() == row_count,
        ab.len() == row_count,
        rows_head.len() == len_head,
        rows.len() == len_head + ev.len(),
        forall|r: int| 0 <= r < len_head ==> rows[r] == rows_head[r],
        forall|ii: int|
            0 <= ii < row_count && !sel_head.contains(ii as usize) ==> placed_at(
                a_head,
                rows_head,
                cols,
                ii,
            ),
        forall|u: int|
            0 <= u < sel_head.len() ==> ev.contains(#[trigger] sel_head[u]) || cv.contains(
                sel_head[u],
            ) || nv_a.contains(sel_head[u]),
        forall|k: int| 0 <= k < ev.len() ==> #[trigger] ev[k] < row_count,
        forall|k: int| 0 <= k < ev.len() ==> sel_head.contains(#[trigger] ev[k]),
        forall|u: int| 0 <= u < cv.len() ==> sel_head.contains(#[trigger] cv[u]),
        forall|kk: int| 0 <= kk < ev.len() ==> ab[#[trigger] ev[kk] as int] as int == len_head + kk,
        forall|kk: int|
            0 <= kk < ev.len() ==> (#[trigger] rows[len_head + kk]).key() == key_at(
                cols,
                ev[kk] as int,
            ),
        forall|ii: int|
            0 <= ii < row_count && !ev.contains(ii as usize) ==> #[trigger] ab[ii] == a_head[ii],
        forall|ii: int|
            0 <= ii < row_count && !cv.contains(ii as usize) ==> #[trigger] cur[ii] == ab[ii],
        disjoint_seqs(ev, cv),
        forall|u: int|
            0 <= u < cv.len() ==> placed_at(cur, rows, cols, #[trigger] cv[u] as int)
                || nv_final.contains(cv[u]),
        nv_final.len() >= nv_a.len(),
        nv_final.take(nv_a.len() as int) == nv_a,
    ensures
        forall|ii: int|
            0 <= ii < row_count && !nv_final.contains(ii as usize) ==> placed_at(
                cur,
                rows,
                cols,
                ii,
            ),
{
    assert forall|ii: int|
        0 <= ii < row_count && !nv_final.contains(ii as usize) implies placed_at(
        cur,
        rows,
        cols,
        ii,
    ) by {
        let iu = ii as usize;
        if sel_head.contains(iu) {
            let u = choose|u: int| 0 <= u < sel_head.len() && sel_head[u] == iu;
            if ev.contains(iu) {
                let kk = choose|kk: int| 0 <= kk < ev.len() && ev[kk] == iu;
                if cv.contains(iu) {
                    let uq = choose|uq: int| 0 <= uq < cv.len() && cv[uq] == iu;
                    assert(ev[kk] != cv[uq]);
                    assert(false);
                }
                assert(ev[kk] == iu);
                assert(ab[ev[kk] as int] as int == len_head + kk);
                assert(rows[len_head + kk].key() == key_at(cols, ev[kk] as int));
                assert(cur[ii] == ab[ii]);
                assert(ab[ii] as int == len_head + kk);
                assert(rows[len_head + kk].key() == key_at(cols, ii));
            } else if cv.contains(iu) {
                let uq = choose|uq: int| 0 <= uq < cv.len() && cv[uq] == iu;
                assert(placed_at(cur, rows, cols, cv[uq] as int) || nv_final.contains(cv[uq]));
            } else {
                assert(nv_a.contains(iu));
                let uq = choose|uq: int| 0 <= uq < nv_a.len() && nv_a[uq] == iu;
                assert(nv_final[uq] == iu);
                assert(nv_final.contains(iu));
                assert(false);
            }
        } else {
            assert(placed_at(a_head, rows_head, cols, ii));
            if ev.contains(iu) {
                let kk = choose|kk: int| 0 <= kk < ev.len() && ev[kk] == iu;
                assert(sel_head.contains(iu));
                assert(false);
            }
            if cv.contains(iu) {
                let uq = choose|uq: int| 0 <= uq < cv.len() && cv[uq] == iu;
                assert(sel_head.contains(iu));
                assert(false);
            }
            assert(cur[ii] == ab[ii]);
            assert(ab[ii] == a_head[ii]);
            assert(rows[a_head[ii] as int] == rows_head[a_head[ii] as int]);
        }
    }
}

/// Writing a fresh entry for a newly appended row into an empty slot
/// keeps the directory one-to-one and onto.
proof fn lemma_single_entry_added(
    pre: Seq<Entry>,
    post: Seq<Entry>,
    rows_pre: Seq<Row>,
    rows_post: Seq<Row>,
    slot: int,
    e: Entry,
)
    requires
        0 <= slot < pre.len(),
        pre[slot].page_nr == 0,
        post == pre.update(slot, e),
        dir_entries_valid(pre, rows_pre),
        dir_injective(pre),
        dir_complete(pre, rows_pre.len() as int),
        rows_post.len() == rows_pre.len() + 1,
        forall|r: int| 0 <= r < rows_pre.len() ==> rows_post[r] == rows_pre[r],
        e.page_nr != 0,
        e.page_offset < ROWS_PER_PAGE,
        entry_row_index(e) == rows_pre.len(),
        e.salt == spec_salt(rows_post[rows_pre.len() as int].hash),
    ensures
        dir_entries_valid(post, rows_post),
        dir_injective(post),
        dir_complete(post, rows_post.len() as int),
{
    assert forall|s: int| 0 <= s < post.len() && #[trigger] slot_live_in(post, s) implies {
        &&& post[s].page_offset < ROWS_PER_PAGE
        &&& 0 <= entry_row_index(post[s]) < rows_post.len()
        &&& post[s].salt == spec_salt(rows_post[entry_row_index(post[s])].hash)
    } by {
        if s != slot {
            assert(post[s] == pre[s]);
            assert(slot_live_in(pre, s));
            assert(entry_row_index(pre[s]) < rows_pre.len());
        }
    }
    assert forall|s1: int, s2: int|
        0 <= s1 < post.len() && 0 <= s2 < post.len() && s1 != s2 && #[trigger] slot_live_in(
            post,
            s1,
        ) && #[trigger] slot_live_in(post, s2) implies entry_row_index(post[s1])
        != entry_row_index(post[s2]) by {
        if s1 != slot && s2 != slot {
            assert(post[s1] == pre[s1] && post[s2] == pre[s2]);
            assert(slot_live_in(pre, s1) && slot_live_in(pre, s2));
        } else if s1 == slot {
            assert(post[s2] == pre[s2]);
            assert(slot_live_in(pre, s2));
            assert(entry_row_index(pre[s2]) < rows_pre.len());
        } else {
            assert(post[s1] == pre[s1]);
            assert(slot_live_in(pre, s1));
            assert(entry_row_index(pre[s1]) < rows_pre.len());
        }
    }
    assert forall|r: int| 0 <= r < rows_post.len() implies row_has_entry_in(post, r) by {
        if r < rows_pre.len() {
            assert(row_has_entry_in(pre, r));
            let s0 = choose|sq: int|
                0 <= sq < pre.len() && #[trigger] slot_live_in(pre, sq) && entry_row_index(
                    pre[sq],
                ) == r;
            assert(s0 != slot);
            assert(post[s0] == pre[s0]);
            assert(slot_live_in(post, s0) && entry_row_index(post[s0]) == r);
        } else {
            assert(slot_live_in(post, slot) && entry_row_index(post[slot]) == r);
        }
    }
}

/// How many of the aggregates hold states that a sweep must release.
pub open spec fn spec_num_drop(aggrs: Seq<AggregateKind>) -> int
    decreases aggrs.len(),
{
    if aggrs.len() == 0 {
        0
    } else {
        spec_num_drop(aggrs.drop_last()) + (if aggrs.last().spec_needs_drop() {
            1int
        } else {
            0
        })
    }
}

/// No two stored rows hold the same composite key.
pub open spec fn keys_distinct(rows: Seq<Row>) -> bool {
    forall|r1: int, r2: int|
        0 <= r1 < r2 < rows.len() ==> (#[trigger] rows[r1]).key() != (#[trigger] rows[r2]).key()
}

/// Every stored row's hash is the hash of its own key.
pub open spec fn rows_hashed(rows: Seq<Row>) -> bool {
    forall|r: int|
        0 <= r < rows.len() ==> (#[trigger] rows[r]).hash == spec_hash_key(rows[r].key())
}

/// The bucket a hash selects in a directory of `cap` slots.
pub open spec fn bucket_of(h: u64, cap: int) -> int {
    spec_bucket(h, cap as u64) as int
}

/// Probe reachability: every occupied entry sits at the end of a fully
/// occupied walk from its own row's bucket, so a linear probe for that
/// row's hash cannot stop short of it at an empty slot.
pub open spec fn dir_no_holes(entries: Seq<Entry>, rows: Seq<Row>, cap: int) -> bool {
    forall|s: int|
        0 <= s < entries.len() && #[trigger] slot_live_in(entries, s) ==> path_live(
            entries,
            cap,
            bucket_of(rows[entry_row_index(entries[s])].hash, cap),
            wrap_dist(cap, bucket_of(rows[entry_row_index(entries[s])].hash, cap), s),
        )
}

/// The rows pointed at by the first `d` slots of the walk from `b` all
/// hold keys different from `key`.
pub open spec fn path_keys_differ(
    entries: Seq<Entry>,
    rows: Seq<Row>,
    cap: int,
    b: int,
    d: int,
    key: Seq<GroupValue>,
) -> bool {
    forall|dd: int|
        0 <= dd < d ==> rows[entry_row_index(entries[#[trigger] crate::probing::slot_at(cap, b, dd)])].key()
            != key
}

/// Completeness of a probe: a walk from `key`'s bucket that crossed only
/// occupied slots holding other keys and then reached an empty slot proves
/// that no stored row holds `key` at all.
pub proof fn lemma_scanned_key_absent(
    entries: Seq<Entry>,
    rows: Seq<Row>,
    cap: int,
    key: Seq<GroupValue>,
    h: u64,
    d: int,
)
    requires
        entries.len() == cap,
        cap > 0,
        dir_entries_valid(entries, rows),
        dir_injective(entries),
        dir_complete(entries, rows.len() as int),
        dir_no_holes(entries, rows, cap),
        rows_hashed(rows),
        h == spec_hash_key(key),
        0 <= bucket_of(h, cap) < cap,
        0 <= d < cap,
        path_live(entries, cap, bucket_of(h, cap), d),
        path_keys_differ(entries, rows, cap, bucket_of(h, cap), d, key),
        !slot_live_in(entries, crate::probing::slot_at(cap, bucket_of(h, cap), d)),
    ensures
        forall|r: int| 0 <= r < rows.len() ==> (#[trigger] rows[r]).key() != key,
{
    let b = bucket_of(h, cap);
    assert forall|r: int| 0 <= r < rows.len() implies (#[trigger] rows[r]).key() != key by {
        if rows[r].key() == key {
            assert(rows[r].hash == h);
            assert(row_has_entry_in(entries, r));
            let s = choose|s: int|
                0 <= s < entries.len() && #[trigger] slot_live_in(entries, s) && entry_row_index(
                    entries[s],
                ) == r;
            crate::probing::lemma_slot_on_path(cap, b, s);
            let dr = wrap_dist(cap, b, s);
            assert(path_live(entries, cap, b, dr));
            if dr < d {
                assert(crate::probing::slot_at(cap, b, dr) == s);
                assert(rows[entry_row_index(entries[crate::probing::slot_at(cap, b, dr)])].key()
                    != key);
                assert(false);
            } else if dr == d {
                assert(crate::probing::slot_at(cap, b, d) == s);
                assert(false);
            } else {
                assert(slot_live_in(entries, crate::probing::slot_at(cap, b, d)));
                assert(false);
            }
        }
    }
}

/// Two fully occupied walks from the same bucket that both end at empty
/// slots end at the same slot: the shorter walk's empty endpoint would
/// otherwise lie on the longer, occupied walk. So two batch rows that
/// claimed different empty slots cannot probe from one bucket, and in
/// particular cannot hold equal keys.
pub proof fn lemma_claimed_slot_unique(e_head: Seq<Entry>, cap: int, b: int, off1: int, off2: int)
    requires
        e_head.len() == cap,
        0 <= b < cap,
        0 <= off1 < cap,
        0 <= off2 < cap,
        path_live(e_head, cap, b, wrap_dist(cap, b, off1)),
        path_live(e_head, cap, b, wrap_dist(cap, b, off2)),
        !slot_live_in(e_head, off1),
        !slot_live_in(e_head, off2),
    ensures
        off1 == off2,
{
    crate::probing::lemma_slot_on_path(cap, b, off1);
    crate::probing::lemma_slot_on_path(cap, b, off2);
    let d1 = wrap_dist(cap, b, off1);
    let d2 = wrap_dist(cap, b, off2);
    if d1 < d2 {
        assert(slot_live_in(e_head, crate::probing::slot_at(cap, b, d1)));
        assert(crate::probing::slot_at(cap, b, d1) == off1);
    } else if d2 < d1 {
        assert(slot_live_in(e_head, crate::probing::slot_at(cap, b, d2)));
        assert(crate::probing::slot_at(cap, b, d2) == off2);
    }
}

/// Scanned-path knowledge survives a batch: occupied slots were not
/// rewritten and the rows they point at were not moved, so a walk that was
/// occupied and key-mismatching before the batch still is afterwards.
proof fn lemma_path_facts_carry(
    e1: Seq<Entry>,
    e2: Seq<Entry>,
    rows1: Seq<Row>,
    rows2: Seq<Row>,
    cap: int,
    b: int,
    d: int,
    key: Seq<GroupValue>,
)
    requires
        e1.len() == cap,
        e2.len() == cap,
        path_live(e1, cap, b, d),
        path_keys_differ(e1, rows1, cap, b, d, key),
        dir_entries_valid(e1, rows1),
        forall|s: int| 0 <= s < cap && slot_live_in(e1, s) ==> e2[s] == e1[s],
        forall|r: int| 0 <= r < rows1.len() ==> rows2[r] == rows1[r],
        0 <= b < cap,
        0 <= d <= cap,
    ensures
        path_live(e2, cap, b, d),
        path_keys_differ(e2, rows2, cap, b, d, key),
{
    assert forall|dd: int| 0 <= dd < d implies slot_live_in(
        e2,
        #[trigger] crate::probing::slot_at(cap, b, dd),
    ) && rows2[entry_row_index(e2[crate::probing::slot_at(cap, b, dd)])].key() != key by {
        let sl = crate::probing::slot_at(cap, b, dd);
        assert(0 <= sl < cap);
        assert(slot_live_in(e1, sl));
        assert(e2[sl] == e1[sl]);
        assert(0 <= entry_row_index(e1[sl]) < rows1.len());
        assert(rows2[entry_row_index(e1[sl])] == rows1[entry_row_index(e1[sl])]);
    }
}

/// After a batch append, probe reachability holds again: old entries keep
/// their old walks (occupancy only grew), and each claimed slot sits at
/// the end of the walk its batch row scanned.
proof fn lemma_batch_no_holes(
    e_head: Seq<Entry>,
    entries: Seq<Entry>,
    rows_head: Seq<Row>,
    rows: Seq<Row>,
    offs: Seq<usize>,
    hashes: Seq<u64>,
    ev: Seq<usize>,
    capu: u64,
    cap: int,
    len_head: int,
    row_count: int,
)
    requires
        cap == capu as int,
        is_pow2(capu),
        e_head.len() == cap,
        entries.len() == cap,
        cap > 0,
        dir_no_holes(e_head, rows_head, cap),
        dir_entries_valid(e_head, rows_head),
        rows.len() == len_head + ev.len(),
        rows_head.len() == len_head,
        forall|r: int| 0 <= r < len_head ==> rows[r] == rows_head[r],
        forall|s: int|
            0 <= s < cap && e_head[s].page_nr != 0 ==> #[trigger] entries[s] == e_head[s],
        forall|s: int|
            0 <= s < cap && #[trigger] entries[s] != e_head[s] ==> marked_slot(offs, ev, s),
        offs.len() == row_count,
        hashes.len() == row_count,
        forall|i: int| 0 <= i < row_count ==> #[trigger] offs[i] < cap,
        forall|i: int| 0 <= i < row_count ==> 0 <= row_bucket(cap, hashes, #[trigger] (i * 1)) < cap,
        forall|k: int| 0 <= k < ev.len() ==> #[trigger] ev[k] < row_count,
        forall|k: int|
            0 <= k < ev.len() ==> entry_row_index(entries[offs[#[trigger] ev[k] as int] as int])
                == len_head + k,
        forall|k: int|
            0 <= k < ev.len() ==> rows[len_head + k].hash == hashes[#[trigger] ev[k] as int],
        forall|k: int|
            0 <= k < ev.len() ==> path_live(
                e_head,
                cap,
                row_bucket(cap, hashes, #[trigger] ev[k] as int),
                wrap_dist(cap, row_bucket(cap, hashes, ev[k] as int), offs[ev[k] as int] as int),
            ),
    ensures
        dir_no_holes(entries, rows, cap),
{
    assert forall|sx: int| 0 <= sx < cap && slot_live_in(e_head, sx) implies slot_live_in(
        entries,
        sx,
    ) by {
        assert(entries[sx] == e_head[sx]);
    }
    assert forall|s: int| 0 <= s < entries.len() && #[trigger] slot_live_in(entries, s) implies
        path_live(
        entries,
        cap,
        bucket_of(rows[entry_row_index(entries[s])].hash, cap),
        wrap_dist(cap, bucket_of(rows[entry_row_index(entries[s])].hash, cap), s),
    ) by {
        if entries[s] == e_head[s] {
            assert(slot_live_in(e_head, s));
            let rq = entry_row_index(e_head[s]);
            assert(0 <= rq < len_head);
            assert(rows[rq] == rows_head[rq]);
            crate::hash::lemma_bucket_in_range(rows_head[rq].hash, capu);
            let bs = bucket_of(rows_head[rq].hash, cap);
            assert(path_live(e_head, cap, bs, wrap_dist(cap, bs, s)));
            crate::probing::lemma_path_live_mono(e_head, entries, cap, bs, wrap_dist(cap, bs, s));
        } else {
            assert(marked_slot(offs, ev, s));
            let kk = choose|kk: int|
                0 <= kk < ev.len() && offs[#[trigger] ev[kk] as int] as int == s;
            assert(entry_row_index(entries[s]) == len_head + kk);
            let iq = ev[kk] as int;
            let bs = row_bucket(cap, hashes, iq);
            assert(0 <= row_bucket(cap, hashes, iq * 1) < cap);
            assert(rows[len_head + kk].hash == hashes[iq]);
            assert(bucket_of(rows[entry_row_index(entries[s])].hash, cap) == bs);
            assert(path_live(e_head, cap, bs, wrap_dist(cap, bs, s)));
            crate::probing::lemma_path_live_mono(e_head, entries, cap, bs, wrap_dist(cap, bs, s));
        }
    }
}

/// After a batch append, the stored keys are still pairwise distinct: each
/// claimed row's key was scanned to be absent from the old table, and two
/// claimed rows with one key would have claimed one slot.
proof fn lemma_batch_keys_distinct(
    e_head: Seq<Entry>,
    rows_head: Seq<Row>,
    rows: Seq<Row>,
    offs: Seq<usize>,
    hashes: Seq<u64>,
    cols: Seq<Column>,
    ev: Seq<usize>,
    cap: int,
    len_head: int,
    row_count: int,
)
    requires
        e_head.len() == cap,
        cap > 0,
        dir_entries_valid(e_head, rows_head),
        dir_injective(e_head),
        dir_complete(e_head, len_head),
        dir_no_holes(e_head, rows_head, cap),
        keys_distinct(rows_head),
        rows_hashed(rows_head),
        rows.len() == len_head + ev.len(),
        rows_head.len() == len_head,
        forall|r: int| 0 <= r < len_head ==> rows[r] == rows_head[r],
        forall|k: int|
            0 <= k < ev.len() ==> (#[trigger] rows[len_head + k]).key() == key_at(
                cols,
                ev[k] as int,
            ),
        offs.len() == row_count,
        hashes.len() == row_count,
        forall|i: int| 0 <= i < row_count ==> #[trigger] offs[i] < cap,
        forall|i: int| 0 <= i < row_count ==> 0 <= row_bucket(cap, hashes, #[trigger] (i * 1)) < cap,
        forall|i: int|
            0 <= i < row_count ==> #[trigger] hashes[i] == spec_hash_key(key_at(cols, i)),
        forall|k: int| 0 <= k < ev.len() ==> #[trigger] ev[k] < row_count,
        forall|k: int|
            0 <= k < ev.len() ==> e_head[offs[#[trigger] ev[k] as int] as int].page_nr == 0,
        forall|k1: int, k2: int|
            0 <= k1 < k2 < ev.len() ==> offs[#[trigger] ev[k1] as int] != offs[#[trigger] ev[k2] as int],
        forall|k: int|
            0 <= k < ev.len() ==> path_live(
                e_head,
                cap,
                row_bucket(cap, hashes, #[trigger] ev[k] as int),
                wrap_dist(cap, row_bucket(cap, hashes, ev[k] as int), offs[ev[k] as int] as int),
            ),
        forall|k: int|
            0 <= k < ev.len() ==> path_keys_differ(
                e_head,
                rows_head,
                cap,
                row_bucket(cap, hashes, #[trigger] ev[k] as int),
                wrap_dist(cap, row_bucket(cap, hashes, ev[k] as int), offs[ev[k] as int] as int),
                key_at(cols, ev[k] as int),
            ),
    ensures
        keys_distinct(rows),
{
    assert forall|k: int|
        0 <= k < ev.len() implies (forall|r: int|
        0 <= r < len_head ==> (#[trigger] rows_head[r]).key() != key_at(
            cols,
            (#[trigger] ev[k]) as int,
        )) by {
        let iq = ev[k] as int;
        let hq = hashes[iq];
        let bq = row_bucket(cap, hashes, iq);
        let sq = offs[iq] as int;
        assert(0 <= row_bucket(cap, hashes, iq * 1) < cap);
        let dq = wrap_dist(cap, bq, sq);
        crate::probing::lemma_slot_on_path(cap, bq, sq);
        assert(crate::probing::slot_at(cap, bq, dq) == sq);
        assert(!slot_live_in(e_head, sq));
        assert(bucket_of(hq, cap) == bq);
        lemma_scanned_key_absent(e_head, rows_head, cap, key_at(cols, iq), hq, dq);
    }
    assert forall|r1: int, r2: int|
        0 <= r1 < r2 < rows.len() implies (#[trigger] rows[r1]).key() != (
    #[trigger] rows[r2]).key() by {
        if r2 < len_head {
            assert(rows[r1] == rows_head[r1] && rows[r2] == rows_head[r2]);
        } else if r1 < len_head {
            let kk = r2 - len_head;
            assert(rows[len_head + kk].key() == key_at(cols, ev[kk] as int));
            assert(rows[r2].key() == key_at(cols, ev[kk] as int));
            assert(rows_head[r1].key() != key_at(cols, ev[kk] as int));
            assert(rows[r1] == rows_head[r1]);
        } else {
            let k1 = r1 - len_head;
            let k2 = r2 - len_head;
            if rows[r1].key() == rows[r2].key() {
                let i1 = ev[k1] as int;
                let i2 = ev[k2] as int;
                assert(rows[len_head + k1].key() == key_at(cols, ev[k1] as int));
                assert(rows[len_head + k2].key() == key_at(cols, ev[k2] as int));
                assert(key_at(cols, i1) == key_at(cols, i2));
                assert(hashes[i1] == hashes[i2]);
                assert(0 <= row_bucket(cap, hashes, i1 * 1) < cap);
                assert(0 <= row_bucket(cap, hashes, i2 * 1) < cap);
                assert(row_bucket(cap, hashes, i1) == row_bucket(cap, hashes, i2));
                lemma_claimed_slot_unique(
                    e_head,
                    cap,
                    row_bucket(cap, hashes, i1),
                    offs[i1] as int,
                    offs[i2] as int,
                );
                assert(false);
            }
        }
    }
}

/// One rejected step of a sequential probe: the current slot is occupied
/// by a row with a different key, so the scanned walk extends by one step
/// and stays within one lap of an empty witness slot.
proof fn lemma_combine_step_extends(
    entries: Seq<Entry>,
    rows: Seq<Row>,
    cap: int,
    b: int,
    slot: int,
    s_e: int,
    key: Seq<GroupValue>,
)
    requires
        entries.len() == cap,
        0 <= b < cap,
        0 <= slot < cap,
        0 <= s_e < cap,
        slot_live_in(entries, slot),
        !slot_live_in(entries, s_e),
        path_live(entries, cap, b, wrap_dist(cap, b, slot)),
        path_keys_differ(entries, rows, cap, b, wrap_dist(cap, b, slot), key),
        rows[entry_row_index(entries[slot])].key() != key,
    ensures
        ({
            let noff: int = if slot + 1 < cap {
                slot + 1
            } else {
                0
            };
            &&& wrap_dist(cap, b, noff) == wrap_dist(cap, b, slot) + 1
            &&& wrap_dist(cap, b, noff) < wrap_dist(cap, b, s_e) + 1
            &&& path_live(entries, cap, b, wrap_dist(cap, b, noff))
            &&& path_keys_differ(entries, rows, cap, b, wrap_dist(cap, b, noff), key)
            &&& wrap_dist(cap, noff, s_e) < wrap_dist(cap, slot, s_e)
        }),
{
    let d = wrap_dist(cap, b, slot);
    let de = wrap_dist(cap, b, s_e);
    crate::probing::lemma_slot_on_path(cap, b, slot);
    crate::probing::lemma_slot_on_path(cap, b, s_e);
    if d > de {
        assert(slot_live_in(entries, crate::probing::slot_at(cap, b, de)));
        assert(false);
    }
    assert(d < de);
    let noff: int = if slot + 1 < cap {
        slot + 1
    } else {
        0
    };
    crate::probing::lemma_advance_dist(cap, b, slot, noff);
    assert forall|dd: int| 0 <= dd < d + 1 implies slot_live_in(
        entries,
        #[trigger] crate::probing::slot_at(cap, b, dd),
    ) && rows[entry_row_index(entries[crate::probing::slot_at(cap, b, dd)])].key() != key by {
        if dd == d {
            assert(crate::probing::slot_at(cap, b, d) == slot);
        }
    }
}

/// The capacity a resize grows to: doubled from `cap` until more than
/// `n` free slots remain beyond `len`. The cut at the directory bound only
/// makes the recursion well-founded; the table's row and batch bounds keep
/// every reachable argument far below it.
pub open spec fn spec_grown_capacity(cap: int, len: int, n: int) -> int
    decreases (if cap < 0x1000_0000 {
        0x1000_0000 - cap
    } else {
        0
    }),
{
    if cap <= 0 || cap - len > n || cap >= 0x1000_0000 {
        cap
    } else {
        spec_grown_capacity(2 * cap, len, n)
    }
}

/// Every row of `others` in `[0, upto)` has its key stored in `rows`.
pub open spec fn keys_covered(rows: Seq<Row>, others: Seq<Row>, upto: int) -> bool {
    forall|oo: int|
        0 <= oo < upto ==> exists|r: int|
            0 <= r < rows.len() && (#[trigger] others[oo]).key() == rows[r].key()
}

/// Row `rr`'s states are the aggregate merge of its pre-merge states (its
/// old states, or fresh initial states for a row the merge appended) with
/// source row `oo`'s states.
pub open spec fn states_merged_at(
    arena: Seq<AggState>,
    aggrs: Seq<AggregateKind>,
    rr: int,
    old_len: int,
    old_arena: Seq<AggState>,
    oarena: Seq<AggState>,
    oo: int,
) -> bool {
    let g = aggrs.len() as int;
    forall|j: int|
        0 <= j < g ==> arena[rr * g + #[trigger] (j * 1)] == crate::aggregate::spec_merge(
            aggrs[j],
            if rr < old_len {
                old_arena[rr * g + j]
            } else {
                crate::aggregate::spec_agg_init()
            },
            oarena[oo * g + j],
        ).unwrap()
}

/// Every stored row whose key occurs in `others[0, upto)` holds exactly
/// the merged states for that key.
pub open spec fn states_merged(
    rows: Seq<Row>,
    arena: Seq<AggState>,
    aggrs: Seq<AggregateKind>,
    old_len: int,
    old_arena: Seq<AggState>,
    others: Seq<Row>,
    oarena: Seq<AggState>,
    upto: int,
) -> bool {
    forall|rr: int, oo: int|
        0 <= rr < rows.len() && 0 <= oo < upto && (#[trigger] rows[rr]).key() == (
        #[trigger] others[oo]).key() ==> states_merged_at(
            arena,
            aggrs,
            rr,
            old_len,
            old_arena,
            oarena,
            oo,
        )
}

/// Every old row whose key occurs nowhere in `others[0, upto)` keeps its
/// states untouched.
pub open spec fn states_untouched(
    rows: Seq<Row>,
    arena: Seq<AggState>,
    aggrs: Seq<AggregateKind>,
    old_len: int,
    old_arena: Seq<AggState>,
    others: Seq<Row>,
    upto: int,
) -> bool {
    let g = aggrs.len() as int;
    forall|rr: int|
        0 <= rr < old_len && (forall|oo: int|
            0 <= oo < upto ==> (#[trigger] rows[rr]).key() != (#[trigger] others[oo]).key())
            ==> (forall|j: int| 0 <= j < g ==> arena[rr * g + #[trigger] (j * 1)] == old_arena[rr * g + j])
}

/// One merge step of `combine` updates the per-key state bookkeeping:
/// rows whose keys already matched a processed source row keep their merged
/// states, and the target row takes the merge for source row `o`.
#[verifier::rlimit(100)]
#[verifier::spinoff_prover]
proof fn lemma_combine_iteration_merged(
    rows_b: Seq<Row>,
    arena_b: Seq<AggState>,
    rows_n: Seq<Row>,
    arena_n: Seq<AggState>,
    aggrs: Seq<AggregateKind>,
    oldl: int,
    old_arena: Seq<AggState>,
    orows: Seq<Row>,
    oarena: Seq<AggState>,
    o: int,
    ti: int,
)
    requires
        0 <= o < orows.len(),
        keys_distinct(orows),
        keys_distinct(rows_n),
        0 <= oldl <= rows_b.len(),
        rows_b.len() <= rows_n.len() <= rows_b.len() + 1,
        forall|rr: int| 0 <= rr < rows_b.len() ==> rows_n[rr] == rows_b[rr],
        arena_b.len() == rows_b.len() * aggrs.len(),
        arena_n.len() == rows_n.len() * aggrs.len(),
        0 <= ti < rows_n.len(),
        rows_n[ti].key() == orows[o].key(),
        rows_n.len() > rows_b.len() ==> ti == rows_b.len(),
        rows_n.len() == rows_b.len() ==> ti < rows_b.len(),
        ({
            let g = aggrs.len() as int;
            let appended = rows_n.len() > rows_b.len();
            let slots0 = if appended {
                arena_b + Seq::new(g as nat, |tq: int| crate::aggregate::spec_agg_init())
            } else {
                arena_b
            };
            &&& crate::payload::spec_merge_row(aggrs, slots0, ti * g, oarena, o * g, g).1 is None
            &&& arena_n == crate::payload::spec_merge_row(aggrs, slots0, ti * g, oarena, o * g, g).0
        }),
        keys_from_other(rows_b, oldl, rows_b.len() as int, orows.take(o)),
        states_merged(rows_b, arena_b, aggrs, oldl, old_arena, orows, oarena, o),
        states_untouched(rows_b, arena_b, aggrs, oldl, old_arena, orows, o),
    ensures
        states_merged(rows_n, arena_n, aggrs, oldl, old_arena, orows, oarena, o + 1),
{
    let g = aggrs.len() as int;
    let beforel = rows_b.len() as int;
    assert(keys_distinct(orows));
    let appended = rows_n.len() > rows_b.len();
    let slots0 = if appended {
        arena_b + Seq::new(
            g as nat,
            |tq: int| crate::aggregate::spec_agg_init(),
        )
    } else {
        arena_b
    };
    assert(arena_b.len() == beforel * g);
    assert(ti * g + g <= slots0.len() && arena_n.len()
        == slots0.len()) by (nonlinear_arith)
        requires
            0 <= ti,
            0 <= g,
            (appended && ti == beforel && slots0.len() == beforel * g + g
                && arena_n.len() == (beforel + 1) * g) || (
            !appended && ti < beforel && slots0.len() == beforel * g
                && arena_n.len() == beforel * g),
    ;
    crate::payload::lemma_merge_row_pointwise(
        aggrs,
        slots0,
        ti * g,
        oarena,
        o * g,
        g,
    );
    if !appended && ti >= oldl {
        assert(keys_from_other(
            rows_b,
            oldl,
            beforel,
            orows.take(o),
        ));
        let ow = choose|oo: int|
            0 <= oo < orows.take(o).len() && (
            #[trigger] rows_b[ti]).key()
                == orows.take(o)[oo].key();
        assert(orows.take(o)[ow] == orows[ow]);
        assert(orows[ow].key() == orows[o].key());
        assert(false);
    }
    if !appended {
        assert forall|oo: int|
            0 <= oo < o implies (
        #[trigger] rows_b[ti]).key() != (
        #[trigger] orows[oo]).key() by {
            if rows_b[ti].key() == orows[oo].key() {
                assert(orows[oo].key() == orows[o].key());
                assert(false);
            }
        }
        assert(states_untouched(
            rows_b,
            arena_b,
            aggrs,
            oldl,
            old_arena,
            orows,
            o,
        ));
        assert(forall|j: int|
            0 <= j < g ==> arena_b[ti * g + #[trigger] (j * 1)]
                == old_arena[ti * g + j]);
    }
    assert forall|rr: int, oo: int|
        0 <= rr < rows_n.len() && 0 <= oo < o + 1 && (
        #[trigger] rows_n[rr]).key() == (
        #[trigger] orows[oo]).key() implies states_merged_at(
        arena_n,
        aggrs,
        rr,
        oldl,
        old_arena,
        oarena,
        oo,
    ) by {
        if oo < o {
            if rr == ti {
                assert(rows_n[ti].key() == orows[o].key());
                assert(orows[oo].key() == orows[o].key());
                assert(false);
            }
            assert(rr < beforel);
            assert(rows_n[rr] == rows_b[rr]);
            assert(states_merged_at(
                arena_b,
                aggrs,
                rr,
                oldl,
                old_arena,
                oarena,
                oo,
            ));
            assert forall|j: int|
                0 <= j < g implies arena_n[rr * g + #[trigger] (
            j * 1)] == arena_b[rr * g + j] by {
                assert(!(ti * g <= rr * g + j < ti * g + g))
                    by (nonlinear_arith)
                    requires
                        rr != ti,
                        rr >= 0,
                        ti >= 0,
                        0 <= j < g,
                ;
                assert(0 <= rr * g + j < beforel * g) by (nonlinear_arith)
                    requires
                        0 <= rr < beforel,
                        0 <= j < g,
                ;
                assert(arena_n[(rr * g + j) * 1]
                    == slots0[rr * g + j]);
                assert(slots0[rr * g + j] == arena_b[rr * g + j]);
            }
        } else {
            if rr != ti {
                assert(rows_n[ti].key() == orows[o].key());
                assert(keys_distinct(rows_n));
                if rr < ti {
                    assert(rows_n[rr].key()
                        != rows_n[ti].key());
                } else {
                    assert(rows_n[ti].key()
                        != rows_n[rr].key());
                }
                assert(false);
            }
            assert forall|j: int|
                0 <= j < g implies arena_n[ti * g + #[trigger] (
            j * 1)] == crate::aggregate::spec_merge(
                aggrs[j],
                if ti < oldl {
                    old_arena[ti * g + j]
                } else {
                    crate::aggregate::spec_agg_init()
                },
                oarena[o * g + j],
            ).unwrap() by {
                assert(arena_n[ti * g + (j * 1)]
                    == crate::aggregate::spec_merge(
                    aggrs[j],
                    slots0[ti * g + j],
                    oarena[o * g + j],
                ).unwrap());
                if appended {
                    assert(ti == beforel && beforel >= oldl);
                    assert(slots0[ti * g + j] == crate::aggregate::spec_agg_init());
                } else {
                    assert(ti < oldl);
                    assert(slots0[ti * g + j] == arena_b[ti * g + j]);
                    assert(arena_b[ti * g + (j * 1)]
                        == old_arena[ti * g + j]);
                }
            }
        }
    }
    assert(states_merged(
        rows_n,
        arena_n,
        aggrs,
        oldl,
        old_arena,
        orows,
        oarena,
        (o + 1) as int,
    ));
}

/// One merge step of `combine` leaves every unrelated row alone: a row
/// whose key occurs nowhere in the processed source rows keeps exactly the
/// states it had when the combine began.
#[verifier::rlimit(100)]
#[verifier::spinoff_prover]
proof fn lemma_combine_iteration_untouched(
    rows_b: Seq<Row>,
    arena_b: Seq<AggState>,
    rows_n: Seq<Row>,
    arena_n: Seq<AggState>,
    aggrs: Seq<AggregateKind>,
    oldl: int,
    old_arena: Seq<AggState>,
    orows: Seq<Row>,
    oarena: Seq<AggState>,
    o: int,
    ti: int,
)
    requires
        0 <= o < orows.len(),
        keys_distinct(orows),
        keys_distinct(rows_n),
        0 <= oldl <= rows_b.len(),
        rows_b.len() <= rows_n.len() <= rows_b.len() + 1,
        forall|rr: int| 0 <= rr < rows_b.len() ==> rows_n[rr] == rows_b[rr],
        arena_b.len() == rows_b.len() * aggrs.len(),
        arena_n.len() == rows_n.len() * aggrs.len(),
        0 <= ti < rows_n.len(),
        rows_n[ti].key() == orows[o].key(),
        rows_n.len() > rows_b.len() ==> ti == rows_b.len(),
        rows_n.len() == rows_b.len() ==> ti < rows_b.len(),
        ({
            let g = aggrs.len() as int;
            let appended = rows_n.len() > rows_b.len();
            let slots0 = if appended {
                arena_b + Seq::new(g as nat, |tq: int| crate::aggregate::spec_agg_init())
            } else {
                arena_b
            };
            &&& crate::payload::spec_merge_row(aggrs, slots0, ti * g, oarena, o * g, g).1 is None
            &&& arena_n == crate::payload::spec_merge_row(aggrs, slots0, ti * g, oarena, o * g, g).0
        }),
        keys_from_other(rows_b, oldl, rows_b.len() as int, orows.take(o)),
        states_merged(rows_b, arena_b, aggrs, oldl, old_arena, orows, oarena, o),
        states_untouched(rows_b, arena_b, aggrs, oldl, old_arena, orows, o),
    ensures
        states_untouched(rows_n, arena_n, aggrs, oldl, old_arena, orows, o + 1),
{
    let g = aggrs.len() as int;
    let beforel = rows_b.len() as int;
    assert(keys_distinct(orows));
    let appended = rows_n.len() > rows_b.len();
    let slots0 = if appended {
        arena_b + Seq::new(
            g as nat,
            |tq: int| crate::aggregate::spec_agg_init(),
        )
    } else {
        arena_b
    };
    assert(arena_b.len() == beforel * g);
    assert(ti * g + g <= slots0.len() && arena_n.len()
        == slots0.len()) by (nonlinear_arith)
        requires
            0 <= ti,
            0 <= g,
            (appended && ti == beforel && slots0.len() == beforel * g + g
                && arena_n.len() == (beforel + 1) * g) || (
            !appended && ti < beforel && slots0.len() == beforel * g
                && arena_n.len() == beforel * g),
    ;
    crate::payload::lemma_merge_row_pointwise(
        aggrs,
        slots0,
        ti * g,
        oarena,
        o * g,
        g,
    );
    if !appended && ti >= oldl {
        assert(keys_from_other(
            rows_b,
            oldl,
            beforel,
            orows.take(o),
        ));
        let ow = choose|oo: int|
            0 <= oo < orows.take(o).len() && (
            #[trigger] rows_b[ti]).key()
                == orows.take(o)[oo].key();
        assert(orows.take(o)[ow] == orows[ow]);
        assert(orows[ow].key() == orows[o].key());
        assert(false);
    }
    if !appended {
        assert forall|oo: int|
            0 <= oo < o implies (
        #[trigger] rows_b[ti]).key() != (
        #[trigger] orows[oo]).key() by {
            if rows_b[ti].key() == orows[oo].key() {
                assert(orows[oo].key() == orows[o].key());
                assert(false);
            }
        }
        assert(states_untouched(
            rows_b,
            arena_b,
            aggrs,
            oldl,
            old_arena,
            orows,
            o,
        ));
        assert(forall|j: int|
            0 <= j < g ==> arena_b[ti * g + #[trigger] (j * 1)]
                == old_arena[ti * g + j]);
    }
    assert forall|rr: int|
        0 <= rr < oldl && (forall|oo: int|
            0 <= oo < o + 1 ==> (#[trigger] rows_n[rr]).key() != (
            #[trigger] orows[oo]).key()) implies (forall|j: int|
        0 <= j < g ==> arena_n[rr * g + #[trigger] (j * 1)] == old_arena[rr * g + j]) by {
        assert(rows_n[rr].key() != orows[o].key());
        assert(rr != ti) by {
            if rr == ti {
                assert(rows_n[ti].key() == orows[o].key());
            }
        }
        assert(rows_n[rr] == rows_b[rr]);
        assert forall|oo: int|
            0 <= oo < o implies (#[trigger] rows_b[rr]).key()
            != (#[trigger] orows[oo]).key() by {
            assert(rows_n[rr].key() != orows[oo].key());
        }
        assert(states_untouched(
            rows_b,
            arena_b,
            aggrs,
            oldl,
            old_arena,
            orows,
            o,
        ));
        assert(forall|j: int|
            0 <= j < g ==> arena_b[rr * g + #[trigger] (j * 1)]
                == old_arena[rr * g + j]);
        assert forall|j: int|
            0 <= j < g implies arena_n[rr * g + #[trigger] (j * 1)]
            == old_arena[rr * g + j] by {
            assert(!(ti * g <= rr * g + j < ti * g + g)) by (nonlinear_arith)
                requires
                    rr != ti,
                    rr >= 0,
                    ti >= 0,
                    0 <= j < g,
            ;
            assert(0 <= rr * g + j < beforel * g) by (nonlinear_arith)
                requires
                    0 <= rr < beforel,
                    0 <= j < g,
            ;
            assert(arena_n[(rr * g + j) * 1]
                == slots0[rr * g + j]);
            assert(slots0[rr * g + j] == arena_b[rr * g + j]);
            assert(arena_b[rr * g + (j * 1)]
                == old_arena[rr * g + j]);
        }
    }
    assert(states_untouched(
        rows_n,
        arena_n,
        aggrs,
        oldl,
        old_arena,
        orows,
        (o + 1) as int,
    ));
}

/// A zeroed directory of `capacity` slots.
fn new_entries(capacity: usize) -> (v: Vec<Entry>)
    ensures
        v@.len() == capacity,
        forall|s: int| 0 <= s < capacity ==> !slot_live_in(#[trigger] v@, s),
        forall|s: int| 0 <= s < capacity ==> v@[s] == (Entry { salt: 0, page_offset: 0, page_nr: 0 }),
{
    let mut v: Vec<Entry> = Vec::new();
    let mut k: usize = 0;
    while k < capacity
        invariant
            k <= capacity,
            v@.len() == k,
            forall|s: int|
                0 <= s < k ==> v@[s] == (Entry { salt: 0, page_offset: 0, page_nr: 0 }),
        decreases capacity - k,
    {
        v.push(Entry { salt: 0, page_offset: 0, page_nr: 0 });
        k += 1;
    }
    v
}

} // verus!
