//! Reusable per-batch scratch state for the probe loop.
//!
//! All vectors are sized to the batch: for batch row `i`, `hashes[i]` is the
//! key hash, `hash_salts[i]` its directory salt, `ht_offsets[i]` the current
//! probe position, `addresses[i]` the resolved payload row and
//! `state_places[i]` the arena address of that row's states. The selection
//! vectors are write-side lists of batch row indices filled during
//! classification.

use vstd::prelude::*;

use crate::hash::hash_key_of_row;
use crate::hash::is_pow2;
use crate::hash::salt_of;
use crate::hash::spec_bucket;
use crate::hash::spec_hash_key;
use crate::hash::spec_salt;
use crate::types::Column;
use crate::types::key_at;

verus! {

pub struct ProbeState {
    pub hashes: Vec<u64>,
    pub hash_salts: Vec<u16>,
    pub ht_offsets: Vec<usize>,
    pub addresses: Vec<usize>,
    pub state_places: Vec<usize>,
    pub empty_vector: Vec<usize>,
    pub group_compare_vector: Vec<usize>,
    pub no_match_vector: Vec<usize>,
    pub new_groups: Vec<usize>,
}

impl ProbeState {
    pub fn new() -> (r: Self)
        ensures
            r.hashes@.len() == 0,
    {
        ProbeState {
            hashes: Vec::new(),
            hash_salts: Vec::new(),
            ht_offsets: Vec::new(),
            addresses: Vec::new(),
            state_places: Vec::new(),
            empty_vector: Vec::new(),
            group_compare_vector: Vec::new(),
            no_match_vector: Vec::new(),
            new_groups: Vec::new(),
        }
    }

    /// Size the scratch vectors to the batch, hash every row's key, and
    /// derive each row's salt and initial probe position in a directory of
    /// `capacity` slots.
    pub fn prepare(&mut self, cols: &Vec<Column>, row_count: usize, capacity: usize)
        requires
            forall|c: int| 0 <= c < cols@.len() ==> (#[trigger] cols@[c]).wf(),
            forall|c: int| 0 <= c < cols@.len() ==> (#[trigger] cols@[c]).spec_len() >= row_count,
            is_pow2(capacity as u64),
        ensures
            final(self).hashes@.len() == row_count,
            final(self).hash_salts@.len() == row_count,
            final(self).ht_offsets@.len() == row_count,
            final(self).addresses@.len() == row_count,
            final(self).state_places@.len() == row_count,
            final(self).empty_vector@.len() == 0,
            final(self).group_compare_vector@.len() == 0,
            final(self).no_match_vector@.len() == 0,
            final(self).new_groups@.len() == 0,
            forall|i: int|
                0 <= i < row_count ==> #[trigger] final(self).hashes@[i] == spec_hash_key(
                    key_at(cols@, i),
                ),
            forall|i: int|
                0 <= i < row_count ==> #[trigger] final(self).hash_salts@[i] == spec_salt(
                    final(self).hashes@[i],
                ),
            forall|i: int|
                0 <= i < row_count ==> #[trigger] final(self).ht_offsets@[i] == spec_bucket(
                    final(self).hashes@[i],
                    capacity as u64,
                ) as usize,
            forall|i: int| 0 <= i < row_count ==> #[trigger] final(self).ht_offsets@[i] < capacity,
    {
        let mut hashes: Vec<u64> = Vec::new();
        let mut hash_salts: Vec<u16> = Vec::new();
        let mut ht_offsets: Vec<usize> = Vec::new();
        let mut addresses: Vec<usize> = Vec::new();
        let mut state_places: Vec<usize> = Vec::new();
        let cap64 = capacity as u64;
        let mut i: usize = 0;
        while i < row_count
            invariant
                i <= row_count,
                forall|c: int| 0 <= c < cols@.len() ==> (#[trigger] cols@[c]).wf(),
                forall|c: int|
                    0 <= c < cols@.len() ==> (#[trigger] cols@[c]).spec_len() >= row_count,
                is_pow2(cap64),
                cap64 == capacity as u64,
                hashes@.len() == i,
                hash_salts@.len() == i,
                ht_offsets@.len() == i,
                addresses@.len() == i,
                state_places@.len() == i,
                forall|t: int|
                    0 <= t < i ==> #[trigger] hashes@[t] == spec_hash_key(key_at(cols@, t)),
                forall|t: int|
                    0 <= t < i ==> #[trigger] hash_salts@[t] == spec_salt(hashes@[t]),
                forall|t: int|
                    0 <= t < i ==> #[trigger] ht_offsets@[t] == spec_bucket(
                        hashes@[t],
                        cap64,
                    ) as usize,
                forall|t: int| 0 <= t < i ==> #[trigger] ht_offsets@[t] < capacity,
            decreases row_count - i,
        {
            let h = hash_key_of_row(cols, i);
            proof {
                crate::hash::lemma_bucket_in_range(h, cap64);
            }
            hashes.push(h);
            hash_salts.push(salt_of(h));
            ht_offsets.push((h & (cap64 - 1)) as usize);
            addresses.push(0);
            state_places.push(0);
            i += 1;
        }
        self.hashes = hashes;
        self.hash_salts = hash_salts;
        self.ht_offsets = ht_offsets;
        self.addresses = addresses;
        self.state_places = state_places;
        self.empty_vector = Vec::new();
        self.group_compare_vector = Vec::new();
        self.no_match_vector = Vec::new();
        self.new_groups = Vec::new();
    }
}

} // verus!
