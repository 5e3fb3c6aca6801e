//! Hashing of composite group keys.
//!
//! A 64-bit hash is folded over the key cells with a multiplicative mix, one
//! tag per value kind so that values of different types never collide by
//! construction of the input stream. The high 16 bits of the hash are the
//! directory salt; the low bits select the initial bucket.

use vstd::prelude::*;

use crate::types::Column;
use crate::types::GroupValue;
use crate::types::Value;
use crate::types::key_at;

verus! {

/// Seed of the fold (the FNV-1a 64-bit offset basis).
pub const HASH_SEED: u64 = 0xcbf29ce484222325;

/// Multiplier of the fold (the FNV-1a 64-bit prime).
pub const HASH_PRIME: u64 = 0x100000001b3;

/// One mixing step.
pub open spec fn spec_mix(h: u64, x: u64) -> u64 {
    (h ^ x).wrapping_mul(HASH_PRIME)
}

/// The fold over the first `n` bytes of `s`.
pub open spec fn spec_hash_bytes(h: u64, s: Seq<u8>, n: int) -> u64
    decreases n,
{
    if n <= 0 {
        h
    } else {
        spec_mix(spec_hash_bytes(h, s, n - 1), s[n - 1] as u64)
    }
}

/// The hash contribution of one key cell.
pub open spec fn spec_hash_cell(h: u64, g: GroupValue) -> u64 {
    match g {
        GroupValue::Null => spec_mix(h, 0xa5),
        GroupValue::Boolean(b) => spec_mix(spec_mix(h, 1), if b { 1u64 } else { 0u64 }),
        GroupValue::Int64(x) => spec_mix(spec_mix(h, 2), x as u64),
        GroupValue::Decimal128(x) => spec_mix(spec_mix(spec_mix(h, 3), x as u64), (x >> 64) as u64),
        GroupValue::Bytes(s) => spec_hash_bytes(
            spec_mix(spec_mix(h, 4), s.len() as u64),
            s,
            s.len() as int,
        ),
        GroupValue::Date(x) => spec_mix(spec_mix(h, 5), x as u64),
        GroupValue::Timestamp(x) => spec_mix(spec_mix(h, 6), x as u64),
    }
}

/// The fold over the first `n` cells of `key`, from the seed.
pub open spec fn spec_hash_key_prefix(key: Seq<GroupValue>, n: int) -> u64
    decreases n,
{
    if n <= 0 {
        HASH_SEED
    } else {
        spec_hash_cell(spec_hash_key_prefix(key, n - 1), key[n - 1])
    }
}

/// The hash of a whole composite key.
pub open spec fn spec_hash_key(key: Seq<GroupValue>) -> u64 {
    spec_hash_key_prefix(key, key.len() as int)
}

/// The directory salt: the high 16 bits of the hash.
pub open spec fn spec_salt(h: u64) -> u16 {
    (h >> 48) as u16
}

pub fn salt_of(h: u64) -> (s: u16)
    ensures
        s == spec_salt(h),
{
    (h >> 48) as u16
}

/// Whether `cap` is a power of two.
pub open spec fn is_pow2(cap: u64) -> bool {
    cap > 0 && cap & ((cap - 1) as u64) == 0
}

/// The initial bucket of a hash in a directory of `cap` slots.
pub open spec fn spec_bucket(h: u64, cap: u64) -> u64 {
    h & ((cap - 1) as u64)
}

/// A power of two masks every hash into range.
pub proof fn lemma_bucket_in_range(h: u64, cap: u64)
    requires
        is_pow2(cap),
    ensures
        spec_bucket(h, cap) < cap,
{
    assert((h & ((cap - 1) as u64)) < cap) by (bit_vector)
        requires
            cap > 0 && cap & ((cap - 1) as u64) == 0,
    ;
}

fn mix(h: u64, x: u64) -> (r: u64)
    ensures
        r == spec_mix(h, x),
{
    (h ^ x).wrapping_mul(HASH_PRIME)
}

fn hash_bytes(h0: u64, b: &Vec<u8>) -> (r: u64)
    ensures
        r == spec_hash_bytes(h0, b@, b@.len() as int),
{
    let n = b.len();
    let mut h = h0;
    let mut i: usize = 0;
    while i < n
        invariant
            i <= n,
            n == b@.len(),
            h == spec_hash_bytes(h0, b@, i as int),
        decreases n - i,
    {
        h = mix(h, b[i] as u64);
        i += 1;
    }
    h
}

/// The hash contribution of one cell given as a validity flag and a value.
pub fn hash_cell(h: u64, valid: bool, v: &Value) -> (r: u64)
    ensures
        r == spec_hash_cell(
            h,
            if valid {
                crate::types::value_view(*v)
            } else {
                GroupValue::Null
            },
        ),
{
    if !valid {
        return mix(h, 0xa5);
    }
    match v {
        Value::Boolean(b) => mix(mix(h, 1), if *b { 1u64 } else { 0u64 }),
        Value::Int64(x) => mix(mix(h, 2), *x as u64),
        Value::Decimal128(x) => mix(mix(mix(h, 3), *x as u64), (*x >> 64) as u64),
        Value::Bytes(bytes) => hash_bytes(mix(mix(h, 4), bytes.len() as u64), bytes),
        Value::Date(x) => mix(mix(h, 5), *x as u64),
        Value::Timestamp(x) => mix(mix(h, 6), *x as u64),
    }
}

/// The hash of the composite key of row `i` of the group columns.
pub fn hash_key_of_row(cols: &Vec<Column>, i: usize) -> (r: u64)
    requires
        forall|c: int| 0 <= c < cols@.len() ==> (#[trigger] cols@[c]).wf(),
        forall|c: int| 0 <= c < cols@.len() ==> i < (#[trigger] cols@[c]).spec_len(),
    ensures
        r == spec_hash_key(key_at(cols@, i as int)),
{
    let ncols = cols.len();
    let mut h = HASH_SEED;
    let mut c: usize = 0;
    while c < ncols
        invariant
            c <= ncols,
            ncols == cols@.len(),
            forall|k: int| 0 <= k < cols@.len() ==> (#[trigger] cols@[k]).wf(),
            forall|k: int| 0 <= k < cols@.len() ==> i < (#[trigger] cols@[k]).spec_len(),
            h == spec_hash_key_prefix(key_at(cols@, i as int), c as int),
        decreases ncols - c,
    {
        let col = &cols[c];
        h = hash_cell(h, col.validity[i], &col.values[i]);
        proof {
            assert(key_at(cols@, i as int)[c as int] == cols@[c as int].cell(i as int));
        }
        c += 1;
    }
    h
}

} // verus!
