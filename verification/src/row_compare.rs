//! Key comparison between a stored payload row and a batch row, or between
//! two stored rows.
//!
//! Null bits are compared first: a null and a non-null cell differ, two
//! nulls in the same column position are equal. Only when both cells are
//! non-null are the values themselves compared.

use vstd::prelude::*;

use crate::payload::Row;
use crate::types::Column;
use crate::types::GroupValue;
use crate::types::key_at;
use crate::types::value_eq;

verus! {

/// Whether the key stored in `row` equals the composite key of batch row
/// `i` of the group columns.
pub fn row_matches_key(row: &Row, cols: &Vec<Column>, i: usize) -> (r: bool)
    requires
        row.groups@.len() == cols@.len(),
        row.validity@.len() == cols@.len(),
        forall|c: int| 0 <= c < cols@.len() ==> (#[trigger] cols@[c]).wf(),
        forall|c: int| 0 <= c < cols@.len() ==> i < (#[trigger] cols@[c]).spec_len(),
    ensures
        r == (row.key() == key_at(cols@, i as int)),
{
    let ncols = cols.len();
    let mut c: usize = 0;
    while c < ncols
        invariant
            c <= ncols,
            ncols == cols@.len(),
            row.groups@.len() == cols@.len(),
            row.validity@.len() == cols@.len(),
            forall|t: int| 0 <= t < cols@.len() ==> (#[trigger] cols@[t]).wf(),
            forall|t: int| 0 <= t < cols@.len() ==> i < (#[trigger] cols@[t]).spec_len(),
            forall|t: int| 0 <= t < c ==> row.key()[t] == key_at(cols@, i as int)[t],
        decreases ncols - c,
    {
        let row_valid = row.validity[c];
        let col = &cols[c];
        let col_valid = col.validity[i];
        if row_valid != col_valid {
            proof {
                assert(row.key()[c as int] != key_at(cols@, i as int)[c as int]);
            }
            return false;
        }
        if row_valid {
            if !value_eq(&row.groups[c], &col.values[i]) {
                proof {
                    assert(row.key()[c as int] != key_at(cols@, i as int)[c as int]);
                }
                return false;
            }
        }
        c += 1;
    }
    proof {
        assert(row.key() =~= key_at(cols@, i as int));
    }
    true
}

/// Whether two stored rows of equally typed payloads hold the same key.
pub fn rows_match(a: &Row, b: &Row) -> (r: bool)
    requires
        a.groups@.len() == b.groups@.len(),
        a.validity@.len() == a.groups@.len(),
        b.validity@.len() == b.groups@.len(),
    ensures
        r == (a.key() == b.key()),
{
    let ncols = a.groups.len();
    let mut c: usize = 0;
    while c < ncols
        invariant
            c <= ncols,
            ncols == a.groups@.len(),
            a.groups@.len() == b.groups@.len(),
            a.validity@.len() == a.groups@.len(),
            b.validity@.len() == b.groups@.len(),
            forall|t: int| 0 <= t < c ==> a.key()[t] == b.key()[t],
        decreases ncols - c,
    {
        let a_valid = a.validity[c];
        let b_valid = b.validity[c];
        if a_valid != b_valid {
            proof {
                assert(a.key()[c as int] != b.key()[c as int]);
            }
            return false;
        }
        if a_valid {
            if !value_eq(&a.groups[c], &b.groups[c]) {
                proof {
                    assert(a.key()[c as int] != b.key()[c as int]);
                }
                return false;
            }
        }
        c += 1;
    }
    proof {
        assert(a.key() =~= b.key());
    }
    true
}

} // verus!
