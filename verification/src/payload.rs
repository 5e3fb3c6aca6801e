//! Paged, row-major storage of the grouped tuples.
//!
//! One row holds the null bits and values of its group key, the key's
//! 64-bit hash, and the arena address of its aggregate states. Rows are
//! never moved once appended, so a directory entry can name a row by page
//! number and offset within the page for the table's whole lifetime.

use vstd::prelude::*;

use crate::ErrorKind;
use crate::aggregate::AggState;
use crate::aggregate::AggregateKind;
use crate::aggregate::spec_accumulate;
use crate::aggregate::spec_agg_init;
use crate::arena::Arena;
use crate::hash::spec_hash_key;
use crate::types::Column;
use crate::types::DataType;
use crate::types::GroupValue;
use crate::types::Value;
use crate::types::copy_value;
use crate::types::key_at;
use crate::types::value_fits;
use crate::types::value_view;

verus! {

/// Rows per payload page: fixed so a page stays cache-friendly and an
/// offset within a page always fits the directory's 16-bit field.
pub const ROWS_PER_PAGE: usize = 256;

/// Hard bound on stored groups, far below any index arithmetic overflow.
pub const MAX_ROWS: usize = 0x100_0000;

/// Hard bound on aggregates per table.
pub const MAX_AGGREGATES: usize = 64;

/// Hard bound on group columns per table.
pub const MAX_GROUP_COLUMNS: usize = 4096;

/// One grouped tuple.
pub struct Row {
    pub validity: Vec<bool>,
    pub groups: Vec<Value>,
    pub hash: u64,
    pub state_addr: usize,
}

impl Row {
    /// The composite group key this row stores.
    pub open spec fn key(self) -> Seq<GroupValue> {
        Seq::new(
            self.groups@.len(),
            |c: int|
                if !self.validity@[c] {
                    GroupValue::Null
                } else {
                    value_view(self.groups@[c])
                },
        )
    }

    /// Shape of a row under the table's group column types: arity, typing,
    /// and a stored hash that really is the hash of the stored key.
    pub open spec fn shape_wf(self, group_types: Seq<DataType>) -> bool {
        &&& self.groups@.len() == group_types.len()
        &&& self.validity@.len() == group_types.len()
        &&& forall|c: int|
            0 <= c < group_types.len() ==> value_fits(#[trigger] self.groups@[c], group_types[c])
        &&& self.hash == spec_hash_key(self.key())
    }
}

/// Whether a batch of group columns fits a table of the given column types,
/// with every column `n` rows long.
pub open spec fn cols_match(cols: Seq<Column>, group_types: Seq<DataType>, n: nat) -> bool {
    &&& cols.len() == group_types.len()
    &&& forall|c: int| 0 <= c < cols.len() ==> (#[trigger] cols[c]).wf()
    &&& forall|c: int| 0 <= c < cols.len() ==> (#[trigger] cols[c]).data_type == group_types[c]
    &&& forall|c: int| 0 <= c < cols.len() ==> (#[trigger] cols[c]).spec_len() == n
}

/// The argument cell aggregate `j` reads for batch row `i`: the first of its
/// argument columns, or null for an aggregate that takes none.
pub open spec fn arg_at(params: Seq<Column>, i: int) -> GroupValue {
    if params.len() == 0 {
        GroupValue::Null
    } else {
        params[0].cell(i)
    }
}

/// Fold of one aggregate over batch rows `[0, n)`: row `i` updates the state
/// slot `places[i] + j`. The first failing step stops the fold; the slots
/// already written keep their values.
pub open spec fn spec_accum_rows(
    k: AggregateKind,
    slots: Seq<AggState>,
    places: Seq<usize>,
    j: int,
    params: Seq<Column>,
    n: int,
) -> (Seq<AggState>, Option<ErrorKind>)
    decreases n,
{
    if n <= 0 {
        (slots, None)
    } else {
        let (s1, e) = spec_accum_rows(k, slots, places, j, params, n - 1);
        if e is Some {
            (s1, e)
        } else {
            let p = places[n - 1] + j;
            match spec_accumulate(k, s1[p], arg_at(params, n - 1)) {
                Ok(ns) => (s1.update(p, ns), None),
                Err(er) => (s1, Some(er)),
            }
        }
    }
}

/// Once a step fails, every longer fold answers the same pair.
pub proof fn lemma_accum_rows_stops(
    k: AggregateKind,
    slots: Seq<AggState>,
    places: Seq<usize>,
    j: int,
    params: Seq<Column>,
    m: int,
    n: int,
)
    requires
        m <= n,
        spec_accum_rows(k, slots, places, j, params, m).1 is Some,
    ensures
        spec_accum_rows(k, slots, places, j, params, n) == spec_accum_rows(
            k,
            slots,
            places,
            j,
            params,
            m,
        ),
    decreases n,
{
    if m < n {
        lemma_accum_rows_stops(k, slots, places, j, params, m, n - 1);
    }
}

/// Fold of the first `m` aggregates over the whole batch, aggregate-major:
/// aggregate `j` folds all rows before aggregate `j + 1` starts. The first
/// failing aggregate stops the fold.
pub open spec fn spec_accum_batch(
    aggrs: Seq<AggregateKind>,
    slots: Seq<AggState>,
    places: Seq<usize>,
    params: Seq<Vec<Column>>,
    n: int,
    m: int,
) -> (Seq<AggState>, Option<ErrorKind>)
    decreases m,
{
    if m <= 0 {
        (slots, None)
    } else {
        let (s1, e) = spec_accum_batch(aggrs, slots, places, params, n, m - 1);
        if e is Some {
            (s1, e)
        } else {
            spec_accum_rows(aggrs[m - 1], s1, places, m - 1, params[m - 1]@, n)
        }
    }
}

/// Once an aggregate fails, every longer fold answers the same pair.
pub proof fn lemma_accum_batch_stops(
    aggrs: Seq<AggregateKind>,
    slots: Seq<AggState>,
    places: Seq<usize>,
    params: Seq<Vec<Column>>,
    n: int,
    m0: int,
    m: int,
)
    requires
        m0 <= m,
        spec_accum_batch(aggrs, slots, places, params, n, m0).1 is Some,
    ensures
        spec_accum_batch(aggrs, slots, places, params, n, m) == spec_accum_batch(
            aggrs,
            slots,
            places,
            params,
            n,
            m0,
        ),
    decreases m,
{
    if m0 < m {
        lemma_accum_batch_stops(aggrs, slots, places, params, n, m0, m - 1);
    }
}

/// An aggregate that is not the checked decimal sum accumulates without
/// error over any rows.
pub proof fn lemma_accum_rows_total(
    k: AggregateKind,
    slots: Seq<AggState>,
    places: Seq<usize>,
    j: int,
    params: Seq<Column>,
    n: int,
)
    requires
        k != (AggregateKind::SumDecimal128 { check_overflow: true }),
    ensures
        spec_accum_rows(k, slots, places, j, params, n).1 is None,
    decreases n,
{
    if n > 0 {
        lemma_accum_rows_total(k, slots, places, j, params, n - 1);
    }
}

/// A batch whose aggregates all merge and accumulate totally never fails.
pub proof fn lemma_accum_batch_total(
    aggrs: Seq<AggregateKind>,
    slots: Seq<AggState>,
    places: Seq<usize>,
    params: Seq<Vec<Column>>,
    n: int,
    m: int,
)
    requires
        forall|j: int|
            0 <= j < m ==> aggrs[j] != (AggregateKind::SumDecimal128 { check_overflow: true }),
    ensures
        spec_accum_batch(aggrs, slots, places, params, n, m).1 is None,
    decreases m,
{
    if m > 0 {
        lemma_accum_batch_total(aggrs, slots, places, params, n, m - 1);
        let (s1, e) = spec_accum_batch(aggrs, slots, places, params, n, m - 1);
        lemma_accum_rows_total(aggrs[m - 1], s1, places, m - 1, params[m - 1]@, n);
    }
}

/// An empty batch folds to the unchanged slots.
pub proof fn lemma_accum_batch_empty(
    aggrs: Seq<AggregateKind>,
    slots: Seq<AggState>,
    places: Seq<usize>,
    params: Seq<Vec<Column>>,
    m: int,
)
    ensures
        spec_accum_batch(aggrs, slots, places, params, 0, m) == (
            slots,
            Option::<ErrorKind>::None,
        ),
    decreases m,
{
    if m > 0 {
        lemma_accum_batch_empty(aggrs, slots, places, params, m - 1);
    }
}

/// The only error an accumulation step raises is `Overflow`.
pub proof fn lemma_accum_rows_err_overflow(
    k: AggregateKind,
    slots: Seq<AggState>,
    places: Seq<usize>,
    j: int,
    params: Seq<Column>,
    n: int,
)
    ensures
        spec_accum_rows(k, slots, places, j, params, n).1 is Some ==> spec_accum_rows(
            k,
            slots,
            places,
            j,
            params,
            n,
        ).1 == Option::Some(ErrorKind::Overflow),
    decreases n,
{
    if n > 0 {
        lemma_accum_rows_err_overflow(k, slots, places, j, params, n - 1);
    }
}

/// The only error a batch fold raises is `Overflow`.
pub proof fn lemma_accum_batch_err_overflow(
    aggrs: Seq<AggregateKind>,
    slots: Seq<AggState>,
    places: Seq<usize>,
    params: Seq<Vec<Column>>,
    n: int,
    m: int,
)
    ensures
        spec_accum_batch(aggrs, slots, places, params, n, m).1 is Some ==> spec_accum_batch(
            aggrs,
            slots,
            places,
            params,
            n,
            m,
        ).1 == Option::Some(ErrorKind::Overflow),
    decreases m,
{
    if m > 0 {
        lemma_accum_batch_err_overflow(aggrs, slots, places, params, n, m - 1);
        let (s1, e) = spec_accum_batch(aggrs, slots, places, params, n, m - 1);
        if e is None {
            lemma_accum_rows_err_overflow(aggrs[m - 1], s1, places, m - 1, params[m - 1]@, n);
        }
    }
}

/// Fold of merging one group's states: aggregate `j` merges the source
/// state at `obase + j` into the slot `base + j`. The first failing merge
/// stops the fold; the slots already written keep their values.
pub open spec fn spec_merge_row(
    aggrs: Seq<AggregateKind>,
    slots: Seq<AggState>,
    base: int,
    src: Seq<AggState>,
    obase: int,
    m: int,
) -> (Seq<AggState>, Option<ErrorKind>)
    decreases m,
{
    if m <= 0 {
        (slots, None)
    } else {
        let (s1, e) = spec_merge_row(aggrs, slots, base, src, obase, m - 1);
        if e is Some {
            (s1, e)
        } else {
            match crate::aggregate::spec_merge(aggrs[m - 1], s1[base + m - 1], src[obase + m - 1]) {
                Ok(ns) => (s1.update(base + m - 1, ns), None),
                Err(er) => (s1, Some(er)),
            }
        }
    }
}

/// Once a merge fails, every longer fold answers the same pair.
pub proof fn lemma_merge_row_stops(
    aggrs: Seq<AggregateKind>,
    slots: Seq<AggState>,
    base: int,
    src: Seq<AggState>,
    obase: int,
    m0: int,
    m: int,
)
    requires
        m0 <= m,
        spec_merge_row(aggrs, slots, base, src, obase, m0).1 is Some,
    ensures
        spec_merge_row(aggrs, slots, base, src, obase, m) == spec_merge_row(
            aggrs,
            slots,
            base,
            src,
            obase,
            m0,
        ),
    decreases m,
{
    if m0 < m {
        lemma_merge_row_stops(aggrs, slots, base, src, obase, m0, m - 1);
    }
}

/// The only error a merge fold raises is `Overflow`, and a fold over
/// total aggregate kinds raises none.
pub proof fn lemma_merge_row_errs(
    aggrs: Seq<AggregateKind>,
    slots: Seq<AggState>,
    base: int,
    src: Seq<AggState>,
    obase: int,
    m: int,
)
    ensures
        spec_merge_row(aggrs, slots, base, src, obase, m).1 is Some ==> spec_merge_row(
            aggrs,
            slots,
            base,
            src,
            obase,
            m,
        ).1 == Option::Some(ErrorKind::Overflow),
        (forall|j: int|
            0 <= j < m ==> aggrs[j] != (AggregateKind::SumDecimal128 { check_overflow: true }))
            ==> spec_merge_row(aggrs, slots, base, src, obase, m).1 is None,
    decreases m,
{
    if m > 0 {
        lemma_merge_row_errs(aggrs, slots, base, src, obase, m - 1);
    }
}

/// A successful merge fold acts pointwise: slot `base + j` becomes the
/// merge of its old value with the source state, and no other slot moves.
pub proof fn lemma_merge_row_pointwise(
    aggrs: Seq<AggregateKind>,
    slots: Seq<AggState>,
    base: int,
    src: Seq<AggState>,
    obase: int,
    m: int,
)
    requires
        spec_merge_row(aggrs, slots, base, src, obase, m).1 is None,
        0 <= base,
        base + m <= slots.len(),
    ensures
        forall|a: int|
            0 <= a < slots.len() && !(base <= a < base + m) ==> spec_merge_row(
                aggrs,
                slots,
                base,
                src,
                obase,
                m,
            ).0[#[trigger] (a * 1)] == slots[a],
        forall|j: int|
            0 <= j < m ==> spec_merge_row(aggrs, slots, base, src, obase, m).0[base + #[trigger] (
            j * 1)] == crate::aggregate::spec_merge(
                aggrs[j],
                slots[base + j],
                src[obase + j],
            ).unwrap(),
        spec_merge_row(aggrs, slots, base, src, obase, m).0.len() == slots.len(),
    decreases m,
{
    if m > 0 {
        let (s1, e) = spec_merge_row(aggrs, slots, base, src, obase, m - 1);
        if e is Some {
            assert(spec_merge_row(aggrs, slots, base, src, obase, m).1 is Some);
        }
        lemma_merge_row_pointwise(aggrs, slots, base, src, obase, m - 1);
        assert(s1[(base + m - 1) * 1] == slots[base + m - 1]);
    }
}

/// Distinct rows own disjoint state blocks in the arena.
pub proof fn lemma_state_blocks_disjoint(r1: int, r2: int, j1: int, j2: int, g: int)
    requires
        r1 != r2,
        r1 >= 0,
        r2 >= 0,
        0 <= j1 < g,
        0 <= j2 < g,
    ensures
        r1 * g + j1 != r2 * g + j2,
{
    assert(r1 * g + j1 != r2 * g + j2) by (nonlinear_arith)
        requires
            r1 != r2,
            r1 >= 0,
            r2 >= 0,
            0 <= j1 < g,
            0 <= j2 < g,
    ;
}

/// The grouped tuples of one table.
pub struct Payload {
    pub group_types: Vec<DataType>,
    pub aggrs: Vec<AggregateKind>,
    pub rows: Vec<Row>,
    pub arena: Arena,
    pub row_per_page: usize,
    pub state_addr_offsets: Vec<usize>,
}

impl Payload {
    /// Structural invariant: rows are shaped by the column types, states are
    /// allocated back to back in the arena (row `r` owns the run starting at
    /// `r * aggrs.len()`), and all counts stay under the hard bounds.
    pub open spec fn wf(self) -> bool {
        &&& self.group_types@.len() <= MAX_GROUP_COLUMNS
        &&& self.aggrs@.len() <= MAX_AGGREGATES
        &&& self.rows@.len() <= MAX_ROWS
        &&& self.row_per_page == ROWS_PER_PAGE
        &&& self.state_addr_offsets@.len() == self.aggrs@.len()
        &&& forall|j: int|
            0 <= j < self.aggrs@.len() ==> #[trigger] self.state_addr_offsets@[j] == j
        &&& forall|r: int|
            0 <= r < self.rows@.len() ==> (#[trigger] self.rows@[r]).shape_wf(self.group_types@)
        &&& forall|r: int|
            0 <= r < self.rows@.len() ==> (#[trigger] self.rows@[r]).state_addr == r
                * self.aggrs@.len()
        &&& self.arena@.len() == self.rows@.len() * self.aggrs@.len()
    }

    pub open spec fn spec_len(self) -> nat {
        self.rows@.len()
    }

    pub fn new(arena: Arena, group_types: Vec<DataType>, aggrs: Vec<AggregateKind>) -> (r: Self)
        requires
            arena@.len() == 0,
            group_types@.len() <= MAX_GROUP_COLUMNS,
            aggrs@.len() <= MAX_AGGREGATES,
        ensures
            r.wf(),
            r.spec_len() == 0,
            r.group_types == group_types,
            r.aggrs == aggrs,
    {
        let n_aggr = aggrs.len();
        let mut offsets: Vec<usize> = Vec::new();
        let mut j: usize = 0;
        while j < n_aggr
            invariant
                j <= n_aggr,
                offsets@.len() == j,
                forall|t: int| 0 <= t < j ==> #[trigger] offsets@[t] == t,
            decreases n_aggr - j,
        {
            offsets.push(j);
            j += 1;
        }
        Payload {
            group_types,
            aggrs,
            rows: Vec::new(),
            arena,
            row_per_page: ROWS_PER_PAGE,
            state_addr_offsets: offsets,
        }
    }

    pub fn len(&self) -> (n: usize)
        ensures
            n == self.spec_len(),
    {
        self.rows.len()
    }

    /// The row named by its index, reconstructed through its page number
    /// and offset within the page. Rows never move once appended, so the
    /// reconstruction is the identity for the table's whole lifetime.
    pub fn get_row(&self, row: usize) -> (r: &Row)
        requires
            self.wf(),
            row < self.spec_len(),
        ensures
            *r == self.rows@[row as int],
    {
        let page = row / ROWS_PER_PAGE;
        let offset = row % ROWS_PER_PAGE;
        &self.rows[page * ROWS_PER_PAGE + offset]
    }

    /// Append one grouped tuple taken from batch row `i` of the group
    /// columns, and allocate its freshly initialized aggregate states.
    pub fn append_row(&mut self, cols: &Vec<Column>, i: usize, hash: u64) -> (row_nr: usize)
        requires
            old(self).wf(),
            cols_match(cols@, old(self).group_types@, old(self).batch_len(cols@)),
            forall|c: int| 0 <= c < cols@.len() ==> i < (#[trigger] cols@[c]).spec_len(),
            hash == spec_hash_key(key_at(cols@, i as int)),
            old(self).spec_len() < MAX_ROWS,
        ensures
            final(self).wf(),
            final(self).group_types == old(self).group_types,
            final(self).aggrs == old(self).aggrs,
            final(self).row_per_page == old(self).row_per_page,
            final(self).state_addr_offsets == old(self).state_addr_offsets,
            row_nr == old(self).spec_len(),
            final(self).spec_len() == old(self).spec_len() + 1,
            forall|r: int|
                0 <= r < old(self).rows@.len() ==> final(self).rows@[r] == old(self).rows@[r],
            final(self).rows@[row_nr as int].key() == key_at(cols@, i as int),
            final(self).rows@[row_nr as int].hash == hash,
            final(self).arena@ == old(self).arena@ + Seq::new(
                old(self).aggrs@.len(),
                |t: int| spec_agg_init(),
            ),
    {
        let ncols = cols.len();
        let mut validity: Vec<bool> = Vec::new();
        let mut groups: Vec<Value> = Vec::new();
        let mut c: usize = 0;
        while c < ncols
            invariant
                c <= ncols,
                ncols == cols@.len(),
                cols_match(cols@, self.group_types@, self.batch_len(cols@)),
                forall|t: int| 0 <= t < cols@.len() ==> i < (#[trigger] cols@[t]).spec_len(),
                validity@.len() == c,
                groups@.len() == c,
                forall|t: int|
                    0 <= t < c ==> #[trigger] validity@[t] == cols@[t].validity@[i as int],
                forall|t: int|
                    0 <= t < c ==> value_view(#[trigger] groups@[t]) == value_view(
                        cols@[t].values@[i as int],
                    ),
                forall|t: int|
                    0 <= t < c ==> value_fits(#[trigger] groups@[t], self.group_types@[t]),
                self == old(self),
            decreases ncols - c,
        {
            let col = &cols[c];
            validity.push(col.validity[i]);
            groups.push(copy_value(&col.values[i]));
            c += 1;
        }
        let n_aggr = self.aggrs.len();
        proof {
            let a = self.rows@.len() as int;
            let g = self.aggrs@.len() as int;
            assert(a * g <= 0x100_0000 * 64) by (nonlinear_arith)
                requires
                    0 <= a <= 0x100_0000,
                    0 <= g <= 64,
            ;
        }
        let state_addr = self.arena.reserve_states(n_aggr);
        let row = Row { validity, groups, hash, state_addr };
        proof {
            assert(row.key() =~= key_at(cols@, i as int));
        }
        let row_nr = self.rows.len();
        self.rows.push(row);
        proof {
            let a = old(self).rows@.len() as int;
            let g = old(self).aggrs@.len() as int;
            assert((a + 1) * g == a * g + g) by (nonlinear_arith);
        }
        row_nr
    }

    /// The common length of the batch columns (0 where there are none).
    pub open spec fn batch_len(self, cols: Seq<Column>) -> nat {
        if cols.len() == 0 {
            0
        } else {
            cols[0].spec_len()
        }
    }

    /// Append a copy of a row of another payload with the same column types,
    /// allocating freshly initialized states for it.
    pub fn append_row_copy(&mut self, src: &Row) -> (row_nr: usize)
        requires
            old(self).wf(),
            src.shape_wf(old(self).group_types@),
            old(self).spec_len() < MAX_ROWS,
        ensures
            final(self).wf(),
            final(self).group_types == old(self).group_types,
            final(self).aggrs == old(self).aggrs,
            final(self).row_per_page == old(self).row_per_page,
            final(self).state_addr_offsets == old(self).state_addr_offsets,
            row_nr == old(self).spec_len(),
            final(self).spec_len() == old(self).spec_len() + 1,
            forall|r: int|
                0 <= r < old(self).rows@.len() ==> final(self).rows@[r] == old(self).rows@[r],
            final(self).rows@[row_nr as int].key() == src.key(),
            final(self).rows@[row_nr as int].hash == src.hash,
            final(self).arena@ == old(self).arena@ + Seq::new(
                old(self).aggrs@.len(),
                |t: int| spec_agg_init(),
            ),
    {
        let ncols = src.groups.len();
        let mut validity: Vec<bool> = Vec::new();
        let mut groups: Vec<Value> = Vec::new();
        let mut c: usize = 0;
        while c < ncols
            invariant
                c <= ncols,
                ncols == src.groups@.len(),
                src.shape_wf(self.group_types@),
                validity@.len() == c,
                groups@.len() == c,
                forall|t: int| 0 <= t < c ==> #[trigger] validity@[t] == src.validity@[t],
                forall|t: int|
                    0 <= t < c ==> value_view(#[trigger] groups@[t]) == value_view(src.groups@[t]),
                forall|t: int|
                    0 <= t < c ==> value_fits(#[trigger] groups@[t], self.group_types@[t]),
                self == old(self),
            decreases ncols - c,
        {
            validity.push(src.validity[c]);
            groups.push(copy_value(&src.groups[c]));
            c += 1;
        }
        let n_aggr = self.aggrs.len();
        proof {
            let a = self.rows@.len() as int;
            let g = self.aggrs@.len() as int;
            assert(a * g <= 0x100_0000 * 64) by (nonlinear_arith)
                requires
                    0 <= a <= 0x100_0000,
                    0 <= g <= 64,
            ;
        }
        let state_addr = self.arena.reserve_states(n_aggr);
        let row = Row { validity, groups, hash: src.hash, state_addr };
        proof {
            assert(row.key() =~= src.key());
        }
        let row_nr = self.rows.len();
        self.rows.push(row);
        proof {
            let a = old(self).rows@.len() as int;
            let g = old(self).aggrs@.len() as int;
            assert((a + 1) * g == a * g + g) by (nonlinear_arith);
        }
        row_nr
    }

    /// Run aggregate `j` over batch rows `[0, n)`: row `i` folds its argument
    /// cell into the state slot `places[i] + j`. Stops at the first failing
    /// step; the error is returned and the earlier updates stay.
    pub fn accumulate_aggregate(
        &mut self,
        j: usize,
        places: &Vec<usize>,
        params_j: &Vec<Column>,
        n: usize,
    ) -> (r: Result<(), ErrorKind>)
        requires
            old(self).wf(),
            j < old(self).aggrs@.len(),
            places@.len() >= n,
            forall|i: int| 0 <= i < n ==> (#[trigger] places@[i]) + j < old(self).arena@.len(),
            params_j@.len() == 0 || (params_j@[0].wf() && params_j@[0].spec_len() >= n),
        ensures
            final(self).wf(),
            final(self).group_types == old(self).group_types,
            final(self).aggrs == old(self).aggrs,
            final(self).rows == old(self).rows,
            final(self).row_per_page == old(self).row_per_page,
            final(self).state_addr_offsets == old(self).state_addr_offsets,
            ({
                let (slots, e) = spec_accum_rows(
                    old(self).aggrs@[j as int],
                    old(self).arena@,
                    places@,
                    j as int,
                    params_j@,
                    n as int,
                );
                &&& final(self).arena@ == slots
                &&& (match e {
                    Option::None => r is Ok,
                    Option::Some(er) => r == Result::<(), ErrorKind>::Err(er),
                })
            }),
    {
        proof {
            let a = self.rows@.len() as int;
            let g = self.aggrs@.len() as int;
            assert(a * g <= 0x100_0000 * 64) by (nonlinear_arith)
                requires
                    0 <= a <= 0x100_0000,
                    0 <= g <= 64,
            ;
        }
        let kind = self.aggrs[j];
        let has_arg = params_j.len() > 0;
        let dummy = Value::Int64(0);
        let mut i: usize = 0;
        while i < n
            invariant
                i <= n,
                self.wf(),
                self.group_types == old(self).group_types,
                self.aggrs == old(self).aggrs,
                self.rows == old(self).rows,
                self.row_per_page == old(self).row_per_page,
                self.state_addr_offsets == old(self).state_addr_offsets,
                j < self.aggrs@.len(),
                kind == self.aggrs@[j as int],
                has_arg == (params_j@.len() > 0),
                places@.len() >= n,
                forall|t: int| 0 <= t < n ==> (#[trigger] places@[t]) + j < old(self).arena@.len(),
                self.arena@.len() == old(self).arena@.len(),
                old(self).arena@.len() <= 0x4000_0000,
                params_j@.len() == 0 || (params_j@[0].wf() && params_j@[0].spec_len() >= n),
                spec_accum_rows(
                    kind,
                    old(self).arena@,
                    places@,
                    j as int,
                    params_j@,
                    i as int,
                ) == (self.arena@, Option::<ErrorKind>::None),
            decreases n - i,
        {
            let p = places[i] + j;
            let s = self.arena.get(p);
            let step = if has_arg {
                let col = &params_j[0];
                crate::aggregate::accumulate(&kind, s, col.validity[i], &col.values[i])
            } else {
                crate::aggregate::accumulate(&kind, s, false, &dummy)
            };
            match step {
                Ok(ns) => {
                    self.arena.set(p, ns);
                },
                Err(er) => {
                    proof {
                        lemma_accum_rows_stops(
                            kind,
                            old(self).arena@,
                            places@,
                            j as int,
                            params_j@,
                            i + 1,
                            n as int,
                        );
                    }
                    return Err(er);
                },
            }
            i += 1;
        }
        Ok(())
    }
}

} // verus!
