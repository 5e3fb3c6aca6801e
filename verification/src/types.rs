//! Typed columns and scalar values.
//!
//! A `Column` is a length-tagged, typed sequence of values with a validity
//! flag per row; a cleared flag means the cell is null. Group keys are read
//! cell-wise across the group columns, with nulls-equal semantics: two null
//! cells in the same column position are equal, a null and a non-null are
//! not. The ghost type `GroupValue` is the mathematical form of one cell.

use vstd::prelude::*;

verus! {

/// The value types a group column may carry.
#[derive(Clone, Copy, Debug, PartialEq, Eq, Structural)]
pub enum DataType {
    Boolean,
    Int64,
    Decimal128,
    Bytes,
    Date,
    Timestamp,
}

/// One typed scalar value. `Date` counts days, `Timestamp` microseconds,
/// both from the Unix epoch. `Decimal128` is a scaled 128-bit integer.
#[derive(Clone, Debug)]
pub enum Value {
    Boolean(bool),
    Int64(i64),
    Decimal128(i128),
    Bytes(Vec<u8>),
    Date(i32),
    Timestamp(i64),
}

/// The mathematical form of one column cell: a typed value, or null.
pub enum GroupValue {
    Null,
    Boolean(bool),
    Int64(i64),
    Decimal128(i128),
    Bytes(Seq<u8>),
    Date(i32),
    Timestamp(i64),
}

/// What a `Value` denotes.
pub open spec fn value_view(v: Value) -> GroupValue {
    match v {
        Value::Boolean(b) => GroupValue::Boolean(b),
        Value::Int64(x) => GroupValue::Int64(x),
        Value::Decimal128(x) => GroupValue::Decimal128(x),
        Value::Bytes(b) => GroupValue::Bytes(b@),
        Value::Date(x) => GroupValue::Date(x),
        Value::Timestamp(x) => GroupValue::Timestamp(x),
    }
}

/// Whether a value belongs to a column of the given type.
pub open spec fn value_fits(v: Value, t: DataType) -> bool {
    match v {
        Value::Boolean(_) => t == DataType::Boolean,
        Value::Int64(_) => t == DataType::Int64,
        Value::Decimal128(_) => t == DataType::Decimal128,
        Value::Bytes(_) => t == DataType::Bytes,
        Value::Date(_) => t == DataType::Date,
        Value::Timestamp(_) => t == DataType::Timestamp,
    }
}

/// The placeholder stored under a null cell; never observable through a view.
pub fn default_value(t: DataType) -> (r: Value)
    ensures
        value_fits(r, t),
{
    match t {
        DataType::Boolean => Value::Boolean(false),
        DataType::Int64 => Value::Int64(0),
        DataType::Decimal128 => Value::Decimal128(0),
        DataType::Bytes => Value::Bytes(Vec::new()),
        DataType::Date => Value::Date(0),
        DataType::Timestamp => Value::Timestamp(0),
    }
}

/// Byte-wise equality of two byte vectors.
pub fn bytes_eq(a: &Vec<u8>, b: &Vec<u8>) -> (r: bool)
    ensures
        r == (a@ == b@),
{
    if a.len() != b.len() {
        assert(a@ != b@);
        return false;
    }
    let n = a.len();
    let mut i: usize = 0;
    while i < n
        invariant
            i <= n,
            n == a@.len(),
            n == b@.len(),
            forall|k: int| 0 <= k < i ==> a@[k] == b@[k],
        decreases n - i,
    {
        if a[i] != b[i] {
            return false;
        }
        i += 1;
    }
    proof {
        assert(a@ =~= b@);
    }
    true
}

/// Value-wise equality, the equality a group key is built from.
pub fn value_eq(a: &Value, b: &Value) -> (r: bool)
    ensures
        r == (value_view(*a) == value_view(*b)),
{
    match (a, b) {
        (Value::Boolean(x), Value::Boolean(y)) => x == y,
        (Value::Int64(x), Value::Int64(y)) => x == y,
        (Value::Decimal128(x), Value::Decimal128(y)) => x == y,
        (Value::Bytes(x), Value::Bytes(y)) => bytes_eq(x, y),
        (Value::Date(x), Value::Date(y)) => x == y,
        (Value::Timestamp(x), Value::Timestamp(y)) => x == y,
        _ => false,
    }
}

/// A deep copy that denotes the same value.
pub fn copy_value(v: &Value) -> (r: Value)
    ensures
        value_view(r) == value_view(*v),
        forall|t: DataType| value_fits(*v, t) ==> value_fits(r, t),
{
    match v {
        Value::Boolean(b) => Value::Boolean(*b),
        Value::Int64(x) => Value::Int64(*x),
        Value::Decimal128(x) => Value::Decimal128(*x),
        Value::Bytes(b) => {
            let copy = b.clone();
            proof {
                assert(copy@ =~= b@);
            }
            Value::Bytes(copy)
        },
        Value::Date(x) => Value::Date(*x),
        Value::Timestamp(x) => Value::Timestamp(*x),
    }
}

/// A typed column: one value and one validity flag per row.
#[derive(Clone, Debug)]
pub struct Column {
    pub data_type: DataType,
    pub values: Vec<Value>,
    pub validity: Vec<bool>,
}

impl Column {
    /// Shape and typing of the column.
    pub open spec fn wf(self) -> bool {
        &&& self.validity@.len() == self.values@.len()
        &&& forall|i: int|
            0 <= i < self.values@.len() ==> value_fits(#[trigger] self.values@[i], self.data_type)
    }

    pub open spec fn spec_len(self) -> nat {
        self.values@.len()
    }

    /// The cell at row `i`: the stored value, or null where validity is clear.
    pub open spec fn cell(self, i: int) -> GroupValue {
        if !self.validity@[i] {
            GroupValue::Null
        } else {
            value_view(self.values@[i])
        }
    }

    /// An empty column of the given type.
    pub fn new(data_type: DataType) -> (r: Self)
        ensures
            r.wf(),
            r.data_type == data_type,
            r.spec_len() == 0,
    {
        Column { data_type, values: Vec::new(), validity: Vec::new() }
    }

    pub fn len(&self) -> (n: usize)
        ensures
            n == self.spec_len(),
    {
        self.values.len()
    }

    /// Append a non-null value.
    pub fn push(&mut self, v: Value)
        requires
            old(self).wf(),
            value_fits(v, old(self).data_type),
        ensures
            final(self).wf(),
            final(self).data_type == old(self).data_type,
            final(self).spec_len() == old(self).spec_len() + 1,
            forall|i: int|
                0 <= i < old(self).spec_len() ==> final(self).cell(i) == old(self).cell(i),
            final(self).cell(old(self).spec_len() as int) == value_view(v),
    {
        self.values.push(v);
        self.validity.push(true);
    }

    /// Append a null cell.
    pub fn push_null(&mut self)
        requires
            old(self).wf(),
        ensures
            final(self).wf(),
            final(self).data_type == old(self).data_type,
            final(self).spec_len() == old(self).spec_len() + 1,
            forall|i: int|
                0 <= i < old(self).spec_len() ==> final(self).cell(i) == old(self).cell(i),
            final(self).cell(old(self).spec_len() as int) == GroupValue::Null,
    {
        let v = default_value(self.data_type);
        self.values.push(v);
        self.validity.push(false);
    }
}

/// The composite group key of row `i` across the group columns.
pub open spec fn key_at(cols: Seq<Column>, i: int) -> Seq<GroupValue> {
    Seq::new(cols.len(), |c: int| cols[c].cell(i))
}

} // verus!
