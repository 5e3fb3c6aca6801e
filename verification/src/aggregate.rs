//! Aggregate function kinds and their per-group states.
//!
//! Every aggregate keeps its state in a fixed two-field record: a 128-bit
//! accumulator and a seen flag. Counting and summing wrap at 128 bits, which
//! keeps accumulation and merging total and associative; the checked decimal
//! sum instead reports `Overflow` as soon as the accumulator leaves the
//! decimal range, so a narrow-precision sum surfaces the error to the caller.

use vstd::prelude::*;

use crate::ErrorKind;
use crate::types::Column;
use crate::types::DataType;
use crate::types::GroupValue;

verus! {

/// Largest value a 128-bit decimal may hold (38 nines).
pub const DECIMAL128_MAX: i128 = 99999999999999999999999999999999999999;

/// Smallest value a 128-bit decimal may hold.
pub const DECIMAL128_MIN: i128 = -99999999999999999999999999999999999999;

/// The aggregate functions the table can drive.
///
/// `HandleCount` counts rows like `Count`, but its state stands for an
/// externally owned handle per group: it reports `needs_drop`, so the
/// finalization or drop sweep must release it exactly once.
#[derive(Clone, Copy, Debug, PartialEq, Eq, Structural)]
pub enum AggregateKind {
    Count,
    HandleCount,
    SumInt64,
    MinInt64,
    MaxInt64,
    SumDecimal128 { check_overflow: bool },
}

/// One per-group aggregate state: accumulator plus a seen flag for the
/// extrema, which have no value before their first non-null argument.
#[derive(Clone, Copy, Debug, PartialEq, Eq, Structural)]
pub struct AggState {
    pub v: i128,
    pub seen: bool,
}

impl AggregateKind {
    /// Whether states of this aggregate own a resource that a sweep must
    /// release.
    pub open spec fn spec_needs_drop(self) -> bool {
        self == AggregateKind::HandleCount
    }

    pub fn needs_drop(&self) -> (r: bool)
        ensures
            r == self.spec_needs_drop(),
    {
        match self {
            AggregateKind::HandleCount => true,
            _ => false,
        }
    }

    /// How many argument columns the aggregate reads: none for the counters,
    /// one for the rest.
    pub open spec fn spec_num_args(self) -> nat {
        match self {
            AggregateKind::Count => 0,
            AggregateKind::HandleCount => 0,
            _ => 1,
        }
    }

    pub fn num_args(&self) -> (n: usize)
        ensures
            n == self.spec_num_args(),
    {
        match self {
            AggregateKind::Count => 0,
            AggregateKind::HandleCount => 0,
            _ => 1,
        }
    }

    /// The column type of the aggregate's argument, where it takes one.
    pub open spec fn spec_arg_type(self) -> DataType {
        match self {
            AggregateKind::SumDecimal128 { .. } => DataType::Decimal128,
            _ => DataType::Int64,
        }
    }

    pub fn arg_type(&self) -> (t: DataType)
        ensures
            t == self.spec_arg_type(),
    {
        match self {
            AggregateKind::SumDecimal128 { .. } => DataType::Decimal128,
            _ => DataType::Int64,
        }
    }

    /// The column type of the aggregate's output.
    pub open spec fn spec_output_type(self) -> DataType {
        match self {
            AggregateKind::SumDecimal128 { .. } => DataType::Decimal128,
            _ => DataType::Int64,
        }
    }
}

/// The state every aggregate starts from.
pub open spec fn spec_agg_init() -> AggState {
    AggState { v: 0, seen: false }
}

pub fn agg_init() -> (s: AggState)
    ensures
        s == spec_agg_init(),
{
    AggState { v: 0, seen: false }
}

/// One accumulation step: fold the argument cell of one row into a state.
///
/// Counters ignore the argument. The value aggregates skip null and
/// wrongly-typed cells. The checked decimal sum reports `Overflow` exactly
/// when the new accumulator leaves the decimal range.
pub open spec fn spec_accumulate(k: AggregateKind, s: AggState, arg: GroupValue) -> Result<
    AggState,
    ErrorKind,
> {
    match k {
        AggregateKind::Count => Ok(AggState { v: s.v.wrapping_add(1), seen: s.seen }),
        AggregateKind::HandleCount => Ok(AggState { v: s.v.wrapping_add(1), seen: s.seen }),
        AggregateKind::SumInt64 => match arg {
            GroupValue::Int64(x) => Ok(
                AggState { v: s.v.wrapping_add(x as i128), seen: s.seen },
            ),
            _ => Ok(s),
        },
        AggregateKind::MinInt64 => match arg {
            GroupValue::Int64(x) => if !s.seen || (x as i128) < s.v {
                Ok(AggState { v: x as i128, seen: true })
            } else {
                Ok(s)
            },
            _ => Ok(s),
        },
        AggregateKind::MaxInt64 => match arg {
            GroupValue::Int64(x) => if !s.seen || (x as i128) > s.v {
                Ok(AggState { v: x as i128, seen: true })
            } else {
                Ok(s)
            },
            _ => Ok(s),
        },
        AggregateKind::SumDecimal128 { check_overflow } => match arg {
            GroupValue::Decimal128(x) => {
                let v2 = s.v.wrapping_add(x);
                if check_overflow && (v2 > DECIMAL128_MAX || v2 < DECIMAL128_MIN) {
                    Err(ErrorKind::Overflow)
                } else {
                    Ok(AggState { v: v2, seen: s.seen })
                }
            },
            _ => Ok(s),
        },
    }
}

/// Accumulate the cell `(valid, v)` into `s`. Counters are called with a
/// cleared flag and a placeholder value, which they ignore.
pub fn accumulate(k: &AggregateKind, s: AggState, valid: bool, v: &crate::types::Value) -> (r:
    Result<AggState, ErrorKind>)
    ensures
        r == spec_accumulate(
            *k,
            s,
            if valid {
                crate::types::value_view(*v)
            } else {
                GroupValue::Null
            },
        ),
{
    match k {
        AggregateKind::Count => Ok(AggState { v: s.v.wrapping_add(1), seen: s.seen }),
        AggregateKind::HandleCount => Ok(AggState { v: s.v.wrapping_add(1), seen: s.seen }),
        AggregateKind::SumInt64 => {
            if valid {
                if let crate::types::Value::Int64(x) = v {
                    return Ok(AggState { v: s.v.wrapping_add(*x as i128), seen: s.seen });
                }
            }
            Ok(s)
        },
        AggregateKind::MinInt64 => {
            if valid {
                if let crate::types::Value::Int64(x) = v {
                    let xv = *x as i128;
                    if !s.seen || xv < s.v {
                        return Ok(AggState { v: xv, seen: true });
                    } else {
                        return Ok(s);
                    }
                }
            }
            Ok(s)
        },
        AggregateKind::MaxInt64 => {
            if valid {
                if let crate::types::Value::Int64(x) = v {
                    let xv = *x as i128;
                    if !s.seen || xv > s.v {
                        return Ok(AggState { v: xv, seen: true });
                    } else {
                        return Ok(s);
                    }
                }
            }
            Ok(s)
        },
        AggregateKind::SumDecimal128 { check_overflow } => {
            if valid {
                if let crate::types::Value::Decimal128(x) = v {
                    let v2 = s.v.wrapping_add(*x);
                    if *check_overflow && (v2 > DECIMAL128_MAX || v2 < DECIMAL128_MIN) {
                        return Err(ErrorKind::Overflow);
                    } else {
                        return Ok(AggState { v: v2, seen: s.seen });
                    }
                }
            }
            Ok(s)
        },
    }
}

/// Combine two states of the same aggregate. For the checked decimal sum the
/// combined accumulator is range-checked like an accumulation step; every
/// other kind is total.
pub open spec fn spec_merge(k: AggregateKind, dst: AggState, src: AggState) -> Result<
    AggState,
    ErrorKind,
> {
    match k {
        AggregateKind::Count => Ok(AggState { v: dst.v.wrapping_add(src.v), seen: false }),
        AggregateKind::HandleCount => Ok(AggState { v: dst.v.wrapping_add(src.v), seen: false }),
        AggregateKind::SumInt64 => Ok(AggState { v: dst.v.wrapping_add(src.v), seen: false }),
        AggregateKind::MinInt64 => if !src.seen {
            Ok(dst)
        } else if !dst.seen {
            Ok(src)
        } else if src.v < dst.v {
            Ok(src)
        } else {
            Ok(dst)
        },
        AggregateKind::MaxInt64 => if !src.seen {
            Ok(dst)
        } else if !dst.seen {
            Ok(src)
        } else if src.v > dst.v {
            Ok(src)
        } else {
            Ok(dst)
        },
        AggregateKind::SumDecimal128 { check_overflow } => {
            let v2 = dst.v.wrapping_add(src.v);
            if check_overflow && (v2 > DECIMAL128_MAX || v2 < DECIMAL128_MIN) {
                Err(ErrorKind::Overflow)
            } else {
                Ok(AggState { v: v2, seen: false })
            }
        },
    }
}

pub fn merge(k: &AggregateKind, dst: AggState, src: AggState) -> (r: Result<AggState, ErrorKind>)
    ensures
        r == spec_merge(*k, dst, src),
{
    match k {
        AggregateKind::Count => Ok(AggState { v: dst.v.wrapping_add(src.v), seen: false }),
        AggregateKind::HandleCount => Ok(AggState { v: dst.v.wrapping_add(src.v), seen: false }),
        AggregateKind::SumInt64 => Ok(AggState { v: dst.v.wrapping_add(src.v), seen: false }),
        AggregateKind::MinInt64 => {
            if !src.seen {
                Ok(dst)
            } else if !dst.seen {
                Ok(src)
            } else if src.v < dst.v {
                Ok(src)
            } else {
                Ok(dst)
            }
        },
        AggregateKind::MaxInt64 => {
            if !src.seen {
                Ok(dst)
            } else if !dst.seen {
                Ok(src)
            } else if src.v > dst.v {
                Ok(src)
            } else {
                Ok(dst)
            }
        },
        AggregateKind::SumDecimal128 { check_overflow } => {
            let v2 = dst.v.wrapping_add(src.v);
            if *check_overflow && (v2 > DECIMAL128_MAX || v2 < DECIMAL128_MIN) {
                Err(ErrorKind::Overflow)
            } else {
                Ok(AggState { v: v2, seen: false })
            }
        },
    }
}

/// The output cell of a finalized state. The extrema yield null before any
/// non-null argument was seen; the counters and the 64-bit sum yield the low
/// 64 bits of their accumulator.
pub open spec fn spec_finalize(k: AggregateKind, s: AggState) -> GroupValue {
    match k {
        AggregateKind::Count => GroupValue::Int64(s.v as i64),
        AggregateKind::HandleCount => GroupValue::Int64(s.v as i64),
        AggregateKind::SumInt64 => GroupValue::Int64(s.v as i64),
        AggregateKind::MinInt64 => if s.seen {
            GroupValue::Int64(s.v as i64)
        } else {
            GroupValue::Null
        },
        AggregateKind::MaxInt64 => if s.seen {
            GroupValue::Int64(s.v as i64)
        } else {
            GroupValue::Null
        },
        AggregateKind::SumDecimal128 { .. } => GroupValue::Decimal128(s.v),
    }
}

/// Append the finalized output of `s` to `out`.
pub fn finalize_state(k: &AggregateKind, s: AggState, out: &mut crate::types::Column)
    requires
        old(out).wf(),
        old(out).data_type == k.spec_output_type(),
    ensures
        final(out).wf(),
        final(out).data_type == old(out).data_type,
        final(out).spec_len() == old(out).spec_len() + 1,
        forall|i: int| 0 <= i < old(out).spec_len() ==> final(out).cell(i) == old(out).cell(i),
        final(out).cell(old(out).spec_len() as int) == spec_finalize(*k, s),
{
    match k {
        AggregateKind::Count => out.push(crate::types::Value::Int64(s.v as i64)),
        AggregateKind::HandleCount => out.push(crate::types::Value::Int64(s.v as i64)),
        AggregateKind::SumInt64 => out.push(crate::types::Value::Int64(s.v as i64)),
        AggregateKind::MinInt64 => {
            if s.seen {
                out.push(crate::types::Value::Int64(s.v as i64));
            } else {
                out.push_null();
            }
        },
        AggregateKind::MaxInt64 => {
            if s.seen {
                out.push(crate::types::Value::Int64(s.v as i64));
            } else {
                out.push_null();
            }
        },
        AggregateKind::SumDecimal128 { .. } => out.push(crate::types::Value::Decimal128(s.v)),
    }
}

/// The kinds whose merge never fails: every kind but the checked decimal sum.
pub open spec fn merge_total(k: AggregateKind) -> bool {
    k != (AggregateKind::SumDecimal128 { check_overflow: true })
}

/// A total merge always answers `Ok`.
pub proof fn lemma_merge_total_is_ok(k: AggregateKind, a: AggState, b: AggState)
    requires
        merge_total(k),
    ensures
        spec_merge(k, a, b) is Ok,
{
}

/// Merging states of a total kind is associative: combining per-worker
/// tables pairwise gives the same state in whichever order the pairs are
/// taken.
pub proof fn lemma_merge_associative(k: AggregateKind, a: AggState, b: AggState, c: AggState)
    requires
        merge_total(k),
    ensures
        spec_merge(k, spec_merge(k, a, b).unwrap(), c) == spec_merge(
            k,
            a,
            spec_merge(k, b, c).unwrap(),
        ),
{
}

} // verus!
