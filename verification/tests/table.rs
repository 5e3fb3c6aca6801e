use agg_hashtable::ErrorKind;
use agg_hashtable::aggregate::AggregateKind;
use agg_hashtable::aggregate::DECIMAL128_MAX;
use agg_hashtable::arena::Arena;
use agg_hashtable::hashtable::AggregateHashTable;
use agg_hashtable::probe_state::ProbeState;
use agg_hashtable::types::Column;
use agg_hashtable::types::DataType;
use agg_hashtable::types::Value;

fn int64_col(vals: &[i64]) -> Column {
    let mut c = Column::new(DataType::Int64);
    for v in vals {
        c.push(Value::Int64(*v));
    }
    c
}

fn int64_col_opt(vals: &[Option<i64>]) -> Column {
    let mut c = Column::new(DataType::Int64);
    for v in vals {
        match v {
            Some(x) => c.push(Value::Int64(*x)),
            None => c.push_null(),
        }
    }
    c
}

fn dec_col(vals: &[i128]) -> Column {
    let mut c = Column::new(DataType::Decimal128);
    for v in vals {
        c.push(Value::Decimal128(*v));
    }
    c
}

fn table(types: Vec<DataType>, aggrs: Vec<AggregateKind>) -> AggregateHashTable {
    AggregateHashTable::new(Arena::new(), types, aggrs)
}

fn run_finalize(
    t: &mut AggregateHashTable,
    gts: &[DataType],
    outs: &[DataType],
) -> (Vec<Column>, Vec<Column>) {
    let mut gb: Vec<Column> = Vec::new();
    for d in gts {
        gb.push(Column::new(*d));
    }
    let mut ab: Vec<Column> = Vec::new();
    for d in outs {
        ab.push(Column::new(*d));
    }
    t.finalize_into(&mut gb, &mut ab);
    (gb, ab)
}

fn ival(v: &Value) -> i64 {
    match v {
        Value::Int64(x) => *x,
        _ => panic!("expected an Int64 value"),
    }
}

fn dval(v: &Value) -> i128 {
    match v {
        Value::Decimal128(x) => *x,
        _ => panic!("expected a Decimal128 value"),
    }
}

#[test]
fn sum_groups_in_insertion_order() {
    let mut t = table(vec![DataType::Int64], vec![AggregateKind::SumInt64]);
    let mut st = ProbeState::new();
    let keys = int64_col(&[1, 2, 1, 3, 2, 1]);
    let args = int64_col(&[10, 20, 30, 40, 50, 60]);
    let n = t
        .add_groups(&mut st, &vec![keys], &vec![vec![args]], 6)
        .unwrap();
    assert_eq!(n, 3);
    assert_eq!(t.len(), 3);
    let (gb, ab) = run_finalize(&mut t, &[DataType::Int64], &[DataType::Int64]);
    assert_eq!(gb[0].len(), 3);
    assert_eq!(ival(&gb[0].values[0]), 1);
    assert_eq!(ival(&gb[0].values[1]), 2);
    assert_eq!(ival(&gb[0].values[2]), 3);
    assert_eq!(ival(&ab[0].values[0]), 100);
    assert_eq!(ival(&ab[0].values[1]), 70);
    assert_eq!(ival(&ab[0].values[2]), 40);
}

#[test]
fn empty_batch_is_noop() {
    let mut t = table(vec![DataType::Int64], vec![AggregateKind::SumInt64]);
    let mut st = ProbeState::new();
    let keys = int64_col(&[]);
    let args = int64_col(&[]);
    let n = t
        .add_groups(&mut st, &vec![keys], &vec![vec![args]], 0)
        .unwrap();
    assert_eq!(n, 0);
    assert_eq!(t.len(), 0);
}

#[test]
fn all_null_groups_collapse() {
    let mut t = table(vec![DataType::Int64], vec![AggregateKind::Count]);
    let mut st = ProbeState::new();
    let keys = int64_col_opt(&[None, None, None, None]);
    let n = t
        .add_groups(&mut st, &vec![keys], &vec![vec![]], 4)
        .unwrap();
    assert_eq!(n, 1);
    assert_eq!(t.len(), 1);
    let (gb, ab) = run_finalize(&mut t, &[DataType::Int64], &[DataType::Int64]);
    assert!(!gb[0].validity[0]);
    assert_eq!(ival(&ab[0].values[0]), 4);
}

#[test]
fn forced_resize_keeps_every_key() {
    let mut t = table(vec![DataType::Int64], vec![AggregateKind::SumInt64]);
    let mut st = ProbeState::new();
    let mut keys: Vec<i64> = Vec::new();
    let mut vals: Vec<i64> = Vec::new();
    for k in 0..200i64 {
        keys.push(k);
        vals.push(k * 3 + 1);
    }
    let n = t
        .add_groups(
            &mut st,
            &vec![int64_col(&keys)],
            &vec![vec![int64_col(&vals)]],
            200,
        )
        .unwrap();
    assert_eq!(n, 200);
    assert_eq!(t.len(), 200);
    // the contract pins the growth: 128 doubles once, since 256 - 0 > 200
    assert_eq!(t.capacity, 256);
    let (gb, ab) = run_finalize(&mut t, &[DataType::Int64], &[DataType::Int64]);
    assert_eq!(gb[0].len(), 200);
    let mut seen = vec![false; 200];
    for i in 0..200usize {
        let k = ival(&gb[0].values[i]);
        assert!((0..200).contains(&k));
        assert!(!seen[k as usize]);
        seen[k as usize] = true;
        assert_eq!(ival(&ab[0].values[i]), k * 3 + 1);
    }
}

#[test]
fn null_equality_groups() {
    let mut t = table(
        vec![DataType::Int64, DataType::Int64],
        vec![AggregateKind::Count],
    );
    let mut st = ProbeState::new();
    let a = int64_col_opt(&[Some(1), Some(1), Some(1), None, None]);
    let b = int64_col_opt(&[None, None, Some(1), None, None]);
    let n = t
        .add_groups(&mut st, &vec![a, b], &vec![vec![]], 5)
        .unwrap();
    assert_eq!(n, 3);
    let (gb, ab) = run_finalize(
        &mut t,
        &[DataType::Int64, DataType::Int64],
        &[DataType::Int64],
    );
    // insertion order: (1, null), (1, 1), (null, null)
    assert_eq!(ival(&gb[0].values[0]), 1);
    assert!(!gb[1].validity[0]);
    assert_eq!(ival(&ab[0].values[0]), 2);
    assert_eq!(ival(&gb[0].values[1]), 1);
    assert_eq!(ival(&gb[1].values[1]), 1);
    assert_eq!(ival(&ab[0].values[1]), 1);
    assert!(!gb[0].validity[2]);
    assert!(!gb[1].validity[2]);
    assert_eq!(ival(&ab[0].values[2]), 2);
}

#[test]
fn merge_combines_per_key_sums() {
    let mut t1 = table(vec![DataType::Int64], vec![AggregateKind::SumInt64]);
    let mut t2 = table(vec![DataType::Int64], vec![AggregateKind::SumInt64]);
    let mut st = ProbeState::new();
    t1.add_groups(
        &mut st,
        &vec![int64_col(&[1, 2])],
        &vec![vec![int64_col(&[5, 7])]],
        2,
    )
    .unwrap();
    t2.add_groups(
        &mut st,
        &vec![int64_col(&[2, 3])],
        &vec![vec![int64_col(&[3, 9])]],
        2,
    )
    .unwrap();
    t1.combine(&t2).unwrap();
    assert_eq!(t1.len(), 3);
    let (gb, ab) = run_finalize(&mut t1, &[DataType::Int64], &[DataType::Int64]);
    let mut sums = [0i64; 4];
    for i in 0..3usize {
        sums[ival(&gb[0].values[i]) as usize] = ival(&ab[0].values[i]);
    }
    assert_eq!(sums[1], 5);
    assert_eq!(sums[2], 10);
    assert_eq!(sums[3], 9);
}

#[test]
fn decimal_overflow_surfaces_and_table_survives() {
    let mut t = table(
        vec![DataType::Int64],
        vec![AggregateKind::SumDecimal128 { check_overflow: true }],
    );
    let mut st = ProbeState::new();
    let keys = int64_col(&[1, 2, 1]);
    let vals = dec_col(&[DECIMAL128_MAX, 5, 1]);
    let r = t.add_groups(&mut st, &vec![keys], &vec![vec![vals]], 3);
    assert_eq!(r, Err(ErrorKind::Overflow));
    // the groups of the first two rows are placed and still queryable
    assert_eq!(t.len(), 2);
    let (gb, ab) = run_finalize(&mut t, &[DataType::Int64], &[DataType::Decimal128]);
    assert_eq!(ival(&gb[0].values[1]), 2);
    assert_eq!(dval(&ab[0].values[1]), 5);
}

#[test]
fn drop_sweep_releases_each_state_once() {
    let mut t = table(vec![DataType::Int64], vec![AggregateKind::HandleCount]);
    let mut st = ProbeState::new();
    let mut keys: Vec<i64> = Vec::new();
    for k in 0..1000i64 {
        keys.push(k);
    }
    t.add_groups(&mut st, &vec![int64_col(&keys)], &vec![vec![]], 1000)
        .unwrap();
    assert_eq!(t.len(), 1000);
    let released = t.release_states();
    assert_eq!(released, 1000);
    assert_eq!(t.len(), 0);
    // a second sweep finds nothing: states are released exactly once
    assert_eq!(t.release_states(), 0);
}

#[test]
fn finalize_leaves_table_drop_safe() {
    let mut t = table(vec![DataType::Int64], vec![AggregateKind::HandleCount]);
    let mut st = ProbeState::new();
    t.add_groups(&mut st, &vec![int64_col(&[1, 2, 3])], &vec![vec![]], 3)
        .unwrap();
    let (_gb, ab) = run_finalize(&mut t, &[DataType::Int64], &[DataType::Int64]);
    assert_eq!(ab[0].len(), 3);
    assert_eq!(t.len(), 0);
    assert_eq!(t.release_states(), 0);
}

#[test]
fn same_pair_twice_leaves_len_unchanged() {
    let mut t = table(vec![DataType::Int64], vec![AggregateKind::SumInt64]);
    let mut st = ProbeState::new();
    let n1 = t
        .add_groups(
            &mut st,
            &vec![int64_col(&[7])],
            &vec![vec![int64_col(&[5])]],
            1,
        )
        .unwrap();
    assert_eq!(n1, 1);
    assert_eq!(t.len(), 1);
    let n2 = t
        .add_groups(
            &mut st,
            &vec![int64_col(&[7])],
            &vec![vec![int64_col(&[5])]],
            1,
        )
        .unwrap();
    assert_eq!(n2, 0);
    assert_eq!(t.len(), 1);
    let (_gb, ab) = run_finalize(&mut t, &[DataType::Int64], &[DataType::Int64]);
    assert_eq!(ival(&ab[0].values[0]), 10);
}

#[test]
fn wrong_argument_shapes_are_rejected() {
    let mut t = table(vec![DataType::Int64], vec![AggregateKind::SumInt64]);
    let mut st = ProbeState::new();
    // missing the aggregate's argument column
    let r = t.add_groups(&mut st, &vec![int64_col(&[1])], &vec![vec![]], 1);
    assert_eq!(r, Err(ErrorKind::InvalidArgument));
    // group column of the wrong type
    let r2 = t.add_groups(
        &mut st,
        &vec![dec_col(&[1])],
        &vec![vec![int64_col(&[1])]],
        1,
    );
    assert_eq!(r2, Err(ErrorKind::InvalidArgument));
    // batch length mismatch
    let r3 = t.add_groups(
        &mut st,
        &vec![int64_col(&[1, 2])],
        &vec![vec![int64_col(&[1, 2])]],
        3,
    );
    assert_eq!(r3, Err(ErrorKind::InvalidArgument));
    assert_eq!(t.len(), 0);
}

#[test]
fn resize_is_invisible_in_observable_state() {
    let build = || {
        let mut t = table(vec![DataType::Int64], vec![AggregateKind::SumInt64]);
        let mut st = ProbeState::new();
        t.add_groups(
            &mut st,
            &vec![int64_col(&[4, 9, 4])],
            &vec![vec![int64_col(&[1, 2, 3])]],
            3,
        )
        .unwrap();
        t
    };
    let mut plain = build();
    let mut resized = build();
    let cap = resized.capacity;
    resized.resize(cap);
    let (g1, a1) = run_finalize(&mut plain, &[DataType::Int64], &[DataType::Int64]);
    let (g2, a2) = run_finalize(&mut resized, &[DataType::Int64], &[DataType::Int64]);
    for i in 0..g1[0].len() {
        assert_eq!(ival(&g1[0].values[i]), ival(&g2[0].values[i]));
        assert_eq!(ival(&a1[0].values[i]), ival(&a2[0].values[i]));
    }
}

#[test]
fn finalize_order_is_deterministic() {
    let build = || {
        let mut t = table(vec![DataType::Int64], vec![AggregateKind::Count]);
        let mut st = ProbeState::new();
        t.add_groups(&mut st, &vec![int64_col(&[5, 3, 5, 8])], &vec![vec![]], 4)
            .unwrap();
        t
    };
    let mut t1 = build();
    let mut t2 = build();
    let (g1, a1) = run_finalize(&mut t1, &[DataType::Int64], &[DataType::Int64]);
    let (g2, a2) = run_finalize(&mut t2, &[DataType::Int64], &[DataType::Int64]);
    assert_eq!(g1[0].len(), g2[0].len());
    for i in 0..g1[0].len() {
        assert_eq!(ival(&g1[0].values[i]), ival(&g2[0].values[i]));
        assert_eq!(ival(&a1[0].values[i]), ival(&a2[0].values[i]));
    }
}

#[test]
fn extrema_skip_nulls_and_report_empty_as_null() {
    let mut t = table(
        vec![DataType::Int64],
        vec![AggregateKind::MinInt64, AggregateKind::MaxInt64],
    );
    let mut st = ProbeState::new();
    let keys = int64_col(&[1, 1, 1, 2]);
    let args = int64_col_opt(&[Some(9), Some(-4), None, None]);
    t.add_groups(
        &mut st,
        &vec![keys],
        &vec![vec![args.clone()], vec![args]],
        4,
    )
    .unwrap();
    let (gb, ab) = run_finalize(
        &mut t,
        &[DataType::Int64],
        &[DataType::Int64, DataType::Int64],
    );
    assert_eq!(ival(&gb[0].values[0]), 1);
    assert_eq!(ival(&ab[0].values[0]), -4);
    assert_eq!(ival(&ab[1].values[0]), 9);
    // the group whose arguments were all null yields null extrema
    assert!(!ab[0].validity[1]);
    assert!(!ab[1].validity[1]);
}

#[test]
fn bytes_and_bool_keys_group_correctly() {
    let mut t = table(
        vec![DataType::Bytes, DataType::Boolean],
        vec![AggregateKind::Count],
    );
    let mut st = ProbeState::new();
    let mut kb = Column::new(DataType::Bytes);
    kb.push(Value::Bytes(b"ab".to_vec()));
    kb.push(Value::Bytes(b"cd".to_vec()));
    kb.push(Value::Bytes(b"ab".to_vec()));
    let mut kv = Column::new(DataType::Boolean);
    kv.push(Value::Boolean(true));
    kv.push(Value::Boolean(true));
    kv.push(Value::Boolean(true));
    let n = t
        .add_groups(&mut st, &vec![kb, kv], &vec![vec![]], 3)
        .unwrap();
    assert_eq!(n, 2);
    let (gb, ab) = run_finalize(
        &mut t,
        &[DataType::Bytes, DataType::Boolean],
        &[DataType::Int64],
    );
    match &gb[0].values[0] {
        Value::Bytes(b) => assert_eq!(b, b"ab"),
        _ => panic!("expected a Bytes value"),
    }
    assert_eq!(ival(&ab[0].values[0]), 2);
    assert_eq!(ival(&ab[0].values[1]), 1);
}

#[test]
fn merge_on_empty_table_copies_other() {
    let mut t1 = table(vec![DataType::Int64], vec![AggregateKind::SumInt64]);
    let mut t2 = table(vec![DataType::Int64], vec![AggregateKind::SumInt64]);
    let mut st = ProbeState::new();
    t2.add_groups(
        &mut st,
        &vec![int64_col(&[11, 12])],
        &vec![vec![int64_col(&[1, 2])]],
        2,
    )
    .unwrap();
    t1.combine(&t2).unwrap();
    assert_eq!(t1.len(), 2);
    assert_eq!(t2.len(), 2);
    let (gb, ab) = run_finalize(&mut t1, &[DataType::Int64], &[DataType::Int64]);
    assert_eq!(ival(&gb[0].values[0]), 11);
    assert_eq!(ival(&ab[0].values[0]), 1);
    assert_eq!(ival(&gb[0].values[1]), 12);
    assert_eq!(ival(&ab[0].values[1]), 2);
}

#[test]
fn date_and_timestamp_keys_group_correctly() {
    let mut t = table(
        vec![DataType::Date, DataType::Timestamp],
        vec![AggregateKind::Count],
    );
    let mut st = ProbeState::new();
    let mut kd = Column::new(DataType::Date);
    kd.push(Value::Date(19000));
    kd.push(Value::Date(19000));
    kd.push(Value::Date(19001));
    let mut kt = Column::new(DataType::Timestamp);
    kt.push(Value::Timestamp(1_600_000_000_000_000));
    kt.push(Value::Timestamp(1_600_000_000_000_000));
    kt.push(Value::Timestamp(1_600_000_000_000_000));
    let n = t
        .add_groups(&mut st, &vec![kd, kt], &vec![vec![]], 3)
        .unwrap();
    assert_eq!(n, 2);
    let (gb, ab) = run_finalize(
        &mut t,
        &[DataType::Date, DataType::Timestamp],
        &[DataType::Int64],
    );
    match &gb[0].values[0] {
        Value::Date(d) => assert_eq!(*d, 19000),
        _ => panic!("expected a Date value"),
    }
    assert_eq!(ival(&ab[0].values[0]), 2);
    assert_eq!(ival(&ab[0].values[1]), 1);
}

#[test]
fn unchecked_decimal_sum_never_errors() {
    let mut t = table(
        vec![DataType::Int64],
        vec![AggregateKind::SumDecimal128 { check_overflow: false }],
    );
    let mut st = ProbeState::new();
    let keys = int64_col(&[1, 1, 1]);
    let vals = dec_col(&[DECIMAL128_MAX, DECIMAL128_MAX, 7]);
    let n = t
        .add_groups(&mut st, &vec![keys], &vec![vec![vals]], 3)
        .unwrap();
    assert_eq!(n, 1);
    assert_eq!(t.len(), 1);
}

#[test]
fn second_batch_accumulates_into_existing_groups() {
    let mut t = table(vec![DataType::Int64], vec![AggregateKind::SumInt64]);
    let mut st = ProbeState::new();
    t.add_groups(
        &mut st,
        &vec![int64_col(&[1, 2])],
        &vec![vec![int64_col(&[10, 20])]],
        2,
    )
    .unwrap();
    let n = t
        .add_groups(
            &mut st,
            &vec![int64_col(&[2, 3])],
            &vec![vec![int64_col(&[5, 30])]],
            2,
        )
        .unwrap();
    assert_eq!(n, 1);
    assert_eq!(t.len(), 3);
    let (gb, ab) = run_finalize(&mut t, &[DataType::Int64], &[DataType::Int64]);
    assert_eq!(ival(&gb[0].values[0]), 1);
    assert_eq!(ival(&ab[0].values[0]), 10);
    assert_eq!(ival(&gb[0].values[1]), 2);
    assert_eq!(ival(&ab[0].values[1]), 25);
    assert_eq!(ival(&gb[0].values[2]), 3);
    assert_eq!(ival(&ab[0].values[2]), 30);
}
