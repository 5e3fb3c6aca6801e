use agg_hashtable::aggregate::AggState;
use agg_hashtable::aggregate::AggregateKind;
use agg_hashtable::aggregate::merge;
use agg_hashtable::config::Config;
use agg_hashtable::config::FileConfig;
use agg_hashtable::config::StderrConfig;
use agg_hashtable::types::Value;
use agg_hashtable::types::value_eq;

fn st(v: i128, seen: bool) -> AggState {
    AggState { v, seen }
}

fn assoc_holds(k: AggregateKind, a: AggState, b: AggState, c: AggState) -> bool {
    let ab = merge(&k, a, b).unwrap();
    let bc = merge(&k, b, c).unwrap();
    merge(&k, ab, c).unwrap() == merge(&k, a, bc).unwrap()
}

#[test]
fn merge_is_associative_for_total_kinds() {
    let a = st(17, true);
    let b = st(-4, true);
    let c = st(100, false);
    assert!(assoc_holds(AggregateKind::Count, a, b, c));
    assert!(assoc_holds(AggregateKind::HandleCount, a, b, c));
    assert!(assoc_holds(AggregateKind::SumInt64, a, b, c));
    assert!(assoc_holds(AggregateKind::MinInt64, a, b, c));
    assert!(assoc_holds(AggregateKind::MaxInt64, a, b, c));
    assert!(assoc_holds(
        AggregateKind::SumDecimal128 { check_overflow: false },
        a,
        b,
        c
    ));
}

#[test]
fn merge_of_extrema_respects_seen_flags() {
    let empty = st(0, false);
    let five = st(5, true);
    assert_eq!(merge(&AggregateKind::MinInt64, empty, five).unwrap(), five);
    assert_eq!(merge(&AggregateKind::MinInt64, five, empty).unwrap(), five);
    let nine = st(9, true);
    assert_eq!(merge(&AggregateKind::MinInt64, five, nine).unwrap(), five);
    assert_eq!(merge(&AggregateKind::MaxInt64, five, nine).unwrap(), nine);
}

#[test]
fn value_equality_is_value_wise() {
    assert!(value_eq(&Value::Int64(5), &Value::Int64(5)));
    assert!(!value_eq(&Value::Int64(5), &Value::Int64(6)));
    assert!(!value_eq(&Value::Int64(5), &Value::Timestamp(5)));
    assert!(value_eq(
        &Value::Bytes(b"abc".to_vec()),
        &Value::Bytes(b"abc".to_vec())
    ));
    assert!(!value_eq(
        &Value::Bytes(b"abc".to_vec()),
        &Value::Bytes(b"abd".to_vec())
    ));
    assert!(value_eq(&Value::Boolean(true), &Value::Boolean(true)));
    assert!(value_eq(&Value::Date(19000), &Value::Date(19000)));
}

#[test]
fn tracing_config_defaults() {
    let c = Config::default();
    assert!(c.file.on);
    assert_eq!(c.file.level, "INFO");
    assert_eq!(c.file.dir, "./.databend/logs");
    assert!(!c.stderr.on);
    assert_eq!(c.stderr.level, "INFO");
    let f = FileConfig::default();
    assert!(f.on);
    let s = StderrConfig::default();
    assert!(!s.on);
}
