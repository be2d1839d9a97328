use inline_config::value::{Value, merge_all};

fn table_m(entries: Vec<(&str, Value)>) -> Value {
    Value::Table(entries.into_iter().map(|(k, v)| (k.to_string(), v)).collect())
}

#[test]
fn overwrite_law_tables() {
    // {a=1, b={x=1}} merged with {b={y=2}} keeps a, merges b recursively.
    let a = table_m(vec![
        ("a", Value::PosInt(1)),
        ("b", table_m(vec![("x", Value::PosInt(1))])),
    ]);
    let b = table_m(vec![("b", table_m(vec![("y", Value::PosInt(2))]))]);
    let merged = a.merge(b);
    let expected = table_m(vec![
        ("a", Value::PosInt(1)),
        (
            "b",
            table_m(vec![("x", Value::PosInt(1)), ("y", Value::PosInt(2))]),
        ),
    ]);
    assert_eq!(merged, expected);
}

#[test]
fn overwrite_law_new_key_appended() {
    let a = table_m(vec![("a", Value::PosInt(1))]);
    let b = table_m(vec![("c", Value::Str("z".to_string()))]);
    let merged = a.merge(b);
    let expected = table_m(vec![
        ("a", Value::PosInt(1)),
        ("c", Value::Str("z".to_string())),
    ]);
    assert_eq!(merged, expected);
}

#[test]
fn replace_law_scalar_over_table() {
    // {a={x=1}} merged with {a=5} replaces the table with the scalar.
    let a = table_m(vec![("a", table_m(vec![("x", Value::PosInt(1))]))]);
    let b = table_m(vec![("a", Value::PosInt(5))]);
    let merged = a.merge(b);
    assert_eq!(merged, table_m(vec![("a", Value::PosInt(5))]));
}

#[test]
fn replace_law_table_over_scalar() {
    // {a=1} merged with {a={x=1}} replaces the scalar with the table.
    let a = table_m(vec![("a", Value::PosInt(1))]);
    let b = table_m(vec![("a", table_m(vec![("x", Value::PosInt(1))]))]);
    let merged = a.merge(b);
    assert_eq!(
        merged,
        table_m(vec![("a", table_m(vec![("x", Value::PosInt(1))]))])
    );
}

#[test]
fn replace_law_non_table_pair() {
    let merged = Value::Boolean(true).merge(Value::Str("s".to_string()));
    assert_eq!(merged, Value::Str("s".to_string()));
}

#[test]
fn merge_all_single_source_is_kept() {
    let v = table_m(vec![("k", Value::NegInt(-4))]);
    let expected = table_m(vec![("k", Value::NegInt(-4))]);
    assert_eq!(merge_all(vec![v]), expected);
}

#[test]
fn merge_all_later_sources_win() {
    let s1 = table_m(vec![("a", Value::PosInt(1)), ("b", Value::PosInt(2))]);
    let s2 = table_m(vec![("b", Value::PosInt(20))]);
    let s3 = table_m(vec![("c", Value::PosInt(3))]);
    let merged = merge_all(vec![s1, s2, s3]);
    let expected = table_m(vec![
        ("a", Value::PosInt(1)),
        ("b", Value::PosInt(20)),
        ("c", Value::PosInt(3)),
    ]);
    assert_eq!(merged, expected);
}

#[test]
fn merge_all_empty_is_empty_table() {
    assert_eq!(merge_all(vec![]), Value::Table(vec![]));
}
