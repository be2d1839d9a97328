use inline_config::format::{collect_sources, Format};
use inline_config::value::Value;

fn table_f(entries: Vec<(&str, Value)>) -> Value {
    Value::Table(entries.into_iter().map(|(k, v)| (k.to_string(), v)).collect())
}

#[test]
fn json_parses_primitives_and_containers() {
    // serde_json's default object keeps its keys sorted.
    let v = Format::Json
        .parse("{\"age\": 30, \"name\": \"Tom\", \"nil\": null, \"tags\": [1, -2]}")
        .unwrap();
    let expected = table_f(vec![
        ("age", Value::PosInt(30)),
        ("name", Value::Str("Tom".to_string())),
        ("nil", Value::Nil),
        ("tags", Value::Array(vec![Value::PosInt(1), Value::NegInt(-2)])),
    ]);
    assert_eq!(v, expected);
}

#[test]
fn json_keeps_float_literals_as_text() {
    let v = Format::Json.parse("[1.5, true]").unwrap();
    assert_eq!(
        v,
        Value::Array(vec![Value::Float("1.5".to_string()), Value::Boolean(true)])
    );
}

#[test]
fn json_rejects_malformed_text() {
    assert!(Format::Json.parse("{").is_err());
}

#[test]
fn toml_parses_tables() {
    let v = Format::Toml
        .parse("count = -7\n\n[server]\nhost = \"x\"\nport = 8000\n")
        .unwrap();
    let expected = table_f(vec![
        ("count", Value::NegInt(-7)),
        (
            "server",
            table_f(vec![
                ("host", Value::Str("x".to_string())),
                ("port", Value::PosInt(8000)),
            ]),
        ),
    ]);
    assert_eq!(v, expected);
}

#[test]
fn toml_rejects_malformed_text() {
    assert!(Format::Toml.parse("= nope").is_err());
}

#[test]
fn yaml_parses_in_insertion_order() {
    let v = Format::Yaml.parse("b: -2\na: 1\nf: 1.5\n").unwrap();
    let expected = table_f(vec![
        ("b", Value::NegInt(-2)),
        ("a", Value::PosInt(1)),
        ("f", Value::Float("1.5".to_string())),
    ]);
    assert_eq!(v, expected);
}

#[test]
fn yaml_folds_documents_in_order() {
    let v = Format::Yaml.parse("a: 1\nb: 2\n---\nb: 20\nc: 3\n").unwrap();
    let expected = table_f(vec![
        ("a", Value::PosInt(1)),
        ("b", Value::PosInt(20)),
        ("c", Value::PosInt(3)),
    ]);
    assert_eq!(v, expected);
}

#[test]
fn format_names_round_trip() {
    assert_eq!(Format::from_specifier("json"), Some(Format::Json));
    assert_eq!(Format::from_specifier("toml"), Some(Format::Toml));
    assert_eq!(Format::from_specifier("yaml"), Some(Format::Yaml));
    assert_eq!(Format::from_specifier("ini"), None);
    assert_eq!(Format::from_extension("yml"), Some(Format::Yaml));
    assert_eq!(Format::from_extension("toml"), Some(Format::Toml));
    assert!(Format::from_str("json").is_ok());
    assert!(Format::from_str("nope").is_err());
}

#[test]
fn collect_sources_merges_in_declaration_order() {
    let merged = collect_sources(vec![
        (Format::Toml, "a = 1\nb = 2\n".to_string()),
        (Format::Json, "{\"b\": 20}".to_string()),
    ])
    .unwrap();
    let expected = table_f(vec![("a", Value::PosInt(1)), ("b", Value::PosInt(20))]);
    assert_eq!(merged, expected);
}

#[test]
fn collect_sources_reports_the_failing_source() {
    let err = collect_sources(vec![
        (Format::Toml, "a = 1\n".to_string()),
        (Format::Json, "{oops".to_string()),
    ])
    .unwrap_err();
    assert_eq!(err.index, 1);
    assert!(!err.error.message().is_empty());
}

#[test]
fn yaml_source_over_the_length_limit_is_rejected() {
    let mut long = String::from("a: 1\n");
    long.push_str(&"# padding".repeat(4000));
    assert!(long.chars().count() > inline_config::format::YAML_SOURCE_LIMIT);
    let err = Format::Yaml.parse(&long).unwrap_err();
    assert_eq!(
        err.message().as_str(),
        "YAML source exceeds the supported length"
    );
    // The same text is fine for the parsers that bound their own depth.
    assert!(Format::Toml.parse("a = 1\n").is_ok());
}

#[test]
fn yaml_source_under_the_limit_parses() {
    let mut text = String::from("a: 7\n");
    text.push_str(&"#x".repeat(8000));
    assert!(text.chars().count() <= inline_config::format::YAML_SOURCE_LIMIT);
    let v = Format::Yaml.parse(&text).unwrap();
    assert_eq!(v, table_f(vec![("a", Value::PosInt(7))]));
}

#[test]
fn yaml_moderate_nesting_parses() {
    let text = format!("{}7", "- ".repeat(100));
    let v = Format::Yaml.parse(&text).unwrap();
    let mut cur = &v;
    let mut depth = 0;
    while let Value::Array(items) = cur {
        assert_eq!(items.len(), 1);
        cur = &items[0];
        depth += 1;
    }
    assert_eq!(depth, 100);
    assert_eq!(*cur, Value::PosInt(7));
}

#[test]
fn format_from_str_reports_unsupported_format() {
    let err = Format::from_str("nope").unwrap_err();
    assert_eq!(err.message().as_str(), "unsupported format");
}
