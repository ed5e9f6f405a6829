use sysctl_conf::paths::join;
use sysctl_conf::schema::flatten_to_schema_impl;
use sysctl_conf::validate::validate_impl;
use sysctl_conf::{
    flatten_to_schema, parse_schema_str, parse_str, validate, Schema, SchemaParseError, SchemaType,
    SchemaValidationError, Table, Value,
};

fn leaf(s: &str) -> Value {
    Value::String(s.to_string())
}

#[test]
fn type_names() {
    assert_eq!(SchemaType::from_name("string"), Some(SchemaType::String));
    assert_eq!(SchemaType::from_name("bool"), Some(SchemaType::Bool));
    assert_eq!(SchemaType::from_name("boolean"), Some(SchemaType::Bool));
    assert_eq!(SchemaType::from_name("integer"), Some(SchemaType::Integer));
    assert_eq!(SchemaType::from_name("int"), Some(SchemaType::Integer));
    assert_eq!(SchemaType::from_name("float"), Some(SchemaType::Float));
    assert_eq!(SchemaType::from_name("number"), Some(SchemaType::Float));
}

#[test]
fn type_names_in_any_case_and_with_whitespace_around() {
    assert_eq!(SchemaType::from_name("String"), Some(SchemaType::String));
    assert_eq!(SchemaType::from_name("BOOLEAN"), Some(SchemaType::Bool));
    assert_eq!(SchemaType::from_name("  Int\t"), Some(SchemaType::Integer));
    assert_eq!(SchemaType::from_name("\u{00A0}NuMbEr\u{3000}"), Some(SchemaType::Float));
}

#[test]
fn names_that_are_no_types() {
    for s in ["", " ", "str", "strings", "text", "double", "bool ean", "i nt", "int32", "integer.",
        "\u{130}nt", "strin\u{212A}", "floa\u{74}\u{301}"]
    {
        assert_eq!(SchemaType::from_name(s), None, "{:?}", s);
        assert_eq!(
            SchemaType::from_name(s).is_some(),
            matches!(
                s.trim().to_lowercase().as_str(),
                "string" | "bool" | "boolean" | "integer" | "int" | "float" | "number"
            ),
            "{:?}",
            s
        );
    }
}

#[test]
fn labels() {
    assert_eq!(SchemaType::String.name(), "string");
    assert_eq!(SchemaType::Bool.name(), "bool");
    assert_eq!(SchemaType::Integer.name(), "integer");
    assert_eq!(SchemaType::Float.name(), "float");
}

#[test]
fn every_text_is_a_string() {
    for s in ["", "   ", "abc", "1", "\u{1F600}"] {
        assert!(SchemaType::String.check_value(s));
    }
}

#[test]
fn truth_values() {
    for s in ["true", "false", "1", "0", "yes", "no", "TRUE", "False", "YES", "No", "  yes  ",
        "\ttrue\r"]
    {
        assert!(SchemaType::Bool.check_value(s), "{:?}", s);
    }
    for s in ["", " ", "notabool", "2", "on", "off", "y", "n", "t", "f", "tru", "truee", "01",
        "yes no", "true false"]
    {
        assert!(!SchemaType::Bool.check_value(s), "{:?}", s);
    }
}

#[test]
fn integer_values() {
    for s in ["42", "-42", "0", "  7  ", "-0", "007", "9223372036854775807",
        "-9223372036854775808"]
    {
        assert!(SchemaType::Integer.check_value(s), "{:?}", s);
    }
    for s in ["", "abc", "+42", "4 2", "- 42", "1.5", "1e3", "1,000", "1_000",
        "9223372036854775808", "-9223372036854775809", "0x1f"]
    {
        assert!(!SchemaType::Integer.check_value(s), "{:?}", s);
    }
}

#[test]
fn float_values() {
    for s in ["1", "1.5", "-1.5", "+1.5", "  2.5e-3  ", ".5", "5.", "1E10", "inf", "-inf", "NaN",
        "infinity", "1e999"]
    {
        assert!(SchemaType::Float.check_value(s), "{:?}", s);
        assert!(s.trim().parse::<f64>().is_ok(), "{:?}", s);
    }
    for s in ["", ".", "abc", "1.5.2", "1e", "e1", "1 5", "0x1p3", "1,5", "--1"] {
        assert!(!SchemaType::Float.check_value(s), "{:?}", s);
        assert!(s.trim().parse::<f64>().is_err(), "{:?}", s);
    }
}

#[test]
fn round_trip_of_a_declared_integer() {
    let schema = parse_schema_str("k = integer").unwrap();
    let t = *schema.get("k").unwrap();
    assert_eq!(t, SchemaType::Integer);
    assert!(t.check_value("42"));
    assert!(!t.check_value("abc"));
}

#[test]
fn join_puts_a_dot_between_unless_the_prefix_is_empty() {
    assert_eq!(join("", "a"), "a");
    assert_eq!(join("a", "b"), "a.b");
    assert_eq!(join("a.b", "c"), "a.b.c");
    assert_eq!(join("a", ""), "a.");
    assert_eq!(join("", ""), "");
}

#[test]
fn a_schema_has_the_dotted_path_of_every_leaf() {
    let schema = parse_schema_str(
        "a = string\nlog.file = string\nlog.level = int\nnet.ipv4.forward = boolean\nratio = number",
    )
    .unwrap();
    assert_eq!(schema.len(), 5);
    assert_eq!(schema.get("a"), Some(&SchemaType::String));
    assert_eq!(schema.get("log.file"), Some(&SchemaType::String));
    assert_eq!(schema.get("log.level"), Some(&SchemaType::Integer));
    assert_eq!(schema.get("net.ipv4.forward"), Some(&SchemaType::Bool));
    assert_eq!(schema.get("ratio"), Some(&SchemaType::Float));
    assert_eq!(schema.get("log"), None);
    assert_eq!(schema.get("net.ipv4"), None);
}

#[test]
fn an_empty_first_segment_leaves_no_dot_in_front() {
    let schema = parse_schema_str(".x = int").unwrap();
    assert_eq!(schema.get("x"), Some(&SchemaType::Integer));
    assert_eq!(schema.get(".x"), None);
    let schema = parse_schema_str("a..b = int\nc. = bool").unwrap();
    assert_eq!(schema.get("a..b"), Some(&SchemaType::Integer));
    assert_eq!(schema.get("c."), Some(&SchemaType::Bool));
}

#[test]
fn an_unknown_type_is_reported_with_its_key() {
    let err = parse_schema_str("a = string\nlog.level = verbose").unwrap_err();
    match &err {
        SchemaParseError::UnknownType { key, name } => {
            assert_eq!(key, "log.level");
            assert_eq!(name, "verbose");
        }
        _ => panic!("expected UnknownType"),
    }
    assert_eq!(err.to_string(), "schema key 'log.level': unknown type 'verbose'");
    let err = parse_schema_str("a = str\nb = nope").unwrap_err();
    assert!(matches!(err, SchemaParseError::UnknownType { .. }));
}

#[test]
fn a_malformed_schema_is_reported_with_its_line() {
    let err = parse_schema_str("a = string\nnonsense").unwrap_err();
    match &err {
        SchemaParseError::Parse(e) => {
            assert_eq!(e.line, 2);
            assert_eq!(e.message, "missing '='");
        }
        _ => panic!("expected Parse"),
    }
    assert_eq!(err.to_string(), "parse: line 2: missing '='");
    let err = parse_schema_str("= string").unwrap_err();
    assert_eq!(err.to_string(), "parse: line 1: empty key");
}

#[test]
fn flatten_walks_a_table_built_by_hand() {
    let mut log = Table::new();
    log.insert("file".to_string(), leaf("string"));
    log.insert("size".to_string(), leaf(" INT "));
    let mut t = Table::new();
    t.insert("log".to_string(), Value::Table(log));
    t.insert("debug".to_string(), leaf("bool"));
    t.insert("empty".to_string(), Value::Table(Table::new()));
    let schema = flatten_to_schema(t.clone()).unwrap();
    assert_eq!(schema.len(), 3);
    assert_eq!(schema.get("log.file"), Some(&SchemaType::String));
    assert_eq!(schema.get("log.size"), Some(&SchemaType::Integer));
    assert_eq!(schema.get("debug"), Some(&SchemaType::Bool));
    let mut out = Schema::new();
    out.insert("kept".to_string(), SchemaType::Float);
    assert!(flatten_to_schema_impl(&t, "root", &mut out).is_ok());
    assert_eq!(out.len(), 4);
    assert_eq!(out.get("kept"), Some(&SchemaType::Float));
    assert_eq!(out.get("root.log.file"), Some(&SchemaType::String));
    assert_eq!(out.get("root.debug"), Some(&SchemaType::Bool));
    assert!(flatten_to_schema(Table::new()).unwrap().is_empty());
}

#[test]
fn a_config_that_fits_is_valid() {
    let schema = parse_schema_str(
        "endpoint = string\ndebug = bool\nlog.file = string\nretry = integer\nratio = float",
    )
    .unwrap();
    let config = parse_str(
        "endpoint = localhost:3000\ndebug = yes\nlog.file = /var/log\nretry = -3\nratio = 0.5",
    )
    .unwrap();
    assert!(validate(&config, &schema).is_ok());
    let config = parse_str("debug = 0").unwrap();
    assert!(validate(&config, &schema).is_ok());
    assert!(validate(&Table::new(), &schema).is_ok());
    assert!(validate(&Table::new(), &Schema::new()).is_ok());
}

#[test]
fn one_undeclared_key_is_named() {
    let schema = parse_schema_str("endpoint = string\ndebug = bool\nlog.file = string").unwrap();
    let config =
        parse_str("endpoint = x\ndebug = true\nlog.file = f\nlog.level = 3").unwrap();
    let err = validate(&config, &schema).unwrap_err();
    match &err {
        SchemaValidationError::UnknownKey { key } => assert_eq!(key, "log.level"),
        _ => panic!("expected UnknownKey"),
    }
    assert_eq!(
        err.to_string(),
        "validation error: key 'log.level' is not defined in schema"
    );
}

#[test]
fn a_table_where_a_leaf_is_declared_is_not_that_leaf() {
    let schema = parse_schema_str("log = string").unwrap();
    let config = parse_str("log.file = f").unwrap();
    let err = validate(&config, &schema).unwrap_err();
    match &err {
        SchemaValidationError::UnknownKey { key } => assert_eq!(key, "log.file"),
        _ => panic!("expected UnknownKey"),
    }
}

#[test]
fn one_value_of_the_wrong_type_is_named() {
    let schema = parse_schema_str("a = string\nnet.port = int\nratio = number").unwrap();
    let config = parse_str("a = x\nnet.port = eighty\nratio = 1.5").unwrap();
    let err = validate(&config, &schema).unwrap_err();
    match &err {
        SchemaValidationError::InvalidType { key, expected, value } => {
            assert_eq!(key, "net.port");
            assert_eq!(expected, "integer");
            assert_eq!(value, "eighty");
        }
        _ => panic!("expected InvalidType"),
    }
    assert_eq!(
        err.to_string(),
        "validation error: key 'net.port' expected type 'integer', got value 'eighty'"
    );
    let config = parse_str("ratio = fast").unwrap();
    let err = validate(&config, &schema).unwrap_err();
    match &err {
        SchemaValidationError::InvalidType { key, expected, value } => {
            assert_eq!(key, "ratio");
            assert_eq!(expected, "float");
            assert_eq!(value, "fast");
        }
        _ => panic!("expected InvalidType"),
    }
}

#[test]
fn a_violation_is_reported_whichever_it_is() {
    let schema = parse_schema_str("a = int").unwrap();
    let config = parse_str("a = x\nb = 1").unwrap();
    let err = validate(&config, &schema).unwrap_err();
    match &err {
        SchemaValidationError::UnknownKey { key } => assert_eq!(key, "b"),
        SchemaValidationError::InvalidType { key, expected, value } => {
            assert_eq!(key, "a");
            assert_eq!(expected, "integer");
            assert_eq!(value, "x");
        }
    }
}

#[test]
fn validation_under_a_prefix() {
    let mut schema = Schema::new();
    schema.insert("root.a".to_string(), SchemaType::Integer);
    let config = parse_str("a = 5").unwrap();
    assert!(validate_impl(&config, "root", &schema).is_ok());
    assert!(validate(&config, &schema).is_err());
}

#[test]
fn schemas_are_equal_when_they_declare_the_same() {
    let a = parse_schema_str("x = int\ny.z = bool").unwrap();
    let b = parse_schema_str("y.z = boolean\n# note\nx = integer").unwrap();
    assert_eq!(a, b);
    assert_eq!(a.clone(), a);
    assert_eq!(a.duplicate(), b);
    let c = parse_schema_str("x = int\ny.z = string").unwrap();
    assert_ne!(a, c);
    let d = parse_schema_str("x = int").unwrap();
    assert_ne!(a, d);
    assert_ne!(d, a);
    let e = parse_schema_str("x = int\ny.w = bool").unwrap();
    assert_ne!(a, e);
    assert_eq!(Schema::new(), Schema::new());
}

#[test]
fn the_entries_of_a_schema_can_be_walked() {
    let schema = parse_schema_str("b = bool\na = int").unwrap();
    let mut seen: Vec<(String, SchemaType)> = Vec::new();
    let mut i = 0;
    while let Some((k, t)) = schema.nth(i) {
        seen.push((k.clone(), *t));
        i += 1;
    }
    seen.sort_by(|x, y| x.0.cmp(&y.0));
    assert_eq!(
        seen,
        vec![("a".to_string(), SchemaType::Integer), ("b".to_string(), SchemaType::Bool)]
    );
    assert!(schema.contains_key("a"));
    assert!(!schema.contains_key("c"));
}

#[test]
fn a_later_declaration_replaces_the_first() {
    let schema = parse_schema_str("a = int\na = bool").unwrap();
    assert_eq!(schema.len(), 1);
    assert_eq!(schema.get("a"), Some(&SchemaType::Bool));
}
