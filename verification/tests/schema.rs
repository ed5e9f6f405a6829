use sysctl_conf::{parse_schema_str, parse_str, validate, SchemaType, SchemaValidationError};

#[test]
fn parse_schema_example() {
    let input = r#"
endpoint = string
debug = bool
log.file = string
retry = integer
"#;
    let schema = parse_schema_str(input).unwrap();
    assert_eq!(schema.get("endpoint"), Some(&SchemaType::String));
    assert_eq!(schema.get("debug"), Some(&SchemaType::Bool));
    assert_eq!(schema.get("log.file"), Some(&SchemaType::String));
    assert_eq!(schema.get("retry"), Some(&SchemaType::Integer));
}

#[test]
fn validate_ok() {
    let schema_input = "endpoint = string\ndebug = bool\nlog.file = string\n";
    let config_input = r#"
endpoint = localhost:3000
debug = true
log.file = /var/log/console.log
"#;
    let schema = parse_schema_str(schema_input).unwrap();
    let config = parse_str(config_input).unwrap();
    assert!(validate(&config, &schema).is_ok());
}

#[test]
fn validate_unknown_key() {
    let schema_input = "endpoint = string\n";
    let config_input = "endpoint = localhost\nunknown = value\n";
    let schema = parse_schema_str(schema_input).unwrap();
    let config = parse_str(config_input).unwrap();
    let err = validate(&config, &schema).unwrap_err();
    match &err {
        SchemaValidationError::UnknownKey { key } => assert_eq!(key, "unknown"),
        _ => panic!("expected UnknownKey"),
    }
}

#[test]
fn validate_invalid_type_bool() {
    let schema_input = "debug = bool\n";
    let config_input = "debug = notabool\n";
    let schema = parse_schema_str(schema_input).unwrap();
    let config = parse_str(config_input).unwrap();
    let err = validate(&config, &schema).unwrap_err();
    match &err {
        SchemaValidationError::InvalidType { key, expected, value } => {
            assert_eq!(key, "debug");
            assert_eq!(expected, "bool");
            assert_eq!(value, "notabool");
        }
        _ => panic!("expected InvalidType"),
    }
}

#[test]
fn validate_invalid_type_integer() {
    let schema_input = "retry = integer\n";
    let config_input = "retry = abc\n";
    let schema = parse_schema_str(schema_input).unwrap();
    let config = parse_str(config_input).unwrap();
    let err = validate(&config, &schema).unwrap_err();
    match &err {
        SchemaValidationError::InvalidType { expected, .. } => assert_eq!(expected, "integer"),
        _ => panic!("expected InvalidType"),
    }
}
