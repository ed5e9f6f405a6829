use sysctl_conf::{parse_str, Table, Value};

#[test]
fn example1() {
    let input = r#"
endpoint = localhost:3000
debug = true
log.file = /var/log/console.log
"#;
    let got = parse_str(input).unwrap();
    let mut expected = Table::new();
    expected.insert(
        "endpoint".into(),
        Value::String("localhost:3000".into()),
    );
    expected.insert("debug".into(), Value::String("true".into()));
    let mut log = Table::new();
    log.insert("file".into(), Value::String("/var/log/console.log".into()));
    expected.insert("log".into(), Value::Table(log));
    assert_eq!(got, expected);
}

#[test]
fn example2() {
    let input = r#"
endpoint = localhost:3000
# debug = true
log.file = /var/log/console.log
log.name = default.log
"#;
    let got = parse_str(input).unwrap();
    let mut expected = Table::new();
    expected.insert(
        "endpoint".into(),
        Value::String("localhost:3000".into()),
    );
    let mut log = Table::new();
    log.insert("file".into(), Value::String("/var/log/console.log".into()));
    log.insert("name".into(), Value::String("default.log".into()));
    expected.insert("log".into(), Value::Table(log));
    assert_eq!(got, expected);
}

#[test]
fn blank_lines_and_comments() {
    let input = r#"

# comment
endpoint = localhost
; also comment
other = value
"#;
    let got = parse_str(input).unwrap();
    assert_eq!(
        got.get("endpoint"),
        Some(&Value::String("localhost".into()))
    );
    assert_eq!(
        got.get("other"),
        Some(&Value::String("value".into()))
    );
}

#[test]
fn leading_minus_ignored() {
    let input = "-kernel.foo = bar";
    let got = parse_str(input).unwrap();
    let mut k = Table::new();
    k.insert("foo".into(), Value::String("bar".into()));
    assert_eq!(got.get("kernel"), Some(&Value::Table(k)));
}
