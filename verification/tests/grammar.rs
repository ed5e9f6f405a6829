use sysctl_conf::parser::{read_line, Line};
use sysctl_conf::text::from_chars;
use sysctl_conf::value::get_nested;
use sysctl_conf::{parse_str, Table, Value};

fn leaf(s: &str) -> Value {
    Value::String(s.to_string())
}

fn reading(s: &str) -> String {
    let cs: Vec<char> = s.chars().collect();
    match read_line(&cs) {
        Line::Skip => "skip".to_string(),
        Line::Assign { key, value } => format!("{}|{}", from_chars(key), from_chars(value)),
        Line::MissingEquals => "missing".to_string(),
        Line::EmptyKey => "empty".to_string(),
    }
}

#[test]
fn lines_that_say_nothing() {
    for s in ["", "   ", "\t", "# comment", "; comment", "   # indented", "#", ";", "#a = b",
        ";a = b", "-", " - ", "-   ", "\r"]
    {
        assert_eq!(reading(s), "skip", "{:?}", s);
    }
}

#[test]
fn lines_that_assign() {
    assert_eq!(reading("a=b"), "a|b");
    assert_eq!(reading("  a  =  b  "), "a|b");
    assert_eq!(reading("a = b = c"), "a|b = c");
    assert_eq!(reading("a ="), "a|");
    assert_eq!(reading("a = # not a comment"), "a|# not a comment");
    assert_eq!(reading("-a = b"), "a|b");
    assert_eq!(reading("  -  a = b"), "a|b");
    assert_eq!(reading("--a = b"), "-a|b");
    assert_eq!(reading("-#a = b"), "#a|b");
    assert_eq!(reading("a-b = c-d"), "a-b|c-d");
    assert_eq!(reading("a.b = c"), "a.b|c");
    assert_eq!(reading("endpoint = localhost:3000\r"), "endpoint|localhost:3000");
    assert_eq!(reading("\u{00A0}k\u{3000}=\u{2003}v\u{2003}"), "k|v");
}

#[test]
fn lines_that_are_malformed() {
    assert_eq!(reading("justtext"), "missing");
    assert_eq!(reading("- justtext"), "missing");
    assert_eq!(reading("a b c"), "missing");
    assert_eq!(reading("-#"), "missing");
    assert_eq!(reading("= value"), "empty");
    assert_eq!(reading("="), "empty");
    assert_eq!(reading("   =   "), "empty");
    assert_eq!(reading("- = x"), "empty");
}

#[test]
fn a_valid_line_gives_its_trimmed_value_under_its_dotted_path() {
    let got = parse_str("  net.ipv4.ip_forward   =   1  ").unwrap();
    assert_eq!(get_nested(&got, "net.ipv4.ip_forward"), Some(&leaf("1")));
    let got = parse_str("a = 1\nmessage =   hello   world  \nb = 2").unwrap();
    assert_eq!(get_nested(&got, "message"), Some(&leaf("hello   world")));
    assert_eq!(got.len(), 3);
}

#[test]
fn comments_and_blank_lines_change_nothing() {
    let plain = parse_str("a = 1\nb.c = 2\nd = 3").unwrap();
    for text in [
        "# first\na = 1\nb.c = 2\nd = 3",
        "a = 1\n; between\nb.c = 2\nd = 3",
        "a = 1\nb.c = 2\n\n   \n# x = y\nd = 3",
        "a = 1\nb.c = 2\nd = 3\n# last",
        "\n\na = 1\n\nb.c = 2\n\nd = 3\n\n",
        ";\n#\na = 1\n#\nb.c = 2\n;\nd = 3\n#",
    ] {
        assert_eq!(parse_str(text).unwrap(), plain, "{:?}", text);
    }
    let err = parse_str("a = 1\noops").unwrap_err();
    assert_eq!(err.line, 2);
    let err = parse_str("a = 1\n# note\noops").unwrap_err();
    assert_eq!(err.line, 3);
    assert_eq!(err.message, "missing '='");
    let err = parse_str("oops\n# note\na = 1").unwrap_err();
    assert_eq!(err.line, 1);
}

#[test]
fn a_leading_minus_is_dropped() {
    assert_eq!(parse_str("-a.b = c").unwrap(), parse_str("a.b = c").unwrap());
    let got = parse_str("-a.b = c").unwrap();
    assert_eq!(get_nested(&got, "a.b"), Some(&leaf("c")));
    assert_eq!(
        parse_str("x = 1\n  -  a.b = c\ny = 2").unwrap(),
        parse_str("x = 1\na.b = c\ny = 2").unwrap()
    );
    let got = parse_str("a-b = c-d").unwrap();
    assert_eq!(got.get("a-b"), Some(&leaf("c-d")));
}

#[test]
fn the_last_write_wins() {
    let got = parse_str("a = 1\na = 2").unwrap();
    assert_eq!(got.get("a"), Some(&leaf("2")));
    assert_eq!(got.len(), 1);
    let got = parse_str("a.b = 1\nc = 0\na.b = 2").unwrap();
    assert_eq!(get_nested(&got, "a.b"), Some(&leaf("2")));
    assert_eq!(got.len(), 2);
}

#[test]
fn the_deeper_path_wins_over_a_leaf() {
    let got = parse_str("a = x\na.b = y").unwrap();
    let mut a = Table::new();
    a.insert("b".to_string(), leaf("y"));
    assert_eq!(got.get("a"), Some(&Value::Table(a)));
    assert_eq!(got.len(), 1);
    let got = parse_str("a.b = y\na = x").unwrap();
    assert_eq!(got.get("a"), Some(&leaf("x")));
}

#[test]
fn a_missing_equals_sign_is_reported_with_its_line() {
    let err = parse_str("justtext").unwrap_err();
    assert_eq!(err.line, 1);
    assert_eq!(err.message, "missing '='");
    let err = parse_str("a = 1\n\n# c\njusttext\nb = 2").unwrap_err();
    assert_eq!(err.line, 4);
    assert_eq!(err.message, "missing '='");
    assert_eq!(err.to_string(), "line 4: missing '='");
    let err = parse_str("\r\n\r\nfoo\r\n").unwrap_err();
    assert_eq!(err.line, 3);
}

#[test]
fn an_empty_key_is_reported_with_its_line() {
    let err = parse_str("a = 1\n = 2").unwrap_err();
    assert_eq!(err.line, 2);
    assert_eq!(err.message, "empty key");
    assert_eq!(err.to_string(), "line 2: empty key");
    let err = parse_str("=").unwrap_err();
    assert_eq!(err.line, 1);
}

#[test]
fn the_first_malformed_line_ends_the_parse() {
    let err = parse_str("a = 1\n= 2\njusttext").unwrap_err();
    assert_eq!(err.line, 2);
    assert_eq!(err.message, "empty key");
    let mut text = String::new();
    for _ in 0..120 {
        text.push_str("k = v\n");
    }
    text.push_str("bad");
    let err = parse_str(&text).unwrap_err();
    assert_eq!(err.line, 121);
    assert_eq!(err.to_string(), "line 121: missing '='");
}

#[test]
fn empty_input_gives_an_empty_table() {
    assert_eq!(parse_str("").unwrap(), Table::new());
    assert_eq!(parse_str("\n\n").unwrap(), Table::new());
    assert_eq!(parse_str("# only a comment").unwrap(), Table::new());
}

#[test]
fn line_endings_with_carriage_returns() {
    let got = parse_str("a = 1\r\nb.c = 2\r\n").unwrap();
    assert_eq!(got.get("a"), Some(&leaf("1")));
    assert_eq!(get_nested(&got, "b.c"), Some(&leaf("2")));
    let got = parse_str("a = 1\rb = 2").unwrap();
    assert_eq!(got.get("a"), Some(&leaf("1\rb = 2")));
}

#[test]
fn an_empty_segment_is_a_key_like_any_other() {
    let got = parse_str("log..file = x").unwrap();
    let mut innermost = Table::new();
    innermost.insert("file".to_string(), leaf("x"));
    let mut middle = Table::new();
    middle.insert("".to_string(), Value::Table(innermost));
    assert_eq!(got.get("log"), Some(&Value::Table(middle)));
    let got = parse_str(". = x").unwrap();
    let mut inner = Table::new();
    inner.insert("".to_string(), leaf("x"));
    assert_eq!(got.get(""), Some(&Value::Table(inner)));
}

#[test]
fn text_beyond_ascii() {
    let got = parse_str("gr\u{fc}\u{df}e.w\u{f6}rt = sch\u{f6}n \u{1F600}").unwrap();
    assert_eq!(
        get_nested(&got, "gr\u{fc}\u{df}e.w\u{f6}rt"),
        Some(&leaf("sch\u{f6}n \u{1F600}"))
    );
}
