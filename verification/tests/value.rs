use sysctl_conf::value::get_nested;
use sysctl_conf::{set_nested, set_nested_rest, Table, Value};

fn leaf(s: &str) -> Value {
    Value::String(s.to_string())
}

#[test]
fn new_table_is_empty() {
    let t = Table::new();
    assert_eq!(t.len(), 0);
    assert!(t.is_empty());
    assert!(t.get("a").is_none());
    assert!(!t.contains_key("a"));
    assert!(t.nth(0).is_none());
}

#[test]
fn insert_then_get() {
    let mut t = Table::new();
    assert!(t.insert("a".to_string(), leaf("1")).is_none());
    assert!(t.insert("b".to_string(), leaf("2")).is_none());
    assert_eq!(t.len(), 2);
    assert!(!t.is_empty());
    assert_eq!(t.get("a"), Some(&leaf("1")));
    assert_eq!(t.get("b"), Some(&leaf("2")));
    assert_eq!(t.get("c"), None);
    assert!(t.contains_key("b"));
    assert!(!t.contains_key("B"));
    assert!(!t.contains_key(""));
}

#[test]
fn insert_replaces_and_hands_back_the_old_value() {
    let mut t = Table::new();
    t.insert("a".to_string(), leaf("1"));
    t.insert("b".to_string(), leaf("2"));
    let old = t.insert("a".to_string(), leaf("3"));
    assert_eq!(old, Some(leaf("1")));
    assert_eq!(t.len(), 2);
    assert_eq!(t.get("a"), Some(&leaf("3")));
    assert_eq!(t.get("b"), Some(&leaf("2")));
}

#[test]
fn entries_come_out_once_each() {
    let mut t = Table::new();
    t.insert("x".to_string(), leaf("1"));
    t.insert("y".to_string(), leaf("2"));
    t.insert("x".to_string(), leaf("3"));
    let mut seen: Vec<(String, Value)> = Vec::new();
    let mut i = 0;
    while let Some((k, v)) = t.nth(i) {
        seen.push((k.clone(), v.clone()));
        i += 1;
    }
    assert_eq!(i, t.len());
    seen.sort_by(|a, b| a.0.cmp(&b.0));
    assert_eq!(seen, vec![("x".to_string(), leaf("3")), ("y".to_string(), leaf("2"))]);
    assert!(t.nth(2).is_none());
    assert!(t.nth(usize::MAX).is_none());
}

#[test]
fn equality_does_not_depend_on_the_order_of_insertion() {
    let mut a = Table::new();
    a.insert("x".to_string(), leaf("1"));
    a.insert("y".to_string(), leaf("2"));
    let mut b = Table::new();
    b.insert("y".to_string(), leaf("2"));
    b.insert("x".to_string(), leaf("1"));
    assert_eq!(a, b);
    assert!(a.same(&b));
    let mut inner_a = Table::new();
    inner_a.insert("p".to_string(), leaf("1"));
    inner_a.insert("q".to_string(), leaf("2"));
    let mut inner_b = Table::new();
    inner_b.insert("q".to_string(), leaf("2"));
    inner_b.insert("p".to_string(), leaf("1"));
    a.insert("n".to_string(), Value::Table(inner_a));
    b.insert("n".to_string(), Value::Table(inner_b));
    assert_eq!(a, b);
    assert_eq!(Value::Table(a), Value::Table(b));
}

#[test]
fn equality_tells_tables_apart() {
    let mut a = Table::new();
    a.insert("x".to_string(), leaf("1"));
    let mut b = Table::new();
    b.insert("x".to_string(), leaf("2"));
    assert_ne!(a, b);
    let mut c = Table::new();
    c.insert("y".to_string(), leaf("1"));
    assert_ne!(a, c);
    let mut d = Table::new();
    d.insert("x".to_string(), leaf("1"));
    d.insert("y".to_string(), leaf("1"));
    assert_ne!(a, d);
    assert_ne!(d, a);
    assert_ne!(a, Table::new());
    assert_eq!(Table::new(), Table::new());
    assert_ne!(leaf(""), Value::Table(Table::new()));
    assert_ne!(Value::Table(Table::new()), leaf(""));
    assert_ne!(leaf("a"), leaf("b"));
    assert_eq!(leaf("a"), leaf("a"));
    let mut e = Table::new();
    e.insert("x".to_string(), Value::Table(Table::new()));
    assert_ne!(a, e);
}

#[test]
fn a_clone_is_equal_and_independent() {
    let mut inner = Table::new();
    inner.insert("file".to_string(), leaf("/var/log"));
    let mut t = Table::new();
    t.insert("log".to_string(), Value::Table(inner));
    t.insert("debug".to_string(), leaf("true"));
    let mut copy = t.clone();
    assert_eq!(copy, t);
    assert_eq!(t.duplicate(), t);
    copy.insert("debug".to_string(), leaf("false"));
    assert_ne!(copy, t);
    assert_eq!(t.get("debug"), Some(&leaf("true")));
    let v = leaf("x");
    assert_eq!(v.clone(), v);
    assert_eq!(v.duplicate(), v);
}

#[test]
fn set_nested_with_one_segment_sets_a_leaf() {
    let mut t = Table::new();
    set_nested(&mut t, "a", leaf("1"));
    assert_eq!(t.get("a"), Some(&leaf("1")));
    set_nested(&mut t, "a", leaf("2"));
    assert_eq!(t.get("a"), Some(&leaf("2")));
    assert_eq!(t.len(), 1);
}

#[test]
fn set_nested_creates_the_tables_on_the_way() {
    let mut t = Table::new();
    set_nested(&mut t, "a.b.c", leaf("1"));
    set_nested(&mut t, "a.b.d", leaf("2"));
    set_nested(&mut t, "a.e", leaf("3"));
    let mut b = Table::new();
    b.insert("c".to_string(), leaf("1"));
    b.insert("d".to_string(), leaf("2"));
    let mut a = Table::new();
    a.insert("b".to_string(), Value::Table(b));
    a.insert("e".to_string(), leaf("3"));
    let mut want = Table::new();
    want.insert("a".to_string(), Value::Table(a));
    assert_eq!(t, want);
}

#[test]
fn set_nested_replaces_a_leaf_on_the_way_by_a_table() {
    let mut t = Table::new();
    set_nested(&mut t, "log", leaf("x"));
    set_nested(&mut t, "other", leaf("kept"));
    set_nested(&mut t, "log.file", leaf("y"));
    let mut log = Table::new();
    log.insert("file".to_string(), leaf("y"));
    assert_eq!(t.get("log"), Some(&Value::Table(log)));
    assert_eq!(t.get("other"), Some(&leaf("kept")));
    assert_eq!(t.len(), 2);
}

#[test]
fn set_nested_replaces_a_table_by_a_leaf_at_the_end() {
    let mut t = Table::new();
    set_nested(&mut t, "log.file", leaf("y"));
    set_nested(&mut t, "log", leaf("x"));
    assert_eq!(t.get("log"), Some(&leaf("x")));
    assert_eq!(t.len(), 1);
}

#[test]
fn set_nested_trims_segments_and_keeps_empty_ones() {
    let mut t = Table::new();
    set_nested(&mut t, " log . file ", leaf("x"));
    assert_eq!(get_nested(&t, "log.file"), Some(&leaf("x")));
    let mut u = Table::new();
    set_nested(&mut u, "log..file", leaf("x"));
    let mut innermost = Table::new();
    innermost.insert("file".to_string(), leaf("x"));
    let mut middle = Table::new();
    middle.insert("".to_string(), Value::Table(innermost));
    let mut want = Table::new();
    want.insert("log".to_string(), Value::Table(middle));
    assert_eq!(u, want);
    let mut w = Table::new();
    set_nested(&mut w, "", leaf("x"));
    assert_eq!(w.get(""), Some(&leaf("x")));
    let mut z = Table::new();
    set_nested(&mut z, "a.", leaf("x"));
    let mut a = Table::new();
    a.insert("".to_string(), leaf("x"));
    assert_eq!(z.get("a"), Some(&Value::Table(a)));
}

#[test]
fn set_nested_rest_takes_the_segments_as_they_are() {
    let mut t = Table::new();
    set_nested_rest(&mut t, &[], leaf("x"));
    assert!(t.is_empty());
    set_nested_rest(&mut t, &["a.b".to_string()], leaf("x"));
    assert_eq!(t.get("a.b"), Some(&leaf("x")));
    set_nested_rest(&mut t, &[" a".to_string(), "b ".to_string()], leaf("y"));
    let mut inner = Table::new();
    inner.insert("b ".to_string(), leaf("y"));
    assert_eq!(t.get(" a"), Some(&Value::Table(inner)));
    assert_eq!(t.len(), 2);
}

#[test]
fn get_nested_follows_the_segments() {
    let mut t = Table::new();
    set_nested(&mut t, "a.b.c", leaf("1"));
    set_nested(&mut t, "top", leaf("2"));
    assert_eq!(get_nested(&t, "a.b.c"), Some(&leaf("1")));
    assert_eq!(get_nested(&t, " a . b . c "), Some(&leaf("1")));
    assert_eq!(get_nested(&t, "top"), Some(&leaf("2")));
    assert_eq!(get_nested(&t, "top.x"), None);
    assert_eq!(get_nested(&t, "a.b.c.d"), None);
    assert_eq!(get_nested(&t, "a.x"), None);
    assert_eq!(get_nested(&t, "x"), None);
    assert_eq!(get_nested(&t, ""), None);
    let mut c = Table::new();
    c.insert("c".to_string(), leaf("1"));
    assert_eq!(get_nested(&t, "a.b"), Some(&Value::Table(c)));
}

#[test]
fn a_dictionary_of_numbers() {
    let mut d: sysctl_conf::Dict<u32> = sysctl_conf::Dict::new();
    assert!(d.is_empty());
    assert_eq!(d.insert("one".to_string(), 1), None);
    assert_eq!(d.insert("two".to_string(), 2), None);
    assert_eq!(d.insert("one".to_string(), 11), Some(1));
    assert_eq!(d.len(), 2);
    assert_eq!(d.get("one"), Some(&11));
    assert_eq!(d.get("two"), Some(&2));
    assert_eq!(d.get("three"), None);
    assert!(d.contains_key("two"));
    assert!(!d.contains_key("Two"));
    assert_eq!(d.nth(0).map(|(k, v)| (k.as_str(), *v)), Some(("one", 11)));
    assert_eq!(d.nth(1).map(|(k, v)| (k.as_str(), *v)), Some(("two", 2)));
    assert!(d.nth(2).is_none());
    let copy = d.duplicate();
    assert_eq!(copy.len(), 2);
    assert_eq!(copy.get("one"), Some(&11));
    let other = d.clone();
    assert_eq!(other.get("two"), Some(&2));
}

#[test]
fn the_default_is_empty() {
    let t = Table::default();
    assert!(t.is_empty());
    assert_eq!(t, Table::new());
    let d: sysctl_conf::Dict<bool> = Default::default();
    assert_eq!(d.len(), 0);
}
