use configstack::{ConfigStack, Lookup};
use serde_yaml::{from_str, Value};

fn yaml(text: &str) -> Value {
    from_str(text).unwrap()
}

#[test]
fn yaml_test_lookup() {
    let v1 = yaml("a:\n  b:\n    c: 1\n    d:\n      - 1\n      - 2\n      - 3\n  e: 1\n");
    let v2 = yaml("a:\n  b:\n    c: 2\n");
    let stack: ConfigStack<Value> = ConfigStack::new().push(v1).push(v2);
    assert_eq!(stack.get("a/b/c"), Lookup::Found(&yaml("2")));
    assert_eq!(stack.get("a/e"), Lookup::Found(&yaml("1")));
    assert_eq!(stack.get("a/b/d"), Lookup::Found(&yaml("[1, 2, 3]")));
    assert_eq!(stack.get("a/b/x"), Lookup::Missing);
}

#[test]
fn yaml_only_string_keys_are_members() {
    let doc = yaml("1: one\n\"1\": uno\nseq:\n  - x\n");
    let stack: ConfigStack<Value> = ConfigStack::new().push(doc);
    assert_eq!(stack.get("1"), Lookup::Found(&yaml("uno")));
    assert_eq!(stack.get("seq/0"), Lookup::Missing);
    assert_eq!(stack.get("seq"), Lookup::Found(&yaml("[x]")));
}

#[test]
fn yaml_scalar_does_not_hide_deeper_path_below() {
    let base = yaml("a:\n  b:\n    c: deep\n");
    let top = yaml("a:\n  b: flat\n");
    let stack: ConfigStack<Value> = ConfigStack::new().with_path_sep('.').push(base).push(top);
    assert_eq!(stack.get("a.b.c"), Lookup::Found(&yaml("deep")));
    assert_eq!(stack.get("a.b"), Lookup::Found(&yaml("flat")));
}
