use configstack::{ConfigStack, Lookup};
use serde_hjson::{from_str, Result, Value};

fn hjson_layered() -> Result<ConfigStack<Value>> {
    let stack: ConfigStack<Value> = ConfigStack::new();

    let s1 = r#"
                a: {
                    b: {
                        c: 1
                        d: [
                            1
                            2
                            3
                        ]
                    }
                    e: 1
                }
            "#;
    let v1: Value = from_str(s1)?;

    let s2 = r#"
                a: {
                    b: {
                        c: 2
                    }
                }
            "#;
    let v2: Value = from_str(s2)?;
    Ok(stack.push(v1).push(v2))
}

#[test]
fn hjson_lookup_through_layers() {
    match hjson_layered() {
        Ok(stack) => {
            let data = from_str("2").unwrap();
            let expected: Lookup<&Value> = Lookup::Found(&data);
            let actual = stack.get("a/b/c");
            assert_eq!(actual, expected);
            assert_eq!(stack.get("a/e"), Lookup::Found(&Value::U64(1)));
            let list = Value::Array(vec![Value::U64(1), Value::U64(2), Value::U64(3)]);
            assert_eq!(stack.get("a/b/d"), Lookup::Found(&list));
            assert_eq!(stack.get("a/b/x"), Lookup::Missing);
        }
        _ => assert!(false),
    }
}

#[test]
fn hjson_object_members_are_found_by_key() {
    let doc: Value = from_str("{\n  svc: {\n    port: 8080\n    name: web\n  }\n  list: [1, 2]\n}").unwrap();
    let stack: ConfigStack<Value> = ConfigStack::new().with_path_sep('.').push(doc);
    assert_eq!(stack.get("svc.port"), Lookup::Found(&Value::U64(8080)));
    assert_eq!(stack.get("svc.name"), Lookup::Found(&Value::String("web".to_string())));
    assert_eq!(stack.get("svc.missing"), Lookup::Missing);
    assert_eq!(stack.get("list.0"), Lookup::Missing);
    assert_eq!(stack.get("svc.port.deeper"), Lookup::Missing);
}

#[test]
fn hjson_layers_fall_through() {
    let base: Value = from_str("{\n  a: {\n    b: {\n      c: 1\n    }\n    e: 3\n  }\n}").unwrap();
    let top: Value = from_str("{\n  a: {\n    b: 9\n  }\n}").unwrap();
    let stack: ConfigStack<Value> = ConfigStack::new().push(base).push(top);
    assert_eq!(stack.get("a/b"), Lookup::Found(&Value::U64(9)));
    assert_eq!(stack.get("a/b/c"), Lookup::Found(&Value::U64(1)));
    assert_eq!(stack.get("a/e"), Lookup::Found(&Value::U64(3)));
}
