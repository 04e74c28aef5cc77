use rson::{Rson, Value};

#[derive(Debug, PartialEq)]
struct A {
    b: u32,
}

fn record(value: &Value) -> Option<A> {
    match value.get("b") {
        Some(Value::Number(n)) => n.as_str().parse().ok().map(|b| A { b }),
        _ => None,
    }
}

#[test]
fn test_derive() {
    let parsed = Rson::from_reader(r#"{"b": 17}"#.as_bytes()).unwrap();
    assert_eq!(record(&parsed), Some(A { b: 17 }));
    let other = Rson::from_reader(r#"{"c": 17}"#.as_bytes()).unwrap();
    assert_eq!(record(&other), None);
}
