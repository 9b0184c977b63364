use sandl::{FromValue, Number, ToValue, Value};

#[test]
fn from_value_i64() {
    let v = Value::Number(Number::Int(42));
    assert_eq!(i64::from_value(&v).unwrap(), 42);
}

#[test]
fn from_value_option() {
    let v = Value::Null;
    let opt: Option<i32> = FromValue::from_value(&v).unwrap();
    assert_eq!(opt, None);

    let v = Value::Number(Number::Int(42));
    let opt: Option<i32> = FromValue::from_value(&v).unwrap();
    assert_eq!(opt, Some(42));
}

#[test]
fn from_value_vec() {
    let v = Value::Array(vec![
        Value::Number(Number::Int(1)),
        Value::Number(Number::Int(2)),
        Value::Number(Number::Int(3)),
    ]);
    let arr: Vec<i32> = FromValue::from_value(&v).unwrap();
    assert_eq!(arr, vec![1, 2, 3]);
}

#[test]
fn to_value_vec() {
    let arr: Vec<i64> = vec![1, 2, 3];
    let v = arr.to_value();
    assert_eq!(v.as_array().unwrap().len(), 3);
}

#[test]
fn from_value_shape_mismatch() {
    let v = Value::Text("nope".to_string());
    assert!(i64::from_value(&v).is_err());
    assert!(bool::from_value(&v).is_err());
    let v2 = Value::Bool(true);
    assert!(String::from_value(&v2).is_err());
    assert!(<Vec<i64> as FromValue>::from_value(&v2).is_err());
}

#[test]
fn value_accessors() {
    assert!(Value::null().is_null());
    assert_eq!(Value::Bool(true).as_bool(), Some(true));
    assert_eq!(Value::Number(Number::UnsignedInt(7)).as_u64(), Some(7));
    assert_eq!(Value::Number(Number::Size(9)).as_size(), Some(9));
    assert_eq!(Value::Text("hi".to_string()).as_str(), Some("hi"));
    assert!(Value::Null.as_bool().is_none());
    assert!(Value::Null.as_i64().is_none());

    let arr = Value::Array(vec![Value::Bool(false), Value::Bool(true)]);
    assert_eq!(arr.get_index(1).unwrap().as_bool(), Some(true));
    assert!(arr.get_index(2).is_none());

    let o = Value::Object(vec![
        ("a".to_string(), Value::Number(Number::Int(1))),
        ("b".to_string(), Value::Number(Number::Int(2))),
    ]);
    assert_eq!(o.get("a").unwrap().as_i64(), Some(1));
    assert_eq!(o.get("b").unwrap().as_i64(), Some(2));
    assert!(o.get("c").is_none());
    assert!(Value::Null.get("a").is_none());
}

#[test]
fn deep_clone_matches() {
    let o = Value::Object(vec![
        ("a".to_string(), Value::Array(vec![Value::Number(Number::Int(1))])),
        ("b".to_string(), Value::Text("x".to_string())),
    ]);
    let c = o.deep_clone();
    assert_eq!(c.get("a").unwrap().get_index(0).unwrap().as_i64(), Some(1));
    assert_eq!(c.get("b").unwrap().as_str(), Some("x"));
}
