use sandl::{Error, Number, Value};

fn obj(entries: Vec<(&str, Value)>) -> Value {
    Value::Object(entries.into_iter().map(|(k, v)| (k.to_string(), v)).collect())
}

#[test]
fn error_with_context() {
    let inner = Error::ExecutionError("division by zero".to_string());
    let wrapped = inner.with_context(
        "slice_1",
        "math",
        "divide",
        obj(vec![
            ("a", Value::Number(Number::Int(10))),
            ("b", Value::Number(Number::Int(0))),
        ]),
    );

    assert!(wrapped.is_execution_error());

    let (slice, layer, method, _args) = wrapped.execution_context().unwrap();
    assert_eq!(slice, "slice_1");
    assert_eq!(layer, "math");
    assert_eq!(method, "divide");
}

#[test]
fn root_cause() {
    let inner = Error::ExecutionError("root problem".to_string());
    let wrapped = inner.with_context("s1", "l1", "m1", Value::Null);

    let root = wrapped.root_cause();
    assert!(matches!(root, Error::ExecutionError(_)));
    assert_eq!(root.message(), "root problem");
}

#[test]
fn config_errors_not_execution() {
    let err = Error::LayerNotFound("missing".to_string());
    assert!(!err.is_execution_error());
    assert!(err.execution_context().is_none());
}

#[test]
fn error_message() {
    let inner = Error::ExecutionError("inner message".to_string());
    let wrapped = inner.with_context("s", "l", "m", Value::Null);

    // message() should return the inner message, not the full context
    assert_eq!(wrapped.message(), "inner message");
}

#[test]
fn execution_error_macro() {
    let err = Error::ExecutionError(format!("test error"));
    assert!(matches!(err, Error::ExecutionError(_)));

    let err = Error::ExecutionError(format!("value: {}", 42));
    assert_eq!(err.message(), "value: 42");
}

#[test]
fn thiserror_display() {
    let err = Error::LayerNotFound("layer".to_string());
    assert_eq!(err.describe(), "Layer 'layer' not found");

    let err = Error::MethodNotFound { method: "method".to_string(), layer: "layer".to_string() };
    assert_eq!(err.describe(), "Method 'method' not found in layer 'layer'");
}

#[test]
fn describe_each_variant() {
    assert_eq!(
        Error::LayerAlreadyExists("a".to_string()).describe(),
        "Layer 'a' already exists"
    );
    assert_eq!(
        Error::MethodNotBound("m".to_string(), "l".to_string()).describe(),
        "Method 'm' has not been bound in layer 'l'"
    );
    assert_eq!(
        Error::ExecutionError("boom".to_string()).describe(),
        "Execution error: boom"
    );
    assert_eq!(
        Error::ConfigError("bad".to_string()).describe(),
        "Configuration error: bad"
    );
    let wrapped = Error::ExecutionError("x".to_string()).with_context("s", "l", "m", Value::Null);
    assert_eq!(
        wrapped.describe(),
        "Method execution failed in slice 's', layer 'l', method 'm'"
    );
}

#[test]
fn no_double_wrapping_preserves_root() {
    let inner = Error::ExecutionError("deep".to_string());
    let once = inner.with_context("s", "l", "m", Value::Null);
    // the engine never wraps twice; root_cause reaches the original either way
    assert_eq!(once.root_cause().message(), "deep");
    assert!(once.is_execution_error());
}
