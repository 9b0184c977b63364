use std::sync::atomic::{AtomicUsize, Ordering};
use std::sync::Arc;

use sandl::{
    Context, Engine, Error, Layer, LayerArgs, MethodConfig, MethodFn, NullSink, Number, RunFlags,
    Slice, Value,
};

fn num(i: i64) -> Value {
    Value::Number(Number::Int(i))
}

fn empty_obj() -> Value {
    Value::Object(Vec::new())
}

struct Call(fn(&Value, &mut Context) -> Result<Value, Error>);

impl MethodFn for Call {
    fn invoke(&self, args: &Value, ctx: &mut Context) -> Result<Value, Error> {
        (self.0)(args, ctx)
    }
}

fn quick_layer(layer: &str, method: &str, f: fn(&Value, &mut Context) -> Result<Value, Error>) -> Layer<Call> {
    let mut l: Layer<Call> = Layer::new(layer.to_string()).with_method(MethodConfig {
        name: method.to_string(),
        default: Value::Null,
    });
    l.bind(method, Call(f)).unwrap();
    l
}

fn default_slice(name: &str, layer: &str, method: &str) -> Slice {
    Slice::new(name.to_string()).with_layer(LayerArgs {
        layer: layer.to_string(),
        methods_args: vec![(method.to_string(), Value::Null)],
    })
}

#[test]
fn context_basic_operations() {
    let mut ctx = Context::new();

    ctx.set("name", Value::Text("Alice".to_string()));
    assert_eq!(ctx.get("name").unwrap().as_str(), Some("Alice"));

    assert!(ctx.contains("name"));
    assert!(!ctx.contains("age"));

    let removed = ctx.remove("name");
    assert!(removed.is_some());
    assert!(!ctx.contains("name"));
}

#[test]
fn context_basic_set_get() {
    let layer1 = quick_layer("layer1", "set", |_args, ctx| {
        ctx.set("key", Value::Number(Number::Int(42)));
        Ok(empty_obj())
    });
    let layer2 = quick_layer("layer2", "get", |_args, ctx| {
        let value = ctx.get("key").unwrap();
        assert_eq!(value.as_i64().unwrap(), 42);
        Ok(empty_obj())
    });

    let slice = Slice::new("test".to_string())
        .with_layer(LayerArgs {
            layer: "layer1".to_string(),
            methods_args: vec![("set".to_string(), Value::Null)],
        })
        .with_layer(LayerArgs {
            layer: "layer2".to_string(),
            methods_args: vec![("get".to_string(), Value::Null)],
        });

    let mut engine: Engine<Call, NullSink> = Engine::new();
    engine.register_layer(layer1).unwrap();
    engine.register_layer(layer2).unwrap();
    engine.add_dependency("layer2", "layer1").unwrap();
    engine.register_slice(slice);

    engine.run(RunFlags::silent());
}

#[test]
fn context_missing_key() {
    let layer = quick_layer("layer", "work", |_args, ctx| {
        let value = ctx.get("nonexistent");
        assert!(value.is_none());
        Ok(empty_obj())
    });
    let slice = default_slice("test", "layer", "work");

    let mut engine: Engine<Call, NullSink> = Engine::new();
    engine.register_layer(layer).unwrap();
    engine.register_slice(slice);
    engine.run(RunFlags::silent());
}

#[test]
fn context_contains() {
    let layer = quick_layer("layer", "work", |_args, ctx| {
        assert!(!ctx.contains("key"));

        ctx.set("key", Value::Number(Number::Int(42)));
        assert!(ctx.contains("key"));

        ctx.remove("key");
        assert!(!ctx.contains("key"));

        Ok(empty_obj())
    });
    let slice = default_slice("test", "layer", "work");

    let mut engine: Engine<Call, NullSink> = Engine::new();
    engine.register_layer(layer).unwrap();
    engine.register_slice(slice);
    engine.run(RunFlags::silent());
}

#[test]
fn context_overwrite() {
    let layer = quick_layer("layer", "work", |_args, ctx| {
        ctx.set("key", Value::Number(Number::Int(10)));
        assert_eq!(ctx.get("key").unwrap().as_i64().unwrap(), 10);

        ctx.set("key", Value::Number(Number::Int(20)));
        assert_eq!(ctx.get("key").unwrap().as_i64().unwrap(), 20);

        Ok(empty_obj())
    });
    let slice = default_slice("test", "layer", "work");

    let mut engine: Engine<Call, NullSink> = Engine::new();
    engine.register_layer(layer).unwrap();
    engine.register_slice(slice);
    engine.run(RunFlags::silent());
}

#[test]
fn context_type_conversion_error() {
    let layer = quick_layer("layer", "work", |_args, ctx| {
        ctx.set("key", Value::Text("not a number".to_string()));

        let result: Result<i64, Error> = ctx.get_as("key");
        assert!(result.is_err());

        Ok(empty_obj())
    });
    let slice = default_slice("test", "layer", "work");

    let mut engine: Engine<Call, NullSink> = Engine::new();
    engine.register_layer(layer).unwrap();
    engine.register_slice(slice);
    engine.run(RunFlags::silent());
}

#[test]
fn context_clear() {
    let layer = quick_layer("layer", "work", |_args, ctx| {
        ctx.set("a", num(1));
        ctx.set("b", num(2));
        ctx.set("c", num(3));

        assert_eq!(ctx.len(), 3);
        assert!(!ctx.is_empty());

        ctx.clear();

        assert_eq!(ctx.len(), 0);
        assert!(ctx.is_empty());

        Ok(empty_obj())
    });
    let slice = default_slice("test", "layer", "work");

    let mut engine: Engine<Call, NullSink> = Engine::new();
    engine.register_layer(layer).unwrap();
    engine.register_slice(slice);
    engine.run(RunFlags::silent());
}

#[test]
fn context_keys() {
    let layer = quick_layer("layer", "work", |_args, ctx| {
        ctx.set("alpha", num(1));
        ctx.set("beta", num(2));
        ctx.set("gamma", num(3));

        let keys = ctx.keys();
        assert_eq!(keys.len(), 3);
        assert!(keys.contains(&"alpha".to_string()));
        assert!(keys.contains(&"beta".to_string()));
        assert!(keys.contains(&"gamma".to_string()));

        Ok(empty_obj())
    });
    let slice = default_slice("test", "layer", "work");

    let mut engine: Engine<Call, NullSink> = Engine::new();
    engine.register_layer(layer).unwrap();
    engine.register_slice(slice);
    engine.run(RunFlags::silent());
}

struct CountingCall {
    counter: Arc<AtomicUsize>,
}

impl MethodFn for CountingCall {
    fn invoke(&self, args: &Value, ctx: &mut Context) -> Result<Value, Error> {
        let id = args.get("id").unwrap().as_i64().unwrap();

        assert!(ctx.get("shared").is_none());

        ctx.set("my_id", Value::Number(Number::Int(id)));
        ctx.set("shared", Value::Number(Number::Int(id)));

        let my_id = ctx.get("my_id").unwrap().as_i64().unwrap();
        assert_eq!(my_id, id);

        self.counter.fetch_add(1, Ordering::SeqCst);

        Ok(Value::Object(Vec::new()))
    }
}

#[test]
fn context_isolation_between_slices() {
    let counter = Arc::new(AtomicUsize::new(0));

    let mut layer: Layer<CountingCall> = Layer::new("layer".to_string()).with_method(
        MethodConfig { name: "work".to_string(), default: Value::Null },
    );
    layer.bind("work", CountingCall { counter: counter.clone() }).unwrap();

    let mut engine: Engine<CountingCall, NullSink> = Engine::new();
    engine.register_layer(layer).unwrap();
    for (name, id) in [("s1", 1i64), ("s2", 2), ("s3", 3)] {
        engine.register_slice(Slice::new(name.to_string()).with_layer(LayerArgs {
            layer: "layer".to_string(),
            methods_args: vec![(
                "work".to_string(),
                Value::Object(vec![("id".to_string(), num(id))]),
            )],
        }));
    }

    engine.run(RunFlags::silent());

    assert_eq!(counter.load(Ordering::SeqCst), 3);
}

#[test]
fn context_shared_across_layers() {
    let mut layer1: Layer<Call> = Layer::new("layer1".to_string())
        .with_method(MethodConfig { name: "set_a".to_string(), default: Value::Null })
        .with_method(MethodConfig { name: "set_b".to_string(), default: Value::Null });
    layer1
        .bind("set_a", Call(|_args, ctx| {
            ctx.set("a", Value::Number(Number::Int(10)));
            Ok(Value::Object(Vec::new()))
        }))
        .unwrap();
    layer1
        .bind("set_b", Call(|_args, ctx| {
            ctx.set("b", Value::Number(Number::Int(20)));
            Ok(Value::Object(Vec::new()))
        }))
        .unwrap();

    let layer2 = quick_layer("layer2", "verify", |_args, ctx| {
        let a = ctx.get("a").unwrap().as_i64().unwrap();
        let b = ctx.get("b").unwrap().as_i64().unwrap();
        assert_eq!(a, 10);
        assert_eq!(b, 20);
        Ok(empty_obj())
    });

    let slice = Slice::new("test".to_string())
        .with_layer(LayerArgs {
            layer: "layer1".to_string(),
            methods_args: vec![
                ("set_a".to_string(), Value::Null),
                ("set_b".to_string(), Value::Null),
            ],
        })
        .with_layer(LayerArgs {
            layer: "layer2".to_string(),
            methods_args: vec![("verify".to_string(), Value::Null)],
        });

    let mut engine: Engine<Call, NullSink> = Engine::new();
    engine.register_layer(layer1).unwrap();
    engine.register_layer(layer2).unwrap();
    engine.add_dependency("layer2", "layer1").unwrap();
    engine.register_slice(slice);

    engine.run(RunFlags::silent());
}

#[test]
fn context_typed_access() {
    let mut ctx = Context::new();

    ctx.set_from("count", &42i64);
    let count: i64 = ctx.get_as("count").unwrap();
    assert_eq!(count, 42);
}

#[test]
fn context_type_safe_access() {
    let layer1 = quick_layer("layer1", "set", |_args, ctx| {
        ctx.set_from("int", &42i64);
        ctx.set_from("string", &"hello".to_string());
        ctx.set_from("bool", &true);
        ctx.set_from("vec", &vec![1i64, 2, 3]);
        Ok(empty_obj())
    });

    let layer2 = quick_layer("layer2", "get", |_args, ctx| {
        let int_val: i64 = ctx.get_as("int").unwrap();
        let string_val: String = ctx.get_as("string").unwrap();
        let bool_val: bool = ctx.get_as("bool").unwrap();
        let vec_val: Vec<i64> = ctx.get_as("vec").unwrap();

        assert_eq!(int_val, 42);
        assert_eq!(string_val, "hello");
        assert_eq!(bool_val, true);
        assert_eq!(vec_val, vec![1, 2, 3]);

        Ok(empty_obj())
    });

    let slice = Slice::new("test".to_string())
        .with_layer(LayerArgs {
            layer: "layer1".to_string(),
            methods_args: vec![("set".to_string(), Value::Null)],
        })
        .with_layer(LayerArgs {
            layer: "layer2".to_string(),
            methods_args: vec![("get".to_string(), Value::Null)],
        });

    let mut engine: Engine<Call, NullSink> = Engine::new();
    engine.register_layer(layer1).unwrap();
    engine.register_layer(layer2).unwrap();
    engine.add_dependency("layer2", "layer1").unwrap();
    engine.register_slice(slice);

    engine.run(RunFlags::silent());
}
