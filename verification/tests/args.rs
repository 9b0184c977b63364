use sandl::{
    Context, Engine, Error, Layer, LayerArgs, MethodConfig, MethodFn, NullSink, Number, RunFlags,
    Slice, Value,
};

fn num(i: i64) -> Value {
    Value::Number(Number::Int(i))
}

fn obj(entries: Vec<(&str, Value)>) -> Value {
    Value::Object(entries.into_iter().map(|(k, v)| (k.to_string(), v)).collect())
}

struct Call(fn(&Value, &mut Context) -> Result<Value, Error>);

impl MethodFn for Call {
    fn invoke(&self, args: &Value, ctx: &mut Context) -> Result<Value, Error> {
        (self.0)(args, ctx)
    }
}

fn engine_of(layer: Layer<Call>, slices: Vec<Slice>) -> Engine<Call, NullSink> {
    let mut engine: Engine<Call, NullSink> = Engine::new();
    engine.register_layer(layer).unwrap();
    for slice in slices {
        engine.register_slice(slice);
    }
    engine
}

#[test]
fn args_default_values() {
    let mut layer: Layer<Call> = Layer::new("layer".to_string()).with_method(MethodConfig {
        name: "work".to_string(),
        default: obj(vec![("x", num(10)), ("y", num(20))]),
    });
    layer
        .bind("work", Call(|args, _ctx| {
            let x = args.get("x").unwrap().as_i64().unwrap();
            let y = args.get("y").unwrap().as_i64().unwrap();
            assert_eq!(x, 10);
            assert_eq!(y, 20);
            Ok(obj(vec![("sum", num(x + y))]))
        }))
        .unwrap();

    let slice = Slice::new("test".to_string()).with_layer(LayerArgs {
        layer: "layer".to_string(),
        methods_args: vec![("work".to_string(), Value::Null)],
    });

    let engine = engine_of(layer, vec![slice]);
    let results = engine.run(RunFlags::silent());
    let slice_results = results.from_slice("test").unwrap().as_ref().unwrap();
    let result = slice_results.get("layer", "work").unwrap().as_ref().unwrap();

    assert_eq!(result.get("sum").unwrap().as_i64().unwrap(), 30);
}

#[test]
fn args_explicit_override() {
    let mut layer: Layer<Call> = Layer::new("layer".to_string()).with_method(MethodConfig {
        name: "multiply".to_string(),
        default: obj(vec![("a", num(2)), ("b", num(3))]),
    });
    layer
        .bind("multiply", Call(|args, _ctx| {
            let a = args.get("a").unwrap().as_i64().unwrap();
            let b = args.get("b").unwrap().as_i64().unwrap();
            Ok(obj(vec![("result", num(a * b))]))
        }))
        .unwrap();

    let slice = Slice::new("test".to_string()).with_layer(LayerArgs {
        layer: "layer".to_string(),
        methods_args: vec![(
            "multiply".to_string(),
            obj(vec![("a", num(5)), ("b", num(7))]),
        )],
    });

    let engine = engine_of(layer, vec![slice]);
    let results = engine.run(RunFlags::silent());
    let slice_results = results.from_slice("test").unwrap().as_ref().unwrap();
    let result = slice_results.get("layer", "multiply").unwrap().as_ref().unwrap();

    assert_eq!(result.get("result").unwrap().as_i64().unwrap(), 35);
}

#[test]
fn args_partial_override() {
    let mut layer: Layer<Call> = Layer::new("layer".to_string()).with_method(MethodConfig {
        name: "compute".to_string(),
        default: obj(vec![("x", num(10)), ("y", num(20)), ("z", num(30))]),
    });
    layer
        .bind("compute", Call(|args, _ctx| {
            let x = args.get("x").unwrap().as_i64().unwrap();
            let y = args.get("y").unwrap().as_i64().unwrap();
            let z = args.get("z").unwrap().as_i64().unwrap();
            Ok(obj(vec![("sum", num(x + y + z))]))
        }))
        .unwrap();

    let slice = Slice::new("test".to_string()).with_layer(LayerArgs {
        layer: "layer".to_string(),
        methods_args: vec![("compute".to_string(), obj(vec![("x", num(100))]))],
    });

    let engine = engine_of(layer, vec![slice]);
    let results = engine.run(RunFlags::silent());
    let slice_results = results.from_slice("test").unwrap().as_ref().unwrap();
    let result = slice_results.get("layer", "compute").unwrap().as_ref().unwrap();

    assert_eq!(result.get("sum").unwrap().as_i64().unwrap(), 150);
}

#[test]
fn args_no_defaults() {
    let mut layer: Layer<Call> = Layer::new("layer".to_string()).with_method(MethodConfig {
        name: "work".to_string(),
        default: Value::Null,
    });
    layer
        .bind("work", Call(|args, _ctx| {
            let value = args.get("value").unwrap().as_i64().unwrap();
            Ok(obj(vec![("doubled", num(value * 2))]))
        }))
        .unwrap();

    let slice = Slice::new("test".to_string()).with_layer(LayerArgs {
        layer: "layer".to_string(),
        methods_args: vec![("work".to_string(), obj(vec![("value", num(50))]))],
    });

    let engine = engine_of(layer, vec![slice]);
    let results = engine.run(RunFlags::silent());
    let slice_results = results.from_slice("test").unwrap().as_ref().unwrap();
    let result = slice_results.get("layer", "work").unwrap().as_ref().unwrap();

    assert_eq!(result.get("doubled").unwrap().as_i64().unwrap(), 100);
}

#[test]
fn args_different_per_slice() {
    let mut layer: Layer<Call> = Layer::new("layer".to_string()).with_method(MethodConfig {
        name: "process".to_string(),
        default: Value::Null,
    });
    layer
        .bind("process", Call(|args, _ctx| {
            let id = args.get("id").unwrap().as_i64().unwrap();
            Ok(obj(vec![("processed_id", num(id * 10))]))
        }))
        .unwrap();

    let s1 = Slice::new("s1".to_string()).with_layer(LayerArgs {
        layer: "layer".to_string(),
        methods_args: vec![("process".to_string(), obj(vec![("id", num(1))]))],
    });
    let s2 = Slice::new("s2".to_string()).with_layer(LayerArgs {
        layer: "layer".to_string(),
        methods_args: vec![("process".to_string(), obj(vec![("id", num(2))]))],
    });

    let engine = engine_of(layer, vec![s1, s2]);
    let results = engine.run(RunFlags::silent());

    let s1_result = results.from_slice("s1").unwrap().as_ref().unwrap();
    let s1_value = s1_result.get("layer", "process").unwrap().as_ref().unwrap();
    assert_eq!(s1_value.get("processed_id").unwrap().as_i64().unwrap(), 10);

    let s2_result = results.from_slice("s2").unwrap().as_ref().unwrap();
    let s2_value = s2_result.get("layer", "process").unwrap().as_ref().unwrap();
    assert_eq!(s2_value.get("processed_id").unwrap().as_i64().unwrap(), 20);
}

#[test]
fn args_array_type() {
    let mut layer: Layer<Call> = Layer::new("layer".to_string()).with_method(MethodConfig {
        name: "sum".to_string(),
        default: obj(vec![(
            "numbers",
            Value::Array(vec![num(1), num(2), num(3), num(4), num(5)]),
        )]),
    });
    layer
        .bind("sum", Call(|args, _ctx| {
            let numbers = args.get("numbers").unwrap().as_array().unwrap();
            let sum: i64 = numbers.iter().filter_map(|v| v.as_i64()).sum();
            Ok(obj(vec![("sum", num(sum))]))
        }))
        .unwrap();

    let slice = Slice::new("test".to_string()).with_layer(LayerArgs {
        layer: "layer".to_string(),
        methods_args: vec![("sum".to_string(), Value::Null)],
    });

    let engine = engine_of(layer, vec![slice]);
    let results = engine.run(RunFlags::silent());
    let slice_results = results.from_slice("test").unwrap().as_ref().unwrap();
    let result = slice_results.get("layer", "sum").unwrap().as_ref().unwrap();

    assert_eq!(result.get("sum").unwrap().as_i64().unwrap(), 15);
}
