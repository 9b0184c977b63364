use std::sync::{Arc, Mutex};

use sandl::{
    Context, Engine, Error, Layer, LayerArgs, MethodConfig, MethodFn, NullSink, Number, RunFlags,
    Slice, Value,
};

fn num(i: i64) -> Value {
    Value::Number(Number::Int(i))
}

fn text(s: &str) -> Value {
    Value::Text(s.to_string())
}

fn obj(entries: Vec<(&str, Value)>) -> Value {
    Value::Object(entries.into_iter().map(|(k, v)| (k.to_string(), v)).collect())
}

struct Call(fn(&Value, &mut Context) -> Result<Value, Error>);

impl MethodFn for Call {
    fn invoke(&self, args: &Value, ctx: &mut Context) -> Result<Value, Error> {
        (self.0)(args, ctx)
    }
}

fn quick_layer(layer: &str, method: &str, f: fn(&Value, &mut Context) -> Result<Value, Error>) -> Layer<Call> {
    let mut l: Layer<Call> = Layer::new(layer.to_string()).with_method(MethodConfig {
        name: method.to_string(),
        default: Value::Null,
    });
    l.bind(method, Call(f)).unwrap();
    l
}

fn call_slice(name: &str, layer: &str, method: &str, args: Value) -> Slice {
    Slice::new(name.to_string()).with_layer(LayerArgs {
        layer: layer.to_string(),
        methods_args: vec![(method.to_string(), args)],
    })
}

#[test]
fn errors_returned_in_results() {
    let l1 = quick_layer("l1", "m1", |_args, _ctx| {
        Err(Error::ExecutionError("Intentional failure".to_string()))
    });
    let s1 = call_slice("s1", "l1", "m1", Value::Null);

    let mut engine: Engine<Call, NullSink> = Engine::new();
    engine.register_layer(l1).unwrap();
    engine.register_slice(s1);

    let results = engine.run(RunFlags::silent());
    let slice_result = results.from_slice("s1").unwrap().as_ref().unwrap();
    let method_result = slice_result.get("l1", "m1").unwrap();

    assert!(method_result.is_err());
}

#[test]
fn method_failure_does_not_stop_other_methods() {
    let mut l1: Layer<Call> = Layer::new("l1".to_string())
        .with_method(MethodConfig { name: "m1".to_string(), default: Value::Null })
        .with_method(MethodConfig { name: "m2".to_string(), default: Value::Null });
    l1.bind("m1", Call(|_args, _ctx| Err(Error::ExecutionError("m1 failed".to_string()))))
        .unwrap();
    l1.bind("m2", Call(|_args, _ctx| Ok(Value::Object(vec![(
        "m2".to_string(),
        Value::Text("success".to_string()),
    )]))))
        .unwrap();

    let s1 = Slice::new("s1".to_string()).with_layer(LayerArgs {
        layer: "l1".to_string(),
        methods_args: vec![
            ("m1".to_string(), Value::Null),
            ("m2".to_string(), Value::Null),
        ],
    });

    let mut engine: Engine<Call, NullSink> = Engine::new();
    engine.register_layer(l1).unwrap();
    engine.register_slice(s1);

    let results = engine.run(RunFlags::silent());
    let slice_result = results.from_slice("s1").unwrap().as_ref().unwrap();

    assert!(slice_result.get("l1", "m1").unwrap().is_err());
    assert!(slice_result.get("l1", "m2").unwrap().is_ok());
}

#[test]
fn all_results_collected_in_runresults() {
    let mut l1: Layer<Call> = Layer::new("l1".to_string())
        .with_method(MethodConfig { name: "m1".to_string(), default: Value::Null })
        .with_method(MethodConfig { name: "m2".to_string(), default: Value::Null });
    l1.bind("m1", Call(|_args, _ctx| Ok(Value::Object(vec![("m1".to_string(), num(1))]))))
        .unwrap();
    l1.bind("m2", Call(|_args, _ctx| Ok(Value::Object(vec![("m2".to_string(), num(2))]))))
        .unwrap();

    let mut engine: Engine<Call, NullSink> = Engine::new();
    engine.register_layer(l1).unwrap();
    for name in ["s1", "s2"] {
        engine.register_slice(Slice::new(name.to_string()).with_layer(LayerArgs {
            layer: "l1".to_string(),
            methods_args: vec![
                ("m1".to_string(), Value::Null),
                ("m2".to_string(), Value::Null),
            ],
        }));
    }

    let results = engine.run(RunFlags::silent());

    assert!(results.contains_slice("s1"));
    assert!(results.contains_slice("s2"));

    let s1_results = results.from_slice("s1").unwrap().as_ref().unwrap();
    assert_eq!(s1_results.len(), 2);

    let s2_results = results.from_slice("s2").unwrap().as_ref().unwrap();
    assert_eq!(s2_results.len(), 2);
}

#[test]
fn results_keyed_by_layer_and_method() {
    let l1 = quick_layer("l1", "m1", |_args, _ctx| {
        Ok(Value::Object(vec![(
            "result".to_string(),
            Value::Text("data".to_string()),
        )]))
    });
    let s1 = call_slice("s1", "l1", "m1", Value::Null);

    let mut engine: Engine<Call, NullSink> = Engine::new();
    engine.register_layer(l1).unwrap();
    engine.register_slice(s1);

    let results = engine.run(RunFlags::silent());
    let slice_result = results.from_slice("s1").unwrap().as_ref().unwrap();

    assert!(slice_result.contains("l1", "m1"));
}

#[test]
fn args_and_context_together() {
    let layer1 = quick_layer("layer1", "process", |args, ctx| {
        let input = args.get("input").unwrap().as_i64().unwrap();
        let result = input * 2;
        ctx.set("doubled", Value::Number(Number::Int(result)));
        Ok(Value::Object(vec![("doubled".to_string(), Value::Number(Number::Int(result)))]))
    });
    let layer2 = quick_layer("layer2", "add", |args, ctx| {
        let doubled: i64 = ctx.get_as("doubled").unwrap();
        let add_value = args.get("add").unwrap().as_i64().unwrap();
        let result = doubled + add_value;
        Ok(Value::Object(vec![("final".to_string(), Value::Number(Number::Int(result)))]))
    });

    let slice = Slice::new("test".to_string())
        .with_layer(LayerArgs {
            layer: "layer1".to_string(),
            methods_args: vec![("process".to_string(), obj(vec![("input", num(5))]))],
        })
        .with_layer(LayerArgs {
            layer: "layer2".to_string(),
            methods_args: vec![("add".to_string(), obj(vec![("add", num(3))]))],
        });

    let mut engine: Engine<Call, NullSink> = Engine::new();
    engine.register_layer(layer1).unwrap();
    engine.register_layer(layer2).unwrap();
    engine.add_dependency("layer2", "layer1").unwrap();
    engine.register_slice(slice);

    let results = engine.run(RunFlags::silent());
    let slice_results = results.from_slice("test").unwrap().as_ref().unwrap();

    let layer1_result = slice_results.get("layer1", "process").unwrap().as_ref().unwrap();
    assert_eq!(layer1_result.get("doubled").unwrap().as_i64().unwrap(), 10);

    let layer2_result = slice_results.get("layer2", "add").unwrap().as_ref().unwrap();
    assert_eq!(layer2_result.get("final").unwrap().as_i64().unwrap(), 13);
}

#[test]
fn pipeline_with_args_and_context() {
    let extract = quick_layer("extract", "load", |args, ctx| {
        let id = args.get("id").unwrap().as_i64().unwrap();
        let data = format!("data_{}", id);
        ctx.set("raw", Value::Text(data));
        Ok(Value::Object(Vec::new()))
    });
    let transform = quick_layer("transform", "process", |args, ctx| {
        let raw: String = ctx.get_as("raw").unwrap();
        let uppercase = args.get("uppercase").unwrap().as_bool().unwrap();

        let transformed = if uppercase { raw.to_uppercase() } else { raw.to_lowercase() };

        ctx.set("transformed", Value::Text(transformed));
        Ok(Value::Object(Vec::new()))
    });
    let load = quick_layer("load", "save", |args, ctx| {
        let data: String = ctx.get_as("transformed").unwrap();
        let prefix = args.get("prefix").unwrap().as_str().unwrap().to_string();
        let final_data = format!("{}{}", prefix, data);

        Ok(Value::Object(vec![("saved".to_string(), Value::Text(final_data))]))
    });

    let slice = Slice::new("etl".to_string())
        .with_layer(LayerArgs {
            layer: "extract".to_string(),
            methods_args: vec![("load".to_string(), obj(vec![("id", num(42))]))],
        })
        .with_layer(LayerArgs {
            layer: "transform".to_string(),
            methods_args: vec![(
                "process".to_string(),
                obj(vec![("uppercase", Value::Bool(true))]),
            )],
        })
        .with_layer(LayerArgs {
            layer: "load".to_string(),
            methods_args: vec![("save".to_string(), obj(vec![("prefix", text("OUTPUT_"))]))],
        });

    let mut engine: Engine<Call, NullSink> = Engine::new();
    engine.register_layer(extract).unwrap();
    engine.register_layer(transform).unwrap();
    engine.register_layer(load).unwrap();
    engine.add_dependency("transform", "extract").unwrap();
    engine.add_dependency("load", "transform").unwrap();
    engine.register_slice(slice);

    let results = engine.run(RunFlags::silent());
    let slice_results = results.from_slice("etl").unwrap().as_ref().unwrap();
    let result = slice_results.get("load", "save").unwrap().as_ref().unwrap();

    assert_eq!(result.get("saved").unwrap().as_str().unwrap(), "OUTPUT_DATA_42");
}

struct Recording {
    order: Arc<Mutex<Vec<&'static str>>>,
    tag: &'static str,
    checks_initialized: bool,
}

impl MethodFn for Recording {
    fn invoke(&self, _args: &Value, ctx: &mut Context) -> Result<Value, Error> {
        if self.checks_initialized {
            assert!(ctx.get_as::<bool>("initialized").unwrap());
        } else {
            ctx.set("initialized", Value::Bool(true));
        }
        self.order.lock().unwrap().push(self.tag);
        Ok(Value::Object(Vec::new()))
    }
}

#[test]
fn init_layer() {
    let execution_order = Arc::new(Mutex::new(Vec::new()));

    let mut init: Layer<Recording> = Layer::new("init".to_string()).with_method(MethodConfig {
        name: "setup".to_string(),
        default: Value::Null,
    });
    init.bind(
        "setup",
        Recording { order: execution_order.clone(), tag: "init", checks_initialized: false },
    )
        .unwrap();

    let mut work: Layer<Recording> = Layer::new("work".to_string()).with_method(MethodConfig {
        name: "process".to_string(),
        default: Value::Null,
    });
    work.bind(
        "process",
        Recording { order: execution_order.clone(), tag: "work", checks_initialized: true },
    )
        .unwrap();

    let slice = Slice::new("test".to_string())
        .with_layer(LayerArgs {
            layer: "init".to_string(),
            methods_args: vec![("setup".to_string(), Value::Null)],
        })
        .with_layer(LayerArgs {
            layer: "work".to_string(),
            methods_args: vec![("process".to_string(), Value::Null)],
        });

    let mut engine: Engine<Recording, NullSink> = Engine::new();
    engine.register_layer(init).unwrap();
    engine.register_layer(work).unwrap();
    engine.set_init_layer("init").unwrap();
    engine.register_slice(slice);

    engine.run(RunFlags::silent());

    let order = execution_order.lock().unwrap();
    assert_eq!(*order, vec!["init", "work"]);
}

#[test]
fn init_layer_sets_context() {
    let init = quick_layer("init", "setup", |_args, ctx| {
        ctx.set("config", Value::Text("test".to_string()));
        ctx.set("version", Value::Number(Number::Int(1)));
        Ok(Value::Object(Vec::new()))
    });
    let verify = quick_layer("verify", "check", |_args, ctx| {
        let config: String = ctx.get_as("config")?;
        let version: i64 = ctx.get_as("version")?;
        assert_eq!(config, "test");
        assert_eq!(version, 1);
        Ok(Value::Object(Vec::new()))
    });

    let slice = Slice::new("test".to_string())
        .with_layer(LayerArgs {
            layer: "init".to_string(),
            methods_args: vec![("setup".to_string(), Value::Null)],
        })
        .with_layer(LayerArgs {
            layer: "verify".to_string(),
            methods_args: vec![("check".to_string(), Value::Null)],
        });

    let mut engine: Engine<Call, NullSink> = Engine::new();
    engine.register_layer(init).unwrap();
    engine.register_layer(verify).unwrap();
    engine.set_init_layer("init").unwrap();
    engine.register_slice(slice);

    engine.run(RunFlags::silent());
}

#[test]
fn init_layer_with_multiple_layers() {
    let init = quick_layer("init", "setup", |_args, ctx| {
        ctx.set("ready", Value::Bool(true));
        Ok(Value::Object(Vec::new()))
    });
    let check_ready: fn(&Value, &mut Context) -> Result<Value, Error> = |_args, ctx| {
        assert!(ctx.get_as::<bool>("ready").unwrap());
        Ok(Value::Object(Vec::new()))
    };
    let l1 = quick_layer("layer1", "work", check_ready);
    let l2 = quick_layer("layer2", "work", check_ready);
    let l3 = quick_layer("layer3", "work", check_ready);

    let mut slice = Slice::new("test".to_string()).with_layer(LayerArgs {
        layer: "init".to_string(),
        methods_args: vec![("setup".to_string(), Value::Null)],
    });
    for name in ["layer1", "layer2", "layer3"] {
        slice = slice.with_layer(LayerArgs {
            layer: name.to_string(),
            methods_args: vec![("work".to_string(), Value::Null)],
        });
    }

    let mut engine: Engine<Call, NullSink> = Engine::new();
    engine.register_layer(init).unwrap();
    engine.register_layer(l1).unwrap();
    engine.register_layer(l2).unwrap();
    engine.register_layer(l3).unwrap();
    engine.set_init_layer("init").unwrap();
    engine.register_slice(slice);

    engine.run(RunFlags::silent());
}

#[test]
fn init_layer_with_dependencies() {
    let init = quick_layer("init", "setup", |_args, ctx| {
        ctx.set("step", Value::Number(Number::Int(1)));
        Ok(Value::Object(Vec::new()))
    });
    let l1 = quick_layer("layer1", "work", |_args, ctx| {
        let step: i64 = ctx.get_as("step")?;
        ctx.set("step", Value::Number(Number::Int(step + 1)));
        Ok(Value::Object(Vec::new()))
    });
    let l2 = quick_layer("layer2", "work", |_args, ctx| {
        let step: i64 = ctx.get_as("step")?;
        assert_eq!(step, 2);
        Ok(Value::Object(Vec::new()))
    });

    let mut slice = Slice::new("test".to_string()).with_layer(LayerArgs {
        layer: "init".to_string(),
        methods_args: vec![("setup".to_string(), Value::Null)],
    });
    for name in ["layer1", "layer2"] {
        slice = slice.with_layer(LayerArgs {
            layer: name.to_string(),
            methods_args: vec![("work".to_string(), Value::Null)],
        });
    }

    let mut engine: Engine<Call, NullSink> = Engine::new();
    engine.register_layer(init).unwrap();
    engine.register_layer(l1).unwrap();
    engine.register_layer(l2).unwrap();
    engine.set_init_layer("init").unwrap();
    engine.add_dependency("layer2", "layer1").unwrap();
    engine.register_slice(slice);

    engine.run(RunFlags::silent());
}
