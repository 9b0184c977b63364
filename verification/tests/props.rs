use sandl::{
    Context, Engine, EngineConfig, Error, Layer, LayerArgs, MethodConfig, MethodFn, NullSink,
    Number, RunFlags, Slice, Value,
};

fn num(i: i64) -> Value {
    Value::Number(Number::Int(i))
}

fn obj(entries: Vec<(&str, Value)>) -> Value {
    Value::Object(entries.into_iter().map(|(k, v)| (k.to_string(), v)).collect())
}

struct Call(fn(&Value, &mut Context) -> Result<Value, Error>);

impl MethodFn for Call {
    fn invoke(&self, args: &Value, ctx: &mut Context) -> Result<Value, Error> {
        (self.0)(args, ctx)
    }
}

fn noop_layer(name: &str, method: &str) -> Layer<Call> {
    let mut l: Layer<Call> = Layer::new(name.to_string()).with_method(MethodConfig {
        name: method.to_string(),
        default: Value::Null,
    });
    l.bind(method, Call(|_args, _ctx| Ok(Value::Object(Vec::new())))).unwrap();
    l
}

fn default_slice(name: &str, layers: &[&str], method: &str) -> Slice {
    let mut s = Slice::new(name.to_string());
    for layer in layers {
        s = s.with_layer(LayerArgs {
            layer: layer.to_string(),
            methods_args: vec![(method.to_string(), Value::Null)],
        });
    }
    s
}

#[test]
fn topo_orders_dependencies() {
    let mut engine: Engine<Call, NullSink> = Engine::new();
    for name in ["a", "b", "c"] {
        engine.register_layer(noop_layer(name, "m")).unwrap();
    }
    engine.add_dependency("b", "a").unwrap();
    engine.add_dependency("c", "b").unwrap();

    let order = engine.topological_sort().unwrap();
    let pos = |n: &str| order.iter().position(|x| x == n).unwrap();
    assert_eq!(order.len(), 3);
    assert!(pos("a") < pos("b"));
    assert!(pos("b") < pos("c"));
}

#[test]
fn topo_initializer_comes_first() {
    let mut engine: Engine<Call, NullSink> = Engine::new();
    for name in ["worker", "init", "other"] {
        engine.register_layer(noop_layer(name, "m")).unwrap();
    }
    engine.set_init_layer("init").unwrap();

    let order = engine.topological_sort().unwrap();
    assert_eq!(order.len(), 3);
    assert_eq!(order[0], "init");
}

#[test]
fn cycle_fails_with_config_error() {
    let mut engine: Engine<Call, NullSink> = Engine::new();
    for name in ["a", "b"] {
        engine.register_layer(noop_layer(name, "m")).unwrap();
    }
    engine.add_dependency("a", "b").unwrap();
    engine.add_dependency("b", "a").unwrap();

    assert!(!engine.can_schedule());
    let err = engine.topological_sort().unwrap_err();
    assert!(matches!(err, Error::ConfigError(_)));
    assert_eq!(err.message(), "Configuration error: Circular dependency detected in layers");
}

#[test]
fn dependency_on_unregistered_layer_is_refused() {
    let mut engine: Engine<Call, NullSink> = Engine::new();
    engine.register_layer(noop_layer("a", "m")).unwrap();
    engine.add_dependency("a", "ghost_layer").unwrap();

    let err = engine.topological_sort().unwrap_err();
    assert!(matches!(err, Error::LayerNotFound(_)));
    assert_eq!(err.describe(), "Layer 'ghost_layer' not found");
}

#[test]
fn init_layer_must_be_registered() {
    let mut engine: Engine<Call, NullSink> = Engine::new();
    engine.register_layer(noop_layer("layer", "work")).unwrap();
    let err = engine.set_init_layer("nonexistent").unwrap_err();
    assert!(matches!(err, Error::LayerNotFound(_)));
}

#[test]
fn duplicate_layer_name_is_refused() {
    let mut engine: Engine<Call, NullSink> = Engine::new();
    engine.register_layer(noop_layer("a", "m")).unwrap();
    let err = engine.register_layer(noop_layer("a", "m")).unwrap_err();
    assert!(matches!(err, Error::LayerAlreadyExists(_)));
    assert_eq!(err.describe(), "Layer 'a' already exists");
}

#[test]
fn bind_unknown_method_is_refused() {
    let mut layer: Layer<Call> = Layer::new("l".to_string());
    let err = layer.bind("missing", Call(|_a, _c| Ok(Value::Null))).unwrap_err();
    assert!(matches!(err, Error::MethodNotFound { .. }));
}

#[test]
fn unbound_method_fails_at_invocation() {
    // declared but not bound: an error only at invocation time
    let layer: Layer<Call> = Layer::new("l".to_string()).with_method(MethodConfig {
        name: "m".to_string(),
        default: Value::Null,
    });
    assert!(!layer.is_bound("m"));

    let mut engine: Engine<Call, NullSink> = Engine::new();
    engine.register_layer(layer).unwrap();
    engine.register_slice(default_slice("s", &["l"], "m"));

    let results = engine.run(RunFlags::silent_no_observer());
    let slice_results = results.from_slice("s").unwrap().as_ref().unwrap();
    let err = slice_results.get("l", "m").unwrap().as_ref().unwrap_err();
    assert!(matches!(err, Error::MethodNotBound(_, _)));
    assert_eq!(err.describe(), "Method 'm' has not been bound in layer 'l'");
}

#[test]
fn independent_layers_form_one_wave() {
    let mut engine: Engine<Call, NullSink> = Engine::new();
    for name in ["a", "b", "c"] {
        engine.register_layer(noop_layer(name, "m")).unwrap();
    }
    let slice = default_slice("s", &["a", "b", "c"], "m");
    let order = engine.topological_sort().unwrap();
    let waves = engine.compute_method_waves(&slice, &order).unwrap();

    assert_eq!(waves.len(), 1);
    assert_eq!(waves[0].len(), 3);
}

#[test]
fn linear_chain_forms_three_waves() {
    let mut engine: Engine<Call, NullSink> = Engine::new();
    for name in ["a", "b", "c"] {
        engine.register_layer(noop_layer(name, "m")).unwrap();
    }
    engine.add_dependency("b", "a").unwrap();
    engine.add_dependency("c", "b").unwrap();

    let slice = default_slice("s", &["a", "b", "c"], "m");
    let order = engine.topological_sort().unwrap();
    let waves = engine.compute_method_waves(&slice, &order).unwrap();

    assert_eq!(waves.len(), 3);
    assert_eq!(waves[0], vec![("a".to_string(), "m".to_string())]);
    assert_eq!(waves[1], vec![("b".to_string(), "m".to_string())]);
    assert_eq!(waves[2], vec![("c".to_string(), "m".to_string())]);
}

#[test]
fn merge_law_object_override() {
    let defaults = obj(vec![("a", num(1)), ("b", num(2))]);
    let overrides = obj(vec![("b", num(20)), ("c", num(3))]);
    let merged = sandl::merge_args(&defaults, &overrides);

    assert_eq!(merged.get("a").unwrap().as_i64().unwrap(), 1);
    assert_eq!(merged.get("b").unwrap().as_i64().unwrap(), 20);
    assert_eq!(merged.get("c").unwrap().as_i64().unwrap(), 3);
}

#[test]
fn merge_law_non_object_override_is_verbatim() {
    let defaults = obj(vec![("a", num(1))]);
    let merged = sandl::merge_args(&defaults, &num(5));
    assert_eq!(merged.as_i64().unwrap(), 5);

    let kept = sandl::merge_args(&defaults, &Value::Null);
    assert_eq!(kept.get("a").unwrap().as_i64().unwrap(), 1);
}

fn divide_engine() -> Engine<Call, NullSink> {
    let mut math: Layer<Call> = Layer::new("math".to_string()).with_method(MethodConfig {
        name: "divide".to_string(),
        default: Value::Null,
    });
    math.bind("divide", Call(|args, _ctx| {
        let x = args.get("x").unwrap().as_i64().unwrap();
        let y = args.get("y").unwrap().as_i64().unwrap();
        if y == 0 {
            Err(Error::ExecutionError("division by zero".to_string()))
        } else {
            Ok(Value::Number(Number::Int(x / y)))
        }
    }))
        .unwrap();

    let ok = Slice::new("ok".to_string()).with_layer(LayerArgs {
        layer: "math".to_string(),
        methods_args: vec![(
            "divide".to_string(),
            obj(vec![("x", num(9)), ("y", num(3))]),
        )],
    });
    let bad = Slice::new("bad".to_string()).with_layer(LayerArgs {
        layer: "math".to_string(),
        methods_args: vec![(
            "divide".to_string(),
            obj(vec![("x", num(6)), ("y", num(0))]),
        )],
    });

    let mut engine: Engine<Call, NullSink> = Engine::new();
    engine.register_layer(math).unwrap();
    engine.register_slice(ok);
    engine.register_slice(bad);
    engine
}

#[test]
fn divide_scenario() {
    let engine = divide_engine();
    let results = engine.run(RunFlags::silent());

    // `ok` succeeds with the quotient
    let ok_slice = results.from_slice("ok").unwrap().as_ref().unwrap();
    let ok_value = ok_slice.get("math", "divide").unwrap().as_ref().unwrap();
    assert_eq!(ok_value.as_i64().unwrap(), 3);

    // `bad` is a successfully scheduled slice whose divide entry is an error
    let bad_slice = results.from_slice("bad").unwrap().as_ref().unwrap();
    let bad_err = bad_slice.get("math", "divide").unwrap().as_ref().unwrap_err();
    assert!(matches!(bad_err.root_cause(), Error::ExecutionError(_)));
    assert_eq!(bad_err.message(), "division by zero");

    assert_eq!(results.total_slices(), 2);
    assert_eq!(results.successful_slices(), 2);
    assert_eq!(results.failed_slices(), 0);
    assert_eq!(results.total_methods(), 2);
    assert_eq!(results.successful_methods(), 1);
    assert_eq!(results.failed_methods(), 1);
    assert!(!results.is_all_success());
    assert!(results.has_failures());
}

#[test]
fn rerun_gives_same_outcomes() {
    let engine = divide_engine();
    let r1 = engine.run(RunFlags::silent());
    let r2 = engine.run(RunFlags::silent());

    for name in ["ok", "bad"] {
        let a = r1.from_slice(name).unwrap().as_ref().unwrap();
        let b = r2.from_slice(name).unwrap().as_ref().unwrap();
        let ra = a.get("math", "divide").unwrap();
        let rb = b.get("math", "divide").unwrap();
        assert_eq!(ra.is_ok(), rb.is_ok());
        if let (Ok(va), Ok(vb)) = (ra, rb) {
            assert_eq!(va.as_i64(), vb.as_i64());
        }
    }
}

#[test]
fn batching_produces_identical_content() {
    let mut one_batch = divide_engine();
    one_batch.config = EngineConfig::new();
    let mut tiny_batches = divide_engine();
    tiny_batches.config = EngineConfig::new().batch_size(1).chunk_size(2);

    let r1 = one_batch.run(RunFlags::silent());
    let r2 = tiny_batches.run(RunFlags::silent());

    assert_eq!(r1.total_slices(), r2.total_slices());
    for name in ["ok", "bad"] {
        let a = r1.from_slice(name).unwrap().as_ref().unwrap();
        let b = r2.from_slice(name).unwrap().as_ref().unwrap();
        let ra = a.get("math", "divide").unwrap();
        let rb = b.get("math", "divide").unwrap();
        assert_eq!(ra.is_ok(), rb.is_ok());
        if let (Ok(va), Ok(vb)) = (ra, rb) {
            assert_eq!(va.as_i64(), vb.as_i64());
        }
    }
}

#[test]
fn summary_counts_exactly() {
    let engine = divide_engine();
    let results = engine.run(RunFlags::silent());
    assert_eq!(results.summary(), "Slices: 2/2 succeeded, Methods: 1/2 succeeded");
    assert!(results.min_slice_duration().is_some());
    assert!(results.max_slice_duration().is_some());
    assert!(results.average_slice_duration().is_some());
    assert_eq!(results.get_all_method_errors().len(), 1);
}

#[test]
fn wave_error_is_contained_to_the_slice() {
    // `b` depends on `a`, but the slice exercises only `b`: its waves can
    // never be computed, which fails that slice alone
    let mut engine: Engine<Call, NullSink> = Engine::new();
    engine.register_layer(noop_layer("a", "m")).unwrap();
    engine.register_layer(noop_layer("b", "m")).unwrap();
    engine.add_dependency("b", "a").unwrap();
    engine.register_slice(default_slice("stuck", &["b"], "m"));
    engine.register_slice(default_slice("fine", &["a"], "m"));

    let results = engine.run(RunFlags::silent());

    let stuck = results.from_slice("stuck").unwrap();
    let err = stuck.as_ref().unwrap_err();
    assert!(matches!(err, Error::ConfigError(_)));
    assert_eq!(err.message(), "Configuration error: Unable to compute method waves");

    assert!(results.from_slice("fine").unwrap().is_ok());
    assert_eq!(results.failed_slices(), 1);
    assert_eq!(results.successful_slices(), 1);
}

#[test]
fn unregistered_slice_layer_is_ignored() {
    let mut engine: Engine<Call, NullSink> = Engine::new();
    engine.register_layer(noop_layer("a", "m")).unwrap();
    engine.register_slice(default_slice("s", &["ghost_layer", "a"], "m"));

    let results = engine.run(RunFlags::silent());
    let slice_results = results.from_slice("s").unwrap().as_ref().unwrap();
    assert!(slice_results.contains("a", "m"));
    assert!(!slice_results.contains("ghost_layer", "m"));
    assert_eq!(slice_results.len(), 1);
}

#[test]
fn engine_accessors() {
    let mut engine: Engine<Call, NullSink> = Engine::new();
    engine.register_layer(noop_layer("a", "m")).unwrap();
    engine.register_layer(noop_layer("b", "m")).unwrap();
    engine.add_dependency("b", "a").unwrap();
    engine.register_slice(default_slice("s", &["a"], "m"));

    assert_eq!(engine.get_layer_names(), vec!["a".to_string(), "b".to_string()]);
    assert_eq!(engine.get_slice_names(), vec!["s".to_string()]);
    assert_eq!(engine.get_dependencies("b").unwrap(), &vec!["a".to_string()]);
    assert!(engine.get_dependencies("a").is_none());
}

#[test]
fn layer_and_slice_accessors() {
    let layer = noop_layer("l", "m");
    assert_eq!(layer.get_name(), "l");
    assert_eq!(layer.get_methods(), vec!["m".to_string()]);
    assert!(layer.get_default_args("m").unwrap().is_null());
    assert!(layer.get_default_args("zz").is_none());
    assert!(layer.is_bound("m"));

    let slice = default_slice("s", &["l"], "m");
    assert_eq!(slice.get_name(), "s");
    assert!(slice.has_layer("l"));
    assert!(!slice.has_layer("x"));
    assert_eq!(slice.get_layer_names().unwrap(), vec!["l".to_string()]);
    assert_eq!(slice.get_layer_methods("l").unwrap(), vec!["m".to_string()]);
    assert!(matches!(slice.get_layer_methods("x"), Err(Error::LayerNotFound(_))));
    assert!(slice.get_method_arg("l", "m").unwrap().is_null());
    assert!(matches!(slice.get_method_arg("l", "zz"), Err(Error::MethodNotFound { .. })));
    assert!(matches!(slice.get_method_arg("x", "m"), Err(Error::LayerNotFound(_))));
}

#[test]
fn config_builders() {
    let c = EngineConfig::new().num_threads(4).stack_size(1024).batch_size(2).chunk_size(0);
    assert_eq!(c.num_threads, Some(4));
    assert_eq!(c.stack_size, Some(1024));
    assert_eq!(c.batch_size, Some(2));
    assert_eq!(c.chunk_size, 1);

    let f = RunFlags::new();
    assert!(!f.silent);
    assert!(f.with_observer);
    assert!(RunFlags::silent().silent);
    assert!(RunFlags::silent().with_observer);
    assert!(!RunFlags::silent_no_observer().with_observer);
    assert!(!RunFlags::progress().silent);
}

#[test]
fn pool_configuration_still_runs() {
    let mut engine = divide_engine();
    engine.config = EngineConfig::new().num_threads(2).stack_size(1024 * 1024);
    let results = engine.run(RunFlags::silent());
    assert_eq!(results.total_slices(), 2);
}

#[test]
fn empty_run_summary() {
    let engine: Engine<Call, NullSink> = Engine::new();
    let results = engine.run(RunFlags::silent());
    assert_eq!(results.total_slices(), 0);
    assert_eq!(results.summary(), "Slices: 0/0 succeeded, Methods: 0/0 succeeded");
    assert!(results.min_slice_duration().is_none());
    assert!(results.average_slice_duration().is_none());
    assert!(results.is_all_success());
    assert!(!results.has_failures());
}

#[test]
fn summary_with_multi_digit_counts() {
    let mut engine: Engine<Call, NullSink> = Engine::new();
    engine.register_layer(noop_layer("l", "m")).unwrap();
    for i in 0..12 {
        engine.register_slice(default_slice(&format!("s{}", i), &["l"], "m"));
    }
    let results = engine.run(RunFlags::silent());
    assert_eq!(results.summary(), "Slices: 12/12 succeeded, Methods: 12/12 succeeded");
    assert_eq!(results.slice_names().len(), 12);
}

#[test]
fn number_conversions() {
    let v = Value::Number(Number::Int(-1));
    assert_eq!(v.as_i64(), Some(-1));
    assert_eq!(v.as_u64(), Some(u64::MAX));
    let v = Value::Number(Number::UnsignedInt(7));
    assert_eq!(v.as_u64(), Some(7));
    assert_eq!(v.as_i64(), None);
    assert_eq!(v.as_size(), Some(7));
    let v = Value::Number(Number::Size(3));
    assert_eq!(v.as_u64(), Some(3));
}

#[test]
fn dependency_for_unregistered_layer_is_refused() {
    // the entry's own key must be registered too, not only its targets
    let mut engine: Engine<Call, NullSink> = Engine::new();
    engine.register_layer(noop_layer("a", "m")).unwrap();
    engine.add_dependency("ghost_layer", "a").unwrap();

    assert!(!engine.can_schedule());
    let err = engine.topological_sort().unwrap_err();
    assert!(matches!(err, Error::LayerNotFound(_)));
    assert_eq!(err.describe(), "Layer 'ghost_layer' not found");
}

#[test]
fn duplicate_method_names_collapse() {
    // a later entry for the same method replaces the earlier one, as
    // repeated insertion would; the pair is scheduled once
    let slice = Slice::new("s".to_string()).with_layer(LayerArgs {
        layer: "l".to_string(),
        methods_args: vec![
            ("m".to_string(), obj(vec![("x", num(1))])),
            ("m".to_string(), obj(vec![("x", num(2))])),
        ],
    });
    assert_eq!(slice.get_layer_methods("l").unwrap(), vec!["m".to_string()]);
    let arg = slice.get_method_arg("l", "m").unwrap();
    assert_eq!(arg.get("x").unwrap().as_i64().unwrap(), 2);

    let mut layer: Layer<Call> = Layer::new("l".to_string()).with_method(MethodConfig {
        name: "m".to_string(),
        default: Value::Null,
    });
    layer
        .bind("m", Call(|args, _ctx| {
            let x = args.get("x").unwrap().as_i64().unwrap();
            Ok(Value::Number(Number::Int(x)))
        }))
        .unwrap();
    let mut engine: Engine<Call, NullSink> = Engine::new();
    engine.register_layer(layer).unwrap();
    engine.register_slice(slice);

    let results = engine.run(RunFlags::silent());
    let slice_results = results.from_slice("s").unwrap().as_ref().unwrap();
    assert_eq!(slice_results.len(), 1);
    let v = slice_results.get("l", "m").unwrap().as_ref().unwrap();
    assert_eq!(v.as_i64().unwrap(), 2);
}

#[test]
fn colliding_slice_names_keep_the_later_outcome() {
    let mut layer: Layer<Call> = Layer::new("l".to_string()).with_method(MethodConfig {
        name: "m".to_string(),
        default: Value::Null,
    });
    layer
        .bind("m", Call(|args, _ctx| {
            let x = args.get("x").unwrap().as_i64().unwrap();
            Ok(Value::Number(Number::Int(x)))
        }))
        .unwrap();
    let mut engine: Engine<Call, NullSink> = Engine::new();
    engine.register_layer(layer).unwrap();
    for x in [1i64, 2] {
        engine.register_slice(Slice::new("dup".to_string()).with_layer(LayerArgs {
            layer: "l".to_string(),
            methods_args: vec![("m".to_string(), obj(vec![("x", num(x))]))],
        }));
    }

    let results = engine.run(RunFlags::silent());
    assert_eq!(results.total_slices(), 1);
    let slice_results = results.from_slice("dup").unwrap().as_ref().unwrap();
    let v = slice_results.get("l", "m").unwrap().as_ref().unwrap();
    assert_eq!(v.as_i64().unwrap(), 2);
}

#[test]
fn method_error_listing_rows() {
    let engine = divide_engine();
    let results = engine.run(RunFlags::silent());
    let rows = results.get_all_method_errors();
    assert_eq!(rows.len(), 1);
    assert_eq!(rows[0].0, "bad");
    assert_eq!(rows[0].1, "math");
    assert_eq!(rows[0].2, "divide");
    assert_eq!(rows[0].3, "division by zero");
}
