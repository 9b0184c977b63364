use std::sync::atomic::{AtomicUsize, Ordering};
use std::sync::{Arc, Mutex};

use sandl::{
    Context, Engine, EngineEvent, Error, EventSink, Layer, LayerArgs, MethodConfig, MethodFn,
    Observer, RunFlags, Slice, Value,
};

struct Call(fn(&Value, &mut Context) -> Result<Value, Error>);

impl MethodFn for Call {
    fn invoke(&self, args: &Value, ctx: &mut Context) -> Result<Value, Error> {
        (self.0)(args, ctx)
    }
}

fn quick_layer(layer: &str, method: &str, f: fn(&Value, &mut Context) -> Result<Value, Error>) -> Layer<Call> {
    let mut l: Layer<Call> = Layer::new(layer.to_string()).with_method(MethodConfig {
        name: method.to_string(),
        default: Value::Null,
    });
    l.bind(method, Call(f)).unwrap();
    l
}

fn default_slice(name: &str, layer: &str, method: &str) -> Slice {
    Slice::new(name.to_string()).with_layer(LayerArgs {
        layer: layer.to_string(),
        methods_args: vec![(method.to_string(), Value::Null)],
    })
}

/// Records a line for each received event.
struct LogSink {
    lines: Arc<Mutex<Vec<String>>>,
}

impl EventSink for LogSink {
    fn on_event(&self, event: &EngineEvent) {
        let line = match event {
            EngineEvent::SliceStart { slice } => format!("slice_start:{}", slice),
            EngineEvent::SliceComplete { slice, .. } => format!("slice_complete:{}", slice),
            EngineEvent::SliceFailed { slice, .. } => format!("slice_failed:{}", slice),
            EngineEvent::MethodStart { slice, layer, method } => {
                format!("method_start:{}:{}:{}", slice, layer, method)
            },
            EngineEvent::MethodComplete { slice, layer, method, .. } => {
                format!("method_complete:{}:{}:{}", slice, layer, method)
            },
            EngineEvent::MethodFailed { slice, layer, method, error } => {
                format!("{}:{}:{}:{}", slice, layer, method, error)
            },
        };
        self.lines.lock().unwrap().push(line);
    }
}

/// Counts the events it receives.
struct CountSink {
    count: Arc<AtomicUsize>,
}

impl EventSink for CountSink {
    fn on_event(&self, _event: &EngineEvent) {
        self.count.fetch_add(1, Ordering::SeqCst);
    }
}

#[test]
fn observer_callbacks() {
    let mut observer: Observer<LogSink> = Observer::new();
    let events = Arc::new(Mutex::new(Vec::new()));

    observer.on_slice_start(LogSink { lines: events.clone() });
    observer.on_method_start(LogSink { lines: events.clone() });

    observer.emit(&EngineEvent::SliceStart { slice: "s1".to_string() });
    observer.emit(&EngineEvent::MethodStart {
        slice: "s1".to_string(),
        layer: "l1".to_string(),
        method: "m1".to_string(),
    });

    let recorded = events.lock().unwrap();
    assert_eq!(recorded.len(), 2);
    assert_eq!(recorded[0], "slice_start:s1");
    assert_eq!(recorded[1], "method_start:s1:l1:m1");
}

#[test]
fn observer_method_start() {
    let layer = quick_layer("layer", "work", |_args, _ctx| Ok(Value::Object(Vec::new())));
    let slice = default_slice("test", "layer", "work");

    let called = Arc::new(AtomicUsize::new(0));

    let mut observer: Observer<CountSink> = Observer::new();
    observer.on_method_start(CountSink { count: called.clone() });

    let mut engine: Engine<Call, CountSink> = Engine::new();
    engine.register_layer(layer).unwrap();
    engine.register_slice(slice);
    engine.set_observer(observer);

    engine.run(RunFlags::silent());

    assert_eq!(called.load(Ordering::SeqCst), 1);
}

#[test]
fn observer_method_complete() {
    let layer = quick_layer("layer", "work", |_args, _ctx| Ok(Value::Object(Vec::new())));
    let slice = default_slice("test", "layer", "work");

    let called = Arc::new(AtomicUsize::new(0));

    let mut observer: Observer<CountSink> = Observer::new();
    observer.on_method_complete(CountSink { count: called.clone() });

    let mut engine: Engine<Call, CountSink> = Engine::new();
    engine.register_layer(layer).unwrap();
    engine.register_slice(slice);
    engine.set_observer(observer);

    engine.run(RunFlags::silent());

    assert_eq!(called.load(Ordering::SeqCst), 1);
}

#[test]
fn observer_method_failed() {
    let layer = quick_layer("layer", "work", |_args, _ctx| {
        Err(Error::ExecutionError("test error".to_string()))
    });
    let slice = default_slice("test", "layer", "work");

    let errors = Arc::new(Mutex::new(Vec::new()));

    let mut observer: Observer<LogSink> = Observer::new();
    observer.on_method_failed(LogSink { lines: errors.clone() });

    let mut engine: Engine<Call, LogSink> = Engine::new();
    engine.register_layer(layer).unwrap();
    engine.register_slice(slice);
    engine.set_observer(observer);

    engine.run(RunFlags::silent());

    let errors = errors.lock().unwrap();
    assert_eq!(errors.len(), 1);
}

#[test]
fn observer_slice_lifecycle() {
    let layer = quick_layer("layer", "work", |_args, _ctx| Ok(Value::Object(Vec::new())));
    let slice = default_slice("test", "layer", "work");

    let events = Arc::new(Mutex::new(Vec::new()));

    let mut observer: Observer<LogSink> = Observer::new();
    observer.on_slice_start(LogSink { lines: events.clone() });
    observer.on_slice_complete(LogSink { lines: events.clone() });

    let mut engine: Engine<Call, LogSink> = Engine::new();
    engine.register_layer(layer).unwrap();
    engine.register_slice(slice);
    engine.set_observer(observer);

    engine.run(RunFlags::silent());

    let events = events.lock().unwrap();
    assert_eq!(events.len(), 2);
    assert_eq!(events[0], "slice_start:test");
    assert_eq!(events[1], "slice_complete:test");
}

#[test]
fn observer_multiple_slices() {
    let layer = quick_layer("layer", "work", |_args, _ctx| Ok(Value::Object(Vec::new())));

    let count = Arc::new(AtomicUsize::new(0));

    let mut observer: Observer<CountSink> = Observer::new();
    observer.on_method_complete(CountSink { count: count.clone() });

    let mut engine: Engine<Call, CountSink> = Engine::new();
    engine.register_layer(layer).unwrap();
    engine.register_slice(default_slice("s1", "layer", "work"));
    engine.register_slice(default_slice("s2", "layer", "work"));
    engine.set_observer(observer);

    engine.run(RunFlags::silent());

    assert_eq!(count.load(Ordering::SeqCst), 2);
}
