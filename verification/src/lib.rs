//! A dependency-aware execution engine.
//!
//! Work is organised into named *layers*, each exposing named *methods*;
//! independent units of work (*slices*) choose which methods to invoke with
//! which arguments.  The engine orders layers by their declared dependencies,
//! partitions each slice's invocations into waves that may run concurrently,
//! dispatches them, isolates per-method failures, and aggregates results.
//!
//! Slices run concurrently on a worker pool; the operations of one wave,
//! which carry no ordering constraint among themselves, are dispatched in
//! schedule order on the slice's executing thread.

pub mod alist;
pub mod clock;
pub mod config;
pub mod context;
pub mod engine;
pub mod error;
pub mod events;
pub mod layer;
pub mod results;
pub mod schedule;
pub mod slice;
pub mod strutil;
pub mod text;
pub mod tracker;
pub mod traits;
pub mod value;

pub use config::EngineConfig;
pub use config::RunFlags;
pub use context::Context;
pub use engine::merge_args;
pub use engine::Engine;
pub use error::Error;
pub use events::EngineEvent;
pub use events::EventKind;
pub use events::EventSink;
pub use events::NullSink;
pub use events::Observer;
pub use layer::Layer;
pub use layer::MethodConfig;
pub use layer::MethodFn;
pub use results::RunResults;
pub use results::SliceResults;
pub use slice::LayerArgs;
pub use tracker::ProgressTracker;
pub use traits::FromValue;
pub use traits::ToValue;
pub use slice::Slice;
pub use value::Number;
pub use value::Value;
