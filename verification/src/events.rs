//! Lifecycle events and the observer that fans them out to subscribers.
//!
//! Subscribers are registered with the event kind they care about; `emit`
//! calls each matching subscriber synchronously, in registration order, on
//! the emitting thread.  Observation is a pure side channel: it never
//! changes results.

use vstd::prelude::*;

verus! {

/// A lifecycle notification; durations are in nanoseconds.
#[derive(Debug)]
pub enum EngineEvent {
    SliceStart { slice: String },
    SliceComplete { slice: String, duration_nanos: u64 },
    SliceFailed { slice: String, error: String },
    MethodStart { slice: String, layer: String, method: String },
    MethodComplete { slice: String, layer: String, method: String, duration_nanos: u64 },
    MethodFailed { slice: String, layer: String, method: String, error: String },
}

/// A subscriber callback: it receives every event its subscription matches.
pub trait EventSink {
    fn on_event(&self, event: &EngineEvent);
}

/// A subscriber that ignores every event.
pub struct NullSink;

impl EventSink for NullSink {
    fn on_event(&self, _event: &EngineEvent) {
    }
}

/// Which events a subscription receives.
#[derive(Clone, Copy, Debug, PartialEq, Eq, Structural)]
pub enum EventKind {
    Any,
    SliceStart,
    SliceComplete,
    SliceFailed,
    MethodStart,
    MethodComplete,
    MethodFailed,
}

/// The kind describing an event's case.
pub open spec fn event_kind(e: EngineEvent) -> EventKind {
    match e {
        EngineEvent::SliceStart { .. } => EventKind::SliceStart,
        EngineEvent::SliceComplete { .. } => EventKind::SliceComplete,
        EngineEvent::SliceFailed { .. } => EventKind::SliceFailed,
        EngineEvent::MethodStart { .. } => EventKind::MethodStart,
        EngineEvent::MethodComplete { .. } => EventKind::MethodComplete,
        EngineEvent::MethodFailed { .. } => EventKind::MethodFailed,
    }
}

/// Whether a subscription of kind `k` receives event `e`.
pub open spec fn kind_matches(k: EventKind, e: EngineEvent) -> bool {
    k is Any || k == event_kind(e)
}

/// Decides whether a subscription of kind `k` receives event `e`.
pub fn matches_kind(k: EventKind, e: &EngineEvent) -> (b: bool)
    ensures
        b == kind_matches(k, *e),
{
    match k {
        EventKind::Any => true,
        EventKind::SliceStart => matches!(e, EngineEvent::SliceStart { .. }),
        EventKind::SliceComplete => matches!(e, EngineEvent::SliceComplete { .. }),
        EventKind::SliceFailed => matches!(e, EngineEvent::SliceFailed { .. }),
        EventKind::MethodStart => matches!(e, EngineEvent::MethodStart { .. }),
        EventKind::MethodComplete => matches!(e, EngineEvent::MethodComplete { .. }),
        EventKind::MethodFailed => matches!(e, EngineEvent::MethodFailed { .. }),
    }
}

/// The registry of subscriber callbacks.
pub struct Observer<S> {
    subscribers: Vec<(EventKind, S)>,
}

impl<S: EventSink> Observer<S> {
    /// The registered subscriptions, in registration order.
    pub closed spec fn subs(&self) -> Seq<(EventKind, S)> {
        self.subscribers@
    }

    /// An observer with no subscribers.
    pub fn new() -> (o: Observer<S>)
        ensures
            o.subs().len() == 0,
    {
        Observer { subscribers: Vec::new() }
    }

    /// Subscribes to every event.
    pub fn on_event(&mut self, sink: S)
        ensures
            final(self).subs() == old(self).subs().push((EventKind::Any, sink)),
    {
        self.subscribers.push((EventKind::Any, sink));
    }

    /// Subscribes to slice-start events.
    pub fn on_slice_start(&mut self, sink: S)
        ensures
            final(self).subs() == old(self).subs().push((EventKind::SliceStart, sink)),
    {
        self.subscribers.push((EventKind::SliceStart, sink));
    }

    /// Subscribes to slice-completion events.
    pub fn on_slice_complete(&mut self, sink: S)
        ensures
            final(self).subs() == old(self).subs().push((EventKind::SliceComplete, sink)),
    {
        self.subscribers.push((EventKind::SliceComplete, sink));
    }

    /// Subscribes to method-start events.
    pub fn on_method_start(&mut self, sink: S)
        ensures
            final(self).subs() == old(self).subs().push((EventKind::MethodStart, sink)),
    {
        self.subscribers.push((EventKind::MethodStart, sink));
    }

    /// Subscribes to method-completion events.
    pub fn on_method_complete(&mut self, sink: S)
        ensures
            final(self).subs() == old(self).subs().push((EventKind::MethodComplete, sink)),
    {
        self.subscribers.push((EventKind::MethodComplete, sink));
    }

    /// Subscribes to method-failure events.
    pub fn on_method_failed(&mut self, sink: S)
        ensures
            final(self).subs() == old(self).subs().push((EventKind::MethodFailed, sink)),
    {
        self.subscribers.push((EventKind::MethodFailed, sink));
    }

    /// Hands the event to every matching subscriber, in registration order.
    pub fn emit(&self, event: &EngineEvent) {
        let n = self.subscribers.len();
        let mut i: usize = 0;
        while i < n
            invariant
                n == self.subscribers.len(),
                i <= n,
            decreases n - i,
        {
            if matches_kind(self.subscribers[i].0, event) {
                self.subscribers[i].1.on_event(event);
            }
            i += 1;
        }
    }
}

} // verus!
