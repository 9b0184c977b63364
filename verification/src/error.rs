//! The closed error taxonomy of the engine.
//!
//! Per-method failures are wrapped with their invocation context exactly
//! once; `root_cause` and `message` reach through the wrapping to the
//! original failure.

use vstd::prelude::*;
use vstd::string::StringExecFns;

use crate::value::Value;

verus! {

/// Everything that can go wrong while building or running an engine.
#[derive(Debug)]
pub enum Error {
    /// A layer name was referenced that no registered layer carries.
    LayerNotFound(String),
    /// A layer with this name is already registered.
    LayerAlreadyExists(String),
    /// The layer exists but does not declare this method.
    MethodNotFound { method: String, layer: String },
    /// The method is declared but no function is bound to it.
    MethodNotBound(String, String),
    /// A bound method failed; the invocation context is recorded.
    MethodExecutionFailed {
        slice: String,
        layer: String,
        method: String,
        args: Value,
        cause: Box<Error>,
    },
    /// A failure raised inside a bound method.
    ExecutionError(String),
    /// A scheduling, graph or pool misconfiguration.
    ConfigError(String),
}

impl Error {
    /// The innermost error, unwrapping every context wrapper.
    pub open spec fn spec_root_cause(self) -> Error
        decreases self,
    {
        match self {
            Error::MethodExecutionFailed { cause, .. } => cause.spec_root_cause(),
            _ => self,
        }
    }

    /// The one-line description of this error, wrapper included.
    pub open spec fn spec_describe(self) -> Seq<char> {
        match self {
            Error::LayerNotFound(l) => "Layer '"@ + l@ + "' not found"@,
            Error::LayerAlreadyExists(l) => "Layer '"@ + l@ + "' already exists"@,
            Error::MethodNotFound { method, layer } => "Method '"@ + method@
                + "' not found in layer '"@ + layer@ + "'"@,
            Error::MethodNotBound(m, l) => "Method '"@ + m@ + "' has not been bound in layer '"@
                + l@ + "'"@,
            Error::MethodExecutionFailed { slice, layer, method, .. } => {
                "Method execution failed in slice '"@ + slice@ + "', layer '"@ + layer@
                    + "', method '"@ + method@ + "'"@
            },
            Error::ExecutionError(m) => "Execution error: "@ + m@,
            Error::ConfigError(m) => "Configuration error: "@ + m@,
        }
    }

    /// The innermost human-readable text, ignoring wrapper layers.
    pub open spec fn spec_message(self) -> Seq<char>
        decreases self,
    {
        match self {
            Error::MethodExecutionFailed { cause, .. } => cause.spec_message(),
            Error::ExecutionError(m) => m@,
            _ => self.spec_describe(),
        }
    }

    /// Wraps this error with the invocation that produced it.
    pub fn with_context(self, slice: &str, layer: &str, method: &str, args: Value) -> (r: Error)
        ensures
            r matches Error::MethodExecutionFailed {
                slice: s2,
                layer: l2,
                method: m2,
                args: a2,
                cause: c2,
            } && s2@ == slice@ && l2@ == layer@ && m2@ == method@ && a2 == args && *c2 == self,
    {
        Error::MethodExecutionFailed {
            slice: slice.to_owned(),
            layer: layer.to_owned(),
            method: method.to_owned(),
            args,
            cause: Box::new(self),
        }
    }

    /// The innermost original error.
    pub fn root_cause(&self) -> (r: &Error)
        ensures
            *r == self.spec_root_cause(),
        decreases *self,
    {
        match self {
            Error::MethodExecutionFailed { cause, .. } => {
                proof {
                    assert(decreases_to!(*self => (*self)->MethodExecutionFailed_cause));
                }
                cause.root_cause()
            },
            _ => self,
        }
    }

    /// The recorded invocation context, if this is a wrapped failure.
    pub fn execution_context(&self) -> (r: Option<(&str, &str, &str, &Value)>)
        ensures
            match r {
                Some(t) => self matches Error::MethodExecutionFailed {
                    slice: s2,
                    layer: l2,
                    method: m2,
                    args: a2,
                    ..
                } && t.0@ == s2@ && t.1@ == l2@ && t.2@ == m2@ && t.3 == a2,
                None => !(self is MethodExecutionFailed),
            },
    {
        match self {
            Error::MethodExecutionFailed { slice, layer, method, args, .. } => Some(
                (slice.as_str(), layer.as_str(), method.as_str(), args),
            ),
            _ => None,
        }
    }

    pub fn is_execution_error(&self) -> (b: bool)
        ensures
            b == (self is MethodExecutionFailed),
    {
        matches!(self, Error::MethodExecutionFailed { .. })
    }

    /// The one-line description of this error, wrapper included.
    pub fn describe(&self) -> (s: String)
        ensures
            s@ == self.spec_describe(),
    {
        match self {
            Error::LayerNotFound(l) => {
                let mut s = "Layer '".to_owned();
                s.append(l.as_str());
                s.append("' not found");
                s
            },
            Error::LayerAlreadyExists(l) => {
                let mut s = "Layer '".to_owned();
                s.append(l.as_str());
                s.append("' already exists");
                s
            },
            Error::MethodNotFound { method, layer } => {
                let mut s = "Method '".to_owned();
                s.append(method.as_str());
                s.append("' not found in layer '");
                s.append(layer.as_str());
                s.append("'");
                s
            },
            Error::MethodNotBound(m, l) => {
                let mut s = "Method '".to_owned();
                s.append(m.as_str());
                s.append("' has not been bound in layer '");
                s.append(l.as_str());
                s.append("'");
                s
            },
            Error::MethodExecutionFailed { slice, layer, method, .. } => {
                let mut s = "Method execution failed in slice '".to_owned();
                s.append(slice.as_str());
                s.append("', layer '");
                s.append(layer.as_str());
                s.append("', method '");
                s.append(method.as_str());
                s.append("'");
                s
            },
            Error::ExecutionError(m) => {
                let mut s = "Execution error: ".to_owned();
                s.append(m.as_str());
                s
            },
            Error::ConfigError(m) => {
                let mut s = "Configuration error: ".to_owned();
                s.append(m.as_str());
                s
            },
        }
    }

    /// The innermost human-readable text, ignoring wrapper layers.
    pub fn message(&self) -> (s: String)
        ensures
            s@ == self.spec_message(),
        decreases *self,
    {
        match self {
            Error::MethodExecutionFailed { cause, .. } => {
                proof {
                    assert(decreases_to!(*self => (*self)->MethodExecutionFailed_cause));
                }
                cause.message()
            },
            Error::ExecutionError(m) => m.clone(),
            _ => self.describe(),
        }
    }
}

} // verus!
