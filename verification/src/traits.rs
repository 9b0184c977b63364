//! The argument codec boundary: fallible conversion between typed data and
//! the untyped [`Value`], consumed — not inspected — by the engine core.

use vstd::prelude::*;

use crate::error::Error;
use crate::value::{Number, Value};

verus! {

/// Decodes a typed datum from an untyped value; fails on shape mismatch.
pub trait FromValue: Sized {
    fn from_value(value: &Value) -> Result<Self, Error>;
}

/// Encodes a typed datum as an untyped value; never fails.
pub trait ToValue {
    fn to_value(&self) -> Value;
}

impl FromValue for usize {
    fn from_value(value: &Value) -> Result<Self, Error> {
        match value.as_size() {
            Some(v) => Ok(v),
            None => Err(Error::ConfigError("Expected u64".to_owned())),
        }
    }
}

impl ToValue for usize {
    fn to_value(&self) -> Value {
        Value::Number(Number::Size(*self))
    }
}

impl FromValue for u64 {
    fn from_value(value: &Value) -> Result<Self, Error> {
        match value.as_u64() {
            Some(v) => Ok(v),
            None => Err(Error::ConfigError("Expected u64".to_owned())),
        }
    }
}

impl ToValue for u64 {
    fn to_value(&self) -> Value {
        Value::Number(Number::UnsignedInt(*self))
    }
}

impl FromValue for i64 {
    fn from_value(value: &Value) -> Result<Self, Error> {
        match value.as_i64() {
            Some(v) => Ok(v),
            None => Err(Error::ConfigError("Expected i64".to_owned())),
        }
    }
}

impl ToValue for i64 {
    fn to_value(&self) -> Value {
        Value::Number(Number::Int(*self))
    }
}

impl FromValue for i32 {
    fn from_value(value: &Value) -> Result<Self, Error> {
        match value.as_i64() {
            Some(v) => Ok(#[verifier::truncate] (v as i32)),
            None => Err(Error::ConfigError("Expected i32".to_owned())),
        }
    }
}

impl ToValue for i32 {
    fn to_value(&self) -> Value {
        Value::Number(Number::Int(*self as i64))
    }
}

impl FromValue for bool {
    fn from_value(value: &Value) -> Result<Self, Error> {
        match value.as_bool() {
            Some(v) => Ok(v),
            None => Err(Error::ConfigError("Expected bool".to_owned())),
        }
    }
}

impl ToValue for bool {
    fn to_value(&self) -> Value {
        Value::Bool(*self)
    }
}

impl FromValue for String {
    fn from_value(value: &Value) -> Result<Self, Error> {
        match value.as_str() {
            Some(v) => Ok(v.to_owned()),
            None => Err(Error::ConfigError("Expected string".to_owned())),
        }
    }
}

impl ToValue for String {
    fn to_value(&self) -> Value {
        Value::Text(self.clone())
    }
}

impl<T: FromValue> FromValue for Vec<T> {
    fn from_value(value: &Value) -> Result<Self, Error> {
        match value.as_array() {
            Some(arr) => {
                let n = arr.len();
                let mut out: Vec<T> = Vec::new();
                let mut i: usize = 0;
                while i < n
                    invariant
                        n == arr.len(),
                        i <= n,
                    decreases n - i,
                {
                    match T::from_value(&arr[i]) {
                        Ok(v) => out.push(v),
                        Err(e) => {
                            return Err(e);
                        },
                    }
                    i += 1;
                }
                Ok(out)
            },
            None => Err(Error::ConfigError("Expected array".to_owned())),
        }
    }
}

impl<T: ToValue> ToValue for Vec<T> {
    fn to_value(&self) -> Value {
        let n = self.len();
        let mut out: Vec<Value> = Vec::new();
        let mut i: usize = 0;
        while i < n
            invariant
                n == self.len(),
                i <= n,
            decreases n - i,
        {
            out.push(self[i].to_value());
            i += 1;
        }
        Value::Array(out)
    }
}

impl<T: FromValue> FromValue for Option<T> {
    fn from_value(value: &Value) -> Result<Self, Error> {
        if value.is_null() {
            Ok(None)
        } else {
            match T::from_value(value) {
                Ok(v) => Ok(Some(v)),
                Err(e) => Err(e),
            }
        }
    }
}

impl<T: ToValue> ToValue for Option<T> {
    fn to_value(&self) -> Value {
        match self {
            Some(v) => v.to_value(),
            None => Value::Null,
        }
    }
}

impl FromValue for Value {
    fn from_value(value: &Value) -> Result<Self, Error> {
        Ok(value.deep_clone())
    }
}

impl ToValue for Value {
    fn to_value(&self) -> Value {
        self.deep_clone()
    }
}

impl FromValue for () {
    fn from_value(_value: &Value) -> Result<Self, Error> {
        Ok(())
    }
}

impl ToValue for () {
    fn to_value(&self) -> Value {
        Value::Null
    }
}

} // verus!
