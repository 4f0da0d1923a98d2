//! The value of one field of a table row.
use vstd::prelude::*;
use crate::error::{Error, Result};

verus! {

/// The value of one field of a table row.
///
/// A floating-point field is held as the IEEE-754 bit pattern of its `f32`, so
/// that it is written back exactly as it was read.
#[derive(Debug, Clone, PartialEq)]
pub enum Value {
    Integer(u32),
    Float(u32),
    String(Option<String>),
    Boolean(bool),
}

/// A field value as plain values.
pub enum ValueView {
    Integer(u32),
    Float(u32),
    String(Option<Seq<char>>),
    Boolean(bool),
}

impl View for Value {
    type V = ValueView;

    open spec fn view(&self) -> ValueView {
        match self {
            Value::Integer(v) => ValueView::Integer(*v),
            Value::Float(v) => ValueView::Float(*v),
            Value::String(None) => ValueView::String(None),
            Value::String(Some(s)) => ValueView::String(Some(s@)),
            Value::Boolean(b) => ValueView::Boolean(*b),
        }
    }
}

/// A `Validation` error with the given message.
pub(crate) fn validation(message: &str) -> (e: Error)
    ensures
        e matches Error::Validation(m) && m@ == message@,
{
    Error::Validation(String::from_str(message))
}

/// A `Validation` error whose message names `name` between `prefix` and `suffix`.
pub(crate) fn validation_naming(prefix: &str, name: &str, suffix: &str) -> (e: Error)
    ensures
        e matches Error::Validation(m) && m@ == prefix@ + name@ + suffix@,
{
    Error::Validation(String::from_str(prefix).concat(name).concat(suffix))
}

impl Value {
    /// A copy of the value.
    pub fn duplicate(&self) -> (r: Value)
        ensures
            r@ == self@,
    {
        match self {
            Value::Integer(v) => Value::Integer(*v),
            Value::Float(v) => Value::Float(*v),
            Value::String(None) => Value::String(None),
            Value::String(Some(s)) => Value::String(Some(s.clone())),
            Value::Boolean(b) => Value::Boolean(*b),
        }
    }

    /// The integer, or a `Validation` error for any other kind of value.
    pub fn as_integer(&self) -> (r: Result<u32>)
        ensures
            self@ matches ValueView::Integer(v) ==> r == Ok::<u32, Error>(v),
            !(self@ is Integer) ==> (r matches Err(Error::Validation(m)) && m@
                == "expected Integer value in write path; schema mismatch"@),
    {
        match self {
            Value::Integer(v) => Ok(*v),
            _ => Err(validation("expected Integer value in write path; schema mismatch")),
        }
    }

    /// The boolean, or a `Validation` error for any other kind of value.
    pub fn as_bool(&self) -> (r: Result<bool>)
        ensures
            self@ matches ValueView::Boolean(v) ==> r == Ok::<bool, Error>(v),
            !(self@ is Boolean) ==> (r matches Err(Error::Validation(m)) && m@
                == "expected Boolean value in write path; schema mismatch"@),
    {
        match self {
            Value::Boolean(v) => Ok(*v),
            _ => Err(validation("expected Boolean value in write path; schema mismatch")),
        }
    }

    /// The bit pattern of the float, or a `Validation` error for any other kind of value.
    pub fn as_float(&self) -> (r: Result<u32>)
        ensures
            self@ matches ValueView::Float(v) ==> r == Ok::<u32, Error>(v),
            !(self@ is Float) ==> (r matches Err(Error::Validation(m)) && m@
                == "expected Float value in write path; schema mismatch"@),
    {
        match self {
            Value::Float(v) => Ok(*v),
            _ => Err(validation("expected Float value in write path; schema mismatch")),
        }
    }
}

} // verus!
