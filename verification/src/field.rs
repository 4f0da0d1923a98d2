//! Descriptions of the fields of table entries.
use vstd::prelude::*;

verus! {

/// The kind of value a field holds.
#[derive(Debug, Clone, Copy, PartialEq, Eq)]
pub enum FieldKind {
    Integer(IntegerKind),
    Float(FloatKind),
    String,
    Boolean,
}

/// The width of an integer field.
#[derive(Debug, Clone, Copy, PartialEq, Eq)]
pub enum IntegerKind {
    U8,
    U16,
    U32,
}

/// The width of a floating-point field.
#[derive(Debug, Clone, Copy, PartialEq, Eq)]
pub enum FloatKind {
    F32,
}

/// What values a field admits beyond its kind.
#[derive(Debug, Clone, PartialEq, Eq)]
pub enum FieldConstraint {
    Unconstrained,
    IntegerRange { min: u32, max: u32 },
    TableIndex { table: &'static str },
}

/// The name, description, kind and constraint of one field.
#[derive(Debug, Clone, PartialEq, Eq)]
pub struct FieldDescriptor {
    pub name: &'static str,
    pub description: &'static str,
    pub kind: FieldKind,
    pub constraint: FieldConstraint,
}

} // verus!
