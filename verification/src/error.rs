use vstd::prelude::*;

verus! {

/// The errors that reading, editing and writing RLB files can produce.
#[derive(Debug)]
pub enum Error {
    /// The size the header declares differs from the size of the input.
    InvalidFileSize { expected: u32, actual: u64 },
    /// The input ended before a section that the header announces.
    UnexpectedEof { context: &'static str },
    /// An offset points outside the section it refers to.
    OffsetOutOfBounds { context: &'static str, offset: usize, length: usize },
    /// A string could not be decoded from, or encoded to, Shift-JIS.
    InvalidUtf8 { context: &'static str, offset: usize },
    /// Writing produced a different number of bytes than the header announces.
    SerializationMismatch { expected: u32, actual: usize },
    /// A length or offset does not fit the 32-bit fields of the format.
    ValueTooLarge { context: &'static str, value: usize },
    /// A value does not fit the schema of the table it is written to.
    Validation(String),
    /// A byte that encodes a boolean is neither 0 nor 1.
    InvalidBoolean { context: &'static str, value: u8 },
    /// A table label names no known table schema.
    UnknownTableSchema { name: String },
}

/// The result type of this crate.
pub type Result<T> = core::result::Result<T, Error>;

} // verus!
