//! Reading, editing and writing RLB table files.
//!
//! The crate is layered in the same way as the file format: `raw_file` and
//! `header` describe the container (a header, a data blob, a relocation table,
//! two lists of table records and a label pool), while the remaining modules
//! interpret the data blob as typed tables.
//!
//! `rlb_file` ties the two together: reading a file reads each labelled table,
//! and writing it lays the tables out again after a pool of their strings. The
//! `roundtrip` module proves that what is written reads back as the same tables.

pub mod be;
pub mod codec;
pub mod entry;
pub mod collection;
pub mod error;
pub mod field;
pub mod parse_context;
pub mod header;
pub mod raw_file;
pub mod relocation;
pub mod roundtrip;
pub mod row;
pub mod rlb_file;
pub mod schema;
pub mod schema_laws;
pub mod sjis;
pub mod string_pool;
pub mod table;
pub mod table_of_contents;
pub mod util;
pub mod value;

pub use error::{Error, Result};
pub use collection::TableId;
pub use field::{FieldConstraint, FieldDescriptor, FieldKind, FloatKind, IntegerKind};
pub use rlb_file::{RLBFile, TableView};
pub use row::Row;
pub use schema::{RowBoundary, RowLayout, SchemaDescriptor, SchemaId};
pub use value::Value;
