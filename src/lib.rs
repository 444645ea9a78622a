//! Decoding of configuration documents: dotted-path field definitions are merged into a
//! tree with unique keys, which consumers read through shape requests. Unevaluated
//! sub-expressions cross as indices into the decode session's side table.

pub mod adapter;
pub mod document;
pub mod error;
pub mod laws;
pub mod merge;
pub mod number;
pub mod session;
pub mod value;

pub use adapter::{
    as_bool, as_i128, as_i16, as_i32, as_i64, as_i8, as_map, as_opaque, as_option, as_seq, as_text,
    as_u128, as_u16, as_u32, as_u64, as_u8, get, kind,
};
pub use document::{Document, FieldDef, Record, Term};
pub use error::{Error, Kind, Result, Shape};
pub use merge::{convert_term, merge_fields, MAX_PATH_DEPTH};
pub use number::Number;
pub use session::{Deserializer, NICKEL_TERM_SENTINEL};
pub use value::Value;
