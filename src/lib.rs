//! Order-preserving row encoding of nested list values.

pub mod array;
pub mod fixed;
pub mod list;
pub mod order;
pub mod ordering;
pub mod variable;

pub use array::{Array, EncodeError, PrimitiveArray, Rows, SortOptions, UnsupportedKind};
pub use list::{encode, encode_len, encode_raw};
