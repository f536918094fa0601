//! An embedded relational engine: SQL statements planned into pull-based
//! pipelines of operators over rows stored in an ordered key-value store.

pub mod ast;
pub mod codec;
pub mod engine;
pub mod error;
pub mod expression;
pub mod ops;
pub mod schema;
pub mod table;
pub mod types;

pub use crate::engine::Output;
pub use crate::error::{Error, ErrorKind};
pub use crate::schema::{Column, Schema, Type};
pub use crate::types::{Row, RowSet, Value};
