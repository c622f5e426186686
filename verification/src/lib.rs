//! A verified parser for flat, line-oriented configuration files.
//!
//! A configuration source is a list of `key = value` lines; `#` and `;` start
//! comment lines, and dotted keys such as `log.file` denote nested scopes.
//! An optional schema source (`key -> type` lines, with types `string`,
//! `bool` and `number`) declares expected types for fully qualified keys;
//! declared keys are coerced and validated while parsing, undeclared keys are
//! stored as strings.

pub mod model;
pub mod number;
pub mod parser;
pub mod schema;
pub mod text;
pub mod tree;

pub use parser::KeyValue;
pub use parser::parse;
pub use parser::parse_conf;
pub use parser::parse_line;
pub use parser::parse_schema;
pub use parser::parse_schema_line;
pub use parser::split_by_str;
pub use schema::ConfError;
pub use schema::SchemaTable;
pub use schema::SchemaType;
pub use schema::validate;
pub use tree::ConfList;
pub use tree::ConfValue;
pub use tree::ConfVec;
pub use tree::ConfVecValue;
pub use tree::TypeMismatchError;
