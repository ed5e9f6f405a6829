//! Parsing of `sysctl.conf`-style configuration text into nested tables, and
//! validation of such tables against a type schema.
//!
//! Grammar:
//! - `key = value` (leading and trailing whitespace trimmed)
//! - blank lines and lines starting with `#` or `;` are ignored
//! - a leading `-` is stripped and the line is parsed as usual
//!
//! Dot notation in keys creates nested tables: `log.file = path` gives
//! `log: { file: "path" }`.

pub mod load;
pub mod number;
pub mod parser;
pub mod paths;
pub mod schema;
pub mod text;
pub mod tree;
pub mod validate;
pub mod value;

pub use load::{load_from, load_schema_from, LoadError, SchemaLoadError};
pub use parser::{parse_str, ParseError};
pub use schema::{flatten_to_schema, parse_schema_str, Schema, SchemaParseError, SchemaType};
pub use tree::Tree;
pub use validate::{validate, SchemaValidationError};
pub use value::{get_nested, set_nested, set_nested_rest, Dict, Table, Value};
