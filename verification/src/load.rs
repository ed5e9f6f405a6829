//! Loading from a file. Reading the file is left to the caller; what it read,
//! or the error it met, is turned into a table or a schema here.

use vstd::prelude::*;
use vstd::string::StringExecFns;
use crate::parser::{parse, parse_str, ParseError, ParseErrorView};
use crate::schema::{
    all_typed, describes, parse_schema_str, schema_error, Schema, SchemaParseError,
};
use crate::tree::Tree;
use crate::value::Table;

verus! {

/// `std::io::Error`, which is carried through without a look inside.
#[verifier::external_type_specification]
#[verifier::external_body]
pub struct ExIoError(std::io::Error);

/// The text of an I/O error: what `to_string` gives for a `std::io::Error`,
/// that is, its `Display`. The text depends on the error and on the
/// platform, so nothing is stated of it.
#[verifier::external_body]
fn io_error_text(e: &std::io::Error) -> (text: String) {
    e.to_string()
}

/// Why a configuration could not be loaded.
#[derive(Debug)]
pub enum LoadError {
    Io(std::io::Error),
    Parse(ParseError),
}

/// Why a schema could not be loaded.
#[derive(Debug)]
pub enum SchemaLoadError {
    Io(std::io::Error),
    Parse(SchemaParseError),
}

impl LoadError {
    /// The error as text: `io: ` or `parse: `, then the text of the cause.
    pub fn to_string(&self) -> (out: String)
        ensures
            match self {
                LoadError::Io(_) => "io: "@.is_prefix_of(out@),
                LoadError::Parse(e) => out@ == "parse: "@ + e.text(),
            },
    {
        match self {
            LoadError::Io(e) => {
                let mut out = "io: ".to_owned();
                out.append(io_error_text(e).as_str());
                out
            },
            LoadError::Parse(e) => {
                let mut out = "parse: ".to_owned();
                out.append(e.to_string().as_str());
                out
            },
        }
    }
}

impl SchemaLoadError {
    /// The error as text: `io: ` and the text of the I/O error, or the text
    /// of the schema error alone.
    pub fn to_string(&self) -> (out: String)
        ensures
            match self {
                SchemaLoadError::Io(_) => "io: "@.is_prefix_of(out@),
                SchemaLoadError::Parse(e) => out@ == e.text(),
            },
    {
        match self {
            SchemaLoadError::Io(e) => {
                let mut out = "io: ".to_owned();
                out.append(io_error_text(e).as_str());
                out
            },
            SchemaLoadError::Parse(e) => e.to_string(),
        }
    }
}

/// The table that the text of a file holds. `read` is what reading the file
/// gave: its text, which is parsed, or an I/O error, which is handed on.
pub fn load_from(read: Result<String, std::io::Error>) -> (r: Result<Table, LoadError>)
    ensures
        match read {
            Err(cause) => r matches Err(LoadError::Io(e)) && e == cause,
            Ok(text) => match r {
                Ok(table) => parse(text@) == Ok::<Map<Seq<char>, Tree>, ParseErrorView>(table@),
                Err(LoadError::Parse(e)) => parse(text@) == Err::<
                    Map<Seq<char>, Tree>,
                    ParseErrorView,
                >(e@),
                Err(LoadError::Io(_)) => false,
            },
        },
{
    match read {
        Err(cause) => Err(LoadError::Io(cause)),
        Ok(text) => match parse_str(text.as_str()) {
            Ok(table) => Ok(table),
            Err(e) => Err(LoadError::Parse(e)),
        },
    }
}

/// The schema that the text of a file holds. `read` is what reading the file
/// gave: its text, which is parsed as a schema, or an I/O error, which is
/// handed on.
pub fn load_schema_from(read: Result<String, std::io::Error>) -> (r: Result<
    Schema,
    SchemaLoadError,
>)
    ensures
        match read {
            Err(cause) => r matches Err(SchemaLoadError::Io(e)) && e == cause,
            Ok(text) => {
                &&& r is Ok <==> (parse(text@) matches Ok(tree) && all_typed(tree))
                &&& match r {
                    Ok(schema) => parse(text@) matches Ok(tree) && describes(schema@, tree),
                    Err(SchemaLoadError::Parse(e)) => schema_error(text@, e),
                    Err(SchemaLoadError::Io(_)) => false,
                }
            },
        },
{
    match read {
        Err(cause) => Err(SchemaLoadError::Io(cause)),
        Ok(text) => match parse_schema_str(text.as_str()) {
            Ok(schema) => Ok(schema),
            Err(e) => Err(SchemaLoadError::Parse(e)),
        },
    }
}

} // verus!
