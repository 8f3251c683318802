use vstd::prelude::*;

use crate::error::GraphError;

verus! {

/// Parses a CSV-encoded graph representation.
///
/// CSV input is not supported: the result is always an
/// [`GraphError::UnsupportedFormat`] error naming `"csv"`.
pub fn parse_csv<W>(input: &str) -> (r: Result<(), GraphError<W>>)
    ensures
        r matches Err(GraphError::UnsupportedFormat { format }) && format@ == "csv"@,
{
    Err(GraphError::UnsupportedFormat { format: "csv".to_string() })
}

/// Parses a GML (Graph Modelling Language) graph representation.
///
/// GML input is not supported: the result is always an
/// [`GraphError::UnsupportedFormat`] error naming `"gml"`.
pub fn parse_gml<W>(input: &str) -> (r: Result<(), GraphError<W>>)
    ensures
        r matches Err(GraphError::UnsupportedFormat { format }) && format@ == "gml"@,
{
    Err(GraphError::UnsupportedFormat { format: "gml".to_string() })
}

/// Parses a JSON-encoded graph representation.
///
/// JSON input is not supported: the result is always an
/// [`GraphError::UnsupportedFormat`] error naming `"json"`.
pub fn parse_json<W>(input: &str) -> (r: Result<(), GraphError<W>>)
    ensures
        r matches Err(GraphError::UnsupportedFormat { format }) && format@ == "json"@,
{
    Err(GraphError::UnsupportedFormat { format: "json".to_string() })
}

} // verus!
