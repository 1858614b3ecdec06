//! A verified parser for comma-separated tabular text.
//!
//! The input is a byte buffer holding rows separated by `\n`, with fields
//! separated by `,`. A field is either a bare run of bytes (ending at the
//! next delimiter or line break) or a run enclosed in double quotes, whose
//! contents may include delimiters or line breaks verbatim; there is no
//! escape for a quote character inside a quoted field. Leading spaces and
//! tabs before a field are insignificant. Every row must have the same
//! number of fields as the first row. Parsing yields either the full table
//! of decoded cells or a positioned, typed error; no partial table is ever
//! returned.
//!
//! The grammar is written down once, as specification functions in
//! [`grammar`]; the executable scanner in [`parser`] is proved to return
//! exactly what those functions describe, for every input; and [`laws`]
//! proves general properties of the grammar itself, such as the
//! rectangularity of every parsed table and the round trip through a
//! naive reserialization.

pub mod error;
pub mod grammar;
pub mod laws;
pub mod parser;
pub mod text;

pub use error::CharError;
pub use error::CsvError;
pub use error::Position;
pub use error::SizeError;
pub use parser::parse_csv;
pub use parser::parse_csv_from_slice;
pub use parser::scan_field;
pub use parser::scan_row;
