//! Error kinds for parsing and synchronizing measurement data.

use vstd::prelude::*;
use vstd::string::StringExecFns;

verus! {

/// Everything that can go wrong while reading, parsing or caching a data
/// file. String payloads carry the offending file name, field, line or
/// value.
#[derive(Clone, Debug, PartialEq)]
pub enum ParseError {
    /// A file could not be read or decoded; carries the file name.
    InvalidFile(String),
    /// A required structural line is absent; carries the field's name.
    MissingField(String),
    /// A line violates its expected shape; carries the line.
    MalformedEntry(String),
    /// An unexpected internal failure; carries a description.
    GeneralError(String),
    /// Reading a line failed; carries the underlying message.
    IOError(String),
    DataFrameCreationError,
    ColumnCreationError,
    DataAlignmentError,
    ReadFolderError,
    ReadMetadataError,
    FileNameExtractionError,
    /// A value could not be converted to its column's declared type;
    /// carries the column, the value and the type name.
    TypeConversionError(String, String, String),
    ColumnMismatchError,
    DuplicateColumns,
    InvalidRegex,
    /// Deriving the localized timestamp column failed; carries a reason.
    EpochToDatetime(String),
}

/// The one-line message `describe` renders for each error.
pub open spec fn describe_spec(e: &ParseError) -> Seq<char> {
    match e {
        ParseError::InvalidFile(f) => "Invalid file encountered: "@ + f@,
        ParseError::MissingField(f) => "Missing required field: "@ + f@,
        ParseError::MalformedEntry(l) => "Malformed entry found: "@ + l@,
        ParseError::GeneralError(m) => "General error from ksm: "@ + m@,
        ParseError::IOError(m) => "Error when reading a file: "@ + m@,
        ParseError::DataFrameCreationError => "Failed to create new row"@,
        ParseError::ColumnCreationError => "Failed to create new column"@,
        ParseError::DataAlignmentError => "Failed to align or insert row"@,
        ParseError::ReadFolderError => "Error when iterating entries in a folder"@,
        ParseError::ReadMetadataError => "Error when reading metadata for a directory entry"@,
        ParseError::FileNameExtractionError => "Error when extracting file path"@,
        ParseError::TypeConversionError(col, val, dtype) => "Error when converting column "@ + col@
            + " to "@ + dtype@ + ": "@ + val@,
        ParseError::ColumnMismatchError => "Column mismatch"@,
        ParseError::DuplicateColumns => "Duplicate columns"@,
        ParseError::InvalidRegex => "Invalid Regex"@,
        ParseError::EpochToDatetime(m) => "Error converting epoch column to datetime: "@ + m@,
    }
}

impl ParseError {
    /// Renders the error as a one-line human-readable message.
    pub fn describe(&self) -> (r: String)
        ensures
            r@ == describe_spec(self),
    {
        match self {
            ParseError::InvalidFile(f) => {
                let mut s = String::from_str("Invalid file encountered: ");
                s.append(f.as_str());
                s
            },
            ParseError::MissingField(f) => {
                let mut s = String::from_str("Missing required field: ");
                s.append(f.as_str());
                s
            },
            ParseError::MalformedEntry(l) => {
                let mut s = String::from_str("Malformed entry found: ");
                s.append(l.as_str());
                s
            },
            ParseError::GeneralError(m) => {
                let mut s = String::from_str("General error from ksm: ");
                s.append(m.as_str());
                s
            },
            ParseError::IOError(m) => {
                let mut s = String::from_str("Error when reading a file: ");
                s.append(m.as_str());
                s
            },
            ParseError::DataFrameCreationError => String::from_str("Failed to create new row"),
            ParseError::ColumnCreationError => String::from_str("Failed to create new column"),
            ParseError::DataAlignmentError => String::from_str("Failed to align or insert row"),
            ParseError::ReadFolderError => String::from_str(
                "Error when iterating entries in a folder",
            ),
            ParseError::ReadMetadataError => String::from_str(
                "Error when reading metadata for a directory entry",
            ),
            ParseError::FileNameExtractionError => String::from_str(
                "Error when extracting file path",
            ),
            ParseError::TypeConversionError(col, val, dtype) => {
                let mut s = String::from_str("Error when converting column ");
                s.append(col.as_str());
                s.append(" to ");
                s.append(dtype.as_str());
                s.append(": ");
                s.append(val.as_str());
                s
            },
            ParseError::ColumnMismatchError => String::from_str("Column mismatch"),
            ParseError::DuplicateColumns => String::from_str("Duplicate columns"),
            ParseError::InvalidRegex => String::from_str("Invalid Regex"),
            ParseError::EpochToDatetime(m) => {
                let mut s = String::from_str("Error converting epoch column to datetime: ");
                s.append(m.as_str());
                s
            },
        }
    }
}

} // verus!
