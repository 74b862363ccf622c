//! The ways in which input data can fail the import rules.

use vstd::prelude::*;
use vstd::string::*;
use crate::text::{decimal, usize_to_decimal};

verus! {

/// Why some input does not meet the import rules.
#[derive(Debug)]
pub enum DataError {
    /// A CSV row without the expected number of columns.
    InvalidColumnCount { table: String, expected: usize, got: usize },
    /// A row whose width differs from the first row of the same table.
    RowWidthMismatch { table: String, expected: usize, got: usize },
    /// A fixed-width line shorter than the sum of the widths.
    LineTooShort { expected: usize, got: usize },
    /// A fixed-width segment that is not UTF-8, with the decoder's account.
    SegmentNotUtf8 { start: usize, end: usize, detail: String },
    /// A JSON member that should be an array and is not.
    NotAnArray { key: String },
    /// A JSON array member with an element that is no object.
    NotObjects { key: String },
    /// A JSON object without a required field.
    MissingField { field: String },
    /// A JSON field whose value is an array or an object.
    NotScalar { field: String },
    /// A required record that is missing or empty.
    RecordMissing { key: String },
    /// An empty header row.
    EmptyHeader,
    /// A header name that holds a NUL character (column counted from one).
    HeaderHasNul { column: usize },
    /// A file entry that needs an identifier and has none.
    MissingIdentify { path: String },
    /// An identify document without a usable identifier.
    IdentifyNotFound { path: String },
    /// An identify document without an identifier in its `identify` array.
    IdentifyMissing { path: String },
    /// A Shift_JIS CSV file that does not decode.
    ShiftJisFile { path: String },
    /// A DrSum CSV file that is neither UTF-8 nor Shift_JIS.
    DrSumFile { path: String },
    /// A text file that is not UTF-8, with the decoder's account.
    Utf8Text { path: String, detail: String },
    /// A Shift_JIS text file that does not decode.
    ShiftJisText { path: String },
    /// CSV that the reader refuses, with the reader's message.
    Csv { message: String },
}

/// A `DataError` with its texts as character sequences.
pub enum DataFault {
    InvalidColumnCount { table: Seq<char>, expected: nat, got: nat },
    RowWidthMismatch { table: Seq<char>, expected: nat, got: nat },
    LineTooShort { expected: nat, got: nat },
    SegmentNotUtf8 { start: nat, end: nat, detail: Seq<char> },
    NotAnArray { key: Seq<char> },
    NotObjects { key: Seq<char> },
    MissingField { field: Seq<char> },
    NotScalar { field: Seq<char> },
    RecordMissing { key: Seq<char> },
    EmptyHeader,
    HeaderHasNul { column: nat },
    MissingIdentify { path: Seq<char> },
    IdentifyNotFound { path: Seq<char> },
    IdentifyMissing { path: Seq<char> },
    ShiftJisFile { path: Seq<char> },
    DrSumFile { path: Seq<char> },
    Utf8Text { path: Seq<char>, detail: Seq<char> },
    ShiftJisText { path: Seq<char> },
    Csv { message: Seq<char> },
}

impl View for DataError {
    type V = DataFault;

    open spec fn view(&self) -> DataFault {
        match self {
            DataError::InvalidColumnCount { table, expected, got } => DataFault::InvalidColumnCount {
                table: table@,
                expected: *expected as nat,
                got: *got as nat,
            },
            DataError::RowWidthMismatch { table, expected, got } => DataFault::RowWidthMismatch {
                table: table@,
                expected: *expected as nat,
                got: *got as nat,
            },
            DataError::LineTooShort { expected, got } => DataFault::LineTooShort {
                expected: *expected as nat,
                got: *got as nat,
            },
            DataError::SegmentNotUtf8 { start, end, detail } => DataFault::SegmentNotUtf8 {
                start: *start as nat,
                end: *end as nat,
                detail: detail@,
            },
            DataError::NotAnArray { key } => DataFault::NotAnArray { key: key@ },
            DataError::NotObjects { key } => DataFault::NotObjects { key: key@ },
            DataError::MissingField { field } => DataFault::MissingField { field: field@ },
            DataError::NotScalar { field } => DataFault::NotScalar { field: field@ },
            DataError::RecordMissing { key } => DataFault::RecordMissing { key: key@ },
            DataError::EmptyHeader => DataFault::EmptyHeader,
            DataError::HeaderHasNul { column } => DataFault::HeaderHasNul { column: *column as nat },
            DataError::MissingIdentify { path } => DataFault::MissingIdentify { path: path@ },
            DataError::IdentifyNotFound { path } => DataFault::IdentifyNotFound { path: path@ },
            DataError::IdentifyMissing { path } => DataFault::IdentifyMissing { path: path@ },
            DataError::ShiftJisFile { path } => DataFault::ShiftJisFile { path: path@ },
            DataError::DrSumFile { path } => DataFault::DrSumFile { path: path@ },
            DataError::Utf8Text { path, detail } => DataFault::Utf8Text { path: path@, detail: detail@ },
            DataError::ShiftJisText { path } => DataFault::ShiftJisText { path: path@ },
            DataError::Csv { message } => DataFault::Csv { message: message@ },
        }
    }
}

/// The text that describes a fault to the user.
pub open spec fn fault_text(f: DataFault) -> Seq<char> {
    match f {
        DataFault::InvalidColumnCount { table, expected, got } => table + " row has invalid column count: expected "@
            + decimal(expected) + ", got "@ + decimal(got),
        DataFault::RowWidthMismatch { table, expected, got } => "row width mismatch for "@ + table + ": expected "@
            + decimal(expected) + ", got "@ + decimal(got),
        DataFault::LineTooShort { expected, got } => "fixed-width line is too short: expected at least "@ + decimal(
            expected,
        ) + " bytes, got "@ + decimal(got),
        DataFault::SegmentNotUtf8 { start, end, detail } => "fixed-width segment is not valid UTF-8 at "@ + decimal(
            start,
        ) + ".."@ + decimal(end) + ": "@ + detail,
        DataFault::NotAnArray { key } => key + " must be an array"@,
        DataFault::NotObjects { key } => key + " must contain JSON objects"@,
        DataFault::MissingField { field } => "missing field "@ + field,
        DataFault::NotScalar { field } => "field "@ + field + " must be a scalar value"@,
        DataFault::RecordMissing { key } => "required record "@ + key + " is missing or empty"@,
        DataFault::EmptyHeader => "DrSum header is empty"@,
        DataFault::HeaderHasNul { column } => "DrSum header contains NUL at column "@ + decimal(column),
        DataFault::MissingIdentify { path } => "missing identify for "@ + path,
        DataFault::IdentifyNotFound { path } => "identify missing or invalid in "@ + path,
        DataFault::IdentifyMissing { path } => "identify missing in "@ + path,
        DataFault::ShiftJisFile { path } => "failed to decode Shift_JIS file: "@ + path,
        DataFault::DrSumFile { path } => "failed to decode DrSum CSV: "@ + path,
        DataFault::Utf8Text { path, detail } => "failed to decode UTF-8 text: "@ + path + " ("@ + detail + ")"@,
        DataFault::ShiftJisText { path } => "failed to decode Shift_JIS text: "@ + path,
        DataFault::Csv { message } => message,
    }
}

/// Appends the decimal notation of a number.
fn append_decimal(s: &mut String, n: usize)
    ensures
        final(s)@ == old(s)@ + decimal(n as nat),
{
    let digits = usize_to_decimal(n);
    s.append(digits.as_str());
}

impl DataError {
    /// The text that describes the error to the user (what the error's
    /// display shows).
    pub fn message(&self) -> (r: String)
        ensures
            r@ == fault_text(self@),
    {
        let mut m = String::new();
        match self {
            DataError::InvalidColumnCount { table, expected, got } => {
                m.append(table.as_str());
                m.append(" row has invalid column count: expected ");
                append_decimal(&mut m, *expected);
                m.append(", got ");
                append_decimal(&mut m, *got);
                proof {
                    reveal_strlit(" row has invalid column count: expected ");
                    reveal_strlit(", got ");
                }
            },
            DataError::RowWidthMismatch { table, expected, got } => {
                m.append("row width mismatch for ");
                m.append(table.as_str());
                m.append(": expected ");
                append_decimal(&mut m, *expected);
                m.append(", got ");
                append_decimal(&mut m, *got);
                proof {
                    reveal_strlit("row width mismatch for ");
                    reveal_strlit(": expected ");
                    reveal_strlit(", got ");
                }
            },
            DataError::LineTooShort { expected, got } => {
                m.append("fixed-width line is too short: expected at least ");
                append_decimal(&mut m, *expected);
                m.append(" bytes, got ");
                append_decimal(&mut m, *got);
                proof {
                    reveal_strlit("fixed-width line is too short: expected at least ");
                    reveal_strlit(" bytes, got ");
                }
            },
            DataError::SegmentNotUtf8 { start, end, detail } => {
                m.append("fixed-width segment is not valid UTF-8 at ");
                append_decimal(&mut m, *start);
                m.append("..");
                append_decimal(&mut m, *end);
                m.append(": ");
                m.append(detail.as_str());
                proof {
                    reveal_strlit("fixed-width segment is not valid UTF-8 at ");
                    reveal_strlit("..");
                    reveal_strlit(": ");
                }
            },
            DataError::NotAnArray { key } => {
                m.append(key.as_str());
                m.append(" must be an array");
                proof {
                    reveal_strlit(" must be an array");
                }
            },
            DataError::NotObjects { key } => {
                m.append(key.as_str());
                m.append(" must contain JSON objects");
                proof {
                    reveal_strlit(" must contain JSON objects");
                }
            },
            DataError::MissingField { field } => {
                m.append("missing field ");
                m.append(field.as_str());
                proof {
                    reveal_strlit("missing field ");
                }
            },
            DataError::NotScalar { field } => {
                m.append("field ");
                m.append(field.as_str());
                m.append(" must be a scalar value");
                proof {
                    reveal_strlit("field ");
                    reveal_strlit(" must be a scalar value");
                }
            },
            DataError::RecordMissing { key } => {
                m.append("required record ");
                m.append(key.as_str());
                m.append(" is missing or empty");
                proof {
                    reveal_strlit("required record ");
                    reveal_strlit(" is missing or empty");
                }
            },
            DataError::EmptyHeader => {
                m.append("DrSum header is empty");
                proof {
                    reveal_strlit("DrSum header is empty");
                }
            },
            DataError::HeaderHasNul { column } => {
                m.append("DrSum header contains NUL at column ");
                append_decimal(&mut m, *column);
                proof {
                    reveal_strlit("DrSum header contains NUL at column ");
                }
            },
            DataError::MissingIdentify { path } => {
                m.append("missing identify for ");
                m.append(path.as_str());
                proof {
                    reveal_strlit("missing identify for ");
                }
            },
            DataError::IdentifyNotFound { path } => {
                m.append("identify missing or invalid in ");
                m.append(path.as_str());
                proof {
                    reveal_strlit("identify missing or invalid in ");
                }
            },
            DataError::IdentifyMissing { path } => {
                m.append("identify missing in ");
                m.append(path.as_str());
                proof {
                    reveal_strlit("identify missing in ");
                }
            },
            DataError::ShiftJisFile { path } => {
                m.append("failed to decode Shift_JIS file: ");
                m.append(path.as_str());
                proof {
                    reveal_strlit("failed to decode Shift_JIS file: ");
                }
            },
            DataError::DrSumFile { path } => {
                m.append("failed to decode DrSum CSV: ");
                m.append(path.as_str());
                proof {
                    reveal_strlit("failed to decode DrSum CSV: ");
                }
            },
            DataError::Utf8Text { path, detail } => {
                m.append("failed to decode UTF-8 text: ");
                m.append(path.as_str());
                m.append(" (");
                m.append(detail.as_str());
                m.append(")");
                proof {
                    reveal_strlit("failed to decode UTF-8 text: ");
                    reveal_strlit(" (");
                    reveal_strlit(")");
                }
            },
            DataError::ShiftJisText { path } => {
                m.append("failed to decode Shift_JIS text: ");
                m.append(path.as_str());
                proof {
                    reveal_strlit("failed to decode Shift_JIS text: ");
                }
            },
            DataError::Csv { message } => {
                m.append(message.as_str());
            },
        }
        m
    }
}

} // verus!
