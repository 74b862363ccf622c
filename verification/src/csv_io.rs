//! CSV files: decoding their bytes, then reading their records with the
//! `csv` crate, without headers and with rows of any width.

use vstd::prelude::*;
use vstd::string::*;
use vstd::utf8::{decode_utf8, encode_utf8, valid_utf8};
use crate::error::{DataError, DataFault};
use crate::encoding::{shift_jis_decode, shift_jis_decoded};
use crate::text::utf8_text;

verus! {

/// The records that the `csv` crate reads from some bytes, without headers,
/// with rows of any width and with quoting as given; `None` when it fails.
pub uninterp spec fn csv_records(data: Seq<u8>, quoting: bool) -> Option<Seq<Seq<Seq<char>>>>;

/// The text (`Display`) of the error that the `csv` crate reports for bytes
/// it cannot read.
pub uninterp spec fn csv_error_text(data: Seq<u8>, quoting: bool) -> Seq<char>;

/// Reads all records of CSV bytes (`csv::ReaderBuilder` with
/// `has_headers(false)`, `flexible(true)` and the given quoting, then
/// `records`), or the text of the first error. The contract names the
/// records and the error text, which depend on the bytes and the quoting
/// alone; it says nothing of how they follow from them.
#[verifier::external_body]
fn read_records(data: &[u8], quoting: bool) -> (r: Result<Vec<Vec<String>>, String>)
    ensures
        match r {
            Ok(rows) => csv_records(data@, quoting) == Some(rows.deep_view()),
            Err(m) => csv_records(data@, quoting) is None && m@ == csv_error_text(data@, quoting),
        },
{
    let mut reader = csv::ReaderBuilder::new().has_headers(false).flexible(true).quoting(quoting).from_reader(
        std::io::Cursor::new(data),
    );
    let rows: Result<Vec<Vec<String>>, csv::Error> = reader.records().map(
        |record| record.map(|r| r.iter().map(|f| f.to_string()).collect()),
    ).collect();
    rows.map_err(|error| error.to_string())
}

/// Whether a result holds the records of some bytes, or the CSV error when
/// there are none.
pub open spec fn csv_result(r: Result<Vec<Vec<String>>, DataError>, data: Seq<u8>, quoting: bool) -> bool {
    match r {
        Ok(rows) => csv_records(data, quoting) == Some(rows.deep_view()),
        Err(e) => csv_records(data, quoting) is None && e@ == DataFault::Csv {
            message: csv_error_text(data, quoting),
        },
    }
}

/// The records of CSV bytes.
pub fn parse_csv(data: &[u8], quoting: bool) -> (r: Result<Vec<Vec<String>>, DataError>)
    ensures
        csv_result(r, data@, quoting),
{
    match read_records(data, quoting) {
        Ok(rows) => Ok(rows),
        Err(message) => Err(DataError::Csv { message }),
    }
}

/// `s` without one leading byte order mark.
pub open spec fn without_bom(s: Seq<char>) -> Seq<char> {
    if s.len() > 0 && s[0] == '\u{feff}' {
        s.drop_first()
    } else {
        s
    }
}

/// A text without one leading byte order mark.
pub fn strip_utf8_bom(input: &str) -> (r: &str)
    ensures
        r@ == without_bom(input@),
{
    let n = input.unicode_len();
    if n > 0 && input.get_char(0) == '\u{feff}' {
        input.substring_char(1, n)
    } else {
        input
    }
}

/// The records of a UTF-8 CSV text.
pub fn utf8_csv(content: &str, quoting: bool) -> (r: Result<Vec<Vec<String>>, DataError>)
    ensures
        csv_result(r, encode_utf8(content@), quoting),
{
    parse_csv(content.as_bytes(), quoting)
}

/// The records of the bytes of the Shift_JIS CSV file at `path`: refused when the bytes do not decode
/// cleanly.
pub fn shift_jis_csv(path: &str, bytes: &[u8], quoting: bool) -> (r: Result<Vec<Vec<String>>, DataError>)
    ensures
        shift_jis_decoded(bytes@).1 ==> (r matches Err(e) && e@ == DataFault::ShiftJisFile { path: path@ }),
        !shift_jis_decoded(bytes@).1 ==> csv_result(r, encode_utf8(shift_jis_decoded(bytes@).0), quoting),
{
    let (decoded, had_errors) = shift_jis_decode(bytes);
    if had_errors {
        return Err(DataError::ShiftJisFile { path: path.to_owned() });
    }
    parse_csv(decoded.as_str().as_bytes(), quoting)
}

/// The records of the bytes of the DrSum CSV file at `path`: UTF-8 when the bytes are UTF-8, Shift_JIS otherwise; a
/// leading byte order mark is dropped either way.
pub fn drsum_csv(path: &str, bytes: &[u8], quoting: bool) -> (r: Result<Vec<Vec<String>>, DataError>)
    ensures
        valid_utf8(bytes@) ==> csv_result(r, encode_utf8(without_bom(decode_utf8(bytes@))), quoting),
        !valid_utf8(bytes@) && shift_jis_decoded(bytes@).1 ==> (r matches Err(e) && e@ == DataFault::DrSumFile {
            path: path@,
        }),
        !valid_utf8(bytes@) && !shift_jis_decoded(bytes@).1 ==> csv_result(
            r,
            encode_utf8(without_bom(shift_jis_decoded(bytes@).0)),
            quoting,
        ),
{
    if let Ok(decoded) = utf8_text(bytes) {
        return parse_csv(strip_utf8_bom(decoded.as_str()).as_bytes(), quoting);
    }
    let (decoded, had_errors) = shift_jis_decode(bytes);
    if had_errors {
        return Err(DataError::DrSumFile { path: path.to_owned() });
    }
    parse_csv(strip_utf8_bom(decoded.as_str()).as_bytes(), quoting)
}

} // verus!
