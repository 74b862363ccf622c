//! The per-entry rules of the processing pipeline that do not touch files
//! or the database.

use vstd::prelude::*;
use crate::error::{DataError, DataFault};
use crate::file_scanner::FileEntry;
use crate::text::{lossy_text, utf8_lossy};

verus! {

/// The identifier of an entry that needs one; the error shows the entry's
/// path with each sequence that is not UTF-8 replaced by U+FFFD.
pub fn required_identify(entry: &FileEntry) -> (r: Result<&str, DataError>)
    ensures
        match r {
            Ok(s) => entry.identify matches Some(i) && s@ == i@,
            Err(e) => entry.identify is None && e@ == DataFault::MissingIdentify { path: utf8_lossy(entry.path@) },
        },
{
    match &entry.identify {
        Some(s) => Ok(s.as_str()),
        None => Err(DataError::MissingIdentify { path: lossy_text(entry.path.as_slice()) }),
    }
}

/// The identifier under which text rows are stored: the entry's, or the
/// empty text when it has none.
pub fn text_identify(entry: &FileEntry) -> (r: &str)
    ensures
        r@ == match entry.identify {
            Some(i) => i@,
            None => Seq::<char>::empty(),
        },
{
    match &entry.identify {
        Some(s) => s.as_str(),
        None => {
            proof {
                reveal_strlit("");
            }
            ""
        },
    }
}

} // verus!
