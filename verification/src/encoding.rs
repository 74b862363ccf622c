//! Decoding of Shift_JIS bytes by `encoding_rs`.

use vstd::prelude::*;

verus! {

/// What `encoding_rs::SHIFT_JIS.decode` makes of some bytes: the text, and
/// whether malformed sequences were replaced.
pub uninterp spec fn shift_jis_decoded(bytes: Seq<u8>) -> (Seq<char>, bool);

/// Decodes bytes as Shift_JIS (`encoding_rs::Encoding::decode` on
/// `SHIFT_JIS`): a leading byte order mark, if any, selects UTF-8 or UTF-16
/// instead, and malformed sequences become U+FFFD and are reported. The
/// contract names the result; beyond that it states only that ASCII bytes
/// decode to the same characters without error, which the crate documents
/// for ASCII-compatible encodings such as Shift_JIS.
#[verifier::external_body]
pub(crate) fn shift_jis_decode(bytes: &[u8]) -> (r: (String, bool))
    ensures
        (r.0@, r.1) == shift_jis_decoded(bytes@),
        (forall|i: int| 0 <= i < bytes@.len() ==> bytes@[i] < 0x80u8) ==> r.0@ == Seq::new(
            bytes@.len(),
            |i: int| bytes@[i] as char,
        ) && !r.1,
{
    let (text, _, had_errors) = encoding_rs::SHIFT_JIS.decode(bytes);
    (text.into_owned(), had_errors)
}

} // verus!
