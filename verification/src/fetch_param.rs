//! URL pieces for the HTTP fetcher: percent-encoded path segments and the
//! requested URL with its query, as shown in logs.

use vstd::prelude::*;
use vstd::string::*;
use vstd::utf8::encode_utf8;
use crate::text::{decimal, push_char, usize_to_decimal};

verus! {

/// Whether a byte is left as it is by percent-encoding: an ASCII letter or
/// digit, `-`, `.`, `_` or `~`.
pub open spec fn is_unreserved(b: u8) -> bool {
    (0x30 <= b <= 0x39) || (0x41 <= b <= 0x5A) || (0x61 <= b <= 0x7A) || b == 0x2D || b == 0x2E || b == 0x5F
        || b == 0x7E
}

/// The upper-case hexadecimal digit of `d < 16`.
pub open spec fn hex_upper(d: u8) -> char {
    if d < 10 {
        ((d + 0x30) as u8) as char
    } else {
        ((d - 10 + 0x41) as u8) as char
    }
}

/// Percent-encoding of bytes: unreserved bytes stay, every other byte
/// becomes `%` and two upper-case hexadecimal digits.
pub open spec fn percent_encode(bytes: Seq<u8>) -> Seq<char>
    decreases bytes.len(),
{
    if bytes.len() == 0 {
        Seq::empty()
    } else {
        let b = bytes.last();
        let rest = percent_encode(bytes.drop_last());
        if is_unreserved(b) {
            rest.push(b as char)
        } else {
            rest + seq!['%', hex_upper(b / 16), hex_upper(b % 16)]
        }
    }
}

/// Percent-encodes the UTF-8 bytes of a text (`urlencoding::encode`), as its
/// source shows: alphanumerics, `-`, `.`, `_` and `~` stay, every other byte
/// becomes `%XX` in upper-case hexadecimal.
#[verifier::external_body]
fn url_encode(data: &str) -> (r: String)
    ensures
        r@ == percent_encode(encode_utf8(data@)),
{
    urlencoding::encode(data).into_owned()
}

/// A path segment percent-encoded so that it can stand in a URL.
pub fn encode_segment(segment: &str) -> (r: String)
    ensures
        r@ == percent_encode(encode_utf8(segment@)),
{
    url_encode(segment)
}

/// `key=value` for one query pair.
pub open spec fn query_pair(key: Seq<char>, value: u32) -> Seq<char> {
    key + "="@ + decimal(value as nat)
}

/// The query pairs joined by `&`.
pub open spec fn query_string(query: Seq<(Seq<char>, u32)>) -> Seq<char>
    decreases query.len(),
{
    if query.len() == 0 {
        Seq::empty()
    } else if query.len() == 1 {
        query_pair(query[0].0, query[0].1)
    } else {
        query_string(query.drop_last()) + "&"@ + query_pair(query.last().0, query.last().1)
    }
}

/// The URL as requested: the base alone without query pairs, otherwise the
/// base, `?`, and the pairs joined by `&`.
pub open spec fn requested_url(base: Seq<char>, query: Seq<(Seq<char>, u32)>) -> Seq<char> {
    if query.len() == 0 {
        base
    } else {
        base + "?"@ + query_string(query)
    }
}

/// The query pairs as text and number.
pub open spec fn query_view(query: Seq<(&str, u32)>) -> Seq<(Seq<char>, u32)> {
    Seq::new(query.len(), |i: int| (query[i].0@, query[i].1))
}

/// The base URL with its query, for display.
pub fn build_requested_url(base: &str, query: &[(&str, u32)]) -> (r: String)
    ensures
        r@ == requested_url(base@, query_view(query@)),
{
    let ghost q = query_view(query@);
    if query.len() == 0 {
        return base.to_owned();
    }
    let mut s = base.to_owned();
    s.append("?");
    let ghost head = s@;
    let mut i: usize = 0;
    while i < query.len()
        invariant
            1 <= query@.len(),
            i <= query@.len(),
            q == query_view(query@),
            s@ == head + query_string(q.take(i as int)),
        decreases query@.len() - i,
    {
        let ghost before = s@;
        if i > 0 {
            s.append("&");
        }
        let (key, value) = query[i];
        s.append(key);
        s.append("=");
        let number = usize_to_decimal(value as usize);
        s.append(number.as_str());
        proof {
            reveal_strlit("&");
            reveal_strlit("=");
            assert(q.take(i + 1).drop_last() =~= q.take(i as int));
            assert(q.take(i + 1).last() == q[i as int]);
            if i == 0 {
                assert(query_string(q.take(0)) =~= Seq::<char>::empty());
                assert(s@ =~= head + query_pair(q[0].0, q[0].1));
            } else {
                assert(s@ =~= before + "&"@ + query_pair(q[i as int].0, q[i as int].1));
            }
        }
        i += 1;
    }
    assert(q.take(i as int) =~= q);
    s
}

/// The query text: one pair gives `key=value` with the value in decimal,
/// and each further pair is appended after exactly one `&`.
pub proof fn lemma_query_string(query: Seq<(Seq<char>, u32)>, key: Seq<char>, value: u32)
    ensures
        query_string(Seq::empty().push((key, value))) == key + seq!['='] + decimal(value as nat),
        query.len() > 0 ==> query_string(query.push((key, value))) == query_string(query) + seq!['&'] + key + seq![
            '=',
        ] + decimal(value as nat),
        query_string(Seq::<(Seq<char>, u32)>::empty()) == Seq::<char>::empty(),
{
    reveal_strlit("=");
    reveal_strlit("&");
    let one = Seq::<(Seq<char>, u32)>::empty().push((key, value));
    assert(one.len() == 1 && one[0] == (key, value));
    assert(query_string(one) =~= key + seq!['='] + decimal(value as nat));
    if query.len() > 0 {
        let q = query.push((key, value));
        assert(q.drop_last() =~= query);
        assert(query_string(q) =~= query_string(query) + seq!['&'] + key + seq!['='] + decimal(value as nat));
    }
}

/// The requested URL is the base alone without pairs, and otherwise the
/// base, `?` and the query text.
pub proof fn lemma_requested_url(base: Seq<char>, query: Seq<(Seq<char>, u32)>)
    ensures
        query.len() == 0 ==> requested_url(base, query) == base,
        query.len() > 0 ==> requested_url(base, query) == base + seq!['?'] + query_string(query),
{
    reveal_strlit("?");
    assert("?"@ =~= seq!['?']);
}

/// Whether a character may stand in a percent-encoded text: an unreserved
/// ASCII character or `%`.
pub open spec fn is_url_safe(c: char) -> bool {
    ((c as u32) < 0x80 && is_unreserved(c as u32 as u8)) || c == '%'
}

/// Percent-encoded text holds only unreserved characters and `%`, and bytes
/// that are all unreserved come out unchanged.
pub proof fn lemma_percent_encode_safe(bytes: Seq<u8>)
    ensures
        forall|i: int| 0 <= i < percent_encode(bytes).len() ==> is_url_safe(#[trigger] percent_encode(bytes)[i]),
        (forall|i: int| 0 <= i < bytes.len() ==> is_unreserved(#[trigger] bytes[i])) ==> percent_encode(bytes) == Seq::new(
            bytes.len(),
            |i: int| bytes[i] as char,
        ),
    decreases bytes.len(),
{
    if bytes.len() > 0 {
        let b = bytes.last();
        lemma_percent_encode_safe(bytes.drop_last());
        let rest = percent_encode(bytes.drop_last());
        let r = percent_encode(bytes);
        assert(b / 16 < 16 && b % 16 < 16);
        assert forall|i: int| 0 <= i < r.len() implies is_url_safe(#[trigger] r[i]) by {
            if i < rest.len() {
                assert(r[i] == rest[i]);
            }
        }
        if forall|i: int| 0 <= i < bytes.len() ==> is_unreserved(#[trigger] bytes[i]) {
            assert(is_unreserved(bytes[bytes.len() - 1]));
            assert(r =~= Seq::new(bytes.len(), |i: int| bytes[i] as char));
        }
    }
}

} // verus!
