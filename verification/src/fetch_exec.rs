//! The decisions of the HTTP fetcher: which custom headers are accepted, and
//! the error texts for a rejected header, a failed response and a client that
//! could not be built.

use vstd::prelude::*;
use vstd::string::*;

verus! {

/// A character of an HTTP token (`tchar`): an ASCII letter or digit, or one
/// of ``!#$%&'*+-.^_`|~``.
pub open spec fn is_token_char(c: char) -> bool {
    let n = c as u32;
    (0x61 <= n <= 0x7A) || (0x41 <= n <= 0x5A) || (0x30 <= n <= 0x39) || n == 0x21 || n == 0x23
        || n == 0x24 || n == 0x25 || n == 0x26 || n == 0x27 || n == 0x2A || n == 0x2B || n == 0x2D
        || n == 0x2E || n == 0x5E || n == 0x5F || n == 0x60 || n == 0x7C || n == 0x7E
}

/// A header name that HTTP accepts: 1 to 65535 token characters.
pub open spec fn is_header_name(s: Seq<char>) -> bool {
    &&& 1 <= s.len() <= 65535
    &&& forall|i: int| 0 <= i < s.len() ==> is_token_char(#[trigger] s[i])
}

/// An ASCII upper-case letter made lower case; any other character as it is.
pub open spec fn ascii_lower(c: char) -> char {
    if 0x41 <= (c as u32) <= 0x5A {
        ((c as u32) + 32) as char
    } else {
        c
    }
}

/// The text with its ASCII letters made lower case.
pub open spec fn ascii_lowercase(s: Seq<char>) -> Seq<char> {
    Seq::new(s.len(), |i: int| ascii_lower(s[i]))
}

/// A character that may stand in a header value: no control character but the
/// tab, and not DEL.
pub open spec fn is_header_value_char(c: char) -> bool {
    ((c as u32) >= 32 && (c as u32) != 127) || c == '\t'
}

/// A header value that HTTP accepts.
pub open spec fn is_header_value(s: Seq<char>) -> bool {
    forall|i: int| 0 <= i < s.len() ==> is_header_value_char(#[trigger] s[i])
}

/// `HeaderName::from_str` of the http crate (as re-exported by reqwest),
/// with the accepted name turned into its text by `as_str`. As its source
/// shows, a name is accepted when it has 1 to 65535 bytes that are all token
/// characters, and is then kept in lower case; a refused name gives an error
/// whose text is "invalid HTTP header name".
#[verifier::external_body]
fn parse_header_name(key: &str) -> (r: Result<String, String>)
    ensures
        match r {
            Ok(name) => is_header_name(key@) && name@ == ascii_lowercase(key@),
            Err(e) => !is_header_name(key@) && e@ == "invalid HTTP header name"@,
        },
{
    match key.parse::<reqwest::header::HeaderName>() {
        Ok(name) => Ok(name.as_str().to_string()),
        Err(error) => Err(error.to_string()),
    }
}

/// `HeaderValue::from_str` of the http crate (as re-exported by reqwest). As
/// its source shows, a value is accepted when none of its bytes is a control
/// byte other than the tab, nor DEL; a refused value gives an error whose text
/// is "failed to parse header value".
#[verifier::external_body]
fn parse_header_value(value: &str) -> (r: Result<(), String>)
    ensures
        match r {
            Ok(_) => is_header_value(value@),
            Err(e) => !is_header_value(value@) && e@ == "failed to parse header value"@,
        },
{
    match reqwest::header::HeaderValue::from_str(value) {
        Ok(_) => Ok(()),
        Err(error) => Err(error.to_string()),
    }
}

/// The error text for a header name that HTTP refuses.
pub open spec fn header_key_error(key: Seq<char>) -> Seq<char> {
    "Invalid header key '"@ + key + "': invalid HTTP header name"@
}

/// The error text for a refused value, given the (lower-case) header name.
pub open spec fn header_value_error(name: Seq<char>) -> Seq<char> {
    "Invalid header value for key '"@ + name + "': failed to parse header value"@
}

/// The custom headers checked in order: the first pair with a refused name or
/// value gives its error; otherwise every pair with its name in lower case.
pub open spec fn headers_outcome(pairs: Seq<(Seq<char>, Seq<char>)>) -> Result<
    Seq<(Seq<char>, Seq<char>)>,
    Seq<char>,
>
    decreases pairs.len(),
{
    if pairs.len() == 0 {
        Ok(Seq::empty())
    } else {
        match headers_outcome(pairs.drop_last()) {
            Err(e) => Err(e),
            Ok(accepted) => {
                let (key, value) = pairs.last();
                if !is_header_name(key) {
                    Err(header_key_error(key))
                } else if !is_header_value(value) {
                    Err(header_value_error(ascii_lowercase(key)))
                } else {
                    Ok(accepted.push((ascii_lowercase(key), value)))
                }
            },
        }
    }
}

/// Pairs of texts as pairs of character sequences.
pub open spec fn text_pairs(pairs: Seq<(String, String)>) -> Seq<(Seq<char>, Seq<char>)> {
    Seq::new(pairs.len(), |i: int| (pairs[i].0@, pairs[i].1@))
}

/// The result of a header check as sequences.
pub open spec fn headers_result_view(r: Result<Vec<(String, String)>, String>) -> Result<
    Seq<(Seq<char>, Seq<char>)>,
    Seq<char>,
> {
    match r {
        Ok(v) => Ok(text_pairs(v@)),
        Err(e) => Err(e@),
    }
}

/// Checks the custom headers of a client in order and gives them back with
/// their names in lower case, as they are sent; the first refused name or
/// value gives its error text.
pub fn validate_headers(custom_headers: &[(String, String)]) -> (r: Result<Vec<(String, String)>, String>)
    ensures
        headers_result_view(r) == headers_outcome(text_pairs(custom_headers@)),
{
    let ghost pairs = text_pairs(custom_headers@);
    let mut accepted: Vec<(String, String)> = Vec::new();
    let mut i: usize = 0;
    proof {
        assert(pairs.take(0) =~= Seq::<(Seq<char>, Seq<char>)>::empty());
        assert(text_pairs(accepted@) =~= Seq::<(Seq<char>, Seq<char>)>::empty());
    }
    while i < custom_headers.len()
        invariant
            i <= custom_headers@.len(),
            pairs == text_pairs(custom_headers@),
            headers_outcome(pairs.take(i as int)) == Ok::<Seq<(Seq<char>, Seq<char>)>, Seq<char>>(
                text_pairs(accepted@),
            ),
        decreases custom_headers@.len() - i,
    {
        let key = &custom_headers[i].0;
        let value = &custom_headers[i].1;
        proof {
            assert(pairs.take(i + 1).drop_last() =~= pairs.take(i as int));
            assert(pairs.take(i + 1).last() == (key@, value@));
        }
        match parse_header_name(key.as_str()) {
            Err(detail) => {
                let mut message = String::from_str("Invalid header key '");
                message.append(key.as_str());
                message.append("': ");
                message.append(detail.as_str());
                proof {
                    reveal_strlit("Invalid header key '");
                    reveal_strlit("': ");
                    reveal_strlit("invalid HTTP header name");
                    reveal_strlit("': invalid HTTP header name");
                    assert(message@ =~= header_key_error(key@));
                    lemma_outcome_error_stays(pairs, i as int + 1);
                }
                return Err(message);
            },
            Ok(name) => {
                match parse_header_value(value.as_str()) {
                    Err(detail) => {
                        let mut message = String::from_str("Invalid header value for key '");
                        message.append(name.as_str());
                        message.append("': ");
                        message.append(detail.as_str());
                        proof {
                            reveal_strlit("Invalid header value for key '");
                            reveal_strlit("': ");
                            reveal_strlit("failed to parse header value");
                            reveal_strlit("': failed to parse header value");
                            assert(message@ =~= header_value_error(ascii_lowercase(key@)));
                            lemma_outcome_error_stays(pairs, i as int + 1);
                        }
                        return Err(message);
                    },
                    Ok(_) => {
                        let ghost before = accepted@;
                        accepted.push((name, value.clone()));
                        proof {
                            assert(text_pairs(accepted@) =~= text_pairs(before).push(
                                (ascii_lowercase(key@), value@),
                            ));
                        }
                    },
                }
            },
        }
        i += 1;
    }
    assert(pairs.take(i as int) =~= pairs);
    Ok(accepted)
}

/// Once the check of a prefix has failed, every longer prefix fails with the
/// same error.
proof fn lemma_outcome_error_stays(pairs: Seq<(Seq<char>, Seq<char>)>, k: int)
    requires
        0 <= k <= pairs.len(),
        headers_outcome(pairs.take(k)) is Err,
    ensures
        headers_outcome(pairs) == headers_outcome(pairs.take(k)),
    decreases pairs.len() - k,
{
    if k < pairs.len() {
        assert(pairs.take(k + 1).drop_last() =~= pairs.take(k));
        lemma_outcome_error_stays(pairs, k + 1);
    } else {
        assert(pairs.take(k) =~= pairs);
    }
}

/// When every custom header is accepted, each is sent in its place with its
/// value unchanged and its name in lower case; that name is itself a header
/// name, already in lower case.
pub proof fn lemma_accepted_headers(pairs: Seq<(Seq<char>, Seq<char>)>)
    ensures
        headers_outcome(pairs) matches Ok(sent) ==> {
            &&& sent.len() == pairs.len()
            &&& forall|i: int|
                0 <= i < sent.len() ==> {
                    &&& (#[trigger] sent[i]).0 == ascii_lowercase(pairs[i].0)
                    &&& sent[i].1 == pairs[i].1
                    &&& is_header_name(sent[i].0)
                    &&& ascii_lowercase(sent[i].0) == sent[i].0
                }
        },
    decreases pairs.len(),
{
    if pairs.len() > 0 {
        lemma_accepted_headers(pairs.drop_last());
        if let Ok(sent) = headers_outcome(pairs) {
            let prev = headers_outcome(pairs.drop_last())->Ok_0;
            let key = pairs.last().0;
            let low = ascii_lowercase(key);
            assert(is_header_name(low)) by {
                assert forall|j: int| 0 <= j < low.len() implies is_token_char(#[trigger] low[j]) by {
                    assert(is_token_char(key[j]));
                }
            }
            assert(ascii_lowercase(low) =~= low);
            assert forall|i: int| 0 <= i < sent.len() implies {
                &&& (#[trigger] sent[i]).0 == ascii_lowercase(pairs[i].0)
                &&& sent[i].1 == pairs[i].1
                &&& is_header_name(sent[i].0)
                &&& ascii_lowercase(sent[i].0) == sent[i].0
            } by {
                if i < prev.len() {
                    assert(sent[i] == prev[i]);
                    assert(pairs.drop_last()[i] == pairs[i]);
                }
            }
        }
    }
}

/// Whether an HTTP status code means success (200 to 299).
pub open spec fn is_success_status(code: u16) -> bool {
    200 <= code <= 299
}

/// The error text for a response whose status is not a success.
pub open spec fn fetch_failure(target: Seq<char>, status: Seq<char>) -> Seq<char> {
    "Failed to fetch URL: "@ + target + ", HTTP Status: "@ + status
}

/// Decides on the status of a response to a request for `target`: a status
/// from 200 to 299 lets the body be read; any other gives the error text,
/// with the status as displayed (code and reason).
pub fn check_fetch_status(target: &str, code: u16, status: &str) -> (r: Result<(), String>)
    ensures
        r is Ok <==> is_success_status(code),
        r matches Err(e) ==> e@ == fetch_failure(target@, status@),
{
    if 200 <= code && code <= 299 {
        Ok(())
    } else {
        let mut message = String::from_str("Failed to fetch URL: ");
        message.append(target);
        message.append(", HTTP Status: ");
        message.append(status);
        proof {
            reveal_strlit("Failed to fetch URL: ");
            reveal_strlit(", HTTP Status: ");
        }
        Err(message)
    }
}

/// The error text for an HTTP client that could not be built.
pub open spec fn client_failure(detail: Seq<char>) -> Seq<char> {
    "Failed to create HTTP client: "@ + detail
}

/// The error text for an HTTP client that could not be built, from the
/// builder's own error text.
pub fn client_error(detail: &str) -> (r: String)
    ensures
        r@ == client_failure(detail@),
{
    let mut message = String::from_str("Failed to create HTTP client: ");
    message.append(detail);
    proof {
        reveal_strlit("Failed to create HTTP client: ");
    }
    message
}

} // verus!
