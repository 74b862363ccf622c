//! Lines of text files: splitting on line feeds, dropping empty lines and
//! carriage returns, after the bytes have been checked or decoded.

use vstd::prelude::*;
use vstd::utf8::valid_utf8;
use crate::error::{DataError, DataFault};
use crate::encoding::{shift_jis_decode, shift_jis_decoded};
use crate::text::{chars_of, lemma_split_on_nonempty, split_on, split_ranges, string_of_range, utf8_error_text, utf8_text};

verus! {

/// `s` with each `\r\n`, found from left to right without overlap, replaced
/// by `\n` (`str::replace("\r\n", "\n")`).
pub open spec fn replace_crlf(s: Seq<char>) -> Seq<char>
    decreases s.len(),
{
    if s.len() < 2 {
        s
    } else if s[0] == '\r' && s[1] == '\n' {
        seq!['\n'] + replace_crlf(s.skip(2))
    } else {
        seq![s[0]] + replace_crlf(s.drop_first())
    }
}

/// The non-empty pieces, in order.
pub open spec fn nonempty_pieces<A>(ps: Seq<Seq<A>>) -> Seq<Seq<A>>
    decreases ps.len(),
{
    if ps.len() == 0 {
        ps
    } else if ps.last().len() == 0 {
        nonempty_pieces(ps.drop_last())
    } else {
        nonempty_pieces(ps.drop_last()).push(ps.last())
    }
}

/// The non-empty lines of a text whose line breaks are `\n` or `\r\n`.
pub open spec fn text_lines(s: Seq<char>) -> Seq<Seq<char>> {
    nonempty_pieces(split_on(replace_crlf(s), '\n'))
}

/// A line without one trailing carriage return.
pub open spec fn strip_cr(line: Seq<u8>) -> Seq<u8> {
    if line.len() > 0 && line.last() == 13u8 {
        line.drop_last()
    } else {
        line
    }
}

/// The lines of a byte text: the non-empty pieces between line feeds, each
/// without one trailing carriage return.
pub open spec fn byte_lines(s: Seq<u8>) -> Seq<Seq<u8>> {
    nonempty_pieces(split_on(s, 10u8)).map_values(|l: Seq<u8>| strip_cr(l))
}

/// `replace_crlf` of a text, as characters.
fn replace_crlf_chars(v: &[char]) -> (r: Vec<char>)
    ensures
        r@ == replace_crlf(v@),
{
    let mut out: Vec<char> = Vec::new();
    let mut i: usize = 0;
    assert(v@.skip(0) =~= v@);
    while i < v.len()
        invariant
            i <= v@.len(),
            replace_crlf(v@) == out@ + replace_crlf(v@.skip(i as int)),
        decreases v@.len() - i,
    {
        let t = Ghost(v@.skip(i as int));
        if i + 1 < v.len() && v[i] == '\r' && v[i + 1] == '\n' {
            proof {
                assert(t@.skip(2) =~= v@.skip(i + 2));
                assert(out@.push('\n') + replace_crlf(v@.skip(i + 2)) =~= out@ + (seq!['\n'] + replace_crlf(t@.skip(2))));
            }
            out.push('\n');
            i += 2;
        } else {
            proof {
                assert(t@.drop_first() =~= v@.skip(i + 1));
                if t@.len() < 2 {
                    assert(t@ =~= seq![v@[i as int]]);
                    assert(v@.skip(i + 1) =~= Seq::<char>::empty());
                }
                assert(out@.push(v@[i as int]) + replace_crlf(v@.skip(i + 1)) =~= out@ + (seq![t@[0]] + replace_crlf(t@.drop_first())));
            }
            out.push(v[i]);
            i += 1;
        }
    }
    assert(v@.skip(i as int) =~= Seq::<char>::empty());
    assert(out@ + Seq::<char>::empty() =~= out@);
    out
}

/// The non-empty lines of a text, line breaks being `\n` or `\r\n`.
pub fn normalize_newlines(input: &str) -> (r: Vec<String>)
    ensures
        r.deep_view() == text_lines(input@),
{
    let v = chars_of(input);
    let w = replace_crlf_chars(v.as_slice());
    let ranges = split_ranges(w.as_slice(), 0, w.len(), '\n');
    let ghost pieces = split_on(w@, '\n');
    proof {
        assert(w@.subrange(0, w@.len() as int) =~= w@);
    }
    let mut out: Vec<String> = Vec::new();
    let mut i: usize = 0;
    assert(pieces.take(0) =~= Seq::<Seq<char>>::empty());
    while i < ranges.len()
        invariant
            i <= ranges@.len(),
            ranges@.len() == pieces.len(),
            pieces == split_on(w@, '\n'),
            forall|k: int|
                0 <= k < ranges@.len() ==> (#[trigger] ranges@[k]).0 <= ranges@[k].1 <= w@.len() && w@.subrange(
                    ranges@[k].0 as int,
                    ranges@[k].1 as int,
                ) == pieces[k],
            out.deep_view() == nonempty_pieces(pieces.take(i as int)),
        decreases ranges@.len() - i,
    {
        proof {
            assert(pieces.take(i + 1).drop_last() =~= pieces.take(i as int));
            assert(pieces.take(i + 1).last() == pieces[i as int]);
        }
        let (a, b) = ranges[i];
        if a < b {
            let line = string_of_range(w.as_slice(), a, b);
            let ghost before = out.deep_view();
            out.push(line);
            assert(out.deep_view() =~= before.push(pieces[i as int]));
        }
        i += 1;
    }
    assert(pieces.take(i as int) =~= pieces);
    out
}

/// The pieces of `v[lo..hi]` between line feeds, as index ranges.
fn split_byte_ranges(v: &[u8]) -> (r: Vec<(usize, usize)>)
    ensures
        r@.len() == split_on(v@, 10u8).len(),
        forall|k: int|
            0 <= k < r@.len() ==> (#[trigger] r@[k]).0 <= r@[k].1 <= v@.len() && v@.subrange(
                r@[k].0 as int,
                r@[k].1 as int,
            ) == split_on(v@, 10u8)[k],
{
    let mut r: Vec<(usize, usize)> = Vec::new();
    let mut start: usize = 0;
    let mut i: usize = 0;
    while i < v.len()
        invariant
            start <= i <= v@.len(),
            r@.len() + 1 == split_on(v@.take(i as int), 10u8).len(),
            forall|k: int|
                0 <= k < r@.len() ==> (#[trigger] r@[k]).0 <= r@[k].1 <= i && v@.subrange(
                    r@[k].0 as int,
                    r@[k].1 as int,
                ) == split_on(v@.take(i as int), 10u8)[k],
            v@.subrange(start as int, i as int) == split_on(v@.take(i as int), 10u8).last(),
        decreases v@.len() - i,
    {
        proof {
            lemma_split_on_nonempty(v@.take(i as int), 10u8);
            assert(v@.take(i + 1).drop_last() =~= v@.take(i as int));
            assert(v@.take(i + 1).last() == v@[i as int]);
        }
        if v[i] == 10u8 {
            r.push((start, i));
            i += 1;
            start = i;
            assert(v@.subrange(start as int, i as int) =~= Seq::<u8>::empty());
        } else {
            i += 1;
            assert(v@.subrange(start as int, i as int) =~= v@.subrange(start as int, i - 1).push(v@[i - 1]));
        }
    }
    proof {
        lemma_split_on_nonempty(v@.take(i as int), 10u8);
        assert(v@.take(i as int) =~= v@);
    }
    r.push((start, i));
    r
}

/// The lines of a byte text: the non-empty pieces between line feeds, each
/// without one trailing carriage return.
pub fn normalize_newline_bytes(input: &[u8]) -> (r: Vec<Vec<u8>>)
    ensures
        r.deep_view() == byte_lines(input@),
{
    let ranges = split_byte_ranges(input);
    let ghost pieces = split_on(input@, 10u8);
    let mut out: Vec<Vec<u8>> = Vec::new();
    let mut i: usize = 0;
    assert(pieces.take(0) =~= Seq::<Seq<u8>>::empty());
    while i < ranges.len()
        invariant
            i <= ranges@.len(),
            ranges@.len() == pieces.len(),
            pieces == split_on(input@, 10u8),
            forall|k: int|
                0 <= k < ranges@.len() ==> (#[trigger] ranges@[k]).0 <= ranges@[k].1 <= input@.len()
                    && input@.subrange(ranges@[k].0 as int, ranges@[k].1 as int) == pieces[k],
            out.deep_view() == nonempty_pieces(pieces.take(i as int)).map_values(|l: Seq<u8>| strip_cr(l)),
        decreases ranges@.len() - i,
    {
        proof {
            assert(pieces.take(i + 1).drop_last() =~= pieces.take(i as int));
            assert(pieces.take(i + 1).last() == pieces[i as int]);
        }
        let (a, b) = ranges[i];
        if a < b {
            let end = if input[b - 1] == 13u8 { b - 1 } else { b };
            let line = crate::imports::slice_range(input, a, end);
            let ghost before = out.deep_view();
            out.push(line);
            proof {
                let ne = nonempty_pieces(pieces.take(i as int));
                assert(nonempty_pieces(pieces.take(i + 1)) == ne.push(pieces[i as int]));
                assert(pieces[i as int].last() == input@[b - 1]);
                if input[b - 1] == 13u8 {
                    assert(line@ =~= pieces[i as int].drop_last());
                } else {
                    assert(line@ =~= pieces[i as int]);
                }
                assert(line@ == strip_cr(pieces[i as int]));
                assert(line.deep_view() =~= line@);
                assert(out.deep_view() =~= before.push(line.deep_view()));
                assert(out.deep_view() =~= ne.push(pieces[i as int]).map_values(|l: Seq<u8>| strip_cr(l)));
            }
        }
        i += 1;
    }
    assert(pieces.take(i as int) =~= pieces);
    out
}

/// The non-empty lines of a UTF-8 text.
pub fn utf8_lines(content: &str) -> (r: Vec<String>)
    ensures
        r.deep_view() == text_lines(content@),
{
    normalize_newlines(content)
}

/// The lines of the bytes of the text file at `path`, which must be UTF-8.
pub fn utf8_line_bytes(path: &str, bytes: &[u8]) -> (r: Result<Vec<Vec<u8>>, DataError>)
    ensures
        match r {
            Ok(lines) => valid_utf8(bytes@) && lines.deep_view() == byte_lines(bytes@),
            Err(e) => !valid_utf8(bytes@) && e@ == DataFault::Utf8Text {
                path: path@,
                detail: utf8_error_text(bytes@),
            },
        },
{
    match utf8_text(bytes) {
        Err(detail) => Err(DataError::Utf8Text { path: path.to_owned(), detail }),
        Ok(_) => Ok(normalize_newline_bytes(bytes)),
    }
}

/// The non-empty lines of the bytes of the Shift_JIS text file at `path`.
pub fn shift_jis_lines(path: &str, bytes: &[u8]) -> (r: Result<Vec<String>, DataError>)
    ensures
        match r {
            Ok(lines) => !shift_jis_decoded(bytes@).1 && lines.deep_view() == text_lines(shift_jis_decoded(bytes@).0),
            Err(e) => shift_jis_decoded(bytes@).1 && e@ == DataFault::ShiftJisText { path: path@ },
        },
{
    let (decoded, had_errors) = shift_jis_decode(bytes);
    if had_errors {
        return Err(DataError::ShiftJisText { path: path.to_owned() });
    }
    Ok(normalize_newlines(decoded.as_str()))
}

/// No piece of a split holds the separator.
pub proof fn lemma_split_pieces_lack_separator<A>(s: Seq<A>, sep: A)
    ensures
        forall|k: int| 0 <= k < split_on(s, sep).len() ==> !(#[trigger] split_on(s, sep)[k]).contains(sep),
    decreases s.len(),
{
    lemma_split_on_nonempty(s, sep);
    if s.len() > 0 {
        let rest = split_on(s.drop_last(), sep);
        lemma_split_pieces_lack_separator(s.drop_last(), sep);
        lemma_split_on_nonempty(s.drop_last(), sep);
        if s.last() != sep {
            let last = rest.last().push(s.last());
            assert(!last.contains(sep)) by {
                if last.contains(sep) {
                    let j = choose|j: int| 0 <= j < last.len() && last[j] == sep;
                    assert(rest.last()[j] == sep);
                    assert(rest[rest.len() - 1].contains(sep));
                }
            }
            assert forall|k: int| 0 <= k < split_on(s, sep).len() implies !(#[trigger] split_on(s, sep)[k]).contains(sep) by {
                if k < rest.len() - 1 {
                    assert(split_on(s, sep)[k] == rest[k]);
                }
            }
        } else {
            assert forall|k: int| 0 <= k < split_on(s, sep).len() implies !(#[trigger] split_on(s, sep)[k]).contains(sep) by {
                if k < rest.len() {
                    assert(split_on(s, sep)[k] == rest[k]);
                } else {
                    assert(split_on(s, sep)[k] =~= Seq::<A>::empty());
                }
            }
        }
    }
}

/// The non-empty pieces are non-empty pieces of the input.
pub proof fn lemma_nonempty_pieces<A>(ps: Seq<Seq<A>>)
    ensures
        forall|k: int| 0 <= k < nonempty_pieces(ps).len() ==> (#[trigger] nonempty_pieces(ps)[k]).len() > 0 && ps.contains(
            nonempty_pieces(ps)[k],
        ),
    decreases ps.len(),
{
    if ps.len() > 0 {
        let t = ps.drop_last();
        lemma_nonempty_pieces(t);
        let r = nonempty_pieces(t);
        assert forall|k: int| 0 <= k < nonempty_pieces(ps).len() implies (#[trigger] nonempty_pieces(ps)[k]).len() > 0 && ps.contains(
            nonempty_pieces(ps)[k],
        ) by {
            if k < r.len() {
                assert(nonempty_pieces(ps)[k] == r[k]);
                assert(t.contains(r[k]));
                let j = choose|j: int| 0 <= j < t.len() && t[j] == r[k];
                assert(ps[j] == r[k]);
            } else {
                assert(ps[ps.len() - 1] == ps.last());
            }
        }
    }
}

/// The lines of a text are never empty and hold no line feed.
pub proof fn lemma_text_lines(s: Seq<char>)
    ensures
        forall|k: int| 0 <= k < text_lines(s).len() ==> (#[trigger] text_lines(s)[k]).len() > 0 && !text_lines(s)[k].contains('\n'),
{
    let ps = split_on(replace_crlf(s), '\n');
    lemma_split_pieces_lack_separator(replace_crlf(s), '\n');
    lemma_nonempty_pieces(ps);
    assert forall|k: int| 0 <= k < text_lines(s).len() implies (#[trigger] text_lines(s)[k]).len() > 0 && !text_lines(s)[k].contains('\n') by {
        let j = choose|j: int| 0 <= j < ps.len() && ps[j] == text_lines(s)[k];
    }
}

/// The lines of a byte text hold no line feed.
pub proof fn lemma_byte_lines(s: Seq<u8>)
    ensures
        forall|k: int| 0 <= k < byte_lines(s).len() ==> !(#[trigger] byte_lines(s)[k]).contains(10u8),
{
    let ps = split_on(s, 10u8);
    lemma_split_pieces_lack_separator(s, 10u8);
    lemma_nonempty_pieces(ps);
    let ne = nonempty_pieces(ps);
    assert forall|k: int| 0 <= k < byte_lines(s).len() implies !(#[trigger] byte_lines(s)[k]).contains(10u8) by {
        let j = choose|j: int| 0 <= j < ps.len() && ps[j] == ne[k];
        let l = byte_lines(s)[k];
        assert(l == strip_cr(ne[k]));
        if l.contains(10u8) {
            let i = choose|i: int| 0 <= i < l.len() && l[i] == 10u8;
            assert(ne[k][i] == 10u8);
            assert(ps[j].contains(10u8));
        }
    }
}

} // verus!
