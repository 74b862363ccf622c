//! The rows that each import writes, and the checks they must pass first.
//!
//! Every function here turns input data into the rows of one table, or says
//! which rule the data breaks; writing the rows is left to the caller.

use vstd::prelude::*;
use crate::error::{DataError, DataFault};
use crate::json::{json_get, member_get, member_value, JsonValue};
use crate::text::{
    append_range, chars_of, contains_chars, contains_seq, decimal, push_char, string_of_range,
    trim, trim_bounds, usize_to_decimal, utf8_error_text, utf8_text,
};
use vstd::utf8::{decode_utf8, valid_utf8};

verus! {

/// The text under which a scalar JSON value is stored; `None` for arrays and
/// objects.
pub open spec fn scalar_text(v: JsonValue) -> Option<Seq<char>> {
    match v {
        JsonValue::String(s) => Some(s@),
        JsonValue::Number(t) => Some(t@),
        JsonValue::Bool(b) => Some(if b { "true"@ } else { "false"@ }),
        JsonValue::Null => Some(Seq::<char>::empty()),
        _ => None,
    }
}

/// The stored text of a field's value, or why it cannot be stored.
pub open spec fn value_text(v: JsonValue, field: Seq<char>) -> Result<Seq<char>, DataFault> {
    match scalar_text(v) {
        Some(t) => Ok(t),
        None => Err(DataFault::NotScalar { field }),
    }
}

/// The stored texts of `fields`, in order, from an object's members; the
/// first field that is missing or not scalar gives the error.
pub open spec fn field_texts(members: Seq<(String, JsonValue)>, fields: Seq<Seq<char>>) -> Result<
    Seq<Seq<char>>,
    DataFault,
>
    decreases fields.len(),
{
    if fields.len() == 0 {
        Ok(Seq::empty())
    } else {
        match member_value(members, fields[0]) {
            None => Err(DataFault::MissingField { field: fields[0] }),
            Some(v) => match value_text(v, fields[0]) {
                Err(e) => Err(e),
                Ok(t) => match field_texts(members, fields.drop_first()) {
                    Ok(rest) => Ok(seq![t] + rest),
                    Err(e) => Err(e),
                },
            },
        }
    }
}

/// The row of one object: the prefix, if any, then the fields' texts.
pub open spec fn object_row(
    members: Seq<(String, JsonValue)>,
    fields: Seq<Seq<char>>,
    prefix: Option<Seq<char>>,
) -> Result<Seq<Seq<char>>, DataFault> {
    match field_texts(members, fields) {
        Ok(t) => Ok(
            match prefix {
                Some(p) => seq![p] + t,
                None => t,
            },
        ),
        Err(e) => Err(e),
    }
}

/// Whether a JSON value is an object.
pub open spec fn is_object(v: JsonValue) -> bool {
    v is Object
}

/// The members of an object (empty for any other value).
pub open spec fn members_of(v: JsonValue) -> Seq<(String, JsonValue)> {
    match v {
        JsonValue::Object(m) => m@,
        _ => Seq::empty(),
    }
}

/// The objects of the array member `key`: none when the member is absent;
/// an error when it is no array or holds anything but objects.
pub open spec fn array_objects_of(doc: JsonValue, key: Seq<char>) -> Result<
    Seq<Seq<(String, JsonValue)>>,
    DataFault,
> {
    match json_get(doc, key) {
        None => Ok(Seq::empty()),
        Some(JsonValue::Array(items)) => if forall|i: int|
            0 <= i < items@.len() ==> is_object(#[trigger] items@[i]) {
            Ok(Seq::new(items@.len(), |i: int| members_of(items@[i])))
        } else {
            Err(DataFault::NotObjects { key })
        },
        Some(_) => Err(DataFault::NotAnArray { key }),
    }
}

/// The rows of a list of objects; the first object that fails gives the error.
pub open spec fn objects_rows(
    objects: Seq<Seq<(String, JsonValue)>>,
    fields: Seq<Seq<char>>,
    prefix: Option<Seq<char>>,
) -> Result<Seq<Seq<Seq<char>>>, DataFault>
    decreases objects.len(),
{
    if objects.len() == 0 {
        Ok(Seq::empty())
    } else {
        match object_row(objects[0], fields, prefix) {
            Err(e) => Err(e),
            Ok(row) => match objects_rows(objects.drop_first(), fields, prefix) {
                Ok(rest) => Ok(seq![row] + rest),
                Err(e) => Err(e),
            },
        }
    }
}

/// The rows of the array member `key` of a document, one per object.
pub open spec fn array_rows_of(
    doc: JsonValue,
    key: Seq<char>,
    fields: Seq<Seq<char>>,
    prefix: Option<Seq<char>>,
) -> Result<Seq<Seq<Seq<char>>>, DataFault> {
    match array_objects_of(doc, key) {
        Ok(objects) => objects_rows(objects, fields, prefix),
        Err(e) => Err(e),
    }
}

/// Whether an exec result matches a spec result, by views.
pub open spec fn result_matches<T: DeepView>(r: Result<T, DataError>, s: Result<T::V, DataFault>) -> bool {
    match r {
        Ok(v) => s == Ok::<T::V, DataFault>(v.deep_view()),
        Err(e) => s == Err::<T::V, DataFault>(e@),
    }
}

/// The stored text of a scalar JSON value.
pub fn value_to_string(value: &JsonValue, field: &str) -> (r: Result<String, DataError>)
    ensures
        result_matches(r, value_text(*value, field@)),
{
    match value {
        JsonValue::String(text) => Ok(text.clone()),
        JsonValue::Number(number) => Ok(number.clone()),
        JsonValue::Bool(flag) => {
            if *flag {
                Ok(String::from_str("true"))
            } else {
                Ok(String::from_str("false"))
            }
        },
        JsonValue::Null => Ok(String::new()),
        _ => Err(DataError::NotScalar { field: field.to_owned() }),
    }
}

/// The row of one object: the prefix, if any, then the texts of `fields`.
pub fn row_from_object(members: &Vec<(String, JsonValue)>, fields: &[&str], prefix: Option<&str>) -> (r:
    Result<Vec<String>, DataError>)
    ensures
        result_matches(r, object_row(members@, fields.deep_view(), prefix.deep_view())),
{
    let mut row: Vec<String> = Vec::new();
    if let Some(p) = prefix {
        row.push(p.to_owned());
    }
    let ghost head = row.deep_view();
    let ghost fs = fields.deep_view();
    let mut i: usize = 0;
    assert(fs.skip(0) =~= fs);
    assert(head + Seq::<Seq<char>>::empty() =~= head);
    while i < fields.len()
        invariant
            i <= fields@.len(),
            fs == fields.deep_view(),
            head == match prefix {
                Some(p) => seq![p@],
                None => Seq::<Seq<char>>::empty(),
            },
            field_texts(members@, fs) matches Ok(all) ==> field_texts(members@, fs.skip(i as int))
                matches Ok(rest) && all == row.deep_view().subrange(head.len() as int, row@.len() as int) + rest,
            row.deep_view().subrange(0, head.len() as int) == head,
            row@.len() >= head.len(),
            field_texts(members@, fs) is Err ==> field_texts(members@, fs.skip(i as int))
                == field_texts(members@, fs),
            field_texts(members@, fs) is Ok ==> field_texts(members@, fs.skip(i as int)) is Ok,
        decreases fields@.len() - i,
    {
        let field = fields[i];
        let ghost tail = fs.skip(i as int);
        proof {
            assert(tail[0] == field@);
            assert(tail.drop_first() =~= fs.skip(i + 1));
        }
        match member_get(members, field) {
            None => {
                return Err(DataError::MissingField { field: field.to_owned() });
            },
            Some(value) => {
                match value_to_string(value, field) {
                    Err(e) => {
                        return Err(e);
                    },
                    Ok(text) => {
                        let ghost before = row.deep_view();
                        row.push(text);
                        proof {
                            assert(row.deep_view() =~= before.push(text@));
                            assert(row.deep_view().subrange(0, head.len() as int) =~= before.subrange(0, head.len() as int));
                            assert(row.deep_view().subrange(head.len() as int, row@.len() as int) =~= before.subrange(head.len() as int, before.len() as int).push(text@));
                        }
                    },
                }
            },
        }
        i += 1;
    }
    proof {
        assert(fs.skip(i as int) =~= Seq::<Seq<char>>::empty());
        assert(row.deep_view() =~= row.deep_view().subrange(0, head.len() as int) + row.deep_view().subrange(head.len() as int, row@.len() as int));
    }
    Ok(row)
}

/// The objects of the array member `key`.
pub fn array_objects<'a>(document: &'a JsonValue, key: &str) -> (r: Result<
    Vec<&'a Vec<(String, JsonValue)>>,
    DataError,
>)
    ensures
        match r {
            Ok(v) => array_objects_of(*document, key@) == Ok::<_, DataFault>(
                Seq::new(v@.len(), |i: int| v@[i]@),
            ),
            Err(e) => array_objects_of(*document, key@) == Err::<Seq<Seq<(String, JsonValue)>>, _>(
                e@,
            ),
        },
{
    match document.get(key) {
        None => {
            let out: Vec<&'a Vec<(String, JsonValue)>> = Vec::new();
            assert(Seq::new(out@.len(), |i: int| out@[i]@) =~= Seq::<Seq<(String, JsonValue)>>::empty());
            Ok(out)
        },
        Some(JsonValue::Array(items)) => {
            let mut out: Vec<&'a Vec<(String, JsonValue)>> = Vec::new();
            let mut i: usize = 0;
            let ghost found = json_get(*document, key@);
            assert(found == Some(JsonValue::Array(*items)));
            while i < items.len()
                invariant
                    found == json_get(*document, key@),
                    found == Some(JsonValue::Array(*items)),
                    i <= items@.len(),
                    out@.len() == i,
                    forall|j: int| 0 <= j < i ==> is_object(#[trigger] items@[j]) && out@[j]@ == members_of(items@[j]),
                decreases items@.len() - i,
            {
                match &items[i] {
                    JsonValue::Object(members) => {
                        out.push(members);
                    },
                    _ => {
                        assert(!is_object(items@[i as int]));
                        return Err(DataError::NotObjects { key: key.to_owned() });
                    },
                }
                i += 1;
            }
            assert(Seq::new(out@.len(), |j: int| out@[j]@) =~= Seq::new(items@.len(), |j: int| members_of(items@[j])));
            Ok(out)
        },
        Some(_) => Err(DataError::NotAnArray { key: key.to_owned() }),
    }
}

/// The rows of the array member `key`, one per object.
pub fn array_rows(document: &JsonValue, key: &str, fields: &[&str], prefix: Option<&str>) -> (r: Result<
    Vec<Vec<String>>,
    DataError,
>)
    ensures
        result_matches(r, array_rows_of(*document, key@, fields.deep_view(), prefix.deep_view())),
{
    let objects = array_objects(document, key)?;
    let ghost objs = Seq::new(objects@.len(), |i: int| objects@[i]@);
    let mut rows: Vec<Vec<String>> = Vec::new();
    let mut i: usize = 0;
    assert(objs.skip(0) =~= objs);
    assert(array_objects_of(*document, key@) == Ok::<_, DataFault>(objs));
    while i < objects.len()
        invariant
            i <= objects@.len(),
            objs == Seq::new(objects@.len(), |i: int| objects@[i]@),
            array_rows_of(*document, key@, fields.deep_view(), prefix.deep_view()) == objects_rows(
                objs,
                fields.deep_view(),
                prefix.deep_view(),
            ),
            objects_rows(objs, fields.deep_view(), prefix.deep_view()) matches Ok(all) ==> objects_rows(
                objs.skip(i as int),
                fields.deep_view(),
                prefix.deep_view(),
            ) matches Ok(rest) && all == rows.deep_view() + rest,
            objects_rows(objs, fields.deep_view(), prefix.deep_view()) is Err ==> objects_rows(
                objs.skip(i as int),
                fields.deep_view(),
                prefix.deep_view(),
            ) == objects_rows(objs, fields.deep_view(), prefix.deep_view()),
            objects_rows(objs, fields.deep_view(), prefix.deep_view()) is Ok ==> objects_rows(
                objs.skip(i as int),
                fields.deep_view(),
                prefix.deep_view(),
            ) is Ok,
        decreases objects@.len() - i,
    {
        proof {
            assert(objs.skip(i as int)[0] == objects@[i as int]@);
            assert(objs.skip(i as int).drop_first() =~= objs.skip(i + 1));
        }
        let row = match row_from_object(objects[i], fields, prefix) {
            Ok(row) => row,
            Err(e) => {
                proof {
                    let sk = objs.skip(i as int);
                    assert(object_row(sk[0], fields.deep_view(), prefix.deep_view()) == Err::<Seq<Seq<char>>, DataFault>(e@));
                    assert(objects_rows(sk, fields.deep_view(), prefix.deep_view()) == Err::<Seq<Seq<Seq<char>>>, DataFault>(e@));
                }
                return Err(e);
            },
        };
        let ghost before = rows.deep_view();
        rows.push(row);
        proof {
            assert(rows.deep_view() =~= before.push(row.deep_view()));
            if let Ok(all) = objects_rows(objs, fields.deep_view(), prefix.deep_view()) {
                let rest = objects_rows(objs.skip(i + 1), fields.deep_view(), prefix.deep_view())->Ok_0;
                assert(before + (seq![row.deep_view()] + rest) =~= before.push(row.deep_view()) + rest);
            }
        }
        i += 1;
    }
    proof {
        assert(objs.skip(i as int) =~= Seq::<Seq<(String, JsonValue)>>::empty());
        if let Ok(all) = objects_rows(objs, fields.deep_view(), prefix.deep_view()) {
            assert(all =~= rows.deep_view());
        }
    }
    Ok(rows)
}

/// The first row of the array member `key`, which must exist.
pub fn required_single_row(document: &JsonValue, key: &str, fields: &[&str], prefix: Option<&str>) -> (r:
    Result<Vec<String>, DataError>)
    ensures
        result_matches(
            r,
            match array_rows_of(*document, key@, fields.deep_view(), prefix.deep_view()) {
                Ok(rows) => if rows.len() > 0 {
                    Ok(rows[0])
                } else {
                    Err(DataFault::RecordMissing { key: key@ })
                },
                Err(e) => Err(e),
            },
        ),
{
    let mut rows = array_rows(document, key, fields, prefix)?;
    if rows.len() > 0 {
        Ok(rows.remove(0))
    } else {
        Err(DataError::RecordMissing { key: key.to_owned() })
    }
}

/// The first row of the array member `key`, if there is one.
pub fn optional_single_row(document: &JsonValue, key: &str, fields: &[&str], prefix: Option<&str>) -> (r:
    Result<Option<Vec<String>>, DataError>)
    ensures
        result_matches(
            r,
            match array_rows_of(*document, key@, fields.deep_view(), prefix.deep_view()) {
                Ok(rows) => Ok(
                    if rows.len() > 0 {
                        Some(rows[0])
                    } else {
                        None
                    },
                ),
                Err(e) => Err(e),
            },
        ),
{
    let mut rows = array_rows(document, key, fields, prefix)?;
    if rows.len() > 0 {
        Ok(Some(rows.remove(0)))
    } else {
        Ok(None)
    }
}

/// The sum of the widths.
pub open spec fn width_sum(w: Seq<usize>) -> nat
    decreases w.len(),
{
    if w.len() == 0 {
        0
    } else {
        width_sum(w.drop_last()) + (w.last() as nat)
    }
}

/// A prefix of the widths never sums to more than all of them.
pub proof fn lemma_width_sum_take(w: Seq<usize>, k: int)
    requires
        0 <= k <= w.len(),
    ensures
        width_sum(w.take(k)) <= width_sum(w),
        k < w.len() ==> width_sum(w.take(k + 1)) == width_sum(w.take(k)) + w[k],
    decreases w.len() - k,
{
    if k < w.len() {
        assert(w.take(k + 1).drop_last() =~= w.take(k));
        lemma_width_sum_take(w, k + 1);
    } else {
        assert(w.take(k) =~= w);
    }
}

/// The texts of the consecutive segments of `line` with the given widths,
/// starting at byte `start`; the first segment that is not UTF-8 gives the error.
pub open spec fn segments_from(line: Seq<u8>, widths: Seq<usize>, start: nat) -> Result<
    Seq<Seq<char>>,
    DataFault,
>
    decreases widths.len(),
{
    if widths.len() == 0 {
        Ok(Seq::empty())
    } else {
        let end = (start + widths[0]) as nat;
        let seg = line.subrange(start as int, end as int);
        if valid_utf8(seg) {
            match segments_from(line, widths.drop_first(), end) {
                Ok(rest) => Ok(seq![decode_utf8(seg)] + rest),
                Err(e) => Err(e),
            }
        } else {
            Err(DataFault::SegmentNotUtf8 { start, end, detail: utf8_error_text(seg) })
        }
    }
}

/// Successfully cut segments are as many as the widths.
pub proof fn lemma_segments_len(line: Seq<u8>, widths: Seq<usize>, start: nat)
    ensures
        segments_from(line, widths, start) matches Ok(r) ==> r.len() == widths.len(),
    decreases widths.len(),
{
    if widths.len() > 0 {
        lemma_segments_len(line, widths.drop_first(), (start + widths[0]) as nat);
    }
}

/// The fields of a fixed-width line, or why it cannot be cut.
pub open spec fn fixed_fields(line: Seq<u8>, widths: Seq<usize>) -> Result<Seq<Seq<char>>, DataFault> {
    if line.len() < width_sum(widths) {
        Err(DataFault::LineTooShort { expected: width_sum(widths), got: line.len() })
    } else {
        segments_from(line, widths, 0)
    }
}

/// Cuts a fixed-width line into fields of the given byte widths.
pub fn split_fixed(line: &[u8], widths: &[usize]) -> (r: Result<Vec<String>, DataError>)
    requires
        width_sum(widths@) <= usize::MAX,
    ensures
        result_matches(r, fixed_fields(line@, widths@)),
{
    let mut expected: usize = 0;
    let mut k: usize = 0;
    assert(widths@.take(0) =~= Seq::<usize>::empty());
    while k < widths.len()
        invariant
            k <= widths@.len(),
            expected == width_sum(widths@.take(k as int)),
            width_sum(widths@) <= usize::MAX,
        decreases widths@.len() - k,
    {
        proof {
            lemma_width_sum_take(widths@, k as int);
            lemma_width_sum_take(widths@, k + 1);
        }
        expected = expected + widths[k];
        k += 1;
    }
    assert(widths@.take(k as int) =~= widths@);
    if line.len() < expected {
        return Err(DataError::LineTooShort { expected, got: line.len() });
    }
    let mut result: Vec<String> = Vec::new();
    let mut start: usize = 0;
    let mut i: usize = 0;
    assert(widths@.skip(0) =~= widths@);
    while i < widths.len()
        invariant
            i <= widths@.len(),
            start == width_sum(widths@.take(i as int)),
            width_sum(widths@) <= line@.len(),
            width_sum(widths@) <= usize::MAX,
            segments_from(line@, widths@, 0) matches Ok(all) ==> segments_from(line@, widths@.skip(i as int), start as nat)
                matches Ok(rest) && all == result.deep_view() + rest,
            segments_from(line@, widths@, 0) is Err ==> segments_from(line@, widths@.skip(i as int), start as nat)
                == segments_from(line@, widths@, 0),
            segments_from(line@, widths@, 0) is Ok ==> segments_from(line@, widths@.skip(i as int), start as nat) is Ok,
        decreases widths@.len() - i,
    {
        proof {
            lemma_width_sum_take(widths@, i as int);
            lemma_width_sum_take(widths@, i + 1);
            assert(widths@.skip(i as int)[0] == widths@[i as int]);
            assert(widths@.skip(i as int).drop_first() =~= widths@.skip(i + 1));
        }
        let end = start + widths[i];
        let ghost seg = line@.subrange(start as int, end as int);
        let piece = slice_range(line, start, end);
        match utf8_text(piece.as_slice()) {
            Err(detail) => {
                return Err(DataError::SegmentNotUtf8 { start, end, detail });
            },
            Ok(text) => {
                let ghost before = result.deep_view();
                result.push(text);
                proof {
                    assert(result.deep_view() =~= before.push(text@));
                    if let Ok(all) = segments_from(line@, widths@, 0) {
                        let rest = segments_from(line@, widths@.skip(i + 1), end as nat)->Ok_0;
                        assert(before + (seq![decode_utf8(seg)] + rest) =~= before.push(text@) + rest);
                    }
                }
            },
        }
        start = end;
        i += 1;
    }
    proof {
        assert(widths@.skip(i as int) =~= Seq::<usize>::empty());
        if let Ok(all) = segments_from(line@, widths@, 0) {
            assert(all =~= result.deep_view());
        }
    }
    Ok(result)
}

/// The bytes `v[lo..hi]` as a vector.
pub fn slice_range(v: &[u8], lo: usize, hi: usize) -> (r: Vec<u8>)
    requires
        lo <= hi <= v@.len(),
    ensures
        r@ == v@.subrange(lo as int, hi as int),
{
    let mut r: Vec<u8> = Vec::new();
    let mut i = lo;
    while i < hi
        invariant
            lo <= i <= hi <= v@.len(),
            r@ == v@.subrange(lo as int, i as int),
        decreases hi - i,
    {
        r.push(v[i]);
        i += 1;
    }
    r
}

/// The byte widths of the fields of a sample text record line.
pub open spec fn sample_widths() -> Seq<usize> {
    seq![3usize, 1usize, 1usize, 8usize]
}

/// The byte widths of the fields of a sample text record line: 3, 1, 1, 8.
pub fn sample_data_widths() -> (w: Vec<usize>)
    ensures
        w@ == sample_widths(),
{
    let mut w = Vec::new();
    w.push(3);
    w.push(1);
    w.push(1);
    w.push(8);
    assert(w@ =~= sample_widths());
    w
}

/// Whether a text line is a sample record: it begins with `CBB`.
pub open spec fn is_record_line(line: Seq<u8>) -> bool {
    line.len() >= 3 && line[0] == 0x43u8 && line[1] == 0x42u8 && line[2] == 0x42u8
}

/// The rows of the record lines of a text, in order: the prefix, if any,
/// then the fields of the line after its first one; the first record line
/// that cannot be cut gives the error.
pub open spec fn text_rows_of(lines: Seq<Seq<u8>>, prefix: Option<Seq<char>>) -> Result<
    Seq<Seq<Seq<char>>>,
    DataFault,
>
    decreases lines.len(),
{
    if lines.len() == 0 {
        Ok(Seq::empty())
    } else if is_record_line(lines[0]) {
        match fixed_fields(lines[0], sample_widths()) {
            Err(e) => Err(e),
            Ok(fields) => {
                let row = match prefix {
                    Some(p) => seq![p] + fields.drop_first(),
                    None => fields.drop_first(),
                };
                match text_rows_of(lines.drop_first(), prefix) {
                    Ok(rest) => Ok(seq![row] + rest),
                    Err(e) => Err(e),
                }
            },
        }
    } else {
        text_rows_of(lines.drop_first(), prefix)
    }
}

/// The rows that the record lines of a text give.
fn text_rows(prefix: Option<&str>, lines: &[Vec<u8>]) -> (r: Result<Vec<Vec<String>>, DataError>)
    ensures
        result_matches(r, text_rows_of(lines.deep_view(), prefix.deep_view())),
{
    let widths = sample_data_widths();
    let ghost ls = lines.deep_view();
    let mut rows: Vec<Vec<String>> = Vec::new();
    let mut i: usize = 0;
    assert(ls.skip(0) =~= ls);
    assert(width_sum(sample_widths()) == 13) by {
        reveal_with_fuel(width_sum, 5);
    }
    while i < lines.len()
        invariant
            i <= lines@.len(),
            ls == lines.deep_view(),
            widths@ == sample_widths(),
            width_sum(sample_widths()) == 13,
            text_rows_of(ls, prefix.deep_view()) matches Ok(all) ==> text_rows_of(ls.skip(i as int), prefix.deep_view())
                matches Ok(rest) && all == rows.deep_view() + rest,
            text_rows_of(ls, prefix.deep_view()) is Err ==> text_rows_of(ls.skip(i as int), prefix.deep_view())
                == text_rows_of(ls, prefix.deep_view()),
            text_rows_of(ls, prefix.deep_view()) is Ok ==> text_rows_of(ls.skip(i as int), prefix.deep_view()) is Ok,
        decreases lines@.len() - i,
    {
        proof {
            assert(ls.skip(i as int)[0] == lines@[i as int]@);
            assert(ls.skip(i as int).drop_first() =~= ls.skip(i + 1));
        }
        let line = &lines[i];
        if line.len() >= 3 && line[0] == 0x43u8 && line[1] == 0x42u8 && line[2] == 0x42u8 {
            let fields = match split_fixed(line.as_slice(), widths.as_slice()) {
                Ok(f) => f,
                Err(e) => {
                    return Err(e);
                },
            };
            proof {
                lemma_segments_len(line@, sample_widths(), 0);
            }
            let mut row: Vec<String> = Vec::new();
            if let Some(p) = prefix {
                row.push(p.to_owned());
            }
            let ghost head = row.deep_view();
            let mut j: usize = 1;
            while j < fields.len()
                invariant
                    1 <= j <= fields@.len(),
                    row.deep_view() == head + fields.deep_view().subrange(1, j as int),
                decreases fields@.len() - j,
            {
                let ghost before = row.deep_view();
                let f = fields[j].clone();
                row.push(f);
                proof {
                    assert(row.deep_view() =~= before.push(f@));
                    assert(fields.deep_view()[j as int] == f@);
                    assert(fields.deep_view().subrange(1, j + 1) =~= fields.deep_view().subrange(1, j as int).push(f@));
                    assert(row.deep_view() =~= head + fields.deep_view().subrange(1, j + 1));
                }
                j += 1;
            }
            let ghost before = rows.deep_view();
            proof {
                assert(fields.deep_view().subrange(1, fields@.len() as int) =~= fields.deep_view().drop_first());
                assert(head + Seq::<Seq<char>>::empty() =~= head);
                if prefix is None {
                    assert(head =~= Seq::<Seq<char>>::empty());
                    assert(row.deep_view() =~= fields.deep_view().drop_first());
                }
            }
            proof {
                let sk = ls.skip(i as int);
                assert(is_record_line(sk[0]));
                assert(fixed_fields(sk[0], sample_widths()) == Ok::<_, DataFault>(fields.deep_view()));
                let expected_row = match prefix.deep_view() {
                    Some(p) => seq![p] + fields.deep_view().drop_first(),
                    None => fields.deep_view().drop_first(),
                };
                assert(row.deep_view() =~= expected_row);
                if let Ok(rest) = text_rows_of(sk.drop_first(), prefix.deep_view()) {
                    assert(text_rows_of(sk, prefix.deep_view()) == Ok::<_, DataFault>(seq![expected_row] + rest));
                }
            }
            rows.push(row);
            proof {
                assert(rows.deep_view() =~= before.push(row.deep_view()));
                if let Ok(all) = text_rows_of(ls, prefix.deep_view()) {
                    let rest = text_rows_of(ls.skip(i + 1), prefix.deep_view())->Ok_0;
                    assert(before + (seq![row.deep_view()] + rest) =~= before.push(row.deep_view()) + rest);
                }
            }
        } else {
            proof {
                assert(!is_record_line(ls.skip(i as int)[0]));
            }
        }
        i += 1;
    }
    proof {
        assert(ls.skip(i as int) =~= Seq::<Seq<u8>>::empty());
        if let Ok(all) = text_rows_of(ls, prefix.deep_view()) {
            assert(all =~= rows.deep_view());
        }
    }
    Ok(rows)
}

/// The `SampleText` rows of a text: for each record line, the identifier
/// and the fields after the first.
pub fn sample_text_rows(identify: &str, lines: &[Vec<u8>]) -> (r: Result<Vec<Vec<String>>, DataError>)
    ensures
        result_matches(r, text_rows_of(lines.deep_view(), Some(identify@))),
{
    text_rows(Some(identify), lines)
}

/// The `SampleText2` rows of a text: for each record line, the fields after
/// the first.
pub fn sample_text2_rows(lines: &[Vec<u8>]) -> (r: Result<Vec<Vec<String>>, DataError>)
    ensures
        result_matches(r, text_rows_of(lines.deep_view(), None)),
{
    text_rows(None, lines)
}

/// Whether a CSV row is data: it has a first cell and that cell does not
/// contain the header marker.
pub open spec fn is_data_row(row: Seq<Seq<char>>, marker: Seq<char>) -> bool {
    row.len() > 0 && !contains_seq(row[0], marker)
}

/// The data rows, in order.
pub open spec fn data_rows(rows: Seq<Seq<Seq<char>>>, marker: Seq<char>) -> Seq<Seq<Seq<char>>>
    decreases rows.len(),
{
    if rows.len() == 0 {
        rows
    } else if is_data_row(rows.last(), marker) {
        data_rows(rows.drop_last(), marker).push(rows.last())
    } else {
        data_rows(rows.drop_last(), marker)
    }
}

/// The column count of the first row whose count is not `width`, if any.
pub open spec fn first_bad_width(rows: Seq<Seq<Seq<char>>>, width: nat) -> Option<nat>
    decreases rows.len(),
{
    if rows.len() == 0 {
        None
    } else if rows[0].len() != width {
        Some(rows[0].len())
    } else {
        first_bad_width(rows.drop_first(), width)
    }
}

/// The rows that a CSV import stores: the data rows, each of which must have
/// `width` columns.
pub open spec fn csv_import_of(
    rows: Seq<Seq<Seq<char>>>,
    table: Seq<char>,
    width: nat,
    marker: Seq<char>,
) -> Result<Seq<Seq<Seq<char>>>, DataFault> {
    let kept = data_rows(rows, marker);
    match first_bad_width(kept, width) {
        Some(got) => Err(DataFault::InvalidColumnCount { table, expected: width, got }),
        None => Ok(kept),
    }
}

/// A copy of a row of strings.
pub fn clone_row(row: &Vec<String>) -> (r: Vec<String>)
    ensures
        r.deep_view() == row.deep_view(),
{
    let mut r: Vec<String> = Vec::new();
    let mut i: usize = 0;
    while i < row.len()
        invariant
            i <= row@.len(),
            r.deep_view() == row.deep_view().take(i as int),
        decreases row@.len() - i,
    {
        let ghost before = r.deep_view();
        let c = row[i].clone();
        r.push(c);
        assert(r.deep_view() =~= before.push(c@));
        assert(r.deep_view() =~= row.deep_view().take(i + 1));
        i += 1;
    }
    assert(row.deep_view().take(i as int) =~= row.deep_view());
    r
}

/// The rows that a CSV import stores, without its header rows, after checking
/// their column count; the count of stored rows is the
/// length of the result.
pub fn csv_rows_to_import(rows: &[Vec<String>], table: &str, width: usize, header_marker: &str) -> (r:
    Result<Vec<Vec<String>>, DataError>)
    ensures
        result_matches(r, csv_import_of(rows.deep_view(), table@, width as nat, header_marker@)),
{
    let marker = chars_of(header_marker);
    let ghost rs = rows.deep_view();
    let mut kept: Vec<Vec<String>> = Vec::new();
    let mut i: usize = 0;
    assert(rs.take(0) =~= Seq::<Seq<Seq<char>>>::empty());
    while i < rows.len()
        invariant
            i <= rows@.len(),
            rs == rows.deep_view(),
            marker@ == header_marker@,
            kept.deep_view() == data_rows(rs.take(i as int), header_marker@),
        decreases rows@.len() - i,
    {
        proof {
            assert(rs.take(i + 1).drop_last() =~= rs.take(i as int));
            assert(rs.take(i + 1).last() == rows@[i as int].deep_view());
        }
        let row = &rows[i];
        let keep = if row.len() > 0 {
            let first = chars_of(row[0].as_str());
            !contains_chars(first.as_slice(), marker.as_slice())
        } else {
            false
        };
        if keep {
            let ghost before = kept.deep_view();
            kept.push(clone_row(row));
            assert(kept.deep_view() =~= before.push(row.deep_view()));
        }
        i += 1;
    }
    assert(rs.take(i as int) =~= rs);
    let ghost ks = kept.deep_view();
    let mut j: usize = 0;
    assert(ks.skip(0) =~= ks);
    while j < kept.len()
        invariant
            j <= kept@.len(),
            ks == kept.deep_view(),
            ks == data_rows(rows.deep_view(), header_marker@),
            first_bad_width(ks, width as nat) == first_bad_width(ks.skip(j as int), width as nat),
        decreases kept@.len() - j,
    {
        proof {
            assert(ks.skip(j as int)[0] == ks[j as int]);
            assert(ks.skip(j as int).drop_first() =~= ks.skip(j + 1));
        }
        if kept[j].len() != width {
            proof {
                assert(ks[j as int].len() == kept@[j as int]@.len());
                assert(first_bad_width(ks.skip(j as int), width as nat) == Some(kept@[j as int]@.len()));
            }
            return Err(DataError::InvalidColumnCount { table: table.to_owned(), expected: width, got: kept[j].len() });
        }
        j += 1;
    }
    assert(ks.skip(j as int) =~= Seq::<Seq<Seq<char>>>::empty());
    Ok(kept)
}

/// The rows of the `AllAddress` import: data rows of 15 columns, header rows
/// being those whose first cell contains `code`.
pub fn csv_data_rows(rows: &[Vec<String>]) -> (r: Result<Vec<Vec<String>>, DataError>)
    ensures
        result_matches(r, csv_import_of(rows.deep_view(), "AllAddress"@, 15, "code"@)),
{
    csv_rows_to_import(rows, "AllAddress", 15, "code")
}

/// The one-row `Identify` import.
pub fn identify_rows(identify: &str) -> (r: Vec<Vec<String>>)
    ensures
        r.deep_view() == seq![seq![identify@]],
{
    let mut row: Vec<String> = Vec::new();
    row.push(identify.to_owned());
    let mut rows: Vec<Vec<String>> = Vec::new();
    assert(row.deep_view() =~= seq![identify@]);
    rows.push(row);
    assert(rows.deep_view() =~= seq![seq![identify@]]);
    rows
}

/// The fields of a `sample_json_data` record, in column order.
pub open spec fn sample_json_fields() -> Seq<Seq<char>> {
    seq!["id"@, "name"@, "type"@, "path"@, "price"@, "category"@]
}

/// The `SampleJsonData` rows of a sample document: for each object of its
/// `sample_json_data` array, the identifier and then its fields.
pub fn sample_json_rows(identify: &str, json_data: &JsonValue) -> (r: Result<Vec<Vec<String>>, DataError>)
    ensures
        result_matches(r, array_rows_of(*json_data, "sample_json_data"@, sample_json_fields(), Some(identify@))),
{
    let mut fields: Vec<&str> = Vec::new();
    fields.push("id");
    fields.push("name");
    fields.push("type");
    fields.push("path");
    fields.push("price");
    fields.push("category");
    let fs = fields.as_slice();
    assert(fs.deep_view() =~= sample_json_fields());
    array_rows(json_data, "sample_json_data", fs, Some(identify))
}

/// `n` question marks separated by commas.
pub open spec fn placeholders(n: nat) -> Seq<char>
    decreases n,
{
    if n == 0 {
        Seq::empty()
    } else if n == 1 {
        seq!['?']
    } else {
        placeholders((n - 1) as nat) + seq![',', '?']
    }
}

/// The placeholders for `n` columns: `n` question marks with one comma
/// between neighbours, so `2n - 1` characters for `n > 0`.
pub proof fn lemma_placeholders(n: nat)
    ensures
        n == 0 ==> placeholders(n).len() == 0,
        n > 0 ==> placeholders(n).len() == 2 * n - 1,
        forall|i: int|
            0 <= i < placeholders(n).len() ==> (#[trigger] placeholders(n)[i]) == (if i % 2 == 0 {
                '?'
            } else {
                ','
            }),
    decreases n,
{
    if n > 1 {
        lemma_placeholders((n - 1) as nat);
        let p = placeholders((n - 1) as nat);
        assert forall|i: int| 0 <= i < placeholders(n).len() implies (#[trigger] placeholders(n)[i]) == (if i % 2
            == 0 {
            '?'
        } else {
            ','
        }) by {
            if i < p.len() {
                assert(placeholders(n)[i] == p[i]);
            } else if i == p.len() {
                assert(i % 2 == 1);
            } else {
                assert(i % 2 == 0);
            }
        }
    }
}

/// The statement that inserts one row of `n` values into `table`.
pub open spec fn insert_sql(table: Seq<char>, n: nat) -> Seq<char> {
    "INSERT INTO "@ + table + " VALUES ("@ + placeholders(n) + ")"@
}

/// The number of leading rows as wide as the first one.
pub open spec fn same_width_prefix(rows: Seq<Seq<Seq<char>>>, width: nat, from: int) -> nat
    decreases rows.len() - from,
{
    if from < 0 || from >= rows.len() || rows[from].len() != width {
        if from < 0 { 0 } else { from as nat }
    } else {
        same_width_prefix(rows, width, from + 1)
    }
}

/// The statement that inserts the rows of a table, `Ok(None)` when there are
/// no rows: every row's width is checked against the first before anything
/// is written, and the first row of another width gives the error.
pub fn insert_statement(table: &str, rows: &[Vec<String>]) -> (r: Result<Option<String>, DataError>)
    ensures
        rows@.len() == 0 ==> r == Ok::<Option<String>, DataError>(None),
        rows@.len() > 0 ==> {
            let rs = rows.deep_view();
            let w = rs[0].len();
            let n = same_width_prefix(rs, w, 0);
            &&& n <= rs.len()
            &&& forall|i: int| 0 <= i < n ==> (#[trigger] rs[i]).len() == w
            &&& (n == rs.len() ==> (r matches Ok(Some(sql)) && sql@ == insert_sql(table@, w)))
            &&& (n < rs.len() ==> (r matches Err(e) && e@ == DataFault::RowWidthMismatch {
                table: table@,
                expected: w,
                got: rs[n as int].len(),
            }))
        },
{
    if rows.len() == 0 {
        return Ok(None);
    }
    let ghost rs = rows.deep_view();
    let width = rows[0].len();
    let mut i: usize = 0;
    while i < rows.len() && rows[i].len() == width
        invariant
            i <= rows@.len(),
            rs == rows.deep_view(),
            width == rs[0].len(),
            forall|j: int| 0 <= j < i ==> (#[trigger] rs[j]).len() == width,
            same_width_prefix(rs, width as nat, 0) == same_width_prefix(rs, width as nat, i as int),
        decreases rows@.len() - i,
    {
        i += 1;
    }
    if i < rows.len() {
        return Err(DataError::RowWidthMismatch { table: table.to_owned(), expected: width, got: rows[i].len() });
    }
    let mut sql = String::from_str("INSERT INTO ");
    sql.append(table);
    sql.append(" VALUES (");
    let mut k: usize = 0;
    let ghost base = sql@;
    while k < width
        invariant
            k <= width,
            sql@ == base + placeholders(k as nat),
        decreases width - k,
    {
        if k > 0 {
            push_char(&mut sql, ',');
        }
        push_char(&mut sql, '?');
        proof {
            if k == 0 {
                assert(placeholders(1) == seq!['?']);
                assert(placeholders(0) =~= Seq::<char>::empty());
            }
        }
        k += 1;
        assert(sql@ =~= base + placeholders(k as nat));
    }
    sql.append(")");
    Ok(Some(sql))
}

/// `s` without its leading byte order marks (`trim_start_matches('\u{feff}')`).
pub open spec fn strip_boms(s: Seq<char>) -> Seq<char>
    decreases s.len(),
{
    if s.len() > 0 && s[0] == '\u{feff}' {
        strip_boms(s.drop_first())
    } else {
        s
    }
}

/// Skipping leading byte order marks does not change what `strip_boms` gives.
proof fn lemma_strip_boms_skip(s: Seq<char>, i: int)
    requires
        0 <= i <= s.len(),
        forall|j: int| 0 <= j < i ==> #[trigger] s[j] == '\u{feff}',
    ensures
        strip_boms(s) == strip_boms(s.skip(i)),
    decreases i,
{
    if i > 0 {
        lemma_strip_boms_skip(s.drop_first(), i - 1);
        assert(s.drop_first().skip(i - 1) =~= s.skip(i));
    } else {
        assert(s.skip(0) =~= s);
    }
}

/// The name a header cell gives before numbering: trimmed, without leading
/// byte order marks.
pub open spec fn base_name(h: Seq<char>) -> Seq<char> {
    strip_boms(trim(h))
}

/// The candidate name of the header in column `i` (from zero): its base
/// name, or `column_{i + 1}` when that is empty.
pub open spec fn candidate_name(h: Seq<char>, i: nat) -> Seq<char> {
    if base_name(h).len() == 0 {
        "column_"@ + decimal(i + 1)
    } else {
        base_name(h)
    }
}

/// The candidate names of all header cells.
pub open spec fn candidate_names(hs: Seq<Seq<char>>) -> Seq<Seq<char>> {
    Seq::new(hs.len(), |i: int| candidate_name(hs[i], i as nat))
}

/// How often `x` occurs in `s`.
pub open spec fn count_of(s: Seq<Seq<char>>, x: Seq<char>) -> nat
    decreases s.len(),
{
    if s.len() == 0 {
        0
    } else {
        count_of(s.drop_last(), x) + if s.last() == x { 1nat } else { 0nat }
    }
}

/// The final name of column `i`: its candidate, followed by `_k` when it is
/// the `k`-th occurrence (`k > 1`) of that candidate so far.
pub open spec fn normalized_name(hs: Seq<Seq<char>>, i: int) -> Seq<char> {
    let c = candidate_names(hs)[i];
    let k = count_of(candidate_names(hs).take(i + 1), c);
    if k == 1 {
        c
    } else {
        c + "_"@ + decimal(k)
    }
}

/// The first column, from `from` on, whose base name holds a NUL.
pub open spec fn first_nul_column(hs: Seq<Seq<char>>, from: int) -> Option<nat>
    decreases hs.len() - from,
{
    if from < 0 || from >= hs.len() {
        None
    } else if contains_seq(base_name(hs[from]), seq!['\0']) {
        Some(from as nat)
    } else {
        first_nul_column(hs, from + 1)
    }
}

/// The normalized header names, or why the header is refused.
pub open spec fn normalized_headers(hs: Seq<Seq<char>>) -> Result<Seq<Seq<char>>, DataFault> {
    if hs.len() == 0 {
        Err(DataFault::EmptyHeader)
    } else {
        match first_nul_column(hs, 0) {
            Some(i) => Err(DataFault::HeaderHasNul { column: i + 1 }),
            None => Ok(Seq::new(hs.len(), |i: int| normalized_name(hs, i))),
        }
    }
}

/// Whether two character vectors are equal.
pub fn chars_equal(a: &[char], b: &[char]) -> (r: bool)
    ensures
        r == (a@ == b@),
{
    if a.len() != b.len() {
        return false;
    }
    let mut i: usize = 0;
    while i < a.len()
        invariant
            i <= a@.len(),
            a@.len() == b@.len(),
            a@.take(i as int) == b@.take(i as int),
        decreases a@.len() - i,
    {
        if a[i] != b[i] {
            return false;
        }
        assert(a@.take(i + 1) =~= a@.take(i as int).push(a@[i as int]));
        assert(b@.take(i + 1) =~= b@.take(i as int).push(b@[i as int]));
        i += 1;
    }
    assert(a@.take(i as int) =~= a@);
    assert(b@.take(i as int) =~= b@);
    true
}

/// The base name of a header cell, as characters.
fn header_base(h: &String) -> (r: Vec<char>)
    ensures
        r@ == base_name(h@),
{
    let v = chars_of(h.as_str());
    let (a0, b) = trim_bounds(v.as_slice(), 0, v.len());
    let mut a = a0;
    while a < b && v[a] == '\u{feff}'
        invariant
            a0 <= a <= b <= v@.len(),
            forall|j: int| a0 <= j < a ==> #[trigger] v@[j] == '\u{feff}',
        decreases b - a,
    {
        a += 1;
    }
    let ghost tr = v@.subrange(a0 as int, b as int);
    proof {
        assert(v@.subrange(0, v@.len() as int) =~= v@);
        assert forall|j: int| 0 <= j < a - a0 implies #[trigger] tr[j] == '\u{feff}' by {
            assert(tr[j] == v@[a0 + j]);
        }
        lemma_strip_boms_skip(tr, a - a0);
        assert(tr.skip(a - a0) =~= v@.subrange(a as int, b as int));
        let t = v@.subrange(a as int, b as int);
        assert(!(t.len() > 0 && t[0] == '\u{feff}'));
    }
    crate::paths::slice_to_vec_range(v.as_slice(), a, b)
}

/// The candidate name of column `i`, given its base name.
fn candidate_chars(base: Vec<char>, i: usize, h: Ghost<Seq<char>>) -> (r: Vec<char>)
    requires
        base@ == base_name(h@),
        i < usize::MAX,
    ensures
        r@ == candidate_name(h@, i as nat),
{
    if base.len() == 0 {
        let mut name = String::from_str("column_");
        let number = usize_to_decimal(i + 1);
        name.append(number.as_str());
        chars_of(name.as_str())
    } else {
        base
    }
}

/// The character sequences of a vector of character vectors.
pub open spec fn chars_views(v: Seq<Vec<char>>) -> Seq<Seq<char>> {
    Seq::new(v.len(), |i: int| v[i]@)
}

/// How often `x` occurs among the vectors.
fn count_equal(cands: &Vec<Vec<char>>, x: &Vec<char>) -> (r: usize)
    ensures
        r == count_of(chars_views(cands@), x@),
        r <= cands@.len(),
{
    let ghost cv = chars_views(cands@);
    let mut count: usize = 0;
    let mut j: usize = 0;
    assert(cv.take(0) =~= Seq::<Seq<char>>::empty());
    while j < cands.len()
        invariant
            j <= cands@.len(),
            cv == chars_views(cands@),
            count == count_of(cv.take(j as int), x@),
            count <= j,
        decreases cands@.len() - j,
    {
        proof {
            assert(cv.take(j + 1).drop_last() =~= cv.take(j as int));
            assert(cv.take(j + 1).last() == cands@[j as int]@);
        }
        if chars_equal(cands[j].as_slice(), x.as_slice()) {
            count += 1;
        }
        j += 1;
    }
    assert(cv.take(j as int) =~= cv);
    count
}

/// A candidate name, followed by `_k` when `k` is not 1.
fn numbered_name(cand: &Vec<char>, k: usize) -> (r: String)
    ensures
        r@ == (if k == 1 { cand@ } else { cand@ + "_"@ + decimal(k as nat) }),
{
    let mut name = String::new();
    append_range(&mut name, cand.as_slice(), 0, cand.len());
    assert(cand@.subrange(0, cand@.len() as int) =~= cand@);
    if k != 1 {
        push_char(&mut name, '_');
        let number = usize_to_decimal(k);
        name.append(number.as_str());
        assert(name@ =~= cand@ + "_"@ + decimal(k as nat)) by {
            reveal_strlit("_");
        }
    }
    name
}

/// The header names of a dynamic CSV, made unique by numbering repeats:
/// each name is trimmed and stripped of leading byte order marks, an empty
/// one becomes `column_{n}`, and the `k`-th repeat of a name (`k > 1`) gets
/// `_k` appended.
pub fn normalize_dynamic_headers(headers: &[String]) -> (r: Result<Vec<String>, DataError>)
    requires
        headers@.len() < usize::MAX,
    ensures
        result_matches(r, normalized_headers(headers.deep_view())),
{
    if headers.len() == 0 {
        return Err(DataError::EmptyHeader);
    }
    let ghost hs = headers.deep_view();
    let ghost cn = candidate_names(hs);
    let mut cands: Vec<Vec<char>> = Vec::new();
    let mut out: Vec<String> = Vec::new();
    let nul: Vec<char> = vec!['\0'];
    let mut i: usize = 0;
    while i < headers.len()
        invariant
            i <= headers@.len() < usize::MAX,
            hs == headers.deep_view(),
            cn == candidate_names(hs),
            nul@ == seq!['\0'],
            chars_views(cands@) == cn.take(i as int),
            out@.len() == i,
            forall|j: int| 0 <= j < i ==> (#[trigger] out@[j])@ == normalized_name(hs, j),
            first_nul_column(hs, 0) == first_nul_column(hs, i as int),
        decreases headers@.len() - i,
    {
        let base = header_base(&headers[i]);
        if contains_chars(base.as_slice(), nul.as_slice()) {
            proof {
                assert(first_nul_column(hs, i as int) == Some(i as nat));
            }
            return Err(DataError::HeaderHasNul { column: i + 1 });
        }
        let cand = candidate_chars(base, i, Ghost(headers@[i as int]@));
        assert(cands@.len() == chars_views(cands@).len());
        let count = count_equal(&cands, &cand) + 1;
        proof {
            assert(cand@ == cn[i as int]);
            assert(cn.take(i + 1).drop_last() =~= cn.take(i as int));
            assert(cn.take(i + 1).last() == cn[i as int]);
        }
        let name = numbered_name(&cand, count);
        out.push(name);
        let ghost before = chars_views(cands@);
        cands.push(cand);
        proof {
            assert(chars_views(cands@) =~= cn.take(i + 1));
            assert(first_nul_column(hs, i as int) == first_nul_column(hs, i + 1));
        }
        i += 1;
    }
    proof {
        assert(first_nul_column(hs, i as int) is None);
        assert(out.deep_view() =~= Seq::new(hs.len(), |k: int| normalized_name(hs, k)));
    }
    Ok(out)
}

/// `s` with every double quote doubled.
pub open spec fn double_quotes(s: Seq<char>) -> Seq<char>
    decreases s.len(),
{
    if s.len() == 0 {
        s
    } else if s.last() == '"' {
        double_quotes(s.drop_last()) + seq!['"', '"']
    } else {
        double_quotes(s.drop_last()).push(s.last())
    }
}

/// An SQL identifier quoted in double quotes, inner quotes doubled.
pub open spec fn quoted(s: Seq<char>) -> Seq<char> {
    seq!['"'] + double_quotes(s) + seq!['"']
}

/// Quotes an SQL identifier.
pub fn quote_identifier(identifier: &str) -> (r: String)
    ensures
        r@ == quoted(identifier@),
{
    let v = chars_of(identifier);
    let mut r = String::new();
    push_char(&mut r, '"');
    let mut i: usize = 0;
    assert(v@.take(0) =~= Seq::<char>::empty());
    while i < v.len()
        invariant
            i <= v@.len(),
            r@ == seq!['"'] + double_quotes(v@.take(i as int)),
        decreases v@.len() - i,
    {
        proof {
            assert(v@.take(i + 1).drop_last() =~= v@.take(i as int));
            assert(v@.take(i + 1).last() == v@[i as int]);
        }
        if v[i] == '"' {
            push_char(&mut r, '"');
            push_char(&mut r, '"');
        } else {
            push_char(&mut r, v[i]);
        }
        assert(r@ =~= seq!['"'] + double_quotes(v@.take(i + 1)));
        i += 1;
    }
    push_char(&mut r, '"');
    assert(v@.take(i as int) =~= v@);
    assert(r@ =~= quoted(identifier@));
    r
}

/// A quoted body with each doubled quote read back as one quote.
pub open spec fn undouble(s: Seq<char>) -> Seq<char>
    decreases s.len(),
{
    if s.len() == 0 {
        s
    } else if s.len() >= 2 && s[0] == '"' && s[1] == '"' {
        seq!['"'] + undouble(s.skip(2))
    } else {
        seq![s[0]] + undouble(s.drop_first())
    }
}

/// The identifier that a quoted identifier stands for, if it is quoted.
pub open spec fn unquoted(q: Seq<char>) -> Option<Seq<char>> {
    if q.len() >= 2 && q[0] == '"' && q.last() == '"' {
        Some(undouble(q.subrange(1, q.len() - 1)))
    } else {
        None
    }
}

/// Doubling quotes works character by character from the front.
proof fn lemma_double_quotes_cons(c: char, s: Seq<char>)
    ensures
        double_quotes(seq![c] + s) == (if c == '"' { seq!['"', '"'] } else { seq![c] }) + double_quotes(s),
    decreases s.len(),
{
    if s.len() == 0 {
        assert(seq![c] + s =~= seq![c]);
        assert(seq![c].drop_last() =~= Seq::<char>::empty());
        assert(seq![c].last() == c);
        assert(double_quotes(Seq::<char>::empty()) =~= Seq::<char>::empty());
        assert(Seq::<char>::empty() + seq!['"', '"'] =~= seq!['"', '"']);
        assert(Seq::<char>::empty().push(c) =~= seq![c]);
        assert(double_quotes(seq![c]) =~= (if c == '"' { seq!['"', '"'] } else { seq![c] }));
    } else {
        lemma_double_quotes_cons(c, s.drop_last());
        assert((seq![c] + s).drop_last() =~= seq![c] + s.drop_last());
        assert((seq![c] + s).last() == s.last());
    }
}

/// Reading a quoted identifier back gives the identifier.
pub proof fn lemma_quote_round_trip(s: Seq<char>)
    ensures
        unquoted(quoted(s)) == Some(s),
{
    lemma_undouble_double(s);
    let q = quoted(s);
    assert(q.subrange(1, q.len() - 1) =~= double_quotes(s));
}

/// Undoubling undoes doubling.
proof fn lemma_undouble_double(s: Seq<char>)
    ensures
        undouble(double_quotes(s)) == s,
    decreases s.len(),
{
    if s.len() == 0 {
    } else {
        let c = s[0];
        let rest = s.drop_first();
        assert(s =~= seq![c] + rest);
        lemma_double_quotes_cons(c, rest);
        lemma_undouble_double(rest);
        let d = double_quotes(s);
        if c == '"' {
            assert(d.skip(2) =~= double_quotes(rest));
        } else {
            assert(d.drop_first() =~= double_quotes(rest));
        }
    }
}

/// When no two header cells have the same candidate name, the normalized
/// names are the candidates themselves.
pub proof fn lemma_distinct_headers_keep_names(hs: Seq<Seq<char>>)
    requires
        forall|i: int, j: int|
            0 <= i < j < hs.len() ==> candidate_names(hs)[i] != candidate_names(hs)[j],
    ensures
        normalized_headers(hs) matches Ok(names) ==> names == candidate_names(hs),
{
    let cn = candidate_names(hs);
    if let Ok(names) = normalized_headers(hs) {
        assert forall|i: int| 0 <= i < hs.len() implies normalized_name(hs, i) == cn[i] by {
            lemma_count_single(cn.take(i + 1), cn[i]);
        }
        assert(names =~= cn);
    }
}

/// A sequence whose last element occurs nowhere else holds it once.
proof fn lemma_count_single(s: Seq<Seq<char>>, x: Seq<char>)
    requires
        s.len() > 0,
        s.last() == x,
        forall|j: int| 0 <= j < s.len() - 1 ==> s[j] != x,
    ensures
        count_of(s, x) == 1,
{
    lemma_count_absent(s.drop_last(), x);
}

/// A sequence without `x` holds it zero times.
proof fn lemma_count_absent(s: Seq<Seq<char>>, x: Seq<char>)
    requires
        forall|j: int| 0 <= j < s.len() ==> s[j] != x,
    ensures
        count_of(s, x) == 0,
    decreases s.len(),
{
    if s.len() > 0 {
        lemma_count_absent(s.drop_last(), x);
    }
}

/// Every stored CSV row is a data row with the expected width.
pub proof fn lemma_csv_import_rows(rows: Seq<Seq<Seq<char>>>, table: Seq<char>, width: nat, marker: Seq<char>)
    ensures
        csv_import_of(rows, table, width, marker) matches Ok(kept) ==> forall|i: int|
            0 <= i < kept.len() ==> (#[trigger] kept[i]).len() == width && is_data_row(kept[i], marker),
{
    let kept = data_rows(rows, marker);
    lemma_data_rows(rows, marker);
    if first_bad_width(kept, width) is None {
        lemma_no_bad_width(kept, width);
    }
}

/// Whether a CSV row is one that an import stores: it has a first cell, and
/// the marker does not occur in that cell.
pub open spec fn stored_row(marker: Seq<char>) -> spec_fn(Seq<Seq<char>>) -> bool {
    |r: Seq<Seq<char>>| r.len() > 0 && !contains_seq(r[0], marker)
}

/// The data rows are all the rows with a first cell that does not contain
/// the marker, every one of them, in their order.
proof fn lemma_data_rows_filter(rows: Seq<Seq<Seq<char>>>, marker: Seq<char>)
    ensures
        data_rows(rows, marker) == rows.filter(stored_row(marker)),
    decreases rows.len(),
{
    reveal_with_fuel(Seq::<_>::filter, 1);
    if rows.len() > 0 {
        lemma_data_rows_filter(rows.drop_last(), marker);
    }
}

/// A first row of another width exists exactly when some row has another width.
proof fn lemma_first_bad_width(rows: Seq<Seq<Seq<char>>>, width: nat)
    ensures
        first_bad_width(rows, width) is None <==> forall|i: int| 0 <= i < rows.len() ==> (#[trigger] rows[i]).len()
            == width,
        first_bad_width(rows, width) matches Some(got) ==> got != width && exists|i: int|
            0 <= i < rows.len() && (#[trigger] rows[i]).len() == got,
    decreases rows.len(),
{
    if rows.len() > 0 {
        lemma_first_bad_width(rows.drop_first(), width);
        assert forall|i: int| 0 < i < rows.len() implies rows[i] == rows.drop_first()[i - 1] by {}
        if let Some(got) = first_bad_width(rows.drop_first(), width) {
            if rows[0].len() == width {
                let i = choose|i: int| 0 <= i < rows.drop_first().len() && (#[trigger] rows.drop_first()[i]).len() == got;
                assert(rows[i + 1].len() == got);
            }
        }
    }
}

/// A CSV import keeps every row whose first cell exists and does not contain
/// the header marker, and only those, in their order; it succeeds exactly
/// when all of them have `width` columns, and otherwise reports the column
/// count of one that does not.
pub proof fn lemma_csv_import_keeps_data_rows(rows: Seq<Seq<Seq<char>>>, table: Seq<char>, width: nat, marker: Seq<char>)
    ensures
        csv_import_of(rows, table, width, marker) is Ok <==> forall|i: int|
            0 <= i < rows.filter(stored_row(marker)).len() ==> (#[trigger] rows.filter(stored_row(marker))[i]).len()
                == width,
        csv_import_of(rows, table, width, marker) matches Ok(kept) ==> kept == rows.filter(stored_row(marker)),
        csv_import_of(rows, table, width, marker) matches Err(e) ==> e matches DataFault::InvalidColumnCount {
            table: t,
            expected,
            got,
        } && t == table && expected == width && got != width && exists|i: int|
            0 <= i < rows.filter(stored_row(marker)).len() && (#[trigger] rows.filter(stored_row(marker))[i]).len()
                == got,
{
    lemma_data_rows_filter(rows, marker);
    lemma_first_bad_width(rows.filter(stored_row(marker)), width);
}

/// Data rows are data rows.
proof fn lemma_data_rows(rows: Seq<Seq<Seq<char>>>, marker: Seq<char>)
    ensures
        forall|i: int| 0 <= i < data_rows(rows, marker).len() ==> is_data_row(#[trigger] data_rows(rows, marker)[i], marker),
    decreases rows.len(),
{
    if rows.len() > 0 {
        lemma_data_rows(rows.drop_last(), marker);
        let r = data_rows(rows.drop_last(), marker);
        assert forall|i: int| 0 <= i < data_rows(rows, marker).len() implies is_data_row(#[trigger] data_rows(rows, marker)[i], marker) by {
            if i < r.len() {
                assert(data_rows(rows, marker)[i] == r[i]);
            }
        }
    }
}

/// Without a row of another width, every row has the width.
proof fn lemma_no_bad_width(rows: Seq<Seq<Seq<char>>>, width: nat)
    requires
        first_bad_width(rows, width) is None,
    ensures
        forall|i: int| 0 <= i < rows.len() ==> (#[trigger] rows[i]).len() == width,
    decreases rows.len(),
{
    if rows.len() > 0 {
        lemma_no_bad_width(rows.drop_first(), width);
        assert forall|i: int| 0 <= i < rows.len() implies (#[trigger] rows[i]).len() == width by {
            if i > 0 {
                assert(rows[i] == rows.drop_first()[i - 1]);
            }
        }
    }
}

/// Every sample text row holds the prefix, if any, and three fields.
pub proof fn lemma_text_rows_width(lines: Seq<Seq<u8>>, prefix: Option<Seq<char>>)
    ensures
        text_rows_of(lines, prefix) matches Ok(rows) ==> forall|i: int|
            0 <= i < rows.len() ==> (#[trigger] rows[i]).len() == (if prefix is Some { 4int } else { 3int }),
    decreases lines.len(),
{
    if lines.len() > 0 {
        lemma_text_rows_width(lines.drop_first(), prefix);
        lemma_segments_len(lines[0], sample_widths(), 0);
        if let Ok(rows) = text_rows_of(lines, prefix) {
            if is_record_line(lines[0]) {
                let rest = text_rows_of(lines.drop_first(), prefix)->Ok_0;
                assert forall|i: int| 0 <= i < rows.len() implies (#[trigger] rows[i]).len() == (if prefix is Some { 4int } else { 3int }) by {
                    if i > 0 {
                        assert(rows[i] == rest[i - 1]);
                    }
                }
            }
        }
    }
}

/// The cut fields, encoded again, are the consecutive byte ranges of the
/// widths, starting at `start`.
proof fn lemma_segments_encode(line: Seq<u8>, widths: Seq<usize>, start: nat)
    ensures
        segments_from(line, widths, start) matches Ok(fields) ==> forall|k: int|
            0 <= k < fields.len() ==> vstd::utf8::encode_utf8(#[trigger] fields[k]) == line.subrange(
                (start + width_sum(widths.take(k))) as int,
                (start + width_sum(widths.take(k + 1))) as int,
            ),
    decreases widths.len(),
{
    if widths.len() > 0 {
        let end = (start + widths[0]) as nat;
        lemma_segments_encode(line, widths.drop_first(), end);
        lemma_segments_len(line, widths.drop_first(), end);
        if let Ok(fields) = segments_from(line, widths, start) {
            let seg = line.subrange(start as int, end as int);
            vstd::utf8::decode_utf8_encode_utf8(seg);
            let rest = segments_from(line, widths.drop_first(), end)->Ok_0;
            assert forall|k: int| 0 <= k < fields.len() implies vstd::utf8::encode_utf8(#[trigger] fields[k]) == line.subrange(
                (start + width_sum(widths.take(k))) as int,
                (start + width_sum(widths.take(k + 1))) as int,
            ) by {
                lemma_width_sum_front(widths, k);
                lemma_width_sum_front(widths, k + 1);
                if k > 0 {
                    assert(fields[k] == rest[k - 1]);
                } else {
                    assert(widths.take(0) =~= Seq::<usize>::empty());
                    assert(widths.take(1) =~= seq![widths[0]]);
                    assert(width_sum(seq![widths[0]]) == width_sum(Seq::<usize>::empty()) + widths[0]) by {
                        assert(seq![widths[0]].drop_last() =~= Seq::<usize>::empty());
                    }
                }
            }
        }
    }
}

/// Whether the `k`-th segment of a line cut from `start` is not UTF-8.
pub open spec fn bad_segment(line: Seq<u8>, widths: Seq<usize>, start: nat, k: int) -> bool {
    !valid_utf8(
        line.subrange((start + width_sum(widths.take(k))) as int, (start + width_sum(widths.take(k + 1))) as int),
    )
}

/// Cutting segments from `start` fails exactly when one of them is not UTF-8.
proof fn lemma_segments_error(line: Seq<u8>, widths: Seq<usize>, start: nat)
    ensures
        segments_from(line, widths, start) is Err <==> exists|k: int|
            0 <= k < widths.len() && #[trigger] bad_segment(line, widths, start, k),
    decreases widths.len(),
{
    if widths.len() > 0 {
        let end = (start + widths[0]) as nat;
        lemma_segments_error(line, widths.drop_first(), end);
        lemma_width_sum_front(widths, 1);
        assert(widths.take(0) =~= Seq::<usize>::empty());
        assert(bad_segment(line, widths, start, 0) == !valid_utf8(line.subrange(start as int, end as int)));
        assert forall|k: int| 0 < k < widths.len() implies bad_segment(line, widths, start, k) == bad_segment(
            line,
            widths.drop_first(),
            end,
            k - 1,
        ) by {
            lemma_width_sum_front(widths, k);
            lemma_width_sum_front(widths, k + 1);
        }
        if exists|k: int| 0 <= k < widths.len() && #[trigger] bad_segment(line, widths, start, k) {
            let k = choose|k: int| 0 <= k < widths.len() && #[trigger] bad_segment(line, widths, start, k);
            if k > 0 {
                assert(bad_segment(line, widths.drop_first(), end, k - 1));
            }
        }
        if exists|k: int| 0 <= k < widths.drop_first().len() && #[trigger] bad_segment(line, widths.drop_first(), end, k) {
            let k = choose|k: int|
                0 <= k < widths.drop_first().len() && #[trigger] bad_segment(line, widths.drop_first(), end, k);
            assert(bad_segment(line, widths, start, k + 1));
        }
    }
}

/// Cutting a fixed-width line fails exactly when the line is shorter than
/// the sum of the widths or one of its segments is not UTF-8.
pub proof fn lemma_fixed_fields_error(line: Seq<u8>, widths: Seq<usize>)
    ensures
        fixed_fields(line, widths) is Err <==> (line.len() < width_sum(widths) || exists|k: int|
            0 <= k < widths.len() && #[trigger] bad_segment(line, widths, 0, k)),
{
    lemma_segments_error(line, widths, 0);
}

/// The sum of a prefix is the first width plus the sum of the rest's prefix.
proof fn lemma_width_sum_front(w: Seq<usize>, k: int)
    requires
        0 < w.len(),
        0 <= k <= w.len(),
    ensures
        k > 0 ==> width_sum(w.take(k)) == w[0] + width_sum(w.drop_first().take(k - 1)),
    decreases k,
{
    if k > 1 {
        lemma_width_sum_front(w, k - 1);
        assert(w.take(k).drop_last() =~= w.take(k - 1));
        assert(w.drop_first().take(k - 1).drop_last() =~= w.drop_first().take(k - 2));
        assert(w.take(k).last() == w.drop_first().take(k - 1).last());
    } else if k == 1 {
        assert(w.take(1).drop_last() =~= Seq::<usize>::empty());
        assert(w.drop_first().take(0) =~= Seq::<usize>::empty());
    }
}

/// The fields of a fixed-width line have the given widths in bytes: encoded
/// again, field `k` is the bytes from the sum of the widths before it up to
/// that sum plus its own width.
pub proof fn lemma_fixed_fields_bytes(line: Seq<u8>, widths: Seq<usize>)
    ensures
        fixed_fields(line, widths) matches Ok(fields) ==> fields.len() == widths.len() && forall|k: int|
            0 <= k < fields.len() ==> vstd::utf8::encode_utf8(#[trigger] fields[k]) == line.subrange(
                width_sum(widths.take(k)) as int,
                width_sum(widths.take(k + 1)) as int,
            ),
{
    lemma_segments_len(line, widths, 0);
    lemma_segments_encode(line, widths, 0);
}

} // verus!
