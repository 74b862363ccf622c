//! Classification of the files found under the configured roots, and the
//! final ordering of the collected entries.
//!
//! Walking the directories is left to the caller; this module decides which
//! files become entries, which identify files are handled, and in which order
//! the entries come out.

use vstd::prelude::*;
use vstd::string::*;
use crate::config::AppConfig;
use crate::error::{DataError, DataFault};
use crate::json::{identify_in, identify_of, nested_identify_in, nested_identify_of, JsonValue};
use crate::paths::{
    components_less, components_lt, components_view, lemma_components_lt_irreflexive,
    lemma_components_lt_total, lemma_components_lt_transitive, path_components, path_key, slice_bytes, NORMAL,
    ROOT_DIR,
};
use crate::pattern::{matches_pattern, text_matches};
use crate::text::{lossy_text, utf8_lossy, utf8_text};
use vstd::utf8::{decode_utf8, valid_utf8};

verus! {

/// The logical kind of a collected file.
#[derive(Debug, Clone, Copy, PartialEq, Eq, Structural, Hash)]
pub enum FileKind {
    /// An `identifyData.json` file.
    IDENTIFYJSONDATA,
    /// A `sampleJson.json` file.
    SAMPLEJSONDATA,
    /// A CSV file.
    CSVDATA,
    /// A text file.
    TEXTDATA,
}

/// The short label of a kind, as logs show it.
pub open spec fn kind_label(kind: FileKind) -> Seq<char> {
    match kind {
        FileKind::IDENTIFYJSONDATA => "IDENTIFY_JSON"@,
        FileKind::SAMPLEJSONDATA => "SAMPLE_JSON"@,
        FileKind::CSVDATA => "CSV"@,
        FileKind::TEXTDATA => "TXT"@,
    }
}

impl FileKind {
    /// The short label of the kind (`IDENTIFY_JSON`, `SAMPLE_JSON`, `CSV`, `TXT`).
    pub fn label(&self) -> (s: &'static str)
        ensures
            s@ == kind_label(*self),
    {
        match self {
            FileKind::IDENTIFYJSONDATA => "IDENTIFY_JSON",
            FileKind::SAMPLEJSONDATA => "SAMPLE_JSON",
            FileKind::CSVDATA => "CSV",
            FileKind::TEXTDATA => "TXT",
        }
    }
}

/// One collected file: its path, its kind and, for files tied to an identify
/// file, the identifier read from it.
pub struct FileEntry {
    /// The path of the file, as its bytes.
    pub path: Vec<u8>,
    /// The kind of the file.
    pub kind: FileKind,
    /// The identifier, for files tied to an identify file.
    pub identify: Option<String>,
}

/// The sort key of an entry: the components of its path.
pub open spec fn entry_key(e: FileEntry) -> Seq<(u8, Seq<u8>)> {
    path_components(e.path@)
}

/// `s` with `e` inserted after the last entry whose key is not above `e`'s
/// (one step of a stable insertion sort).
pub open spec fn insert_by_path(s: Seq<FileEntry>, e: FileEntry) -> Seq<FileEntry>
    decreases s.len(),
{
    if s.len() == 0 {
        seq![e]
    } else if components_lt(entry_key(e), entry_key(s.last())) {
        insert_by_path(s.drop_last(), e).push(s.last())
    } else {
        s.push(e)
    }
}

/// The entries stably sorted by path (`sort_by` on `Path`'s order).
pub open spec fn sort_by_path(s: Seq<FileEntry>) -> Seq<FileEntry>
    decreases s.len(),
{
    if s.len() == 0 {
        s
    } else {
        insert_by_path(sort_by_path(s.drop_last()), s.last())
    }
}

/// Whether two entries have equal paths and the same kind.
pub open spec fn same_entry(a: FileEntry, b: FileEntry) -> bool {
    entry_key(a) == entry_key(b) && a.kind == b.kind
}

/// The entries with each entry dropped that is the same as the last one kept
/// (`Vec::dedup_by`).
pub open spec fn dedup_entries(s: Seq<FileEntry>) -> Seq<FileEntry>
    decreases s.len(),
{
    if s.len() == 0 {
        s
    } else {
        let r = dedup_entries(s.drop_last());
        if r.len() > 0 && same_entry(s.last(), r.last()) {
            r
        } else {
            r.push(s.last())
        }
    }
}

/// Whether the entries are in path order.
pub open spec fn sorted_by_path(s: Seq<FileEntry>) -> bool {
    forall|i: int, j: int|
        0 <= i < j < s.len() ==> !components_lt(entry_key(s[j]), entry_key(s[i]))
}

/// Inserting at a position whose left neighbour is not above `e` and whose
/// right part is all above `e` is `insert_by_path`.
proof fn lemma_insert_at(s: Seq<FileEntry>, e: FileEntry, j: int)
    requires
        0 <= j <= s.len(),
        j == 0 || !components_lt(entry_key(e), entry_key(s[j - 1])),
        forall|p: int| j <= p < s.len() ==> components_lt(entry_key(e), entry_key(#[trigger] s[p])),
    ensures
        insert_by_path(s, e) == s.insert(j, e),
    decreases s.len() - j,
{
    if j == s.len() {
        if s.len() > 0 {
            assert(s.last() == s[j - 1]);
        }
        assert(s.insert(j, e) =~= s.push(e));
    } else {
        assert(components_lt(entry_key(e), entry_key(s[s.len() - 1])));
        let t = s.drop_last();
        if j < t.len() {
            assert(forall|p: int| j <= p < t.len() ==> t[p] == s[p]);
        }
        if j > 0 {
            assert(t[j - 1] == s[j - 1]);
        }
        lemma_insert_at(t, e, j);
        assert(t.insert(j, e).push(s.last()) =~= s.insert(j, e));
    }
}

/// Inserting into a sorted sequence keeps it sorted and adds exactly `e`.
pub proof fn lemma_insert_by_path_sorted(s: Seq<FileEntry>, e: FileEntry)
    requires
        sorted_by_path(s),
    ensures
        sorted_by_path(insert_by_path(s, e)),
        insert_by_path(s, e).to_multiset() == s.to_multiset().insert(e),
    decreases s.len(),
{
    broadcast use vstd::seq_lib::group_to_multiset_ensures;
    if s.len() == 0 {
        assert(seq![e] =~= Seq::<FileEntry>::empty().push(e));
    } else if components_lt(entry_key(e), entry_key(s.last())) {
        let t = s.drop_last();
        lemma_insert_by_path_sorted(t, e);
        let u = insert_by_path(t, e);
        assert(s =~= t.push(s.last()));
        assert forall|i: int, j: int| 0 <= i < j < u.push(s.last()).len() implies !components_lt(
            entry_key(u.push(s.last())[j]),
            entry_key(u.push(s.last())[i]),
        ) by {
            if j == u.len() {
                let x = u[i];
                assert(u.to_multiset().count(x) > 0);
                assert(t.to_multiset().insert(e).count(x) > 0);
                if x != e {
                    assert(t.to_multiset().count(x) > 0);
                    assert(t.contains(x));
                    let k = choose|k: int| 0 <= k < t.len() && t[k] == x;
                    assert(s[k] == x);
                    assert(!components_lt(entry_key(s.last()), entry_key(s[k])));
                } else {
                    lemma_components_lt_total(entry_key(e), entry_key(s.last()));
                }
            }
        }
    } else {
        assert forall|i: int, j: int| 0 <= i < j < s.push(e).len() implies !components_lt(
            entry_key(s.push(e)[j]),
            entry_key(s.push(e)[i]),
        ) by {
            if j == s.len() {
                if i < s.len() - 1 {
                    assert(!components_lt(entry_key(s.last()), entry_key(s[i])));
                    lemma_components_lt_total(entry_key(s.last()), entry_key(s[i]));
                    lemma_components_lt_total(entry_key(e), entry_key(s.last()));
                    if components_lt(entry_key(e), entry_key(s[i])) {
                        if components_lt(entry_key(s[i]), entry_key(s.last())) {
                            lemma_components_lt_transitive(entry_key(e), entry_key(s[i]), entry_key(s.last()));
                        }
                    }
                } else {
                    lemma_components_lt_total(entry_key(e), entry_key(s.last()));
                }
            }
        }
    }
}

/// Sorting by path yields entries in path order, and exactly the input entries.
pub proof fn lemma_sort_by_path(s: Seq<FileEntry>)
    ensures
        sorted_by_path(sort_by_path(s)),
        sort_by_path(s).to_multiset() == s.to_multiset(),
    decreases s.len(),
{
    broadcast use vstd::seq_lib::group_to_multiset_ensures;
    if s.len() > 0 {
        lemma_sort_by_path(s.drop_last());
        lemma_insert_by_path_sorted(sort_by_path(s.drop_last()), s.last());
        assert(s =~= s.drop_last().push(s.last()));
    }
}

/// The entries stably sorted by path, as a new vector.
fn sort_entries(entries: Vec<FileEntry>) -> (r: Vec<FileEntry>)
    ensures
        r@ == sort_by_path(entries@),
{
    let ghost orig = entries@;
    let mut rest = entries;
    let mut out: Vec<FileEntry> = Vec::new();
    let mut keys: Vec<Vec<(u8, Vec<u8>)>> = Vec::new();
    let ghost mut taken: int = 0;
    assert(orig.take(0) =~= Seq::<FileEntry>::empty());
    while rest.len() > 0
        invariant
            0 <= taken <= orig.len(),
            rest@ == orig.skip(taken),
            out@ == sort_by_path(orig.take(taken)),
            keys@.len() == out@.len(),
            forall|p: int| 0 <= p < keys@.len() ==> components_view(#[trigger] keys@[p]@) == entry_key(out@[p]),
        decreases rest@.len(),
    {
        let e = rest.remove(0);
        let k = path_key(e.path.as_slice());
        let mut j = out.len();
        while j > 0 && components_less(&k, &keys[j - 1])
            invariant
                j <= out@.len(),
                keys@.len() == out@.len(),
                forall|p: int| 0 <= p < keys@.len() ==> components_view(#[trigger] keys@[p]@) == entry_key(out@[p]),
                components_view(k@) == entry_key(e),
                forall|p: int| j <= p < out@.len() ==> components_lt(entry_key(e), entry_key(#[trigger] out@[p])),
            decreases j,
        {
            j -= 1;
        }
        proof {
            lemma_insert_at(out@, e, j as int);
            assert(orig.take(taken + 1).drop_last() =~= orig.take(taken));
            assert(orig.take(taken + 1).last() == orig[taken]);
            assert(orig.skip(taken)[0] == orig[taken]);
            assert(orig.skip(taken).drop_first() =~= orig.skip(taken + 1));
        }
        let ghost old_keys = keys@;
        let ghost old_out = out@;
        out.insert(j, e);
        keys.insert(j, k);
        proof {
            taken = taken + 1;
            assert forall|p: int| 0 <= p < keys@.len() implies components_view(#[trigger] keys@[p]@) == entry_key(out@[p]) by {
                if p < j {
                    assert(keys@[p] == old_keys[p] && out@[p] == old_out[p]);
                } else if p > j {
                    assert(keys@[p] == old_keys[p - 1] && out@[p] == old_out[p - 1]);
                }
            }
        }
    }
    assert(orig.take(taken) =~= orig);
    out
}

/// The entries sorted by path with repeated (path, kind) neighbours removed,
/// as the scanner returns them.
pub fn finish_entries(entries: Vec<FileEntry>) -> (r: Vec<FileEntry>)
    ensures
        r@ == dedup_entries(sort_by_path(entries@)),
{
    let sorted = sort_entries(entries);
    let ghost s = sorted@;
    let mut rest = sorted;
    let mut out: Vec<FileEntry> = Vec::new();
    let mut last_key: Vec<(u8, Vec<u8>)> = Vec::new();
    let ghost mut taken: int = 0;
    assert(s.take(0) =~= Seq::<FileEntry>::empty());
    while rest.len() > 0
        invariant
            0 <= taken <= s.len(),
            rest@ == s.skip(taken),
            out@ == dedup_entries(s.take(taken)),
            out@.len() > 0 ==> components_view(last_key@) == entry_key(out@.last()),
        decreases rest@.len(),
    {
        let e = rest.remove(0);
        let k = path_key(e.path.as_slice());
        proof {
            assert(s.take(taken + 1).drop_last() =~= s.take(taken));
            assert(s.skip(taken)[0] == s[taken]);
            assert(s.skip(taken).drop_first() =~= s.skip(taken + 1));
            assert(s.take(taken + 1).last() == s[taken]);
        }
        let same = out.len() > 0 && !components_less(&k, &last_key) && !components_less(&last_key, &k)
            && e.kind == out[out.len() - 1].kind;
        proof {
            if out@.len() > 0 {
                lemma_components_lt_total(components_view(k@), components_view(last_key@));
                lemma_components_lt_irreflexive(components_view(k@));
            }
        }
        if !same {
            out.push(e);
            last_key = k;
        }
        proof {
            taken = taken + 1;
        }
    }
    assert(s.take(taken) =~= s);
    out
}

/// The pattern of an identify file's name.
pub open spec fn identify_json_pattern() -> Seq<char> {
    "identifyData.json"@
}

/// The pattern of a sample JSON file's name.
pub open spec fn sample_json_pattern() -> Seq<char> {
    "sampleJson.json"@
}

/// The pattern of a CSV file's name: `.csv` at the end, in any case.
pub open spec fn csv_pattern() -> Seq<char> {
    "(?i)\\.csv$"@
}

/// The pattern of a text file's name: `.txt` at the end, in any case.
pub open spec fn text_pattern() -> Seq<char> {
    "(?i)\\.txt$"@
}

/// Whether a file name matches the pattern of identify files.
pub open spec fn is_identify_json_name(name: Seq<char>) -> bool {
    text_matches(identify_json_pattern(), name)
}

/// Whether a file name matches the pattern of sample JSON files.
pub open spec fn is_sample_json_name(name: Seq<char>) -> bool {
    text_matches(sample_json_pattern(), name)
}

/// Whether a file name matches the pattern of CSV files.
pub open spec fn is_csv_name(name: Seq<char>) -> bool {
    text_matches(csv_pattern(), name)
}

/// Whether a file name matches the pattern of text files.
pub open spec fn is_text_name(name: Seq<char>) -> bool {
    text_matches(text_pattern(), name)
}

/// Whether a file name is that of an identify file.
pub fn identify_json_name(name: &str) -> (r: bool)
    ensures
        r == is_identify_json_name(name@),
{
    matches_pattern("identifyData.json", name)
}

/// Whether a file name is that of a sample JSON file.
pub fn sample_json_name(name: &str) -> (r: bool)
    ensures
        r == is_sample_json_name(name@),
{
    matches_pattern("sampleJson.json", name)
}

/// Whether a file name is that of a CSV file.
pub fn csv_name(name: &str) -> (r: bool)
    ensures
        r == is_csv_name(name@),
{
    matches_pattern("(?i)\\.csv$", name)
}

/// Whether a file name is that of a text file.
pub fn text_name(name: &str) -> (r: bool)
    ensures
        r == is_text_name(name@),
{
    matches_pattern("(?i)\\.txt$", name)
}

/// The final component of a path when it is a name (`Path::file_name`), as
/// its bytes.
pub open spec fn file_name(p: Seq<u8>) -> Option<Seq<u8>> {
    let c = path_components(p);
    if c.len() > 0 && c.last().0 == NORMAL {
        Some(c.last().1)
    } else {
        None
    }
}

/// The file name of a path as text, or the empty text when it has none or
/// it is not UTF-8 (`file_name().and_then(to_str).unwrap_or_default()`).
#[verifier::opaque]
pub open spec fn name_or_empty(p: Seq<u8>) -> Seq<char> {
    match file_name(p) {
        Some(n) => if valid_utf8(n) {
            decode_utf8(n)
        } else {
            Seq::empty()
        },
        None => Seq::empty(),
    }
}

/// The file name of a path as text, with each sequence that is not UTF-8
/// replaced by U+FFFD, or the empty text when it has none.
pub open spec fn lossy_name(p: Seq<u8>) -> Seq<char> {
    match file_name(p) {
        Some(n) => utf8_lossy(n),
        None => Seq::empty(),
    }
}

/// The components of a path's parent (`Path::parent`): none for a path that
/// is empty or ends at the root.
#[verifier::opaque]
pub open spec fn parent_of(p: Seq<u8>) -> Option<Seq<(u8, Seq<u8>)>> {
    let c = path_components(p);
    if c.len() > 0 && c.last().0 != ROOT_DIR {
        Some(c.drop_last())
    } else {
        None
    }
}

/// The file name of a path as text, or the empty text when it has none or
/// it is not UTF-8.
pub fn file_name_of(path: &[u8]) -> (r: String)
    ensures
        r@ == name_or_empty(path@),
{
    reveal(name_or_empty);
    let c = path_key(path);
    let n = c.len();
    if n > 0 && c[n - 1].0 == NORMAL {
        assert(components_view(c@)[n - 1] == (c@[n - 1].0, c@[n - 1].1@));
        match utf8_text(c[n - 1].1.as_slice()) {
            Ok(name) => name,
            Err(_) => String::new(),
        }
    } else {
        String::new()
    }
}

/// The file name of a path as text, with each sequence that is not UTF-8
/// replaced by U+FFFD, or the empty text when it has none.
pub fn lossy_file_name_of(path: &[u8]) -> (r: String)
    ensures
        r@ == lossy_name(path@),
{
    let c = path_key(path);
    let n = c.len();
    if n > 0 && c[n - 1].0 == NORMAL {
        assert(components_view(c@)[n - 1] == (c@[n - 1].0, c@[n - 1].1@));
        lossy_text(c[n - 1].1.as_slice())
    } else {
        String::new()
    }
}

/// Whether two component vectors are equal.
fn components_equal(a: &Vec<(u8, Vec<u8>)>, b: &Vec<(u8, Vec<u8>)>) -> (r: bool)
    ensures
        r == (components_view(a@) == components_view(b@)),
{
    let lt = components_less(a, b);
    let gt = components_less(b, a);
    proof {
        lemma_components_lt_total(components_view(a@), components_view(b@));
        lemma_components_lt_irreflexive(components_view(a@));
    }
    !lt && !gt
}

/// The paths of some files, as byte sequences.
pub open spec fn byte_paths(files: Seq<Vec<u8>>) -> Seq<Seq<u8>> {
    files.map_values(|f: Vec<u8>| f@)
}

/// The indices of the candidate files whose directory is handled as an
/// identify directory, in order: an identify file is chosen when no file
/// chosen before it lies in the same directory.
pub open spec fn chosen_identify_files(cs: Seq<Seq<u8>>) -> Seq<int>
    decreases cs.len(),
{
    if cs.len() == 0 {
        Seq::empty()
    } else {
        let r = chosen_identify_files(cs.drop_last());
        let k = cs.len() - 1;
        if is_identify_json_name(name_or_empty(cs[k])) && parent_of(cs[k]) is Some && !(exists|j: int|
            0 <= j < r.len() && parent_of(cs[#[trigger] r[j]]) == parent_of(cs[k])) {
            r.push(k)
        } else {
            r
        }
    }
}

/// The identify files to handle among the files found under the JSON root,
/// by index, each directory once.
pub fn select_identify_files(candidates: &[Vec<u8>]) -> (r: Vec<usize>)
    ensures
        r@.len() == chosen_identify_files(byte_paths(candidates@)).len(),
        forall|k: int| 0 <= k < r@.len() ==> r@[k] as int == #[trigger] chosen_identify_files(byte_paths(candidates@))[k],
{
    let ghost cs = byte_paths(candidates@);
    let mut chosen: Vec<usize> = Vec::new();
    let mut parents: Vec<Vec<(u8, Vec<u8>)>> = Vec::new();
    let mut i: usize = 0;
    assert(cs.take(0) =~= Seq::<Seq<u8>>::empty());
    while i < candidates.len()
        invariant
            i <= candidates@.len(),
            cs == byte_paths(candidates@),
            chosen@.len() == chosen_identify_files(cs.take(i as int)).len(),
            parents@.len() == chosen@.len(),
            forall|k: int| 0 <= k < chosen@.len() ==> chosen@[k] as int == #[trigger] chosen_identify_files(cs.take(i as int))[k],
            forall|k: int| 0 <= k < chosen@.len() ==> chosen@[k] < i,
            forall|k: int| 0 <= k < chosen@.len() ==> parent_of(cs[#[trigger] chosen@[k] as int]) == Some(components_view(parents@[k]@)),
        decreases candidates@.len() - i,
    {
        let ghost prev = chosen_identify_files(cs.take(i as int));
        proof {
            assert(cs.take(i + 1).drop_last() =~= cs.take(i as int));
            assert(cs.take(i + 1)[i as int] == cs[i as int]);
            assert forall|j: int| 0 <= j < prev.len() implies cs.take(i + 1)[prev[j]] == cs[prev[j]] by {
                assert(chosen@[j] < i);
            }
        }
        let name = file_name_of(candidates[i].as_slice());
        if identify_json_name(name.as_str()) {
            let c = path_key(candidates[i].as_slice());
            let n = c.len();
            proof {
                reveal(parent_of);
            }
            if n > 0 && c[n - 1].0 != ROOT_DIR {
                let mut parent = c;
                parent.pop();
                proof {
                    reveal(parent_of);
                    assert(components_view(parent@) =~= components_view(c@).drop_last());
                }
                let mut seen = false;
                let mut j: usize = 0;
                while j < parents.len()
                    invariant
                        j <= parents@.len(),
                        !seen ==> forall|k: int| 0 <= k < j ==> components_view(parents@[k]@) != components_view(parent@),
                        seen ==> exists|k: int| 0 <= k < parents@.len() && components_view(parents@[k]@) == components_view(parent@),
                    decreases parents@.len() - j,
                {
                    if components_equal(&parents[j], &parent) {
                        seen = true;
                    }
                    j += 1;
                }
                proof {
                    if seen {
                        let k = choose|k: int| 0 <= k < parents@.len() && components_view(parents@[k]@) == components_view(parent@);
                        assert(parent_of(cs[prev[k]]) == parent_of(cs[i as int]));
                    } else {
                        assert forall|k: int| 0 <= k < prev.len() implies parent_of(cs[#[trigger] prev[k]]) != parent_of(cs[i as int]) by {
                            assert(parent_of(cs[chosen@[k] as int]) == Some(components_view(parents@[k]@)));
                        }
                    }
                }
                if !seen {
                    chosen.push(i);
                    parents.push(parent);
                }
            }
        }
        i += 1;
    }
    assert(cs.take(i as int) =~= cs);
    chosen
}

/// The entries of an identify directory: one sample JSON entry per file of
/// the directory whose name matches, tied to the identifier, then the
/// identify file itself when it is asked for, given the directory's files
/// and the identifier read from the identify file.
pub open spec fn identify_directory_entries_of(
    files: Seq<Seq<u8>>,
    identify_path: Seq<u8>,
    identify: Seq<char>,
    with_identify_file: bool,
) -> Seq<(Seq<u8>, FileKind, Option<Seq<char>>)> {
    let samples = matching_entries(files, NameRule::SampleJson, FileKind::SAMPLEJSONDATA, Some(identify));
    if with_identify_file {
        samples.push((identify_path, FileKind::IDENTIFYJSONDATA, Some(identify)))
    } else {
        samples
    }
}

/// An entry as plain values.
pub open spec fn entry_view(e: FileEntry) -> (Seq<u8>, FileKind, Option<Seq<char>>) {
    (e.path@, e.kind, match e.identify {
        Some(s) => Some(s@),
        None => None,
    })
}

/// Entries as plain values.
pub open spec fn entries_view(es: Seq<FileEntry>) -> Seq<(Seq<u8>, FileKind, Option<Seq<char>>)> {
    es.map_values(|e: FileEntry| entry_view(e))
}

/// The files whose name passes `rule`, in order, each as an entry of the
/// given kind with the given identifier.
pub open spec fn matching_entries(
    files: Seq<Seq<u8>>,
    rule: NameRule,
    kind: FileKind,
    identify: Option<Seq<char>>,
) -> Seq<(Seq<u8>, FileKind, Option<Seq<char>>)> {
    files.filter(|f: Seq<u8>| rule_keeps(rule, f)).map_values(|f: Seq<u8>| (f, kind, identify))
}

/// Which files an entry builder keeps, by name.
pub enum NameRule {
    /// Sample JSON names.
    SampleJson,
    /// CSV names.
    Csv,
    /// Text names.
    Text,
}

/// Whether a file passes a rule: sample JSON and text files by their name
/// as text (empty when it is not UTF-8), CSV files by their name with
/// sequences that are not UTF-8 replaced.
pub open spec fn rule_keeps(rule: NameRule, path: Seq<u8>) -> bool {
    match rule {
        NameRule::SampleJson => is_sample_json_name(name_or_empty(path)),
        NameRule::Csv => is_csv_name(lossy_name(path)),
        NameRule::Text => is_text_name(name_or_empty(path)),
    }
}

/// Whether a file passes a rule.
fn name_passes(rule: &NameRule, path: &[u8]) -> (r: bool)
    ensures
        r == rule_keeps(*rule, path@),
{
    match rule {
        NameRule::SampleJson => {
            let name = file_name_of(path);
            sample_json_name(name.as_str())
        },
        NameRule::Csv => {
            let name = lossy_file_name_of(path);
            csv_name(name.as_str())
        },
        NameRule::Text => {
            let name = file_name_of(path);
            text_name(name.as_str())
        },
    }
}

/// The files whose name passes `rule`, as entries of `kind` with the given
/// identifier.
fn filtered_entries(files: &[Vec<u8>], rule: NameRule, kind: FileKind, identify: &Option<String>) -> (r: Vec<FileEntry>)
    ensures
        entries_view(r@) == matching_entries(byte_paths(files@), rule, kind, identify.deep_view()),
{
    let ghost fs = byte_paths(files@);
    let ghost keep = |f: Seq<u8>| rule_keeps(rule, f);
    let ghost mk = |f: Seq<u8>| (f, kind, identify.deep_view());
    let mut out: Vec<FileEntry> = Vec::new();
    let mut i: usize = 0;
    assert(fs.take(0) =~= Seq::<Seq<u8>>::empty());
    while i < files.len()
        invariant
            i <= files@.len(),
            fs == byte_paths(files@),
            keep == (|f: Seq<u8>| rule_keeps(rule, f)),
            mk == (|f: Seq<u8>| (f, kind, identify.deep_view())),
            entries_view(out@) == fs.take(i as int).filter(keep).map_values(mk),
        decreases files@.len() - i,
    {
        proof {
            reveal_with_fuel(Seq::<_>::filter, 1);
            assert(fs.take(i + 1).drop_last() =~= fs.take(i as int));
            assert(fs.take(i + 1).last() == fs[i as int]);
        }
        if name_passes(&rule, files[i].as_slice()) {
            let ident = match identify {
                Some(s) => Some(s.clone()),
                None => None,
            };
            let ghost before = out@;
            let path = slice_bytes(files[i].as_slice(), 0, files[i].len());
            assert(path@ =~= fs[i as int]);
            out.push(FileEntry { path, kind, identify: ident });
            proof {
                assert(fs.take(i + 1).filter(keep) == fs.take(i as int).filter(keep).push(fs[i as int]));
                assert(entries_view(out@) =~= entries_view(before).push(mk(fs[i as int])));
                assert(fs.take(i + 1).filter(keep).map_values(mk) =~= fs.take(i as int).filter(keep).map_values(mk).push(mk(fs[i as int])));
            }
        } else {
            proof {
                assert(fs.take(i + 1).filter(keep) == fs.take(i as int).filter(keep));
            }
        }
        i += 1;
    }
    assert(fs.take(i as int) =~= fs);
    assert(entries_view(out@) == matching_entries(byte_paths(files@), rule, kind, identify.deep_view()));
    out
}

/// The entries of an identify directory, given its files, the identify
/// file and the identifier read from it.
pub fn identify_directory_entries(dir_files: &[Vec<u8>], identify_path: &[u8], identify: &str, with_identify_file: bool) -> (r:
    Vec<FileEntry>)
    ensures
        entries_view(r@) == identify_directory_entries_of(byte_paths(dir_files@), identify_path@, identify@, with_identify_file),
{
    let ident = Some(identify.to_owned());
    let mut out = filtered_entries(dir_files, NameRule::SampleJson, FileKind::SAMPLEJSONDATA, &ident);
    if with_identify_file {
        let ghost before = out@;
        let path = slice_bytes(identify_path, 0, identify_path.len());
        assert(path@ =~= identify_path@);
        out.push(FileEntry { path, kind: FileKind::IDENTIFYJSONDATA, identify: ident });
        assert(entries_view(out@) =~= entries_view(before).push(
            (identify_path@, FileKind::IDENTIFYJSONDATA, Some(identify@)),
        ));
    }
    out
}

/// The text entries among some files: the root, when it is a file, or the
/// files of the root directory.
pub fn text_entries(files: &[Vec<u8>]) -> (r: Vec<FileEntry>)
    ensures
        entries_view(r@) == matching_entries(byte_paths(files@), NameRule::Text, FileKind::TEXTDATA, None),
{
    filtered_entries(files, NameRule::Text, FileKind::TEXTDATA, &None)
}

/// The CSV entries among the files of a directory, as entries of `kind`.
pub fn csv_entries(files: &[Vec<u8>], kind: FileKind) -> (r: Vec<FileEntry>)
    ensures
        entries_view(r@) == matching_entries(byte_paths(files@), NameRule::Csv, kind, None),
{
    filtered_entries(files, NameRule::Csv, kind, &None)
}

/// What a directory walk does with one directory entry.
pub enum WalkStep {
    /// Walk into the directory with this remaining depth.
    Descend(usize),
    /// Collect the file.
    Collect,
    /// Leave the entry.
    Skip,
}

/// What a walk with `depth` levels left does with an entry: directories are walked with one level less,
/// files are collected on the last level only. At depth zero nothing is
/// listed, so no entry is asked about.
pub fn walk_step(depth: usize, is_dir: bool) -> (r: WalkStep)
    requires
        depth > 0,
    ensures
        is_dir ==> r == WalkStep::Descend((depth - 1) as usize),
        !is_dir && depth == 1 ==> r == WalkStep::Collect,
        !is_dir && depth > 1 ==> r == WalkStep::Skip,
{
    if is_dir {
        WalkStep::Descend(depth - 1)
    } else if depth == 1 {
        WalkStep::Collect
    } else {
        WalkStep::Skip
    }
}

/// The identifier of the identify document read from `path`, or why there
/// is none.
pub fn identify_from_document(path: &str, doc: &JsonValue) -> (r: Result<String, DataError>)
    ensures
        match r {
            Ok(s) => identify_of(*doc) == Some(s@),
            Err(e) => identify_of(*doc) is None && e@ == DataFault::IdentifyNotFound { path: path@ },
        },
{
    match identify_in(doc) {
        Some(s) => Ok(s),
        None => Err(DataError::IdentifyNotFound { path: path.to_owned() }),
    }
}

/// The identifier in the first element of the `identify` array of the
/// document read from `path`, or why there is none.
pub fn nested_identify_from_document(path: &str, doc: &JsonValue) -> (r: Result<String, DataError>)
    ensures
        match r {
            Ok(s) => nested_identify_of(*doc) == Some(s@),
            Err(e) => nested_identify_of(*doc) is None && e@ == DataFault::IdentifyMissing { path: path@ },
        },
{
    match nested_identify_in(doc) {
        Some(s) => Ok(s),
        None => Err(DataError::IdentifyMissing { path: path.to_owned() }),
    }
}

/// Collects the files under the configured roots; walking the directories
/// is the caller's, the decisions are this module's.
pub struct FileScanner<'a> {
    config: &'a AppConfig,
}

impl<'a> FileScanner<'a> {
    /// The configuration the scanner walks.
    pub closed spec fn spec_config(&self) -> &'a AppConfig {
        self.config
    }

    /// A scanner over the roots of `config`.
    pub fn new(config: &'a AppConfig) -> (s: Self)
        ensures
            s.spec_config() == config,
    {
        FileScanner { config }
    }

    /// The configuration the scanner walks.
    pub fn config(&self) -> (c: &'a AppConfig)
        ensures
            c == self.spec_config(),
    {
        self.config
    }
}

/// Every entry that dedup keeps comes from its input.
proof fn lemma_dedup_members(s: Seq<FileEntry>)
    ensures
        forall|i: int| 0 <= i < dedup_entries(s).len() ==> s.contains(#[trigger] dedup_entries(s)[i]),
        dedup_entries(s).len() <= s.len(),
        s.len() > 0 ==> dedup_entries(s).len() > 0,
    decreases s.len(),
{
    if s.len() > 0 {
        let t = s.drop_last();
        lemma_dedup_members(t);
        let r = dedup_entries(t);
        assert forall|i: int| 0 <= i < dedup_entries(s).len() implies s.contains(#[trigger] dedup_entries(s)[i]) by {
            if i < r.len() {
                let x = r[i];
                assert(t.contains(x));
                let k = choose|k: int| 0 <= k < t.len() && t[k] == x;
                assert(s[k] == x);
            } else {
                assert(s[s.len() - 1] == s.last());
            }
        }
    }
}

/// Every input entry has an entry with the same path and kind among those
/// that dedup keeps, and no two kept neighbours are the same.
proof fn lemma_dedup_covers(s: Seq<FileEntry>)
    ensures
        forall|i: int| 0 <= i < s.len() ==> exists|j: int| 0 <= j < dedup_entries(s).len() && same_entry(#[trigger] s[i], dedup_entries(s)[j]),
        forall|i: int| 0 <= i < dedup_entries(s).len() - 1 ==> !same_entry(#[trigger] dedup_entries(s)[i], dedup_entries(s)[i + 1]),
    decreases s.len(),
{
    if s.len() > 0 {
        let t = s.drop_last();
        lemma_dedup_covers(t);
        let r = dedup_entries(t);
        let d = dedup_entries(s);
        assert forall|i: int| 0 <= i < s.len() implies exists|j: int| 0 <= j < d.len() && same_entry(#[trigger] s[i], d[j]) by {
            if i < t.len() {
                assert(s[i] == t[i]);
                let j = choose|j: int| 0 <= j < r.len() && same_entry(t[i], r[j]);
                assert(d[j] == r[j]);
            } else {
                if r.len() > 0 && same_entry(s.last(), r.last()) {
                    assert(d[r.len() - 1] == r.last());
                } else {
                    assert(d[r.len() as int] == s.last());
                }
            }
        }
        assert forall|i: int| 0 <= i < d.len() - 1 implies !same_entry(#[trigger] d[i], d[i + 1]) by {
            if i + 1 < r.len() {
                assert(d[i] == r[i] && d[i + 1] == r[i + 1]);
            } else {
                assert(d[i] == r.last());
            }
        }
    }
}

/// Dropping entries from a sequence in path order keeps it in path order.
proof fn lemma_dedup_sorted(s: Seq<FileEntry>)
    requires
        sorted_by_path(s),
    ensures
        sorted_by_path(dedup_entries(s)),
    decreases s.len(),
{
    if s.len() > 0 {
        let t = s.drop_last();
        assert(sorted_by_path(t)) by {
            assert forall|i: int, j: int| 0 <= i < j < t.len() implies !components_lt(entry_key(t[j]), entry_key(t[i])) by {
                assert(t[i] == s[i] && t[j] == s[j]);
            }
        }
        lemma_dedup_sorted(t);
        lemma_dedup_members(t);
        let r = dedup_entries(t);
        let d = dedup_entries(s);
        assert forall|i: int, j: int| 0 <= i < j < d.len() implies !components_lt(entry_key(d[j]), entry_key(d[i])) by {
            if j < r.len() {
                assert(d[i] == r[i] && d[j] == r[j]);
            } else {
                assert(d[j] == s.last());
                assert(d[i] == r[i]);
                assert(t.contains(r[i]));
                let k = choose|k: int| 0 <= k < t.len() && t[k] == r[i];
                assert(s[k] == r[i]);
                assert(s[s.len() - 1] == s.last());
            }
        }
    }
}

/// The entries the scanner returns are in path order, come from the
/// collected entries, cover every collected (path, kind) pair, and hold no
/// two neighbours with the same path and kind.
pub proof fn lemma_finished_entries(entries: Seq<FileEntry>)
    ensures
        sorted_by_path(dedup_entries(sort_by_path(entries))),
        forall|i: int|
            0 <= i < dedup_entries(sort_by_path(entries)).len() ==> entries.contains(
                #[trigger] dedup_entries(sort_by_path(entries))[i],
            ),
        forall|i: int|
            0 <= i < entries.len() ==> exists|j: int|
                0 <= j < dedup_entries(sort_by_path(entries)).len() && same_entry(
                    #[trigger] entries[i],
                    dedup_entries(sort_by_path(entries))[j],
                ),
        forall|i: int|
            0 <= i < dedup_entries(sort_by_path(entries)).len() - 1 ==> !same_entry(
                #[trigger] dedup_entries(sort_by_path(entries))[i],
                dedup_entries(sort_by_path(entries))[i + 1],
            ),
{
    broadcast use vstd::seq_lib::group_to_multiset_ensures;
    let s = sort_by_path(entries);
    lemma_sort_by_path(entries);
    lemma_dedup_sorted(s);
    lemma_dedup_members(s);
    lemma_dedup_covers(s);
    let d = dedup_entries(s);
    assert forall|i: int| 0 <= i < d.len() implies entries.contains(#[trigger] d[i]) by {
        assert(s.contains(d[i]));
        assert(s.to_multiset().count(d[i]) > 0);
        assert(entries.to_multiset().count(d[i]) > 0);
    }
    assert forall|i: int| 0 <= i < entries.len() implies exists|j: int| 0 <= j < d.len() && same_entry(#[trigger] entries[i], d[j]) by {
        let x = entries[i];
        assert(entries.to_multiset().count(x) > 0);
        assert(s.to_multiset().count(x) > 0);
        assert(s.contains(x));
        let k = choose|k: int| 0 <= k < s.len() && s[k] == x;
        let j = choose|j: int| 0 <= j < d.len() && same_entry(s[k], d[j]);
    }
}

/// The spot of each chosen file is a file of the list that is an identify
/// file with a directory, and the spots only grow.
pub proof fn lemma_chosen_are_identify_files(cs: Seq<Seq<u8>>)
    ensures
        forall|a: int|
            0 <= a < chosen_identify_files(cs).len() ==> 0 <= #[trigger] chosen_identify_files(cs)[a] < cs.len()
                && is_identify_json_name(name_or_empty(cs[chosen_identify_files(cs)[a]]))
                && parent_of(cs[chosen_identify_files(cs)[a]]) is Some,
    decreases cs.len(),
{
    if cs.len() > 0 {
        let t = cs.drop_last();
        lemma_chosen_are_identify_files(t);
        let r = chosen_identify_files(t);
        let c = chosen_identify_files(cs);
        assert forall|a: int| 0 <= a < c.len() implies 0 <= #[trigger] c[a] < cs.len()
            && is_identify_json_name(name_or_empty(cs[c[a]])) && parent_of(cs[c[a]]) is Some by {
            if a < r.len() {
                assert(c[a] == r[a]);
                assert(cs[r[a]] == t[r[a]]);
            }
        }
    }
}

/// The identify files chosen lie in pairwise different directories.
pub proof fn lemma_chosen_directories_differ(cs: Seq<Seq<u8>>)
    ensures
        forall|a: int, b: int|
            0 <= a < b < chosen_identify_files(cs).len() ==> parent_of(
                cs[#[trigger] chosen_identify_files(cs)[a]],
            ) != parent_of(cs[#[trigger] chosen_identify_files(cs)[b]]),
    decreases cs.len(),
{
    if cs.len() > 0 {
        let t = cs.drop_last();
        lemma_chosen_directories_differ(t);
        lemma_chosen_are_identify_files(t);
        let r = chosen_identify_files(t);
        let c = chosen_identify_files(cs);
        assert forall|a: int, b: int| 0 <= a < b < c.len() implies parent_of(cs[#[trigger] c[a]]) != parent_of(cs[#[trigger] c[b]]) by {
            assert(c[a] == r[a]);
            assert(cs[r[a]] == t[r[a]]);
            if b < r.len() {
                assert(c[b] == r[b]);
                assert(cs[r[b]] == t[r[b]]);
            }
        }
    }
}

/// Every identify file with a directory shares its directory with a chosen one.
pub proof fn lemma_chosen_directories_cover(cs: Seq<Seq<u8>>)
    ensures
        forall|k: int|
            0 <= k < cs.len() && is_identify_json_name(name_or_empty(#[trigger] cs[k])) && parent_of(cs[k]) is Some
                ==> exists|a: int|
                0 <= a < chosen_identify_files(cs).len() && parent_of(cs[chosen_identify_files(cs)[a]]) == parent_of(
                    cs[k],
                ),
    decreases cs.len(),
{
    if cs.len() > 0 {
        let t = cs.drop_last();
        lemma_chosen_directories_cover(t);
        lemma_chosen_are_identify_files(t);
        let r = chosen_identify_files(t);
        let c = chosen_identify_files(cs);
        assert forall|k: int| 0 <= k < cs.len() && is_identify_json_name(name_or_empty(#[trigger] cs[k])) && parent_of(cs[k]) is Some
            implies exists|a: int| 0 <= a < c.len() && parent_of(cs[c[a]]) == parent_of(cs[k]) by {
            if k < t.len() {
                assert(cs[k] == t[k]);
                let a = choose|a: int| 0 <= a < r.len() && parent_of(t[r[a]]) == parent_of(t[k]);
                assert(c[a] == r[a]);
                assert(cs[r[a]] == t[r[a]]);
            } else {
                if exists|j: int| 0 <= j < r.len() && parent_of(cs[#[trigger] r[j]]) == parent_of(cs[k]) {
                    let j = choose|j: int| 0 <= j < r.len() && parent_of(cs[#[trigger] r[j]]) == parent_of(cs[k]);
                    assert(c[j] == r[j]);
                } else {
                    assert(c[r.len() as int] == k);
                }
            }
        }
    }
}

} // verus!
