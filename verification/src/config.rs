//! The application's configuration: the input roots and the database path,
//! each resolved against the working directory when relative.

use vstd::prelude::*;
use vstd::string::*;
use crate::paths::slice_bytes;
use crate::text::{chars_of, has_prefix, matches_at};
use vstd::utf8::encode_utf8;

verus! {

/// The input roots and the database path, each as the bytes of a path.
pub struct AppConfig {
    /// Root directory of the CSV files.
    pub root_csv_dir: Vec<u8>,
    /// Root directory of the JSON files.
    pub root_json_dir: Vec<u8>,
    /// Root directory (or single file) of the text files.
    pub root_text_dir: Vec<u8>,
    /// Path of the database file.
    pub database_path: Vec<u8>,
}

/// Whether a Unix path is absolute: it starts at the root.
pub open spec fn is_absolute(p: Seq<u8>) -> bool {
    p.len() > 0 && p[0] == 0x2Fu8
}

/// `base` joined with `path` (`Path::join` on Unix): an absolute `path`
/// replaces `base`; otherwise a separator is put between them unless `base`
/// is empty or already ends with one.
pub open spec fn joined(base: Seq<u8>, path: Seq<u8>) -> Seq<u8> {
    if is_absolute(path) {
        path
    } else if base.len() > 0 && base.last() != 0x2Fu8 {
        base + seq![0x2Fu8] + path
    } else {
        base + path
    }
}

/// Whether a path is absolute.
pub fn is_absolute_path(path: &[u8]) -> (r: bool)
    ensures
        r == is_absolute(path@),
{
    path.len() > 0 && path[0] == 0x2Fu8
}

/// A configured path (the text of a variable) resolved against the working
/// directory: kept when absolute, joined to `current_dir` otherwise; the
/// caller reads the working directory.
pub fn resolve_path(value: &str, current_dir: &[u8]) -> (r: Vec<u8>)
    ensures
        r@ == joined(current_dir@, encode_utf8(value@)),
{
    let v = value.as_bytes();
    if is_absolute_path(v) {
        return slice_bytes(v, 0, v.len());
    }
    let mut r = slice_bytes(current_dir, 0, current_dir.len());
    let n = current_dir.len();
    if n > 0 && current_dir[n - 1] != 0x2Fu8 {
        r.push(0x2Fu8);
    }
    let ghost head = r@;
    let mut i: usize = 0;
    while i < v.len()
        invariant
            i <= v@.len(),
            r@ == head + v@.subrange(0, i as int),
        decreases v@.len() - i,
    {
        r.push(v[i]);
        i += 1;
        assert(r@ =~= head + v@.subrange(0, i as int));
    }
    assert(v@.subrange(0, v@.len() as int) =~= v@);
    proof {
        assert(current_dir@.subrange(0, current_dir@.len() as int) =~= current_dir@);
        if n > 0 && current_dir@[n - 1] != 0x2Fu8 {
            assert(head =~= current_dir@ + seq![0x2Fu8]);
        }
    }
    r
}

/// The result of reading one environment variable.
pub enum EnvLookup {
    /// The variable holds this value.
    Value(String),
    /// The variable is not set.
    NotPresent,
    /// The variable is set but is not valid Unicode.
    NotUnicode,
}

/// The outcome of looking up optional variables in order: the first value
/// that is not the empty string, none, or the index of the first variable
/// that cannot be read before such a value.
pub open spec fn optional_value(lookups: Seq<EnvLookup>) -> Result<Option<Seq<char>>, nat>
    decreases lookups.len(),
{
    if lookups.len() == 0 {
        Ok(None)
    } else {
        match lookups[0] {
            EnvLookup::Value(v) => if v@.len() > 0 {
                Ok(Some(v@))
            } else {
                match optional_value(lookups.drop_first()) {
                    Ok(r) => Ok(r),
                    Err(i) => Err(i + 1),
                }
            },
            EnvLookup::NotPresent => match optional_value(lookups.drop_first()) {
                Ok(r) => Ok(r),
                Err(i) => Err(i + 1),
            },
            EnvLookup::NotUnicode => Err(0),
        }
    }
}

/// The first value other than the empty string among optional variables,
/// looked up in order; `Err(i)` names the variable that could not be read.
pub fn select_optional_env(lookups: &[EnvLookup]) -> (r: Result<Option<String>, usize>)
    ensures
        match r {
            Ok(Some(v)) => optional_value(lookups@) == Ok::<_, nat>(Some(v@)),
            Ok(None) => optional_value(lookups@) == Ok::<_, nat>(None::<Seq<char>>),
            Err(i) => optional_value(lookups@) == Err::<Option<Seq<char>>, _>(i as nat),
        },
{
    let mut i: usize = 0;
    assert(lookups@.skip(0) =~= lookups@);
    while i < lookups.len()
        invariant
            i <= lookups@.len(),
            optional_value(lookups@) == match optional_value(lookups@.skip(i as int)) {
                Ok(r) => Ok(r),
                Err(k) => Err((k + i) as nat),
            },
        decreases lookups@.len() - i,
    {
        proof {
            assert(lookups@.skip(i as int)[0] == lookups@[i as int]);
            assert(lookups@.skip(i as int).drop_first() =~= lookups@.skip(i + 1));
        }
        match &lookups[i] {
            EnvLookup::Value(v) => {
                if v.as_str().unicode_len() > 0 {
                    return Ok(Some(v.clone()));
                }
            },
            EnvLookup::NotPresent => {},
            EnvLookup::NotUnicode => {
                return Err(i);
            },
        }
        i += 1;
    }
    Ok(None)
}

/// Whether an environment variable is one of the application's settings:
/// its name starts with `APP_`.
pub fn is_app_key(key: &str) -> (r: bool)
    ensures
        r == has_prefix(key@, "APP_"@),
{
    let v = chars_of(key);
    let p = chars_of("APP_");
    let r = matches_at(v.as_slice(), 0, p.as_slice());
    proof {
        if p@.len() <= v@.len() {
            assert(v@.subrange(0, p@.len() as int) =~= v@.take(p@.len() as int));
        }
    }
    r
}

/// The value of a variable, or `default` when it is not set or not Unicode
/// (`unwrap_or` on the lookup).
pub fn value_or(lookup: EnvLookup, default: &str) -> (r: String)
    ensures
        r@ == match lookup {
            EnvLookup::Value(v) => v@,
            _ => default@,
        },
{
    match lookup {
        EnvLookup::Value(v) => v,
        _ => default.to_owned(),
    }
}

/// Resolving against an absolute working directory gives an absolute path.
pub proof fn lemma_resolved_is_absolute(base: Seq<u8>, value: Seq<u8>)
    requires
        is_absolute(base),
    ensures
        is_absolute(joined(base, value)),
{
}

} // verus!
