//! The schema script: its statement blocks, and the drop that precedes each
//! `CREATE` so that applying the schema starts from a clean slate.
//!
//! A script is a sequence of blocks, each introduced by `-- statement: `,
//! whose first line names the statement and whose remaining lines hold its SQL.

use vstd::prelude::*;
use vstd::string::*;
use crate::text::{
    chars_of, has_prefix, matches_at, occurs_at, push_char, string_of_range, trim, trim_bounds,
    trim_start, trim_start_bound,
};

verus! {

/// Whether `c` is ASCII whitespace (`char::is_ascii_whitespace`): space, tab,
/// line feed, form feed or carriage return.
pub open spec fn is_ascii_white(c: char) -> bool {
    c == ' ' || c == '\t' || c == '\n' || c == '\x0C' || c == '\r'
}

/// The index of the first `]` in `s`, if any.
pub open spec fn first_close_bracket(s: Seq<char>) -> Option<nat>
    decreases s.len(),
{
    if s.len() == 0 {
        None
    } else if s[0] == ']' {
        Some(0)
    } else {
        match first_close_bracket(s.drop_first()) {
            Some(i) => Some(i + 1),
            None => None,
        }
    }
}

/// The length of the name at the start of `s`: up to the first ASCII
/// whitespace or `(`, or all of `s`.
pub open spec fn plain_name_len(s: Seq<char>) -> nat
    decreases s.len(),
{
    if s.len() == 0 || is_ascii_white(s[0]) || s[0] == '(' {
        0
    } else {
        plain_name_len(s.drop_first()) + 1
    }
}

/// The object name that follows `prefix` at the start of `sql`: a bracketed
/// name with its brackets, or a plain name; `None` when `sql` does not start
/// with `prefix` or a bracket is never closed.
pub open spec fn name_after(sql: Seq<char>, prefix: Seq<char>) -> Option<Seq<char>> {
    if !has_prefix(sql, prefix) {
        None
    } else {
        let rest = sql.skip(prefix.len() as int);
        if rest.len() > 0 && rest[0] == '[' {
            match first_close_bracket(rest.drop_first()) {
                Some(e) => Some(rest.take(e + 2int)),
                None => None,
            }
        } else {
            Some(rest.take(plain_name_len(rest) as int))
        }
    }
}

/// The length that `plain_name_len` gives is that of the longest prefix
/// holding neither ASCII whitespace nor `(`.
proof fn lemma_plain_name_len(s: Seq<char>)
    ensures
        plain_name_len(s) <= s.len(),
        forall|i: int|
            0 <= i < plain_name_len(s) ==> !(s[i] == ' ' || s[i] == '\t' || s[i] == '\n' || s[i] == '\x0C'
                || s[i] == '\r' || s[i] == '('),
        plain_name_len(s) == s.len() || {
            let c = s[plain_name_len(s) as int];
            c == ' ' || c == '\t' || c == '\n' || c == '\x0C' || c == '\r' || c == '('
        },
    decreases s.len(),
{
    if s.len() > 0 && !(is_ascii_white(s[0]) || s[0] == '(') {
        lemma_plain_name_len(s.drop_first());
        assert forall|i: int| 0 < i < plain_name_len(s) implies s[i] == s.drop_first()[i - 1] by {}
    }
}

/// The position of the first `]` is that of a `]` with none before it.
proof fn lemma_first_close_bracket(s: Seq<char>)
    ensures
        match first_close_bracket(s) {
            Some(e) => e < s.len() && s[e as int] == ']' && forall|i: int| 0 <= i < e ==> s[i] != ']',
            None => forall|i: int| 0 <= i < s.len() ==> s[i] != ']',
        },
    decreases s.len(),
{
    if s.len() > 0 && s[0] != ']' {
        lemma_first_close_bracket(s.drop_first());
        assert forall|i: int| 0 < i < s.len() implies s[i] == s.drop_first()[i - 1] by {}
    }
}

/// The name after a prefix. When `sql` does not start with `prefix` there is
/// none. After the prefix, a name that opens with `[` runs through the first
/// `]` (none when there is no `]`); any other name is the longest run of
/// characters that are neither ASCII whitespace nor `(`, so that it is
/// followed by the end of the text, such whitespace or `(`.
pub proof fn lemma_name_after(sql: Seq<char>, prefix: Seq<char>)
    ensures
        !(prefix.len() <= sql.len() && sql.take(prefix.len() as int) == prefix) ==> name_after(sql, prefix) is None,
        (prefix.len() <= sql.len() && sql.take(prefix.len() as int) == prefix) ==> {
            let rest = sql.skip(prefix.len() as int);
            if rest.len() > 0 && rest[0] == '[' {
                match name_after(sql, prefix) {
                    Some(name) => {
                        &&& 2 <= name.len() <= rest.len()
                        &&& name == rest.take(name.len() as int)
                        &&& name[name.len() - 1] == ']'
                        &&& forall|i: int| 0 <= i < name.len() - 1 ==> name[i] != ']'
                    },
                    None => forall|i: int| 0 <= i < rest.len() ==> rest[i] != ']',
                }
            } else {
                name_after(sql, prefix) matches Some(name) && {
                    &&& name.len() <= rest.len()
                    &&& name == rest.take(name.len() as int)
                    &&& forall|i: int|
                        0 <= i < name.len() ==> !(name[i] == ' ' || name[i] == '\t' || name[i] == '\n' || name[i]
                            == '\x0C' || name[i] == '\r' || name[i] == '(')
                    &&& (name.len() == rest.len() || {
                        let c = rest[name.len() as int];
                        c == ' ' || c == '\t' || c == '\n' || c == '\x0C' || c == '\r' || c == '('
                    })
                }
            }
        },
{
    let rest = sql.skip(prefix.len() as int);
    if prefix.len() <= sql.len() && sql.take(prefix.len() as int) == prefix {
        if rest.len() > 0 && rest[0] == '[' {
            lemma_first_close_bracket(rest.drop_first());
            if let Some(e) = first_close_bracket(rest.drop_first()) {
                let name = rest.take(e + 2int);
                assert(name[name.len() - 1] == rest.drop_first()[e as int]);
                assert forall|i: int| 0 <= i < name.len() - 1 implies name[i] != ']' by {
                    if i > 0 {
                        assert(name[i] == rest.drop_first()[i - 1]);
                    }
                }
            } else {
                assert forall|i: int| 0 <= i < rest.len() implies rest[i] != ']' by {
                    if i > 0 {
                        assert(rest[i] == rest.drop_first()[i - 1]);
                    }
                }
            }
        } else {
            lemma_plain_name_len(rest);
        }
    }
}

/// The name of the object that `sql` creates after `prefix`.
pub fn extract_name<'a>(sql: &'a str, prefix: &str) -> (r: Option<&'a str>)
    ensures
        match r {
            Some(name) => name_after(sql@, prefix@) == Some(name@),
            None => name_after(sql@, prefix@) is None,
        },
{
    let v = chars_of(sql);
    let p = chars_of(prefix);
    if !matches_at(v.as_slice(), 0, p.as_slice()) {
        return None;
    }
    assert(v@.subrange(0, p@.len() as int) == v@.take(p@.len() as int));
    let start = p.len();
    let ghost rest = v@.skip(start as int);
    if start < v.len() && v[start] == '[' {
        let mut j = start + 1;
        proof {
            assert(rest.drop_first() =~= v@.skip(j as int));
        }
        while j < v.len() && v[j] != ']'
            invariant
                start < j <= v@.len(),
                rest == v@.skip(start as int),
                first_close_bracket(rest.drop_first()) matches Some(e) ==> first_close_bracket(v@.skip(j as int))
                    == Some((e - (j - start - 1)) as nat) && e >= j - start - 1,
                first_close_bracket(rest.drop_first()) is None ==> first_close_bracket(v@.skip(j as int)) is None,
            decreases v@.len() - j,
        {
            proof {
                assert(v@.skip(j as int).drop_first() =~= v@.skip(j + 1));
            }
            j += 1;
        }
        if j == v.len() {
            proof {
                assert(v@.skip(j as int).len() == 0);
            }
            return None;
        }
        proof {
            assert(v@.skip(j as int)[0] == ']');
            assert(rest.take(j - start + 1) =~= v@.subrange(start as int, j + 1));
        }
        Some(sql.substring_char(start, j + 1))
    } else {
        let mut j = start;
        assert(v@.skip(j as int) == rest);
        while j < v.len() && !(v[j] == ' ' || v[j] == '\t' || v[j] == '\n' || v[j] == '\x0C' || v[j] == '\r'
            || v[j] == '(')
            invariant
                start <= j <= v@.len(),
                rest == v@.skip(start as int),
                plain_name_len(rest) == plain_name_len(v@.skip(j as int)) + (j - start),
            decreases v@.len() - j,
        {
            proof {
                assert(v@.skip(j as int).drop_first() =~= v@.skip(j + 1));
            }
            j += 1;
        }
        proof {
            assert(plain_name_len(v@.skip(j as int)) == 0);
            assert(rest.take(j - start) =~= v@.subrange(start as int, j as int));
        }
        Some(sql.substring_char(start, j))
    }
}

/// `sql`, start-trimmed, preceded by a drop of the table, view or index that
/// it creates, if it creates one.
pub open spec fn with_drop(sql: Seq<char>) -> Seq<char> {
    let t = trim_start(sql);
    match name_after(t, "CREATE TABLE "@) {
        Some(name) => "DROP TABLE IF EXISTS "@ + name + ";\n"@ + t,
        None => match name_after(t, "CREATE VIEW "@) {
            Some(name) => "DROP VIEW IF EXISTS "@ + name + ";\n"@ + t,
            None => match name_after(t, "CREATE INDEX "@) {
                Some(name) => "DROP INDEX IF EXISTS "@ + name + ";\n"@ + t,
                None => t,
            },
        },
    }
}

/// The start-trimmed statement, preceded by a drop of what it creates.
pub fn wrap_with_drop_if_exists(sql: &str) -> (r: String)
    ensures
        r@ == with_drop(sql@),
{
    let v = chars_of(sql);
    let a = trim_start_bound(v.as_slice(), 0, v.len());
    assert(v@.subrange(0, v@.len() as int) =~= v@);
    let trimmed_owned = string_of_range(v.as_slice(), a, v.len());
    let trimmed = trimmed_owned.as_str();
    if let Some(name) = extract_name(trimmed, "CREATE TABLE ") {
        return dropped("DROP TABLE IF EXISTS ", name, trimmed);
    }
    if let Some(name) = extract_name(trimmed, "CREATE VIEW ") {
        return dropped("DROP VIEW IF EXISTS ", name, trimmed);
    }
    if let Some(name) = extract_name(trimmed, "CREATE INDEX ") {
        return dropped("DROP INDEX IF EXISTS ", name, trimmed);
    }
    trimmed_owned
}

/// `head`, the name, `;`, a line feed, then the statement.
fn dropped(head: &str, name: &str, statement: &str) -> (r: String)
    ensures
        r@ == head@ + name@ + ";\n"@ + statement@,
{
    let mut r = String::from_str(head);
    r.append(name);
    r.append(";\n");
    r.append(statement);
    r
}

/// The index of the first occurrence of `p` in `s`, if any.
pub open spec fn first_occurrence(s: Seq<char>, p: Seq<char>) -> Option<nat>
    decreases s.len(),
{
    if s.len() < p.len() {
        None
    } else if occurs_at(s, p, 0) {
        Some(0)
    } else if s.len() == 0 {
        None
    } else {
        match first_occurrence(s.drop_first(), p) {
            Some(i) => Some(i + 1),
            None => None,
        }
    }
}

/// A first occurrence is an occurrence.
pub proof fn lemma_first_occurrence(s: Seq<char>, p: Seq<char>)
    ensures
        first_occurrence(s, p) matches Some(i) ==> occurs_at(s, p, i as int) && i + p.len() <= s.len(),
    decreases s.len(),
{
    if s.len() >= p.len() && !occurs_at(s, p, 0) && s.len() > 0 {
        lemma_first_occurrence(s.drop_first(), p);
        if let Some(i) = first_occurrence(s.drop_first(), p) {
            assert(s.drop_first().subrange(i as int, i + p.len() as int) =~= s.subrange(i + 1 as int, i + 1 + p.len() as int));
        }
    }
}

/// The pieces of `s` between the occurrences of a non-empty `p`, found from
/// left to right without overlap (`str::split` with a string pattern).
pub open spec fn split_str(s: Seq<char>, p: Seq<char>) -> Seq<Seq<char>>
    decreases s.len(),
{
    if p.len() == 0 {
        seq![s]
    } else {
        match first_occurrence(s, p) {
            None => seq![s],
            Some(i) => {
                proof {
                    lemma_first_occurrence(s, p);
                }
                seq![s.take(i as int)] + split_str(s.skip(i as int + p.len() as int), p)
            },
        }
    }
}

/// The index of the first line feed in `s`, if any.
pub open spec fn first_newline(s: Seq<char>) -> Option<nat> {
    first_occurrence(s, seq!['\n'])
}

/// The statement of one trimmed block: its trimmed first line as the name,
/// its trimmed rest, preceded by the drop of what it creates, as the SQL.
pub open spec fn block_statement(b: Seq<char>) -> (Seq<char>, Seq<char>) {
    let k = first_newline(b)->Some_0;
    (trim(b.take(k as int)), with_drop(trim(b.skip(k as int + 1))))
}

/// The statements of the blocks, in order; blocks that trim to nothing are skipped.
pub open spec fn block_statements(blocks: Seq<Seq<char>>) -> Seq<(Seq<char>, Seq<char>)>
    decreases blocks.len(),
{
    if blocks.len() == 0 {
        Seq::empty()
    } else {
        let r = block_statements(blocks.drop_last());
        let b = trim(blocks.last());
        if b.len() == 0 {
            r
        } else {
            r.push(block_statement(b))
        }
    }
}

/// The marker that introduces each statement block.
pub open spec fn statement_marker() -> Seq<char> {
    "-- statement: "@
}

/// Whether every non-empty block of a script has a name line, ended by a
/// line feed.
pub open spec fn blocks_have_names(raw: Seq<char>) -> bool {
    forall|k: int|
        0 <= k < split_str(raw, statement_marker()).len() ==> (trim(
            #[trigger] split_str(raw, statement_marker())[k],
        ).len() > 0 ==> first_newline(trim(split_str(raw, statement_marker())[k])) is Some)
}

/// The first occurrence of `p` in `v[start..]`, as an index into `v`.
fn find_from(v: &[char], start: usize, p: &[char]) -> (r: Option<usize>)
    requires
        start <= v@.len(),
        p@.len() > 0,
    ensures
        match r {
            Some(k) => start <= k && first_occurrence(v@.skip(start as int), p@) == Some((k - start) as nat),
            None => first_occurrence(v@.skip(start as int), p@) is None,
        },
{
    let mut i = start;
    while i < v.len()
        invariant
            start <= i <= v@.len(),
            p@.len() > 0,
            first_occurrence(v@.skip(start as int), p@) == match first_occurrence(v@.skip(i as int), p@) {
                Some(x) => Some((x + i - start) as nat),
                None => None::<nat>,
            },
        decreases v@.len() - i,
    {
        let found = matches_at(v, i, p);
        proof {
            let t = v@.skip(i as int);
            if t.len() >= p@.len() {
                assert(t.subrange(0, p@.len() as int) =~= v@.subrange(i as int, i + p@.len()));
            }
            assert(t.drop_first() =~= v@.skip(i + 1));
        }
        if found {
            return Some(i);
        }
        i += 1;
    }
    None
}

/// The ranges of the pieces of `v` between occurrences of `p`.
fn split_str_ranges(v: &[char], p: &[char]) -> (r: Vec<(usize, usize)>)
    requires
        p@.len() > 0,
    ensures
        r@.len() == split_str(v@, p@).len(),
        forall|k: int|
            0 <= k < r@.len() ==> (#[trigger] r@[k]).0 <= r@[k].1 <= v@.len() && v@.subrange(
                r@[k].0 as int,
                r@[k].1 as int,
            ) == split_str(v@, p@)[k],
{
    let mut r: Vec<(usize, usize)> = Vec::new();
    let mut start: usize = 0;
    let ghost all = split_str(v@, p@);
    let vlen = v.len();
    assert(v@.skip(0) =~= v@);
    loop
        invariant
            vlen == v@.len(),
            start <= v@.len(),
            p@.len() > 0,
            all == split_str(v@, p@),
            all == Seq::new(r@.len() as nat, |k: int| v@.subrange(r@[k].0 as int, r@[k].1 as int)) + split_str(
                v@.skip(start as int),
                p@,
            ),
            forall|k: int| 0 <= k < r@.len() ==> (#[trigger] r@[k]).0 <= r@[k].1 <= v@.len(),
        decreases v@.len() - start,
    {
        let ghost t = v@.skip(start as int);
        let ghost before = Seq::new(r@.len() as nat, |k: int| v@.subrange(r@[k].0 as int, r@[k].1 as int));
        match find_from(v, start, p) {
            None => {
                r.push((start, v.len()));
                proof {
                    assert(split_str(t, p@) == seq![t]);
                    assert(t =~= v@.subrange(start as int, v@.len() as int));
                    let now = Seq::new(r@.len() as nat, |k: int| v@.subrange(r@[k].0 as int, r@[k].1 as int));
                    assert(now =~= before.push(t));
                    assert(all =~= now);
                }
                return r;
            },
            Some(k) => {
                proof {
                    lemma_first_occurrence(t, p@);
                    assert((k - start) + p@.len() <= t.len());
                }
                r.push((start, k));
                let next = k + p.len();
                proof {
                    assert(t.take((k - start) as int) =~= v@.subrange(start as int, k as int));
                    assert(t.skip((k - start) + p@.len()) =~= v@.skip(next as int));
                    let now = Seq::new(r@.len() as nat, |j: int| v@.subrange(r@[j].0 as int, r@[j].1 as int));
                    assert(now =~= before.push(v@.subrange(start as int, k as int)));
                    assert(all =~= now + split_str(v@.skip(next as int), p@));
                }
                start = next;
            },
        }
    }
}

/// The name and the SQL of each statement of a schema script, in order.
pub fn parse_statements(raw: &str) -> (r: Vec<(String, String)>)
    requires
        blocks_have_names(raw@),
    ensures
        r@.len() == block_statements(split_str(raw@, statement_marker())).len(),
        forall|k: int|
            0 <= k < r@.len() ==> (#[trigger] r@[k]).0@ == block_statements(
                split_str(raw@, statement_marker()),
            )[k].0 && r@[k].1@ == block_statements(split_str(raw@, statement_marker()))[k].1,
{
    let v = chars_of(raw);
    let marker = chars_of("-- statement: ");
    proof {
        reveal_strlit("-- statement: ");
    }
    let ranges = split_str_ranges(v.as_slice(), marker.as_slice());
    let ghost blocks = split_str(raw@, statement_marker());
    let newline: Vec<char> = vec!['\n'];
    let mut out: Vec<(String, String)> = Vec::new();
    let mut i: usize = 0;
    assert(blocks.take(0) =~= Seq::<Seq<char>>::empty());
    while i < ranges.len()
        invariant
            i <= ranges@.len(),
            ranges@.len() == blocks.len(),
            blocks == split_str(raw@, statement_marker()),
            blocks_have_names(raw@),
            newline@ == seq!['\n'],
            forall|k: int|
                0 <= k < ranges@.len() ==> (#[trigger] ranges@[k]).0 <= ranges@[k].1 <= v@.len() && v@.subrange(
                    ranges@[k].0 as int,
                    ranges@[k].1 as int,
                ) == blocks[k],
            out@.len() == block_statements(blocks.take(i as int)).len(),
            forall|k: int|
                0 <= k < out@.len() ==> (#[trigger] out@[k]).0@ == block_statements(blocks.take(i as int))[k].0
                    && out@[k].1@ == block_statements(blocks.take(i as int))[k].1,
        decreases ranges@.len() - i,
    {
        proof {
            assert(blocks.take(i + 1).drop_last() =~= blocks.take(i as int));
            assert(blocks.take(i + 1).last() == blocks[i as int]);
        }
        let (lo, hi) = ranges[i];
        let (a, b) = trim_bounds(v.as_slice(), lo, hi);
        if a < b {
            let ghost blk = v@.subrange(a as int, b as int);
            assert(blk == trim(blocks[i as int]));
            assert(first_newline(blk) is Some);
            let nl = find_from(v.as_slice(), a, newline.as_slice());
            let k = match nl {
                Some(k) => k,
                None => {
                    proof {
                        assert(v@.skip(a as int).subrange(0, (b - a) as int) =~= blk);
                        assert(false) by {
                            let e = first_newline(blk)->Some_0;
                            lemma_first_occurrence(blk, seq!['\n']);
                            lemma_first_occurrence_extends(blk, v@.skip(a as int), seq!['\n']);
                        }
                    }
                    return out;
                },
            };
            proof {
                assert(v@.skip(a as int).subrange(0, (b - a) as int) =~= blk);
                lemma_first_occurrence_extends(blk, v@.skip(a as int), seq!['\n']);
                lemma_first_occurrence(blk, seq!['\n']);
            }
            let (na, nb) = trim_bounds(v.as_slice(), a, k);
            let name = string_of_range(v.as_slice(), na, nb);
            let (sa, sb) = trim_bounds(v.as_slice(), k + 1, b);
            let sql_text = string_of_range(v.as_slice(), sa, sb);
            let sql = wrap_with_drop_if_exists(sql_text.as_str());
            proof {
                let e = (k - a) as int;
                assert(blk.take(e) =~= v@.subrange(a as int, k as int));
                assert(blk.skip(e + 1) =~= v@.subrange(k + 1, b as int));
            }
            out.push((name, sql));
        }
        i += 1;
    }
    assert(blocks.take(i as int) =~= blocks);
    out
}

/// A first occurrence inside a prefix of a longer sequence is also the first
/// occurrence in the longer one.
proof fn lemma_first_occurrence_extends(s: Seq<char>, t: Seq<char>, p: Seq<char>)
    requires
        s.len() <= t.len(),
        t.subrange(0, s.len() as int) == s,
    ensures
        first_occurrence(s, p) matches Some(i) ==> first_occurrence(t, p) == Some(i),
    decreases s.len(),
{
    if s.len() >= p.len() {
        if occurs_at(s, p, 0) {
            assert(t.subrange(0, p.len() as int) =~= s.subrange(0, p.len() as int));
        } else {
            assert(!occurs_at(t, p, 0)) by {
                assert(t.subrange(0, p.len() as int) =~= s.subrange(0, p.len() as int));
            }
            if s.len() > 0 {
                assert(t.drop_first().subrange(0, s.drop_first().len() as int) =~= s.drop_first());
                lemma_first_occurrence_extends(s.drop_first(), t.drop_first(), p);
            }
        }
    }
}

/// A line feed occurs in `s` exactly when it has a first one.
proof fn lemma_first_newline_exists(s: Seq<char>)
    ensures
        first_newline(s) is Some <==> exists|i: int| 0 <= i < s.len() && s[i] == '\n',
    decreases s.len(),
{
    if s.len() > 0 {
        lemma_first_newline_exists(s.drop_first());
        if occurs_at(s, seq!['\n'], 0) {
            assert(s.subrange(0, 1)[0] == s[0]);
        } else {
            assert(s[0] != '\n') by {
                if s[0] == '\n' {
                    assert(s.subrange(0, 1) =~= seq!['\n']);
                }
            }
            if exists|i: int| 0 <= i < s.len() && s[i] == '\n' {
                let i = choose|i: int| 0 <= i < s.len() && s[i] == '\n';
                assert(s.drop_first()[i - 1] == '\n');
            }
            if exists|i: int| 0 <= i < s.drop_first().len() && s.drop_first()[i] == '\n' {
                let i = choose|i: int| 0 <= i < s.drop_first().len() && s.drop_first()[i] == '\n';
                assert(s[i + 1] == '\n');
            }
        }
    }
}

/// Whether a line feed occurs in `v[a..b]`.
fn has_newline(v: &[char], a: usize, b: usize) -> (r: bool)
    requires
        a <= b <= v@.len(),
    ensures
        r == (first_newline(v@.subrange(a as int, b as int)) is Some),
{
    let ghost s = v@.subrange(a as int, b as int);
    let mut i = a;
    while i < b
        invariant
            a <= i <= b <= v@.len(),
            s == v@.subrange(a as int, b as int),
            forall|k: int| 0 <= k < i - a ==> s[k] != '\n',
        decreases b - i,
    {
        if v[i] == '\n' {
            proof {
                assert(s[i - a] == '\n');
                lemma_first_newline_exists(s);
            }
            return true;
        }
        i += 1;
    }
    proof {
        lemma_first_newline_exists(s);
    }
    false
}

/// Whether every non-empty block of a schema script starts with a name line,
/// as `statements` needs.
pub fn schema_blocks_named(raw: &str) -> (r: bool)
    ensures
        r == blocks_have_names(raw@),
{
    let v = chars_of(raw);
    let marker = chars_of("-- statement: ");
    proof {
        reveal_strlit("-- statement: ");
    }
    let ranges = split_str_ranges(v.as_slice(), marker.as_slice());
    let ghost blocks = split_str(raw@, statement_marker());
    let mut i: usize = 0;
    while i < ranges.len()
        invariant
            i <= ranges@.len(),
            ranges@.len() == blocks.len(),
            blocks == split_str(raw@, statement_marker()),
            forall|k: int|
                0 <= k < ranges@.len() ==> (#[trigger] ranges@[k]).0 <= ranges@[k].1 <= v@.len() && v@.subrange(
                    ranges@[k].0 as int,
                    ranges@[k].1 as int,
                ) == blocks[k],
            forall|k: int|
                0 <= k < i ==> (trim(#[trigger] blocks[k]).len() > 0 ==> first_newline(trim(blocks[k])) is Some),
        decreases ranges@.len() - i,
    {
        let (lo, hi) = ranges[i];
        let (a, b) = trim_bounds(v.as_slice(), lo, hi);
        if a < b && !has_newline(v.as_slice(), a, b) {
            assert(v@.subrange(a as int, b as int) == trim(blocks[i as int]));
            assert(!blocks_have_names(raw@));
            return false;
        }
        proof {
            assert(v@.subrange(a as int, b as int) == trim(blocks[i as int]));
        }
        i += 1;
    }
    true
}

/// The statements of a schema script, in the order they are applied.
pub fn statements(raw_schema: &str) -> (r: Vec<(String, String)>)
    requires
        blocks_have_names(raw_schema@),
    ensures
        r@.len() == block_statements(split_str(raw_schema@, statement_marker())).len(),
        forall|k: int|
            0 <= k < r@.len() ==> (#[trigger] r@[k]).0@ == block_statements(
                split_str(raw_schema@, statement_marker()),
            )[k].0 && r@[k].1@ == block_statements(split_str(raw_schema@, statement_marker()))[k].1,
{
    parse_statements(raw_schema)
}

/// The wrapped statement ends with the statement itself, start-trimmed.
pub proof fn lemma_with_drop_ends_with_statement(sql: Seq<char>)
    ensures
        with_drop(sql).len() >= trim_start(sql).len(),
        with_drop(sql).skip(with_drop(sql).len() - trim_start(sql).len()) == trim_start(sql),
{
    let t = trim_start(sql);
    let w = with_drop(sql);
    assert(w.skip(w.len() - t.len()) =~= t);
}

} // verus!
