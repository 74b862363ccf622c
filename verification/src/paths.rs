//! Unix path structure as `std::path::Path` sees it: components, the order
//! of paths, file names and parents.
//!
//! A path is its bytes, as Unix stores it. A component is a tag and a name:
//! `0` the root directory, `1` a leading `.`, `2` a `..`, `3` a normal name
//! (the name is empty for the first three). Paths compare by their component
//! sequences, component by component, and components first by tag, then by
//! the bytes of the name.

use vstd::prelude::*;
use crate::text::{lemma_split_on_nonempty, split_on};

verus! {

/// Tag of the root directory component.
pub const ROOT_DIR: u8 = 0;
/// Tag of a leading `.` component.
pub const CUR_DIR: u8 = 1;
/// Tag of a `..` component.
pub const PARENT_DIR: u8 = 2;
/// Tag of a normal name component.
pub const NORMAL: u8 = 3;

/// The components that the pieces between separators give, once empty
/// pieces and `.` pieces are dropped.
pub open spec fn normal_parts(pieces: Seq<Seq<u8>>) -> Seq<(u8, Seq<u8>)>
    decreases pieces.len(),
{
    if pieces.len() == 0 {
        Seq::empty()
    } else {
        let rest = normal_parts(pieces.drop_last());
        let p = pieces.last();
        if p.len() == 0 || p == seq![0x2Eu8] {
            rest
        } else if p == seq![0x2Eu8, 0x2Eu8] {
            rest.push((PARENT_DIR, Seq::<u8>::empty()))
        } else {
            rest.push((NORMAL, p))
        }
    }
}

/// The components of a path (`Path::components` on Unix).
pub open spec fn path_components(s: Seq<u8>) -> Seq<(u8, Seq<u8>)> {
    let pieces = split_on(s, 0x2Fu8);
    if s.len() > 0 && s[0] == 0x2Fu8 {
        seq![(ROOT_DIR, Seq::<u8>::empty())] + normal_parts(pieces.drop_first())
    } else if pieces[0] == seq![0x2Eu8] {
        seq![(CUR_DIR, Seq::<u8>::empty())] + normal_parts(pieces.drop_first())
    } else {
        normal_parts(pieces)
    }
}

/// Strict lexicographic order of byte sequences.
pub open spec fn bytes_lt(a: Seq<u8>, b: Seq<u8>) -> bool
    decreases a.len(),
{
    if a.len() == 0 {
        b.len() > 0
    } else if b.len() == 0 {
        false
    } else if a[0] < b[0] {
        true
    } else if a[0] == b[0] {
        bytes_lt(a.drop_first(), b.drop_first())
    } else {
        false
    }
}

/// Strict order of components: by tag, then by name.
pub open spec fn component_lt(a: (u8, Seq<u8>), b: (u8, Seq<u8>)) -> bool {
    a.0 < b.0 || (a.0 == b.0 && bytes_lt(a.1, b.1))
}

/// Strict lexicographic order of component sequences.
pub open spec fn components_lt(a: Seq<(u8, Seq<u8>)>, b: Seq<(u8, Seq<u8>)>) -> bool
    decreases a.len(),
{
    if a.len() == 0 {
        b.len() > 0
    } else if b.len() == 0 {
        false
    } else if component_lt(a[0], b[0]) {
        true
    } else if a[0] == b[0] {
        components_lt(a.drop_first(), b.drop_first())
    } else {
        false
    }
}

/// `bytes_lt` is irreflexive.
pub proof fn lemma_bytes_lt_irreflexive(a: Seq<u8>)
    ensures
        !bytes_lt(a, a),
    decreases a.len(),
{
    if a.len() > 0 {
        lemma_bytes_lt_irreflexive(a.drop_first());
    }
}

/// Of two different byte sequences, one is below the other, and never both.
pub proof fn lemma_bytes_lt_total(a: Seq<u8>, b: Seq<u8>)
    ensures
        bytes_lt(a, b) || bytes_lt(b, a) || a == b,
        !(bytes_lt(a, b) && bytes_lt(b, a)),
    decreases a.len(),
{
    if a.len() > 0 && b.len() > 0 {
        lemma_bytes_lt_total(a.drop_first(), b.drop_first());
        if a[0] == b[0] && a.drop_first() == b.drop_first() {
            assert(a =~= seq![a[0]] + a.drop_first());
            assert(b =~= seq![b[0]] + b.drop_first());
        }
    }
    if a.len() == 0 && b.len() == 0 {
        assert(a =~= b);
    }
}

/// `bytes_lt` is transitive.
pub proof fn lemma_bytes_lt_transitive(a: Seq<u8>, b: Seq<u8>, c: Seq<u8>)
    requires
        bytes_lt(a, b),
        bytes_lt(b, c),
    ensures
        bytes_lt(a, c),
    decreases a.len(),
{
    if a.len() > 0 && b.len() > 0 && c.len() > 0 {
        if a[0] == b[0] && b[0] == c[0] {
            lemma_bytes_lt_transitive(a.drop_first(), b.drop_first(), c.drop_first());
        }
    }
}

/// `components_lt` is irreflexive.
pub proof fn lemma_components_lt_irreflexive(a: Seq<(u8, Seq<u8>)>)
    ensures
        !components_lt(a, a),
    decreases a.len(),
{
    if a.len() > 0 {
        lemma_components_lt_irreflexive(a.drop_first());
        lemma_bytes_lt_irreflexive(a[0].1);
    }
}

/// Of two different component sequences, one is below the other, and never both.
pub proof fn lemma_components_lt_total(a: Seq<(u8, Seq<u8>)>, b: Seq<(u8, Seq<u8>)>)
    ensures
        components_lt(a, b) || components_lt(b, a) || a == b,
        !(components_lt(a, b) && components_lt(b, a)),
    decreases a.len(),
{
    if a.len() > 0 && b.len() > 0 {
        lemma_components_lt_total(a.drop_first(), b.drop_first());
        lemma_bytes_lt_total(a[0].1, b[0].1);
        if a[0] == b[0] && a.drop_first() == b.drop_first() {
            assert(a =~= seq![a[0]] + a.drop_first());
            assert(b =~= seq![b[0]] + b.drop_first());
        }
    }
    if a.len() == 0 && b.len() == 0 {
        assert(a =~= b);
    }
}

/// `components_lt` is transitive.
pub proof fn lemma_components_lt_transitive(
    a: Seq<(u8, Seq<u8>)>,
    b: Seq<(u8, Seq<u8>)>,
    c: Seq<(u8, Seq<u8>)>,
)
    requires
        components_lt(a, b),
        components_lt(b, c),
    ensures
        components_lt(a, c),
    decreases a.len(),
{
    if a.len() > 0 && b.len() > 0 && c.len() > 0 {
        if component_lt(a[0], b[0]) && component_lt(b[0], c[0]) && a[0].0 == c[0].0 {
            lemma_bytes_lt_transitive(a[0].1, b[0].1, c[0].1);
        }
        lemma_bytes_lt_irreflexive(a[0].1);
        if a[0] == b[0] && b[0] == c[0] {
            lemma_components_lt_transitive(a.drop_first(), b.drop_first(), c.drop_first());
        }
    }
}

/// The components of a path, each as its tag and its name's bytes.
pub fn components_of(path: &[u8]) -> (r: Vec<(u8, Vec<u8>)>)
    ensures
        r@.len() == path_components(path@).len(),
        forall|k: int|
            0 <= k < r@.len() ==> (#[trigger] r@[k]).0 == path_components(path@)[k].0 && r@[k].1@
                == path_components(path@)[k].1,
{
    let v = path;
    let pieces = split_path_ranges(v);
    let ghost sp = split_on(v@, 0x2Fu8);
    proof {
        lemma_split_on_nonempty(v@, 0x2Fu8);
    }
    let mut r: Vec<(u8, Vec<u8>)> = Vec::new();
    let first = pieces[0];
    let mut k: usize;
    if v.len() > 0 && v[0] == 0x2Fu8 {
        r.push((ROOT_DIR, Vec::new()));
        k = 1;
    } else if first.1 - first.0 == 1 && v[first.0] == 0x2Eu8 {
        proof {
            assert(sp[0] =~= seq![0x2Eu8]);
        }
        r.push((CUR_DIR, Vec::new()));
        k = 1;
    } else {
        proof {
            if sp[0] == seq![0x2Eu8] {
                assert(sp[0].len() == 1 && sp[0][0] == 0x2Eu8);
            }
        }
        k = 0;
    }
    let start = k;
    let ghost head = r@;
    let ghost pc = path_components(v@);
    proof {
        if start == 1 {
            assert(r@[0].1@ =~= Seq::<u8>::empty());
        }
    }
    proof {
        assert(sp.subrange(start as int, start as int) =~= Seq::<Seq<u8>>::empty());
    }
    while k < pieces.len()
        invariant
            start <= k <= pieces@.len(),
            pieces@.len() == sp.len(),
            start <= 1,
            sp == split_on(v@, 0x2Fu8),
            head.len() == start,
            pc == path_components(v@),
            start == 1 ==> head[0].0 == pc[0].0 && head[0].1@ == pc[0].1,
            start == 1 <==> (v@.len() > 0 && v@[0] == 0x2Fu8) || sp[0] == seq![0x2Eu8],
            start == 1 ==> pc == seq![pc[0]] + normal_parts(sp.drop_first()),
            start == 0 ==> pc == normal_parts(sp),
            forall|j: int|
                0 <= j < pieces@.len() ==> (#[trigger] pieces@[j]).0 <= pieces@[j].1 <= v@.len()
                    && v@.subrange(pieces@[j].0 as int, pieces@[j].1 as int) == sp[j],
            r@.len() == head.len() + normal_parts(sp.subrange(start as int, k as int)).len(),
            forall|j: int| 0 <= j < head.len() ==> #[trigger] r@[j] == head[j],
            forall|j: int|
                0 <= j < normal_parts(sp.subrange(start as int, k as int)).len() ==> (#[trigger] r@[head.len() + j]).0
                    == normal_parts(sp.subrange(start as int, k as int))[j].0 && r@[head.len() + j].1@
                    == normal_parts(sp.subrange(start as int, k as int))[j].1,
        decreases pieces@.len() - k,
    {
        let (a, b) = pieces[k];
        let ghost prev = normal_parts(sp.subrange(start as int, k as int));
        proof {
            assert(sp.subrange(start as int, k + 1).drop_last() == sp.subrange(start as int, k as int));
            assert(sp.subrange(start as int, k + 1).last() == sp[k as int]);
        }
        if b == a || (b - a == 1 && v[a] == 0x2Eu8) {
            proof {
                if b - a == 1 {
                    assert(sp[k as int] =~= seq![0x2Eu8]);
                }
            }
        } else if b - a == 2 && v[a] == 0x2Eu8 && v[a + 1] == 0x2Eu8 {
            proof {
                assert(sp[k as int] =~= seq![0x2Eu8, 0x2Eu8]);
                assert(sp[k as int] != seq![0x2Eu8]);
            }
            r.push((PARENT_DIR, Vec::new()));
            proof {
                assert(r@[r@.len() - 1].1@ =~= Seq::<u8>::empty());
            }
        } else {
            proof {
                if sp[k as int] == seq![0x2Eu8] {
                    assert(sp[k as int][0] == v@[a as int]);
                }
                if sp[k as int] == seq![0x2Eu8, 0x2Eu8] {
                    assert(sp[k as int][0] == v@[a as int]);
                    assert(sp[k as int][1] == v@[a + 1]);
                }
            }
            let name = slice_bytes(v, a, b);
            r.push((NORMAL, name));
        }
        k += 1;
    }
    proof {
        if start == 1 {
            assert(sp.subrange(1, sp.len() as int) == sp.drop_first());
            assert forall|k: int| 0 <= k < r@.len() implies (#[trigger] r@[k]).0 == pc[k].0 && r@[k].1@ == pc[k].1 by {
                if k > 0 {
                    assert(r@[1 + (k - 1)] == r@[k]);
                }
            }
        } else {
            assert(sp.subrange(0, sp.len() as int) == sp);
            assert forall|k: int| 0 <= k < r@.len() implies (#[trigger] r@[k]).0 == pc[k].0 && r@[k].1@ == pc[k].1 by {
                assert(r@[0 + k] == r@[k]);
            }
        }

    }
    r
}

/// The pieces of a path between its `/` separators, as index ranges.
fn split_path_ranges(v: &[u8]) -> (r: Vec<(usize, usize)>)
    ensures
        r@.len() == split_on(v@, 0x2Fu8).len(),
        forall|k: int|
            0 <= k < r@.len() ==> (#[trigger] r@[k]).0 <= r@[k].1 <= v@.len() && v@.subrange(
                r@[k].0 as int,
                r@[k].1 as int,
            ) == split_on(v@, 0x2Fu8)[k],
{
    let mut r: Vec<(usize, usize)> = Vec::new();
    let mut start: usize = 0;
    let mut i: usize = 0;
    while i < v.len()
        invariant
            start <= i <= v@.len(),
            r@.len() + 1 == split_on(v@.subrange(0, i as int), 0x2Fu8).len(),
            forall|k: int|
                0 <= k < r@.len() ==> (#[trigger] r@[k]).0 <= r@[k].1 <= i && v@.subrange(
                    r@[k].0 as int,
                    r@[k].1 as int,
                ) == split_on(v@.subrange(0, i as int), 0x2Fu8)[k],
            v@.subrange(start as int, i as int) == split_on(v@.subrange(0, i as int), 0x2Fu8).last(),
        decreases v@.len() - i,
    {
        proof {
            lemma_split_on_nonempty(v@.subrange(0, i as int), 0x2Fu8);
            assert(v@.subrange(0, i + 1).drop_last() == v@.subrange(0, i as int));
        }
        if v[i] == 0x2Fu8 {
            r.push((start, i));
            i += 1;
            start = i;
            proof {
                assert(v@.subrange(start as int, i as int) =~= Seq::<u8>::empty());
            }
        } else {
            i += 1;
            proof {
                assert(v@.subrange(start as int, i as int) =~= v@.subrange(start as int, i - 1).push(v@[i - 1]));
            }
        }
    }
    proof {
        lemma_split_on_nonempty(v@.subrange(0, i as int), 0x2Fu8);
        assert(v@.subrange(0, i as int) =~= v@);
    }
    r.push((start, i));
    r
}

/// The bytes `v[lo..hi]` as a vector.
pub fn slice_bytes(v: &[u8], lo: usize, hi: usize) -> (r: Vec<u8>)
    requires
        lo <= hi <= v@.len(),
    ensures
        r@ == v@.subrange(lo as int, hi as int),
{
    let mut r: Vec<u8> = Vec::new();
    let mut i = lo;
    while i < hi
        invariant
            lo <= i <= hi <= v@.len(),
            r@ == v@.subrange(lo as int, i as int),
        decreases hi - i,
    {
        r.push(v[i]);
        i += 1;
    }
    r
}

/// The characters `v[lo..hi]` as a vector.
pub fn slice_to_vec_range(v: &[char], lo: usize, hi: usize) -> (r: Vec<char>)
    requires
        lo <= hi <= v@.len(),
    ensures
        r@ == v@.subrange(lo as int, hi as int),
{
    let mut r: Vec<char> = Vec::new();
    let mut i = lo;
    while i < hi
        invariant
            lo <= i <= hi <= v@.len(),
            r@ == v@.subrange(lo as int, i as int),
        decreases hi - i,
    {
        r.push(v[i]);
        i += 1;
    }
    r
}

} // verus!

verus! {

/// The component sequence that a vector of (tag, bytes) pairs stands for.
pub open spec fn components_view(v: Seq<(u8, Vec<u8>)>) -> Seq<(u8, Seq<u8>)> {
    Seq::new(v.len(), |i: int| (v[i].0, v[i].1@))
}

/// The components of a path, as a vector that `components_view` maps to
/// `path_components`.
pub fn path_key(path: &[u8]) -> (r: Vec<(u8, Vec<u8>)>)
    ensures
        components_view(r@) == path_components(path@),
{
    let r = components_of(path);
    assert(components_view(r@) =~= path_components(path@));
    r
}

/// Whether `a` is strictly below `b` in byte order.
pub fn bytes_less(a: &[u8], b: &[u8]) -> (r: bool)
    ensures
        r == bytes_lt(a@, b@),
{
    let mut i: usize = 0;
    assert(a@.skip(0) == a@ && b@.skip(0) == b@);
    while i < a.len() && i < b.len() && a[i] == b[i]
        invariant
            i <= a@.len(),
            i <= b@.len(),
            bytes_lt(a@, b@) == bytes_lt(a@.skip(i as int), b@.skip(i as int)),
        decreases a@.len() - i,
    {
        proof {
            let sa = a@.skip(i as int);
            let sb = b@.skip(i as int);
            assert(sa.drop_first() == a@.skip(i + 1));
            assert(sb.drop_first() == b@.skip(i + 1));
            assert(sa[0] == sb[0]);
        }
        i += 1;
    }
    if i == a.len() {
        i < b.len()
    } else if i == b.len() {
        false
    } else {
        proof {
            let sa = a@.skip(i as int);
            let sb = b@.skip(i as int);
            assert(sa[0] == a@[i as int] && sb[0] == b@[i as int]);
        }
        a[i] < b[i]
    }
}

/// Whether component sequence `a` is strictly below `b`.
pub fn components_less(a: &Vec<(u8, Vec<u8>)>, b: &Vec<(u8, Vec<u8>)>) -> (r: bool)
    ensures
        r == components_lt(components_view(a@), components_view(b@)),
{
    let ghost va = components_view(a@);
    let ghost vb = components_view(b@);
    let mut i: usize = 0;
    assert(va.skip(0) == va && vb.skip(0) == vb);
    while i < a.len() && i < b.len() && a[i].0 == b[i].0 && !bytes_less(a[i].1.as_slice(), b[i].1.as_slice())
        && !bytes_less(b[i].1.as_slice(), a[i].1.as_slice())
        invariant
            i <= a@.len(),
            i <= b@.len(),
            va == components_view(a@),
            vb == components_view(b@),
            components_lt(va, vb) == components_lt(va.skip(i as int), vb.skip(i as int)),
        decreases a@.len() - i,
    {
        proof {
            let sa = va.skip(i as int);
            let sb = vb.skip(i as int);
            assert(sa.drop_first() == va.skip(i + 1));
            assert(sb.drop_first() == vb.skip(i + 1));
            lemma_bytes_lt_total(a@[i as int].1@, b@[i as int].1@);
            assert(sa[0] == sb[0]);
            lemma_bytes_lt_irreflexive(sa[0].1);
        }
        i += 1;
    }
    if i == a.len() {
        i < b.len()
    } else if i == b.len() {
        false
    } else {
        let lt_name = bytes_less(a[i].1.as_slice(), b[i].1.as_slice());
        proof {
            let sa = va.skip(i as int);
            let sb = vb.skip(i as int);
            assert(sa[0] == va[i as int] && sb[0] == vb[i as int]);
            lemma_bytes_lt_total(a@[i as int].1@, b@[i as int].1@);
        }
        a[i].0 < b[i].0 || (a[i].0 == b[i].0 && lt_name)
    }
}

} // verus!
