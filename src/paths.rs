//! Paths as sequences of components, and the ancestry relation between them.
use vstd::prelude::*;

verus! {

/// The components of a path, each seen as its characters.
pub open spec fn comps(p: Seq<String>) -> Seq<Seq<char>> {
    p.map_values(|s: String| s@)
}

/// `a` names a directory that holds `b`, at any depth, and `a != b`.
pub open spec fn is_strict_ancestor(a: Seq<Seq<char>>, b: Seq<Seq<char>>) -> bool {
    a.len() < b.len() && b.subrange(0, a.len() as int) == a
}

/// `a` is `b` or one of its ancestors.
pub open spec fn is_ancestor_or_self(a: Seq<Seq<char>>, b: Seq<Seq<char>>) -> bool {
    a.len() <= b.len() && b.subrange(0, a.len() as int) == a
}

/// One of the two paths lies within the other (or they are the same path).
pub open spec fn nested(a: Seq<Seq<char>>, b: Seq<Seq<char>>) -> bool {
    is_ancestor_or_self(a, b) || is_ancestor_or_self(b, a)
}

/// The first `n` components of `outer` equal those of `inner`.
fn same_head(outer: &Vec<String>, inner: &Vec<String>, n: usize) -> (r: bool)
    requires
        n <= outer@.len(),
        n <= inner@.len(),
    ensures
        r == (comps(inner@).subrange(0, n as int) == comps(outer@).subrange(0, n as int)),
{
    let mut i: usize = 0;
    while i < n
        invariant
            i <= n,
            n <= outer@.len(),
            n <= inner@.len(),
            forall|k: int| 0 <= k < i ==> outer@[k]@ == inner@[k]@,
        decreases n - i,
    {
        if !(outer[i] == inner[i]) {
            assert(comps(inner@).subrange(0, n as int)[i as int] != comps(outer@).subrange(
                0,
                n as int,
            )[i as int]);
            return false;
        }
        i += 1;
    }
    assert(comps(inner@).subrange(0, n as int) =~= comps(outer@).subrange(0, n as int));
    true
}

/// Whether `outer` holds `inner` at some depth, `outer` being a different path.
pub fn strictly_contains(outer: &Vec<String>, inner: &Vec<String>) -> (r: bool)
    ensures
        r == is_strict_ancestor(comps(outer@), comps(inner@)),
{
    if outer.len() >= inner.len() {
        return false;
    }
    let r = same_head(outer, inner, outer.len());
    assert(comps(outer@).subrange(0, outer@.len() as int) =~= comps(outer@));
    r
}

/// Whether `outer` is `inner` or holds it at some depth.
pub fn contains_or_is(outer: &Vec<String>, inner: &Vec<String>) -> (r: bool)
    ensures
        r == is_ancestor_or_self(comps(outer@), comps(inner@)),
{
    if outer.len() > inner.len() {
        return false;
    }
    let r = same_head(outer, inner, outer.len());
    assert(comps(outer@).subrange(0, outer@.len() as int) =~= comps(outer@));
    r
}

} // verus!
