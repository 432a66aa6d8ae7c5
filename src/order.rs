//! What a scan finds does not depend on the order of the walk, as long as
//! the walker lists each entry once and every directory before its contents.
use crate::paths::{is_ancestor_or_self, is_strict_ancestor, nested};
use crate::scanner::{
    admits, bytes_below, capped, clear_of, entry_path, is_target_dir, old_enough, scan_model,
    scan_prefix, Entry, EntryKind,
};
use vstd::prelude::*;

verus! {

/// No two entries of the listing have the same path.
pub open spec fn distinct_paths(es: Seq<Entry>) -> bool {
    forall|i: int, j: int|
        0 <= i < es.len() && 0 <= j < es.len() && i != j ==> entry_path(#[trigger] es[i])
            != entry_path(#[trigger] es[j])
}

/// Every entry comes after the entries that hold it.
pub open spec fn parents_first(es: Seq<Entry>) -> bool {
    forall|i: int, j: int|
        0 <= i < es.len() && 0 <= j < es.len() && is_strict_ancestor(
            entry_path(#[trigger] es[i]),
            entry_path(#[trigger] es[j]),
        ) ==> i < j
}

/// Some entry of the listing at `p` is a directory named `target` old enough
/// to qualify.
pub open spec fn qualifies_in(es: Seq<Entry>, p: Seq<Seq<char>>, target: Seq<char>, min_days: u64) -> bool {
    exists|i: int|
        0 <= i < es.len() && entry_path(#[trigger] es[i]) == p && is_target_dir(p, es[i].kind, target)
            && old_enough(es[i].age_secs, min_days)
}

/// The matches of a listing, stated without any order: a qualifying
/// directory is matched exactly when none of the directories that hold it
/// is matched.
pub open spec fn selected(es: Seq<Entry>, p: Seq<Seq<char>>, target: Seq<char>, min_days: u64) -> bool
    decreases p.len(), 1int,
{
    qualifies_in(es, p, target, min_days) && none_selected_above(es, p, p.len() as int, target, min_days)
}

/// None of the `n` closest-to-the-root ancestors of `p` (the prefixes of
/// length below `n`) is matched.
pub open spec fn none_selected_above(
    es: Seq<Entry>,
    p: Seq<Seq<char>>,
    n: int,
    target: Seq<char>,
    min_days: u64,
) -> bool
    decreases n, 0int,
{
    if n <= 0 || n > p.len() {
        true
    } else {
        none_selected_above(es, p, n - 1, target, min_days) && !selected(
            es,
            p.subrange(0, n - 1),
            target,
            min_days,
        )
    }
}

proof fn lemma_none_above(es: Seq<Entry>, p: Seq<Seq<char>>, n: int, target: Seq<char>, min_days: u64)
    requires
        0 <= n <= p.len(),
    ensures
        none_selected_above(es, p, n, target, min_days) <==> forall|m: int|
            0 <= m < n ==> !#[trigger] selected(es, p.subrange(0, m), target, min_days),
    decreases n,
{
    if n > 0 {
        lemma_none_above(es, p, n - 1, target, min_days);
        assert(none_selected_above(es, p, n, target, min_days) == (none_selected_above(
            es,
            p,
            n - 1,
            target,
            min_days,
        ) && !selected(es, p.subrange(0, n - 1), target, min_days)));
        if none_selected_above(es, p, n, target, min_days) {
            assert forall|m: int| 0 <= m < n implies !#[trigger] selected(
                es,
                p.subrange(0, m),
                target,
                min_days,
            ) by {
                if m < n - 1 {
                }
            }
        }
    }
}

/// A directory is matched exactly when it qualifies and no directory that
/// holds it is matched.
pub proof fn lemma_selected_unfold(es: Seq<Entry>, p: Seq<Seq<char>>, target: Seq<char>, min_days: u64)
    ensures
        selected(es, p, target, min_days) <==> (qualifies_in(es, p, target, min_days) && forall|m: int|
            0 <= m < p.len() ==> !#[trigger] selected(es, p.subrange(0, m), target, min_days)),
{
    lemma_none_above(es, p, p.len() as int, target, min_days);
}

/// The paths among a list of matches.
pub open spec fn matched_paths(found: Seq<(Seq<Seq<char>>, u64)>) -> Set<Seq<Seq<char>>> {
    Set::new(|p: Seq<Seq<char>>| exists|k: int| 0 <= k < found.len() && (#[trigger] found[k]).0 == p)
}

/// The paths among the first `n` entries.
pub open spec fn seen_in(es: Seq<Entry>, n: int, p: Seq<Seq<char>>) -> bool {
    exists|i: int| 0 <= i < n && entry_path(#[trigger] es[i]) == p
}

proof fn lemma_prefix(
    es: Seq<Entry>,
    n: int,
    target: Seq<char>,
    min_days: u64,
)
    requires
        0 <= n <= es.len(),
        distinct_paths(es),
        parents_first(es),
    ensures
        forall|p: Seq<Seq<char>>|
            #![trigger matched_paths(scan_prefix(es, n, target, min_days)).contains(p)]
            matched_paths(scan_prefix(es, n, target, min_days)).contains(p) <==> (selected(
                es,
                p,
                target,
                min_days,
            ) && seen_in(es, n, p)),
    decreases n,
{
    if n > 0 {
        lemma_prefix(es, n - 1, target, min_days);
        let found = scan_prefix(es, n - 1, target, min_days);
        let next = scan_prefix(es, n, target, min_days);
        let e = es[n - 1];
        let q = entry_path(e);
        let taken = admits(found, q, e.kind, target) && old_enough(e.age_secs, min_days);
        lemma_selected_unfold(es, q, target, min_days);
        assert forall|p: Seq<Seq<char>>| p != q implies (seen_in(es, n, p) <==> seen_in(es, n - 1, p)) by {
            if seen_in(es, n, p) {
                let i = choose|i: int| 0 <= i < n && entry_path(#[trigger] es[i]) == p;
                assert(seen_in(es, n - 1, p));
            }
        }
        assert(seen_in(es, n, q));
        assert(!seen_in(es, n - 1, q)) by {
            if seen_in(es, n - 1, q) {
                let i = choose|i: int| 0 <= i < n - 1 && entry_path(#[trigger] es[i]) == q;
                assert(entry_path(es[i]) != entry_path(es[n - 1]));
            }
        }
        if taken {
            assert(next == found.push((q, next[found.len() as int].1)));
            assert(selected(es, q, target, min_days)) by {
                assert(qualifies_in(es, q, target, min_days)) by {
                    assert(entry_path(es[n - 1]) == q);
                }
                assert forall|m: int| 0 <= m < q.len() implies !#[trigger] selected(
                    es,
                    q.subrange(0, m),
                    target,
                    min_days,
                ) by {
                    let a = q.subrange(0, m);
                    if selected(es, a, target, min_days) {
                        lemma_selected_unfold(es, a, target, min_days);
                        let i = choose|i: int|
                            0 <= i < es.len() && entry_path(#[trigger] es[i]) == a && is_target_dir(
                                a,
                                es[i].kind,
                                target,
                            ) && old_enough(es[i].age_secs, min_days);
                        assert(is_strict_ancestor(entry_path(es[i]), entry_path(es[n - 1])));
                        assert(seen_in(es, n - 1, a));
                        assert(matched_paths(found).contains(a));
                        let k = choose|k: int| 0 <= k < found.len() && (#[trigger] found[k]).0 == a;
                        assert(is_ancestor_or_self(found[k].0, q));
                        assert(nested(found[k].0, q));
                        assert(clear_of(found, q));
                        assert(false);
                    }
                }
            }
            assert forall|p: Seq<Seq<char>>|
                matched_paths(next).contains(p) <==> matched_paths(found).contains(p) || p == q by {
                if matched_paths(next).contains(p) {
                    let k = choose|k: int| 0 <= k < next.len() && (#[trigger] next[k]).0 == p;
                    if k < found.len() {
                        assert(found[k].0 == p);
                    }
                }
                if matched_paths(found).contains(p) {
                    let k = choose|k: int| 0 <= k < found.len() && (#[trigger] found[k]).0 == p;
                    assert(next[k].0 == p);
                }
                if p == q {
                    assert(next[found.len() as int].0 == p);
                }
            }
        } else {
            assert(next == found);
            assert(!selected(es, q, target, min_days)) by {
                if selected(es, q, target, min_days) {
                    let i = choose|i: int|
                        0 <= i < es.len() && entry_path(#[trigger] es[i]) == q && is_target_dir(
                            q,
                            es[i].kind,
                            target,
                        ) && old_enough(es[i].age_secs, min_days);
                    assert(i == n - 1);
                    assert(!clear_of(found, q));
                    let k = choose|k: int| 0 <= k < found.len() && nested(#[trigger] found[k].0, q);
                    let a = found[k].0;
                    assert(matched_paths(found).contains(a));
                    let j = choose|j: int| 0 <= j < n - 1 && entry_path(#[trigger] es[j]) == a;
                    assert(a.subrange(0, a.len() as int) =~= a);
                    assert(q.subrange(0, q.len() as int) =~= q);
                    if a == q {
                        assert(entry_path(es[j]) != entry_path(es[n - 1]));
                    } else if is_ancestor_or_self(q, a) {
                        assert(is_strict_ancestor(entry_path(es[n - 1]), entry_path(es[j])));
                    } else {
                        assert(is_strict_ancestor(a, q));
                        assert(a == q.subrange(0, a.len() as int));
                        assert(!selected(es, q.subrange(0, a.len() as int), target, min_days));
                    }
                }
            }
        }
    } else {
        assert forall|p: Seq<Seq<char>>| !matched_paths(scan_prefix(es, n, target, min_days)).contains(p) by {}
    }
}

/// A scan of a listing that holds each entry once, every directory before
/// its contents, matches exactly the qualifying directories that no other
/// match holds.
pub proof fn lemma_scan_selects(es: Seq<Entry>, target: Seq<char>, min_days: u64)
    requires
        distinct_paths(es),
        parents_first(es),
    ensures
        forall|p: Seq<Seq<char>>|
            #[trigger] matched_paths(scan_model(es, target, min_days)).contains(p) <==> selected(
                es,
                p,
                target,
                min_days,
            ),
{
    lemma_prefix(es, es.len() as int, target, min_days);
    assert forall|p: Seq<Seq<char>>| selected(es, p, target, min_days) implies seen_in(es, es.len() as int, p) by {
        lemma_selected_unfold(es, p, target, min_days);
        let i = choose|i: int|
            0 <= i < es.len() && entry_path(#[trigger] es[i]) == p && is_target_dir(p, es[i].kind, target)
                && old_enough(es[i].age_secs, min_days);
    }
}

proof fn lemma_qualifies_same(es1: Seq<Entry>, es2: Seq<Entry>, p: Seq<Seq<char>>, target: Seq<char>, min_days: u64)
    requires
        es1.to_set() == es2.to_set(),
        qualifies_in(es1, p, target, min_days),
    ensures
        qualifies_in(es2, p, target, min_days),
{
    let i = choose|i: int|
        0 <= i < es1.len() && entry_path(#[trigger] es1[i]) == p && is_target_dir(p, es1[i].kind, target)
            && old_enough(es1[i].age_secs, min_days);
    assert(es1.to_set().contains(es1[i]));
    assert(es2.contains(es1[i]));
    let j = choose|j: int| 0 <= j < es2.len() && es2[j] == es1[i];
    assert(entry_path(es2[j]) == p);
}

proof fn lemma_same_selection(es1: Seq<Entry>, es2: Seq<Entry>, p: Seq<Seq<char>>, target: Seq<char>, min_days: u64)
    requires
        es1.to_set() == es2.to_set(),
    ensures
        selected(es1, p, target, min_days) == selected(es2, p, target, min_days),
    decreases p.len(),
{
    lemma_selected_unfold(es1, p, target, min_days);
    lemma_selected_unfold(es2, p, target, min_days);
    assert forall|m: int|
        #![trigger selected(es1, p.subrange(0, m), target, min_days)]
        #![trigger selected(es2, p.subrange(0, m), target, min_days)]
        0 <= m < p.len() implies selected(es1, p.subrange(0, m), target, min_days) == selected(
            es2,
            p.subrange(0, m),
            target,
            min_days,
        ) by {
        lemma_same_selection(es1, es2, p.subrange(0, m), target, min_days);
    }
    if qualifies_in(es1, p, target, min_days) {
        lemma_qualifies_same(es1, es2, p, target, min_days);
    }
    if qualifies_in(es2, p, target, min_days) {
        lemma_qualifies_same(es2, es1, p, target, min_days);
    }
}

/// Scanning the same tree twice finds the same directories, in whatever
/// order each walk lists the entries: two listings that hold the same
/// entries, each entry once and every directory before its contents, give
/// the same set of matched paths.
pub proof fn lemma_order_free(es1: Seq<Entry>, es2: Seq<Entry>, target: Seq<char>, min_days: u64)
    requires
        distinct_paths(es1),
        parents_first(es1),
        distinct_paths(es2),
        parents_first(es2),
        es1.to_set() == es2.to_set(),
    ensures
        matched_paths(scan_model(es1, target, min_days)) == matched_paths(scan_model(es2, target, min_days)),
{
    lemma_scan_selects(es1, target, min_days);
    lemma_scan_selects(es2, target, min_days);
    assert forall|p: Seq<Seq<char>>|
        matched_paths(scan_model(es1, target, min_days)).contains(p) == matched_paths(
            scan_model(es2, target, min_days),
        ).contains(p) by {
        lemma_same_selection(es1, es2, p, target, min_days);
    }
    assert(matched_paths(scan_model(es1, target, min_days)) =~= matched_paths(scan_model(es2, target, min_days)));
}

/// What one entry adds to the size of `dir`.
pub open spec fn share(e: Entry, dir: Seq<Seq<char>>) -> nat {
    if e.kind == EntryKind::File && is_strict_ancestor(dir, entry_path(e)) {
        e.len as nat
    } else {
        0
    }
}

proof fn lemma_bytes_remove(es: Seq<Entry>, j: int, dir: Seq<Seq<char>>)
    requires
        0 <= j < es.len(),
    ensures
        bytes_below(es, dir) == bytes_below(es.remove(j), dir) + share(es[j], dir),
    decreases es.len(),
{
    if j == es.len() - 1 {
        assert(es.remove(j) =~= es.drop_last());
    } else {
        lemma_bytes_remove(es.drop_last(), j, dir);
        assert(es.remove(j).drop_last() =~= es.drop_last().remove(j));
        assert(es.remove(j).last() == es.last());
    }
}

proof fn lemma_bytes_same(es1: Seq<Entry>, es2: Seq<Entry>, dir: Seq<Seq<char>>)
    requires
        es1.no_duplicates(),
        es2.no_duplicates(),
        es1.to_set() == es2.to_set(),
    ensures
        bytes_below(es1, dir) == bytes_below(es2, dir),
    decreases es1.len(),
{
    if es1.len() == 0 {
        if es2.len() > 0 {
            assert(es2.to_set().contains(es2[0]));
        }
    } else {
        let x = es1.last();
        assert(es1.to_set().contains(x));
        let j = choose|j: int| 0 <= j < es2.len() && es2[j] == x;
        let rest1 = es1.drop_last();
        let rest2 = es2.remove(j);
        assert forall|y: Entry| rest1.to_set().contains(y) == rest2.to_set().contains(y) by {
            if rest1.to_set().contains(y) {
                let i = choose|i: int| 0 <= i < rest1.len() && rest1[i] == y;
                assert(es1[i] == y && i != es1.len() - 1);
                assert(es1.to_set().contains(y));
                let k = choose|k: int| 0 <= k < es2.len() && es2[k] == y;
                if k < j {
                    assert(rest2[k] == y);
                } else {
                    assert(rest2[k - 1] == y);
                }
            }
            if rest2.to_set().contains(y) {
                let k = choose|k: int| 0 <= k < rest2.len() && rest2[k] == y;
                let k2 = if k < j { k } else { k + 1 };
                assert(es2[k2] == y && k2 != j);
                assert(es2.to_set().contains(y));
                let i = choose|i: int| 0 <= i < es1.len() && es1[i] == y;
                assert(i != es1.len() - 1);
                assert(rest1[i] == y);
            }
        }
        assert(rest1.to_set() =~= rest2.to_set());
        assert(rest2.no_duplicates()) by {
            assert forall|a: int, b: int| 0 <= a < rest2.len() && 0 <= b < rest2.len() && a != b implies rest2[a]
                != rest2[b] by {
                let a2 = if a < j { a } else { a + 1 };
                let b2 = if b < j { b } else { b + 1 };
                assert(rest2[a] == es2[a2] && rest2[b] == es2[b2]);
            }
        }
        lemma_bytes_same(rest1, rest2, dir);
        lemma_bytes_remove(es2, j, dir);
    }
}

proof fn lemma_sizes(es: Seq<Entry>, n: int, target: Seq<char>, min_days: u64)
    requires
        0 <= n <= es.len(),
    ensures
        forall|k: int|
            0 <= k < scan_prefix(es, n, target, min_days).len() ==> (#[trigger] scan_prefix(
                es,
                n,
                target,
                min_days,
            )[k]).1 == capped(bytes_below(es, scan_prefix(es, n, target, min_days)[k].0)),
    decreases n,
{
    if n > 0 {
        lemma_sizes(es, n - 1, target, min_days);
        let prev = scan_prefix(es, n - 1, target, min_days);
        let next = scan_prefix(es, n, target, min_days);
        assert forall|k: int| 0 <= k < next.len() implies (#[trigger] next[k]).1 == capped(
            bytes_below(es, next[k].0),
        ) by {
            if k < prev.len() {
                assert(next[k] == prev[k]);
            }
        }
    }
}

proof fn lemma_distinct_entries(es: Seq<Entry>)
    requires
        distinct_paths(es),
    ensures
        es.no_duplicates(),
{
    assert forall|i: int, j: int| 0 <= i < es.len() && 0 <= j < es.len() && i != j implies es[i] != es[j] by {
        assert(entry_path(es[i]) != entry_path(es[j]));
    }
}

/// Scanning the same tree twice gives the same matches, paths and sizes,
/// in whatever order each walk lists the entries: two listings that hold the
/// same entries, each entry once and every directory before its contents,
/// give the same set of matches.
pub proof fn lemma_same_matches(es1: Seq<Entry>, es2: Seq<Entry>, target: Seq<char>, min_days: u64)
    requires
        distinct_paths(es1),
        parents_first(es1),
        distinct_paths(es2),
        parents_first(es2),
        es1.to_set() == es2.to_set(),
    ensures
        scan_model(es1, target, min_days).to_set() == scan_model(es2, target, min_days).to_set(),
{
    let m1 = scan_model(es1, target, min_days);
    let m2 = scan_model(es2, target, min_days);
    lemma_order_free(es1, es2, target, min_days);
    lemma_sizes(es1, es1.len() as int, target, min_days);
    lemma_sizes(es2, es2.len() as int, target, min_days);
    lemma_distinct_entries(es1);
    lemma_distinct_entries(es2);
    assert forall|x: (Seq<Seq<char>>, u64)| m1.to_set().contains(x) implies m2.to_set().contains(x) by {
        let k = choose|k: int| 0 <= k < m1.len() && m1[k] == x;
        assert(matched_paths(m1).contains(x.0));
        assert(matched_paths(m2).contains(x.0));
        let k2 = choose|k2: int| 0 <= k2 < m2.len() && (#[trigger] m2[k2]).0 == x.0;
        lemma_bytes_same(es1, es2, x.0);
        assert(m2[k2] == x);
    }
    assert forall|x: (Seq<Seq<char>>, u64)| m2.to_set().contains(x) implies m1.to_set().contains(x) by {
        let k = choose|k: int| 0 <= k < m2.len() && m2[k] == x;
        assert(matched_paths(m2).contains(x.0));
        assert(matched_paths(m1).contains(x.0));
        let k1 = choose|k1: int| 0 <= k1 < m1.len() && (#[trigger] m1[k1]).0 == x.0;
        lemma_bytes_same(es1, es2, x.0);
        assert(m1[k1] == x);
    }
    assert(m1.to_set() =~= m2.to_set());
}

} // verus!
