//! The match engine: which directories of a walked tree are stale targets,
//! with no match nested inside another, and how many bytes each one holds.
use crate::paths::{comps, contains_or_is, is_strict_ancestor, nested, strictly_contains};
use vstd::prelude::*;

verus! {

/// Seconds in a day; ages are counted in whole days.
pub const SECS_PER_DAY: u64 = 86400;

/// What a walked entry is. Links are reported as links and never followed.
#[derive(Clone, Copy, Debug, PartialEq, Eq, Structural)]
pub enum EntryKind {
    Dir,
    File,
    Symlink,
}

/// One entry of a walked tree: its path from the root of the walk, what it
/// is, its length in bytes (counted for regular files only), and the whole
/// seconds since it was last modified (`None` where that could not be read).
#[derive(Clone, Debug)]
pub struct Entry {
    pub path: Vec<String>,
    pub kind: EntryKind,
    pub len: u64,
    pub age_secs: Option<u64>,
}

/// A stale target directory that was found, with the bytes it holds.
#[derive(Clone, Debug)]
pub struct ZombieDir {
    pub path: Vec<String>,
    pub size: u64,
}

/// The path of an entry, component by component.
pub open spec fn entry_path(e: Entry) -> Seq<Seq<char>> {
    comps(e.path@)
}

/// The path of a match, component by component.
pub open spec fn zombie_path(z: ZombieDir) -> Seq<Seq<char>> {
    comps(z.path@)
}

/// Whole days in an age given in seconds; partial days do not count.
pub open spec fn whole_days(secs: u64) -> int {
    secs as int / SECS_PER_DAY as int
}

/// A directory of this age is old enough: its age could be read and is at
/// least `min_days` whole days.
pub open spec fn old_enough(age_secs: Option<u64>, min_days: u64) -> bool {
    match age_secs {
        Some(s) => whole_days(s) >= min_days as int,
        None => false,
    }
}

/// Whether an age read from a directory meets the threshold of `min_days`
/// whole days.
pub fn is_old_enough(age_secs: Option<u64>, min_days: u64) -> (r: bool)
    ensures
        r == old_enough(age_secs, min_days),
{
    match age_secs {
        Some(s) => s / SECS_PER_DAY >= min_days,
        None => false,
    }
}

/// The entry is a directory whose own name is `target`.
pub open spec fn is_target_dir(path: Seq<Seq<char>>, kind: EntryKind, target: Seq<char>) -> bool {
    kind == EntryKind::Dir && path.len() > 0 && path.last() == target
}

/// The bytes of the regular files among `es` that lie beneath `dir`.
pub open spec fn bytes_below(es: Seq<Entry>, dir: Seq<Seq<char>>) -> nat
    decreases es.len(),
{
    if es.len() == 0 {
        0
    } else {
        let e = es.last();
        let rest = bytes_below(es.drop_last(), dir);
        if e.kind == EntryKind::File && is_strict_ancestor(dir, entry_path(e)) {
            rest + e.len as nat
        } else {
            rest
        }
    }
}

/// `n` held to what a `u64` can count.
pub open spec fn capped(n: nat) -> u64 {
    if n > u64::MAX as nat {
        u64::MAX
    } else {
        n as u64
    }
}

/// The size of `dir`: the sum of the lengths of the regular files of the
/// listing that lie beneath it, at any depth. Directories and links add
/// nothing themselves. A sum past `u64::MAX` is reported as `u64::MAX`.
pub fn dir_size(entries: &Vec<Entry>, dir: &Vec<String>) -> (r: u64)
    ensures
        r == capped(bytes_below(entries@, comps(dir@))),
{
    let mut total: u64 = 0;
    let mut i: usize = 0;
    while i < entries.len()
        invariant
            i <= entries@.len(),
            total == capped(bytes_below(entries@.subrange(0, i as int), comps(dir@))),
        decreases entries@.len() - i,
    {
        let e = &entries[i];
        assert(entries@.subrange(0, i + 1).drop_last() =~= entries@.subrange(0, i as int));
        if e.kind == EntryKind::File && strictly_contains(dir, &e.path) {
            total = total.saturating_add(e.len);
        }
        i += 1;
    }
    assert(entries@.subrange(0, entries@.len() as int) =~= entries@);
    total
}

/// A match as the engine reasons about it: its path and its size.
pub open spec fn zombie_view(z: ZombieDir) -> (Seq<Seq<char>>, u64) {
    (zombie_path(z), z.size)
}

/// A list of matches as paths and sizes.
pub open spec fn matches_view(zs: Seq<ZombieDir>) -> Seq<(Seq<Seq<char>>, u64)> {
    zs.map_values(|z: ZombieDir| zombie_view(z))
}

/// `p` neither lies within nor holds nor equals a path already matched.
pub open spec fn clear_of(found: Seq<(Seq<Seq<char>>, u64)>, p: Seq<Seq<char>>) -> bool {
    forall|k: int| 0 <= k < found.len() ==> !nested(#[trigger] found[k].0, p)
}

/// No match lies within another, and no path is matched twice.
pub open spec fn unnested(found: Seq<(Seq<Seq<char>>, u64)>) -> bool {
    forall|i: int, j: int|
        0 <= i < found.len() && 0 <= j < found.len() && i != j ==> !nested(
            #[trigger] found[i].0,
            #[trigger] found[j].0,
        )
}

/// An entry is taken as a candidate: a directory named `target` that does
/// not lie within a match found before it. (A walker that lists each entry
/// once and a directory before its contents never gives an entry that holds
/// or repeats a match; such an entry is passed over too.)
pub open spec fn admits(
    found: Seq<(Seq<Seq<char>>, u64)>,
    p: Seq<Seq<char>>,
    kind: EntryKind,
    target: Seq<char>,
) -> bool {
    is_target_dir(p, kind, target) && clear_of(found, p)
}

/// The matches after one more entry, whose size (if it is measured) is `size`.
pub open spec fn step(
    found: Seq<(Seq<Seq<char>>, u64)>,
    e: Entry,
    size: u64,
    target: Seq<char>,
    min_days: u64,
) -> Seq<(Seq<Seq<char>>, u64)> {
    if admits(found, entry_path(e), e.kind, target) && old_enough(e.age_secs, min_days) {
        found.push((entry_path(e), size))
    } else {
        found
    }
}

/// The matches found in the first `n` entries of a listing, each sized over
/// the whole listing.
pub open spec fn scan_prefix(es: Seq<Entry>, n: int, target: Seq<char>, min_days: u64) -> Seq<
    (Seq<Seq<char>>, u64),
>
    decreases n,
{
    if n <= 0 {
        seq![]
    } else {
        step(
            scan_prefix(es, n - 1, target, min_days),
            es[n - 1],
            capped(bytes_below(es, entry_path(es[n - 1]))),
            target,
            min_days,
        )
    }
}

/// The matches of a whole listing, in the order the listing gives them.
pub open spec fn scan_model(es: Seq<Entry>, target: Seq<char>, min_days: u64) -> Seq<
    (Seq<Seq<char>>, u64),
> {
    scan_prefix(es, es.len() as int, target, min_days)
}

/// One more entry keeps the matches apart from each other.
pub proof fn lemma_step_unnested(
    found: Seq<(Seq<Seq<char>>, u64)>,
    e: Entry,
    size: u64,
    target: Seq<char>,
    min_days: u64,
)
    requires
        unnested(found),
    ensures
        unnested(step(found, e, size, target, min_days)),
{
    let next = step(found, e, size, target, min_days);
    if next != found {
        assert forall|i: int, j: int|
            0 <= i < next.len() && 0 <= j < next.len() && i != j implies !nested(
            #[trigger] next[i].0,
            #[trigger] next[j].0,
        ) by {
            if i == found.len() {
                assert(!nested(found[j].0, entry_path(e)));
            } else if j == found.len() {
                assert(!nested(found[i].0, entry_path(e)));
            } else {
                assert(next[i] == found[i] && next[j] == found[j]);
            }
        }
    }
}

/// A copy of a path, component by component.
fn copy_path(p: &Vec<String>) -> (r: Vec<String>)
    ensures
        r@ == p@,
{
    let mut r: Vec<String> = Vec::new();
    let mut i: usize = 0;
    while i < p.len()
        invariant
            i <= p@.len(),
            r@ == p@.subrange(0, i as int),
        decreases p@.len() - i,
    {
        r.push(p[i].clone());
        i += 1;
    }
    r
}

/// The state of one scan: the target name, the age threshold in whole days,
/// and the matches found so far, in the order found. The matches' paths are
/// the scan's seen-set.
pub struct Scanner {
    pub target: String,
    pub min_age_days: u64,
    pub found: Vec<ZombieDir>,
}

impl Scanner {
    /// The matches so far never lie within one another.
    pub open spec fn wf(&self) -> bool {
        unnested(matches_view(self.found@))
    }

    /// A scan for directories named `target` that are at least
    /// `min_age_days` whole days old, with nothing found yet.
    pub fn new(target: String, min_age_days: u64) -> (r: Scanner)
        ensures
            r.target == target,
            r.min_age_days == min_age_days,
            r.found@.len() == 0,
            r.wf(),
    {
        Scanner { target, min_age_days, found: Vec::new() }
    }

    /// Whether a walked entry is a candidate: a directory named as the
    /// target that lies outside every match so far. Only then is its age
    /// worth reading.
    pub fn wants(&self, path: &Vec<String>, kind: EntryKind) -> (r: bool)
        ensures
            r == admits(matches_view(self.found@), comps(path@), kind, self.target@),
    {
        if kind != EntryKind::Dir || path.len() == 0 {
            return false;
        }
        if !(path[path.len() - 1] == self.target) {
            return false;
        }
        let ghost found = matches_view(self.found@);
        let mut k: usize = 0;
        while k < self.found.len()
            invariant
                k <= self.found@.len(),
                found == matches_view(self.found@),
                forall|m: int| 0 <= m < k ==> !nested(#[trigger] found[m].0, comps(path@)),
            decreases self.found@.len() - k,
        {
            let z = &self.found[k];
            if contains_or_is(&z.path, path) || contains_or_is(path, &z.path) {
                assert(nested(found[k as int].0, comps(path@)));
                return false;
            }
            k += 1;
        }
        true
    }

    /// Settles one walked entry. It becomes a match, with `size` as its size,
    /// exactly when it is a candidate and its age meets the threshold; the
    /// result says whether it did. A walker that measures a directory only
    /// where `wants` and `is_old_enough` both hold loses nothing.
    pub fn record(&mut self, path: Vec<String>, kind: EntryKind, age_secs: Option<u64>, size: u64) -> (r: bool)
        requires
            old(self).wf(),
        ensures
            final(self).wf(),
            final(self).target == old(self).target,
            final(self).min_age_days == old(self).min_age_days,
            r == (admits(matches_view(old(self).found@), comps(path@), kind, old(self).target@)
                && old_enough(age_secs, old(self).min_age_days)),
            matches_view(final(self).found@) == step(
                matches_view(old(self).found@),
                Entry { path: path, kind: kind, len: 0, age_secs: age_secs },
                size,
                old(self).target@,
                old(self).min_age_days,
            ),
            r ==> final(self).found@ == old(self).found@.push(ZombieDir { path: path, size: size }),
            !r ==> final(self).found@ == old(self).found@,
    {
        let ghost e = Entry { path: path, kind: kind, len: 0, age_secs: age_secs };
        proof {
            lemma_step_unnested(matches_view(self.found@), e, size, self.target@, self.min_age_days);
        }
        if self.wants(&path, kind) && is_old_enough(age_secs, self.min_age_days) {
            let ghost before = self.found@;
            self.found.push(ZombieDir { path, size });
            assert(matches_view(self.found@) =~= matches_view(before).push(
                (comps(path@), size),
            ));
            true
        } else {
            false
        }
    }

    /// The matches found, in the order found.
    pub fn into_matches(self) -> (r: Vec<ZombieDir>)
        ensures
            r@ == self.found@,
    {
        self.found
    }
}

/// Scans a listing of a tree: every directory named `target` that is at
/// least `min_age_days` whole days old and lies within no earlier match,
/// with its size measured over the same listing. No match of the result
/// lies within another.
pub fn scan(entries: &Vec<Entry>, min_age_days: u64, target: &str) -> (r: Vec<ZombieDir>)
    ensures
        matches_view(r@) == scan_model(entries@, target@, min_age_days),
        unnested(matches_view(r@)),
{
    let mut sc = Scanner::new(target.to_owned(), min_age_days);
    let mut i: usize = 0;
    while i < entries.len()
        invariant
            i <= entries@.len(),
            sc.wf(),
            sc.target@ == target@,
            sc.min_age_days == min_age_days,
            matches_view(sc.found@) == scan_prefix(entries@, i as int, target@, min_age_days),
        decreases entries@.len() - i,
    {
        let e = &entries[i];
        if sc.wants(&e.path, e.kind) && is_old_enough(e.age_secs, min_age_days) {
            let size = dir_size(entries, &e.path);
            let p = copy_path(&e.path);
            sc.record(p, e.kind, e.age_secs, size);
        }
        i += 1;
    }
    sc.into_matches()
}

} // verus!
