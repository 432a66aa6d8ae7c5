//! Totals over the matches: what they hold, and what removing some of them
//! frees.
use crate::scanner::{capped, ZombieDir};
use vstd::prelude::*;

verus! {

/// The sum of the sizes of the matches.
pub open spec fn size_sum(zs: Seq<ZombieDir>) -> nat
    decreases zs.len(),
{
    if zs.len() == 0 {
        0
    } else {
        size_sum(zs.drop_last()) + zs.last().size as nat
    }
}

/// The sum of the sizes of the matches whose flag is set.
pub open spec fn freed_sum(zs: Seq<ZombieDir>, moved: Seq<bool>) -> nat
    decreases zs.len(),
{
    if zs.len() == 0 || moved.len() == 0 {
        0
    } else {
        freed_sum(zs.drop_last(), moved.drop_last()) + if moved.last() {
            zs.last().size as nat
        } else {
            0
        }
    }
}

/// The bytes all matches hold together, `u64::MAX` where that sum is larger.
pub fn total_size(zs: &Vec<ZombieDir>) -> (r: u64)
    ensures
        r == capped(size_sum(zs@)),
{
    let mut total: u64 = 0;
    let mut i: usize = 0;
    while i < zs.len()
        invariant
            i <= zs@.len(),
            total == capped(size_sum(zs@.subrange(0, i as int))),
        decreases zs@.len() - i,
    {
        assert(zs@.subrange(0, i + 1).drop_last() =~= zs@.subrange(0, i as int));
        total = total.saturating_add(zs[i].size);
        i += 1;
    }
    assert(zs@.subrange(0, zs@.len() as int) =~= zs@);
    total
}

/// The bytes freed by removing the matches whose flag in `moved` is set
/// (those that were removed, or all of them in a dry run), `u64::MAX` where
/// that sum is larger.
pub fn freed_space(zs: &Vec<ZombieDir>, moved: &Vec<bool>) -> (r: u64)
    requires
        zs@.len() == moved@.len(),
    ensures
        r == capped(freed_sum(zs@, moved@)),
{
    let mut total: u64 = 0;
    let mut i: usize = 0;
    while i < zs.len()
        invariant
            i <= zs@.len(),
            zs@.len() == moved@.len(),
            total == capped(freed_sum(zs@.subrange(0, i as int), moved@.subrange(0, i as int))),
        decreases zs@.len() - i,
    {
        assert(zs@.subrange(0, i + 1).drop_last() =~= zs@.subrange(0, i as int));
        assert(moved@.subrange(0, i + 1).drop_last() =~= moved@.subrange(0, i as int));
        if moved[i] {
            total = total.saturating_add(zs[i].size);
        }
        i += 1;
    }
    assert(zs@.subrange(0, zs@.len() as int) =~= zs@);
    assert(moved@.subrange(0, moved@.len() as int) =~= moved@);
    total
}

} // verus!
