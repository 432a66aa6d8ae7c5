//! What a choice among the matches selects for removal.
use crate::scanner::ZombieDir;
use vstd::prelude::*;

verus! {

/// One line of the choice offered to the user: every match at once, or one
/// match.
#[derive(Clone, Debug)]
pub enum SelectItem {
    SelectAll,
    Directory(ZombieDir),
}

/// The matches named one by one among the picked items, in their order.
pub open spec fn picked_dirs(picked: Seq<SelectItem>) -> Seq<ZombieDir>
    decreases picked.len(),
{
    if picked.len() == 0 {
        seq![]
    } else {
        match picked.last() {
            SelectItem::Directory(z) => picked_dirs(picked.drop_last()).push(z),
            SelectItem::SelectAll => picked_dirs(picked.drop_last()),
        }
    }
}

/// Some picked item is the one that selects everything.
pub open spec fn picks_all(picked: Seq<SelectItem>) -> bool {
    exists|i: int| 0 <= i < picked.len() && #[trigger] picked[i] is SelectAll
}

/// The matches to remove: all of `all` where the item selecting everything
/// was picked, else the matches picked one by one.
pub fn resolve_selection(all: Vec<ZombieDir>, picked: Vec<SelectItem>) -> (r: Vec<ZombieDir>)
    ensures
        picks_all(picked@) ==> r@ == all@,
        !picks_all(picked@) ==> r@ == picked_dirs(picked@),
{
    let mut k: usize = 0;
    while k < picked.len()
        invariant
            k <= picked@.len(),
            forall|i: int| 0 <= i < k ==> !(#[trigger] picked@[i] is SelectAll),
        decreases picked@.len() - k,
    {
        if let SelectItem::SelectAll = &picked[k] {
            return all;
        }
        k += 1;
    }
    let ghost items = picked@;
    let mut rest = picked;
    let mut r: Vec<ZombieDir> = Vec::new();
    while rest.len() > 0
        invariant
            picked_dirs(items) == picked_dirs(rest@) + r@,
        decreases rest@.len(),
    {
        let ghost before = rest@;
        let ghost r_before = r@;
        let it = rest.pop().unwrap();
        assert(before.drop_last() =~= rest@);
        if let SelectItem::Directory(z) = it {
            r.insert(0, z);
            assert(picked_dirs(rest@).push(z) + r_before =~= picked_dirs(rest@) + r@);
        }
    }
    assert(picked_dirs(rest@) + r@ =~= r@);
    r
}

} // verus!
