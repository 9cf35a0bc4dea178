//! Which files of the new snapshot go into the patch.
use vstd::prelude::*;

use crate::diff::Change;
use crate::manifest::is_update;

verus! {

/// The paths of the added and modified changes of `cs`, in order.
pub open spec fn update_paths(cs: Seq<Change>) -> Seq<Seq<char>>
    decreases cs.len(),
{
    if cs.len() == 0 {
        seq![]
    } else if is_update(cs.last()) {
        update_paths(cs.drop_last()).push(cs.last().path@)
    } else {
        update_paths(cs.drop_last())
    }
}

/// The relative paths to copy from the new snapshot into the staging
/// directory: every added or modified path, in order; deleted and unchanged
/// paths stage nothing.
pub fn get_updated_files(changes: &Vec<Change>) -> (r: Vec<String>)
    ensures
        r.deep_view() == update_paths(changes@),
{
    let mut r: Vec<String> = Vec::new();
    let mut i: usize = 0;
    while i < changes.len()
        invariant
            i <= changes@.len(),
            r.deep_view() == update_paths(changes@.subrange(0, i as int)),
        decreases changes@.len() - i,
    {
        let c = &changes[i];
        let ghost sub = changes@.subrange(0, i + 1);
        assert(sub.drop_last() == changes@.subrange(0, i as int));
        assert(sub.last() == *c);
        if is_update_exec(c) {
            r.push(c.path.clone());
            assert(r.deep_view() == update_paths(sub));
        }
        i = i + 1;
    }
    assert(changes@.subrange(0, i as int) == changes@);
    r
}

fn is_update_exec(c: &Change) -> (r: bool)
    ensures
        r == is_update(*c),
{
    match c.class {
        crate::diff::ChangeClass::Added | crate::diff::ChangeClass::Modified => true,
        _ => false,
    }
}

} // verus!
