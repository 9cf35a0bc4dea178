//! Classification of every path of two flattened snapshots as added,
//! modified, deleted or unchanged.
use vstd::prelude::*;

use crate::pathmap::{entry_views, PathMap};

verus! {

/// How a path changed from the old snapshot to the new one.
#[derive(Debug, Clone, Copy, PartialEq, Eq, Structural)]
pub enum ChangeClass {
    Added,
    Modified,
    Deleted,
    Unchanged,
}

/// One path of either snapshot with its class. `hash` is the new digest, or
/// the old one for a deleted path.
pub struct Change {
    pub path: String,
    pub hash: String,
    pub class: ChangeClass,
}

/// The class of path `p`, which is in `old` or in `new`.
pub open spec fn classify(
    old: Map<Seq<char>, Seq<char>>,
    new: Map<Seq<char>, Seq<char>>,
    p: Seq<char>,
) -> ChangeClass {
    if new.contains_key(p) {
        if !old.contains_key(p) {
            ChangeClass::Added
        } else if old[p] != new[p] {
            ChangeClass::Modified
        } else {
            ChangeClass::Unchanged
        }
    } else {
        ChangeClass::Deleted
    }
}

/// The digest that the change of path `p` carries.
pub open spec fn change_hash(
    old: Map<Seq<char>, Seq<char>>,
    new: Map<Seq<char>, Seq<char>>,
    p: Seq<char>,
) -> Seq<char> {
    if new.contains_key(p) {
        new[p]
    } else {
        old[p]
    }
}

/// `c` is the change of one path of `old` or `new`.
pub open spec fn change_of(
    old: Map<Seq<char>, Seq<char>>,
    new: Map<Seq<char>, Seq<char>>,
    c: Change,
) -> bool {
    &&& old.contains_key(c.path@) || new.contains_key(c.path@)
    &&& c.class == classify(old, new, c.path@)
    &&& c.hash@ == change_hash(old, new, c.path@)
}

/// `cs` holds the change of every path of `old` and `new`, each once.
pub open spec fn is_diff(
    old: Map<Seq<char>, Seq<char>>,
    new: Map<Seq<char>, Seq<char>>,
    cs: Seq<Change>,
) -> bool {
    &&& forall|i: int| 0 <= i < cs.len() ==> change_of(old, new, #[trigger] cs[i])
    &&& forall|p: Seq<char>|
        old.contains_key(p) || new.contains_key(p) ==> exists|i: int|
            0 <= i < cs.len() && #[trigger] cs[i].path@ == p
    &&& forall|i: int, j: int|
        0 <= i < cs.len() && 0 <= j < cs.len() && i != j ==> cs[i].path@ != cs[j].path@
}

/// The paths of `es` that `new` lacks, in the order of `es`.
pub open spec fn only_in_old(es: Seq<(Seq<char>, Seq<char>)>, new: Map<Seq<char>, Seq<char>>) -> Seq<
    Seq<char>,
>
    decreases es.len(),
{
    if es.len() == 0 {
        seq![]
    } else if new.contains_key(es.last().0) {
        only_in_old(es.drop_last(), new)
    } else {
        only_in_old(es.drop_last(), new).push(es.last().0)
    }
}

/// The paths of a sequence of changes.
pub open spec fn change_paths(cs: Seq<Change>) -> Seq<Seq<char>> {
    cs.map_values(|c: Change| c.path@)
}

/// Classifies every path of the two snapshots: first the paths of `new` in
/// its order, then the paths that only `old` has, as deleted.
pub fn diff(old: &PathMap, new: &PathMap) -> (r: Vec<Change>)
    requires
        old.wf(),
        new.wf(),
    ensures
        is_diff(old@, new@, r@),
        new.entry_seq().len() <= r@.len(),
        forall|j: int|
            0 <= j < new.entry_seq().len() ==> (#[trigger] r@[j]).path@ == new.entry_seq()[j].path@,
        forall|j: int|
            new.entry_seq().len() <= j < r@.len() ==> (#[trigger] r@[j]).class
                == ChangeClass::Deleted,
        change_paths(r@.subrange(new.entry_seq().len() as int, r@.len() as int)) == only_in_old(
            entry_views(old.entry_seq()),
            new@,
        ),
        old@ == new@ ==> forall|i: int| 0 <= i < r@.len() ==> (#[trigger] r@[i]).class
            == ChangeClass::Unchanged,
{
    proof {
        old.lemma_entries();
        new.lemma_entries();
    }
    let mut r: Vec<Change> = Vec::new();
    let nn = new.len();
    let mut i: usize = 0;
    while i < nn
        invariant
            old.wf(),
            new.wf(),
            nn == new.entry_seq().len(),
            i <= nn,
            r@.len() == i,
            forall|j: int| 0 <= j < i ==> (#[trigger] r@[j]).path@ == new.entry_seq()[j].path@,
            forall|j: int| 0 <= j < i ==> change_of(old@, new@, #[trigger] r@[j]),
        decreases nn - i,
    {
        let e = new.entry(i);
        let class = match old.get(&e.path) {
            Some(h) => if *h == e.hash {
                ChangeClass::Unchanged
            } else {
                ChangeClass::Modified
            },
            None => ChangeClass::Added,
        };
        proof {
            new.lemma_entries();
        }
        r.push(Change { path: e.path.clone(), hash: e.hash.clone(), class });
        i = i + 1;
    }
    let no = old.len();
    let mut i: usize = 0;
    assert(change_paths(r@.subrange(nn as int, r@.len() as int)) =~= Seq::<Seq<char>>::empty());
    while i < no
        invariant
            old.wf(),
            new.wf(),
            nn == new.entry_seq().len(),
            no == old.entry_seq().len(),
            i <= no,
            nn <= r@.len(),
            forall|j: int| 0 <= j < nn ==> (#[trigger] r@[j]).path@ == new.entry_seq()[j].path@,
            forall|j: int| 0 <= j < r@.len() ==> change_of(old@, new@, #[trigger] r@[j]),
            forall|k: int|
                nn <= k < r@.len() ==> !new@.contains_key((#[trigger] r@[k]).path@) && exists|j: int|
                    0 <= j < i && r@[k].path@ == old.entry_seq()[j].path@,
            forall|j: int|
                0 <= j < i ==> new@.contains_key(#[trigger] old.entry_seq()[j].path@) || exists|k: int|
                    nn <= k < r@.len() && r@[k].path@ == old.entry_seq()[j].path@,
            forall|a: int, b: int|
                0 <= a < r@.len() && 0 <= b < r@.len() && a != b ==> r@[a].path@ != r@[b].path@,
            change_paths(r@.subrange(nn as int, r@.len() as int)) == only_in_old(
                entry_views(old.entry_seq()).subrange(0, i as int),
                new@,
            ),
        decreases no - i,
    {
        let e = old.entry(i);
        let ghost ev = entry_views(old.entry_seq());
        let ghost tail_before = r@.subrange(nn as int, r@.len() as int);
        proof {
            let sub = ev.subrange(0, i + 1);
            assert(sub.drop_last() == ev.subrange(0, i as int));
            assert(sub.last() == (e.path@, e.hash@));
        }
        proof {
            old.lemma_entries();
            new.lemma_entries();
        }
        if new.get(&e.path).is_none() {
            let ghost before = r@;
            r.push(Change { path: e.path.clone(), hash: e.hash.clone(), class: ChangeClass::Deleted });
            proof {
                assert(r@.subrange(nn as int, r@.len() as int) == tail_before.push(r@[r@.len() - 1]));
                assert(change_paths(r@.subrange(nn as int, r@.len() as int)) =~= change_paths(
                    tail_before,
                ).push(e.path@));
                let p = e.path@;
                assert(r@[r@.len() - 1].path@ == p);
                assert forall|a: int| 0 <= a < before.len() implies before[a].path@ != p by {
                    if a < nn {
                        assert(before[a].path@ == new.entry_seq()[a].path@);
                    } else {
                        let j = choose|j: int| 0 <= j < i && before[a].path@ == old.entry_seq()[j].path@;
                        assert(old.entry_seq()[j].path@ != old.entry_seq()[i as int].path@);
                    }
                }
                assert forall|a: int, b: int|
                    0 <= a < r@.len() && 0 <= b < r@.len() && a != b implies r@[a].path@ != r@[b].path@ by {
                    if a < before.len() && b < before.len() {
                        assert(r@[a] == before[a] && r@[b] == before[b]);
                    } else if a < before.len() {
                        assert(r@[a] == before[a]);
                    } else {
                        assert(r@[b] == before[b]);
                    }
                }
                assert forall|k: int| nn <= k < r@.len() implies !new@.contains_key(
                    (#[trigger] r@[k]).path@,
                ) && exists|j: int| 0 <= j < i + 1 && r@[k].path@ == old.entry_seq()[j].path@ by {
                    if k < before.len() {
                        assert(r@[k] == before[k]);
                        let j = choose|j: int| 0 <= j < i && before[k].path@ == old.entry_seq()[j].path@;
                        assert(0 <= j < i + 1 && r@[k].path@ == old.entry_seq()[j].path@);
                    } else {
                        assert(r@[k].path@ == old.entry_seq()[i as int].path@);
                    }
                }
                assert forall|j: int|
                    0 <= j < i + 1 implies new@.contains_key(#[trigger] old.entry_seq()[j].path@) || exists|k: int|
                    nn <= k < r@.len() && r@[k].path@ == old.entry_seq()[j].path@ by {
                    if j < i && !new@.contains_key(old.entry_seq()[j].path@) {
                        let k = choose|k: int|
                            nn <= k < before.len() && before[k].path@ == old.entry_seq()[j].path@;
                        assert(r@[k] == before[k]);
                    } else if j == i {
                        assert(r@[r@.len() - 1].path@ == old.entry_seq()[j].path@);
                    }
                }
            }
        }
        i = i + 1;
    }
    assert(entry_views(old.entry_seq()).subrange(0, no as int) == entry_views(old.entry_seq()));
    proof {
        old.lemma_entries();
        new.lemma_entries();
        assert forall|p: Seq<char>| old@.contains_key(p) || new@.contains_key(p) implies exists|i: int|
            0 <= i < r@.len() && #[trigger] r@[i].path@ == p by {
            if new@.contains_key(p) {
                let j = choose|j: int| 0 <= j < nn && #[trigger] new.entry_seq()[j].path@ == p;
                assert(r@[j].path@ == p);
            } else {
                let j = choose|j: int| 0 <= j < no && #[trigger] old.entry_seq()[j].path@ == p;
                let k = choose|k: int| nn <= k < r@.len() && r@[k].path@ == old.entry_seq()[j].path@;
                assert(r@[k].path@ == p);
            }
        }
    }
    r
}

} // verus!
