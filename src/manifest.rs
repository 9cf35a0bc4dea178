//! The migration manifest: a nested tree of the added and modified files,
//! keyed by path segment, and the list of deleted paths.
use vstd::prelude::*;

use crate::diff::{change_paths, diff, is_diff, only_in_old, Change, ChangeClass};
use crate::hasher::push_char;
use crate::tree::{lemma_snapshot_prefix_free, node_wf, snapshot_map, snapshot_paths, SnapshotNode};

verus! {

/// A node of the update tree: a file with its new digest, or a directory
/// segment holding further entries.
pub enum UpdateNode {
    Leaf { hash: String },
    Branch { children: Vec<UpdateEntry> },
}

/// A named node of the update tree.
pub struct UpdateEntry {
    pub name: String,
    pub node: UpdateNode,
}

/// The manifest of a migration between two snapshots.
pub struct Manifest {
    pub version: String,
    pub update: Vec<UpdateEntry>,
    pub deleted: Vec<String>,
}

/// The segments of a `/`-separated path.
pub open spec fn split_segments(s: Seq<char>) -> Seq<Seq<char>>
    decreases s.len(),
{
    if s.len() == 0 {
        seq![seq![]]
    } else {
        let r = split_segments(s.drop_last());
        if s.last() == '/' {
            r.push(seq![])
        } else {
            r.update(r.len() - 1, r.last().push(s.last()))
        }
    }
}

/// The digest stored under the segment path `k`: the last entry named
/// `k[0]` decides.
pub open spec fn lookup(f: Seq<UpdateEntry>, k: Seq<Seq<char>>) -> Option<Seq<char>>
    decreases f,
{
    if f.len() == 0 || k.len() == 0 {
        None
    } else {
        let e = f[f.len() - 1];
        if e.name@ == k[0] {
            match e.node {
                UpdateNode::Leaf { hash } => if k.len() == 1 {
                    Some(hash@)
                } else {
                    None
                },
                UpdateNode::Branch { children } => if k.len() == 1 {
                    None
                } else {
                    proof {
                        assert(decreases_to!(f => e));
                        assert(decreases_to!(e => e.node));
                        assert(decreases_to!(e.node => children));
                        assert(decreases_to!(children => children@));
                    }
                    lookup(children@, k.drop_first())
                },
            }
        } else {
            lookup(f.subrange(0, f.len() - 1), k)
        }
    }
}

/// `a` is a strict prefix of `b`.
pub open spec fn strict_prefix(a: Seq<Seq<char>>, b: Seq<Seq<char>>) -> bool {
    a.len() < b.len() && b.subrange(0, a.len() as int) == a
}

/// What is stored under `k` after storing `h` under `s` where `prev` was:
/// `s` gets `h`, paths through `s` or leading to it get nothing.
pub open spec fn after_store(
    prev: Option<Seq<char>>,
    s: Seq<Seq<char>>,
    h: Seq<char>,
    k: Seq<Seq<char>>,
) -> Option<Seq<char>> {
    if k == s {
        Some(h)
    } else if strict_prefix(k, s) || strict_prefix(s, k) {
        None
    } else {
        prev
    }
}

/// A change that the update tree records.
pub open spec fn is_update(c: Change) -> bool {
    c.class == ChangeClass::Added || c.class == ChangeClass::Modified
}

/// What the update tree built from `cs` stores under `k`.
pub open spec fn updates_lookup(cs: Seq<Change>, k: Seq<Seq<char>>) -> Option<Seq<char>>
    decreases cs.len(),
{
    if cs.len() == 0 {
        None
    } else {
        let c = cs.last();
        let prev = updates_lookup(cs.drop_last(), k);
        if is_update(c) {
            after_store(prev, split_segments(c.path@), c.hash@, k)
        } else {
            prev
        }
    }
}

/// The paths of the deleted changes of `cs`, in order.
pub open spec fn deleted_paths(cs: Seq<Change>) -> Seq<Seq<char>>
    decreases cs.len(),
{
    if cs.len() == 0 {
        seq![]
    } else if cs.last().class == ChangeClass::Deleted {
        deleted_paths(cs.drop_last()).push(cs.last().path@)
    } else {
        deleted_paths(cs.drop_last())
    }
}

/// The segments of a `/`-separated path.
pub fn split_path(p: &str) -> (r: Vec<String>)
    ensures
        r.deep_view() == split_segments(p@),
{
    let n = p.unicode_len();
    let mut done: Vec<String> = Vec::new();
    let mut cur = String::new();
    let mut i: usize = 0;
    assert(p@.subrange(0, 0) == Seq::<char>::empty());
    while i < n
        invariant
            n == p@.len(),
            i <= n,
            done.deep_view().push(cur@) == split_segments(p@.subrange(0, i as int)),
        decreases n - i,
    {
        let c = p.get_char(i);
        let ghost sub = p@.subrange(0, i + 1);
        assert(sub.drop_last() == p@.subrange(0, i as int));
        assert(sub.last() == c);
        if c == '/' {
            let seg = cur;
            done.push(seg);
            cur = String::new();
            assert(done.deep_view().push(cur@) == split_segments(sub));
        } else {
            push_char(&mut cur, c);
            assert(done.deep_view().push(cur@) == split_segments(sub));
        }
        i = i + 1;
    }
    assert(p@.subrange(0, n as int) == p@);
    done.push(cur);

    done
}

proof fn lemma_lookup_push(f: Seq<UpdateEntry>, e: UpdateEntry, k: Seq<Seq<char>>)
    ensures
        lookup(f.push(e), k) == if k.len() > 0 && e.name@ == k[0] {
            lookup(seq![e], k)
        } else {
            lookup(f, k)
        },
{
    let g = f.push(e);
    assert(g.subrange(0, g.len() - 1) == f);
    assert(g[g.len() - 1] == e);
    let one = seq![e];
    assert(one.subrange(0, 0) == Seq::<UpdateEntry>::empty());
    assert(one[0] == e);
}

proof fn lemma_lookup_absent(f: Seq<UpdateEntry>, k: Seq<Seq<char>>)
    requires
        k.len() > 0,
        forall|j: int| 0 <= j < f.len() ==> (#[trigger] f[j]).name@ != k[0],
    ensures
        lookup(f, k) is None,
    decreases f.len(),
{
    if f.len() > 0 {
        let g = f.subrange(0, f.len() - 1);
        assert forall|j: int| 0 <= j < g.len() implies (#[trigger] g[j]).name@ != k[0] by {
            assert(g[j] == f[j]);
        }
        lemma_lookup_absent(g, k);
    }
}

proof fn lemma_lookup_update(f: Seq<UpdateEntry>, p: int, e: UpdateEntry, k: Seq<Seq<char>>)
    requires
        0 <= p < f.len(),
        f[p].name@ == e.name@,
        forall|j: int| p < j < f.len() ==> (#[trigger] f[j]).name@ != e.name@,
    ensures
        lookup(f.update(p, e), k) == if k.len() > 0 && e.name@ == k[0] {
            lookup(seq![e], k)
        } else {
            lookup(f, k)
        },
    decreases f.len(),
{
    let g = f.update(p, e);
    let fl = f.subrange(0, f.len() - 1);
    if p == f.len() - 1 {
        assert(g == fl.push(e));
        lemma_lookup_push(fl, e, k);
    } else {
        let last = f[f.len() - 1];
        assert(g == fl.update(p, e).push(last));
        lemma_lookup_push(fl.update(p, e), last, k);
        lemma_lookup_push(fl, last, k);
        assert(f == fl.push(last));
        assert forall|j: int| p < j < fl.len() implies (#[trigger] fl[j]).name@ != e.name@ by {
            assert(fl[j] == f[j]);
        }
        lemma_lookup_update(fl, p, e, k);
    }
}

proof fn lemma_after_store_shift(s: Seq<Seq<char>>, k: Seq<Seq<char>>, h: Seq<char>, prev: Option<Seq<char>>)
    requires
        s.len() > 0,
        k.len() > 0,
        s[0] == k[0],
    ensures
        after_store(prev, s, h, k) == after_store(prev, s.drop_first(), h, k.drop_first()),
{
    let s1 = s.drop_first();
    let k1 = k.drop_first();
    assert(s == seq![s[0]] + s1);
    assert(k == seq![k[0]] + k1);
    if k1 == s1 {
        assert(k == s);
    }
    if strict_prefix(k, s) {
        assert(s1.subrange(0, k1.len() as int) == s.subrange(0, k.len() as int).drop_first());
    }
    if strict_prefix(k1, s1) {
        assert(s.subrange(0, k.len() as int) == seq![s[0]] + s1.subrange(0, k1.len() as int));
    }
    if strict_prefix(s, k) {
        assert(k1.subrange(0, s1.len() as int) == k.subrange(0, s.len() as int).drop_first());
    }
    if strict_prefix(s1, k1) {
        assert(k.subrange(0, s.len() as int) == seq![k[0]] + k1.subrange(0, s1.len() as int));
    }
}

/// One level of the update tree: no two entries share a name, and every
/// directory segment holds at least one entry, down to the files.
pub open spec fn tree_ok(f: Seq<UpdateEntry>) -> bool
    decreases f,
{
    &&& forall|i: int, j: int|
        0 <= i < f.len() && 0 <= j < f.len() && i != j ==> f[i].name@ != f[j].name@
    &&& forall|i: int|
        0 <= i < f.len() ==> match (#[trigger] f[i]).node {
            UpdateNode::Leaf { .. } => true,
            UpdateNode::Branch { children } => {
                proof {
                    assert(decreases_to!(f => f[i]));
                    assert(decreases_to!(f[i] => f[i].node));
                    assert(decreases_to!(f[i].node => children));
                    assert(decreases_to!(children => children@));
                }
                children@.len() > 0 && tree_ok(children@)
            },
        }
}

/// An entry that may stand in a well-shaped update tree.
pub open spec fn entry_ok(e: UpdateEntry) -> bool {
    match e.node {
        UpdateNode::Leaf { .. } => true,
        UpdateNode::Branch { children } => children@.len() > 0 && tree_ok(children@),
    }
}

proof fn lemma_tree_ok_update(f: Seq<UpdateEntry>, p: int, e: UpdateEntry)
    requires
        tree_ok(f),
        0 <= p < f.len(),
        e.name@ == f[p].name@,
        entry_ok(e),
    ensures
        tree_ok(f.update(p, e)),
{
    let g = f.update(p, e);
    assert forall|i: int| 0 <= i < g.len() implies entry_ok(#[trigger] g[i]) by {
        if i != p {
            assert(g[i] == f[i]);
            assert(entry_ok(f[i]));
        }
    }
    assert forall|i: int, j: int|
        0 <= i < g.len() && 0 <= j < g.len() && i != j implies g[i].name@ != g[j].name@ by {
        assert(g[i].name@ == f[i].name@);
        assert(g[j].name@ == f[j].name@);
    }
}

proof fn lemma_tree_ok_push(f: Seq<UpdateEntry>, e: UpdateEntry)
    requires
        tree_ok(f),
        forall|j: int| 0 <= j < f.len() ==> (#[trigger] f[j]).name@ != e.name@,
        entry_ok(e),
    ensures
        tree_ok(f.push(e)),
{
    let g = f.push(e);
    assert forall|i: int| 0 <= i < g.len() implies entry_ok(#[trigger] g[i]) by {
        if i < f.len() {
            assert(g[i] == f[i]);
            assert(entry_ok(f[i]));
        }
    }
    assert forall|i: int, j: int|
        0 <= i < g.len() && 0 <= j < g.len() && i != j implies g[i].name@ != g[j].name@ by {
        if i < f.len() && j < f.len() {
            assert(g[i] == f[i] && g[j] == f[j]);
        } else if i < f.len() {
            assert(g[i] == f[i]);
        } else {
            assert(g[j] == f[j]);
        }
    }
}

/// The last position of an entry named `name`.
fn find_last(f: &Vec<UpdateEntry>, name: &String) -> (r: Option<usize>)
    ensures
        r matches Some(p) ==> p < f@.len() && f@[p as int].name@ == name@ && forall|j: int|
            p < j < f@.len() ==> (#[trigger] f@[j]).name@ != name@,
        r is None ==> forall|j: int| 0 <= j < f@.len() ==> (#[trigger] f@[j]).name@ != name@,
{
    let mut j: usize = f.len();
    while j > 0
        invariant
            j <= f@.len(),
            forall|q: int| j <= q < f@.len() ==> (#[trigger] f@[q]).name@ != name@,
        decreases j,
    {
        if f[j - 1].name == *name {
            return Some(j - 1);
        }
        j = j - 1;
    }
    None
}

/// Stores `h` under the segment path `segs[i..]`, making directory
/// segments on the way as needed.
fn store(f: &mut Vec<UpdateEntry>, segs: &Vec<String>, i: usize, h: &String)
    requires
        i < segs@.len(),
        tree_ok(old(f)@),
    ensures
        tree_ok(final(f)@),
        final(f)@.len() > 0,
        forall|k: Seq<Seq<char>>|
            #![trigger lookup(final(f)@, k)]
            lookup(final(f)@, k) == after_store(lookup(old(f)@, k), segs.deep_view().skip(i as int), h@, k),
    decreases segs@.len() - i,
{
    let ghost s = segs.deep_view().skip(i as int);
    let ghost f0 = f@;
    let name = &segs[i];
    assert(s[0] == name@);
    let found = find_last(f, name);
    if i == segs.len() - 1 {
        let leaf = UpdateEntry { name: name.clone(), node: UpdateNode::Leaf { hash: h.clone() } };
        let ghost le = leaf;
        match found {
            Some(p) => {
                f.set(p, leaf);
            },
            None => {
                f.push(leaf);
            },
        }
        proof {
            match found {
                Some(p) => {
                    assert(f@ == f0.update(p as int, le));
                    lemma_tree_ok_update(f0, p as int, le);
                },
                None => {
                    assert(f@ == f0.push(le));
                    lemma_tree_ok_push(f0, le);
                },
            }
            let one = seq![le];
            assert(one.subrange(0, 0) == Seq::<UpdateEntry>::empty());
            assert(one[0] == le);
            assert forall|k: Seq<Seq<char>>|
                #![trigger lookup(f@, k)]
                lookup(f@, k) == after_store(lookup(f0, k), s, h@, k) by {
                match found {
                    Some(p) => {
                        assert(f@ == f0.update(p as int, le));
                        lemma_lookup_update(f0, p as int, le, k);
                    },
                    None => {
                        assert(f@ == f0.push(le));
                        lemma_lookup_push(f0, le, k);
                    },
                }
                if k.len() == 0 {
                    assert(s.subrange(0, 0) == k);
                } else if k[0] == name@ {
                    if k.len() == 1 {
                        assert(k == s);
                    } else {
                        assert(k.subrange(0, 1) == s);
                    }
                } else {
                    if strict_prefix(s, k) {
                        assert(k.subrange(0, 1)[0] == k[0]);
                    }
                }
            }
        }
    } else {
        let ghost inner_old: Seq<UpdateEntry>;
        let mut inner: Vec<UpdateEntry> = match found {
            Some(p) => {
                let e = f.remove(p);
                proof {
                    assert(e == f0[p as int]);
                    assert(entry_ok(f0[p as int]));
                }
                match e.node {
                    UpdateNode::Branch { children } => {
                        assert(tree_ok(children@));
                        children
                    },
                    UpdateNode::Leaf { .. } => Vec::new(),
                }
            },
            None => Vec::new(),
        };
        proof {
            inner_old = inner@;
        }
        store(&mut inner, segs, i + 1, h);
        let ent = UpdateEntry { name: name.clone(), node: UpdateNode::Branch { children: inner } };
        let ghost en = ent;
        match found {
            Some(p) => {
                f.insert(p, ent);
            },
            None => {
                f.push(ent);
            },
        }
        proof {
            assert(entry_ok(en));
            match found {
                Some(p) => {
                    assert(f@ == f0.update(p as int, en));
                    lemma_tree_ok_update(f0, p as int, en);
                },
                None => {
                    assert(f@ == f0.push(en));
                    lemma_tree_ok_push(f0, en);
                },
            }
            assert(segs.deep_view().skip(i + 1) == s.drop_first());
            let one = seq![en];
            assert(one.subrange(0, 0) == Seq::<UpdateEntry>::empty());
            assert(one[0] == en);
            assert forall|k: Seq<Seq<char>>|
                #![trigger lookup(f@, k)]
                lookup(f@, k) == after_store(lookup(f0, k), s, h@, k) by {
                match found {
                    Some(p) => {
                        assert(f@ == f0.update(p as int, en));
                        lemma_lookup_update(f0, p as int, en, k);
                        let old_e = f0[p as int];
                        lemma_lookup_update(f0, p as int, old_e, k);
                        assert(f0.update(p as int, old_e) == f0);
                    },
                    None => {
                        assert(f@ == f0.push(en));
                        lemma_lookup_push(f0, en, k);
                        if k.len() > 0 && k[0] == name@ {
                            lemma_lookup_absent(f0, k);
                        }
                    },
                }
                if k.len() == 0 {
                    assert(s.subrange(0, 0) == k);
                } else if k[0] == name@ {
                    if k.len() == 1 {
                        assert(s.subrange(0, 1) == k);
                    } else {
                        lemma_after_store_shift(s, k, h@, lookup(f0, k));
                        let k1 = k.drop_first();
                        assert(lookup(f@, k) == lookup(inner@, k1));
                        assert(lookup(f0, k) == lookup(inner_old, k1));
                    }
                } else {
                    if strict_prefix(s, k) {
                        assert(k.subrange(0, s.len() as int)[0] == k[0]);
                    }
                    if strict_prefix(k, s) {
                        assert(s.subrange(0, k.len() as int)[0] == s[0]);
                    }
                }
            }
        }
    }
}

fn lookup_segments<'a>(f: &'a Vec<UpdateEntry>, segs: &Vec<String>, i: usize) -> (r: Option<&'a String>)
    requires
        i <= segs@.len(),
    ensures
        match r {
            Some(h) => lookup(f@, segs.deep_view().skip(i as int)) == Some(h@),
            None => lookup(f@, segs.deep_view().skip(i as int)) is None,
        },
    decreases segs@.len() - i,
{
    let ghost k = segs.deep_view().skip(i as int);
    if i == segs.len() {
        return None;
    }
    assert(k[0] == segs@[i as int]@);
    match find_last(f, &segs[i]) {
        None => {
            proof {
                lemma_lookup_absent(f@, k);
            }
            None
        },
        Some(p) => {
            proof {
                lemma_lookup_update(f@, p as int, f@[p as int], k);
                assert(f@.update(p as int, f@[p as int]) == f@);
                let one = seq![f@[p as int]];
                assert(one.subrange(0, 0) == Seq::<UpdateEntry>::empty());
                assert(one[0] == f@[p as int]);
            }
            match &f[p].node {
                UpdateNode::Leaf { hash } => if i + 1 == segs.len() {
                    Some(hash)
                } else {
                    None
                },
                UpdateNode::Branch { children } => if i + 1 == segs.len() {
                    None
                } else {
                    assert(segs.deep_view().skip(i + 1) == k.drop_first());
                    lookup_segments(children, segs, i + 1)
                },
            }
        },
    }
}

/// The digest that the update tree stores for the `/`-separated `path`.
pub fn lookup_update(update: &Vec<UpdateEntry>, path: &str) -> (r: Option<String>)
    ensures
        match r {
            Some(h) => lookup(update@, split_segments(path@)) == Some(h@),
            None => lookup(update@, split_segments(path@)) is None,
        },
{
    let segs = split_path(path);
    assert(segs.deep_view().skip(0) == segs.deep_view());
    match lookup_segments(update, &segs, 0) {
        Some(h) => Some(h.clone()),
        None => None,
    }
}

/// The version of the manifest schema.
pub open spec fn manifest_version() -> Seq<char> {
    seq!['1', '.', '0']
}

/// `m` is the manifest of the changes `cs`, taken in order.
pub open spec fn manifest_of(m: Manifest, cs: Seq<Change>) -> bool {
    &&& m.version@ == manifest_version()
    &&& tree_ok(m.update@)
    &&& (forall|i: int| 0 <= i < cs.len() ==> !is_update(#[trigger] cs[i])) ==> m.update@.len() == 0
    &&& forall|k: Seq<Seq<char>>| #[trigger] lookup(m.update@, k) == updates_lookup(cs, k)
    &&& m.deleted.deep_view() == deleted_paths(cs)
}

/// The manifest of a sequence of changes: each added or modified path is
/// stored with its digest in the update tree, each deleted path appended to
/// the deleted list; unchanged paths leave no trace.
pub fn build_manifest(changes: &Vec<Change>) -> (r: Manifest)
    ensures
        manifest_of(r, changes@),
{
    let mut update: Vec<UpdateEntry> = Vec::new();
    let mut deleted: Vec<String> = Vec::new();
    assert(tree_ok(update@));
    let mut i: usize = 0;
    while i < changes.len()
        invariant
            i <= changes@.len(),
            forall|k: Seq<Seq<char>>|
                #![trigger lookup(update@, k)]
                lookup(update@, k) == updates_lookup(changes@.subrange(0, i as int), k),
            tree_ok(update@),
            (forall|j: int| 0 <= j < i ==> !is_update(#[trigger] changes@[j])) ==> update@.len() == 0,
            deleted.deep_view() == deleted_paths(changes@.subrange(0, i as int)),
        decreases changes@.len() - i,
    {
        let c = &changes[i];
        let ghost sub = changes@.subrange(0, i + 1);
        assert(sub.drop_last() == changes@.subrange(0, i as int));
        assert(sub.last() == *c);
        match c.class {
            ChangeClass::Added | ChangeClass::Modified => {
                let segs = split_path(c.path.as_str());
                proof {
                    assert(segs.deep_view().len() > 0) by {
                        lemma_split_nonempty(c.path@);
                    }
                    assert(segs.deep_view().skip(0) == segs.deep_view());
                }
                store(&mut update, &segs, 0, &c.hash);
                assert(is_update(changes@[i as int]));
            },
            ChangeClass::Deleted => {
                deleted.push(c.path.clone());
                assert(deleted.deep_view() == deleted_paths(sub));
            },
            ChangeClass::Unchanged => {},
        }
        i = i + 1;
    }
    assert(changes@.subrange(0, i as int) == changes@);
    let version = String::from_str("1.0");
    proof {
        reveal_strlit("1.0");
        assert(version@ =~= manifest_version());
    }
    Manifest { version, update, deleted }
}

pub(crate) proof fn lemma_split_nonempty(s: Seq<char>)
    ensures
        split_segments(s).len() > 0,
    decreases s.len(),
{
    if s.len() > 0 {
        lemma_split_nonempty(s.drop_last());
    }
}

/// The paths that `new` adds or changes, with their new digests.
pub open spec fn changed_between(
    old: Map<Seq<char>, Seq<char>>,
    new: Map<Seq<char>, Seq<char>>,
) -> Map<Seq<char>, Seq<char>> {
    Map::new(
        |p: Seq<char>| new.contains_key(p) && (!old.contains_key(p) || old[p] != new[p]),
        |p: Seq<char>| new[p],
    )
}

/// The migration manifest between two snapshots: both are flattened, every
/// path classified, and the changes recorded. The deleted list holds exactly
/// the paths that only `before` has, in `before`'s depth-first order of
/// names where `before` is well formed; everything the update tree holds is an
/// added or modified path of `after` with its new digest, and where `after`
/// is well formed, the update tree holds exactly those.
pub fn generate_migration(before: &SnapshotNode, after: &SnapshotNode) -> (r: Manifest)
    ensures
        exists|cs: Seq<Change>|
            is_diff(snapshot_map(*before), snapshot_map(*after), cs) && manifest_of(r, cs),
        forall|j: int|
            0 <= j < r.deleted@.len() ==> snapshot_map(*before).contains_key(
                #[trigger] r.deleted@[j]@,
            ) && !snapshot_map(*after).contains_key(r.deleted@[j]@),
        forall|p: Seq<char>|
            snapshot_map(*before).contains_key(p) && !snapshot_map(*after).contains_key(p)
                ==> exists|j: int| 0 <= j < r.deleted@.len() && #[trigger] r.deleted@[j]@ == p,
        forall|p: Seq<char>|
            #[trigger] update_map(r.update@).contains_key(p) ==> {
                &&& snapshot_map(*after).contains_key(p)
                &&& (!snapshot_map(*before).contains_key(p) || snapshot_map(*before)[p]
                    != snapshot_map(*after)[p])
                &&& update_map(r.update@)[p] == snapshot_map(*after)[p]
            },
        node_wf(*after) ==> update_map(r.update@) == changed_between(
            snapshot_map(*before),
            snapshot_map(*after),
        ),
        tree_ok(r.update@),
        r.version@ == manifest_version(),
        (r.update@.len() == 0 && r.deleted@.len() == 0) <==> snapshot_map(*before) == snapshot_map(
            *after,
        ),
        node_wf(*before) ==> r.deleted.deep_view() == only_in_old(
            snapshot_paths(*before),
            snapshot_map(*after),
        ),
{
    let old_map = before.flatten();
    let new_map = after.flatten();
    let changes = diff(&old_map, &new_map);
    let r = build_manifest(&changes);
    proof {
        let o = snapshot_map(*before);
        let n = snapshot_map(*after);
        let cs = changes@;
        assert(is_diff(o, n, cs) && manifest_of(r, cs));
        law_empty_manifest_iff_identical(o, n, cs, r);
        let nn = new_map.entry_seq().len() as int;
        new_map.lemma_entries();
        assert forall|j: int| 0 <= j < nn implies (#[trigger] cs[j]).class != ChangeClass::Deleted by {
            assert(n.contains_key(new_map.entry_seq()[j].path@));
            assert(crate::diff::change_of(o, n, cs[j]));
        }
        lemma_deleted_split(cs, nn);
        assert forall|j: int| 0 <= j < r.deleted@.len() implies o.contains_key(
            #[trigger] r.deleted@[j]@,
        ) && !n.contains_key(r.deleted@[j]@) by {
            assert(r.deleted.deep_view()[j] == r.deleted@[j]@);
            lemma_deleted_source(cs, j);
            let i = choose|i: int|
                0 <= i < cs.len() && cs[i].class == ChangeClass::Deleted && #[trigger] cs[i].path@
                    == deleted_paths(cs)[j];
            assert(crate::diff::change_of(o, n, cs[i]));
        }
        assert forall|p: Seq<char>|
            o.contains_key(p) && !n.contains_key(p) implies exists|j: int|
                0 <= j < r.deleted@.len() && #[trigger] r.deleted@[j]@ == p by {
            let i = choose|i: int| 0 <= i < cs.len() && #[trigger] cs[i].path@ == p;
            assert(crate::diff::change_of(o, n, cs[i]));
            lemma_deleted_complete(cs, i);
            let j = choose|j: int| 0 <= j < deleted_paths(cs).len() && deleted_paths(cs)[j] == p;
            assert(r.deleted.deep_view()[j] == r.deleted@[j]@);
        }
        assert forall|p: Seq<char>| #[trigger] update_map(r.update@).contains_key(p) implies {
            &&& n.contains_key(p)
            &&& (!o.contains_key(p) || o[p] != n[p])
            &&& update_map(r.update@)[p] == n[p]
        } by {
            let k = split_segments(p);
            assert(lookup(r.update@, k) == updates_lookup(cs, k));
            lemma_updates_lookup_source(cs, k);
            let i = choose|i: int|
                0 <= i < cs.len() && is_update(cs[i]) && split_segments(#[trigger] cs[i].path@) == k
                    && updates_lookup(cs, k) == Some(cs[i].hash@);
            lemma_split_injective(cs[i].path@, p);
            assert(crate::diff::change_of(o, n, cs[i]));
        }
        if node_wf(*after) {
            lemma_snapshot_prefix_free(*after);
            assert forall|i: int, j: int|
                0 <= i < cs.len() && 0 <= j < cs.len() && i != j && is_update(cs[i]) && is_update(
                    cs[j],
                ) implies cs[i].path@ != cs[j].path@ && !strict_prefix(
                split_segments(#[trigger] cs[i].path@),
                split_segments(#[trigger] cs[j].path@),
            ) by {
                assert(crate::diff::change_of(o, n, cs[i]));
                assert(crate::diff::change_of(o, n, cs[j]));
                assert(n.contains_key(cs[i].path@) && n.contains_key(cs[j].path@));
            }
            law_update_round_trip(r, cs);
            let c = changed_between(o, n);
            let cm = changed_map(cs);
            assert forall|p: Seq<char>| #[trigger] cm.contains_key(p) <==> c.contains_key(p) by {
                if cm.contains_key(p) {
                    let i = choose|i: int| 0 <= i < cs.len() && is_update(cs[i]) && cs[i].path@ == p;
                    assert(crate::diff::change_of(o, n, cs[i]));
                }
                if c.contains_key(p) {
                    let i = choose|i: int| 0 <= i < cs.len() && #[trigger] cs[i].path@ == p;
                    assert(crate::diff::change_of(o, n, cs[i]));
                    assert(is_update(cs[i]));
                }
            }
            assert forall|p: Seq<char>| #[trigger] cm.contains_key(p) implies cm[p] == c[p] by {
                let i = choose|i: int| 0 <= i < cs.len() && is_update(cs[i]) && cs[i].path@ == p;
                assert(crate::diff::change_of(o, n, cs[i]));
            }
            assert(cm =~= c);
        }
    }
    r
}

proof fn lemma_deleted_split(cs: Seq<Change>, nn: int)
    requires
        0 <= nn <= cs.len(),
        forall|j: int| 0 <= j < nn ==> (#[trigger] cs[j]).class != ChangeClass::Deleted,
        forall|j: int| nn <= j < cs.len() ==> (#[trigger] cs[j]).class == ChangeClass::Deleted,
    ensures
        deleted_paths(cs) == change_paths(cs.subrange(nn, cs.len() as int)),
    decreases cs.len(),
{
    if cs.len() == nn {
        lemma_no_deletions(cs);
        assert(change_paths(cs.subrange(nn, cs.len() as int)) =~= Seq::<Seq<char>>::empty());
    } else {
        let t = cs.drop_last();
        assert(cs[cs.len() - 1].class == ChangeClass::Deleted);
        assert forall|j: int| 0 <= j < nn implies (#[trigger] t[j]).class != ChangeClass::Deleted by {
            assert(t[j] == cs[j]);
        }
        assert forall|j: int| nn <= j < t.len() implies (#[trigger] t[j]).class == ChangeClass::Deleted by {
            assert(t[j] == cs[j]);
        }
        lemma_deleted_split(t, nn);
        assert(cs.subrange(nn, cs.len() as int) == t.subrange(nn, t.len() as int).push(cs.last()));
        assert(change_paths(cs.subrange(nn, cs.len() as int)) =~= change_paths(
            t.subrange(nn, t.len() as int),
        ).push(cs.last().path@));
    }
}

proof fn lemma_deleted_complete(cs: Seq<Change>, i: int)
    requires
        0 <= i < cs.len(),
        cs[i].class == ChangeClass::Deleted,
    ensures
        exists|j: int| 0 <= j < deleted_paths(cs).len() && deleted_paths(cs)[j] == cs[i].path@,
    decreases cs.len(),
{
    let t = cs.drop_last();
    if i == cs.len() - 1 {
        let j = deleted_paths(t).len() as int;
        assert(0 <= j < deleted_paths(cs).len() && deleted_paths(cs)[j] == cs[i].path@);
    } else {
        assert(t[i] == cs[i]);
        lemma_deleted_complete(t, i);
        let j = choose|j: int| 0 <= j < deleted_paths(t).len() && deleted_paths(t)[j] == t[i].path@;
        if cs.last().class == ChangeClass::Deleted {
            assert(deleted_paths(cs)[j] == deleted_paths(t)[j]);
        }
        assert(0 <= j < deleted_paths(cs).len() && deleted_paths(cs)[j] == cs[i].path@);
    }
}

/// Segments joined back with `/`.
pub open spec fn join_segments(segs: Seq<Seq<char>>) -> Seq<char>
    decreases segs.len(),
{
    if segs.len() == 0 {
        seq![]
    } else if segs.len() == 1 {
        segs[0]
    } else {
        join_segments(segs.drop_last()) + seq!['/'] + segs.last()
    }
}

proof fn lemma_join_split(s: Seq<char>)
    ensures
        join_segments(split_segments(s)) == s,
    decreases s.len(),
{
    if s.len() > 0 {
        let t = s.drop_last();
        let r = split_segments(t);
        lemma_join_split(t);
        lemma_split_nonempty(t);
        if s.last() == '/' {
            assert(r.push(seq![]).drop_last() == r);
            assert(s == t + seq!['/'] + Seq::<char>::empty());
        } else {
            let u = r.update(r.len() - 1, r.last().push(s.last()));
            if r.len() == 1 {
                assert(s == t.push(s.last()));
            } else {
                assert(u.drop_last() == r.drop_last());
                assert(t == join_segments(r.drop_last()) + seq!['/'] + r.last());
                assert(s == t.push(s.last()));
                assert(s == join_segments(r.drop_last()) + seq!['/'] + r.last().push(s.last()));
            }
        }
    }
}

/// Splitting a path into segments loses nothing: two paths with the same
/// segments are the same path.
pub proof fn lemma_split_injective(a: Seq<char>, b: Seq<char>)
    requires
        split_segments(a) == split_segments(b),
    ensures
        a == b,
{
    lemma_join_split(a);
    lemma_join_split(b);
}

/// The update tree flattened back into a map from `/`-joined paths to
/// digests.
pub open spec fn update_map(f: Seq<UpdateEntry>) -> Map<Seq<char>, Seq<char>> {
    Map::new(
        |p: Seq<char>| lookup(f, split_segments(p)) is Some,
        |p: Seq<char>| lookup(f, split_segments(p))->Some_0,
    )
}

/// The added and modified paths of `cs` with their digests.
pub open spec fn changed_map(cs: Seq<Change>) -> Map<Seq<char>, Seq<char>> {
    Map::new(
        |p: Seq<char>| exists|i: int| 0 <= i < cs.len() && is_update(cs[i]) && cs[i].path@ == p,
        |p: Seq<char>|
            cs[choose|i: int| 0 <= i < cs.len() && is_update(cs[i]) && cs[i].path@ == p].hash@,
    )
}

/// No added or modified path of `cs` repeats another or lies below it, as
/// holds of the files of one snapshot.
pub open spec fn updates_prefix_free(cs: Seq<Change>) -> bool {
    forall|i: int, j: int|
        0 <= i < cs.len() && 0 <= j < cs.len() && i != j && is_update(cs[i]) && is_update(cs[j])
            ==> cs[i].path@ != cs[j].path@ && !strict_prefix(
            split_segments(#[trigger] cs[i].path@),
            split_segments(#[trigger] cs[j].path@),
        )
}

proof fn lemma_updates_lookup_source(cs: Seq<Change>, k: Seq<Seq<char>>)
    requires
        updates_lookup(cs, k) is Some,
    ensures
        exists|i: int|
            0 <= i < cs.len() && is_update(cs[i]) && split_segments(#[trigger] cs[i].path@) == k
                && updates_lookup(cs, k) == Some(cs[i].hash@),
    decreases cs.len(),
{
    let t = cs.drop_last();
    let c = cs.last();
    if is_update(c) && k == split_segments(c.path@) {
        assert(cs[cs.len() - 1] == c);
    } else {
        lemma_updates_lookup_source(t, k);
        let i = choose|i: int|
            0 <= i < t.len() && is_update(t[i]) && split_segments(#[trigger] t[i].path@) == k
                && updates_lookup(t, k) == Some(t[i].hash@);
        assert(cs[i] == t[i]);
    }
}

proof fn lemma_updates_lookup_stored(cs: Seq<Change>, i: int)
    requires
        updates_prefix_free(cs),
        0 <= i < cs.len(),
        is_update(cs[i]),
    ensures
        updates_lookup(cs, split_segments(cs[i].path@)) == Some(cs[i].hash@),
    decreases cs.len(),
{
    let t = cs.drop_last();
    let c = cs.last();
    let k = split_segments(cs[i].path@);
    if i == cs.len() - 1 {
    } else {
        assert forall|a: int, b: int|
            0 <= a < t.len() && 0 <= b < t.len() && a != b && is_update(t[a]) && is_update(t[b])
                implies t[a].path@ != t[b].path@ && !strict_prefix(
            split_segments(#[trigger] t[a].path@),
            split_segments(#[trigger] t[b].path@),
        ) by {
            assert(t[a] == cs[a] && t[b] == cs[b]);
        }
        assert(t[i] == cs[i]);
        lemma_updates_lookup_stored(t, i);
        if is_update(c) {
            let j = cs.len() - 1;
            assert(cs[j] == c);
            if k == split_segments(c.path@) {
                lemma_split_injective(cs[i].path@, c.path@);
            }
        }
    }
}

/// Flattening the update tree of a manifest gives back exactly the added
/// and modified paths with their digests, when no such path lies below
/// another.
pub proof fn law_update_round_trip(m: Manifest, cs: Seq<Change>)
    requires
        manifest_of(m, cs),
        updates_prefix_free(cs),
    ensures
        update_map(m.update@) == changed_map(cs),
{
    let l = update_map(m.update@);
    let r = changed_map(cs);
    assert forall|p: Seq<char>| #[trigger] l.contains_key(p) <==> r.contains_key(p) by {
        let k = split_segments(p);
        if l.contains_key(p) {
            assert(lookup(m.update@, k) == updates_lookup(cs, k));
            lemma_updates_lookup_source(cs, k);
            let i = choose|i: int|
                0 <= i < cs.len() && is_update(cs[i]) && split_segments(#[trigger] cs[i].path@) == k
                    && updates_lookup(cs, k) == Some(cs[i].hash@);
            lemma_split_injective(cs[i].path@, p);
        }
        if r.contains_key(p) {
            let i = choose|i: int| 0 <= i < cs.len() && is_update(cs[i]) && cs[i].path@ == p;
            lemma_updates_lookup_stored(cs, i);
            assert(lookup(m.update@, k) == updates_lookup(cs, k));
        }
    }
    assert forall|p: Seq<char>| #[trigger] l.contains_key(p) implies l[p] == r[p] by {
        let k = split_segments(p);
        let i = choose|i: int| 0 <= i < cs.len() && is_update(cs[i]) && cs[i].path@ == p;
        lemma_updates_lookup_stored(cs, i);
        assert(lookup(m.update@, k) == updates_lookup(cs, k));
    }
    assert(l =~= r);
}

proof fn lemma_deleted_source(cs: Seq<Change>, j: int)
    requires
        0 <= j < deleted_paths(cs).len(),
    ensures
        exists|i: int|
            0 <= i < cs.len() && cs[i].class == ChangeClass::Deleted && #[trigger] cs[i].path@
                == deleted_paths(cs)[j],
    decreases cs.len(),
{
    let t = cs.drop_last();
    if cs.last().class == ChangeClass::Deleted && j == deleted_paths(t).len() {
        assert(cs[cs.len() - 1] == cs.last());
    } else {
        lemma_deleted_source(t, j);
        let i = choose|i: int|
            0 <= i < t.len() && t[i].class == ChangeClass::Deleted && #[trigger] t[i].path@
                == deleted_paths(t)[j];
        assert(cs[i] == t[i]);
    }
}

/// No path of a migration is both updated and deleted: the update tree
/// holds nothing under a deleted path.
pub proof fn law_update_deleted_disjoint(
    old: Map<Seq<char>, Seq<char>>,
    new: Map<Seq<char>, Seq<char>>,
    cs: Seq<Change>,
    m: Manifest,
)
    requires
        is_diff(old, new, cs),
        manifest_of(m, cs),
    ensures
        forall|j: int|
            0 <= j < m.deleted@.len() ==> !update_map(m.update@).contains_key(
                #[trigger] m.deleted@[j]@,
            ),
{
    assert forall|j: int| 0 <= j < m.deleted@.len() implies !update_map(m.update@).contains_key(
        #[trigger] m.deleted@[j]@,
    ) by {
        let p = m.deleted@[j]@;
        assert(m.deleted.deep_view()[j] == p);
        lemma_deleted_source(cs, j);
        let i = choose|i: int|
            0 <= i < cs.len() && cs[i].class == ChangeClass::Deleted && #[trigger] cs[i].path@
                == deleted_paths(cs)[j];
        let k = split_segments(p);
        if update_map(m.update@).contains_key(p) {
            assert(lookup(m.update@, k) == updates_lookup(cs, k));
            lemma_updates_lookup_source(cs, k);
            let q = choose|q: int|
                0 <= q < cs.len() && is_update(cs[q]) && split_segments(#[trigger] cs[q].path@) == k
                    && updates_lookup(cs, k) == Some(cs[q].hash@);
            lemma_split_injective(cs[q].path@, p);
            assert(cs[q].class != cs[i].class);
        }
    }
}

proof fn lemma_no_updates(cs: Seq<Change>, k: Seq<Seq<char>>)
    requires
        forall|i: int| 0 <= i < cs.len() ==> !is_update(#[trigger] cs[i]),
    ensures
        updates_lookup(cs, k) is None,
    decreases cs.len(),
{
    if cs.len() > 0 {
        let t = cs.drop_last();
        assert(!is_update(cs[cs.len() - 1]));
        assert forall|i: int| 0 <= i < t.len() implies !is_update(#[trigger] t[i]) by {
            assert(t[i] == cs[i]);
        }
        lemma_no_updates(t, k);
    }
}

proof fn lemma_no_deletions(cs: Seq<Change>)
    requires
        forall|i: int| 0 <= i < cs.len() ==> (#[trigger] cs[i]).class != ChangeClass::Deleted,
    ensures
        deleted_paths(cs).len() == 0,
    decreases cs.len(),
{
    if cs.len() > 0 {
        let t = cs.drop_last();
        assert(cs[cs.len() - 1].class != ChangeClass::Deleted);
        assert forall|i: int| 0 <= i < t.len() implies (#[trigger] t[i]).class != ChangeClass::Deleted by {
            assert(t[i] == cs[i]);
        }
        lemma_no_deletions(t);
    }
}

proof fn lemma_some_update_stored(cs: Seq<Change>, i: int)
    requires
        0 <= i < cs.len(),
        is_update(cs[i]),
    ensures
        exists|j: int|
            0 <= j < cs.len() && is_update(cs[j]) && (updates_lookup(
                cs,
                split_segments(#[trigger] cs[j].path@),
            ) is Some),
    decreases cs.len(),
{
    let t = cs.drop_last();
    let c = cs.last();
    if is_update(c) {
        assert(cs[cs.len() - 1] == c);
        assert(updates_lookup(cs, split_segments(c.path@)) is Some);
    } else {
        assert(t[i] == cs[i]);
        lemma_some_update_stored(t, i);
        let j = choose|j: int|
            0 <= j < t.len() && is_update(t[j]) && (updates_lookup(
                t,
                split_segments(#[trigger] t[j].path@),
            ) is Some);
        assert(cs[j] == t[j]);
    }
}

proof fn lemma_deletion_recorded(cs: Seq<Change>, i: int)
    requires
        0 <= i < cs.len(),
        cs[i].class == ChangeClass::Deleted,
    ensures
        deleted_paths(cs).len() > 0,
    decreases cs.len(),
{
    if i < cs.len() - 1 {
        assert(cs.drop_last()[i] == cs[i]);
        lemma_deletion_recorded(cs.drop_last(), i);
    }
}

/// A manifest has an empty update tree and no deleted path exactly when the
/// two snapshots hold the same paths with the same digests.
pub proof fn law_empty_manifest_iff_identical(
    old: Map<Seq<char>, Seq<char>>,
    new: Map<Seq<char>, Seq<char>>,
    cs: Seq<Change>,
    m: Manifest,
)
    requires
        is_diff(old, new, cs),
        manifest_of(m, cs),
    ensures
        (m.update@.len() == 0 && m.deleted@.len() == 0) <==> old == new,
{
    assert(m.deleted@.len() == deleted_paths(cs).len());
    if old == new {
        assert forall|i: int| 0 <= i < cs.len() implies !is_update(#[trigger] cs[i])
            && cs[i].class != ChangeClass::Deleted by {
            assert(crate::diff::change_of(old, new, cs[i]));
        }
        lemma_no_deletions(cs);
    } else {
        if !(old =~= new) {
            let p = if exists|p: Seq<char>| old.contains_key(p) && !new.contains_key(p) {
                choose|p: Seq<char>| old.contains_key(p) && !new.contains_key(p)
            } else {
                choose|p: Seq<char>| new.contains_key(p) && (!old.contains_key(p) || old[p] != new[p])
            };
            let i = choose|i: int| 0 <= i < cs.len() && #[trigger] cs[i].path@ == p;
            assert(crate::diff::change_of(old, new, cs[i]));
            if cs[i].class == ChangeClass::Deleted {
                lemma_deletion_recorded(cs, i);
            } else {
                lemma_some_update_stored(cs, i);
                let j = choose|j: int|
                    0 <= j < cs.len() && is_update(cs[j]) && (updates_lookup(
                        cs,
                        split_segments(#[trigger] cs[j].path@),
                    ) is Some);
                let q = cs[j].path@;
                assert(lookup(m.update@, split_segments(q)) == updates_lookup(cs, split_segments(q)));
                assert(m.update@.len() > 0);
            }
        }
    }
}

} // verus!
