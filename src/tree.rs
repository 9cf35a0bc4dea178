//! The in-memory snapshot of a directory tree: files carry the digest of
//! their content, directories the digest of every file below them, visited
//! in the canonical order (children sorted by name at every level).
use vstd::prelude::*;

use crate::hasher::{children_digest, content_digest, hash_children, hash_content, push_char};
use crate::manifest::{split_segments, strict_prefix};
use crate::pathmap::{entry_views, insert_all, lemma_insert_all_concat, lemma_insert_all_source, PathMap};

verus! {

/// One node of a snapshot.
pub enum SnapshotNode {
    File { name: String, hash: String },
    Dir { name: String, hash: String, children: Vec<SnapshotNode> },
}

/// Why a directory node could not be built.
#[derive(Debug, PartialEq, Eq)]
pub enum TreeError {
    /// Two entries of one directory carry the same name.
    DuplicateName { name: String },
    /// An entry's name holds a `/`, which separates path segments.
    InvalidName { name: String },
}

pub open spec fn node_name(n: SnapshotNode) -> Seq<char> {
    match n {
        SnapshotNode::File { name, .. } => name@,
        SnapshotNode::Dir { name, .. } => name@,
    }
}

pub open spec fn node_hash(n: SnapshotNode) -> Seq<char> {
    match n {
        SnapshotNode::File { hash, .. } => hash@,
        SnapshotNode::Dir { hash, .. } => hash@,
    }
}

/// The canonical order on names: lexicographic by character code.
pub open spec fn name_lt(a: Seq<char>, b: Seq<char>) -> bool
    decreases a.len(),
{
    if a.len() == 0 {
        b.len() > 0
    } else if b.len() == 0 {
        false
    } else if a[0] == b[0] {
        name_lt(a.drop_first(), b.drop_first())
    } else {
        (a[0] as u32) < (b[0] as u32)
    }
}

/// Children in strictly increasing canonical order of their names.
pub open spec fn names_sorted(cs: Seq<SnapshotNode>) -> bool {
    forall|i: int, j: int|
        0 <= i < j < cs.len() ==> name_lt(#[trigger] node_name(cs[i]), #[trigger] node_name(cs[j]))
}

/// No two children share a name.
pub open spec fn names_distinct(cs: Seq<SnapshotNode>) -> bool {
    forall|i: int, j: int|
        0 <= i < cs.len() && 0 <= j < cs.len() && i != j ==> node_name(cs[i]) != node_name(cs[j])
}

/// The digests of every file in a sequence of sibling nodes, in depth-first
/// order, children in the order given.
pub open spec fn forest_digests(cs: Seq<SnapshotNode>) -> Seq<Seq<char>>
    decreases cs,
{
    if cs.len() == 0 {
        seq![]
    } else {
        let last = cs[cs.len() - 1];
        forest_digests(cs.subrange(0, cs.len() - 1)) + match last {
            SnapshotNode::File { hash, .. } => seq![hash@],
            SnapshotNode::Dir { children, .. } => {
                proof {
                    assert(decreases_to!(cs => last));
                    assert(decreases_to!(last => children));
                    assert(decreases_to!(children => children@));
                }
                forest_digests(children@)
            },
        }
    }
}

/// Every file in a sequence of sibling nodes with its path, depth first:
/// `prefix`, then the names of the directories on the way joined by `/`, then
/// the file's name.
pub open spec fn forest_paths(cs: Seq<SnapshotNode>, prefix: Seq<char>) -> Seq<(Seq<char>, Seq<char>)>
    decreases cs,
{
    if cs.len() == 0 {
        seq![]
    } else {
        let last = cs[cs.len() - 1];
        forest_paths(cs.subrange(0, cs.len() - 1), prefix) + match last {
            SnapshotNode::File { name, hash } => seq![(prefix + name@, hash@)],
            SnapshotNode::Dir { name, children, .. } => {
                proof {
                    assert(decreases_to!(cs => last));
                    assert(decreases_to!(last => children));
                    assert(decreases_to!(children => children@));
                }
                forest_paths(children@, prefix + name@ + seq!['/'])
            },
        }
    }
}

/// The files of a snapshot with their paths relative to its root. A root
/// that is itself a file has nothing below it.
pub open spec fn snapshot_paths(n: SnapshotNode) -> Seq<(Seq<char>, Seq<char>)> {
    match n {
        SnapshotNode::File { .. } => seq![],
        SnapshotNode::Dir { children, .. } => forest_paths(children@, seq![]),
    }
}

/// The path-to-digest map of a snapshot.
pub open spec fn snapshot_map(n: SnapshotNode) -> Map<Seq<char>, Seq<char>> {
    insert_all(Map::empty(), snapshot_paths(n))
}

/// The digest that a directory with these children carries.
pub open spec fn dir_digest(cs: Seq<SnapshotNode>) -> Seq<char> {
    children_digest(forest_digests(cs))
}

/// A name that can stand as one segment of a path: it holds no `/`.
pub open spec fn valid_name(n: Seq<char>) -> bool {
    forall|i: int| 0 <= i < n.len() ==> n[i] != '/'
}

/// A well-formed node: every directory's children have valid names, come in
/// canonical order, and its digest is the digest of the files below it.
pub open spec fn node_wf(n: SnapshotNode) -> bool
    decreases n,
{
    match n {
        SnapshotNode::File { .. } => true,
        SnapshotNode::Dir { hash, children, .. } => {
            &&& names_sorted(children@)
            &&& hash@ == dir_digest(children@)
            &&& forall|i: int| 0 <= i < children@.len() ==> valid_name(node_name(#[trigger] children@[i]))
            &&& forall|i: int|
                0 <= i < children@.len() ==> {
                    proof {
                        assert(decreases_to!(n => children));
                        assert(decreases_to!(children => children@));
                    }
                    node_wf(#[trigger] children@[i])
                }
        },
    }
}

proof fn lemma_name_lt_irreflexive(a: Seq<char>)
    ensures
        !name_lt(a, a),
    decreases a.len(),
{
    if a.len() > 0 {
        lemma_name_lt_irreflexive(a.drop_first());
    }
}

proof fn lemma_name_lt_asymmetric(a: Seq<char>, b: Seq<char>)
    ensures
        name_lt(a, b) ==> !name_lt(b, a),
    decreases a.len(),
{
    if a.len() > 0 && b.len() > 0 && a[0] == b[0] {
        lemma_name_lt_asymmetric(a.drop_first(), b.drop_first());
    }
}

proof fn lemma_name_lt_transitive(a: Seq<char>, b: Seq<char>, c: Seq<char>)
    requires
        name_lt(a, b),
        name_lt(b, c),
    ensures
        name_lt(a, c),
    decreases a.len(),
{
    if a.len() > 0 && b.len() > 0 && c.len() > 0 && a[0] == b[0] && b[0] == c[0] {
        lemma_name_lt_transitive(a.drop_first(), b.drop_first(), c.drop_first());
    }
}

proof fn lemma_name_lt_total(a: Seq<char>, b: Seq<char>)
    ensures
        a == b || name_lt(a, b) || name_lt(b, a),
    decreases a.len(),
{
    if a.len() > 0 && b.len() > 0 {
        if a[0] == b[0] {
            lemma_name_lt_total(a.drop_first(), b.drop_first());
            if a.drop_first() == b.drop_first() {
                assert(a == seq![a[0]] + a.drop_first());
                assert(b == seq![b[0]] + b.drop_first());
            }
        } else {
            vstd::utf8::char_u32_cast(a[0], a[0] as u32);
            vstd::utf8::char_u32_cast(b[0], b[0] as u32);
        }
    } else if a.len() == 0 && b.len() == 0 {
        assert(a == b);
    }
}

/// Whether `a` comes strictly before `b` in the canonical order of names.
pub fn name_less(a: &str, b: &str) -> (r: bool)
    ensures
        r == name_lt(a@, b@),
{
    let la = a.unicode_len();
    let lb = b.unicode_len();
    let mut i: usize = 0;
    assert(a@.skip(0) == a@);
    assert(b@.skip(0) == b@);
    while i < la && i < lb
        invariant
            la == a@.len(),
            lb == b@.len(),
            i <= la,
            i <= lb,
            name_lt(a@, b@) == name_lt(a@.skip(i as int), b@.skip(i as int)),
        decreases la - i,
    {
        let ca = a.get_char(i);
        let cb = b.get_char(i);
        assert(a@.skip(i as int)[0] == ca);
        assert(b@.skip(i as int)[0] == cb);
        if ca != cb {
            return (ca as u32) < (cb as u32);
        }
        assert(a@.skip(i as int).drop_first() == a@.skip(i + 1));
        assert(b@.skip(i as int).drop_first() == b@.skip(i + 1));
        i = i + 1;
    }
    la < lb
}

impl SnapshotNode {
    /// The node's name.
    pub fn name(&self) -> (r: &String)
        ensures
            r@ == node_name(*self),
    {
        match self {
            SnapshotNode::File { name, .. } => name,
            SnapshotNode::Dir { name, .. } => name,
        }
    }

    /// The node's digest.
    pub fn hash(&self) -> (r: &String)
        ensures
            r@ == node_hash(*self),
    {
        match self {
            SnapshotNode::File { hash, .. } => hash,
            SnapshotNode::Dir { hash, .. } => hash,
        }
    }
}

/// Whether `s` holds a `/`.
fn has_slash(s: &str) -> (r: bool)
    ensures
        r == !valid_name(s@),
{
    let n = s.unicode_len();
    let mut i: usize = 0;
    while i < n
        invariant
            n == s@.len(),
            i <= n,
            forall|j: int| 0 <= j < i ==> s@[j] != '/',
        decreases n - i,
    {
        if s.get_char(i) == '/' {
            return true;
        }
        i = i + 1;
    }
    false
}

/// Appends to `out` the digest of every file in `cs`, depth first.
fn collect_digests(cs: &Vec<SnapshotNode>, out: &mut Vec<String>)
    ensures
        final(out).deep_view() == old(out).deep_view() + forest_digests(cs@),
    decreases cs@,
{
    let mut i: usize = 0;
    while i < cs.len()
        invariant
            i <= cs@.len(),
            out.deep_view() == old(out).deep_view() + forest_digests(cs@.subrange(0, i as int)),
        decreases cs@.len() - i,
    {
        let ghost prev = out.deep_view();
        let ghost sub = cs@.subrange(0, i + 1);
        assert(sub.subrange(0, sub.len() - 1) == cs@.subrange(0, i as int));
        assert(sub[sub.len() - 1] == cs@[i as int]);
        match &cs[i] {
            SnapshotNode::File { hash, .. } => {
                out.push(hash.clone());
                assert(out.deep_view() == prev + seq![hash@]);
            },
            SnapshotNode::Dir { children, .. } => {
                assert(decreases_to!(cs@ => cs@[i as int]));
                collect_digests(children, out);
            },
        }
        i = i + 1;
    }
    assert(cs@.subrange(0, i as int) == cs@);
}

/// No path of `es` is in `m`, and no two pairs of `es` share a path.
pub open spec fn fresh_paths(m: Map<Seq<char>, Seq<char>>, es: Seq<(Seq<char>, Seq<char>)>) -> bool {
    &&& forall|i: int| 0 <= i < es.len() ==> !m.contains_key(#[trigger] es[i].0)
    &&& forall|i: int, j: int| 0 <= i < es.len() && 0 <= j < es.len() && i != j ==> es[i].0 != es[j].0
}

proof fn lemma_forest_paths_concat(a: Seq<SnapshotNode>, b: Seq<SnapshotNode>, prefix: Seq<char>)
    ensures
        forest_paths(a + b, prefix) == forest_paths(a, prefix) + forest_paths(b, prefix),
    decreases b.len(),
{
    if b.len() == 0 {
        assert(a + b == a);
    } else {
        let c = a + b;
        let b1 = b.subrange(0, b.len() - 1);
        assert(c.subrange(0, c.len() - 1) == a + b1);
        assert(c[c.len() - 1] == b[b.len() - 1]);
        lemma_forest_paths_concat(a, b1, prefix);
    }
}

/// Inserts into `out` every file below `cs` with its path, depth first.
fn collect_paths(cs: &Vec<SnapshotNode>, prefix: &String, out: &mut PathMap)
    requires
        old(out).wf(),
    ensures
        final(out).wf(),
        final(out)@ == insert_all(old(out)@, forest_paths(cs@, prefix@)),
        fresh_paths(old(out)@, forest_paths(cs@, prefix@)) ==> entry_views(final(out).entry_seq())
            == entry_views(old(out).entry_seq()) + forest_paths(cs@, prefix@),
    decreases cs@,
{
    let mut i: usize = 0;
    while i < cs.len()
        invariant
            i <= cs@.len(),
            out.wf(),
            out@ == insert_all(old(out)@, forest_paths(cs@.subrange(0, i as int), prefix@)),
            fresh_paths(old(out)@, forest_paths(cs@, prefix@)) ==> entry_views(out.entry_seq())
                == entry_views(old(out).entry_seq()) + forest_paths(cs@.subrange(0, i as int), prefix@),
        decreases cs@.len() - i,
    {
        let ghost before = out@;
        let ghost before_views = entry_views(out.entry_seq());
        let ghost sub = cs@.subrange(0, i + 1);
        assert(sub.subrange(0, sub.len() - 1) == cs@.subrange(0, i as int));
        assert(sub[sub.len() - 1] == cs@[i as int]);
        let ghost part = forest_paths(sub, prefix@).subrange(
            forest_paths(cs@.subrange(0, i as int), prefix@).len() as int,
            forest_paths(sub, prefix@).len() as int,
        );
        assert(forest_paths(sub, prefix@) == forest_paths(cs@.subrange(0, i as int), prefix@) + part);
        proof {
            lemma_insert_all_concat(old(out)@, forest_paths(cs@.subrange(0, i as int), prefix@), part);
            let full = forest_paths(cs@, prefix@);
            let head = forest_paths(cs@.subrange(0, i as int), prefix@);
            let rest = cs@.subrange(i + 1, cs@.len() as int);
            assert(sub + rest == cs@);
            lemma_forest_paths_concat(sub, rest, prefix@);
            assert(full == head + part + forest_paths(rest, prefix@));
            assert(fresh_paths(old(out)@, full) ==> fresh_paths(before, part)) by {
                if fresh_paths(old(out)@, full) {
                    assert forall|t: int| 0 <= t < part.len() implies !before.contains_key(
                        #[trigger] part[t].0,
                    ) by {
                        let x = part[t].0;
                        assert(full[head.len() + t] == part[t]);
                        if before.contains_key(x) {
                            lemma_insert_all_source(old(out)@, head, x);
                            if !old(out)@.contains_key(x) {
                                let u = choose|u: int| 0 <= u < head.len() && (#[trigger] head[u]).0 == x;
                                assert(full[u] == head[u]);
                            }
                        }
                    }
                    assert forall|a: int, b: int|
                        0 <= a < part.len() && 0 <= b < part.len() && a != b implies part[a].0
                        != part[b].0 by {
                        assert(full[head.len() + a] == part[a]);
                        assert(full[head.len() + b] == part[b]);
                    }
                }
            }
        }
        match &cs[i] {
            SnapshotNode::File { name, hash } => {
                let mut path = prefix.clone();
                path.append(name.as_str());
                assert(part == seq![(prefix@ + name@, hash@)]);
                assert(fresh_paths(old(out)@, forest_paths(cs@, prefix@)) ==> !before.contains_key(
                    part[0].0,
                ));
                out.insert(path, hash.clone());

                assert(part.drop_last() == Seq::<(Seq<char>, Seq<char>)>::empty());
                assert(insert_all(before, part) == insert_all(before, part.drop_last()).insert(
                    prefix@ + name@,
                    hash@,
                ));
            },
            SnapshotNode::Dir { name, children, .. } => {
                assert(decreases_to!(cs@ => cs@[i as int]));
                let mut sub_prefix = prefix.clone();
                sub_prefix.append(name.as_str());
                push_char(&mut sub_prefix, '/');
                assert(sub_prefix@ == prefix@ + name@ + seq!['/']);
                assert(part == forest_paths(children@, sub_prefix@));
                collect_paths(children, &sub_prefix, out);
            },
        }
        assert(forest_paths(sub, prefix@) == forest_paths(cs@.subrange(0, i as int), prefix@) + part);
        i = i + 1;
    }
    assert(cs@.subrange(0, i as int) == cs@);
}

/// `d` is the directory `name` holding exactly `entries`, in canonical order.
pub open spec fn dir_of(d: SnapshotNode, name: Seq<char>, entries: Seq<SnapshotNode>) -> bool {
    match d {
        SnapshotNode::Dir { name: n, hash, children } => {
            &&& n@ == name
            &&& names_sorted(children@)
            &&& children@.to_multiset() == entries.to_multiset()
            &&& hash@ == dir_digest(children@)
        },
        SnapshotNode::File { .. } => false,
    }
}

/// The first position in `sorted` whose name does not come before `name`.
fn insert_position(sorted: &Vec<SnapshotNode>, name: &str) -> (k: usize)
    ensures
        k <= sorted@.len(),
        forall|j: int| 0 <= j < k ==> name_lt(#[trigger] node_name(sorted@[j]), name@),
        k < sorted@.len() ==> !name_lt(node_name(sorted@[k as int]), name@),
{
    let mut k: usize = 0;
    while k < sorted.len()
        invariant
            k <= sorted@.len(),
            forall|j: int| 0 <= j < k ==> name_lt(#[trigger] node_name(sorted@[j]), name@),
        decreases sorted@.len() - k,
    {
        if !name_less(sorted[k].name().as_str(), name) {
            return k;
        }
        k = k + 1;
    }
    k
}

proof fn lemma_insert_sorted(s: Seq<SnapshotNode>, k: int, x: SnapshotNode)
    requires
        names_sorted(s),
        0 <= k <= s.len(),
        forall|j: int| 0 <= j < k ==> name_lt(#[trigger] node_name(s[j]), node_name(x)),
        k < s.len() ==> name_lt(node_name(x), node_name(s[k])),
    ensures
        names_sorted(s.insert(k, x)),
        forall|j: int| 0 <= j < s.len() ==> node_name(#[trigger] s[j]) != node_name(x),
{
    let t = s.insert(k, x);
    assert forall|i: int, j: int| 0 <= i < j < t.len() implies name_lt(
        #[trigger] node_name(t[i]),
        #[trigger] node_name(t[j]),
    ) by {
        if j == k {
        } else if i == k {
            if j > k + 1 {
                lemma_name_lt_transitive(node_name(x), node_name(s[k]), node_name(s[j - 1]));
            }
        } else if i < k && j > k {
            if k < s.len() {
                lemma_name_lt_transitive(node_name(s[i]), node_name(x), node_name(s[k]));
                if j > k + 1 {
                    lemma_name_lt_transitive(node_name(s[i]), node_name(s[k]), node_name(s[j - 1]));
                }
            }
        }
    }
    assert forall|j: int| 0 <= j < s.len() implies node_name(#[trigger] s[j]) != node_name(x) by {
        lemma_name_lt_irreflexive(node_name(x));
        if j > k {
            lemma_name_lt_transitive(node_name(x), node_name(s[k]), node_name(s[j]));
        }
    }
}

proof fn lemma_sorted_unique(s1: Seq<SnapshotNode>, s2: Seq<SnapshotNode>)
    requires
        names_sorted(s1),
        names_sorted(s2),
        s1.to_multiset() == s2.to_multiset(),
    ensures
        s1 == s2,
    decreases s1.len(),
{
    vstd::seq_lib::to_multiset_len(s1);
    vstd::seq_lib::to_multiset_len(s2);
    if s1.len() == 0 {
        assert(s2.to_multiset().len() == 0);
        assert(s1 == s2);
    } else {
        assert(s2.len() > 0);
        let a = s1[0];
        let b = s2[0];
        vstd::seq_lib::to_multiset_contains(s1, a);
        vstd::seq_lib::to_multiset_contains(s2, a);
        vstd::seq_lib::to_multiset_contains(s1, b);
        vstd::seq_lib::to_multiset_contains(s2, b);
        assert(s1.contains(a));
        assert(s2.contains(b));
        let p = choose|p: int| 0 <= p < s2.len() && s2[p] == a;
        let q = choose|q: int| 0 <= q < s1.len() && s1[q] == b;
        lemma_name_lt_irreflexive(node_name(a));
        lemma_name_lt_irreflexive(node_name(b));
        if p > 0 && q > 0 {
            lemma_name_lt_asymmetric(node_name(b), node_name(a));
        }
        assert(a == b);
        vstd::seq_lib::to_multiset_remove(s1, 0);
        vstd::seq_lib::to_multiset_remove(s2, 0);
        assert(s1.remove(0) == s1.drop_first());
        assert(s2.remove(0) == s2.drop_first());
        lemma_sorted_unique(s1.drop_first(), s2.drop_first());
        assert(s1 == seq![a] + s1.drop_first());
        assert(s2 == seq![b] + s2.drop_first());
    }
}

/// Scanning a directory twice, with its entries listed in any two orders,
/// gives the same children in the same order, and so the same digest.
pub proof fn law_rescan_same_directory(
    d1: SnapshotNode,
    d2: SnapshotNode,
    name: Seq<char>,
    listing1: Seq<SnapshotNode>,
    listing2: Seq<SnapshotNode>,
)
    requires
        listing1.to_multiset() == listing2.to_multiset(),
        dir_of(d1, name, listing1),
        dir_of(d2, name, listing2),
    ensures
        d1 matches SnapshotNode::Dir { children: c1, .. } && d2 matches SnapshotNode::Dir {
            children: c2,
            ..
        } && c1@ == c2@,
        node_hash(d1) == node_hash(d2),
{
    match (d1, d2) {
        (SnapshotNode::Dir { children: c1, .. }, SnapshotNode::Dir { children: c2, .. }) => {
            lemma_sorted_unique(c1@, c2@);
        },
        _ => {},
    }
}

impl SnapshotNode {
    /// The snapshot as a map from each file's path relative to this node to
    /// its digest.
    pub fn flatten(&self) -> (r: PathMap)
        ensures
            r.wf(),
            r@ == snapshot_map(*self),
            node_wf(*self) ==> entry_views(r.entry_seq()) == snapshot_paths(*self),
    {
        let mut out = PathMap::new();
        proof {
            assert(entry_views(out.entry_seq()) =~= Seq::<(Seq<char>, Seq<char>)>::empty());
        }
        match self {
            SnapshotNode::File { .. } => {},
            SnapshotNode::Dir { children, .. } => {
                let root = String::new();
                proof {
                    if node_wf(*self) {
                        lemma_snapshot_paths_fresh(*self);
                    }
                    assert(root@ == Seq::<char>::empty());
                }
                collect_paths(children, &root, &mut out);
                proof {
                    assert(Seq::<(Seq<char>, Seq<char>)>::empty() + forest_paths(children@, root@)
                        == forest_paths(children@, root@));
                }
            },
        }
        out
    }

    /// A file node: `name` with the digest of `content`.
    pub fn file(name: String, content: &[u8]) -> (r: SnapshotNode)
        ensures
            r matches SnapshotNode::File { name: n, hash } && n == name && hash@ == content_digest(
                content@,
            ),
            node_wf(r),
    {
        let hash = hash_content(content);
        SnapshotNode::File { name, hash }
    }

    /// A directory node named `name` holding `entries`, which may come in any
    /// order: they are put in canonical order, and the directory's digest is
    /// the digest of every file below it in that order. Fails when an
    /// entry's name holds a `/`, else when two entries share a name.
    pub fn directory(name: String, entries: Vec<SnapshotNode>) -> (r: Result<
        SnapshotNode,
        TreeError,
    >)
        requires
            forall|i: int| 0 <= i < entries@.len() ==> node_wf(#[trigger] entries@[i]),
        ensures
            r is Ok <==> names_distinct(entries@) && forall|i: int|
                0 <= i < entries@.len() ==> valid_name(node_name(#[trigger] entries@[i])),
            r matches Ok(d) ==> dir_of(d, name@, entries@) && node_wf(d),
            r matches Err(TreeError::DuplicateName { name: dup }) ==> exists|i: int, j: int|
                0 <= i < j < entries@.len() && node_name(#[trigger] entries@[i]) == dup@
                    && node_name(#[trigger] entries@[j]) == dup@,
            r matches Err(TreeError::InvalidName { name: bad }) ==> exists|i: int|
                0 <= i < entries@.len() && node_name(#[trigger] entries@[i]) == bad@ && !valid_name(
                    bad@,
                ),
    {
        let mut v: usize = 0;
        while v < entries.len()
            invariant
                v <= entries@.len(),
                forall|i: int| 0 <= i < v ==> valid_name(node_name(#[trigger] entries@[i])),
            decreases entries@.len() - v,
        {
            if has_slash(entries[v].name().as_str()) {
                return Err(TreeError::InvalidName { name: entries[v].name().clone() });
            }
            v = v + 1;
        }
        let ghost orig = entries@;
        let ghost n = orig.len();
        let mut pending = entries;
        let mut sorted: Vec<SnapshotNode> = Vec::new();
        broadcast use vstd::seq_lib::group_to_multiset_ensures;
        assert(orig.subrange(n as int, n as int) == Seq::<SnapshotNode>::empty());
        while pending.len() > 0
            invariant
                orig == entries@,
                forall|i: int| 0 <= i < orig.len() ==> valid_name(node_name(#[trigger] orig[i])),
                forall|i: int| 0 <= i < sorted@.len() ==> valid_name(node_name(#[trigger] sorted@[i])),
                pending@.len() <= n,
                pending@ == orig.subrange(0, pending@.len() as int),
                n == orig.len(),
                forall|i: int| 0 <= i < orig.len() ==> node_wf(#[trigger] orig[i]),
                names_sorted(sorted@),
                forall|i: int| 0 <= i < sorted@.len() ==> node_wf(#[trigger] sorted@[i]),
                sorted@.to_multiset() == orig.subrange(pending@.len() as int, n as int).to_multiset(),
                names_distinct(orig.subrange(pending@.len() as int, n as int)),
            decreases pending@.len(),
        {
            let ghost prev = pending@;
            let x = pending.pop().unwrap();
            let m = pending.len();
            assert(prev[m as int] == orig[m as int]);
            assert(pending@ == orig.subrange(0, m as int));
            let ghost rest = orig.subrange(m + 1, n as int);
            let ghost here = orig.subrange(m as int, n as int);
            assert(x == orig[m as int]);
            assert(here == rest.insert(0, x));
            let k = insert_position(&sorted, x.name().as_str());
            if k < sorted.len() && !name_less(x.name().as_str(), sorted[k].name().as_str()) {
                let dup = x.name().clone();
                proof {
                    lemma_name_lt_total(node_name(x), node_name(sorted@[k as int]));
                    let y = sorted@[k as int];
                    assert(sorted@.contains(y));
                    vstd::seq_lib::to_multiset_contains(sorted@, y);
                    vstd::seq_lib::to_multiset_contains(rest, y);
                    assert(rest.contains(y));
                    let j = choose|j: int| 0 <= j < rest.len() && rest[j] == y;
                    assert(orig[m + 1 + j] == y);
                    assert(dup@ == node_name(x));
                    assert(node_name(orig[m as int]) == dup@);
                    assert(node_name(orig[m + 1 + j]) == dup@);
                    assert(m < m + 1 + j < orig.len());
                    assert(!names_distinct(orig));
                    assert(orig == entries@);
                }
                return Err(TreeError::DuplicateName { name: dup });
            }
            proof {
                if k < sorted.len() {
                    lemma_name_lt_total(node_name(x), node_name(sorted@[k as int]));
                }
                lemma_insert_sorted(sorted@, k as int, x);
                assert forall|i: int, j: int|
                    0 <= i < here.len() && 0 <= j < here.len() && i != j implies node_name(here[i])
                    != node_name(here[j]) by {
                    if i > 0 && j > 0 {
                        assert(here[i] == rest[i - 1]);
                        assert(here[j] == rest[j - 1]);
                    } else {
                        let o = if i == 0 { j } else { i };
                        let y = rest[o - 1];
                        assert(rest.contains(y));
                        vstd::seq_lib::to_multiset_contains(sorted@, y);
                        vstd::seq_lib::to_multiset_contains(rest, y);
                        assert(sorted@.contains(y));
                        let p = choose|p: int| 0 <= p < sorted@.len() && sorted@[p] == y;
                        assert(node_name(sorted@[p]) != node_name(x));
                    }
                }
            }
            let ghost before = sorted@;
            sorted.insert(k, x);
            proof {
                vstd::seq_lib::to_multiset_insert(before, k as int, x);
                vstd::seq_lib::to_multiset_insert(rest, 0, x);
                assert(orig.subrange(pending@.len() as int, n as int) == here);
                assert forall|i: int| 0 <= i < sorted@.len() implies node_wf(#[trigger] sorted@[i]) by {
                    if i > k {
                        assert(sorted@[i] == before[i - 1]);
                    }
                }
                assert forall|i: int| 0 <= i < sorted@.len() implies valid_name(node_name(#[trigger] sorted@[i])) by {
                    if i > k {
                        assert(sorted@[i] == before[i - 1]);
                    } else if i < k {
                        assert(sorted@[i] == before[i]);
                    }
                }
            }
        }
        assert(orig.subrange(0, n as int) == orig);
        let mut digests: Vec<String> = Vec::new();
        collect_digests(&sorted, &mut digests);
        assert(digests.deep_view() == forest_digests(sorted@));
        let hash = hash_children(&digests);
        Ok(SnapshotNode::Dir { name, hash, children: sorted })
    }
}

/// The names on the way to every file in a sequence of sibling nodes,
/// depth first: one list of segments per file.
pub open spec fn forest_lists(cs: Seq<SnapshotNode>) -> Seq<Seq<Seq<char>>>
    decreases cs,
{
    if cs.len() == 0 {
        seq![]
    } else {
        let last = cs[cs.len() - 1];
        forest_lists(cs.subrange(0, cs.len() - 1)) + match last {
            SnapshotNode::File { name, .. } => seq![seq![name@]],
            SnapshotNode::Dir { name, children, .. } => {
                proof {
                    assert(decreases_to!(cs => last));
                    assert(decreases_to!(last => children));
                    assert(decreases_to!(children => children@));
                }
                forest_lists(children@).map_values(|l: Seq<Seq<char>>| seq![name@] + l)
            },
        }
    }
}

/// `a` is a prefix of `b`, or `b` itself.
pub open spec fn seq_prefix(a: Seq<Seq<char>>, b: Seq<Seq<char>>) -> bool {
    a.len() <= b.len() && b.subrange(0, a.len() as int) == a
}

/// `prefix` is the path of the directory whose segments are `segs`,
/// followed by `/`; empty at the root.
pub open spec fn prefix_segs(prefix: Seq<char>, segs: Seq<Seq<char>>) -> bool {
    if segs.len() == 0 {
        prefix.len() == 0
    } else {
        prefix.len() > 0 && prefix.last() == '/' && split_segments(prefix.drop_last()) == segs
    }
}

proof fn lemma_split_concat(x: Seq<char>, y: Seq<char>)
    ensures
        split_segments(x + seq!['/'] + y) == split_segments(x) + split_segments(y),
    decreases y.len(),
{
    let xs = x + seq!['/'];
    if y.len() == 0 {
        assert(xs + y == xs);
        assert(xs.drop_last() == x);
    } else {
        let y1 = y.drop_last();
        lemma_split_concat(x, y1);
        assert((xs + y).drop_last() == xs + y1);
        assert((xs + y).last() == y.last());
        crate::manifest::lemma_split_nonempty(y1);
    }
}

proof fn lemma_split_name(n: Seq<char>)
    requires
        valid_name(n),
    ensures
        split_segments(n) == seq![n],
    decreases n.len(),
{
    if n.len() > 0 {
        lemma_split_name(n.drop_last());
        assert(n.last() != '/');
        assert(n.drop_last().push(n.last()) == n);
        assert(seq![n.drop_last()].update(0, n.drop_last().push(n.last())) == seq![n]);
    } else {
        assert(n == Seq::<char>::empty());
    }
}

proof fn lemma_split_prefixed(prefix: Seq<char>, segs: Seq<Seq<char>>, n: Seq<char>)
    requires
        prefix_segs(prefix, segs),
        valid_name(n),
    ensures
        split_segments(prefix + n) == segs.push(n),
{
    lemma_split_name(n);
    if segs.len() == 0 {
        assert(prefix + n == n);
    } else {
        let p = prefix.drop_last();
        assert(prefix == p + seq!['/']);
        assert(prefix + n == p + seq!['/'] + n);
        lemma_split_concat(p, n);
    }
}

proof fn lemma_paths_split(cs: Seq<SnapshotNode>, prefix: Seq<char>, segs: Seq<Seq<char>>)
    requires
        prefix_segs(prefix, segs),
        forall|k: int|
            0 <= k < cs.len() ==> valid_name(node_name(#[trigger] cs[k])) && node_wf(cs[k]),
    ensures
        forest_paths(cs, prefix).len() == forest_lists(cs).len(),
        forall|i: int|
            0 <= i < forest_lists(cs).len() ==> split_segments(
                (#[trigger] forest_paths(cs, prefix)[i]).0,
            ) == segs + forest_lists(cs)[i],
    decreases cs,
{
    if cs.len() > 0 {
        let d = cs.subrange(0, cs.len() - 1);
        let last = cs[cs.len() - 1];
        assert forall|k: int| 0 <= k < d.len() implies valid_name(node_name(#[trigger] d[k]))
            && node_wf(d[k]) by {
            assert(d[k] == cs[k]);
        }
        lemma_paths_split(d, prefix, segs);
        let pd = forest_paths(d, prefix);
        let ld = forest_lists(d);
        match last {
            SnapshotNode::File { name, hash } => {
                lemma_split_prefixed(prefix, segs, name@);
                assert(forest_paths(cs, prefix) == pd + seq![(prefix + name@, hash@)]);
                assert(forest_lists(cs) == ld + seq![seq![name@]]);
                assert forall|i: int| 0 <= i < forest_lists(cs).len() implies split_segments(
                    (#[trigger] forest_paths(cs, prefix)[i]).0,
                ) == segs + forest_lists(cs)[i] by {
                    if i == ld.len() {
                        assert(segs.push(name@) == segs + seq![name@]);
                    }
                }
            },
            SnapshotNode::Dir { name, children, .. } => {
                assert(decreases_to!(cs => last));
                let sub = prefix + name@ + seq!['/'];
                lemma_split_prefixed(prefix, segs, name@);
                assert(sub.drop_last() == prefix + name@);
                let segs2 = segs.push(name@);
                assert(prefix_segs(sub, segs2));
                lemma_paths_split(children@, sub, segs2);
                let pc = forest_paths(children@, sub);
                let lc = forest_lists(children@);
                let mc = lc.map_values(|l: Seq<Seq<char>>| seq![name@] + l);
                assert(forest_paths(cs, prefix) == pd + pc);
                assert(forest_lists(cs) == ld + mc);
                assert forall|i: int| 0 <= i < forest_lists(cs).len() implies split_segments(
                    (#[trigger] forest_paths(cs, prefix)[i]).0,
                ) == segs + forest_lists(cs)[i] by {
                    if i >= ld.len() {
                        let t = i - ld.len();
                        assert(forest_paths(cs, prefix)[i] == pc[t]);
                        assert(forest_lists(cs)[i] == mc[t]);
                        assert(split_segments(pc[t].0) == segs2 + lc[t]);
                        assert(segs2 + lc[t] == segs + (seq![name@] + lc[t]));
                    } else {
                        assert(forest_paths(cs, prefix)[i] == pd[i]);
                        assert(forest_lists(cs)[i] == ld[i]);
                    }
                }
            },
        }
    }
}

proof fn lemma_lists_heads(cs: Seq<SnapshotNode>)
    ensures
        forall|i: int|
            0 <= i < forest_lists(cs).len() ==> (#[trigger] forest_lists(cs)[i]).len() >= 1
                && exists|k: int| 0 <= k < cs.len() && forest_lists(cs)[i][0] == node_name(cs[k]),
    decreases cs,
{
    if cs.len() > 0 {
        let d = cs.subrange(0, cs.len() - 1);
        let last = cs[cs.len() - 1];
        lemma_lists_heads(d);
        let ld = forest_lists(d);
        assert forall|i: int| 0 <= i < forest_lists(cs).len() implies (#[trigger] forest_lists(
            cs,
        )[i]).len() >= 1 && exists|k: int|
            0 <= k < cs.len() && forest_lists(cs)[i][0] == node_name(cs[k]) by {
            if i < ld.len() {
                assert(forest_lists(cs)[i] == ld[i]);
                let k = choose|k: int| 0 <= k < d.len() && ld[i][0] == node_name(d[k]);
                assert(d[k] == cs[k]);
            } else {
                match last {
                    SnapshotNode::File { name, .. } => {
                        assert(forest_lists(cs) == ld + seq![seq![name@]]);
                        assert(forest_lists(cs)[i] == seq![name@]);
                    },
                    SnapshotNode::Dir { name, children, .. } => {
                        let lc = forest_lists(children@);
                        let mc = lc.map_values(|l: Seq<Seq<char>>| seq![name@] + l);
                        assert(forest_lists(cs) == ld + mc);
                        assert(forest_lists(cs)[i] == seq![name@] + lc[i - ld.len()]);
                    },
                }
                assert(forest_lists(cs)[i][0] == node_name(cs[cs.len() - 1]));
            }
        }
    }
}

proof fn lemma_lists_prefix_free(cs: Seq<SnapshotNode>)
    requires
        names_sorted(cs),
        forall|k: int| 0 <= k < cs.len() ==> node_wf(#[trigger] cs[k]),
    ensures
        forall|i: int, j: int|
            0 <= i < forest_lists(cs).len() && 0 <= j < forest_lists(cs).len() && i != j
                ==> !seq_prefix(#[trigger] forest_lists(cs)[i], #[trigger] forest_lists(cs)[j]),
    decreases cs,
{
    if cs.len() > 0 {
        let d = cs.subrange(0, cs.len() - 1);
        let last = cs[cs.len() - 1];
        assert forall|k: int| 0 <= k < d.len() implies node_wf(#[trigger] d[k]) by {
            assert(d[k] == cs[k]);
        }
        lemma_lists_prefix_free(d);
        lemma_lists_heads(d);
        lemma_lists_heads(cs);
        let ld = forest_lists(d);
        let l = forest_lists(cs);
        let nl = node_name(last);
        assert forall|i: int| 0 <= i < ld.len() implies (#[trigger] l[i]) == ld[i] && l[i][0] != nl by {
            let k = choose|k: int| 0 <= k < d.len() && ld[i][0] == node_name(d[k]);
            assert(d[k] == cs[k]);
            assert(name_lt(node_name(cs[k]), node_name(cs[cs.len() - 1])));
            lemma_name_lt_irreflexive(nl);
        }
        assert forall|i: int| ld.len() <= i < l.len() implies (#[trigger] l[i]).len() >= 1 && l[i][0] == nl by {
            match last {
                SnapshotNode::File { name, .. } => {
                    assert(l == ld + seq![seq![name@]]);
                },
                SnapshotNode::Dir { name, children, .. } => {
                    let lc = forest_lists(children@);
                    let mc = lc.map_values(|q: Seq<Seq<char>>| seq![name@] + q);
                    assert(l == ld + mc);
                    assert(l[i] == seq![name@] + lc[i - ld.len()]);
                },
            }
        }
        assert forall|i: int, j: int|
            0 <= i < l.len() && 0 <= j < l.len() && i != j implies !seq_prefix(
            #[trigger] l[i],
            #[trigger] l[j],
        ) by {
            if i < ld.len() && j < ld.len() {
            } else if i < ld.len() || j < ld.len() {
                if seq_prefix(l[i], l[j]) {
                    assert(l[j].subrange(0, l[i].len() as int)[0] == l[j][0]);
                }
            } else {
                match last {
                    SnapshotNode::File { name, .. } => {
                        assert(l == ld + seq![seq![name@]]);
                    },
                    SnapshotNode::Dir { name, children, .. } => {
                        assert(decreases_to!(cs => last));
                        let lc = forest_lists(children@);
                        let mc = lc.map_values(|q: Seq<Seq<char>>| seq![name@] + q);
                        assert(l == ld + mc);
                        lemma_lists_prefix_free(children@);
                        let a = i - ld.len();
                        let b = j - ld.len();
                        assert(l[i] == seq![name@] + lc[a]);
                        assert(l[j] == seq![name@] + lc[b]);
                        if seq_prefix(l[i], l[j]) {
                            assert(lc[b].subrange(0, lc[a].len() as int) == l[j].subrange(
                                0,
                                l[i].len() as int,
                            ).drop_first());
                            assert(lc[a] == l[i].drop_first());
                            assert(seq_prefix(lc[a], lc[b]));
                        }
                    },
                }
            }
        }
    }
}

/// In a well-formed snapshot no file's path leads through another's: the
/// segments of one path are never a strict prefix of another's.
pub proof fn lemma_snapshot_prefix_free(n: SnapshotNode)
    requires
        node_wf(n),
    ensures
        forall|p: Seq<char>, q: Seq<char>|
            #[trigger] snapshot_map(n).contains_key(p) && #[trigger] snapshot_map(n).contains_key(q)
                && p != q ==> !strict_prefix(split_segments(p), split_segments(q)),
{
    match n {
        SnapshotNode::File { .. } => {},
        SnapshotNode::Dir { children, .. } => {
            let cs = children@;
            let empty = Seq::<char>::empty();
            let ps = forest_paths(cs, empty);
            lemma_paths_split(cs, empty, Seq::<Seq<char>>::empty());
            lemma_lists_prefix_free(cs);
            let l = forest_lists(cs);
            assert forall|p: Seq<char>, q: Seq<char>|
                #[trigger] snapshot_map(n).contains_key(p) && #[trigger] snapshot_map(n).contains_key(q)
                    && p != q implies !strict_prefix(split_segments(p), split_segments(q)) by {
                lemma_insert_all_source(Map::empty(), ps, p);
                lemma_insert_all_source(Map::empty(), ps, q);
                let i = choose|i: int| 0 <= i < ps.len() && (#[trigger] ps[i]).0 == p;
                let j = choose|j: int| 0 <= j < ps.len() && (#[trigger] ps[j]).0 == q;
                assert(split_segments(p) == Seq::<Seq<char>>::empty() + l[i]);
                assert(split_segments(q) == Seq::<Seq<char>>::empty() + l[j]);
                assert(Seq::<Seq<char>>::empty() + l[i] == l[i]);
                assert(Seq::<Seq<char>>::empty() + l[j] == l[j]);
                assert(!seq_prefix(l[i], l[j]));
            }
        },
    }
}

/// The files of a well-formed snapshot have distinct paths.
proof fn lemma_snapshot_paths_fresh(n: SnapshotNode)
    requires
        node_wf(n),
    ensures
        fresh_paths(Map::empty(), snapshot_paths(n)),
{
    match n {
        SnapshotNode::File { .. } => {},
        SnapshotNode::Dir { children, .. } => {
            let cs = children@;
            let empty = Seq::<char>::empty();
            let ps = forest_paths(cs, empty);
            lemma_paths_split(cs, empty, Seq::<Seq<char>>::empty());
            lemma_lists_prefix_free(cs);
            let l = forest_lists(cs);
            assert forall|i: int, j: int| 0 <= i < ps.len() && 0 <= j < ps.len() && i != j implies ps[i].0
                != ps[j].0 by {
                assert(split_segments(ps[i].0) == Seq::<Seq<char>>::empty() + l[i]);
                assert(split_segments(ps[j].0) == Seq::<Seq<char>>::empty() + l[j]);
                assert(Seq::<Seq<char>>::empty() + l[i] == l[i]);
                assert(Seq::<Seq<char>>::empty() + l[j] == l[j]);
                assert(!seq_prefix(l[i], l[j]));
                assert(l[j].subrange(0, l[j].len() as int) == l[j]);
            }
        },
    }
}

} // verus!
