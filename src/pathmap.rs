//! A map from relative paths to digests, kept as a vector of entries whose
//! paths are unique and in the order they were first inserted.
use vstd::prelude::*;

verus! {

/// One file of a flattened snapshot: its `/`-separated path relative to the
/// snapshot root and its digest.
pub struct PathEntry {
    pub path: String,
    pub hash: String,
}

/// Paths mapped to digests.
pub struct PathMap {
    entries: Vec<PathEntry>,
}

/// No two entries share a path.
pub open spec fn paths_unique(es: Seq<PathEntry>) -> bool {
    forall|i: int, j: int|
        0 <= i < es.len() && 0 <= j < es.len() && i != j ==> es[i].path@ != es[j].path@
}

/// The map that a sequence of entries with unique paths stands for.
pub open spec fn entries_map(es: Seq<PathEntry>) -> Map<Seq<char>, Seq<char>> {
    Map::new(
        |k: Seq<char>| exists|i: int| 0 <= i < es.len() && es[i].path@ == k,
        |k: Seq<char>| es[choose|i: int| 0 <= i < es.len() && es[i].path@ == k].hash@,
    )
}

/// Each entry as its path and digest.
pub open spec fn entry_views(es: Seq<PathEntry>) -> Seq<(Seq<char>, Seq<char>)> {
    es.map_values(|e: PathEntry| (e.path@, e.hash@))
}

/// The map after inserting each pair of `es` into `m` in turn, a later pair
/// replacing an earlier one with the same path.
pub open spec fn insert_all(m: Map<Seq<char>, Seq<char>>, es: Seq<(Seq<char>, Seq<char>)>) -> Map<
    Seq<char>,
    Seq<char>,
>
    decreases es.len(),
{
    if es.len() == 0 {
        m
    } else {
        insert_all(m, es.drop_last()).insert(es.last().0, es.last().1)
    }
}

/// Inserting two runs of pairs is inserting the first, then the second.
pub proof fn lemma_insert_all_concat(
    m: Map<Seq<char>, Seq<char>>,
    a: Seq<(Seq<char>, Seq<char>)>,
    b: Seq<(Seq<char>, Seq<char>)>,
)
    ensures
        insert_all(m, a + b) == insert_all(insert_all(m, a), b),
    decreases b.len(),
{
    if b.len() == 0 {
        assert(a + b == a);
    } else {
        assert((a + b).drop_last() == a + b.drop_last());
        lemma_insert_all_concat(m, a, b.drop_last());
    }
}

/// A path present after a run of insertions was present before or was
/// inserted.
pub proof fn lemma_insert_all_source(
    m: Map<Seq<char>, Seq<char>>,
    es: Seq<(Seq<char>, Seq<char>)>,
    p: Seq<char>,
)
    requires
        insert_all(m, es).contains_key(p),
    ensures
        m.contains_key(p) || exists|i: int| 0 <= i < es.len() && (#[trigger] es[i]).0 == p,
    decreases es.len(),
{
    if es.len() > 0 && es.last().0 != p {
        lemma_insert_all_source(m, es.drop_last(), p);
        if !m.contains_key(p) {
            let i = choose|i: int| 0 <= i < es.drop_last().len() && (#[trigger] es.drop_last()[i]).0 == p;
            assert(es[i] == es.drop_last()[i]);
        }
    } else if es.len() > 0 {
        assert(es[es.len() - 1].0 == p);
    }
}

proof fn lemma_entry_lookup(es: Seq<PathEntry>, i: int)
    requires
        paths_unique(es),
        0 <= i < es.len(),
    ensures
        entries_map(es).contains_key(es[i].path@),
        entries_map(es)[es[i].path@] == es[i].hash@,
{
    let k = es[i].path@;
    assert(exists|j: int| 0 <= j < es.len() && es[j].path@ == k);
    let c = choose|j: int| 0 <= j < es.len() && es[j].path@ == k;
    assert(c == i);
}

impl View for PathMap {
    type V = Map<Seq<char>, Seq<char>>;

    closed spec fn view(&self) -> Map<Seq<char>, Seq<char>> {
        entries_map(self.entries@)
    }
}

impl PathMap {
    /// No two entries share a path.
    pub closed spec fn wf(&self) -> bool {
        paths_unique(self.entries@)
    }

    /// The entries in insertion order.
    pub closed spec fn entry_seq(&self) -> Seq<PathEntry> {
        self.entries@
    }

    /// The map is the entries' map: each entry's path maps to its digest,
    /// and every path of the map is some entry's.
    pub proof fn lemma_entries(&self)
        requires
            self.wf(),
        ensures
            paths_unique(self.entry_seq()),
            self@ == entries_map(self.entry_seq()),
            forall|i: int|
                0 <= i < self.entry_seq().len() ==> #[trigger] self@.contains_key(
                    self.entry_seq()[i].path@,
                ) && self@[self.entry_seq()[i].path@] == self.entry_seq()[i].hash@,
            forall|k: Seq<char>|
                self@.contains_key(k) ==> exists|i: int|
                    0 <= i < self.entry_seq().len() && #[trigger] self.entry_seq()[i].path@ == k,
    {
        assert forall|i: int| 0 <= i < self.entry_seq().len() implies #[trigger] self@.contains_key(
            self.entry_seq()[i].path@,
        ) && self@[self.entry_seq()[i].path@] == self.entry_seq()[i].hash@ by {
            lemma_entry_lookup(self.entries@, i);
        }
        assert forall|k: Seq<char>| self@.contains_key(k) implies exists|i: int|
            0 <= i < self.entry_seq().len() && #[trigger] self.entry_seq()[i].path@ == k by {
            let i = choose|i: int| 0 <= i < self.entries@.len() && self.entries@[i].path@ == k;
            assert(self.entry_seq()[i].path@ == k);
        }
    }

    /// An empty map.
    pub fn new() -> (r: PathMap)
        ensures
            r.wf(),
            r@ == Map::<Seq<char>, Seq<char>>::empty(),
            r.entry_seq().len() == 0,
    {
        let r = PathMap { entries: Vec::new() };
        assert(r@ =~= Map::<Seq<char>, Seq<char>>::empty());
        r
    }

    /// Number of paths.
    pub fn len(&self) -> (r: usize)
        requires
            self.wf(),
        ensures
            r == self.entry_seq().len(),
    {
        self.entries.len()
    }

    /// The position of `path`, if present.
    fn find(&self, path: &String) -> (r: Option<usize>)
        requires
            self.wf(),
        ensures
            r matches Some(i) ==> i < self.entries@.len() && self.entries@[i as int].path@ == path@,
            r is None ==> !self@.contains_key(path@),
    {
        let mut i: usize = 0;
        while i < self.entries.len()
            invariant
                i <= self.entries@.len(),
                forall|j: int| 0 <= j < i ==> self.entries@[j].path@ != path@,
            decreases self.entries@.len() - i,
        {
            if self.entries[i].path == *path {
                return Some(i);
            }
            i = i + 1;
        }
        None
    }

    /// The digest stored for `path`.
    pub fn get(&self, path: &String) -> (r: Option<&String>)
        requires
            self.wf(),
        ensures
            r matches Some(h) ==> self@.contains_key(path@) && h@ == self@[path@],
            r is None ==> !self@.contains_key(path@),
    {
        match self.find(path) {
            Some(i) => {
                proof {
                    lemma_entry_lookup(self.entries@, i as int);
                }
                Some(&self.entries[i].hash)
            },
            None => None,
        }
    }

    /// Maps `path` to `hash`, replacing any digest stored for it before.
    pub fn insert(&mut self, path: String, hash: String)
        requires
            old(self).wf(),
        ensures
            final(self).wf(),
            final(self)@ == old(self)@.insert(path@, hash@),
            !old(self)@.contains_key(path@) ==> entry_views(final(self).entry_seq()) == entry_views(
                old(self).entry_seq(),
            ).push((path@, hash@)),
    {
        let ghost old_es = self.entries@;
        let ghost key = path@;
        let ghost val = hash@;
        match self.find(&path) {
            Some(i) => {
                self.entries[i] = PathEntry { path, hash };
                proof {
                    lemma_entry_lookup(old_es, i as int);
                    let es = self.entries@;
                    assert(es == old_es.update(i as int, es[i as int]));
                    assert forall|k: Seq<char>| #[trigger] self@.contains_key(k) <==> old_es.len() >= 0 && (
                    entries_map(old_es).contains_key(k) || k == key) by {
                        if entries_map(old_es).contains_key(k) {
                            let j = choose|j: int| 0 <= j < old_es.len() && old_es[j].path@ == k;
                            assert(es[j].path@ == k);
                        }
                        if self@.contains_key(k) {
                            let j = choose|j: int| 0 <= j < es.len() && es[j].path@ == k;
                            if j != i {
                                assert(old_es[j].path@ == k);
                            }
                        }
                    }
                    assert forall|k: Seq<char>| #[trigger] self@.contains_key(k) implies self@[k]
                        == entries_map(old_es).insert(key, val)[k] by {
                        let j = choose|j: int| 0 <= j < es.len() && es[j].path@ == k;
                        lemma_entry_lookup(es, j);
                        if j != i {
                            lemma_entry_lookup(old_es, j);
                        }
                    }
                    assert(self@ =~= entries_map(old_es).insert(key, val));
                }
            },
            None => {
                self.entries.push(PathEntry { path, hash });
                proof {
                    assert(entry_views(self.entries@) =~= entry_views(old_es).push((key, val)));
                    let es = self.entries@;
                    let n = old_es.len() as int;
                    assert forall|k: Seq<char>| #[trigger] self@.contains_key(k) <==> (entries_map(
                        old_es,
                    ).contains_key(k) || k == key) by {
                        if entries_map(old_es).contains_key(k) {
                            let j = choose|j: int| 0 <= j < old_es.len() && old_es[j].path@ == k;
                            assert(es[j].path@ == k);
                        }
                        if k == key {
                            assert(es[n].path@ == k);
                        }
                        if self@.contains_key(k) {
                            let j = choose|j: int| 0 <= j < es.len() && es[j].path@ == k;
                            if j != n {
                                assert(old_es[j].path@ == k);
                            }
                        }
                    }
                    assert forall|k: Seq<char>| #[trigger] self@.contains_key(k) implies self@[k]
                        == entries_map(old_es).insert(key, val)[k] by {
                        let j = choose|j: int| 0 <= j < es.len() && es[j].path@ == k;
                        lemma_entry_lookup(es, j);
                        if j != n {
                            lemma_entry_lookup(old_es, j);
                        }
                    }
                    assert(self@ =~= entries_map(old_es).insert(key, val));
                }
            },
        }
    }

    /// The entry at position `i` of the insertion order.
    pub fn entry(&self, i: usize) -> (r: &PathEntry)
        requires
            i < self.entry_seq().len(),
        ensures
            *r == self.entry_seq()[i as int],
    {
        &self.entries[i]
    }
}

} // verus!
