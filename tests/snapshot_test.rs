use pulonia::diff::{diff, ChangeClass};
use pulonia::hasher::{hash_children, hash_content, to_lower_hex};
use pulonia::manifest::{build_manifest, generate_migration, lookup_update, split_path, UpdateNode};
use pulonia::staging::get_updated_files;
use pulonia::tree::{name_less, SnapshotNode, TreeError};

fn file(name: &str, content: &str) -> SnapshotNode {
    SnapshotNode::file(name.to_string(), content.as_bytes())
}

fn dir(name: &str, entries: Vec<SnapshotNode>) -> SnapshotNode {
    SnapshotNode::directory(name.to_string(), entries).unwrap()
}

fn hex(content: &str) -> String {
    hash_content(content.as_bytes())
}

fn two_files_before() -> SnapshotNode {
    dir("before", vec![file("file1.txt", "content A"), file("file2.txt", "content B")])
}

fn three_files_after() -> SnapshotNode {
    dir(
        "after",
        vec![
            file("file3.txt", "content D"),
            file("file1.txt", "content A"),
            file("file2.txt", "content C"),
        ],
    )
}

#[test]
fn sha256_of_known_inputs() {
    assert_eq!(
        hash_content(b""),
        "e3b0c44298fc1c149afbf4c8996fb92427ae41e4649b934ca495991b7852b855"
    );
    assert_eq!(
        hash_content(b"abc"),
        "ba7816bf8f01cfea414140de5dae2223b00361a396177a9cb410ff61f20015ad"
    );
}

#[test]
fn hex_is_lowercase_two_digits_per_byte() {
    assert_eq!(to_lower_hex(&[0x00, 0x0f, 0xa5, 0xff]), "000fa5ff");
    assert_eq!(to_lower_hex(&[]), "");
}

#[test]
fn children_digest_hashes_the_concatenation_in_order() {
    let parts = vec!["a".to_string(), "bc".to_string()];
    assert_eq!(hash_children(&parts), hash_content(b"abc"));
    let swapped = vec!["bc".to_string(), "a".to_string()];
    assert_eq!(hash_children(&swapped), hash_content(b"bca"));
    assert_ne!(hash_children(&parts), hash_children(&swapped));
    assert_eq!(hash_children(&vec![]), hash_content(b""));
}

#[test]
fn identical_content_gives_identical_digest() {
    let a = file("one.txt", "same bytes");
    let b = file("elsewhere/two.bin", "same bytes");
    assert_eq!(a.hash(), b.hash());
    assert_ne!(a.hash(), file("three", "other bytes").hash());
}

#[test]
fn file_node_carries_name_and_digest() {
    let f = file("x.txt", "abc");
    assert_eq!(f.name(), "x.txt");
    assert_eq!(
        f.hash(),
        "ba7816bf8f01cfea414140de5dae2223b00361a396177a9cb410ff61f20015ad"
    );
}

#[test]
fn directory_digest_covers_files_below_in_name_order() {
    let d = dir(
        "root",
        vec![
            file("b.txt", "x"),
            dir("a", vec![file("z", "1"), file("y", "2")]),
            file("a.txt", "y"),
        ],
    );
    // canonical order: "a" (its files y, z), "a.txt", "b.txt"
    let expected = hash_children(&vec![hex("2"), hex("1"), hex("y"), hex("x")]);
    assert_eq!(d.hash(), &expected);
    match &d {
        SnapshotNode::Dir { children, .. } => {
            let names: Vec<String> = children.iter().map(|c| c.name().clone()).collect();
            assert_eq!(names, vec!["a", "a.txt", "b.txt"]);
        }
        SnapshotNode::File { .. } => panic!("expected a directory"),
    }
}

#[test]
fn rescanning_in_another_order_gives_same_digest() {
    let one = dir("d", vec![file("a", "1"), file("b", "2"), file("c", "3")]);
    let two = dir("d", vec![file("c", "3"), file("a", "1"), file("b", "2")]);
    let three = dir("d", vec![file("b", "2"), file("c", "3"), file("a", "1")]);
    assert_eq!(one.hash(), two.hash());
    assert_eq!(one.hash(), three.hash());
}

#[test]
fn duplicate_names_are_refused() {
    let r = SnapshotNode::directory(
        "d".to_string(),
        vec![file("a", "1"), file("b", "2"), file("a", "3")],
    );
    assert_eq!(r.err(), Some(TreeError::DuplicateName { name: "a".to_string() }));
}

#[test]
fn names_with_slashes_are_refused() {
    let r = SnapshotNode::directory("d".to_string(), vec![file("ok", "1"), file("a/b", "2")]);
    assert_eq!(r.err(), Some(TreeError::InvalidName { name: "a/b".to_string() }));
}

#[test]
fn empty_directory_hashes_empty_concatenation() {
    let d = dir("empty", vec![]);
    assert_eq!(d.hash(), &hash_content(b""));
    assert_eq!(d.flatten().len(), 0);
}

#[test]
fn names_order_by_character() {
    assert!(name_less("a", "b"));
    assert!(name_less("a", "a.txt"));
    assert!(!name_less("a.txt", "a"));
    assert!(!name_less("same", "same"));
    assert!(name_less("", "x"));
    assert!(name_less("B", "a"));
}

#[test]
fn flatten_joins_paths_with_slashes() {
    let d = dir(
        "root",
        vec![dir("a", vec![dir("b", vec![file("c.txt", "deep")])]), file("top", "t")],
    );
    let m = d.flatten();
    assert_eq!(m.len(), 2);
    assert_eq!(m.get(&"a/b/c.txt".to_string()), Some(&hex("deep")));
    assert_eq!(m.get(&"top".to_string()), Some(&hex("t")));
    assert_eq!(m.get(&"a/b".to_string()), None);
    assert_eq!(m.get(&"root/top".to_string()), None);
    assert_eq!(m.entry(0).path, "a/b/c.txt");
}

#[test]
fn file_root_flattens_to_nothing() {
    assert_eq!(file("lonely", "x").flatten().len(), 0);
}

#[test]
fn diff_of_tree_with_itself_is_all_unchanged() {
    let t = three_files_after();
    let m = t.flatten();
    let cs = diff(&m, &m);
    assert_eq!(cs.len(), 3);
    assert!(cs.iter().all(|c| c.class == ChangeClass::Unchanged));
}

#[test]
fn diff_classifies_every_path_once() {
    let old = dir(
        "o",
        vec![file("keep", "k"), file("change", "v1"), file("gone", "g")],
    );
    let new = dir("n", vec![file("keep", "k"), file("change", "v2"), file("fresh", "f")]);
    let cs = diff(&old.flatten(), &new.flatten());
    let mut seen: Vec<(String, ChangeClass, String)> = cs
        .iter()
        .map(|c| (c.path.clone(), c.class, c.hash.clone()))
        .collect();
    seen.sort_by(|a, b| a.0.cmp(&b.0));
    assert_eq!(
        seen,
        vec![
            ("change".to_string(), ChangeClass::Modified, hex("v2")),
            ("fresh".to_string(), ChangeClass::Added, hex("f")),
            ("gone".to_string(), ChangeClass::Deleted, hex("g")),
            ("keep".to_string(), ChangeClass::Unchanged, hex("k")),
        ]
    );
}

#[test]
fn split_path_keeps_every_segment() {
    assert_eq!(split_path("a/b.txt"), vec!["a", "b.txt"]);
    assert_eq!(split_path("plain"), vec!["plain"]);
    assert_eq!(split_path(""), vec![""]);
    assert_eq!(split_path("a//b/"), vec!["a", "", "b", ""]);
}

#[test]
fn manifest_of_identical_snapshots_is_empty() {
    let m = generate_migration(&two_files_before(), &two_files_before());
    assert_eq!(m.version, "1.0");
    assert!(m.update.is_empty());
    assert!(m.deleted.is_empty());
}

#[test]
fn manifest_records_modified_and_added() {
    let m = generate_migration(&two_files_before(), &three_files_after());
    assert_eq!(m.version, "1.0");
    assert_eq!(lookup_update(&m.update, "file2.txt"), Some(hex("content C")));
    assert_eq!(lookup_update(&m.update, "file3.txt"), Some(hex("content D")));
    assert_eq!(lookup_update(&m.update, "file1.txt"), None);
    assert_eq!(m.update.len(), 2);
    let names: Vec<String> = m.update.iter().map(|e| e.name.clone()).collect();
    assert_eq!(names, vec!["file2.txt".to_string(), "file3.txt".to_string()]);
    assert!(m.deleted.is_empty());
}

#[test]
fn manifest_records_deleted_path() {
    let old = dir("o", vec![dir("a", vec![file("b.txt", "x")])]);
    let new = dir("n", vec![]);
    let m = generate_migration(&old, &new);
    assert!(m.update.is_empty());
    assert_eq!(m.deleted, vec!["a/b.txt".to_string()]);
}

#[test]
fn manifest_nests_updates_by_segment() {
    let old = dir("o", vec![]);
    let new = dir(
        "n",
        vec![dir("a", vec![file("b.txt", "1"), dir("c", vec![file("d", "2")])]), file("e", "3")],
    );
    let m = generate_migration(&old, &new);
    assert_eq!(m.update.len(), 2);
    assert_eq!(m.update[0].name, "a");
    assert_eq!(lookup_update(&m.update, "a/b.txt"), Some(hex("1")));
    assert_eq!(lookup_update(&m.update, "a/c/d"), Some(hex("2")));
    assert_eq!(lookup_update(&m.update, "e"), Some(hex("3")));
    assert_eq!(lookup_update(&m.update, "a"), None);
    assert_eq!(lookup_update(&m.update, "a/c"), None);
    assert_eq!(lookup_update(&m.update, "a/b.txt/x"), None);
}

#[test]
fn manifest_round_trip_of_updates() {
    let old = dir("o", vec![file("same", "s"), file("mod", "1")]);
    let new = dir("n", vec![file("same", "s"), file("mod", "2"), dir("new", vec![file("f", "3")])]);
    let cs = diff(&old.flatten(), &new.flatten());
    let m = build_manifest(&cs);
    for c in cs.iter() {
        let found = lookup_update(&m.update, &c.path);
        match c.class {
            ChangeClass::Added | ChangeClass::Modified => assert_eq!(found, Some(c.hash.clone())),
            _ => assert_eq!(found, None),
        }
    }
}

#[test]
fn staging_lists_changed_files_only() {
    let cs = diff(&two_files_before().flatten(), &three_files_after().flatten());
    let staged = get_updated_files(&cs);
    assert_eq!(staged, vec!["file2.txt".to_string(), "file3.txt".to_string()]);
}

#[test]
fn file_turned_directory_is_deleted_and_nested() {
    let old = dir("o", vec![file("x", "1")]);
    let new = dir("n", vec![dir("x", vec![file("y", "3")])]);
    let m = generate_migration(&old, &new);
    assert_eq!(m.deleted, vec!["x".to_string()]);
    assert_eq!(m.update.len(), 1);
    assert_eq!(m.update[0].name, "x");
    match &m.update[0].node {
        UpdateNode::Branch { children } => {
            assert_eq!(children.len(), 1);
            assert_eq!(children[0].name, "y");
            assert!(matches!(&children[0].node, UpdateNode::Leaf { hash } if *hash == hex("3")));
        }
        UpdateNode::Leaf { .. } => panic!("expected a directory segment"),
    }
}

#[test]
fn deleted_paths_follow_depth_first_name_order() {
    let old = dir(
        "o",
        vec![file("z", "1"), dir("b", vec![file("d", "2"), file("c", "3")]), file("a", "4")],
    );
    let new = dir("n", vec![]);
    let m = generate_migration(&old, &new);
    assert_eq!(m.deleted, vec!["a", "b/c", "b/d", "z"]);
}
