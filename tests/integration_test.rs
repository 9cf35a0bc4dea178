use pulonia::manifest::{generate_migration, lookup_update};
use pulonia::tree::SnapshotNode;

fn file(name: &str, content: &str) -> SnapshotNode {
    SnapshotNode::file(name.to_string(), content.as_bytes())
}

#[test]
fn test_generate_migration_report() {
    let before = SnapshotNode::directory(
        "before".to_string(),
        vec![file("file1.txt", "content A"), file("file2.txt", "content B")],
    )
    .unwrap();
    let after = SnapshotNode::directory(
        "after".to_string(),
        vec![
            file("file1.txt", "content A"),
            file("file2.txt", "content C"),
            file("file3.txt", "content D"),
        ],
    )
    .unwrap();
    let json = generate_migration(&before, &after);
    assert_eq!(json.version, "1.0");
    assert!(lookup_update(&json.update, "file2.txt").is_some());
    assert!(lookup_update(&json.update, "file3.txt").is_some());
    assert!(lookup_update(&json.update, "file1.txt").is_none());
    assert!(json.deleted.is_empty());
}
