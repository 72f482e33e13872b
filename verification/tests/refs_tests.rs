use openrfd::refs::{merge_files, split_tree, LogEntry, TreeEntry};

fn entry(message: &str) -> LogEntry {
    LogEntry { oid: "0".repeat(40), message: message.into(), author: "t".into(), timestamp: 0 }
}

#[test]
fn footers_are_read_from_the_message() {
    let log0 = entry("State: discussion\n\nDiscussion: https://example.com/pr/1");
    assert_eq!(log0.footer("State"), Some("discussion".into()));
    assert_eq!(log0.footer("Discussion"), Some("https://example.com/pr/1".into()));
    let log1 = entry("Reserve RFD 0001\n\nState: prediscussion\nRevision: 1");
    assert_eq!(log1.footer("State"), Some("prediscussion".into()));
    assert_eq!(log1.footer("Revision"), Some("1".into()));
    assert_eq!(log1.footer("Missing"), None);
    assert_eq!(entry("  State: x  \r\n").footer("State"), Some("x".into()));
}

#[test]
fn merged_files_keep_remove_and_overwrite() {
    let existing = vec![("README.md".to_string(), 1u32), ("a.txt".into(), 2), ("b.txt".into(), 3)];
    let removals = vec!["b.txt".to_string(), "none".to_string()];
    let entries = vec![("a.txt".to_string(), 20u32), ("annotations/cli.json".into(), 4), ("a.txt".into(), 21)];
    let mut merged = merge_files(existing, &removals, entries);
    merged.sort();
    assert_eq!(
        merged,
        vec![("README.md".to_string(), 1), ("a.txt".into(), 21), ("annotations/cli.json".into(), 4)]
    );
    let t = TreeEntry { path: "README.md".into(), content: b"# RFD".to_vec() };
    assert_eq!(t.content, b"# RFD".to_vec());
}

#[test]
fn files_nest_into_top_level_directories() {
    let files = vec![
        ("README.md".to_string(), 1u32),
        ("annotations/pr-47.json".into(), 2),
        ("annotations/cli.json".into(), 3),
        ("a/b/c.txt".into(), 4),
        ("README.md".into(), 5),
    ];
    let (blobs, dirs) = split_tree(files);
    assert_eq!(blobs, vec![("README.md".to_string(), 5)]);
    assert_eq!(dirs.len(), 2);
    assert_eq!(dirs[0].0, "annotations");
    assert_eq!(dirs[0].1, vec![("pr-47.json".to_string(), 2), ("cli.json".into(), 3)]);
    assert_eq!(dirs[1].0, "a");
    assert_eq!(dirs[1].1, vec![("b/c.txt".to_string(), 4)]);
    let (none, empty) = split_tree(Vec::<(String, u8)>::new());
    assert!(none.is_empty() && empty.is_empty());
}

/// Splits the files level by level, giving each file's path back.
fn nested_paths(files: Vec<(String, u32)>, prefix: &str, out: &mut Vec<(String, u32)>) {
    let (blobs, dirs) = split_tree(files);
    for (name, v) in blobs {
        out.push((format!("{}{}", prefix, name), v));
    }
    for (dir, sub) in dirs {
        nested_paths(sub, &format!("{}{}/", prefix, dir), out);
    }
}

#[test]
fn deeply_nested_paths_split_level_by_level() {
    let existing = vec![("README.md".to_string(), 1u32)];
    let entries = vec![("a/b/c/d/e.txt".to_string(), 2u32), ("a/b/x.txt".into(), 3), ("a/y.txt".into(), 4)];
    let files = merge_files(existing, &vec![], entries);
    let mut out = Vec::new();
    nested_paths(files, "", &mut out);
    out.sort();
    assert_eq!(
        out,
        vec![
            ("README.md".to_string(), 1),
            ("a/b/c/d/e.txt".into(), 2),
            ("a/b/x.txt".into(), 3),
            ("a/y.txt".into(), 4),
        ]
    );
}
