use ghtree::namespace::{build_namespace, count_kinds, entry_kind, EntryKind, ScaffoldStep, TreeEntry};
use ghtree::search::{entries_under, find_matches};

fn entry(path: &str, kind: EntryKind) -> TreeEntry {
    TreeEntry { path: path.to_string(), kind }
}

fn listing(ns: &ghtree::namespace::Namespace) -> Vec<(String, Option<EntryKind>)> {
    ns.nodes().iter().map(|n| (n.path.clone(), n.kind)).collect()
}

#[test]
fn demo_repository_namespace() {
    let entries = vec![
        entry("src/a.txt", EntryKind::Blob),
        entry("src", EntryKind::Tree),
        entry("README.md", EntryKind::Blob),
    ];
    let ns = build_namespace(&entries);
    let lines = ns.display_lines();
    let top: Vec<(String, Option<EntryKind>)> = lines
        .iter()
        .filter(|l| l.depth == 0)
        .map(|l| (l.name.clone(), l.kind))
        .collect();
    assert_eq!(
        top,
        vec![
            ("README.md".to_string(), Some(EntryKind::Blob)),
            ("src".to_string(), Some(EntryKind::Tree)),
        ]
    );
    assert_eq!(lines.len(), 3);
    assert_eq!(lines[2].depth, 1);
    assert_eq!(lines[2].name, "a.txt");
    assert_eq!(lines[2].kind, Some(EntryKind::Blob));
    assert!(!lines[0].is_last);
    assert!(lines[1].is_last);
    assert!(lines[2].is_last);
    assert_eq!(count_kinds(&entries), (1, 2));
}

#[test]
fn round_trip_gives_back_every_entry() {
    let entries = vec![
        entry("docs/guide/intro.md", EntryKind::Blob),
        entry("docs", EntryKind::Tree),
        entry("docs/guide", EntryKind::Tree),
        entry("Cargo.toml", EntryKind::Blob),
        entry("vendor/lib", EntryKind::Other),
    ];
    let ns = build_namespace(&entries);
    let nodes = listing(&ns);
    for e in &entries {
        assert!(nodes.contains(&(e.path.clone(), Some(e.kind))));
    }
    assert_eq!(
        nodes,
        vec![
            ("Cargo.toml".to_string(), Some(EntryKind::Blob)),
            ("docs".to_string(), Some(EntryKind::Tree)),
            ("docs/guide".to_string(), Some(EntryKind::Tree)),
            ("docs/guide/intro.md".to_string(), Some(EntryKind::Blob)),
            ("vendor".to_string(), None),
            ("vendor/lib".to_string(), Some(EntryKind::Other)),
        ]
    );
}

#[test]
fn permuted_input_gives_same_namespace() {
    let a = vec![
        entry("b/x", EntryKind::Blob),
        entry("a", EntryKind::Blob),
        entry("b", EntryKind::Tree),
        entry("a.d/y", EntryKind::Blob),
    ];
    let b = vec![
        entry("a.d/y", EntryKind::Blob),
        entry("b", EntryKind::Tree),
        entry("a", EntryKind::Blob),
        entry("b/x", EntryKind::Blob),
    ];
    let na = listing(&build_namespace(&a));
    let nb = listing(&build_namespace(&b));
    assert_eq!(na, nb);
    // a directory sorts before its contents and before names that extend it
    assert_eq!(na[0].0, "a");
    assert_eq!(na[1].0, "a.d");
    assert_eq!(na[2].0, "a.d/y");
}

#[test]
fn empty_listing_has_no_nodes() {
    let ns = build_namespace(&Vec::new());
    assert!(ns.nodes().is_empty());
    assert!(ns.display_lines().is_empty());
    assert_eq!(count_kinds(&Vec::new()), (0, 0));
}

#[test]
fn entry_kinds_are_read() {
    assert_eq!(entry_kind("blob"), EntryKind::Blob);
    assert_eq!(entry_kind("tree"), EntryKind::Tree);
    assert_eq!(entry_kind("commit"), EntryKind::Other);
}

#[test]
fn scaffold_creates_directories_first() {
    let entries = vec![
        entry("src/main.rs", EntryKind::Blob),
        entry("lib", EntryKind::Other),
        entry("README", EntryKind::Blob),
    ];
    let steps = build_namespace(&entries).scaffold_steps();
    let text: Vec<String> = steps
        .iter()
        .map(|s| match s {
            ScaffoldStep::Directory(p) => format!("dir {}", p),
            ScaffoldStep::EmptyFile(p) => format!("file {}", p),
        })
        .collect();
    assert_eq!(text, vec!["file README", "dir src", "file src/main.rs"]);
}

#[test]
fn find_by_exact_and_partial_name() {
    let entries = vec![
        entry("src/main.rs", EntryKind::Blob),
        entry("main.rs", EntryKind::Blob),
        entry("src/domain.rs", EntryKind::Blob),
        entry("mainline/x", EntryKind::Blob),
    ];
    assert_eq!(find_matches(&entries, "main.rs", true), vec![0, 1]);
    assert_eq!(find_matches(&entries, "main", false), vec![0, 1, 2]);
    assert!(find_matches(&entries, "absent", false).is_empty());
}

#[test]
fn folder_filter_keeps_prefixed_paths() {
    let entries = vec![
        entry("docs/a.md", EntryKind::Blob),
        entry("src/b.rs", EntryKind::Blob),
        entry("docs", EntryKind::Tree),
    ];
    let kept: Vec<String> = entries_under(&entries, "docs").iter().map(|e| e.path.clone()).collect();
    assert_eq!(kept, vec!["docs/a.md", "docs"]);
}
