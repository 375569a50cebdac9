use ghtree::error::ErrorKind;
use ghtree::release::{
    asset_lines, asset_tasks, newest_release, releases_to_show, select_assets, Asset, Release,
    SelectionError,
};
use ghtree::repo::{
    archive_name, branches_url, contents_url, parse_github_url, parse_repo_text, release_url,
    releases_url, repo_url, request_headers, tree_url, zipball_url, Config,
};
use ghtree::walker::{ContentItem, ContentListing, ContentWalker, WalkStep};

fn item(path: &str, kind: &str, url: Option<&str>) -> ContentItem {
    ContentItem {
        path: path.to_string(),
        item_type: kind.to_string(),
        download_url: url.map(|u| u.to_string()),
        size: None,
    }
}

fn asset(name: &str, size: u64) -> Asset {
    Asset {
        name: name.to_string(),
        size,
        download_url: format!("https://example.org/{}", name),
        created_at: "2024-01-02T03:04:05Z".to_string(),
    }
}

#[test]
fn walk_directory_with_subdirectory() {
    let root = ContentListing::Listing(vec![
        item("docs/x.md", "file", Some("https://raw/docs/x.md")),
        item("docs/sub", "dir", None),
    ]);
    let mut w = ContentWalker::start(root);
    match w.next_step() {
        WalkStep::List(p) => assert_eq!(p, "docs/sub"),
        _ => panic!("expected a listing request"),
    }
    w.add_listing(vec![item("docs/sub/y.md", "file", Some("https://raw/docs/sub/y.md"))]);
    assert!(matches!(w.next_step(), WalkStep::Done));
    let tasks = w.into_tasks();
    assert_eq!(tasks.len(), 2);
    assert!(tasks.iter().all(|t| !t.source_url.is_empty()));
    assert_eq!(tasks[0].destination_path, "docs/x.md");
    assert_eq!(tasks[1].destination_path, "docs/sub/y.md");
    assert_eq!(tasks[1].source_url, "https://raw/docs/sub/y.md");
}

#[test]
fn walk_single_file() {
    let mut w = ContentWalker::start(ContentListing::SingleFile(item("a.txt", "file", Some("u"))));
    assert!(matches!(w.next_step(), WalkStep::Done));
    assert_eq!(w.tasks().len(), 1);
}

#[test]
fn walk_rejects_file_without_url() {
    let mut w = ContentWalker::start(ContentListing::Listing(vec![item("a", "file", None)]));
    assert!(matches!(w.next_step(), WalkStep::Failed(ErrorKind::InvalidEntry)));
}

#[test]
fn walk_rejects_unknown_kind() {
    let mut w = ContentWalker::start(ContentListing::Listing(vec![item("l", "symlink", Some("u"))]));
    assert!(matches!(w.next_step(), WalkStep::Failed(ErrorKind::UnknownKind)));
}

#[test]
fn walk_is_breadth_first() {
    let mut w = ContentWalker::start(ContentListing::Listing(vec![
        item("a", "dir", None),
        item("b", "dir", None),
        item("c", "file", Some("uc")),
    ]));
    assert!(matches!(w.next_step(), WalkStep::List(p) if p == "a"));
    w.add_listing(vec![item("a/1", "file", Some("u1"))]);
    assert!(matches!(w.next_step(), WalkStep::List(p) if p == "b"));
    w.add_listing(vec![]);
    assert!(matches!(w.next_step(), WalkStep::Done));
    let order: Vec<String> = w.tasks().iter().map(|t| t.destination_path.clone()).collect();
    assert_eq!(order, vec!["c", "a/1"]);
}

#[test]
fn parses_repository_addresses() {
    let p = |s: &str| parse_github_url(s);
    assert_eq!(p("octo/demo"), Some(("octo".to_string(), "demo".to_string())));
    assert_eq!(p("  octo/demo\n"), Some(("octo".to_string(), "demo".to_string())));
    assert_eq!(
        p("https://github.com/octo/demo.git"),
        Some(("octo".to_string(), "demo".to_string()))
    );
    assert_eq!(
        p("github.com/octo/demo/tree/main"),
        Some(("octo".to_string(), "demo".to_string()))
    );
    assert_eq!(p("https://gitlab.com/octo/demo"), None);
    assert_eq!(p("octo"), None);
    assert_eq!(p("a/b/c"), None);
    assert_eq!(parse_repo_text(" octo/demo"), Some((" octo".to_string(), "demo".to_string())));
}

#[test]
fn builds_api_addresses() {
    assert_eq!(repo_url("octo", "demo"), "https://api.github.com/repos/octo/demo");
    assert_eq!(
        tree_url("octo", "demo", "main"),
        "https://api.github.com/repos/octo/demo/git/trees/main?recursive=1"
    );
    assert_eq!(
        contents_url("octo", "demo", "docs", "v1"),
        "https://api.github.com/repos/octo/demo/contents/docs?ref=v1"
    );
    assert_eq!(zipball_url("o", "r", "b"), "https://api.github.com/repos/o/r/zipball/b");
    assert_eq!(branches_url("o", "r"), "https://api.github.com/repos/o/r/branches");
    assert_eq!(releases_url("o", "r"), "https://api.github.com/repos/o/r/releases");
    assert_eq!(release_url("o", "r", "v2"), "https://api.github.com/repos/o/r/releases/tags/v2");
    assert_eq!(archive_name("demo", "main"), "demo-main.zip");
}

#[test]
fn request_headers_carry_the_credential() {
    let h = request_headers(Some("abc"));
    assert_eq!(h.len(), 3);
    assert_eq!(h[2], ("Authorization".to_string(), "Bearer abc".to_string()));
    assert_eq!(request_headers(None).len(), 2);
    assert_eq!(Config::new(false).get_headers().len(), 2);
    let c = Config::with_token("t".to_string(), true);
    assert!(c.colored_output);
    assert_eq!(c.get_headers()[2].1, "Bearer t");
    assert_eq!(c.get_headers()[1].0, "User-Agent");
}

#[test]
fn release_selection() {
    let assets = vec![asset("a.zip", 1), asset("b.tar", 2), asset("a.zip", 3)];
    let all = select_assets(assets, true, None).ok().unwrap();
    assert_eq!(all.len(), 3);
    let named = select_assets(all, false, Some("a.zip")).ok().unwrap();
    assert_eq!(named.iter().map(|a| a.size).collect::<Vec<_>>(), vec![1, 3]);
    assert_eq!(
        select_assets(named, false, None).err(),
        Some(SelectionError::NothingSelected)
    );
    assert_eq!(newest_release(Vec::new()).err(), Some(SelectionError::NoReleases));
    let first = Release { tag_name: "v2".to_string(), assets: vec![] };
    let second = Release { tag_name: "v1".to_string(), assets: vec![] };
    assert_eq!(newest_release(vec![first, second]).ok().unwrap().tag_name, "v2");
}

#[test]
fn release_counts_to_show() {
    assert_eq!(releases_to_show(5, None), 5);
    assert_eq!(releases_to_show(5, Some(None)), 1);
    assert_eq!(releases_to_show(5, Some(Some(3))), 3);
    assert_eq!(releases_to_show(2, Some(Some(3))), 2);
    assert_eq!(releases_to_show(0, Some(None)), 0);
}

#[test]
fn asset_tasks_and_lines() {
    let release = Release { tag_name: "v1".to_string(), assets: vec![asset("x.bin", 1536), asset("y", 2048)] };
    let tasks = asset_tasks(&release.assets);
    assert_eq!(tasks[0].destination_path, "x.bin");
    assert_eq!(tasks[0].expected_size, Some(1536));
    assert_eq!(tasks[1].source_url, "https://example.org/y");
    let lines = asset_lines(&release);
    assert_eq!(lines[0].number, 1);
    assert_eq!(lines[0].size_text, "1.50 KiB");
    assert_eq!(lines[1].number, 2);
    assert_eq!(lines[1].size_text, "2 KiB");
    assert_eq!(lines[1].created_at, "2024-01-02T03:04:05Z");
}
