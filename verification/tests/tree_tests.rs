use markforge::file_tree::{sort_listing, FileTree, FsEntry};

fn entry(path: &str, name: &str, is_dir: bool) -> FsEntry {
    FsEntry { path: path.to_string(), name: name.to_string(), is_dir }
}

fn names(v: &[FsEntry]) -> Vec<String> {
    v.iter().map(|e| e.name.clone()).collect()
}

#[test]
fn listing_filters_and_orders() {
    let raw = vec![
        entry("/d/zeta", "zeta", true),
        entry("/d/b.md", "b.md", false),
        entry("/d/alpha", "alpha", true),
        entry("/d/A.md", "A.md", false),
        entry("/d/c.txt", "c.txt", false),
        entry("/d/.hidden", ".hidden", false),
        entry("/d/binary.exe", "binary.exe", false),
        entry("/d/.git", ".git", true),
    ];
    let sorted = sort_listing(raw);
    assert_eq!(names(&sorted), ["alpha", "zeta", "A.md", "b.md", "c.txt"]);
    assert!(sort_listing(Vec::new()).is_empty());
}

#[test]
fn rows_under_expands_in_place() {
    let mut ft = FileTree::new();
    ft.expand("/r");
    assert!(ft.needs_listing("/r"));
    ft.ensure("/r", sort_listing(vec![entry("/r/top.md", "top.md", false), entry("/r/sub", "sub", true)]));
    assert!(!ft.needs_listing("/r"));
    let rows = ft.rows_under("/r");
    assert_eq!(rows[0].depth, 0, "root is depth 0");
    assert_eq!(rows[0].entry.name, "r");
    assert!(rows[0].expanded);
    assert!(rows.iter().any(|r| r.depth == 1 && r.entry.name == "sub"));
    assert!(rows.iter().any(|r| r.depth == 1 && r.entry.name == "top.md"));
    assert!(!rows.iter().any(|r| r.entry.name == "child.md"));

    ft.expand("/r/sub");
    ft.ensure("/r/sub", vec![entry("/r/sub/child.md", "child.md", false)]);
    let rows = ft.rows_under("/r");
    let names: Vec<(usize, String)> = rows.iter().map(|r| (r.depth, r.entry.name.clone())).collect();
    assert_eq!(
        names,
        vec![(0, "r".into()), (1, "sub".into()), (2, "child.md".into()), (1, "top.md".into())]
    );
}

#[test]
fn toggle_reports_and_flips_state() {
    let mut ft = FileTree::new();
    let opened = ft.toggle("/x");
    assert!(ft.is_expanded("/x"));
    let closed = ft.toggle("/x");
    assert!(opened && !closed);
    assert!(!ft.is_expanded("/x"));
}

#[test]
fn collapsed_root_shows_only_itself() {
    let mut ft = FileTree::new();
    let rows = ft.rows_under("/a/b");
    assert_eq!(rows.len(), 1);
    assert!(!rows[0].expanded);
    ft.expand("/a/b");
    ft.ensure("/a/b", vec![entry("/a/b/f.md", "f.md", false)]);
    ft.collapse_all();
    assert_eq!(ft.rows_under("/a/b").len(), 1);
    assert!(ft.needs_listing("/a/b"));
}

#[test]
fn refresh_forgets_listings_and_names_expanded_folders() {
    let mut ft = FileTree::new();
    ft.expand("/p");
    ft.ensure("/p", vec![entry("/p/a.md", "a.md", false)]);
    ft.expand("/q");
    let mut dirs = ft.refresh();
    dirs.sort();
    assert_eq!(dirs, vec!["/p".to_string(), "/q".to_string()]);
    assert!(ft.needs_listing("/p"));
    assert!(ft.is_expanded("/p"));
}

#[test]
fn expanding_twice_is_the_same_as_once() {
    let mut ft = FileTree::new();
    ft.expand("/e");
    ft.expand("/e");
    assert!(ft.is_expanded("/e"));
    assert!(!ft.toggle("/e"));
    assert!(!ft.is_expanded("/e"));
}

#[test]
fn ensure_keeps_the_first_listing() {
    let mut ft = FileTree::new();
    ft.expand("/k");
    ft.ensure("/k", vec![entry("/k/one.md", "one.md", false)]);
    ft.ensure("/k", vec![entry("/k/two.md", "two.md", false)]);
    let rows = ft.rows_under("/k");
    assert_eq!(rows.len(), 2);
    assert_eq!(rows[1].entry.name, "one.md");
}

#[test]
fn folder_linked_into_itself_stops_the_walk() {
    let mut ft = FileTree::new();
    ft.expand("/loop");
    ft.ensure("/loop", vec![entry("/loop", "loop", true)]);
    let rows = ft.rows_under("/loop");
    assert_eq!(rows.len(), 2);
}

#[test]
fn listing_order_ignores_case() {
    let sorted = sort_listing(vec![
        entry("/d/B.md", "B.md", false),
        entry("/d/a.md", "a.md", false),
        entry("/d/Zed", "Zed", true),
        entry("/d/ant", "ant", true),
    ]);
    assert_eq!(names(&sorted), ["ant", "Zed", "a.md", "B.md"]);
}

#[test]
fn rereading_after_refresh_shows_only_fresh_listings() {
    let mut ft = FileTree::new();
    ft.expand("/f");
    ft.ensure("/f", vec![entry("/f/old.md", "old.md", false)]);
    for dir in ft.refresh() {
        assert!(ft.needs_listing(&dir));
        ft.ensure(&dir, vec![entry("/f/new.md", "new.md", false)]);
    }
    let rows = ft.rows_under("/f");
    assert_eq!(rows.len(), 2);
    assert_eq!(rows[1].entry.name, "new.md");
}
