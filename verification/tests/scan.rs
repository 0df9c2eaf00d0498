use gtk_icon_debloat::relative::relativize;
use gtk_icon_debloat::scan::{count_matches, find_icon_paths, Entry, EntryKind, Listing, Scan};
use gtk_icon_debloat::text::chars_of;
use std::path::{Path, PathBuf};

/// A directory tree held in memory, to answer a scan from.
struct Node {
    name: &'static str,
    kind: EntryKind,
    readable: bool,
    children: Vec<Node>,
}

fn dir(name: &'static str, children: Vec<Node>) -> Node {
    Node { name, kind: EntryKind::Directory, readable: true, children }
}

fn locked(name: &'static str) -> Node {
    Node { name, kind: EntryKind::Directory, readable: false, children: Vec::new() }
}

fn file(name: &'static str) -> Node {
    Node { name, kind: EntryKind::File, readable: true, children: Vec::new() }
}

fn other(name: &'static str) -> Node {
    Node { name, kind: EntryKind::Other, readable: true, children: Vec::new() }
}

fn lookup<'a>(node: &'a Node, path: &str, asked: &str) -> Option<&'a Node> {
    if path == asked {
        return Some(node);
    }
    for child in &node.children {
        let below = format!("{}/{}", path, child.name);
        if let Some(found) = lookup(child, &below, asked) {
            return Some(found);
        }
    }
    None
}

fn listing(root: &Node, root_path: &str, asked: &str) -> Listing {
    match lookup(root, root_path, asked) {
        Some(node) if node.readable => Listing::Entries(
            node.children
                .iter()
                .map(|child| Entry {
                    name: child.name.to_string(),
                    path: format!("{}/{}", asked, child.name),
                    kind: child.kind,
                })
                .collect(),
        ),
        _ => Listing::Unreadable,
    }
}

fn run(root: &Node, root_path: &str, icons: &[&str]) -> Scan {
    let icons: Vec<String> = icons.iter().map(|s| s.to_string()).collect();
    let mut scan = find_icon_paths(root_path, root.kind, &icons);
    loop {
        let asked = match &scan {
            Scan::Reading { directory, .. } => directory.clone(),
            _ => return scan,
        };
        scan = scan.advance(listing(root, root_path, &asked));
    }
}

fn found(root: &Node, root_path: &str, icons: &[&str]) -> Vec<String> {
    match run(root, root_path, icons) {
        Scan::Done { paths } => paths,
        _ => panic!("the scan did not finish"),
    }
}

fn destinations(paths: &[String], source: &str, out: &str) -> Vec<PathBuf> {
    paths.iter().map(|path| Path::new(out).join(relativize(path, source, '/'))).collect()
}

#[test]
fn an_empty_directory_holds_nothing() {
    let root = dir("src", vec![]);
    assert_eq!(found(&root, "/src", &["icon"]), Vec::<String>::new());
}

#[test]
fn the_first_step_asks_for_the_root() {
    let icons = vec!["icon".to_string()];
    match find_icon_paths("/src", EntryKind::Directory, &icons) {
        Scan::Reading { directory, .. } => assert_eq!(directory, "/src"),
        _ => panic!("the scan asked for nothing"),
    }
}

#[test]
fn a_root_that_is_no_directory_gives_nothing() {
    let icons = vec!["icon".to_string()];
    match find_icon_paths("/src/icon.png", EntryKind::File, &icons) {
        Scan::Done { paths } => assert!(paths.is_empty()),
        _ => panic!("the scan did not finish"),
    }
    match find_icon_paths("/src/socket", EntryKind::Other, &icons) {
        Scan::Done { paths } => assert!(paths.is_empty()),
        _ => panic!("the scan did not finish"),
    }
}

#[test]
fn wanted_icons_are_found_and_mirrored() {
    let root = dir(
        "src",
        vec![
            dir("a", vec![file("icon-foo.png")]),
            dir("b", vec![file("icon-bar.png")]),
            file("other.png"),
        ],
    );
    let paths = found(&root, "/src", &["icon-foo", "icon-bar"]);
    assert_eq!(paths, vec!["/src/a/icon-foo.png", "/src/b/icon-bar.png"]);
    let copies = destinations(&paths, "/src", "/out");
    assert_eq!(
        copies,
        vec![PathBuf::from("/out/a/icon-foo.png"), PathBuf::from("/out/b/icon-bar.png")]
    );
    assert!(!copies.contains(&PathBuf::from("/out/other.png")));
}

#[test]
fn a_name_matched_twice_is_found_twice() {
    let root = dir("src", vec![dir("a", vec![file("icon-foo.png")])]);
    let paths = found(&root, "/src", &["icon", "foo", "bar"]);
    assert_eq!(paths, vec!["/src/a/icon-foo.png", "/src/a/icon-foo.png"]);
    let copies = destinations(&paths, "/src", "/out");
    assert_eq!(copies.len(), 2);
    assert_eq!(copies[0], PathBuf::from("/out/a/icon-foo.png"));
    assert_eq!(copies[0], copies[1]);
}

#[test]
fn a_pattern_given_twice_counts_twice() {
    let root = dir("src", vec![file("go-up.png")]);
    let paths = found(&root, "/src", &["go-up", "go-up"]);
    assert_eq!(paths, vec!["/src/go-up.png", "/src/go-up.png"]);
}

#[test]
fn a_directory_is_walked_before_what_follows_it() {
    let root = dir(
        "t",
        vec![
            file("x1"),
            dir("d", vec![file("x2"), dir("e", vec![file("x3")]), file("x4")]),
            file("x5"),
            dir("f", vec![]),
            file("x6"),
        ],
    );
    let paths = found(&root, "/t", &["x"]);
    assert_eq!(paths, vec!["/t/x1", "/t/d/x2", "/t/d/e/x3", "/t/d/x4", "/t/x5", "/t/x6"]);
}

#[test]
fn only_the_name_is_held_against_the_patterns() {
    let root = dir("icons", vec![dir("icons-extra", vec![file("a.png"), file("icons.png")])]);
    let paths = found(&root, "/icons", &["icons"]);
    assert_eq!(paths, vec!["/icons/icons-extra/icons.png"]);
}

#[test]
fn matching_is_case_sensitive() {
    let root = dir("src", vec![file("Folder.png"), file("folder.png")]);
    assert_eq!(found(&root, "/src", &["folder"]), vec!["/src/folder.png"]);
}

#[test]
fn an_empty_pattern_stands_in_every_name() {
    let root = dir("src", vec![file("a"), dir("d", vec![file("b")])]);
    assert_eq!(found(&root, "/src", &[""]), vec!["/src/a", "/src/d/b"]);
}

#[test]
fn without_patterns_nothing_is_found() {
    let root = dir("src", vec![file("a"), dir("d", vec![file("b")])]);
    assert_eq!(found(&root, "/src", &[]), Vec::<String>::new());
}

#[test]
fn what_is_neither_file_nor_directory_is_passed_over() {
    let root = dir("src", vec![other("icon-link"), file("icon.png"), other("icon-pipe")]);
    assert_eq!(found(&root, "/src", &["icon"]), vec!["/src/icon.png"]);
}

#[test]
fn an_unreadable_directory_ends_the_scan() {
    let root = dir("src", vec![file("icon-a.png"), locked("deep"), file("icon-b.png")]);
    match run(&root, "/src", &["icon"]) {
        Scan::Failed { directory } => assert_eq!(directory, "/src/deep"),
        _ => panic!("the scan went on"),
    }
}

#[test]
fn an_unreadable_root_ends_the_scan() {
    let icons = vec!["icon".to_string()];
    let scan = find_icon_paths("/src", EntryKind::Directory, &icons);
    match scan.advance(Listing::Unreadable) {
        Scan::Failed { directory } => assert_eq!(directory, "/src"),
        _ => panic!("the scan went on"),
    }
}

#[test]
fn a_scan_at_its_end_takes_no_more_listings() {
    let root = dir("src", vec![file("icon.png")]);
    let done = run(&root, "/src", &["icon"]);
    let entries = vec![Entry {
        name: "icon-late.png".to_string(),
        path: "/src/icon-late.png".to_string(),
        kind: EntryKind::File,
    }];
    match done.advance(Listing::Entries(entries)) {
        Scan::Done { paths } => assert_eq!(paths, vec!["/src/icon.png"]),
        _ => panic!("the scan began anew"),
    }
    let failed = find_icon_paths("/src", EntryKind::Directory, &Vec::new())
        .advance(Listing::Unreadable);
    match failed.advance(Listing::Entries(Vec::new())) {
        Scan::Failed { directory } => assert_eq!(directory, "/src"),
        _ => panic!("the scan began anew"),
    }
}

#[test]
fn count_matches_counts_the_patterns_that_stand_in_the_name() {
    let name = chars_of("icon-foo.png");
    let patterns = vec![chars_of("icon"), chars_of("bar"), chars_of("foo"), chars_of(".png")];
    assert_eq!(count_matches(&name, &patterns), 3);
    assert_eq!(count_matches(&name, &Vec::new()), 0);
    assert_eq!(count_matches(&name, &vec![chars_of("Icon")]), 0);
}
