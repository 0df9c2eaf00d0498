use gtk_icon_debloat::relative::{path_subtract, relativize, remove_all, strip_leading};
use gtk_icon_debloat::text::{chars_of, contains, find_from, stands_at};

#[test]
fn path_subtract_takes_the_root_away() {
    let separator = std::path::MAIN_SEPARATOR.to_string();
    let full = ["", "tmp", "path", "is", "a", "lie"].join(&separator);
    let part = ["", "tmp", "path"].join(&separator);
    let expected = ["is", "a", "lie"].join(&separator);
    assert_eq!(path_subtract(&full, &part), expected);
}

#[test]
fn path_subtract_of_the_root_itself_is_empty() {
    let separator = std::path::MAIN_SEPARATOR.to_string();
    let root = ["", "usr", "share", "icons"].join(&separator);
    assert_eq!(path_subtract(&root, &root), "");
}

#[test]
fn relativize_example() {
    assert_eq!(relativize("/tmp/path/is/a/lie", "/tmp/path", '/'), "is/a/lie");
    assert_eq!(relativize("/src/a/icon-foo.png", "/src", '/'), "a/icon-foo.png");
}

#[test]
fn relativize_root_with_trailing_separator() {
    assert_eq!(relativize("/src/a/icon.png", "/src/", '/'), "a/icon.png");
}

#[test]
fn relativize_without_the_root_only_strips() {
    assert_eq!(relativize("/other/a/icon.png", "/src", '/'), "other/a/icon.png");
    assert_eq!(relativize("/Src/a/icon.png", "/src", '/'), "Src/a/icon.png");
    assert_eq!(relativize("a/icon.png", "/src", '/'), "a/icon.png");
}

#[test]
fn relativize_removes_every_occurrence() {
    assert_eq!(relativize("/src/a/src/icon.png", "/src", '/'), "a/icon.png");
    assert_eq!(relativize("icons/x/icons/y", "icons", '/'), "x//y");
}

#[test]
fn relativize_is_not_aware_of_segments() {
    assert_eq!(relativize("/srcfoo/a.png", "/src", '/'), "foo/a.png");
}

#[test]
fn relativize_with_an_empty_root() {
    assert_eq!(relativize("/a/b", "", '/'), "a/b");
    assert_eq!(relativize("", "", '/'), "");
    assert_eq!(relativize("", "/src", '/'), "");
}

#[test]
fn relativize_drops_all_leading_separators() {
    assert_eq!(relativize("/src///a//b/", "/src", '/'), "a//b/");
    assert_eq!(relativize("////", "/src", '/'), "");
}

#[test]
fn relativize_with_another_separator() {
    assert_eq!(relativize("C:\\icons\\a\\b.png", "C:\\icons", '\\'), "a\\b.png");
    assert_eq!(relativize("/src/a", "/src", '\\'), "/a");
}

#[test]
fn relativize_keeps_characters_beyond_ascii() {
    assert_eq!(relativize("/thème/größe/ikone.png", "/thème", '/'), "größe/ikone.png");
}

#[test]
fn relativize_round_trip() {
    let root = "/usr/share/icons";
    let rest = "Adwaita/16x16/actions/go-up.png";
    let full = format!("{}/{}", root, rest);
    let relative = relativize(&full, root, '/');
    assert_eq!(relative, rest);
    assert_eq!(format!("{}/{}", root, relative), full);
}

#[test]
fn relativize_twice_changes_nothing_more() {
    let once = relativize("//a/b/c.png", "/src", '/');
    assert_eq!(once, "a/b/c.png");
    assert_eq!(relativize(&once, "/src", '/'), once);
}

#[test]
fn remove_all_agrees_with_replace() {
    let cases = [
        ("", ""),
        ("", "a"),
        ("abc", ""),
        ("abc", "abc"),
        ("abc", "abcd"),
        ("aaa", "aa"),
        ("aaaa", "aa"),
        ("aabb", "ab"),
        ("abababa", "aba"),
        ("/src/a/src/b", "/src"),
        ("xyz", "q"),
        ("héllo wörld", "ö"),
    ];
    for (text, pattern) in cases {
        assert_eq!(remove_all(text, pattern), text.replace(pattern, ""));
    }
}

#[test]
fn remove_all_takes_occurrences_from_the_left() {
    assert_eq!(remove_all("aaa", "aa"), "a");
    assert_eq!(remove_all("aabb", "ab"), "ab");
    assert_eq!(remove_all("abababa", "aba"), "b");
}

#[test]
fn strip_leading_drops_only_the_front() {
    assert_eq!(strip_leading("///a/b/", '/'), "a/b/");
    assert_eq!(strip_leading("a/b", '/'), "a/b");
    assert_eq!(strip_leading("", '/'), "");
    assert_eq!(strip_leading("//", '/'), "");
}

#[test]
fn strip_leading_agrees_with_split_and_join() {
    let cases = ["", "/", "//", "/a", "a/", "/a//b/", "a//b", "///a/b/c"];
    for text in cases {
        let parts: Vec<String> =
            text.split('/').skip_while(|s| s.is_empty()).map(|s| s.to_string()).collect();
        assert_eq!(strip_leading(text, '/'), parts.join("/"));
    }
}

#[test]
fn contains_agrees_with_str() {
    let cases = [
        ("icon-foo.png", "icon-foo"),
        ("icon-foo.png", "icon-bar"),
        ("icon-foo.png", ""),
        ("", ""),
        ("", "a"),
        ("abc", "abcd"),
        ("abc", "c"),
        ("abc", "C"),
        ("go-up-symbolic.svg", "go-up"),
        ("größe.png", "öß"),
    ];
    for (hay, needle) in cases {
        assert_eq!(contains(hay, needle), hay.contains(needle));
    }
}

#[test]
fn contains_is_case_sensitive() {
    assert!(contains("Folder.png", "Folder"));
    assert!(!contains("Folder.png", "folder"));
}

#[test]
fn chars_of_gives_every_character() {
    assert_eq!(chars_of("aß/"), vec!['a', 'ß', '/']);
    assert_eq!(chars_of(""), Vec::<char>::new());
}

#[test]
fn stands_at_checks_one_place() {
    let hay = chars_of("abcabc");
    let needle = chars_of("bc");
    assert!(stands_at(&hay, &needle, 1));
    assert!(stands_at(&hay, &needle, 4));
    assert!(!stands_at(&hay, &needle, 0));
    assert!(!stands_at(&hay, &needle, 5));
    assert!(!stands_at(&hay, &needle, 100));
    assert!(stands_at(&hay, &chars_of(""), 6));
    assert!(!stands_at(&hay, &chars_of(""), 7));
}

#[test]
fn find_from_gives_the_first_place() {
    let hay = chars_of("abcabc");
    let needle = chars_of("bc");
    assert_eq!(find_from(&hay, &needle, 0), Some(1));
    assert_eq!(find_from(&hay, &needle, 1), Some(1));
    assert_eq!(find_from(&hay, &needle, 2), Some(4));
    assert_eq!(find_from(&hay, &needle, 5), None);
    assert_eq!(find_from(&hay, &chars_of("x"), 0), None);
    assert_eq!(find_from(&hay, &chars_of(""), 6), Some(6));
    assert_eq!(find_from(&hay, &chars_of(""), 7), None);
}
