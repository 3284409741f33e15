use pathit::path::descends;
use pathit::path::normalize_path;
use pathit::path::separates;

#[test]
fn normalize_path_of_a_file() {
    assert_eq!(normalize_path("/root/a.txt", "/root", '/', false), "a.txt");
    assert_eq!(normalize_path("/root/b/c.txt", "/root", '/', false), "b/c.txt");
}

#[test]
fn normalize_path_of_a_directory() {
    assert_eq!(normalize_path("/root/b", "/root", '/', true), "b/");
    assert_eq!(normalize_path("/root/b/d", "/root", '/', true), "b/d/");
}

#[test]
fn normalize_path_rewrites_the_separator() {
    assert_eq!(normalize_path("C:\\root\\b\\c.txt", "C:\\root", '\\', false), "b/c.txt");
    assert_eq!(normalize_path("C:\\root\\b", "C:\\root", '\\', true), "b/");
    assert_eq!(normalize_path("C:\\root\\b/c.txt", "C:\\root", '\\', false), "b/c.txt");
}

#[test]
fn normalize_path_with_a_root_that_ends_in_a_separator() {
    assert_eq!(normalize_path("/root/a.txt", "/root/", '/', false), "a.txt");
    assert_eq!(normalize_path("./a.txt", ".", '/', false), "a.txt");
    assert_eq!(normalize_path("a.txt", "", '/', false), "a.txt");
}

#[test]
fn normalize_path_drops_separators_at_the_ends() {
    assert_eq!(normalize_path("/root//b/", "/root", '/', true), "b/");
    assert_eq!(normalize_path("/root/b/", "/root", '/', false), "b");
}

#[test]
fn normalize_path_keeps_other_characters() {
    assert_eq!(normalize_path("/r/a b,c.txt", "/r", '/', false), "a b,c.txt");
    assert_eq!(normalize_path("/r/日本/é", "/r", '/', true), "日本/é/");
    assert_eq!(normalize_path("/r/a\\b", "/r", '/', false), "a\\b");
}

#[test]
fn a_directory_ends_in_a_slash_and_a_file_does_not() {
    let paths = ["/r/a", "/r/a/b", "/r/a/b/", "/r/x.y", "/r//z//"];
    for path in paths.iter() {
        assert!(normalize_path(path, "/r", '/', true).ends_with('/'));
        assert!(!normalize_path(path, "/r", '/', false).ends_with('/'));
        assert!(!normalize_path(path, "/r", '/', false).starts_with('/'));
    }
}

#[test]
fn normalize_path_of_the_root_itself() {
    assert_eq!(normalize_path("/root", "/root", '/', false), "");
    assert_eq!(normalize_path("/root", "/root", '/', true), "/");
}

#[test]
fn descends_tells_what_lies_below() {
    assert!(descends("/root/a", "/root", '/'));
    assert!(descends("/root/a", "/root/", '/'));
    assert!(descends("/root", "/root", '/'));
    assert!(descends("a", "", '/'));
    assert!(descends("C:\\root\\a", "C:\\root", '\\'));
    assert!(descends("C:\\root/a", "C:\\root", '\\'));
    assert!(!descends("/rootless/a", "/root", '/'));
    assert!(!descends("/other/a", "/root", '/'));
    assert!(!descends("/roo", "/root", '/'));
    assert!(!descends("/root\\a", "/root", '/'));
}

#[test]
fn separates_tells_separators() {
    assert!(separates('/', '/'));
    assert!(separates('/', '\\'));
    assert!(separates('\\', '\\'));
    assert!(!separates('\\', '/'));
    assert!(!separates('a', '/'));
}
