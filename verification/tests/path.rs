use package_checker::order::Order;
use package_checker::path::{
    compare_paths, directory, file_name, join, normal, same_path, slashed,
};

#[test]
fn a_path_has_one_spelling() {
    assert_eq!(normal("/p//a/./b/"), "/p/a/b");
    assert_eq!(normal("/./p"), "/p");
    assert_eq!(normal("a/./b"), "a/b");
    assert_eq!(normal("./a"), "./a");
    // Two dots may lead through a link, so they stay.
    assert_eq!(normal("/p/../q"), "/p/../q");
    assert_eq!(normal("/"), "/");
}

#[test]
fn the_spelling_of_a_path_does_not_count() {
    assert_eq!(directory("/p//a.txt"), "/p");
    assert_eq!(join("/p", "./base.txt"), "/p/base.txt");
    assert_eq!(join("/p/", "sub//base.txt"), "/p/sub/base.txt");
    assert_eq!(compare_paths("/p/./a", "/p/a"), Order::Equal);
}

#[test]
fn what_stands_for_a_directory_comes_before_every_name() {
    assert_eq!(compare_paths("/p/..", "/p/+a"), Order::Less);
    assert_eq!(compare_paths("/p/-a", "/p/.."), Order::Greater);
    assert_eq!(compare_paths("./a", "-a"), Order::Less);
    assert_eq!(compare_paths("/a", "./a"), Order::Less);
    assert_eq!(compare_paths("/a/b", "/a-b"), Order::Less);
    assert_eq!(compare_paths("/a", "/a/b"), Order::Less);
}

#[test]
fn a_file_has_the_last_name_of_its_path() {
    assert_eq!(file_name("/p/go.mod/"), "go.mod");
    assert_eq!(file_name("/p/go.mod/."), "go.mod");
    assert_eq!(file_name("/p/.."), "");
    assert_eq!(file_name("/"), "");
    assert_eq!(file_name("go.mod"), "go.mod");
}

#[test]
fn a_backslash_separates_on_windows_alone() {
    assert_eq!(slashed("C:\\p\\go.mod", true), "C:/p/go.mod");
    assert_eq!(slashed("/p/a\\b", false), "/p/a\\b");
}

#[test]
fn to_spell_a_path_twice_changes_nothing() {
    for path in ["", "/", "//", "./", ".", "./a/./b//c/", "/./a", "a/..", "//a"] {
        assert_eq!(normal(&normal(path)), normal(path), "{path}");
    }
    assert!(same_path("/p//a/", "/p/./a"));
    assert!(!same_path("/p/a", "p/a"));
}
