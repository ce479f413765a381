use file_search::pathname::file_name;
use file_search::pathname::is_in_ancestor_chain;
use file_search::pathname::last_index;
use file_search::pathname::path_ext;
use file_search::pathname::path_stem;

#[test]
fn file_name_is_the_part_after_the_last_slash() {
    assert_eq!(file_name("/a/b/c.txt"), "c.txt");
    assert_eq!(file_name("c.txt"), "c.txt");
    assert_eq!(file_name("/"), "");
}

#[test]
fn stem_and_extension_split_at_the_last_dot() {
    assert_eq!(path_stem("/a/b/c.txt"), "c");
    assert_eq!(path_ext("/a/b/c.txt"), "txt");
    assert_eq!(path_stem("/a/archive.tar.gz"), "archive.tar");
    assert_eq!(path_ext("/a/archive.tar.gz"), "gz");
}

#[test]
fn names_without_a_dot_have_no_extension() {
    assert_eq!(path_stem("/a/plain"), "plain");
    assert_eq!(path_ext("/a/plain"), "");
}

#[test]
fn hidden_files_keep_the_leading_dot_in_the_stem() {
    assert_eq!(path_stem("/a/.bashrc"), ".bashrc");
    assert_eq!(path_ext("/a/.bashrc"), "");
    assert_eq!(path_stem("/a/.config.bak"), ".config");
    assert_eq!(path_ext("/a/.config.bak"), "bak");
}

#[test]
fn a_dot_in_a_directory_does_not_split_the_name() {
    assert_eq!(path_stem("/a.b/plain"), "plain");
    assert_eq!(path_ext("/a.b/plain"), "");
}

#[test]
fn last_index_finds_the_rightmost_occurrence() {
    assert_eq!(last_index("a/b/c", '/'), Some(3));
    assert_eq!(last_index("abc", '/'), None);
    assert_eq!(last_index("", '.'), None);
}

#[test]
fn ancestor_chain_ends_at_component_boundaries() {
    assert!(is_in_ancestor_chain("/a", "/a/b"));
    assert!(is_in_ancestor_chain("/a/b", "/a/b"));
    assert!(is_in_ancestor_chain("/", "/a/b"));
    assert!(is_in_ancestor_chain("/a/", "/a/b"));
    assert!(!is_in_ancestor_chain("/a/b/c", "/a/b"));
    assert!(!is_in_ancestor_chain("/ab", "/a/b"));
    assert!(!is_in_ancestor_chain("b", "/a/b"));
}
