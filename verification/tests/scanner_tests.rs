use file_search::fstree::DirListing;
use file_search::fstree::Entry;
use file_search::fstree::EntryKind;
use file_search::fstree::FsTree;
use file_search::scanner::FileSearch;

fn file(canon: &str) -> Entry {
    Entry { canon: Some(String::from(canon)), kind: EntryKind::File }
}

fn subdir(canon: &str) -> Entry {
    Entry { canon: Some(String::from(canon)), kind: EntryKind::Directory }
}

fn listing(canon: &str, entries: Vec<Entry>) -> DirListing {
    DirListing { canon: String::from(canon), entries }
}

/// A tree with files a.txt, a.md and b.txt directly under the root.
fn flat_tree() -> FsTree {
    FsTree {
        dirs: vec![listing(
            "/r",
            vec![file("/r/a.txt"), file("/r/a.md"), file("/r/b.txt")],
        )],
    }
}

fn sorted(mut v: Vec<String>) -> Vec<String> {
    v.sort();
    v
}

#[test]
fn extension_filter_selects_matching_files() {
    let mut s = FileSearch::new();
    s.set_exclusive_extensions(vec!["txt"]);
    let r = s.search_files(Some("/r"), &flat_tree());
    assert_eq!(sorted(r), vec!["/r/a.txt".to_string(), "/r/b.txt".to_string()]);
}

#[test]
fn filename_filter_selects_matching_stems() {
    let mut s = FileSearch::new();
    s.set_exclusive_filenames(vec!["a"]);
    let r = s.search_files(Some("/r"), &flat_tree());
    assert_eq!(sorted(r), vec!["/r/a.md".to_string(), "/r/a.txt".to_string()]);
}

#[test]
fn combined_filters_select_intersection() {
    let mut s = FileSearch::new();
    s.set_exclusive_filenames(vec!["a"]);
    s.set_exclusive_extensions(vec!["txt"]);
    let r = s.search_files(Some("/r"), &flat_tree());
    assert_eq!(r, vec!["/r/a.txt".to_string()]);
}

#[test]
fn extension_spellings_are_equivalent() {
    let tree = FsTree { dirs: vec![listing("/r", vec![file("/r/x.txt")])] };
    for spelling in ["TXT", ".txt", "txt", " txt "] {
        let mut s = FileSearch::new();
        s.set_exclusive_extensions(vec![spelling]);
        let r = s.search_files(Some("/r"), &tree);
        assert_eq!(r, vec!["/r/x.txt".to_string()], "spelling {:?}", spelling);
    }
}

#[test]
fn stem_matching_folds_file_side_case() {
    let tree = FsTree { dirs: vec![listing("/r", vec![file("/r/README.txt")])] };
    let mut s = FileSearch::new();
    s.set_exclusive_filenames(vec!["readme"]);
    let r = s.search_files(Some("/r"), &tree);
    assert_eq!(r, vec!["/r/README.txt".to_string()]);
}

#[test]
fn excluded_directory_is_pruned() {
    let tree = FsTree {
        dirs: vec![
            listing("/root", vec![subdir("/root/keep"), subdir("/root/skip")]),
            listing("/root/keep", vec![file("/root/keep/f1.txt")]),
            listing("/root/skip", vec![file("/root/skip/f2.txt"), subdir("/root/skip/nested")]),
            listing("/root/skip/nested", vec![file("/root/skip/nested/f3.txt")]),
        ],
    };
    let mut s = FileSearch::new();
    s.set_exclude_directories(vec!["/root/skip"]);
    let r = s.search_files(Some("/root"), &tree);
    assert_eq!(r, vec!["/root/keep/f1.txt".to_string()]);
}

#[test]
fn exclusion_of_root_yields_nothing() {
    let mut s = FileSearch::new();
    s.set_exclude_directories(vec!["/r"]);
    let r = s.search_files(Some("/r"), &flat_tree());
    assert!(r.is_empty());
}

#[test]
fn empty_filters_keep_every_file_once() {
    let tree = FsTree {
        dirs: vec![
            listing("/r", vec![file("/r/one"), subdir("/r/d")]),
            listing("/r/d", vec![file("/r/d/two.log"), file("/r/d/three.txt")]),
        ],
    };
    let s = FileSearch::new();
    let r = s.search_files(Some("/r"), &tree);
    assert_eq!(
        sorted(r),
        vec![
            "/r/d/three.txt".to_string(),
            "/r/d/two.log".to_string(),
            "/r/one".to_string(),
        ]
    );
}

#[test]
fn file_reached_twice_appears_once() {
    // two directories list the same canonical file, as two links would
    let tree = FsTree {
        dirs: vec![
            listing("/r", vec![subdir("/r/d1"), subdir("/r/d2")]),
            listing("/r/d1", vec![file("/r/shared.txt")]),
            listing("/r/d2", vec![file("/r/shared.txt")]),
        ],
    };
    let s = FileSearch::new();
    let r = s.search_files(Some("/r"), &tree);
    assert_eq!(r, vec!["/r/shared.txt".to_string()]);
}

#[test]
fn directory_cycle_terminates_and_deduplicates() {
    // a link in /r/d points back at /r
    let tree = FsTree {
        dirs: vec![
            listing("/r", vec![file("/r/a.txt"), subdir("/r/d")]),
            listing("/r/d", vec![subdir("/r"), file("/r/d/b.txt")]),
        ],
    };
    let s = FileSearch::new();
    let r = s.search_files(Some("/r"), &tree);
    assert_eq!(sorted(r), vec!["/r/a.txt".to_string(), "/r/d/b.txt".to_string()]);
}

#[test]
fn unresolvable_entry_is_skipped_without_aborting() {
    let tree = FsTree {
        dirs: vec![listing(
            "/r",
            vec![
                file("/r/a.txt"),
                Entry { canon: None, kind: EntryKind::File },
                file("/r/b.txt"),
            ],
        )],
    };
    let s = FileSearch::new();
    let r = s.search_files(Some("/r"), &tree);
    assert_eq!(sorted(r), vec!["/r/a.txt".to_string(), "/r/b.txt".to_string()]);
}

#[test]
fn unreadable_subdirectory_contributes_nothing() {
    // /r/locked has no listing: it could not be read
    let tree = FsTree {
        dirs: vec![listing("/r", vec![file("/r/a.txt"), subdir("/r/locked")])],
    };
    let s = FileSearch::new();
    let r = s.search_files(Some("/r"), &tree);
    assert_eq!(r, vec!["/r/a.txt".to_string()]);
}

#[test]
fn unresolvable_root_yields_nothing() {
    let s = FileSearch::new();
    let r = s.search_files(None, &flat_tree());
    assert!(r.is_empty());
}

#[test]
fn special_entries_are_ignored() {
    let tree = FsTree {
        dirs: vec![listing(
            "/r",
            vec![
                file("/r/a.txt"),
                Entry { canon: Some(String::from("/r/sock")), kind: EntryKind::Other },
            ],
        )],
    };
    let s = FileSearch::new();
    let r = s.search_files(Some("/r"), &tree);
    assert_eq!(r, vec!["/r/a.txt".to_string()]);
}

#[test]
fn default_root_is_the_working_directory() {
    let with_default = FileSearch::new();
    let mut with_explicit = FileSearch::new();
    with_explicit.set_root("/cwd/here");
    let cwd = "/cwd/here";
    assert_eq!(with_default.get_root_path(cwd), with_explicit.get_root_path(cwd));

    let tree = FsTree { dirs: vec![listing("/cwd/here", vec![file("/cwd/here/a.txt")])] };
    let r1 = with_default.search_files(Some(&with_default.get_root_path(cwd)), &tree);
    let r2 = with_explicit.search_files(Some(&with_explicit.get_root_path(cwd)), &tree);
    assert_eq!(r1, r2);
    assert_eq!(r1, vec!["/cwd/here/a.txt".to_string()]);
}

#[test]
fn files_without_extension_fail_a_nonempty_extension_filter() {
    let tree = FsTree { dirs: vec![listing("/r", vec![file("/r/plain"), file("/r/p.txt")])] };
    let mut s = FileSearch::new();
    s.set_exclusive_extensions(vec!["txt"]);
    let r = s.search_files(Some("/r"), &tree);
    assert_eq!(r, vec!["/r/p.txt".to_string()]);
}

#[test]
fn format_extension_normalizes() {
    let s = FileSearch::new();
    assert_eq!(s.format_extension(&String::from(" TXT ")), ".txt");
    assert_eq!(s.format_extension(&String::from(".Md")), ".md");
    assert_eq!(s.format_extension(&String::from("")), "");
    assert_eq!(s.format_extension(&String::from("  ")), "");
}

#[test]
fn same_directory_follows_the_ancestor_chain() {
    let s = FileSearch::new();
    let f = String::from("/a/b/c.txt");
    assert!(s.is_same_directory(&f, &String::from("/a/b/c.txt")));
    assert!(s.is_same_directory(&f, &String::from("/a/b")));
    assert!(s.is_same_directory(&f, &String::from("/a")));
    assert!(s.is_same_directory(&f, &String::from("/")));
    assert!(!s.is_same_directory(&f, &String::from("/a/b/c")));
    assert!(!s.is_same_directory(&f, &String::from("/a/bb")));
}

#[test]
fn excluded_directory_check_covers_every_entry() {
    let mut s = FileSearch::new();
    s.set_exclude_directories(vec!["/x", "/y/z"]);
    assert!(s.is_excluded_directory(&String::from("/x/deep/down")));
    assert!(s.is_excluded_directory(&String::from("/y/z")));
    assert!(!s.is_excluded_directory(&String::from("/y")));
    assert!(!s.is_excluded_directory(&String::from("/z")));
}

#[test]
fn handle_file_appends_new_matching_files_only() {
    let s = FileSearch::new();
    let mut files: Vec<String> = Vec::new();
    s.handle_file(&String::from("/r/a"), &mut files);
    s.handle_file(&String::from("/r/a"), &mut files);
    s.handle_file(&String::from("/r/b"), &mut files);
    assert_eq!(files, vec!["/r/a".to_string(), "/r/b".to_string()]);
}

#[test]
fn handle_folder_descends_only_into_new_directories() {
    let s = FileSearch::new();
    let mut roots: Vec<String> = Vec::new();
    assert!(s.handle_folder(&String::from("/r/d"), &mut roots));
    assert!(!s.handle_folder(&String::from("/r/d"), &mut roots));
    assert!(s.handle_folder(&String::from("/r/e"), &mut roots));
    assert_eq!(roots, vec!["/r/d".to_string(), "/r/e".to_string()]);
}

#[test]
fn filter_validation_checks_both_filters() {
    let mut s = FileSearch::new();
    s.set_exclusive_filenames(vec!["a"]);
    s.set_exclusive_extensions(vec!["txt"]);
    assert!(s.get_filter_validation(&String::from("/r/a.txt")));
    assert!(!s.get_filter_validation(&String::from("/r/a.md")));
    assert!(!s.get_filter_validation(&String::from("/r/b.txt")));
}
