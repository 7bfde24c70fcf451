use wheres::config::SearchConfig;
use wheres::memory::{Directory, MemoryTree};
use wheres::text::{chars_of, contains_chars, name_contains, same_text};
use wheres::walk::{Entry, Listing, Walk};

fn file(path: &str, name: &str) -> Entry {
    Entry { path: path.to_string(), name: name.to_string(), is_dir: false }
}

fn dir(path: &str, name: &str) -> Entry {
    Entry { path: path.to_string(), name: name.to_string(), is_dir: true }
}

fn listed(path: &str, entries: Vec<Entry>) -> Directory {
    Directory { path: path.to_string(), listing: Listing::Entries(entries) }
}

fn config(query: &str, recursive: bool) -> SearchConfig {
    SearchConfig::new(query.to_string(), recursive, false, None).expect("query is not empty")
}

fn strings(items: &[&str]) -> Vec<String> {
    items.iter().map(|s| s.to_string()).collect()
}

/// root holds foo.txt and bar/, and bar holds foo2.txt.
fn small_tree() -> MemoryTree {
    MemoryTree {
        dirs: vec![
            listed("root", vec![file("root/foo.txt", "foo.txt"), dir("root/bar", "bar")]),
            listed("root/bar", vec![file("root/bar/foo2.txt", "foo2.txt")]),
        ],
    }
}

#[test]
fn substring_matching_is_exact() {
    assert!(name_contains("foo.txt", "foo"));
    assert!(name_contains("foo.txt", ".txt"));
    assert!(name_contains("foo.txt", "foo.txt"));
    assert!(name_contains("foo.txt", "o.t"));
    assert!(!name_contains("foo.txt", "Foo"));
    assert!(!name_contains("foo.txt", "foo.txt2"));
    assert!(!name_contains("foo.txt", "fo.txt"));
    assert!(!name_contains("", "a"));
    assert!(name_contains("", ""));
    assert!(name_contains("abc", ""));
    assert!(name_contains("aab", "ab"));
    assert!(name_contains("ababac", "abac"));
}

#[test]
fn substring_matching_works_on_characters() {
    assert!(name_contains("r\u{e9}sum\u{e9}.txt", "sum\u{e9}"));
    assert!(!name_contains("resume.txt", "sum\u{e9}"));
    assert_eq!(chars_of("h\u{e9}"), vec!['h', '\u{e9}']);
    assert!(contains_chars(&vec!['a', 'b', 'c'], &vec!['b', 'c']));
    assert!(!contains_chars(&vec!['a', 'b', 'c'], &vec!['c', 'b']));
}

#[test]
fn same_text_compares_contents() {
    assert!(same_text("-h", "-h"));
    assert!(!same_text("-h", "-H"));
    assert!(!same_text("-h", "-hh"));
    assert!(same_text("", ""));
}

#[test]
fn new_walk_holds_the_root() {
    let mut walk = Walk::new("root".to_string());
    assert!(!walk.is_done());
    assert_eq!(walk.pending(), 1);
    assert_eq!(walk.visited_count(), 0);
    assert_eq!(walk.next(), Some("root".to_string()));
    assert!(walk.is_done());
    assert_eq!(walk.next(), None);
}

#[test]
fn directories_are_queued_or_tested_never_both() {
    let cfg = config("bar", true);
    let mut walk = Walk::new("root".to_string());
    let root = walk.next().unwrap();
    let listing = Listing::Entries(vec![dir("root/bar", "bar"), file("root/bar.txt", "bar.txt")]);
    let matches = walk.expand(&cfg, root, &listing);
    assert_eq!(matches, strings(&["root/bar.txt"]));
    assert_eq!(walk.pending(), 1);
    assert!(walk.has_visited("root"));
    assert!(!walk.has_visited("root/bar"));
}

#[test]
fn without_recursion_directories_are_tested() {
    let cfg = config("bar", false);
    let mut walk = Walk::new("root".to_string());
    let root = walk.next().unwrap();
    let listing = Listing::Entries(vec![dir("root/bar", "bar"), file("root/bar.txt", "bar.txt")]);
    let matches = walk.expand(&cfg, root, &listing);
    assert_eq!(matches, strings(&["root/bar", "root/bar.txt"]));
    assert!(walk.is_done());
    assert_eq!(walk.visited_count(), 1);
}

#[test]
fn a_visited_directory_is_tested_instead_of_queued() {
    let cfg = config("a", true);
    let mut walk = Walk::new("a".to_string());
    let first = walk.next().unwrap();
    let listing = Listing::Entries(vec![dir("a", "a")]);
    assert_eq!(walk.expand(&cfg, first, &listing), Vec::<String>::new());
    assert_eq!(walk.pending(), 1);
    let second = walk.next().unwrap();
    assert_eq!(second, "a");
    assert_eq!(walk.expand(&cfg, second, &listing), strings(&["a"]));
    assert!(walk.is_done());
    assert_eq!(walk.visited_count(), 1);
}

#[test]
fn new_directories_go_to_the_front_last_one_first() {
    let cfg = config("x", true);
    let mut walk = Walk::new("r".to_string());
    let root = walk.next().unwrap();
    let listing = Listing::Entries(vec![dir("r/a", "a"), dir("r/b", "b"), dir("r/c", "c")]);
    walk.expand(&cfg, root, &listing);
    let b_listing = Listing::Entries(vec![dir("r/c/d", "d")]);
    assert_eq!(walk.next(), Some("r/c".to_string()));
    walk.expand(&cfg, "r/c".to_string(), &b_listing);
    assert_eq!(walk.next(), Some("r/c/d".to_string()));
    assert_eq!(walk.next(), Some("r/b".to_string()));
    assert_eq!(walk.next(), Some("r/a".to_string()));
    assert_eq!(walk.next(), None);
}

#[test]
fn a_failed_listing_changes_nothing() {
    let cfg = config("x", true);
    let mut walk = Walk::new("r".to_string());
    let root = walk.next().unwrap();
    assert_eq!(walk.expand(&cfg, root, &Listing::Failed), Vec::<String>::new());
    assert!(walk.is_done());
    assert_eq!(walk.visited_count(), 0);
    assert!(!walk.has_visited("r"));
}

#[test]
fn recursive_search_finds_files_at_every_depth() {
    let outcome = small_tree().search(&config("foo", true), "root".to_string());
    assert_eq!(outcome.matches, strings(&["root/foo.txt", "root/bar/foo2.txt"]));
    assert_eq!(outcome.taken.len(), 2);
}

#[test]
fn flat_search_stays_in_the_root() {
    let outcome = small_tree().search(&config("foo", false), "root".to_string());
    assert_eq!(outcome.matches, strings(&["root/foo.txt"]));
    assert_eq!(outcome.taken.len(), 1);
}

#[test]
fn flat_search_reports_matching_directories_of_the_root() {
    let outcome = small_tree().search(&config("bar", false), "root".to_string());
    assert_eq!(outcome.matches, strings(&["root/bar"]));
    let recursive = small_tree().search(&config("bar", true), "root".to_string());
    assert_eq!(recursive.matches, Vec::<String>::new());
}

#[test]
fn query_without_a_match_gives_no_output() {
    let outcome = small_tree().search(&config("zzz", true), "root".to_string());
    assert_eq!(outcome.matches, Vec::<String>::new());
}

#[test]
fn unreadable_subdirectory_is_skipped_and_the_walk_goes_on() {
    let tree = MemoryTree {
        dirs: vec![
            listed(
                "r",
                vec![
                    file("r/foo0", "foo0"),
                    dir("r/open", "open"),
                    dir("r/locked", "locked"),
                    dir("r/also", "also"),
                ],
            ),
            Directory { path: "r/locked".to_string(), listing: Listing::Failed },
            listed("r/open", vec![file("r/open/foo1", "foo1")]),
            listed("r/also", vec![file("r/also/foo2", "foo2")]),
        ],
    };
    let outcome = tree.search(&config("foo", true), "r".to_string());
    assert_eq!(outcome.matches, strings(&["r/foo0", "r/also/foo2", "r/open/foo1"]));
    assert_eq!(outcome.taken, strings(&["r", "r/also", "r/locked", "r/open"]));
}

#[test]
fn unknown_root_gives_nothing() {
    let outcome = small_tree().search(&config("foo", true), "elsewhere".to_string());
    assert_eq!(outcome.matches, Vec::<String>::new());
    assert_eq!(outcome.taken.len(), 1);
}

#[test]
fn taken_directories_are_listed_in_the_order_read() {
    let outcome = small_tree().search(&config("foo", true), "root".to_string());
    assert_eq!(outcome.taken, strings(&["root", "root/bar"]));
    let flat = small_tree().search(&config("foo", false), "root".to_string());
    assert_eq!(flat.taken, strings(&["root"]));
}

#[test]
fn first_directory_with_a_path_counts() {
    let tree = MemoryTree {
        dirs: vec![
            listed("r", vec![file("r/one", "one")]),
            listed("r", vec![file("r/two", "two")]),
        ],
    };
    assert_eq!(tree.read("r"), Some(&Listing::Entries(vec![file("r/one", "one")])));
    assert_eq!(tree.read("r/one"), None);
    let shadowed = MemoryTree {
        dirs: vec![
            Directory { path: "r".to_string(), listing: Listing::Failed },
            listed("r", vec![file("r/two", "two")]),
        ],
    };
    assert_eq!(shadowed.read("r"), Some(&Listing::Failed));
}

#[test]
fn every_match_of_a_tree_is_reported_once() {
    let tree = MemoryTree {
        dirs: vec![
            listed("r", vec![dir("r/a", "a"), file("r/x1", "x1"), dir("r/b", "b")]),
            listed("r/a", vec![file("r/a/x2", "x2"), dir("r/a/c", "c"), file("r/a/y", "y")]),
            listed("r/b", vec![file("r/b/x3", "x3")]),
            listed("r/a/c", vec![file("r/a/c/x4", "x4"), dir("r/a/c/xdir", "xdir")]),
            listed("r/a/c/xdir", vec![]),
        ],
    };
    let outcome = tree.search(&config("x", true), "r".to_string());
    assert_eq!(outcome.matches, strings(&["r/x1", "r/b/x3", "r/a/x2", "r/a/c/x4"]));
    let mut sorted = outcome.matches.clone();
    sorted.sort();
    sorted.dedup();
    assert_eq!(sorted.len(), outcome.matches.len());
}

#[test]
fn visited_count_is_the_number_of_directories_read() {
    let tree = small_tree();
    let cfg = config("foo", true);
    let mut walk = Walk::new("root".to_string());
    let mut read: Vec<String> = Vec::new();
    while let Some(current) = walk.next() {
        match tree.read(&current) {
            Some(listing) => {
                read.push(current.clone());
                walk.expand(&cfg, current, listing);
            }
            None => {
                walk.expand(&cfg, current, &Listing::Failed);
            }
        }
    }
    assert_eq!(read, strings(&["root", "root/bar"]));
    assert_eq!(walk.visited_count(), read.len());
    assert!(walk.has_visited("root"));
    assert!(walk.has_visited("root/bar"));
    assert!(!walk.has_visited("root/foo.txt"));
}

#[test]
fn a_directory_listed_twice_is_read_twice() {
    let tree = MemoryTree {
        dirs: vec![
            listed("r", vec![dir("r/a", "a"), dir("r/a", "a")]),
            listed("r/a", vec![file("r/a/foo", "foo")]),
        ],
    };
    let outcome = tree.search(&config("foo", true), "r".to_string());
    assert_eq!(outcome.taken.len(), 3);
    assert_eq!(outcome.matches, strings(&["r/a/foo", "r/a/foo"]));
}

#[test]
fn a_directory_that_lists_itself_ends_after_its_second_reading() {
    let tree = MemoryTree {
        dirs: vec![listed("loop", vec![dir("loop", "loop"), file("loop/foo", "foo")])],
    };
    let outcome = tree.search(&config("foo", true), "loop".to_string());
    assert_eq!(outcome.taken.len(), 2);
    assert_eq!(outcome.matches, strings(&["loop/foo", "loop/foo"]));
}
