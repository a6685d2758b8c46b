use xtree::command::{report, Command};
use xtree::scan::{build_tree_dict, scan_dir, take_entry, within_depth};
use xtree::tree::{Directory, Tree};

fn dir(name: &str, subdirs: Vec<Directory>) -> Directory {
    Directory { name: name.to_string(), subdirs }
}

fn node(name: &str, children: Vec<Tree>) -> Tree {
    Tree { name: name.to_string(), children }
}

fn fixture() -> Vec<Directory> {
    vec![
        dir("A", vec![dir("B", vec![]), dir("C", vec![])]),
        dir("D", vec![]),
    ]
}

#[test]
fn match_below_keeps_the_path_to_it() {
    let tree = build_tree_dict("root", &fixture(), "b", 3);
    assert_eq!(tree, Some(node("root", vec![node("A", vec![node("B", vec![])])])));
}

#[test]
fn fixture_report_shows_one_match() {
    let lines = report("root", &fixture(), "b", 3);
    assert_eq!(
        lines,
        vec![
            "root".to_string(),
            "└── A".to_string(),
            "    └── \x1b[91mB\x1b[0m".to_string(),
            "".to_string(),
            "1 directory".to_string(),
        ]
    );
}

#[test]
fn siblings_without_a_match_are_left_out() {
    let (children, score) = scan_dir(&fixture(), 0, 3, "b");
    assert_eq!(score, 1);
    assert_eq!(children.len(), 1);
    assert_eq!(children[0].name, "A");
    assert_eq!(children[0].children.len(), 1);
    assert_eq!(children[0].children[0].name, "B");
}

#[test]
fn depth_zero_finds_nothing() {
    assert_eq!(build_tree_dict("root", &fixture(), "a", 0), None);
    assert_eq!(build_tree_dict("root", &fixture(), "", 0), None);
    let (children, score) = scan_dir(&fixture(), 0, 0, "a");
    assert!(children.is_empty());
    assert_eq!(score, 0);
}

#[test]
fn scan_at_or_beyond_the_depth_is_empty() {
    let (children, score) = scan_dir(&fixture(), 3, 3, "a");
    assert!(children.is_empty());
    assert_eq!(score, 0);
    let (children, score) = scan_dir(&fixture(), 5, 3, "a");
    assert!(children.is_empty());
    assert_eq!(score, 0);
}

#[test]
fn match_at_the_cutoff_depth_is_not_seen() {
    // "B" lies at depth 1; with a maximum of 1 only depth 0 is scanned.
    assert_eq!(build_tree_dict("root", &fixture(), "b", 1), None);
    assert_eq!(
        report("root", &fixture(), "b", 1),
        vec!["No directories match the search term.".to_string()]
    );
    // One level more and it is found.
    assert!(build_tree_dict("root", &fixture(), "b", 2).is_some());
}

#[test]
fn root_name_is_not_searched() {
    let entries = vec![dir("x", vec![])];
    assert_eq!(build_tree_dict("needle", &entries, "needle", 3), None);
    let tree = build_tree_dict("some/path", &entries, "x", 3);
    assert_eq!(tree, Some(node("some/path", vec![node("x", vec![])])));
}

#[test]
fn score_counts_every_matching_name() {
    let entries = vec![
        dir("data", vec![dir("dATa2", vec![dir("other", vec![dir("Data3", vec![])])])]),
        dir("none", vec![]),
        dir("x", vec![dir("metadata", vec![])]),
    ];
    let (children, score) = scan_dir(&entries, 0, 10, "data");
    assert_eq!(score, 4);
    assert_eq!(
        children,
        vec![
            node(
                "data",
                vec![node("dATa2", vec![node("other", vec![node("Data3", vec![])])])]
            ),
            node("x", vec![node("metadata", vec![])]),
        ]
    );
    // Down to depth 2 only "data" and "dATa2" and "metadata" are seen.
    let (children, score) = scan_dir(&entries, 0, 2, "data");
    assert_eq!(score, 3);
    assert_eq!(
        children,
        vec![
            node("data", vec![node("dATa2", vec![])]),
            node("x", vec![node("metadata", vec![])]),
        ]
    );
}

#[test]
fn scan_from_a_deeper_start_has_fewer_levels() {
    let entries = vec![dir("a", vec![dir("ab", vec![dir("abc", vec![])])])];
    let (children, score) = scan_dir(&entries, 1, 3, "a");
    assert_eq!(score, 2);
    assert_eq!(children, vec![node("a", vec![node("ab", vec![])])]);
}

#[test]
fn unreadable_directory_between_two_matches_is_pruned() {
    // "locked" could not be read, so it was found without subdirectories:
    // the match that lies below it on disk is never seen.
    let entries = vec![dir("match-top", vec![dir("locked", vec![]), dir("open", vec![dir("match-low", vec![])])])];
    let (_, score) = scan_dir(&entries, 0, 5, "match");
    assert_eq!(score, 2);
    let (below_locked, locked_score) = scan_dir(&entries[0].subdirs[0].subdirs, 2, 5, "match");
    assert!(below_locked.is_empty());
    assert_eq!(locked_score, 0);
    let tree = build_tree_dict(".", &entries, "match", 5);
    assert_eq!(
        tree,
        Some(node(
            ".",
            vec![node("match-top", vec![node("open", vec![node("match-low", vec![])])])]
        ))
    );
    let lines = report(".", &entries, "match", 5);
    assert_eq!(
        lines,
        vec![
            ".".to_string(),
            "└── \x1b[91mmatch\x1b[0m-top".to_string(),
            "    └── open".to_string(),
            "        └── \x1b[91mmatch\x1b[0m-low".to_string(),
            "".to_string(),
            "2 directories".to_string(),
        ]
    );
}

#[test]
fn unreadable_root_reads_as_no_match() {
    let entries: Vec<Directory> = Vec::new();
    assert_eq!(build_tree_dict("/nowhere", &entries, "a", 3), None);
    assert_eq!(
        report("/nowhere", &entries, "a", 3),
        vec!["No directories match the search term.".to_string()]
    );
}

#[test]
fn take_entry_appends_only_what_leads_to_a_match() {
    let mut children: Vec<Tree> = Vec::new();
    let mut total: u32 = 0;
    take_entry("plain".to_string(), false, Vec::new(), 0, &mut children, &mut total);
    assert!(children.is_empty());
    assert_eq!(total, 0);
    take_entry("own".to_string(), true, Vec::new(), 0, &mut children, &mut total);
    assert_eq!(children, vec![node("own", vec![])]);
    assert_eq!(total, 1);
    take_entry("path".to_string(), false, vec![node("deep", vec![])], 2, &mut children, &mut total);
    assert_eq!(children.len(), 2);
    assert_eq!(children[1], node("path", vec![node("deep", vec![])]));
    assert_eq!(total, 3);
    take_entry("both".to_string(), true, vec![node("deep", vec![])], 5, &mut children, &mut total);
    assert_eq!(children.len(), 3);
    assert_eq!(total, 9);
}

#[test]
fn take_entry_score_stops_at_the_largest_value() {
    let mut children: Vec<Tree> = Vec::new();
    let mut total: u32 = u32::MAX - 1;
    take_entry("a".to_string(), true, Vec::new(), 7, &mut children, &mut total);
    assert_eq!(total, u32::MAX);
    assert_eq!(children.len(), 1);
}

#[test]
fn search_ignores_case_of_names() {
    let entries = vec![dir("Foo", vec![]), dir("FOO", vec![]), dir("foo", vec![]), dir("bar", vec![])];
    let (children, score) = scan_dir(&entries, 0, 1, "foo");
    assert_eq!(score, 3);
    assert_eq!(children, vec![node("Foo", vec![]), node("FOO", vec![]), node("foo", vec![])]);
}

#[test]
fn search_ignores_case_of_the_term() {
    let entries = vec![dir("Foo", vec![])];
    let lower = match xtree::command::plan(Some("foo"), None, None) {
        Command::Search { term_lower, .. } => term_lower,
        Command::Help => panic!("a term was given"),
    };
    let upper = match xtree::command::plan(Some("FOO"), None, None) {
        Command::Search { term_lower, .. } => term_lower,
        Command::Help => panic!("a term was given"),
    };
    assert_eq!(lower, upper);
    assert_eq!(report(".", &entries, &lower, 3), report(".", &entries, &upper, 3));
    assert_eq!(
        report(".", &entries, &upper, 3),
        vec![
            ".".to_string(),
            "└── \x1b[91mFoo\x1b[0m".to_string(),
            "".to_string(),
            "1 directory".to_string(),
        ]
    );
}

#[test]
fn report_count_is_the_scan_score() {
    let entries = vec![
        dir("data", vec![dir("dATa2", vec![dir("other", vec![dir("Data3", vec![])])])]),
        dir("none", vec![]),
        dir("x", vec![dir("metadata", vec![])]),
    ];
    let (_, score) = scan_dir(&entries, 0, 10, "data");
    let lines = report("r", &entries, "data", 10);
    assert_eq!(lines.last(), Some(&format!("{} directories", score)));
    let shown = lines.iter().filter(|line| line.contains("\x1b[91m")).count();
    assert_eq!(shown, score as usize);
}

#[test]
fn scan_looks_while_the_depth_is_below_the_maximum() {
    assert!(within_depth(0, 1));
    assert!(within_depth(2, 3));
    assert!(!within_depth(3, 3));
    assert!(!within_depth(4, 3));
    assert!(!within_depth(0, 0));
    assert!(within_depth(usize::MAX - 1, usize::MAX));
    assert!(!within_depth(usize::MAX, usize::MAX));
}

#[test]
fn order_of_enumeration_is_kept() {
    let entries = vec![dir("zeta-x", vec![]), dir("alpha-x", vec![]), dir("skip", vec![]), dir("mid-x", vec![])];
    let (children, score) = scan_dir(&entries, 0, 1, "x");
    assert_eq!(score, 3);
    assert_eq!(
        children,
        vec![node("zeta-x", vec![]), node("alpha-x", vec![]), node("mid-x", vec![])]
    );
}
