use xtree::render::{child_prefix, decimal_string, entry_text, print_tree, print_tree_into, summary_line};
use xtree::tree::Tree;

fn node(name: &str, children: Vec<Tree>) -> Tree {
    Tree { name: name.to_string(), children }
}

fn sample() -> Tree {
    node(
        "root",
        vec![
            node("alpha", vec![node("beta", vec![]), node("gamma-a", vec![])]),
            node("delta", vec![node("a", vec![])]),
        ],
    )
}

#[test]
fn tree_is_drawn_with_tees_corners_and_bars() {
    let (lines, count) = print_tree(&sample(), "a", "", false, true);
    assert_eq!(
        lines,
        vec![
            "├── \x1b[91ma\x1b[0mlpha".to_string(),
            "│   ├── bet\x1b[91ma\x1b[0m".to_string(),
            "│   └── g\x1b[91ma\x1b[0mmma-a".to_string(),
            "└── delt\x1b[91ma\x1b[0m".to_string(),
            "    └── \x1b[91ma\x1b[0m".to_string(),
        ]
    );
    assert_eq!(count, 5);
}

#[test]
fn footer_follows_unless_suppressed() {
    let (lines, count) = print_tree(&sample(), "a", "", false, false);
    assert_eq!(count, 5);
    assert_eq!(lines.len(), 7);
    assert_eq!(lines[5], "");
    assert_eq!(lines[6], "5 directories");
    let (quiet, _) = print_tree(&sample(), "a", "", false, true);
    assert_eq!(quiet[..], lines[..5]);
}

#[test]
fn names_on_the_way_to_a_match_are_plain_and_not_counted() {
    let (lines, count) = print_tree(&sample(), "gamma", "", false, false);
    assert_eq!(
        lines,
        vec![
            "├── alpha".to_string(),
            "│   ├── beta".to_string(),
            "│   └── \x1b[91mgamma\x1b[0m-a".to_string(),
            "└── delta".to_string(),
            "    └── a".to_string(),
            "".to_string(),
            "1 directory".to_string(),
        ]
    );
    assert_eq!(count, 1);
}

#[test]
fn prefix_stands_before_every_line() {
    let (lines, _) = print_tree(&sample(), "zzz", "> ", false, true);
    assert_eq!(
        lines,
        vec![
            "> ├── alpha".to_string(),
            "> │   ├── beta".to_string(),
            "> │   └── gamma-a".to_string(),
            "> └── delta".to_string(),
            ">     └── a".to_string(),
        ]
    );
}

#[test]
fn skipped_level_is_neither_drawn_nor_counted() {
    let (lines, count) = print_tree(&sample(), "a", "", true, false);
    assert_eq!(
        lines,
        vec![
            "├── bet\x1b[91ma\x1b[0m".to_string(),
            "└── g\x1b[91ma\x1b[0mmma-a".to_string(),
            "└── \x1b[91ma\x1b[0m".to_string(),
            "".to_string(),
            "3 directories".to_string(),
        ]
    );
    assert_eq!(count, 3);
}

#[test]
fn tree_without_children_has_only_the_footer() {
    let (lines, count) = print_tree(&node("root", vec![]), "a", "", false, false);
    assert_eq!(lines, vec!["".to_string(), "0 directories".to_string()]);
    assert_eq!(count, 0);
    let (lines, count) = print_tree(&node("root", vec![]), "a", "", false, true);
    assert!(lines.is_empty());
    assert_eq!(count, 0);
}

#[test]
fn print_tree_into_appends_to_what_is_there() {
    let mut out = vec!["first".to_string()];
    let count = print_tree_into(&sample(), "beta", "", false, &mut out);
    assert_eq!(count, 1);
    assert_eq!(out.len(), 6);
    assert_eq!(out[0], "first");
    assert_eq!(out[2], "│   ├── \x1b[91mbeta\x1b[0m");
}

#[test]
fn summary_tells_one_from_many() {
    assert_eq!(summary_line(0), "0 directories");
    assert_eq!(summary_line(1), "1 directory");
    assert_eq!(summary_line(2), "2 directories");
    assert_eq!(summary_line(11), "11 directories");
    assert_eq!(summary_line(4294967295), "4294967295 directories");
}

#[test]
fn decimal_string_writes_numbers_as_std_does() {
    let samples: [usize; 12] = [0, 1, 9, 10, 11, 99, 100, 101, 1000, 65535, 4294967295, usize::MAX];
    for n in samples {
        assert_eq!(decimal_string(n), n.to_string());
    }
}

#[test]
fn entry_text_joins_prefix_connector_and_name() {
    assert_eq!(entry_text("", true, "x"), "└── x");
    assert_eq!(entry_text("", false, "x"), "├── x");
    assert_eq!(entry_text("│   ", false, "name"), "│   ├── name");
    assert_eq!(entry_text("    ", true, ""), "    └── ");
}

#[test]
fn child_prefix_adds_four_columns() {
    assert_eq!(child_prefix("", true), "    ");
    assert_eq!(child_prefix("", false), "│   ");
    assert_eq!(child_prefix("│   ", true), "│       ");
    assert_eq!(child_prefix("    ", false), "    │   ");
}
