//! Drawing a pruned tree: one line for each directory, with the connectors
//! that show where it hangs, and the number of directories that matched.

use vstd::prelude::*;
use vstd::string::*;
use crate::highlight::{highlighted, highlight_substring};
use crate::scan::{
    filtered_tree, kept, lemma_count_positive_iff_match, match_count, pruned, pruned_node,
};
use crate::text::{name_matches, matches_term};
use crate::tree::{Node, Tree, views};

verus! {

/// The connector before a name: a corner before the last of its siblings, a
/// tee before the others.
pub open spec fn branch(is_last: bool) -> Seq<char> {
    if is_last {
        seq!['└', '─', '─', ' ']
    } else {
        seq!['├', '─', '─', ' ']
    }
}

/// What a directory adds to the prefix of the lines below it: blanks under
/// the last of its siblings, a vertical bar under the others.
pub open spec fn indent(is_last: bool) -> Seq<char> {
    if is_last {
        seq![' ', ' ', ' ', ' ']
    } else {
        seq!['│', ' ', ' ', ' ']
    }
}

/// A name as it is shown: with the term in colour where the name matches,
/// plain where it is only on the way to a match.
pub open spec fn display_name(name: Seq<char>, term_lower: Seq<char>) -> Seq<char> {
    if name_matches(name, term_lower) {
        highlighted(name, term_lower)
    } else {
        name
    }
}

/// The line of one directory.
pub open spec fn entry_line(
    prefix: Seq<char>,
    is_last: bool,
    name: Seq<char>,
    term_lower: Seq<char>,
) -> Seq<char> {
    prefix + branch(is_last) + display_name(name, term_lower)
}

/// The lines of the first `upto` children of `node` and of everything below
/// them, from top to bottom. With `skip_first` the children themselves get
/// no line and their own children keep the prefix.
pub open spec fn tree_lines(
    node: Node,
    upto: int,
    term_lower: Seq<char>,
    prefix: Seq<char>,
    skip_first: bool,
) -> Seq<Seq<char>>
    decreases node, upto,
{
    if upto <= 0 || upto > node.children.len() {
        Seq::empty()
    } else {
        let child = node.children[upto - 1];
        let is_last = upto == node.children.len();
        let own = if skip_first {
            Seq::empty()
        } else {
            seq![entry_line(prefix, is_last, child.name, term_lower)]
        };
        let below = if skip_first {
            prefix
        } else {
            prefix + indent(is_last)
        };
        tree_lines(node, upto - 1, term_lower, prefix, skip_first) + own + tree_lines(
            child,
            child.children.len() as int,
            term_lower,
            below,
            false,
        )
    }
}

/// How many of the directories that are drawn for `nodes` and for what lies
/// below them match the term by their own name. With `skip_first` the
/// `nodes` themselves are not drawn, and so not counted.
pub open spec fn shown_matches(nodes: Seq<Node>, term_lower: Seq<char>, skip_first: bool) -> nat
    decreases nodes,
{
    if nodes.len() == 0 {
        0
    } else {
        let node = nodes.last();
        let own: nat = if !skip_first && name_matches(node.name, term_lower) {
            1
        } else {
            0
        };
        shown_matches(nodes.drop_last(), term_lower, skip_first) + own + shown_matches(
            node.children,
            term_lower,
            false,
        )
    }
}

/// Drawn in full, a pruned tree shows as many matching directories as the
/// scan that pruned it counted: every directory that matched is in the tree,
/// and none is counted for what lies below it.
pub proof fn lemma_shown_matches_is_score(entries: Seq<Node>, levels: nat, term_lower: Seq<char>)
    ensures
        shown_matches(pruned(entries, levels, term_lower), term_lower, false) == match_count(
            entries,
            levels,
            term_lower,
        ),
    decreases levels, entries.len(),
{
    if levels > 0 && entries.len() > 0 {
        let entry = entries.last();
        let below = (levels - 1) as nat;
        let init = pruned(entries.drop_last(), levels, term_lower);
        lemma_shown_matches_is_score(entries.drop_last(), levels, term_lower);
        lemma_shown_matches_is_score(entry.children, below, term_lower);
        lemma_count_positive_iff_match(entry.children, below, term_lower);
        if kept(entry, levels, term_lower) {
            let all = pruned(entries, levels, term_lower);
            assert(all.drop_last() =~= init);
            assert(all.last() == pruned_node(entry, levels, term_lower));
        }
    }
}

/// The number in the summary of a search is the number of directories whose
/// own name matches, among those that the scan went through.
pub proof fn lemma_summary_counts_matches(
    root: Seq<char>,
    entries: Seq<Node>,
    term_lower: Seq<char>,
    max_depth: nat,
)
    ensures
        filtered_tree(root, entries, term_lower, max_depth) matches Some(tree) ==> shown_matches(
            tree.children,
            term_lower,
            false,
        ) == match_count(entries, max_depth, term_lower) && match_count(
            entries,
            max_depth,
            term_lower,
        ) > 0,
        filtered_tree(root, entries, term_lower, max_depth) is None ==> match_count(
            entries,
            max_depth,
            term_lower,
        ) == 0,
{
    lemma_shown_matches_is_score(entries, max_depth, term_lower);
    lemma_count_positive_iff_match(entries, max_depth, term_lower);
}

/// One decimal digit.
pub open spec fn digit(d: nat) -> char
    recommends
        d < 10,
{
    seq!['0', '1', '2', '3', '4', '5', '6', '7', '8', '9'][d as int]
}

/// A number in decimal, without leading zeros.
pub open spec fn decimal(n: nat) -> Seq<char>
    decreases n,
{
    if n < 10 {
        seq![digit(n)]
    } else {
        decimal(n / 10).push(digit(n % 10))
    }
}

/// The line that sums a search up: the number of directories that matched,
/// and the word for them.
pub open spec fn summary(count: nat) -> Seq<char> {
    decimal(count) + (if count == 1 {
        " directory"@
    } else {
        " directories"@
    })
}

/// The end of the output: an empty line, then the summary.
pub open spec fn footer(count: nat) -> Seq<Seq<char>> {
    seq![Seq::empty(), summary(count)]
}

/// One digit as text.
fn digit_text(d: usize) -> (text: &'static str)
    requires
        d < 10,
    ensures
        text@ == seq![digit(d as nat)],
{
    proof {
        reveal_strlit("0");
        reveal_strlit("1");
        reveal_strlit("2");
        reveal_strlit("3");
        reveal_strlit("4");
        reveal_strlit("5");
        reveal_strlit("6");
        reveal_strlit("7");
        reveal_strlit("8");
        reveal_strlit("9");
    }
    let text = match d {
        0 => "0",
        1 => "1",
        2 => "2",
        3 => "3",
        4 => "4",
        5 => "5",
        6 => "6",
        7 => "7",
        8 => "8",
        _ => "9",
    };
    text
}

/// A number written in decimal.
pub fn decimal_string(n: usize) -> (text: String)
    ensures
        text@ == decimal(n as nat),
    decreases n,
{
    if n < 10 {
        digit_text(n).to_owned()
    } else {
        let mut text = decimal_string(n / 10);
        text.append(digit_text(n % 10));
        text
    }
}

/// The summary line for `count` matching directories.
pub fn summary_line(count: usize) -> (line: String)
    ensures
        line@ == summary(count as nat),
{
    let mut line = decimal_string(count);
    if count == 1 {
        line.append(" directory");
    } else {
        line.append(" directories");
    }
    line
}

/// The line of one directory, from the name as it is to be shown.
pub fn entry_text(prefix: &str, is_last: bool, shown: &str) -> (line: String)
    ensures
        line@ == prefix@ + branch(is_last) + shown@,
{
    let mut line = prefix.to_owned();
    if is_last {
        line.append("└── ");
    } else {
        line.append("├── ");
    }
    proof {
        reveal_strlit("└── ");
        reveal_strlit("├── ");
    }
    line.append(shown);
    line
}

/// The prefix of the lines below a directory that was drawn with `prefix`.
pub fn child_prefix(prefix: &str, is_last: bool) -> (below: String)
    ensures
        below@ == prefix@ + indent(is_last),
{
    let mut below = prefix.to_owned();
    if is_last {
        below.append("    ");
    } else {
        below.append("│   ");
    }
    proof {
        reveal_strlit("    ");
        reveal_strlit("│   ");
    }
    below
}

/// Appends the lines of the tree below `tree` to `out`, from top to bottom,
/// and returns how many of the directories drawn match the term by their own
/// name. `prefix` stands before every line. With `skip_first` the children of
/// `tree` get no line, only what lies below them.
pub fn print_tree_into(
    tree: &Tree,
    term_lower: &str,
    prefix: &str,
    skip_first: bool,
    out: &mut Vec<String>,
) -> (count: usize)
    ensures
        views(final(out)@) == views(old(out)@) + tree_lines(
            tree@,
            tree@.children.len() as int,
            term_lower@,
            prefix@,
            skip_first,
        ),
        count == shown_matches(tree@.children, term_lower@, skip_first),
        count <= final(out)@.len() - old(out)@.len(),
    decreases tree,
{
    let n: usize = tree.children.len();
    let ghost start = out@;
    let ghost nodes = tree@.children;
    let mut count: usize = 0;
    let mut i: usize = 0;
    proof {
        tree.lemma_view();
    }
    while i < n
        invariant
            n == tree.children@.len(),
            nodes == tree@.children,
            nodes == views(tree.children@),
            i <= n,
            views(out@) == views(start) + tree_lines(
                tree@,
                i as int,
                term_lower@,
                prefix@,
                skip_first,
            ),
            count == shown_matches(nodes.take(i as int), term_lower@, skip_first),
            start.len() <= out@.len(),
            count <= out@.len() - start.len(),
        decreases n - i,
    {
        let child = &tree.children[i];
        let is_last = i + 1 == n;
        let ghost before = out@;
        let below = if skip_first {
            prefix.to_owned()
        } else {
            child_prefix(prefix, is_last)
        };
        if !skip_first {
            if matches_term(child.name.as_str(), term_lower) {
                let shown = highlight_substring(child.name.as_str(), term_lower);
                out.push(entry_text(prefix, is_last, shown.as_str()));
                assert(out@.len() == out.len());
                count += 1;
            } else {
                out.push(entry_text(prefix, is_last, child.name.as_str()));
            }
            assert(views(out@) =~= views(before) + seq![
                entry_line(prefix@, is_last, child.name@, term_lower@),
            ]);
        }
        let below_count = print_tree_into(child, term_lower, below.as_str(), false, out);
        proof {
            child.lemma_view();
            assert(nodes.take(i + 1).drop_last() =~= nodes.take(i as int));
            assert(out@.len() == out.len());
        }
        count += below_count;
        i += 1;
    }
    proof {
        assert(nodes.take(n as int) =~= nodes);
    }
    count
}

/// Draws the tree below `tree`: the lines to print, from top to bottom, and
/// the number of directories among them that match the term by their own
/// name. `prefix` stands before every line. With `skip_first` the children
/// of `tree` get no line, only what lies below them. Unless
/// `suppress_footer` is set, an empty line and the summary follow the tree.
pub fn print_tree(
    tree: &Tree,
    searchterm_lower: &str,
    prefix: &str,
    skip_first: bool,
    suppress_footer: bool,
) -> (r: (Vec<String>, usize))
    ensures
        r.1 == shown_matches(tree@.children, searchterm_lower@, skip_first),
        views(r.0@) == tree_lines(
            tree@,
            tree@.children.len() as int,
            searchterm_lower@,
            prefix@,
            skip_first,
        ) + (if suppress_footer {
            Seq::empty()
        } else {
            footer(r.1 as nat)
        }),
{
    let mut lines: Vec<String> = Vec::new();
    let dir_count = print_tree_into(tree, searchterm_lower, prefix, skip_first, &mut lines);
    if !suppress_footer {
        lines.push(String::new());
        lines.push(summary_line(dir_count));
    }
    (lines, dir_count)
}

} // verus!
