//! Pruning a directory tree to the branches that lead to a match.
//!
//! A scan starts at depth 0 and goes down while the depth is below the
//! maximum: of a directory at the last depth scanned only the name is
//! looked at, and what lies below it is never seen. Of what was seen, a
//! directory stays in the tree when its own name matches or when a directory
//! below it matches.

use vstd::prelude::*;
use crate::text::{name_matches, matches_term};
use crate::tree::{Directory, Node, Tree, views};

verus! {

/// How many levels a scan at `depth` still goes down, itself included.
pub open spec fn levels_left(depth: nat, max_depth: nat) -> nat {
    if depth >= max_depth {
        0
    } else {
        (max_depth - depth) as nat
    }
}

/// Whether a scan at `depth` looks at anything: it does while the depth is
/// below the maximum.
pub fn within_depth(depth: usize, max_depth: usize) -> (within: bool)
    ensures
        within == (levels_left(depth as nat, max_depth as nat) > 0),
        within == (depth < max_depth),
{
    depth < max_depth
}

/// The directory `entry`, met with `levels` levels left, is kept: its name
/// matches, or a directory below it, within the levels that are left, does.
pub open spec fn kept(entry: Node, levels: nat, term_lower: Seq<char>) -> bool
    decreases levels, 0nat,
{
    levels > 0 && (name_matches(entry.name, term_lower) || has_match(
        entry.children,
        (levels - 1) as nat,
        term_lower,
    ))
}

/// One of `entries`, or a directory below one of them within `levels` levels,
/// matches the term.
pub open spec fn has_match(entries: Seq<Node>, levels: nat, term_lower: Seq<char>) -> bool
    decreases levels, 1nat,
{
    exists|i: int| 0 <= i < entries.len() && kept(#[trigger] entries[i], levels, term_lower)
}

/// What is left of a kept directory: its name, and what is left below it.
pub open spec fn pruned_node(entry: Node, levels: nat, term_lower: Seq<char>) -> Node
    decreases levels, 0nat, 0nat,
{
    Node {
        name: entry.name,
        children: if levels > 0 {
            pruned(entry.children, (levels - 1) as nat, term_lower)
        } else {
            Seq::empty()
        },
    }
}

/// What is left of `entries`: those that are kept, in their order, each with
/// what is left below it.
pub open spec fn pruned(entries: Seq<Node>, levels: nat, term_lower: Seq<char>) -> Seq<Node>
    decreases levels, 1nat, entries.len(),
{
    if levels == 0 || entries.len() == 0 {
        Seq::empty()
    } else {
        let init = pruned(entries.drop_last(), levels, term_lower);
        let entry = entries.last();
        if kept(entry, levels, term_lower) {
            init.push(pruned_node(entry, levels, term_lower))
        } else {
            init
        }
    }
}

/// The score of `entries`: how many directories among them and below them,
/// within `levels` levels, match the term by their own name.
pub open spec fn match_count(entries: Seq<Node>, levels: nat, term_lower: Seq<char>) -> nat
    decreases levels, entries.len(),
{
    if levels == 0 || entries.len() == 0 {
        0
    } else {
        let entry = entries.last();
        let own: nat = if name_matches(entry.name, term_lower) {
            1
        } else {
            0
        };
        match_count(entries.drop_last(), levels, term_lower) + own + match_count(
            entry.children,
            (levels - 1) as nat,
            term_lower,
        )
    }
}

/// A count as a `u32` holds it: itself, or the largest `u32` where it is
/// larger than that.
pub open spec fn capped(count: nat) -> u32 {
    if count > u32::MAX {
        u32::MAX
    } else {
        count as u32
    }
}

/// The tree that a search shows: none where nothing matched, else a root
/// with the given name above what is left of `entries`.
pub open spec fn filtered_tree(
    root: Seq<char>,
    entries: Seq<Node>,
    term_lower: Seq<char>,
    max_depth: nat,
) -> Option<Node> {
    if has_match(entries, max_depth, term_lower) {
        Some(Node { name: root, children: pruned(entries, max_depth, term_lower) })
    } else {
        None
    }
}

/// The score is positive exactly where something matches.
pub proof fn lemma_count_positive_iff_match(
    entries: Seq<Node>,
    levels: nat,
    term_lower: Seq<char>,
)
    ensures
        match_count(entries, levels, term_lower) > 0 <==> has_match(entries, levels, term_lower),
    decreases levels, entries.len(),
{
    if levels > 0 && entries.len() > 0 {
        let init = entries.drop_last();
        let entry = entries.last();
        lemma_count_positive_iff_match(init, levels, term_lower);
        lemma_count_positive_iff_match(entry.children, (levels - 1) as nat, term_lower);
        lemma_has_match_by_last(entries, levels, term_lower);
    }
}

/// Something matches among `entries` exactly where something matches among
/// all but the last of them, or the last of them is kept.
proof fn lemma_has_match_by_last(entries: Seq<Node>, levels: nat, term_lower: Seq<char>)
    requires
        entries.len() > 0,
    ensures
        has_match(entries, levels, term_lower) <==> has_match(
            entries.drop_last(),
            levels,
            term_lower,
        ) || kept(entries.last(), levels, term_lower),
{
    let init = entries.drop_last();
    if has_match(entries, levels, term_lower) {
        let i = choose|i: int|
            0 <= i < entries.len() && kept(#[trigger] entries[i], levels, term_lower);
        if i < entries.len() - 1 {
            assert(init[i] == entries[i]);
        }
    }
    if has_match(init, levels, term_lower) {
        let i = choose|i: int| 0 <= i < init.len() && kept(#[trigger] init[i], levels, term_lower);
        assert(entries[i] == init[i]);
    }
    if kept(entries.last(), levels, term_lower) {
        assert(entries[entries.len() - 1] == entries.last());
    }
}

/// The test that [`pruned`] puts to a directory.
pub open spec fn keeps(levels: nat, term_lower: Seq<char>) -> spec_fn(Node) -> bool {
    |entry: Node| kept(entry, levels, term_lower)
}

/// What [`pruned`] makes of a directory that passed the test.
pub open spec fn prunes(levels: nat, term_lower: Seq<char>) -> spec_fn(Node) -> Node {
    |entry: Node| pruned_node(entry, levels, term_lower)
}

/// A directory is in the pruned tree if and only if its name matches or a
/// directory below it matches: pruning takes out the directories of which
/// neither holds, keeps the others in their order, and does the same below
/// each of them.
pub proof fn lemma_pruned_is_filter(entries: Seq<Node>, levels: nat, term_lower: Seq<char>)
    ensures
        pruned(entries, levels, term_lower) == entries.filter(
            keeps(levels, term_lower),
        ).map_values(prunes(levels, term_lower)),
    decreases entries.len(),
{
    reveal(Seq::filter);
    if entries.len() > 0 {
        lemma_pruned_is_filter(entries.drop_last(), levels, term_lower);
    }
}

/// Something is left after pruning exactly where something matched. So a
/// directory is kept if and only if its name matches or it has a child that
/// is kept: no branch of the pruned tree ends in a directory that does not
/// match.
pub proof fn lemma_pruned_nonempty_iff_match(
    entries: Seq<Node>,
    levels: nat,
    term_lower: Seq<char>,
)
    ensures
        pruned(entries, levels, term_lower).len() > 0 <==> has_match(entries, levels, term_lower),
        forall|i: int|
            0 <= i < pruned(entries, levels, term_lower).len() ==> {
                let node = #[trigger] pruned(entries, levels, term_lower)[i];
                name_matches(node.name, term_lower) || node.children.len() > 0
            },
    decreases levels, entries.len(),
{
    if levels > 0 && entries.len() > 0 {
        let init = entries.drop_last();
        let entry = entries.last();
        lemma_pruned_nonempty_iff_match(init, levels, term_lower);
        lemma_pruned_nonempty_iff_match(entry.children, (levels - 1) as nat, term_lower);
        lemma_has_match_by_last(entries, levels, term_lower);
        let all = pruned(entries, levels, term_lower);
        let before = pruned(init, levels, term_lower);
        assert forall|i: int| 0 <= i < all.len() implies {
            let node = #[trigger] all[i];
            name_matches(node.name, term_lower) || node.children.len() > 0
        } by {
            if i >= before.len() {
                assert(all[i] == pruned_node(entry, levels, term_lower));
            }
        }
    }
}

/// With no level to go down, a scan sees nothing: nothing is kept and
/// nothing counted, whatever the directories hold.
pub proof fn lemma_depth_zero_sees_nothing(entries: Seq<Node>, term_lower: Seq<char>)
    ensures
        pruned(entries, 0, term_lower) == Seq::<Node>::empty(),
        match_count(entries, 0, term_lower) == 0,
        !has_match(entries, 0, term_lower),
{
}

/// Takes one directory into the result of a scan. `found` says whether its
/// name matches; `below` and `below_score` are what the scan of its
/// subdirectories gave. The directory is appended to `children` where it
/// matches or something below it did, and the score grows by what it and its
/// subdirectories count for, whether it was appended or not.
pub fn take_entry(
    name: String,
    found: bool,
    below: Vec<Tree>,
    below_score: u32,
    children: &mut Vec<Tree>,
    total: &mut u32,
)
    ensures
        final(children)@ == if found || below_score > 0 {
            old(children)@.push((Tree { name, children: below }))
        } else {
            old(children)@
        },
        *final(total) == capped(
            (*old(total) + (if found {
                1nat
            } else {
                0nat
            }) + below_score) as nat,
        ),
{
    let own: u32 = if found {
        1
    } else {
        0
    };
    if found || below_score > 0 {
        children.push(Tree { name, children: below });
    }
    *total = total.saturating_add(own).saturating_add(below_score);
}

/// Scans `entries`, the subdirectories of a directory at `depth`, and what
/// lies below them down to `max_depth`. Returns what is left of them after
/// pruning, and their score.
///
/// The score saturates: where more directories match than a `u32` holds, it
/// is the largest `u32`.
pub fn scan_dir(
    entries: &Vec<Directory>,
    depth: usize,
    max_depth: usize,
    searchterm_lower: &str,
) -> (r: (Vec<Tree>, u32))
    ensures
        views(r.0@) == pruned(
            views(entries@),
            levels_left(depth as nat, max_depth as nat),
            searchterm_lower@,
        ),
        r.1 == capped(
            match_count(
                views(entries@),
                levels_left(depth as nat, max_depth as nat),
                searchterm_lower@,
            ),
        ),
    decreases levels_left(depth as nat, max_depth as nat),
{
    let mut children: Vec<Tree> = Vec::new();
    let mut total_score: u32 = 0;
    if !within_depth(depth, max_depth) {
        return (children, total_score);
    }
    let ghost levels = levels_left(depth as nat, max_depth as nat);
    let ghost all = views(entries@);
    let n: usize = entries.len();
    let mut i: usize = 0;
    while i < n
        invariant
            n == entries@.len(),
            i <= n,
            depth < max_depth,
            levels == levels_left(depth as nat, max_depth as nat),
            all == views(entries@),
            views(children@) == pruned(all.take(i as int), levels, searchterm_lower@),
            total_score == capped(match_count(all.take(i as int), levels, searchterm_lower@)),
        decreases n - i,
    {
        let entry = &entries[i];
        let (below, below_score) = scan_dir(&entry.subdirs, depth + 1, max_depth, searchterm_lower);
        let found = matches_term(entry.name.as_str(), searchterm_lower);
        let ghost kept_before = children@;
        take_entry(entry.name.clone(), found, below, below_score, &mut children, &mut total_score);
        proof {
            let seen = all.take(i + 1);
            entry.lemma_view();
            assert(seen.drop_last() =~= all.take(i as int));
            lemma_count_positive_iff_match(
                entry@.children,
                (levels - 1) as nat,
                searchterm_lower@,
            );
            if found || below_score > 0 {
                let node = children@.last();
                node.lemma_view();
                assert(node@ == pruned_node(entry@, levels, searchterm_lower@));
            }
        }
        i += 1;
    }
    proof {
        assert(all.take(n as int) =~= all);
    }
    (children, total_score)
}

/// The pruned tree below `dirpath`, whose subdirectories are `entries`: none
/// where no directory within `max_depth` levels matches the term, else a
/// root that carries `dirpath` as its name.
pub fn build_tree_dict(
    dirpath: &str,
    entries: &Vec<Directory>,
    searchterm_lower: &str,
    max_depth: usize,
) -> (tree: Option<Tree>)
    ensures
        match tree {
            Some(t) => Some(t@),
            None => None,
        } == filtered_tree(dirpath@, views(entries@), searchterm_lower@, max_depth as nat),
        max_depth == 0 ==> tree is None,
{
    let (children, score) = scan_dir(entries, 0, max_depth, searchterm_lower);
    proof {
        lemma_count_positive_iff_match(views(entries@), max_depth as nat, searchterm_lower@);
    }
    if score == 0 {
        None
    } else {
        let tree = Tree { name: dirpath.to_owned(), children };
        proof {
            tree.lemma_view();
        }
        Some(tree)
    }
}

} // verus!
