//! From the arguments of a run to what it prints.
//!
//! The arguments arrive as they were typed: the search term, the directory
//! and the depth, each of them present or not. [`plan`] decides what the run
//! does; [`report`] turns the directories that were found on disk into the
//! lines to print.

use vstd::prelude::*;
use vstd::string::*;
use vstd::utf8::*;
use crate::render::{footer, print_tree, shown_matches, tree_lines};
use crate::scan::{build_tree_dict, filtered_tree};
use crate::text::lowercase;
use crate::tree::{Directory, Node, views};

verus! {

/// The depth of a search when none is given, or none that can be read.
pub const DEFAULT_DEPTH: usize = 3;

/// The byte of the plus sign.
const PLUS: u8 = 43;

/// The byte of the digit `0`.
const DIGIT_ZERO: u8 = 48;

/// The byte of the digit `9`.
const DIGIT_NINE: u8 = 57;

/// What a run does.
#[derive(Debug, PartialEq, Eq)]
pub enum Command {
    /// Print the usage text and touch nothing on disk.
    Help,
    /// Search below `directory`, down to `max_depth`, for names that hold
    /// `term_lower`.
    Search { term_lower: String, directory: String, max_depth: usize },
}

/// A decimal digit.
pub open spec fn is_digit(c: char) -> bool {
    '0' <= c && c <= '9'
}

/// What a decimal digit counts for.
pub open spec fn digit_value(c: char) -> nat
    recommends
        is_digit(c),
{
    (c as nat - '0' as nat) as nat
}

/// The number that a row of digits writes in decimal.
pub open spec fn digits_value(digits: Seq<char>) -> nat
    decreases digits.len(),
{
    if digits.len() == 0 {
        0
    } else {
        digits_value(digits.drop_last()) * 10 + digit_value(digits.last())
    }
}

/// A text without the plus sign that may stand in front of a number.
pub open spec fn unsigned(text: Seq<char>) -> Seq<char> {
    if text.len() > 0 && text[0] == '+' {
        text.drop_first()
    } else {
        text
    }
}

/// A text is a number when it is one or more decimal digits, with or without
/// a plus sign before them, and nothing else.
pub open spec fn is_number(text: Seq<char>) -> bool {
    let digits = unsigned(text);
    digits.len() > 0 && forall|i: int| 0 <= i < digits.len() ==> is_digit(#[trigger] digits[i])
}

/// The number that a text writes, where it writes one that a `usize` holds.
pub open spec fn parsed_number(text: Seq<char>) -> Option<usize> {
    if is_number(text) && digits_value(unsigned(text)) <= usize::MAX {
        Some(digits_value(unsigned(text)) as usize)
    } else {
        None
    }
}

/// The depth that a text asks for: the number it writes, or the default
/// where it writes none.
pub open spec fn depth_of(text: Seq<char>) -> usize {
    match parsed_number(text) {
        Some(depth) => depth,
        None => DEFAULT_DEPTH,
    }
}

/// A row of digits writes at least what any of its beginnings writes.
proof fn lemma_digits_value_grows(digits: Seq<char>, k: int)
    requires
        0 <= k <= digits.len(),
    ensures
        digits_value(digits.take(k)) <= digits_value(digits),
    decreases digits.len() - k,
{
    if k == digits.len() {
        assert(digits.take(k) =~= digits);
    } else {
        let longer = digits.take(k + 1);
        assert(longer.drop_last() =~= digits.take(k));
        lemma_digits_value_grows(digits, k + 1);
    }
}

/// Reads a number: decimal digits, with or without a plus sign before them.
/// A text that holds anything else, no digit at all, or a number too large
/// for a `usize`, gives none.
pub fn parse_number(text: &str) -> (number: Option<usize>)
    ensures
        number == parsed_number(text@),
{
    if !text.is_ascii() {
        proof {
            let i = choose|i: int|
                0 <= i < text@.len() && !('\0' <= #[trigger] text@[i] <= '\u{7f}');
            let digits = unsigned(text@);
            if text@[0] == '+' {
                assert(digits[i - 1] == text@[i]);
            } else {
                assert(digits[i] == text@[i]);
            }
        }
        return None;
    }
    let bytes = text.as_bytes();
    let n: usize = bytes.len();
    proof {
        is_ascii_spec_bytes(text);
    }
    let start: usize = if n > 0 && bytes[0] == PLUS {
        1
    } else {
        0
    };
    let ghost digits = unsigned(text@);
    if start == n {
        return None;
    }
    let mut value: usize = 0;
    let mut i: usize = start;
    while i < n
        invariant
            start <= i <= n,
            n == text@.len(),
            n == bytes@.len(),
            is_ascii_chars(text@),
            forall|j: int| 0 <= j < n ==> bytes@[j] == text@[j] as u8,
            digits == unsigned(text@),
            digits.len() == n - start,
            digits.len() > 0,
            forall|j: int| 0 <= j < digits.len() ==> digits[j] == text@[start + j],
            forall|j: int| 0 <= j < i - start ==> is_digit(#[trigger] digits[j]),
            value == digits_value(digits.take(i - start)),
        decreases n - i,
    {
        let b: u8 = bytes[i];
        if b < DIGIT_ZERO || b > DIGIT_NINE {
            assert(!is_digit(digits[i - start]));
            return None;
        }
        let digit: usize = (b - DIGIT_ZERO) as usize;
        let ghost longer = digits.take(i - start + 1);
        proof {
            assert(longer.drop_last() =~= digits.take(i - start));
            lemma_digits_value_grows(digits, i - start + 1);
        }
        let tenfold = match value.checked_mul(10) {
            Some(tenfold) => tenfold,
            None => {
                return None;
            },
        };
        value = match tenfold.checked_add(digit) {
            Some(sum) => sum,
            None => {
                return None;
            },
        };
        i += 1;
    }
    proof {
        assert(digits.take(n - start) =~= digits);
    }
    Some(value)
}

/// The depth that a text asks for; the default where it cannot be read as a
/// number.
pub fn parse_depth(text: &str) -> (depth: usize)
    ensures
        depth == depth_of(text@),
{
    match parse_number(text) {
        Some(depth) => depth,
        None => DEFAULT_DEPTH,
    }
}

/// Decides what a run does. Without a search term, or with an empty one,
/// it prints the usage text. Else it searches for the term in lower case,
/// below the directory given (the current one where none is), down to the
/// depth given (the default where none is, or none that can be read).
pub fn plan(search: Option<&str>, directory: Option<&str>, depth: Option<&str>) -> (command:
    Command)
    ensures
        command is Help <==> (search is None || search->0@.len() == 0),
        command matches Command::Search { term_lower, directory: dir, max_depth } ==> {
            &&& search is Some
            &&& term_lower@ == lowercase(search->0@)
            &&& dir@ == (match directory {
                Some(d) => d@,
                None => seq!['.'],
            })
            &&& max_depth == (match depth {
                Some(d) => depth_of(d@),
                None => DEFAULT_DEPTH,
            })
        },
{
    let term = match search {
        Some(term) => term,
        None => {
            return Command::Help;
        },
    };
    if term.is_empty() {
        return Command::Help;
    }
    let directory = match directory {
        Some(d) => d.to_owned(),
        None => {
            proof {
                reveal_strlit(".");
            }
            ".".to_owned()
        },
    };
    let max_depth = match depth {
        Some(d) => parse_depth(d),
        None => DEFAULT_DEPTH,
    };
    Command::Search { term_lower: term.to_lowercase(), directory, max_depth }
}

/// The line that says that nothing was found.
pub open spec fn no_match_line() -> Seq<char> {
    "No directories match the search term."@
}

/// What a search prints: the directory it started from, the tree below it
/// and the summary; or the one line that says that nothing was found.
pub open spec fn report_lines(
    directory: Seq<char>,
    entries: Seq<Node>,
    term_lower: Seq<char>,
    max_depth: nat,
) -> Seq<Seq<char>> {
    match filtered_tree(directory, entries, term_lower, max_depth) {
        Some(tree) => seq![tree.name] + tree_lines(
            tree,
            tree.children.len() as int,
            term_lower,
            Seq::empty(),
            false,
        ) + footer(shown_matches(tree.children, term_lower, false)),
        None => seq![no_match_line()],
    }
}

/// The lines that a search prints. `entries` are the subdirectories of
/// `directory` as they were found on disk.
pub fn report(directory: &str, entries: &Vec<Directory>, term_lower: &str, max_depth: usize) -> (lines:
    Vec<String>)
    ensures
        views(lines@) == report_lines(
            directory@,
            views(entries@),
            term_lower@,
            max_depth as nat,
        ),
{
    match build_tree_dict(directory, entries, term_lower, max_depth) {
        Some(tree) => {
            let (mut lines, count) = print_tree(&tree, term_lower, "", false, false);
            let ghost drawn = lines@;
            lines.insert(0, tree.name.clone());
            proof {
                reveal_strlit("");
                assert(""@ =~= Seq::<char>::empty());
                assert(views(lines@) =~= seq![tree@.name] + views(drawn));
            }
            lines
        },
        None => {
            let mut lines: Vec<String> = Vec::new();
            lines.push("No directories match the search term.".to_owned());
            lines
        },
    }
}

} // verus!
