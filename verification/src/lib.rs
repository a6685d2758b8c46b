//! A search for directories by name, shown as a tree.
//!
//! Given the directories below a starting point and a search term, the
//! library keeps the branches that lead to a directory whose name holds the
//! term ([`scan`]), and draws what is left with box-drawing connectors, the
//! term in colour ([`render`], [`highlight`]). Names are compared without
//! regard to case ([`text`]). [`command`] goes from the arguments of a run to
//! the lines it prints. The library reads nothing and prints nothing itself:
//! its caller lists the directories and prints the lines.

pub mod command;
pub mod highlight;
pub mod render;
pub mod scan;
pub mod text;
pub mod tree;
