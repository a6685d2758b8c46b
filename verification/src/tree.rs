//! Directory trees: what is found on disk, what is left of it after pruning,
//! and the mathematical tree that stands for both in contracts.

use vstd::prelude::*;

verus! {

/// A directory tree as a mathematical value: a name and the subtrees below it,
/// in enumeration order.
pub struct Node {
    pub name: Seq<char>,
    pub children: Seq<Node>,
}

/// A directory as found on disk: its base name and its subdirectories, in the
/// order in which they were enumerated.
#[derive(Debug, PartialEq, Eq)]
pub struct Directory {
    pub name: String,
    pub subdirs: Vec<Directory>,
}

/// A node of the pruned tree: a directory that matches or leads to a match,
/// above those of its subdirectories of which the same holds. The root of a
/// tree carries the path that the search started from.
#[derive(Debug, PartialEq, Eq)]
pub struct Tree {
    pub name: String,
    pub children: Vec<Tree>,
}

/// The views of the items of a sequence, in order.
pub open spec fn views<T: View>(items: Seq<T>) -> Seq<T::V> {
    items.map_values(|item: T| item@)
}

impl Directory {
    /// The directory as a mathematical tree. The view is this tree.
    pub open spec fn model(&self) -> Node
        decreases self,
    {
        Node {
            name: self.name@,
            children: Seq::new(
                self.subdirs@.len(),
                |i: int|
                    if 0 <= i < self.subdirs@.len() {
                        self.subdirs@[i].model()
                    } else {
                        arbitrary()
                    },
            ),
        }
    }

    /// The view has the name of the directory, and below it the views of the
    /// subdirectories.
    pub proof fn lemma_view(&self)
        ensures
            self@.name == self.name@,
            self@.children == views(self.subdirs@),
    {
        assert forall|i: int| 0 <= i < self.subdirs@.len() implies #[trigger] self@.children[i]
            == self.subdirs@[i]@ by {}
        assert(self@.children =~= views(self.subdirs@));
    }
}

impl View for Directory {
    type V = Node;

    open spec fn view(&self) -> Node {
        self.model()
    }
}

impl Tree {
    /// The tree as a mathematical tree. The view is this tree.
    pub open spec fn model(&self) -> Node
        decreases self,
    {
        Node {
            name: self.name@,
            children: Seq::new(
                self.children@.len(),
                |i: int|
                    if 0 <= i < self.children@.len() {
                        self.children@[i].model()
                    } else {
                        arbitrary()
                    },
            ),
        }
    }

    /// The view has the name of the node, and below it the views of the
    /// children.
    pub proof fn lemma_view(&self)
        ensures
            self@.name == self.name@,
            self@.children == views(self.children@),
    {
        assert forall|i: int| 0 <= i < self.children@.len() implies #[trigger] self@.children[i]
            == self.children@[i]@ by {}
        assert(self@.children =~= views(self.children@));
    }
}

impl View for Tree {
    type V = Node;

    open spec fn view(&self) -> Node {
        self.model()
    }
}

} // verus!
