//! The mathematical model of a directory tree, and the lookups over it.

use vstd::prelude::*;

verus! {

/// A path in the model: the sequence of its components.
pub type PathSeq = Seq<Seq<char>>;

/// The model of a tree node: a file, or a directory with its children in
/// listing order.
pub enum Tree {
    File(PathSeq),
    Directory(PathSeq, Seq<Tree>),
}

impl Tree {
    /// The node's own path.
    pub open spec fn path(self) -> PathSeq {
        match self {
            Tree::File(p) => p,
            Tree::Directory(p, _) => p,
        }
    }

    /// The children of a directory; a file has none.
    pub open spec fn children(self) -> Seq<Tree> {
        match self {
            Tree::File(_) => Seq::empty(),
            Tree::Directory(_, c) => c,
        }
    }

    /// Whether `n` occurs in this tree, the root included.
    pub open spec fn contains(self, n: Tree) -> bool
        decreases self,
    {
        self == n || match self {
            Tree::File(_) => false,
            Tree::Directory(_, c) => exists|i: int| 0 <= i < c.len() && (#[trigger] c[i]).contains(n),
        }
    }

    /// Whether every path below a directory starts with that directory's
    /// path, at every level of the tree.
    pub open spec fn well_formed(self) -> bool
        decreases self,
    {
        match self {
            Tree::File(_) => true,
            Tree::Directory(p, c) => forall|i: int|
                0 <= i < c.len() ==> p.is_prefix_of((#[trigger] c[i]).path()) && c[i].well_formed(),
        }
    }

    /// Whether, at every level of the tree, a directory's children lie
    /// directly in it: each child's path is the directory's path and one
    /// more component, and no two children have the same path.
    pub open spec fn strict(self) -> bool
        decreases self,
    {
        match self {
            Tree::File(_) => true,
            Tree::Directory(p, c) => {
                &&& forall|i: int|
                    0 <= i < c.len() ==> {
                        &&& p.is_prefix_of((#[trigger] c[i]).path())
                        &&& c[i].path().len() == p.len() + 1
                        &&& c[i].strict()
                    }
                &&& forall|i: int, j: int|
                    0 <= i < j < c.len() ==> (#[trigger] c[i]).path() != (#[trigger] c[j]).path()
            },
        }
    }

    /// The first node, depth first and in listing order, whose own path is
    /// `p`. A node is looked at before its children.
    pub open spec fn find_node(self, p: PathSeq) -> Option<Tree>
        decreases self, 0nat,
    {
        if self.path() == p {
            Some(self)
        } else {
            match self {
                Tree::File(_) => None,
                Tree::Directory(_, c) => find_node_from(c, p, 0),
            }
        }
    }

    /// The directory that claims `p`: the one found by following, from this
    /// node down, the first child that claims `p`, until no child does and the
    /// directory's own path is a prefix of `p`. A file claims nothing.
    pub open spec fn find_parent(self, p: PathSeq) -> Option<Tree>
        decreases self, 0nat,
    {
        match self {
            Tree::File(_) => None,
            Tree::Directory(d, c) => match find_parent_from(c, p, 0) {
                Some(found) => Some(found),
                None => if d.is_prefix_of(p) {
                    Some(self)
                } else {
                    None
                },
            },
        }
    }
}

/// The first hit of `find_node` among `nodes[from..]`, in order.
pub open spec fn find_node_from(nodes: Seq<Tree>, p: PathSeq, from: int) -> Option<Tree>
    decreases nodes, nodes.len() - from,
{
    if 0 <= from < nodes.len() {
        match nodes[from].find_node(p) {
            Some(found) => Some(found),
            None => find_node_from(nodes, p, from + 1),
        }
    } else {
        None
    }
}

/// The first hit of `find_parent` among `nodes[from..]`, in order.
pub open spec fn find_parent_from(nodes: Seq<Tree>, p: PathSeq, from: int) -> Option<Tree>
    decreases nodes, nodes.len() - from,
{
    if 0 <= from < nodes.len() {
        match nodes[from].find_parent(p) {
            Some(found) => Some(found),
            None => find_parent_from(nodes, p, from + 1),
        }
    } else {
        None
    }
}

/// Whether `n` occurs in one of the trees.
pub open spec fn forest_contains(roots: Seq<Tree>, n: Tree) -> bool {
    exists|i: int| 0 <= i < roots.len() && (#[trigger] roots[i]).contains(n)
}

/// Whether no two files of the list have the same path.
pub open spec fn distinct_files(nodes: Seq<Tree>) -> bool {
    forall|i: int, j: int|
        0 <= i < nodes.len() && 0 <= j < nodes.len() && i != j && nodes[i] is File && nodes[j] is File
            ==> nodes[i].path() != nodes[j].path()
}

/// Whether the list holds the file at `cur`.
pub open spec fn holds_file(nodes: Seq<Tree>, cur: PathSeq) -> bool {
    exists|i: int| 0 <= i < nodes.len() && nodes[i] == Tree::File(cur)
}

/// Whether one of the roots has `p` as its own path.
pub open spec fn has_root_at(roots: Seq<Tree>, p: PathSeq) -> bool {
    exists|i: int| 0 <= i < roots.len() && (#[trigger] roots[i]).path() == p
}

/// The sibling list of the file at `cur`: the roots themselves when one of
/// them has that path, else the children of the directory that claims `cur`,
/// the roots asked in order. `None` when no directory claims it.
pub open spec fn sibling_list(roots: Seq<Tree>, cur: PathSeq) -> Option<Seq<Tree>> {
    if has_root_at(roots, cur) {
        Some(roots)
    } else {
        match find_parent_from(roots, cur, 0) {
            Some(dir) => Some(dir.children()),
            None => None,
        }
    }
}

/// The index of the first tree from `from` on that claims `p`; the length of
/// `nodes` when none does.
pub open spec fn first_claiming(nodes: Seq<Tree>, p: PathSeq, from: int) -> int
    decreases nodes.len() - from,
{
    if 0 <= from < nodes.len() {
        if nodes[from].find_parent(p) is Some {
            from
        } else {
            first_claiming(nodes, p, from + 1)
        }
    } else {
        nodes.len() as int
    }
}

/// Whether the roots are strict trees that lie side by side: their paths
/// are equally long, and no two are the same.
pub open spec fn strict_forest(roots: Seq<Tree>) -> bool {
    &&& forall|i: int| 0 <= i < roots.len() ==> (#[trigger] roots[i]).strict()
    &&& forall|i: int, j: int|
        0 <= i < j < roots.len() ==> (#[trigger] roots[i]).path() != (#[trigger] roots[j]).path()
    &&& forall|i: int, j: int|
        0 <= i < roots.len() && 0 <= j < roots.len() ==> (#[trigger] roots[i]).path().len() == (
        #[trigger] roots[j]).path().len()
}

} // verus!
