//! The tree of files and directories, and the lookups over it.

use vstd::prelude::*;
use crate::path::NodePath;
use crate::tree::{find_node_from, find_parent_from, Tree};

verus! {

/// A node of the tree: a file, or a directory with its children in listing
/// order. A directory owns its children.
#[derive(Debug)]
pub enum DirectoryNode {
    File(NodePath),
    Directory(NodePath, Vec<DirectoryNode>),
}

impl View for DirectoryNode {
    type V = Tree;

    open spec fn view(&self) -> Tree
        decreases self,
    {
        match self {
            DirectoryNode::File(p) => Tree::File(p@),
            DirectoryNode::Directory(p, children) => Tree::Directory(
                p@,
                Seq::new(
                    children@.len(),
                    |i: int|
                        if 0 <= i < children@.len() {
                            children@[i]@
                        } else {
                            Tree::File(Seq::empty())
                        },
                ),
            ),
        }
    }
}

/// The models of `nodes`, in order.
pub open spec fn views(nodes: Seq<DirectoryNode>) -> Seq<Tree> {
    Seq::new(nodes.len(), |i: int| nodes[i]@)
}

/// The model of a directory holds the models of its children.
pub proof fn lemma_directory_view(node: DirectoryNode)
    requires
        node is Directory,
    ensures
        node@ == Tree::Directory(node->Directory_0@, views(node->Directory_1@)),
{
    assert(node@.children() =~= views(node->Directory_1@));
}

impl DirectoryNode {
    /// The node's own path.
    pub fn path(&self) -> (r: &NodePath)
        ensures
            r@ == self@.path(),
    {
        match self {
            DirectoryNode::File(p) => p,
            DirectoryNode::Directory(p, _) => p,
        }
    }

    /// The first node of this tree, depth first and in listing order, whose
    /// own path is `path`; `None` when the tree holds none.
    pub fn find_node_of_path(&self, path: &NodePath) -> (r: Option<&DirectoryNode>)
        ensures
            match r {
                Some(n) => self@.find_node(path@) == Some(n@),
                None => self@.find_node(path@) is None,
            },
        decreases self,
    {
        match self {
            DirectoryNode::File(p) => {
                if *p == *path {
                    Some(self)
                } else {
                    None
                }
            },
            DirectoryNode::Directory(dir_path, children) => {
                if *dir_path == *path {
                    return Some(self);
                }
                proof {
                    lemma_directory_view(*self);
                }
                let ghost kids = views(children@);
                let mut i: usize = 0;
                while i < children.len()
                    invariant
                        i <= children.len(),
                        kids == views(children@),
                        self@ == Tree::Directory(dir_path@, kids),
                        dir_path@ != path@,
                        find_node_from(kids, path@, 0) == find_node_from(kids, path@, i as int),
                        forall|j: int| 0 <= j < children.len() ==> decreases_to!(self => children@[j]),
                    decreases children.len() - i,
                {
                    if let Some(found) = children[i].find_node_of_path(path) {
                        return Some(found);
                    }
                    i += 1;
                }
                None
            },
        }
    }

    /// The directory of this tree that claims `path`: children are asked
    /// first, in listing order, and the first answer wins; a directory that no
    /// child answers for claims `path` itself when its own path is a prefix of
    /// it. `None` for a file, and when no directory of the tree claims `path`.
    pub fn find_parent_directory(&self, path: &NodePath) -> (r: Option<&DirectoryNode>)
        ensures
            match r {
                Some(n) => self@.find_parent(path@) == Some(n@),
                None => self@.find_parent(path@) is None,
            },
        decreases self,
    {
        match self {
            DirectoryNode::File(_) => None,
            DirectoryNode::Directory(dir_path, children) => {
                proof {
                    lemma_directory_view(*self);
                }
                let ghost kids = views(children@);
                let mut i: usize = 0;
                while i < children.len()
                    invariant
                        i <= children.len(),
                        kids == views(children@),
                        self@ == Tree::Directory(dir_path@, kids),
                        find_parent_from(kids, path@, 0) == find_parent_from(kids, path@, i as int),
                        forall|j: int| 0 <= j < children.len() ==> decreases_to!(self => children@[j]),
                    decreases children.len() - i,
                {
                    if let Some(found) = children[i].find_parent_directory(path) {
                        return Some(found);
                    }
                    i += 1;
                }
                if path.starts_with(dir_path) {
                    Some(self)
                } else {
                    None
                }
            },
        }
    }
}

impl Clone for DirectoryNode {
    fn clone(&self) -> (r: DirectoryNode)
        ensures
            r@ == self@,
        decreases self,
    {
        match self {
            DirectoryNode::File(p) => DirectoryNode::File(p.clone()),
            DirectoryNode::Directory(p, children) => {
                let mut copy: Vec<DirectoryNode> = Vec::new();
                let mut i: usize = 0;
                while i < children.len()
                    invariant
                        i <= children.len(),
                        copy@.len() == i,
                        forall|j: int| 0 <= j < i ==> copy@[j]@ == children@[j]@,
                        forall|j: int| 0 <= j < children.len() ==> decreases_to!(self => children@[j]),
                    decreases children.len() - i,
                {
                    copy.push(children[i].clone());
                    i += 1;
                }
                let r = DirectoryNode::Directory(p.clone(), copy);
                proof {
                    lemma_directory_view(*self);
                    lemma_directory_view(r);
                    assert(views(copy@) =~= views(children@));
                }
                r
            },
        }
    }
}

impl DirectoryNode {
    /// Whether the two trees are the same: node for node, in order.
    pub fn same_as(&self, other: &DirectoryNode) -> (r: bool)
        ensures
            r == (self@ == other@),
        decreases self,
    {
        match (self, other) {
            (DirectoryNode::File(p), DirectoryNode::File(q)) => *p == *q,
            (DirectoryNode::Directory(p, children), DirectoryNode::Directory(q, others)) => {
                proof {
                    lemma_directory_view(*self);
                    lemma_directory_view(*other);
                }
                if *p != *q {
                    return false;
                }
                if children.len() != others.len() {
                    assert(views(children@).len() != views(others@).len());
                    return false;
                }
                let mut i: usize = 0;
                while i < children.len()
                    invariant
                        i <= children.len(),
                        children.len() == others.len(),
                        self@ == Tree::Directory(p@, views(children@)),
                        other@ == Tree::Directory(q@, views(others@)),
                        forall|j: int| 0 <= j < i ==> children@[j]@ == others@[j]@,
                        forall|j: int| 0 <= j < children.len() ==> decreases_to!(self => children@[j]),
                    decreases children.len() - i,
                {
                    if !children[i].same_as(&others[i]) {
                        assert(views(children@)[i as int] != views(others@)[i as int]);
                        return false;
                    }
                    i += 1;
                }
                assert(views(children@) =~= views(others@));
                true
            },
            _ => false,
        }
    }
}

impl PartialEq for DirectoryNode {
    fn eq(&self, other: &DirectoryNode) -> (r: bool) {
        self.same_as(other)
    }
}

impl vstd::std_specs::cmp::PartialEqSpecImpl for DirectoryNode {
    open spec fn obeys_eq_spec() -> bool {
        true
    }

    open spec fn eq_spec(&self, other: &DirectoryNode) -> bool {
        self@ == other@
    }
}

} // verus!
