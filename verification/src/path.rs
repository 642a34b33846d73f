//! Paths as sequences of components.

use vstd::prelude::*;

verus! {

/// A filesystem path, held as the ordered list of its components: the root
/// first, then one name per level.
///
/// Its view is the sequence of the components' texts. Two paths are the same
/// path exactly when their views are equal.
#[derive(Debug)]
pub struct NodePath {
    pub components: Vec<String>,
}

impl View for NodePath {
    type V = Seq<Seq<char>>;

    open spec fn view(&self) -> Seq<Seq<char>> {
        self.components@.map_values(|c: String| c@)
    }
}

impl NodePath {
    /// The path made of `components`, in order.
    pub fn new(components: Vec<String>) -> (r: NodePath)
        ensures
            r@ == components@.map_values(|c: String| c@),
            r.components == components,
    {
        NodePath { components }
    }

    /// The number of components.
    pub fn len(&self) -> (r: usize)
        ensures
            r == self@.len(),
    {
        self.components.len()
    }

    /// Whether `base` is a prefix of this path, component by component. Every
    /// path starts with itself.
    pub fn starts_with(&self, base: &NodePath) -> (r: bool)
        ensures
            r == base@.is_prefix_of(self@),
    {
        if base.components.len() > self.components.len() {
            return false;
        }
        let mut i: usize = 0;
        while i < base.components.len()
            invariant
                i <= base.components.len() <= self.components.len(),
                forall|j: int| 0 <= j < i ==> base@[j] == self@[j],
            decreases base.components.len() - i,
        {
            if base.components[i] != self.components[i] {
                assert(base@[i as int] != self@[i as int]);
                return false;
            }
            i += 1;
        }
        assert(base@ =~= self@.subrange(0, base@.len() as int));
        true
    }

    /// The path one level up: this path without its last component. A path
    /// that is only a root, or empty, has none.
    pub fn parent(&self) -> (r: Option<NodePath>)
        ensures
            match r {
                Some(p) => self@.len() >= 2 && p@ == self@.drop_last(),
                None => self@.len() < 2,
            },
    {
        let n = self.components.len();
        if n < 2 {
            return None;
        }
        let mut up: Vec<String> = Vec::new();
        let mut i: usize = 0;
        while i < n - 1
            invariant
                n == self.components.len(),
                n >= 2,
                i <= n - 1,
                up@.len() == i,
                forall|j: int| 0 <= j < i ==> up@[j]@ == self@[j],
            decreases n - 1 - i,
        {
            up.push(self.components[i].clone());
            i += 1;
        }
        let p = NodePath { components: up };
        assert(p@ =~= self@.drop_last());
        Some(p)
    }
}

impl Clone for NodePath {
    fn clone(&self) -> (r: NodePath)
        ensures
            r@ == self@,
    {
        let mut copy: Vec<String> = Vec::new();
        let mut i: usize = 0;
        while i < self.components.len()
            invariant
                i <= self.components.len(),
                copy@.len() == i,
                forall|j: int| 0 <= j < i ==> copy@[j]@ == self@[j],
            decreases self.components.len() - i,
        {
            copy.push(self.components[i].clone());
            i += 1;
        }
        let r = NodePath { components: copy };
        assert(r@ =~= self@);
        r
    }
}

impl PartialEq for NodePath {
    fn eq(&self, other: &NodePath) -> (r: bool) {
        if self.components.len() != other.components.len() {
            assert(self@.len() != other@.len());
            return false;
        }
        let mut i: usize = 0;
        while i < self.components.len()
            invariant
                i <= self.components.len(),
                self.components.len() == other.components.len(),
                forall|j: int| 0 <= j < i ==> self@[j] == other@[j],
            decreases self.components.len() - i,
        {
            if self.components[i] != other.components[i] {
                assert(self@[i as int] != other@[i as int]);
                return false;
            }
            i += 1;
        }
        assert(self@ =~= other@);
        true
    }
}

impl vstd::std_specs::cmp::PartialEqSpecImpl for NodePath {
    open spec fn obeys_eq_spec() -> bool {
        true
    }

    open spec fn eq_spec(&self, other: &NodePath) -> bool {
        self@ == other@
    }
}

impl Eq for NodePath {

}

} // verus!
