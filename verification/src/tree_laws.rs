//! What holds of the lookups over a tree: that they find what is there, that
//! the directory found for a path is the deepest one, and what strict trees
//! add to that.

use vstd::prelude::*;
use crate::tree::{
    distinct_files, find_node_from, find_parent_from, first_claiming, forest_contains, has_root_at,
    holds_file, sibling_list, strict_forest, PathSeq, Tree,
};

verus! {

/// What `find_node` finds occurs in the tree and has the path asked for.
pub proof fn lemma_find_node_sound(t: Tree, p: PathSeq)
    ensures
        t.find_node(p) matches Some(m) ==> t.contains(m) && m.path() == p,
    decreases t, 0nat,
{
    if t.path() != p {
        match t {
            Tree::File(_) => {},
            Tree::Directory(_, c) => {
                lemma_find_node_from_sound(c, p, 0);
            },
        }
    }
}

/// What `find_node_from` finds occurs in one of the trees from `from` on and
/// has the path asked for.
pub proof fn lemma_find_node_from_sound(nodes: Seq<Tree>, p: PathSeq, from: int)
    requires
        0 <= from,
    ensures
        find_node_from(nodes, p, from) matches Some(m) ==> m.path() == p && exists|i: int|
            from <= i < nodes.len() && (#[trigger] nodes[i]).contains(m),
    decreases nodes, nodes.len() - from,
{
    if from < nodes.len() {
        lemma_find_node_sound(nodes[from], p);
        if nodes[from].find_node(p) is None {
            lemma_find_node_from_sound(nodes, p, from + 1);
        }
    }
}

/// `find_node` finds something for the path of every node of the tree.
pub proof fn lemma_find_node_complete(t: Tree, n: Tree)
    requires
        t.contains(n),
    ensures
        t.find_node(n.path()) is Some,
    decreases t, 0nat,
{
    if t.path() != n.path() {
        match t {
            Tree::File(_) => {},
            Tree::Directory(_, c) => {
                let i = choose|i: int| 0 <= i < c.len() && (#[trigger] c[i]).contains(n);
                lemma_find_node_from_complete(c, n, 0, i);
            },
        }
    }
}

/// `find_node_from` finds something for the path of every node of the trees
/// from `from` on.
pub proof fn lemma_find_node_from_complete(nodes: Seq<Tree>, n: Tree, from: int, i: int)
    requires
        0 <= from <= i < nodes.len(),
        nodes[i].contains(n),
    ensures
        find_node_from(nodes, n.path(), from) is Some,
    decreases nodes, nodes.len() - from,
{
    if nodes[from].find_node(n.path()) is None {
        if from == i {
            lemma_find_node_complete(nodes[i], n);
        } else {
            lemma_find_node_from_complete(nodes, n, from + 1, i);
        }
    }
}

/// Looking up the path of a node of the tree finds that very node, where no
/// other node of the tree has the same path.
pub proof fn law_find_node_of_own_path(t: Tree, n: Tree)
    requires
        t.contains(n),
        forall|m: Tree| #[trigger] t.contains(m) && m.path() == n.path() ==> m == n,
    ensures
        t.find_node(n.path()) == Some(n),
{
    lemma_find_node_complete(t, n);
    lemma_find_node_sound(t, n.path());
}

/// Looking up, under the roots, the path of a node that occurs under them
/// finds that very node, where no other node under the roots has the same
/// path.
pub proof fn law_find_node_under_roots(roots: Seq<Tree>, n: Tree)
    requires
        forest_contains(roots, n),
        forall|m: Tree| #[trigger] forest_contains(roots, m) && m.path() == n.path() ==> m == n,
    ensures
        find_node_from(roots, n.path(), 0) == Some(n),
{
    let i = choose|i: int| 0 <= i < roots.len() && (#[trigger] roots[i]).contains(n);
    lemma_find_node_from_complete(roots, n, 0, i);
    lemma_find_node_from_sound(roots, n.path(), 0);
    let m = find_node_from(roots, n.path(), 0)->0;
    assert(forest_contains(roots, m));
}

/// What `find_parent` finds is a directory of the tree whose path is a
/// prefix of `p`, and none of its children claims `p`.
pub proof fn lemma_find_parent_sound(t: Tree, p: PathSeq)
    ensures
        t.find_parent(p) matches Some(d) ==> {
            &&& d is Directory
            &&& t.contains(d)
            &&& d.path().is_prefix_of(p)
            &&& find_parent_from(d.children(), p, 0) is None
        },
    decreases t, 0nat,
{
    match t {
        Tree::File(_) => {},
        Tree::Directory(_, c) => {
            lemma_find_parent_from_sound(c, p, 0);
        },
    }
}

/// What `find_parent_from` finds is a directory of one of the trees from
/// `from` on whose path is a prefix of `p`, and none of its children claims
/// `p`.
pub proof fn lemma_find_parent_from_sound(nodes: Seq<Tree>, p: PathSeq, from: int)
    requires
        0 <= from,
    ensures
        find_parent_from(nodes, p, from) matches Some(d) ==> {
            &&& d is Directory
            &&& d.path().is_prefix_of(p)
            &&& find_parent_from(d.children(), p, 0) is None
            &&& exists|i: int| from <= i < nodes.len() && (#[trigger] nodes[i]).contains(d)
        },
    decreases nodes, nodes.len() - from,
{
    if from < nodes.len() {
        lemma_find_parent_sound(nodes[from], p);
        if nodes[from].find_parent(p) is None {
            lemma_find_parent_from_sound(nodes, p, from + 1);
        }
    }
}

/// `find_parent` finds something whenever the tree holds a directory whose
/// path is a prefix of `p`.
pub proof fn lemma_find_parent_complete(t: Tree, e: Tree, p: PathSeq)
    requires
        t.contains(e),
        e is Directory,
        e.path().is_prefix_of(p),
    ensures
        t.find_parent(p) is Some,
    decreases t, 0nat,
{
    match t {
        Tree::File(_) => {},
        Tree::Directory(_, c) => {
            if t != e {
                let i = choose|i: int| 0 <= i < c.len() && (#[trigger] c[i]).contains(e);
                lemma_find_parent_from_complete(c, e, p, 0, i);
            }
        },
    }
}

/// `find_parent_from` finds something whenever one of the trees from `from`
/// on holds a directory whose path is a prefix of `p`.
pub proof fn lemma_find_parent_from_complete(nodes: Seq<Tree>, e: Tree, p: PathSeq, from: int, i: int)
    requires
        0 <= from <= i < nodes.len(),
        nodes[i].contains(e),
        e is Directory,
        e.path().is_prefix_of(p),
    ensures
        find_parent_from(nodes, p, from) is Some,
    decreases nodes, nodes.len() - from,
{
    if nodes[from].find_parent(p) is None {
        if from == i {
            lemma_find_parent_complete(nodes[i], e, p);
        } else {
            lemma_find_parent_from_complete(nodes, e, p, from + 1, i);
        }
    }
}

/// For a path under a directory, `find_parent` finds a directory of that
/// directory's tree that holds the path and has no directory below it that
/// holds the path too: it is the deepest on its branch.
pub proof fn law_find_parent_is_deepest(n: Tree, p: PathSeq)
    requires
        n is Directory,
        n.path().is_prefix_of(p),
    ensures
        n.find_parent(p) matches Some(d) && {
            &&& d is Directory
            &&& n.contains(d)
            &&& d.path().is_prefix_of(p)
            &&& forall|e: Tree| #[trigger]
                forest_contains(d.children(), e) && e is Directory ==> !e.path().is_prefix_of(p)
        },
{
    lemma_find_parent_complete(n, n, p);
    lemma_find_parent_sound(n, p);
    let d = n.find_parent(p)->0;
    assert forall|e: Tree| #[trigger]
        forest_contains(d.children(), e) && e is Directory implies !e.path().is_prefix_of(p) by {
        if e.path().is_prefix_of(p) {
            let c = d.children();
            let i = choose|i: int| 0 <= i < c.len() && (#[trigger] c[i]).contains(e);
            lemma_find_parent_from_complete(c, e, p, 0, i);
        }
    }
}

/// For a path under a directory that occurs under the roots, the lookup
/// through the roots finds a directory under the roots that holds the path
/// and has no directory below it that holds the path too.
pub proof fn law_find_parent_under_roots(roots: Seq<Tree>, n: Tree, p: PathSeq)
    requires
        forest_contains(roots, n),
        n is Directory,
        n.path().is_prefix_of(p),
    ensures
        find_parent_from(roots, p, 0) matches Some(d) && {
            &&& d is Directory
            &&& forest_contains(roots, d)
            &&& d.path().is_prefix_of(p)
            &&& forall|e: Tree| #[trigger]
                forest_contains(d.children(), e) && e is Directory ==> !e.path().is_prefix_of(p)
        },
{
    let i = choose|i: int| 0 <= i < roots.len() && (#[trigger] roots[i]).contains(n);
    lemma_find_parent_from_complete(roots, n, p, 0, i);
    lemma_find_parent_from_sound(roots, p, 0);
    let d = find_parent_from(roots, p, 0)->0;
    assert forall|e: Tree| #[trigger]
        forest_contains(d.children(), e) && e is Directory implies !e.path().is_prefix_of(p) by {
        if e.path().is_prefix_of(p) {
            let c = d.children();
            let k = choose|k: int| 0 <= k < c.len() && (#[trigger] c[k]).contains(e);
            lemma_find_parent_from_complete(c, e, p, 0, k);
        }
    }
}

/// In a strict tree the path of every node starts with the root's path.
pub proof fn lemma_strict_paths(t: Tree, m: Tree)
    requires
        t.strict(),
        t.contains(m),
    ensures
        t.path().is_prefix_of(m.path()),
        m.strict(),
    decreases t,
{
    if t != m {
        match t {
            Tree::File(_) => {},
            Tree::Directory(q, c) => {
                let i = choose|i: int| 0 <= i < c.len() && (#[trigger] c[i]).contains(m);
                lemma_strict_paths(c[i], m);
                lemma_prefix_transitive(q, c[i].path(), m.path());
            },
        }
    }
}

/// A prefix of a prefix is a prefix.
pub proof fn lemma_prefix_transitive(a: PathSeq, b: PathSeq, c: PathSeq)
    requires
        a.is_prefix_of(b),
        b.is_prefix_of(c),
    ensures
        a.is_prefix_of(c),
{
    assert(a =~= c.subrange(0, a.len() as int));
}

/// Two prefixes of one path that are equally long are equal.
pub proof fn lemma_prefixes_of_equal_length(a: PathSeq, b: PathSeq, c: PathSeq)
    requires
        a.is_prefix_of(c),
        b.is_prefix_of(c),
        a.len() == b.len(),
    ensures
        a == b,
{
    assert(a =~= b);
}

/// When every tree before the `i`-th claims nothing, the answer is the
/// `i`-th tree's, or that of the trees after it.
pub proof fn lemma_find_parent_from_skips(nodes: Seq<Tree>, p: PathSeq, from: int, i: int)
    requires
        0 <= from <= i < nodes.len(),
        forall|k: int| from <= k < i ==> (#[trigger] nodes[k]).find_parent(p) is None,
    ensures
        find_parent_from(nodes, p, from) == find_parent_from(nodes, p, i),
    decreases i - from,
{
    if from < i {
        lemma_find_parent_from_skips(nodes, p, from + 1, i);
    }
}

/// In a strict tree, for a path under a directory, the directory that
/// `find_parent` finds lies deepest: no directory of the tree that holds the
/// path has a longer path.
pub proof fn law_find_parent_is_deepest_of_all(n: Tree, p: PathSeq, e: Tree)
    requires
        n.strict(),
        n is Directory,
        n.path().is_prefix_of(p),
        n.contains(e),
        e is Directory,
        e.path().is_prefix_of(p),
    ensures
        n.find_parent(p) matches Some(d) && e.path().len() <= d.path().len(),
    decreases n,
{
    lemma_find_parent_complete(n, n, p);
    lemma_find_parent_sound(n, p);
    let d = n.find_parent(p)->0;
    if n == e {
        lemma_strict_paths(n, d);
    } else {
        let c = n.children();
        let i = choose|i: int| 0 <= i < c.len() && (#[trigger] c[i]).contains(e);
        lemma_strict_paths(c[i], e);
        lemma_prefix_transitive(c[i].path(), e.path(), p);
        assert(c[i] is Directory);
        lemma_find_parent_complete(c[i], e, p);
        assert forall|k: int| 0 <= k < i implies (#[trigger] c[k]).find_parent(p) is None by {
            if c[k].find_parent(p) is Some {
                lemma_find_parent_sound(c[k], p);
                let dk = c[k].find_parent(p)->0;
                lemma_strict_paths(c[k], dk);
                lemma_prefix_transitive(c[k].path(), dk.path(), p);
                lemma_prefixes_of_equal_length(c[k].path(), c[i].path(), p);
            }
        }
        lemma_find_parent_from_skips(c, p, 0, i);
        assert(n.find_parent(p) == c[i].find_parent(p));
        law_find_parent_is_deepest_of_all(c[i], p, e);
    }
}

/// Of the children of a strict directory at most one lies on the way to a
/// path: no two of them have paths that are prefixes of it. So at every level
/// at most one directory is shown expanded.
pub proof fn law_one_child_on_the_way(n: Tree, i: int, j: int, p: PathSeq)
    requires
        n.strict(),
        0 <= i < n.children().len(),
        0 <= j < n.children().len(),
        n.children()[i].path().is_prefix_of(p),
        n.children()[j].path().is_prefix_of(p),
    ensures
        i == j,
{
    let c = n.children();
    lemma_prefixes_of_equal_length(c[i].path(), c[j].path(), p);
    if i < j {
        assert(c[i].path() != c[j].path());
    } else if j < i {
        assert(c[j].path() != c[i].path());
    }
}

/// In a strict tree every node but the root has a longer path than the
/// root.
pub proof fn lemma_strict_below_is_longer(t: Tree, m: Tree)
    requires
        t.strict(),
        t.contains(m),
        m != t,
    ensures
        m.path().len() > t.path().len(),
{
    let c = t.children();
    let i = choose|i: int| 0 <= i < c.len() && (#[trigger] c[i]).contains(m);
    lemma_strict_paths(c[i], m);
}

/// In a strict tree no two nodes have the same path.
pub proof fn lemma_strict_paths_are_unique(t: Tree, m: Tree, n: Tree)
    requires
        t.strict(),
        t.contains(m),
        t.contains(n),
        m.path() == n.path(),
    ensures
        m == n,
    decreases t,
{
    if m == t {
        if n != t {
            lemma_strict_below_is_longer(t, n);
        }
    } else if n == t {
        lemma_strict_below_is_longer(t, m);
    } else {
        let c = t.children();
        let i = choose|i: int| 0 <= i < c.len() && (#[trigger] c[i]).contains(m);
        let j = choose|j: int| 0 <= j < c.len() && (#[trigger] c[j]).contains(n);
        lemma_strict_paths(c[i], m);
        lemma_strict_paths(c[j], n);
        lemma_prefixes_of_equal_length(c[i].path(), c[j].path(), m.path());
        lemma_strict_paths_are_unique(c[i], m, n);
    }
}

/// In a strict tree, looking up the path of a node of the tree finds that
/// very node.
pub proof fn law_find_node_in_strict_tree(t: Tree, n: Tree)
    requires
        t.strict(),
        t.contains(n),
    ensures
        t.find_node(n.path()) == Some(n),
{
    assert forall|m: Tree| #[trigger] t.contains(m) && m.path() == n.path() implies m == n by {
        lemma_strict_paths_are_unique(t, m, n);
    }
    law_find_node_of_own_path(t, n);
}

/// A strict tree claims a path exactly when it is a directory whose own
/// path is a prefix of it.
pub proof fn lemma_strict_claims(n: Tree, p: PathSeq)
    requires
        n.strict(),
    ensures
        n.find_parent(p) is Some <==> n is Directory && n.path().is_prefix_of(p),
{
    if n.find_parent(p) is Some {
        lemma_find_parent_sound(n, p);
        let d = n.find_parent(p)->0;
        lemma_strict_paths(n, d);
        lemma_prefix_transitive(n.path(), d.path(), p);
    }
    if n is Directory && n.path().is_prefix_of(p) {
        lemma_find_parent_complete(n, n, p);
    }
}

/// A prefix of a path that is shorter than the path is a prefix of the path
/// without its last component.
pub proof fn lemma_prefix_of_parent(a: PathSeq, p: PathSeq)
    requires
        a.is_prefix_of(p),
        a.len() < p.len(),
    ensures
        a.is_prefix_of(p.drop_last()),
{
    assert(a =~= p.drop_last().subrange(0, a.len() as int));
}

/// In a strict tree, the directory that claims a file lying directly in it
/// claims every other file that lies directly in it too.
pub proof fn lemma_siblings_share_their_directory(n: Tree, d: Tree, p: PathSeq, t: PathSeq)
    requires
        n.strict(),
        n.find_parent(p) == Some(d),
        holds_file(d.children(), p),
        holds_file(d.children(), t),
    ensures
        n.find_parent(t) == Some(d),
    decreases n,
{
    lemma_find_parent_sound(n, p);
    lemma_strict_paths(n, d);
    let kids = d.children();
    let ip = choose|i: int| 0 <= i < kids.len() && kids[i] == Tree::File(p);
    let it = choose|i: int| 0 <= i < kids.len() && kids[i] == Tree::File(t);
    assert(kids[ip].path() == p && kids[it].path() == t);
    assert(p.len() == d.path().len() + 1 && t.len() == d.path().len() + 1);
    assert(d.path() =~= p.drop_last());
    assert(d.path() =~= t.drop_last());
    let c = n.children();
    if find_parent_from(c, p, 0) is Some {
        lemma_find_parent_from_sound(c, p, 0);
        let k = first_claiming(c, p, 0);
        lemma_first_claiming(c, p, 0);
        assert(c[k].find_parent(p) == Some(d));
        lemma_find_parent_sound(c[k], p);
        lemma_strict_paths(c[k], d);
        assert forall|j: int| 0 <= j < k implies (#[trigger] c[j]).find_parent(t) is None by {
            lemma_strict_claims(c[j], t);
            lemma_strict_claims(c[j], p);
            if c[j] is Directory && c[j].path().is_prefix_of(t) {
                lemma_prefix_of_parent(c[j].path(), t);
                lemma_prefix_transitive(c[j].path(), d.path(), p);
            }
        }
        lemma_siblings_share_their_directory(c[k], d, p, t);
        lemma_find_parent_from_skips(c, t, 0, k);
    } else {
        assert(d == n);
        assert forall|j: int| 0 <= j < c.len() implies (#[trigger] c[j]).find_parent(t) is None by {
            lemma_strict_claims(c[j], t);
            if c[j] is Directory && c[j].path().is_prefix_of(t) {
                assert(c[j].path() =~= t);
                assert(c[it] == Tree::File(t));
                if j < it {
                    assert(c[j].path() != c[it].path());
                } else {
                    assert(c[it].path() != c[j].path());
                }
            }
        }
        lemma_find_parent_from_none(c, t, 0);
    }
}

/// `find_parent_from` gives the answer of the first tree that claims the
/// path.
pub proof fn lemma_first_claiming(nodes: Seq<Tree>, p: PathSeq, from: int)
    requires
        0 <= from,
    ensures
        from <= first_claiming(nodes, p, from) || from > nodes.len(),
        forall|j: int| from <= j < first_claiming(nodes, p, from) ==> (#[trigger] nodes[j]).find_parent(p) is None,
        find_parent_from(nodes, p, from) is Some ==> first_claiming(nodes, p, from) < nodes.len()
            && nodes[first_claiming(nodes, p, from)].find_parent(p) == find_parent_from(nodes, p, from),
        find_parent_from(nodes, p, from) is None ==> first_claiming(nodes, p, from) >= nodes.len(),
    decreases nodes.len() - from,
{
    if from < nodes.len() && nodes[from].find_parent(p) is None {
        lemma_first_claiming(nodes, p, from + 1);
    }
}

/// Where no tree from `from` on claims the path, `find_parent_from` finds
/// nothing.
pub proof fn lemma_find_parent_from_none(nodes: Seq<Tree>, p: PathSeq, from: int)
    requires
        0 <= from,
        forall|j: int| from <= j < nodes.len() ==> (#[trigger] nodes[j]).find_parent(p) is None,
    ensures
        find_parent_from(nodes, p, from) is None,
    decreases nodes.len() - from,
{
    if from < nodes.len() {
        lemma_find_parent_from_none(nodes, p, from + 1);
    }
}

/// Under strict roots, looking up the path of a node that occurs under the
/// roots finds that very node.
pub proof fn law_find_node_under_strict_roots(roots: Seq<Tree>, n: Tree)
    requires
        strict_forest(roots),
        forest_contains(roots, n),
    ensures
        find_node_from(roots, n.path(), 0) == Some(n),
{
    assert forall|m: Tree| #[trigger] forest_contains(roots, m) && m.path() == n.path() implies m == n by {
        let i = choose|i: int| 0 <= i < roots.len() && (#[trigger] roots[i]).contains(m);
        let j = choose|j: int| 0 <= j < roots.len() && (#[trigger] roots[j]).contains(n);
        lemma_strict_paths(roots[i], m);
        lemma_strict_paths(roots[j], n);
        assert(roots[i].path().len() == roots[j].path().len());
        lemma_prefixes_of_equal_length(roots[i].path(), roots[j].path(), m.path());
        if i < j {
            assert(roots[i].path() != roots[j].path());
        } else if j < i {
            assert(roots[j].path() != roots[i].path());
        }
        lemma_strict_paths_are_unique(roots[i], m, n);
    }
    law_find_node_under_roots(roots, n);
}

/// Under strict roots, the files of one sibling list have distinct paths,
/// and each of them has that list as its sibling list.
pub proof fn lemma_siblings_share_their_list(roots: Seq<Tree>, cur: PathSeq, to: PathSeq)
    requires
        strict_forest(roots),
        sibling_list(roots, cur) is Some,
        holds_file(sibling_list(roots, cur)->0, cur),
        holds_file(sibling_list(roots, cur)->0, to),
    ensures
        distinct_files(sibling_list(roots, cur)->0),
        sibling_list(roots, to) == sibling_list(roots, cur),
{
    let list = sibling_list(roots, cur)->0;
    let ic = choose|i: int| 0 <= i < list.len() && list[i] == Tree::File(cur);
    let it = choose|i: int| 0 <= i < list.len() && list[i] == Tree::File(to);
    if has_root_at(roots, cur) {
        assert(roots[it].path() == to);
        assert forall|i: int, j: int|
            0 <= i < list.len() && 0 <= j < list.len() && i != j && list[i] is File && list[j] is File implies list[i].path()
            != list[j].path() by {
            if i < j {
                assert(roots[i].path() != roots[j].path());
            } else {
                assert(roots[j].path() != roots[i].path());
            }
        }
    } else {
        lemma_find_parent_from_sound(roots, cur, 0);
        lemma_first_claiming(roots, cur, 0);
        let k = first_claiming(roots, cur, 0);
        let d = find_parent_from(roots, cur, 0)->0;
        assert(roots[k].find_parent(cur) == Some(d));
        lemma_find_parent_sound(roots[k], cur);
        lemma_strict_paths(roots[k], d);
        assert(list == d.children());
        assert(list[ic].path() == cur && list[it].path() == to);
        assert(d.path() =~= cur.drop_last());
        assert(d.path() =~= to.drop_last());
        assert forall|i: int, j: int|
            0 <= i < list.len() && 0 <= j < list.len() && i != j && list[i] is File && list[j] is File implies list[i].path()
            != list[j].path() by {
            if i < j {
                assert(list[i].path() != list[j].path());
            } else {
                assert(list[j].path() != list[i].path());
            }
        }
        assert forall|j: int| 0 <= j < roots.len() implies (#[trigger] roots[j]).path() != to by {
            assert(roots[j].path().len() == roots[k].path().len());
        }
        assert forall|j: int| 0 <= j < k implies (#[trigger] roots[j]).find_parent(to) is None by {
            lemma_strict_claims(roots[j], to);
            lemma_strict_claims(roots[j], cur);
            if roots[j] is Directory && roots[j].path().is_prefix_of(to) {
                assert(roots[j].path().len() == roots[k].path().len());
                lemma_prefix_of_parent(roots[j].path(), to);
                lemma_prefix_transitive(roots[j].path(), d.path(), cur);
            }
        }
        lemma_siblings_share_their_directory(roots[k], d, cur, to);
        lemma_find_parent_from_skips(roots, to, 0, k);
    }
}

} // verus!
