//! Stepping from the selected file to the next or the previous file of one
//! sibling list, with wraparound, past the files that a filter rejects.

use vstd::prelude::*;
use crate::node::{views, DirectoryNode};
use crate::path::NodePath;
use crate::tree::{distinct_files, holds_file, PathSeq, Tree};

verus! {

/// What a filter has to be for stepping to make sense: it can be called on
/// every path, and its answer depends on nothing but the path.
pub open spec fn filter_ok<F: Fn(&NodePath) -> bool>(filter: Option<F>) -> bool {
    filter matches Some(f) ==> {
        &&& forall|q: &NodePath| call_requires(f, (q,))
        &&& forall|q1: &NodePath, q2: &NodePath, r1: bool, r2: bool|
            q1@ == q2@ && call_ensures(f, (q1,), r1) && call_ensures(f, (q2,), r2) ==> r1 == r2
    }
}

/// Whether the filter lets the file at `p` through. Without a filter every
/// file is let through.
pub open spec fn accepts<F: Fn(&NodePath) -> bool>(filter: Option<F>, p: PathSeq) -> bool {
    filter matches Some(f) ==> exists|q: &NodePath| q@ == p && call_ensures(f, (q,), true)
}

/// The filter as a predicate on model paths.
pub open spec fn eligibility<F: Fn(&NodePath) -> bool>(filter: Option<F>) -> spec_fn(PathSeq) -> bool {
    |p: PathSeq| accepts(filter, p)
}

/// The order in which a sibling list is walked: as listed, or backwards.
pub open spec fn walk(nodes: Seq<Tree>, forward: bool) -> Seq<Tree> {
    if forward {
        nodes
    } else {
        nodes.reverse()
    }
}

/// The first index at or after `from` whose node meets `pred`; the length of
/// `nodes` when there is none.
pub open spec fn first_match(nodes: Seq<Tree>, from: int, pred: spec_fn(Tree) -> bool) -> int
    decreases nodes.len() - from,
{
    if from >= nodes.len() {
        nodes.len() as int
    } else if pred(nodes[from]) {
        from
    } else {
        first_match(nodes, from + 1, pred)
    }
}

/// The node is the file at `cur`.
pub open spec fn is_current(cur: PathSeq) -> spec_fn(Tree) -> bool {
    |t: Tree| t == Tree::File(cur)
}

/// The node is a file that the filter lets through.
pub open spec fn is_eligible(eligible: spec_fn(PathSeq) -> bool) -> spec_fn(Tree) -> bool {
    |t: Tree| t is File && eligible(t.path())
}

/// The node is a file other than `cur` that the filter lets through.
pub open spec fn is_other_eligible(cur: PathSeq, eligible: spec_fn(PathSeq) -> bool) -> spec_fn(
    Tree,
) -> bool {
    |t: Tree| t is File && t.path() != cur && eligible(t.path())
}

/// Where a step from the file at `cur` lands.
///
/// The sibling list is walked in the given direction. The step starts at the
/// first occurrence of the file at `cur` and lands on the next eligible file
/// after it. When none follows, it wraps to the first eligible file of the
/// walk, which may be the file at `cur` itself. `None` when the list does not
/// hold the file at `cur`, or holds no eligible file at all.
pub open spec fn step_target(
    nodes: Seq<Tree>,
    forward: bool,
    eligible: spec_fn(PathSeq) -> bool,
    cur: PathSeq,
) -> Option<PathSeq> {
    let w = walk(nodes, forward);
    let at = first_match(w, 0, is_current(cur));
    if at >= w.len() {
        None
    } else {
        let next = first_match(w, at + 1, is_other_eligible(cur, eligible));
        if next < w.len() {
            Some(w[next].path())
        } else {
            let first = first_match(w, 0, is_eligible(eligible));
            if first < w.len() {
                Some(w[first].path())
            } else {
                None
            }
        }
    }
}

/// Asks the filter about `path`; without a filter the answer is yes.
pub fn passes<F: Fn(&NodePath) -> bool>(filter: &Option<F>, path: &NodePath) -> (r: bool)
    requires
        filter_ok(*filter),
    ensures
        r == accepts(*filter, path@),
{
    match filter {
        Some(f) => f(path),
        None => true,
    }
}

/// The index in the list of the `k`-th node of the walk.
fn walk_index(len: usize, forward: bool, k: usize) -> (r: usize)
    requires
        k < len,
    ensures
        r < len,
        r == if forward {
            k as int
        } else {
            len - 1 - k
        },
{
    if forward {
        k
    } else {
        len - 1 - k
    }
}

/// The file that a step from `selected` lands on, within `nodes`; `None`
/// when the step leaves the selection where it is.
pub fn navigate_nodes<'a, F: Fn(&NodePath) -> bool>(
    nodes: &'a Vec<DirectoryNode>,
    forward: bool,
    filter: &Option<F>,
    selected: &NodePath,
) -> (r: Option<&'a NodePath>)
    requires
        filter_ok(*filter),
    ensures
        match r {
            Some(p) => step_target(views(nodes@), forward, eligibility(*filter), selected@) == Some(
                p@,
            ),
            None => step_target(views(nodes@), forward, eligibility(*filter), selected@) is None,
        },
{
    let n = nodes.len();
    let ghost w = walk(views(nodes@), forward);
    let ghost eligible = eligibility(*filter);
    assert(w.len() == n);
    assert forall|k: int| 0 <= k < n implies w[k] == (if forward {
        nodes@[k]@
    } else {
        nodes@[n - 1 - k]@
    }) by {}
    let mut at: usize = 0;
    while at < n
        invariant_except_break
            first_match(w, 0, is_current(selected@)) == first_match(w, at as int, is_current(selected@)),
        invariant
            at <= n,
            n == nodes.len(),
            w.len() == n,
            forall|k: int| 0 <= k < n ==> w[k] == (if forward {
                nodes@[k]@
            } else {
                nodes@[n - 1 - k]@
            }),
        ensures
            first_match(w, 0, is_current(selected@)) == at,
        decreases n - at,
    {
        let node = &nodes[walk_index(n, forward, at)];
        if let DirectoryNode::File(file_path) = node {
            if *file_path == *selected {
                break;
            }
        }
        at += 1;
    }
    if at == n {
        return None;
    }
    let mut next: usize = at + 1;
    while next < n
        invariant
            at < next <= n,
            w == walk(views(nodes@), forward),
            first_match(w, 0, is_current(selected@)) == at,
            n == nodes.len(),
            w.len() == n,
            filter_ok(*filter),
            eligible == eligibility(*filter),
            forall|k: int| 0 <= k < n ==> w[k] == (if forward {
                nodes@[k]@
            } else {
                nodes@[n - 1 - k]@
            }),
            first_match(w, at + 1, is_other_eligible(selected@, eligible)) == first_match(
                w,
                next as int,
                is_other_eligible(selected@, eligible),
            ),
        decreases n - next,
    {
        let node = &nodes[walk_index(n, forward, next)];
        if let DirectoryNode::File(file_path) = node {
            if *file_path != *selected && passes(filter, file_path) {
                return Some(file_path);
            }
        }
        next += 1;
    }
    let mut first: usize = 0;
    while first < n
        invariant
            first <= n,
            at < n,
            w == walk(views(nodes@), forward),
            first_match(w, 0, is_current(selected@)) == at,
            first_match(w, at + 1, is_other_eligible(selected@, eligible)) >= n,
            n == nodes.len(),
            w.len() == n,
            filter_ok(*filter),
            eligible == eligibility(*filter),
            forall|k: int| 0 <= k < n ==> w[k] == (if forward {
                nodes@[k]@
            } else {
                nodes@[n - 1 - k]@
            }),
            first_match(w, 0, is_eligible(eligible)) == first_match(
                w,
                first as int,
                is_eligible(eligible),
            ),
        decreases n - first,
    {
        let node = &nodes[walk_index(n, forward, first)];
        if let DirectoryNode::File(file_path) = node {
            if passes(filter, file_path) {
                return Some(file_path);
            }
        }
        first += 1;
    }
    None
}

/// `first_match` is the least index from `from` on that meets `pred`.
pub proof fn lemma_first_match(nodes: Seq<Tree>, from: int, pred: spec_fn(Tree) -> bool)
    requires
        0 <= from <= nodes.len(),
    ensures
        from <= first_match(nodes, from, pred) <= nodes.len(),
        first_match(nodes, from, pred) < nodes.len() ==> pred(nodes[first_match(nodes, from, pred)]),
        forall|i: int| from <= i < first_match(nodes, from, pred) ==> !pred(#[trigger] nodes[i]),
    decreases nodes.len() - from,
{
    if from < nodes.len() && !pred(nodes[from]) {
        lemma_first_match(nodes, from + 1, pred);
    }
}

/// An index that meets `pred`, with none before it from `from` on that does,
/// is what `first_match` finds; so is the length, when no index does.
pub proof fn lemma_first_match_is(nodes: Seq<Tree>, from: int, pred: spec_fn(Tree) -> bool, k: int)
    requires
        0 <= from <= k <= nodes.len(),
        forall|i: int| from <= i < k ==> !pred(#[trigger] nodes[i]),
        k < nodes.len() ==> pred(nodes[k]),
    ensures
        first_match(nodes, from, pred) == k,
    decreases k - from,
{
    if from < k {
        assert(!pred(nodes[from]));
        lemma_first_match_is(nodes, from + 1, pred, k);
    }
}

/// The walk in one direction is the walk in the other, read backwards.
pub proof fn lemma_walk_mirror(nodes: Seq<Tree>, forward: bool, backward: bool)
    requires
        backward == !forward,
    ensures
        walk(nodes, forward).len() == nodes.len(),
        walk(nodes, backward).len() == nodes.len(),
        forall|i: int|
            0 <= i < nodes.len() ==> #[trigger] walk(nodes, backward)[i] == walk(nodes, forward)[nodes.len()
                - 1 - i],
{
}

/// Files stay distinct and present whichever way the list is walked.
proof fn lemma_walk_keeps(nodes: Seq<Tree>, forward: bool, cur: PathSeq)
    requires
        distinct_files(nodes),
    ensures
        distinct_files(walk(nodes, forward)),
        holds_file(nodes, cur) ==> holds_file(walk(nodes, forward), cur),
{
    let w = walk(nodes, forward);
    let n = nodes.len() as int;
    if !forward {
        assert forall|i: int, j: int|
            0 <= i < w.len() && 0 <= j < w.len() && i != j && w[i] is File && w[j] is File implies w[i].path()
            != w[j].path() by {
            assert(w[i] == nodes[n - 1 - i]);
            assert(w[j] == nodes[n - 1 - j]);
        }
        if holds_file(nodes, cur) {
            let i = choose|i: int| 0 <= i < nodes.len() && nodes[i] == Tree::File(cur);
            assert(w[n - 1 - i] == Tree::File(cur));
        }
    }
}

/// Where a step lands is the path of a file of the list that the filter
/// lets through.
pub proof fn lemma_step_lands_on_file(
    nodes: Seq<Tree>,
    forward: bool,
    eligible: spec_fn(PathSeq) -> bool,
    cur: PathSeq,
)
    ensures
        step_target(nodes, forward, eligible, cur) matches Some(to) ==> eligible(to) && holds_file(
            nodes,
            to,
        ),
{
    let n = nodes.len() as int;
    let w = walk(nodes, forward);
    lemma_walk_mirror(nodes, !forward, forward);
    let at = first_match(w, 0, is_current(cur));
    lemma_first_match(w, 0, is_current(cur));
    if at < n {
        let next = first_match(w, at + 1, is_other_eligible(cur, eligible));
        lemma_first_match(w, at + 1, is_other_eligible(cur, eligible));
        let first = first_match(w, 0, is_eligible(eligible));
        lemma_first_match(w, 0, is_eligible(eligible));
        let to = if next < n {
            next
        } else {
            first
        };
        if to < n {
            let i = if forward {
                to
            } else {
                n - 1 - to
            };
            assert(w[to] == nodes[i]);
            assert(nodes[i] == Tree::File(w[to].path()));
        }
    }
}

/// A step in one direction followed by a step in the other comes back.
///
/// In a sibling list whose files have distinct paths, from a file of the
/// list that the filter lets through, a step lands on a file, and the step
/// back from there lands on the file that the first step started from. This
/// holds also where the first step wraps around, and where the file is the
/// only one that the filter lets through: then each step lands on it.
pub proof fn law_step_there_and_back(
    nodes: Seq<Tree>,
    forward: bool,
    eligible: spec_fn(PathSeq) -> bool,
    cur: PathSeq,
)
    requires
        distinct_files(nodes),
        holds_file(nodes, cur),
        eligible(cur),
    ensures
        step_target(nodes, forward, eligible, cur) is Some,
        step_target(nodes, !forward, eligible, step_target(nodes, forward, eligible, cur)->0) == Some(
            cur,
        ),
{
    let n = nodes.len() as int;
    let w = walk(nodes, forward);
    let v = walk(nodes, !forward);
    lemma_walk_mirror(nodes, forward, !forward);
    lemma_walk_keeps(nodes, forward, cur);
    let here = is_current(cur);
    let onward = is_other_eligible(cur, eligible);
    let any = is_eligible(eligible);
    let at = first_match(w, 0, here);
    lemma_first_match(w, 0, here);
    let present = choose|i: int| 0 <= i < w.len() && w[i] == Tree::File(cur);
    assert(here(w[present]));
    assert(at <= present);
    assert(w[at] == Tree::File(cur));
    let next = first_match(w, at + 1, onward);
    lemma_first_match(w, at + 1, onward);
    let first = first_match(w, 0, any);
    lemma_first_match(w, 0, any);
    assert(any(w[at]));
    assert(first <= at);
    let to = if next < n {
        next
    } else {
        first
    };
    let t = w[to].path();
    assert(step_target(nodes, forward, eligible, cur) == Some(t));
    assert(w[to] is File);
    assert(w[to] == Tree::File(t));
    // the way back, in the mirrored walk
    let back_here = is_current(t);
    let back_onward = is_other_eligible(t, eligible);
    let mirror = |i: int| n - 1 - i;
    assert(v[mirror(to)] == w[to]);
    assert forall|i: int| 0 <= i < mirror(to) implies !back_here(#[trigger] v[i]) by {
        assert(v[i] == w[mirror(i)]);
    }
    lemma_first_match_is(v, 0, back_here, mirror(to));
    if next < n {
        assert(t != cur);
        assert(v[mirror(at)] == w[at]);
        assert forall|i: int| mirror(to) + 1 <= i < mirror(at) implies !back_onward(#[trigger] v[i]) by {
            assert(v[i] == w[mirror(i)]);
            assert(!onward(w[mirror(i)]));
        }
        assert(back_onward(v[mirror(at)]));
        lemma_first_match_is(v, mirror(to) + 1, back_onward, mirror(at));
    } else {
        assert forall|i: int| mirror(to) + 1 <= i < n implies !back_onward(#[trigger] v[i]) by {
            assert(v[i] == w[mirror(i)]);
            assert(!any(w[mirror(i)]));
        }
        lemma_first_match_is(v, mirror(to) + 1, back_onward, n);
        assert forall|i: int| 0 <= i < mirror(at) implies !any(#[trigger] v[i]) by {
            assert(v[i] == w[mirror(i)]);
            assert(!onward(w[mirror(i)]));
        }
        assert(v[mirror(at)] == w[at]);
        lemma_first_match_is(v, 0, any, mirror(at));
    }
}

/// Where the file at `cur` is the only file of the list that the filter lets
/// through, a step in either direction lands on it.
pub proof fn law_step_alone(
    nodes: Seq<Tree>,
    forward: bool,
    eligible: spec_fn(PathSeq) -> bool,
    cur: PathSeq,
)
    requires
        holds_file(nodes, cur),
        eligible(cur),
        forall|i: int|
            0 <= i < nodes.len() && (#[trigger] nodes[i]) is File && eligible(nodes[i].path())
                ==> nodes[i].path() == cur,
    ensures
        step_target(nodes, forward, eligible, cur) == Some(cur),
{
    let n = nodes.len() as int;
    let w = walk(nodes, forward);
    lemma_walk_mirror(nodes, !forward, forward);
    let i = choose|i: int| 0 <= i < nodes.len() && nodes[i] == Tree::File(cur);
    let k = if forward {
        i
    } else {
        n - 1 - i
    };
    assert(w[k] == Tree::File(cur));
    assert forall|j: int| 0 <= j < n && (#[trigger] w[j]) is File && eligible(w[j].path()) implies w[j].path()
        == cur by {
        if !forward {
            assert(w[j] == nodes[n - 1 - j]);
        }
    }
    let here = is_current(cur);
    let onward = is_other_eligible(cur, eligible);
    let any = is_eligible(eligible);
    lemma_first_match(w, 0, here);
    assert(here(w[k]));
    let at = first_match(w, 0, here);
    lemma_first_match(w, at + 1, onward);
    lemma_first_match(w, 0, any);
    assert(any(w[k]));
}

} // verus!
