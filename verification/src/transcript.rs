//! The tree that a sequence of answers describes, stated by recursion on the
//! tree, and the proof that a build yields exactly that tree.

use vstd::prelude::*;
use crate::builder::{
    advance, begun, built, deliver, law_built_is_well_formed, next_entry, replay, Build, BuildStep,
    Listing, Progress, TreeBuilder,
};
use crate::filesystem::{Answer, FsAnswer, PathKind, Question};
use crate::node::DirectoryNode;
use crate::path::NodePath;
use crate::tree::{PathSeq, Tree};

verus! {

/// How the reading of one node from the answers ends.
pub enum Outcome {
    /// With a node; the number is the index of the first answer after it.
    Node(Tree, int),
    /// With nothing, because the path resolved outside the directory being
    /// listed; the number is the index of the first answer after it.
    Outside(int),
    /// With a failure.
    Failed,
    /// With too few answers.
    Short,
}

/// Reads one node from the answers from the `i`-th on. `under` is the path of
/// the directory whose entry the node is, if it is one.
///
/// The first answer is the canonical form of the path. An entry whose
/// canonical form does not start with `under` is passed over. Then come the
/// answers on whether the directory could be made and on what is found at the
/// path. A file ends there. A directory goes on with its listing: when that
/// could not be read it has no children, else its children are read one after
/// the other, one for each entry listed. Any other answer is a failure.
pub open spec fn read_node(answers: Seq<Answer>, i: int, under: Option<PathSeq>) -> Outcome
    decreases answers.len() - i, 0nat,
{
    if !(0 <= i < answers.len()) {
        Outcome::Short
    } else {
        match answers[i] {
            Answer::Canonical(Some(canonical)) => {
                if under is Some && !under->0.is_prefix_of(canonical) {
                    Outcome::Outside(i + 1)
                } else if i + 1 >= answers.len() {
                    Outcome::Short
                } else if answers[i + 1] != Answer::Created(true) {
                    Outcome::Failed
                } else if i + 2 >= answers.len() {
                    Outcome::Short
                } else {
                    match answers[i + 2] {
                        Answer::Kind(PathKind::File) => Outcome::Node(Tree::File(canonical), i + 3),
                        Answer::Kind(PathKind::Directory) => {
                            if i + 3 >= answers.len() {
                                Outcome::Short
                            } else {
                                match answers[i + 3] {
                                    Answer::Entries(None) => Outcome::Node(
                                        Tree::Directory(canonical, Seq::empty()),
                                        i + 4,
                                    ),
                                    Answer::Entries(Some(entries)) => read_children(
                                        answers,
                                        i + 4,
                                        canonical,
                                        entries.len(),
                                        Seq::empty(),
                                    ),
                                    _ => Outcome::Failed,
                                }
                            }
                        },
                        _ => Outcome::Failed,
                    }
                }
            },
            _ => Outcome::Failed,
        }
    }
}

/// Reads the children of the directory at `dir` for the `left` entries that
/// are still to visit, from the `i`-th answer on, and ends with the directory.
/// `children` are the children read so far. An entry that is passed over
/// leaves no child; an entry that fails makes the directory fail. Every
/// entry uses up at least one answer.
pub open spec fn read_children(
    answers: Seq<Answer>,
    i: int,
    dir: PathSeq,
    left: nat,
    children: Seq<Tree>,
) -> Outcome
    decreases answers.len() - i, 1 + left,
{
    if left == 0 {
        Outcome::Node(Tree::Directory(dir, children), i)
    } else {
        match read_node(answers, i, Some(dir)) {
            Outcome::Node(child, after) => if i < after <= answers.len() {
                read_children(answers, after, dir, (left - 1) as nat, children.push(child))
            } else {
                Outcome::Failed
            },
            Outcome::Outside(after) => if i < after <= answers.len() {
                read_children(answers, after, dir, (left - 1) as nat, children)
            } else {
                Outcome::Failed
            },
            Outcome::Failed => Outcome::Failed,
            Outcome::Short => Outcome::Short,
        }
    }
}

/// The tree that the answers describe: the node read from the first answer
/// on. `None` when the reading fails, and when the answers do not suffice.
pub open spec fn tree_of(answers: Seq<Answer>) -> Option<Tree> {
    match read_node(answers, 0, None) {
        Outcome::Node(tree, _) => Some(tree),
        _ => None,
    }
}

/// The path of the directory that a build is listing, if it is listing one.
pub open spec fn listed(stack: Seq<Listing>) -> Option<PathSeq> {
    if stack.len() > 0 {
        Some(stack.last().path)
    } else {
        None
    }
}

/// Whether a build that stands at `at` goes on as the reading that ended in
/// `outcome` says: with the node handed to the stack, with the next entry of
/// the listing on top of it, or not at all.
pub open spec fn goes_on(at: Progress, answers: Seq<Answer>, stack: Seq<Listing>, outcome: Outcome) -> bool {
    match outcome {
        Outcome::Node(tree, after) => at == replay(deliver(stack, tree), answers, after),
        Outcome::Outside(after) => stack.len() > 0 && at == replay(
            next_entry(stack.drop_last(), stack.last()),
            answers,
            after,
        ),
        Outcome::Failed => at == Progress::Done(None),
        Outcome::Short => at is Ask,
    }
}

/// A build that asks for the canonical form of a path goes on as the
/// reading of that node from the answers says.
pub proof fn lemma_build_reads_node(stack: Seq<Listing>, subject: PathSeq, answers: Seq<Answer>, i: int)
    requires
        0 <= i,
    ensures
        goes_on(
            replay(
                Progress::Ask(Build { stack, question: Question::Canonicalize, subject }),
                answers,
                i,
            ),
            answers,
            stack,
            read_node(answers, i, listed(stack)),
        ),
        read_node(answers, i, listed(stack)) matches Outcome::Node(_, after) ==> i < after
            <= answers.len(),
        read_node(answers, i, listed(stack)) matches Outcome::Outside(after) ==> i < after
            <= answers.len(),
    decreases answers.len() - i, 0nat,
{
    let b = Build { stack, question: Question::Canonicalize, subject };
    if i < answers.len() {
        let first = advance(b, answers[i]);
        assert(replay(Progress::Ask(b), answers, i) == replay(first, answers, i + 1));
        match answers[i] {
            Answer::Canonical(Some(canonical)) => {
                if stack.len() > 0 && !stack.last().path.is_prefix_of(canonical) {
                } else {
                    let b1 = Build { stack, question: Question::CreateDirAll, subject: canonical };
                    assert(first == Progress::Ask(b1));
                    if i + 1 < answers.len() {
                        let second = advance(b1, answers[i + 1]);
                        assert(replay(first, answers, i + 1) == replay(second, answers, i + 2));
                        if answers[i + 1] == Answer::Created(true) {
                            let b2 = Build { stack, question: Question::Classify, subject: canonical };
                            assert(second == Progress::Ask(b2));
                            if i + 2 < answers.len() {
                                let third = advance(b2, answers[i + 2]);
                                assert(replay(second, answers, i + 2) == replay(third, answers, i + 3));
                                match answers[i + 2] {
                                    Answer::Kind(PathKind::File) => {},
                                    Answer::Kind(PathKind::Directory) => {
                                        let b3 = Build {
                                            stack,
                                            question: Question::ListEntries,
                                            subject: canonical,
                                        };
                                        assert(third == Progress::Ask(b3));
                                        if i + 3 < answers.len() {
                                            let fourth = advance(b3, answers[i + 3]);
                                            assert(replay(third, answers, i + 3) == replay(
                                                fourth,
                                                answers,
                                                i + 4,
                                            ));
                                            match answers[i + 3] {
                                                Answer::Entries(None) => {},
                                                Answer::Entries(Some(entries)) => {
                                                    let top = Listing {
                                                        path: canonical,
                                                        pending: entries,
                                                        children: Seq::empty(),
                                                    };
                                                    lemma_build_reads_children(stack, top, answers, i + 4);
                                                },
                                                _ => {
                                                    assert(fourth == Progress::Done(None));
                                                },
                                            }
                                        }
                                    },
                                    _ => {
                                        assert(third == Progress::Done(None));
                                    },
                                }
                            }
                        } else {
                            assert(second == Progress::Done(None));
                        }
                    }
                }
            },
            _ => {
                assert(first == Progress::Done(None));
            },
        }
    }
}

/// A build that goes on with a listing goes on as the reading of the
/// listed directory's children from the answers says.
pub proof fn lemma_build_reads_children(below: Seq<Listing>, top: Listing, answers: Seq<Answer>, i: int)
    requires
        0 <= i,
    ensures
        goes_on(
            replay(next_entry(below, top), answers, i),
            answers,
            below,
            read_children(answers, i, top.path, top.pending.len(), top.children),
        ),
        read_children(answers, i, top.path, top.pending.len(), top.children) matches Outcome::Node(
            _,
            after,
        ) ==> i <= after && (i <= answers.len() ==> after <= answers.len()),
        !(read_children(answers, i, top.path, top.pending.len(), top.children) is Outside),
    decreases answers.len() - i, 1 + top.pending.len(),
{
    if top.pending.len() > 0 {
        let rest = Listing { pending: top.pending.drop_first(), ..top };
        let stack = below.push(rest);
        assert(stack.last() == rest);
        assert(stack.drop_last() =~= below);
        lemma_build_reads_node(stack, top.pending[0], answers, i);
        match read_node(answers, i, Some(top.path)) {
            Outcome::Node(child, after) => {
                let grown = Listing { children: rest.children.push(child), ..rest };
                assert(deliver(stack, child) == next_entry(below, grown));
                lemma_build_reads_children(below, grown, answers, after);
            },
            Outcome::Outside(after) => {
                lemma_build_reads_children(below, rest, answers, after);
            },
            Outcome::Failed => {},
            Outcome::Short => {},
        }
    }
}

/// A build yields the tree that the answers describe, and fails when they
/// describe none: the questions that the build asks one by one add up to the
/// reading of the tree, node by node.
pub proof fn law_build_yields_tree_of(path: PathSeq, answers: Seq<Answer>)
    ensures
        built(path, answers) == tree_of(answers),
{
    let none: Seq<Listing> = Seq::empty();
    lemma_build_reads_node(none, path, answers, 0);
    assert(begun(path) == Build { stack: none, question: Question::Canonicalize, subject: path });
    match read_node(answers, 0, None) {
        Outcome::Node(tree, after) => {
            assert(deliver(none, tree) == Progress::Done(Some(tree)));
            assert(replay(Progress::Done(Some(tree)), answers, after) == Progress::Done(Some(tree)));
        },
        _ => {},
    }
}

/// Whatever the filesystem answers, the tree that the answers describe is
/// well formed: at every level, the paths of a directory's children start
/// with the directory's path.
pub proof fn law_tree_of_is_well_formed(answers: Seq<Answer>)
    ensures
        tree_of(answers) matches Some(t) ==> t.well_formed(),
{
    let any: PathSeq = Seq::empty();
    law_build_yields_tree_of(any, answers);
    law_built_is_well_formed(any, answers);
}

/// The models of `answers`, in order.
pub open spec fn answer_views(answers: Seq<FsAnswer>) -> Seq<Answer> {
    Seq::new(answers.len(), |i: int| answers[i]@)
}

/// The model of an optional node.
pub open spec fn node_view(node: Option<DirectoryNode>) -> Option<Tree> {
    match node {
        Some(n) => Some(n@),
        None => None,
    }
}

impl DirectoryNode {
    /// The tree at `path`, built from the answers that the filesystem gave
    /// to the build's questions, in the order in which the build asks them:
    /// the tree that the answers describe. `None` when the build fails, and
    /// when the answers run out before the tree is complete.
    pub fn try_from_path(path: NodePath, answers: &Vec<FsAnswer>) -> (r: Option<DirectoryNode>)
        ensures
            node_view(r) == tree_of(answer_views(answers@)),
    {
        let ghost given = answer_views(answers@);
        proof {
            law_build_yields_tree_of(path@, given);
        }
        let mut builder = TreeBuilder::start(path);
        let mut i: usize = 0;
        while i < answers.len()
            invariant
                i <= answers.len(),
                given == answer_views(answers@),
                built(path@, given) == tree_of(given),
                replay(Progress::Ask(builder@), given, i as int) == replay(
                    Progress::Ask(begun(path@)),
                    given,
                    0,
                ),
            decreases answers.len() - i,
        {
            match builder.answer(&answers[i]) {
                BuildStep::Ask(next) => {
                    builder = next;
                },
                BuildStep::Done(result) => {
                    assert(replay(Progress::Done(node_view(result)), given, i + 1) == Progress::Done(
                        node_view(result),
                    ));
                    return result;
                },
            }
            i += 1;
        }
        None
    }

    /// The tree at `path`, built from the filesystem's answers. The answers
    /// must be such that the build succeeds.
    pub fn from_path(path: NodePath, answers: &Vec<FsAnswer>) -> (r: DirectoryNode)
        requires
            tree_of(answer_views(answers@)) is Some,
        ensures
            Some(r@) == tree_of(answer_views(answers@)),
    {
        Self::try_from_path(path, answers).unwrap()
    }
}

} // verus!
