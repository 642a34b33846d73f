//! Building a tree from what the filesystem answers.
//!
//! The build does no reading of its own. It says what it needs to know next,
//! is handed the answer, and goes on from there, until the tree is complete
//! or the build has failed.

use vstd::prelude::*;
use crate::filesystem::{path_views, Answer, FsAnswer, PathKind, Question};
use crate::node::{lemma_directory_view, views, DirectoryNode};
use crate::path::NodePath;
use crate::tree::{PathSeq, Tree};

verus! {

/// The model of a directory whose listing is being worked through: its
/// path, the entries still to visit, and the children built so far.
pub struct Listing {
    pub path: PathSeq,
    pub pending: Seq<PathSeq>,
    pub children: Seq<Tree>,
}

/// The model of a build in progress: the directories being listed, the
/// outermost first, and the question that is open, with the path it is about.
pub struct Build {
    pub stack: Seq<Listing>,
    pub question: Question,
    pub subject: PathSeq,
}

/// The model of where a build stands after an answer: it asks on, or it is
/// done, with a tree or without.
pub enum Progress {
    Ask(Build),
    Done(Option<Tree>),
}

/// The build of `path` before any answer: it asks for the canonical form.
pub open spec fn begun(path: PathSeq) -> Build {
    Build { stack: Seq::empty(), question: Question::Canonicalize, subject: path }
}

/// Hands a finished node to the directory on top of the stack and goes on
/// with that directory's listing. With no directory open the node is the
/// result.
pub open spec fn deliver(stack: Seq<Listing>, node: Tree) -> Progress
    decreases stack.len(), 0nat,
{
    if stack.len() == 0 {
        Progress::Done(Some(node))
    } else {
        let top = stack.last();
        next_entry(stack.drop_last(), Listing { children: top.children.push(node), ..top })
    }
}

/// Goes on with the listing `top`, which stands on `below`: asks for the
/// canonical form of its next entry, or, when none is left, hands the
/// finished directory on.
pub open spec fn next_entry(below: Seq<Listing>, top: Listing) -> Progress
    decreases below.len(), 1nat,
{
    if top.pending.len() > 0 {
        Progress::Ask(
            Build {
                stack: below.push(Listing { pending: top.pending.drop_first(), ..top }),
                question: Question::Canonicalize,
                subject: top.pending[0],
            },
        )
    } else {
        deliver(below, Tree::Directory(top.path, top.children))
    }
}

/// Where the build `b` stands after `answer`.
///
/// A path without canonical form ends the build without a tree, unless the
/// path is an entry whose canonical form lies outside the directory being
/// listed: such an entry is passed over. Then the build makes sure that the
/// directory exists, and ends without a tree when it does not. Then it asks
/// what is found at the path. A file is a finished node. A directory is
/// listed; one whose listing cannot be read is finished without children,
/// and the entries of the others are built one by one, in order. Anything
/// else ends the build without a tree, and so does an answer to a question
/// that was not asked.
pub open spec fn advance(b: Build, answer: Answer) -> Progress {
    match (b.question, answer) {
        (Question::Canonicalize, Answer::Canonical(Some(canonical))) => {
            if b.stack.len() > 0 && !b.stack.last().path.is_prefix_of(canonical) {
                next_entry(b.stack.drop_last(), b.stack.last())
            } else {
                Progress::Ask(
                    Build { stack: b.stack, question: Question::CreateDirAll, subject: canonical },
                )
            }
        },
        (Question::CreateDirAll, Answer::Created(true)) => Progress::Ask(
            Build { question: Question::Classify, ..b },
        ),
        (Question::Classify, Answer::Kind(PathKind::Directory)) => Progress::Ask(
            Build { question: Question::ListEntries, ..b },
        ),
        (Question::Classify, Answer::Kind(PathKind::File)) => deliver(b.stack, Tree::File(b.subject)),
        (Question::ListEntries, Answer::Entries(None)) => deliver(
            b.stack,
            Tree::Directory(b.subject, Seq::empty()),
        ),
        (Question::ListEntries, Answer::Entries(Some(entries))) => next_entry(
            b.stack,
            Listing { path: b.subject, pending: entries, children: Seq::empty() },
        ),
        _ => Progress::Done(None),
    }
}

/// Where the build stands after the answers from the `from`-th on have been
/// given one by one. A build that is done takes no more answers.
pub open spec fn replay(at: Progress, answers: Seq<Answer>, from: int) -> Progress
    decreases answers.len() - from,
{
    match at {
        Progress::Done(_) => at,
        Progress::Ask(b) => if 0 <= from < answers.len() {
            replay(advance(b, answers[from]), answers, from + 1)
        } else {
            at
        },
    }
}

/// The tree that the build of `path` yields from `answers`: `None` when the
/// build fails, and when the answers run out before it is done.
pub open spec fn built(path: PathSeq, answers: Seq<Answer>) -> Option<Tree> {
    match replay(Progress::Ask(begun(path)), answers, 0) {
        Progress::Done(result) => result,
        Progress::Ask(_) => None,
    }
}

/// A directory whose listing is being worked through.
struct Frame {
    path: NodePath,
    /// The entries still to visit, the next one last.
    pending: Vec<NodePath>,
    children: Vec<DirectoryNode>,
}

impl View for Frame {
    type V = Listing;

    closed spec fn view(&self) -> Listing {
        Listing {
            path: self.path@,
            pending: Seq::new(
                self.pending@.len(),
                |i: int| self.pending@[self.pending@.len() - 1 - i]@,
            ),
            children: views(self.children@),
        }
    }
}

/// The models of `frames`, in order.
spec fn frame_views(frames: Seq<Frame>) -> Seq<Listing> {
    Seq::new(frames.len(), |i: int| frames[i]@)
}

/// A build in progress. It holds the question that is open.
pub struct TreeBuilder {
    stack: Vec<Frame>,
    question: Question,
    subject: NodePath,
}

impl View for TreeBuilder {
    type V = Build;

    closed spec fn view(&self) -> Build {
        Build { stack: frame_views(self.stack@), question: self.question, subject: self.subject@ }
    }
}

/// Where a build stands: it asks on, or it is done, with a tree or without.
pub enum BuildStep {
    Ask(TreeBuilder),
    Done(Option<DirectoryNode>),
}

impl View for BuildStep {
    type V = Progress;

    open spec fn view(&self) -> Progress {
        match self {
            BuildStep::Ask(b) => Progress::Ask(b@),
            BuildStep::Done(Some(node)) => Progress::Done(Some(node@)),
            BuildStep::Done(None) => Progress::Done(None),
        }
    }
}

/// Goes on with `listing`, which stands on `below`: asks about its next
/// entry, or hands the finished directory on, as often as directories end.
fn next_entry_of(below: Vec<Frame>, listing: Frame) -> (r: BuildStep)
    ensures
        r@ == next_entry(frame_views(below@), listing@),
{
    let ghost goal = next_entry(frame_views(below@), listing@);
    let mut stack = below;
    let mut top = listing;
    loop
        invariant
            next_entry(frame_views(stack@), top@) == goal,
            goal == next_entry(frame_views(below@), listing@),
        decreases stack@.len(),
    {
        let ghost before = top@;
        match top.pending.pop() {
            Some(entry) => {
                proof {
                    assert(entry@ == before.pending[0]);
                    assert(top@.pending =~= before.pending.drop_first());
                }
                let ghost under = frame_views(stack@);
                stack.push(top);
                proof {
                    assert(frame_views(stack@) =~= under.push(top@));
                }
                return BuildStep::Ask(
                    TreeBuilder { stack, question: Question::Canonicalize, subject: entry },
                );
            },
            None => {
                assert(before.pending.len() == 0);
                let node = DirectoryNode::Directory(top.path, top.children);
                proof {
                    lemma_directory_view(node);
                }
                let ghost under = frame_views(stack@);
                match stack.pop() {
                    None => {
                        assert(under.len() == 0);
                        return BuildStep::Done(Some(node));
                    },
                    Some(parent) => {
                        let ghost up = parent@;
                        assert(up == under.last());
                        assert(frame_views(stack@) =~= under.drop_last());
                        let mut parent = parent;
                        parent.children.push(node);
                        proof {
                            assert(parent@.children =~= up.children.push(node@));
                            assert(parent@.pending =~= up.pending);
                        }
                        top = parent;
                    },
                }
            },
        }
    }
}

/// Hands `node` to the directory on top of `stack` and goes on with that
/// directory's listing.
fn deliver_to(stack: Vec<Frame>, node: DirectoryNode) -> (r: BuildStep)
    ensures
        r@ == deliver(frame_views(stack@), node@),
{
    let mut stack = stack;
    let ghost under = frame_views(stack@);
    match stack.pop() {
        None => {
            assert(under.len() == 0);
            BuildStep::Done(Some(node))
        },
        Some(top) => {
            let ghost up = top@;
            assert(up == under.last());
            assert(frame_views(stack@) =~= under.drop_last());
            let mut top = top;
            top.children.push(node);
            proof {
                assert(top@.children =~= up.children.push(node@));
                assert(top@.pending =~= up.pending);
            }
            next_entry_of(stack, top)
        },
    }
}

impl TreeBuilder {
    /// Begins the build of the tree at `path`. The build asks for the
    /// canonical form of `path` first.
    pub fn start(path: NodePath) -> (r: TreeBuilder)
        ensures
            r@ == begun(path@),
    {
        let r = TreeBuilder { stack: Vec::new(), question: Question::Canonicalize, subject: path };
        assert(r@.stack =~= Seq::empty());
        r
    }

    /// The question that is open.
    pub fn question(&self) -> (r: Question)
        ensures
            r == self@.question,
    {
        self.question
    }

    /// The path that the open question is about.
    pub fn subject(&self) -> (r: &NodePath)
        ensures
            r@ == self@.subject,
    {
        &self.subject
    }

    /// Takes the answer to the open question and says where the build stands
    /// then.
    pub fn answer(self, answer: &FsAnswer) -> (r: BuildStep)
        ensures
            r@ == advance(self@, answer@),
    {
        let TreeBuilder { stack, question, subject } = self;
        match (question, answer) {
            (Question::Canonicalize, FsAnswer::Canonical(Some(canonical))) => {
                let mut stack = stack;
                let ghost under = frame_views(stack@);
                match stack.pop() {
                    None => BuildStep::Ask(
                        TreeBuilder {
                            stack,
                            question: Question::CreateDirAll,
                            subject: canonical.clone(),
                        },
                    ),
                    Some(top) => {
                        assert(top@ == under.last());
                        assert(frame_views(stack@) =~= under.drop_last());
                        if canonical.starts_with(&top.path) {
                            stack.push(top);
                            assert(frame_views(stack@) =~= under);
                            BuildStep::Ask(
                                TreeBuilder {
                                    stack,
                                    question: Question::CreateDirAll,
                                    subject: canonical.clone(),
                                },
                            )
                        } else {
                            next_entry_of(stack, top)
                        }
                    },
                }
            },
            (Question::CreateDirAll, FsAnswer::Created(true)) => BuildStep::Ask(
                TreeBuilder { stack, question: Question::Classify, subject },
            ),
            (Question::Classify, FsAnswer::Kind(PathKind::Directory)) => BuildStep::Ask(
                TreeBuilder { stack, question: Question::ListEntries, subject },
            ),
            (Question::Classify, FsAnswer::Kind(PathKind::File)) => deliver_to(
                stack,
                DirectoryNode::File(subject),
            ),
            (Question::ListEntries, FsAnswer::Entries(None)) => {
                let node = DirectoryNode::Directory(subject, Vec::new());
                proof {
                    lemma_directory_view(node);
                    assert(views(node->Directory_1@) =~= Seq::empty());
                }
                deliver_to(stack, node)
            },
            (Question::ListEntries, FsAnswer::Entries(Some(entries))) => {
                let mut pending: Vec<NodePath> = Vec::new();
                let mut left: usize = entries.len();
                while left > 0
                    invariant
                        left <= entries.len(),
                        pending@.len() == entries.len() - left,
                        forall|k: int|
                            0 <= k < pending@.len() ==> pending@[k]@ == entries@[entries.len() - 1 - k]@,
                    decreases left,
                {
                    left -= 1;
                    pending.push(entries[left].clone());
                }
                let top = Frame { path: subject, pending, children: Vec::new() };
                proof {
                    assert(top@.pending =~= path_views(entries@));
                    assert(top@.children =~= Seq::empty());
                }
                next_entry_of(stack, top)
            },
            _ => BuildStep::Done(None),
        }
    }
}

/// Whether the children built so far for a listing are well formed and lie
/// under the listing's path.
pub open spec fn tidy_listing(l: Listing) -> bool {
    forall|k: int|
        0 <= k < l.children.len() ==> l.path.is_prefix_of((#[trigger] l.children[k]).path())
            && l.children[k].well_formed()
}

/// Whether every listing of the stack is tidy and lies under the one
/// before it.
pub open spec fn tidy_stack(stack: Seq<Listing>) -> bool {
    forall|i: int|
        0 <= i < stack.len() ==> tidy_listing(#[trigger] stack[i]) && (i + 1 < stack.len()
            ==> stack[i].path.is_prefix_of(stack[i + 1].path))
}

/// Whether the build can only end in a well-formed tree: its stack is tidy,
/// and a canonical path that it asks about lies under the directory being
/// listed.
pub open spec fn tidy(b: Build) -> bool {
    &&& tidy_stack(b.stack)
    &&& b.question != Question::Canonicalize && b.stack.len() > 0 ==> b.stack.last().path.is_prefix_of(
        b.subject,
    )
}

/// Whether the build is tidy, or done with a well-formed tree or with none.
pub open spec fn tidy_progress(p: Progress) -> bool {
    match p {
        Progress::Ask(b) => tidy(b),
        Progress::Done(Some(t)) => t.well_formed(),
        Progress::Done(None) => true,
    }
}

/// Handing a well-formed node that lies under the directory on top of a
/// tidy stack keeps the build tidy.
pub proof fn lemma_deliver_tidy(stack: Seq<Listing>, node: Tree)
    requires
        tidy_stack(stack),
        node.well_formed(),
        stack.len() > 0 ==> stack.last().path.is_prefix_of(node.path()),
    ensures
        tidy_progress(deliver(stack, node)),
    decreases stack.len(), 0nat,
{
    if stack.len() > 0 {
        let top = stack.last();
        let grown = Listing { children: top.children.push(node), ..top };
        let below = stack.drop_last();
        assert(tidy_listing(top));
        assert forall|k: int| 0 <= k < grown.children.len() implies grown.path.is_prefix_of(
            (#[trigger] grown.children[k]).path(),
        ) && grown.children[k].well_formed() by {
            if k < top.children.len() {
                assert(grown.children[k] == top.children[k]);
            }
        }
        assert forall|i: int| 0 <= i < below.push(grown).len() implies tidy_listing(
            #[trigger] below.push(grown)[i],
        ) && (i + 1 < below.push(grown).len() ==> below.push(grown)[i].path.is_prefix_of(
            below.push(grown)[i + 1].path,
        )) by {
            assert(tidy_listing(stack[i]));
        }
        lemma_next_entry_tidy(below, grown);
    }
}

/// Going on with a listing on a tidy stack keeps the build tidy.
pub proof fn lemma_next_entry_tidy(below: Seq<Listing>, top: Listing)
    requires
        tidy_stack(below.push(top)),
    ensures
        tidy_progress(next_entry(below, top)),
    decreases below.len(), 1nat,
{
    let stack = below.push(top);
    assert(stack[below.len() as int] == top);
    assert(tidy_listing(stack[below.len() as int]));
    assert forall|i: int| 0 <= i < below.len() implies tidy_listing(#[trigger] below[i]) && (i + 1
        < below.len() ==> below[i].path.is_prefix_of(below[i + 1].path)) by {
        assert(tidy_listing(stack[i]));
        assert(below[i] == stack[i]);
    }
    if top.pending.len() > 0 {
        let rest = Listing { pending: top.pending.drop_first(), ..top };
        assert forall|i: int| 0 <= i < below.push(rest).len() implies tidy_listing(
            #[trigger] below.push(rest)[i],
        ) && (i + 1 < below.push(rest).len() ==> below.push(rest)[i].path.is_prefix_of(
            below.push(rest)[i + 1].path,
        )) by {
            assert(tidy_listing(stack[i]));
        }
    } else {
        if below.len() > 0 {
            assert(tidy_listing(stack[below.len() - 1]));
            assert(stack[below.len() - 1] == below.last());
        }
        lemma_deliver_tidy(below, Tree::Directory(top.path, top.children));
    }
}

/// An answer keeps a tidy build tidy.
pub proof fn lemma_advance_tidy(b: Build, answer: Answer)
    requires
        tidy(b),
    ensures
        tidy_progress(advance(b, answer)),
{
    match (b.question, answer) {
        (Question::Canonicalize, Answer::Canonical(Some(canonical))) => {
            if b.stack.len() > 0 && !b.stack.last().path.is_prefix_of(canonical) {
                assert(b.stack.drop_last().push(b.stack.last()) =~= b.stack);
                lemma_next_entry_tidy(b.stack.drop_last(), b.stack.last());
            }
        },
        (Question::Classify, Answer::Kind(PathKind::File)) => {
            lemma_deliver_tidy(b.stack, Tree::File(b.subject));
        },
        (Question::ListEntries, Answer::Entries(None)) => {
            lemma_deliver_tidy(b.stack, Tree::Directory(b.subject, Seq::empty()));
        },
        (Question::ListEntries, Answer::Entries(Some(entries))) => {
            let top = Listing { path: b.subject, pending: entries, children: Seq::empty() };
            assert forall|i: int| 0 <= i < b.stack.push(top).len() implies tidy_listing(
                #[trigger] b.stack.push(top)[i],
            ) && (i + 1 < b.stack.push(top).len() ==> b.stack.push(top)[i].path.is_prefix_of(
                b.stack.push(top)[i + 1].path,
            )) by {
                if i < b.stack.len() {
                    assert(tidy_listing(b.stack[i]));
                }
            }
            lemma_next_entry_tidy(b.stack, top);
        },
        _ => {},
    }
}

/// Answers keep a tidy build tidy.
pub proof fn lemma_replay_tidy(at: Progress, answers: Seq<Answer>, from: int)
    requires
        tidy_progress(at),
    ensures
        tidy_progress(replay(at, answers, from)),
    decreases answers.len() - from,
{
    match at {
        Progress::Done(_) => {},
        Progress::Ask(b) => {
            if 0 <= from < answers.len() {
                lemma_advance_tidy(b, answers[from]);
                lemma_replay_tidy(advance(b, answers[from]), answers, from + 1);
            }
        },
    }
}

/// Whatever the filesystem answers, a tree that the build yields is well
/// formed: at every level, the paths of a directory's children start with
/// the directory's path.
pub proof fn law_built_is_well_formed(path: PathSeq, answers: Seq<Answer>)
    ensures
        built(path, answers) matches Some(t) ==> t.well_formed(),
{
    lemma_replay_tidy(Progress::Ask(begun(path)), answers, 0);
}

} // verus!
