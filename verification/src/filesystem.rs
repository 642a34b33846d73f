//! What the filesystem reports, as plain values.

use vstd::prelude::*;
use crate::path::NodePath;
use crate::tree::PathSeq;

verus! {

/// What is found at a path.
#[derive(Debug, Clone, Copy, PartialEq, Eq, Structural)]
pub enum PathKind {
    Directory,
    File,
    Other,
}

/// What a build can ask about a path.
#[derive(Debug, Clone, Copy, PartialEq, Eq, Structural)]
pub enum Question {
    /// What is the canonical form of the path?
    Canonicalize,
    /// Make sure that the directory and the directories above it exist. Did
    /// that succeed?
    CreateDirAll,
    /// What is found at the path?
    Classify,
    /// Which entries does the directory hold?
    ListEntries,
}

/// An answer of the filesystem.
#[derive(Debug)]
pub enum FsAnswer {
    /// The canonical form of the path; `None` when it has none.
    Canonical(Option<NodePath>),
    /// Whether the directory exists now.
    Created(bool),
    /// What is found at the path.
    Kind(PathKind),
    /// The paths of the directory's entries, in the order in which the
    /// filesystem lists them; `None` when the listing could not be read.
    Entries(Option<Vec<NodePath>>),
}

/// The model of an answer.
pub enum Answer {
    Canonical(Option<PathSeq>),
    Created(bool),
    Kind(PathKind),
    Entries(Option<Seq<PathSeq>>),
}

/// The models of `paths`, in order.
pub open spec fn path_views(paths: Seq<NodePath>) -> Seq<PathSeq> {
    Seq::new(paths.len(), |i: int| paths[i]@)
}

impl View for FsAnswer {
    type V = Answer;

    open spec fn view(&self) -> Answer {
        match self {
            FsAnswer::Canonical(Some(p)) => Answer::Canonical(Some(p@)),
            FsAnswer::Canonical(None) => Answer::Canonical(None),
            FsAnswer::Created(ok) => Answer::Created(*ok),
            FsAnswer::Kind(kind) => Answer::Kind(*kind),
            FsAnswer::Entries(Some(entries)) => Answer::Entries(Some(path_views(entries@))),
            FsAnswer::Entries(None) => Answer::Entries(None),
        }
    }
}

/// What the filesystem reported of a path that was asked for: nothing,
/// because the path could not be resolved, or the resolved path and what is
/// found there.
#[derive(Debug)]
pub enum Located {
    Missing,
    At(NodePath, PathKind),
}

} // verus!
