//! The selector: the roots it offers, its configuration, and the selection
//! cursor with the rules for moving it.

use vstd::prelude::*;
use crate::filesystem::{FsAnswer, Located, PathKind};
use crate::navigation::{
    accepts, eligibility, filter_ok, law_step_alone, law_step_there_and_back,
    lemma_step_lands_on_file, navigate_nodes, step_target,
};
use crate::node::{lemma_directory_view, views, DirectoryNode};
use crate::path::NodePath;
use crate::toolkit::id_of;
use crate::transcript::{answer_views, tree_of};
use crate::tree::{
    distinct_files, find_node_from, find_parent_from, has_root_at, holds_file, sibling_list,
    strict_forest, PathSeq, Tree,
};
use crate::tree_laws::lemma_siblings_share_their_list;

verus! {

/// The model of an optional path.
pub open spec fn path_view(p: Option<NodePath>) -> Option<PathSeq> {
    match p {
        Some(p) => Some(p@),
        None => None,
    }
}

/// The selector. `F` is the type of its filter.
pub struct DirectoryComboBox<F> {
    pub id: egui::Id,
    selected_path: Option<NodePath>,
    selected_file: Option<NodePath>,
    pub roots: Vec<DirectoryNode>,
    pub wrap_mode: Option<egui::TextWrapMode>,
    pub show_extensions: bool,
    pub filter: Option<F>,
    pub select_files_only: bool,
    pub back_button: bool,
}

/// The model of a selector: its cursor as model paths, its roots as model
/// trees, and its configuration as it is.
pub struct Selector<F> {
    pub id: egui::Id,
    /// The path that is open: a file or a directory.
    pub selected_path: Option<PathSeq>,
    /// The file that was chosen last.
    pub selected_file: Option<PathSeq>,
    pub roots: Seq<Tree>,
    pub wrap_mode: Option<egui::TextWrapMode>,
    pub show_extensions: bool,
    pub filter: Option<F>,
    pub select_files_only: bool,
    pub back_button: bool,
}

impl<F> Selector<F> {
    /// This model with another cursor.
    pub open spec fn with_cursor(
        self,
        selected_path: Option<PathSeq>,
        selected_file: Option<PathSeq>,
    ) -> Selector<F> {
        Selector { selected_path, selected_file, ..self }
    }
}

impl<F> View for DirectoryComboBox<F> {
    type V = Selector<F>;

    closed spec fn view(&self) -> Selector<F> {
        Selector {
            id: self.id,
            selected_path: path_view(self.selected_path),
            selected_file: path_view(self.selected_file),
            roots: views(self.roots@),
            wrap_mode: self.wrap_mode,
            show_extensions: self.show_extensions,
            filter: self.filter,
            select_files_only: self.select_files_only,
            back_button: self.back_button,
        }
    }
}

/// Whether nothing is selected and the configuration is the initial one:
/// extensions shown, directories selectable, back button on, no filter, no
/// wrap mode.
pub open spec fn is_initial<F>(s: Selector<F>) -> bool {
    &&& s.selected_path is None
    &&& s.selected_file is None
    &&& s.wrap_mode is None
    &&& s.show_extensions
    &&& s.filter is None
    &&& !s.select_files_only
    &&& s.back_button
}

/// The roots that a selector made for one node offers: the children of a
/// directory, or the file itself.
pub open spec fn roots_of(root: Tree) -> Seq<Tree> {
    match root {
        Tree::Directory(_, children) => children,
        Tree::File(_) => seq![root],
    }
}

/// The selector after a request to select `target`.
///
/// No target clears the cursor. A target that could not be resolved, or
/// that is neither a file nor a directory, changes nothing. A file becomes
/// both the open path and the chosen file. A directory becomes the open
/// path and leaves the chosen file as it is; where only files can be
/// selected, a directory changes nothing.
pub open spec fn selection_set<F>(s: Selector<F>, target: Option<Located>) -> Selector<F> {
    match target {
        None => s.with_cursor(None, None),
        Some(Located::Missing) => s,
        Some(Located::At(p, PathKind::File)) => s.with_cursor(Some(p@), Some(p@)),
        Some(Located::At(p, PathKind::Directory)) => if s.select_files_only {
            s
        } else {
            s.with_cursor(Some(p@), s.selected_file)
        },
        Some(Located::At(_, PathKind::Other)) => s,
    }
}

/// The selector after a step to the next (`forward`) or the previous file.
///
/// Without a chosen file, without a sibling list for it, or without a
/// landing place in that list, nothing changes. Else the landing place
/// becomes both the open path and the chosen file.
pub open spec fn stepped<F: Fn(&NodePath) -> bool>(s: Selector<F>, forward: bool) -> Selector<F> {
    match s.selected_file {
        None => s,
        Some(cur) => match sibling_list(s.roots, cur) {
            None => s,
            Some(list) => match step_target(list, forward, eligibility(s.filter), cur) {
                None => s,
                Some(to) => s.with_cursor(Some(to), Some(to)),
            },
        },
    }
}

/// The path that is open after Back at nesting level `depth`, where `kind`
/// is what is found at the open path.
///
/// With nothing open, or at the first level, nothing is open afterwards.
/// Deeper, Back from a directory opens its parent, and Back from a file
/// opens the parent of its parent; from anything else the open path stays.
pub open spec fn back_target(open: Option<PathSeq>, depth: nat, kind: PathKind) -> Option<PathSeq> {
    match open {
        None => None,
        Some(p) => if depth <= 1 {
            None
        } else {
            match kind {
                PathKind::Directory => parent_of(p),
                PathKind::File => match parent_of(p) {
                    Some(up) => parent_of(up),
                    None => None,
                },
                PathKind::Other => Some(p),
            }
        },
    }
}

/// The path one level up; a path of fewer than two components has none.
pub open spec fn parent_of(p: PathSeq) -> Option<PathSeq> {
    if p.len() >= 2 {
        Some(p.drop_last())
    } else {
        None
    }
}

/// The selector after the user has left `opened` open, where `is_file` says
/// whether a file is found there.
///
/// When `opened` is the path that was open before, nothing changes. Else it
/// becomes the open path, and the chosen file follows it: where directories
/// can be selected, the chosen file is whatever is open; where only files
/// can, an open file is chosen, an open directory leaves the chosen file as
/// it is, and nothing open means nothing chosen.
pub open spec fn settled<F>(s: Selector<F>, opened: Option<PathSeq>, is_file: bool) -> Selector<F> {
    if opened == s.selected_path {
        s
    } else if !s.select_files_only {
        s.with_cursor(opened, opened)
    } else {
        match opened {
            None => s.with_cursor(None, None),
            Some(p) => if is_file {
                s.with_cursor(opened, opened)
            } else {
                s.with_cursor(opened, s.selected_file)
            },
        }
    }
}

impl<F: Clone> Clone for DirectoryComboBox<F> {
    /// A selector with the same roots, cursor and configuration, and with a
    /// clone of the filter.
    fn clone(&self) -> (r: Self)
        ensures
            r@ == (Selector { filter: r@.filter, ..self@ }),
            self@.filter is None <==> r@.filter is None,
            self@.filter is Some ==> cloned(self@.filter->0, r@.filter->0),
    {
        let mut roots: Vec<DirectoryNode> = Vec::new();
        let mut i: usize = 0;
        while i < self.roots.len()
            invariant
                i <= self.roots.len(),
                roots@.len() == i,
                forall|k: int| 0 <= k < i ==> roots@[k]@ == self.roots@[k]@,
            decreases self.roots.len() - i,
        {
            roots.push(self.roots[i].clone());
            i += 1;
        }
        assert(views(roots@) =~= views(self.roots@));
        DirectoryComboBox {
            id: self.id,
            selected_path: match &self.selected_path {
                Some(p) => Some(p.clone()),
                None => None,
            },
            selected_file: match &self.selected_file {
                Some(p) => Some(p.clone()),
                None => None,
            },
            roots,
            wrap_mode: self.wrap_mode,
            show_extensions: self.show_extensions,
            filter: self.filter.clone(),
            select_files_only: self.select_files_only,
            back_button: self.back_button,
        }
    }
}

impl<F> Default for DirectoryComboBox<F> {
    /// A selector without roots and with nothing selected. Extensions are
    /// shown, directories can be selected, the back button is on, and there
    /// is no filter.
    fn default() -> (r: Self)
        ensures
            is_initial(r@),
            r@.roots == Seq::<Tree>::empty(),
    {
        DirectoryComboBox {
            selected_path: None,
            selected_file: None,
            roots: Vec::new(),
            id: id_of("directory_combobox"),
            wrap_mode: None,
            show_extensions: true,
            filter: None,
            select_files_only: false,
            back_button: true,
        }
    }
}

impl<F> DirectoryComboBox<F> {
    /// A selector for the tree at `path`, built from the filesystem's
    /// answers: a directory's children are the roots, a file is the only
    /// root. The answers must be such that the build succeeds.
    pub fn new_from_path(path: NodePath, answers: &Vec<FsAnswer>) -> (r: Self)
        requires
            tree_of(answer_views(answers@)) is Some,
        ensures
            is_initial(r@),
            r@.roots == roots_of(tree_of(answer_views(answers@))->0),
    {
        Self::new_from_root(DirectoryNode::from_path(path, answers))
    }

    /// A selector whose roots are the trees at `paths`, in order, each built
    /// from the filesystem's answers for it. The answers must be such that
    /// every build succeeds.
    pub fn new_from_paths(paths: &Vec<NodePath>, answers: &Vec<Vec<FsAnswer>>) -> (r: Self)
        requires
            paths@.len() == answers@.len(),
            forall|i: int|
                0 <= i < paths@.len() ==> tree_of(answer_views(#[trigger] answers@[i]@)) is Some,
        ensures
            is_initial(r@),
            r@.roots.len() == paths@.len(),
            forall|i: int|
                0 <= i < paths@.len() ==> Some(#[trigger] r@.roots[i]) == tree_of(answer_views(answers@[i]@)),
    {
        let mut roots: Vec<DirectoryNode> = Vec::new();
        let mut i: usize = 0;
        while i < paths.len()
            invariant
                i <= paths@.len(),
                paths@.len() == answers@.len(),
                roots@.len() == i,
                forall|k: int|
                    0 <= k < paths@.len() ==> tree_of(answer_views(#[trigger] answers@[k]@)) is Some,
                forall|k: int|
                    0 <= k < i ==> Some((#[trigger] roots@[k])@) == tree_of(answer_views(answers@[k]@)),
            decreases paths@.len() - i,
        {
            assert(tree_of(answer_views(answers@[i as int]@)) is Some);
            roots.push(DirectoryNode::from_path(paths[i].clone(), &answers[i]));
            i += 1;
        }
        Self::new_from_nodes(roots)
    }

    /// A selector for one tree: a directory's children are the roots, a file
    /// is the only root.
    pub fn new_from_root(root: DirectoryNode) -> (r: Self)
        ensures
            is_initial(r@),
            r@.roots == roots_of(root@),
    {
        proof {
            if root is Directory {
                lemma_directory_view(root);
            }
        }
        let roots = match root {
            DirectoryNode::Directory(_, children) => children,
            DirectoryNode::File(p) => {
                let mut only: Vec<DirectoryNode> = Vec::new();
                only.push(DirectoryNode::File(p));
                only
            },
        };
        Self::new_from_nodes(roots)
    }

    /// A selector that offers `roots`, in order.
    pub fn new_from_nodes(roots: Vec<DirectoryNode>) -> (r: Self)
        ensures
            is_initial(r@),
            r@.roots == views(roots@),
    {
        DirectoryComboBox {
            selected_path: None,
            selected_file: None,
            roots,
            id: id_of("directory_combobox"),
            wrap_mode: None,
            show_extensions: true,
            filter: None,
            select_files_only: false,
            back_button: true,
        }
    }

    /// Replaces the identity under which the toolkit knows the selector.
    pub fn with_id(self, id: egui::Id) -> (r: Self)
        ensures
            r@ == (Selector { id, ..self@ }),
    {
        let mut r = self;
        r.id = id;
        r
    }

    /// Sets how the toolkit wraps the selector's text.
    pub fn with_wrap_mode(self, wrap_mode: egui::TextWrapMode) -> (r: Self)
        ensures
            r@ == (Selector { wrap_mode: Some(wrap_mode), ..self@ }),
    {
        let mut r = self;
        r.wrap_mode = Some(wrap_mode);
        r
    }

    /// Sets the filter that decides which files are shown and stepped to.
    pub fn with_filter(self, filter: F) -> (r: Self)
        ensures
            r@ == (Selector { filter: Some(filter), ..self@ }),
    {
        let mut r = self;
        r.filter = Some(filter);
        r
    }

    /// Sets whether only files can be selected.
    pub fn select_files_only(self, select_files_only: bool) -> (r: Self)
        ensures
            r@ == (Selector { select_files_only, ..self@ }),
    {
        let mut r = self;
        r.select_files_only = select_files_only;
        r
    }

    /// Sets whether file extensions are shown.
    pub fn show_extensions(self, show: bool) -> (r: Self)
        ensures
            r@ == (Selector { show_extensions: show, ..self@ }),
    {
        let mut r = self;
        r.show_extensions = show;
        r
    }

    /// Sets whether nested menus offer a back button.
    pub fn with_back_button(self, back_button: bool) -> (r: Self)
        ensures
            r@ == (Selector { back_button, ..self@ }),
    {
        let mut r = self;
        r.back_button = back_button;
        r
    }

    /// The file that was chosen last, if any.
    pub fn selected(&self) -> (r: Option<&NodePath>)
        ensures
            match r {
                Some(p) => self@.selected_file == Some(p@),
                None => self@.selected_file is None,
            },
    {
        self.selected_file.as_ref()
    }

    /// The path that is open, a file or a directory, if any.
    pub fn selected_path(&self) -> (r: Option<&NodePath>)
        ensures
            match r {
                Some(p) => self@.selected_path == Some(p@),
                None => self@.selected_path is None,
            },
    {
        self.selected_path.as_ref()
    }

    /// Selects `path` as the filesystem reported it, or clears the selection
    /// when there is none. A request that cannot be honoured is ignored.
    pub fn set_selection(&mut self, path: Option<Located>)
        ensures
            final(self)@ == selection_set(old(self)@, path),
    {
        match path {
            Some(Located::At(p, kind)) => {
                match kind {
                    PathKind::File => {
                        self.selected_path = Some(p.clone());
                        self.selected_file = Some(p);
                    },
                    PathKind::Directory => {
                        if !self.select_files_only {
                            self.selected_path = Some(p);
                        }
                    },
                    PathKind::Other => {},
                }
            },
            Some(Located::Missing) => {},
            None => {
                self.selected_path = None;
                self.selected_file = None;
            },
        }
    }

    /// Clears the selection: nothing is open and nothing is chosen.
    pub fn clear_selection(&mut self)
        ensures
            final(self)@ == old(self)@.with_cursor(None, None),
    {
        self.selected_path = None;
        self.selected_file = None;
    }

    /// Whether the directory at `dir` is shown expanded: it is the open path
    /// or lies above it.
    pub fn is_expanded(&self, dir: &NodePath) -> (r: bool)
        ensures
            r == (self@.selected_path matches Some(p) && dir@.is_prefix_of(p)),
    {
        match &self.selected_path {
            Some(p) => p.starts_with(dir),
            None => false,
        }
    }

    /// The path that Back opens at nesting level `depth`, where `kind` is
    /// what is found at the path that is open now.
    pub fn back(&self, depth: usize, kind: PathKind) -> (r: Option<NodePath>)
        ensures
            path_view(r) == back_target(self@.selected_path, depth as nat, kind),
    {
        match &self.selected_path {
            None => None,
            Some(p) => {
                if depth <= 1 {
                    None
                } else {
                    match kind {
                        PathKind::Directory => p.parent(),
                        PathKind::File => match p.parent() {
                            Some(up) => up.parent(),
                            None => None,
                        },
                        PathKind::Other => Some(p.clone()),
                    }
                }
            },
        }
    }

    /// Takes over what the user left open in the menus: `opened` becomes the
    /// open path, and the chosen file follows it. `is_file` says whether a
    /// file is found at `opened`.
    pub fn settle(&mut self, opened: Option<NodePath>, is_file: bool)
        ensures
            final(self)@ == settled(old(self)@, path_view(opened), is_file),
    {
        let unchanged = match (&opened, &self.selected_path) {
            (Some(a), Some(b)) => *a == *b,
            (None, None) => true,
            _ => false,
        };
        if unchanged {
            return ;
        }
        if !self.select_files_only {
            self.selected_file = match &opened {
                Some(p) => Some(p.clone()),
                None => None,
            };
        } else {
            match &opened {
                None => {
                    self.selected_file = None;
                },
                Some(p) => {
                    if is_file {
                        self.selected_file = Some(p.clone());
                    }
                },
            }
        }
        self.selected_path = opened;
    }

    /// The first node under the roots, depth first and in root order, whose
    /// own path is `path`.
    pub fn find_node_of_path(&self, path: &NodePath) -> (r: Option<&DirectoryNode>)
        ensures
            match r {
                Some(n) => find_node_from(self@.roots, path@, 0) == Some(n@),
                None => find_node_from(self@.roots, path@, 0) is None,
            },
    {
        let mut i: usize = 0;
        while i < self.roots.len()
            invariant
                i <= self.roots.len(),
                self@.roots == views(self.roots@),
                find_node_from(self@.roots, path@, 0) == find_node_from(self@.roots, path@, i as int),
            decreases self.roots.len() - i,
        {
            if let Some(found) = self.roots[i].find_node_of_path(path) {
                return Some(found);
            }
            i += 1;
        }
        None
    }

    /// The directory under the roots that claims `path`, the roots asked in
    /// order.
    pub fn find_parent_directory(&self, path: &NodePath) -> (r: Option<&DirectoryNode>)
        ensures
            match r {
                Some(n) => find_parent_from(self@.roots, path@, 0) == Some(n@),
                None => find_parent_from(self@.roots, path@, 0) is None,
            },
    {
        let mut i: usize = 0;
        while i < self.roots.len()
            invariant
                i <= self.roots.len(),
                self@.roots == views(self.roots@),
                find_parent_from(self@.roots, path@, 0) == find_parent_from(
                    self@.roots,
                    path@,
                    i as int,
                ),
            decreases self.roots.len() - i,
        {
            if let Some(found) = self.roots[i].find_parent_directory(path) {
                return Some(found);
            }
            i += 1;
        }
        None
    }

    /// Whether one of the roots has `path` as its own path.
    fn is_root(&self, path: &NodePath) -> (r: bool)
        ensures
            r == has_root_at(self@.roots, path@),
    {
        let mut i: usize = 0;
        while i < self.roots.len()
            invariant
                i <= self.roots.len(),
                self@.roots == views(self.roots@),
                forall|j: int| 0 <= j < i ==> (#[trigger] self@.roots[j]).path() != path@,
            decreases self.roots.len() - i,
        {
            if *self.roots[i].path() == *path {
                assert(self@.roots[i as int].path() == path@);
                return true;
            }
            i += 1;
        }
        false
    }
}

impl<F: Fn(&NodePath) -> bool> DirectoryComboBox<F> {
    /// Where a step from the chosen file lands, if anywhere.
    fn step_from(&self, forward: bool, selected: &NodePath) -> (r: Option<NodePath>)
        requires
            filter_ok(self@.filter),
        ensures
            path_view(r) == match sibling_list(self@.roots, selected@) {
                None => None,
                Some(list) => step_target(list, forward, eligibility(self@.filter), selected@),
            },
    {
        let found = if self.is_root(selected) {
            navigate_nodes(&self.roots, forward, &self.filter, selected)
        } else {
            match self.find_parent_directory(selected) {
                Some(dir) => match dir {
                    DirectoryNode::Directory(_, children) => {
                        proof {
                            lemma_directory_view(*dir);
                        }
                        navigate_nodes(children, forward, &self.filter, selected)
                    },
                    DirectoryNode::File(_) => None,
                },
                None => None,
            }
        };
        match found {
            Some(p) => Some(p.clone()),
            None => None,
        }
    }

    /// Steps to the next (`forward`) or the previous file among the siblings
    /// of the chosen file.
    pub fn navigate_folder(&mut self, forward: bool)
        requires
            filter_ok(old(self)@.filter),
        ensures
            final(self)@ == stepped(old(self)@, forward),
    {
        let target = match &self.selected_file {
            Some(selected) => self.step_from(forward, selected),
            None => None,
        };
        if let Some(to) = target {
            self.selected_path = Some(to.clone());
            self.selected_file = Some(to);
        }
    }

    /// Chooses the next file among the siblings of the chosen file, past the
    /// files that the filter rejects, and from the last one on to the first.
    pub fn select_next_file(&mut self)
        requires
            filter_ok(old(self)@.filter),
        ensures
            final(self)@ == stepped(old(self)@, true),
    {
        self.navigate_folder(true);
    }

    /// Chooses the previous file among the siblings of the chosen file, past
    /// the files that the filter rejects, and from the first one on to the
    /// last.
    pub fn select_previous_file(&mut self)
        requires
            filter_ok(old(self)@.filter),
        ensures
            final(self)@ == stepped(old(self)@, false),
    {
        self.navigate_folder(false);
    }
}

/// Clearing the selection leaves nothing open and nothing chosen, whatever
/// was selected before.
pub proof fn law_clearing_clears<F>(s: Selector<F>)
    ensures
        selection_set(s, None).selected_path is None,
        selection_set(s, None).selected_file is None,
{
}

/// Where only files can be selected, a request to select a directory changes
/// nothing: neither the chosen file nor the open path.
pub proof fn law_files_only_ignores_directories<F>(s: Selector<F>, directory: NodePath)
    requires
        s.select_files_only,
    ensures
        selection_set(s, Some(Located::At(directory, PathKind::Directory))) == s,
{
}

/// A step stays among the siblings of the chosen file: either it changes
/// nothing, or the file that is chosen and open after it is a file of the
/// chosen file's sibling list that passes the filter. Nothing but the cursor
/// changes.
pub proof fn law_step_stays_among_siblings<F: Fn(&NodePath) -> bool>(s: Selector<F>, forward: bool)
    ensures
        stepped(s, forward) == s || {
            &&& s.selected_file matches Some(cur)
            &&& sibling_list(s.roots, cur) matches Some(list)
            &&& stepped(s, forward).selected_file matches Some(to)
            &&& holds_file(list, to)
            &&& accepts(s.filter, to)
            &&& stepped(s, forward) == s.with_cursor(Some(to), Some(to))
        },
{
    if s.selected_file is Some && sibling_list(s.roots, s.selected_file->0) is Some {
        let cur = s.selected_file->0;
        lemma_step_lands_on_file(sibling_list(s.roots, cur)->0, forward, eligibility(s.filter), cur);
    }
}

/// A step to the next file followed by a step to the previous one, or the
/// other way round, comes back to the file that was chosen.
///
/// This holds where the chosen file is in its sibling list and passes the
/// filter, where the files of that list have distinct paths, and where the
/// file that the first step lands on has the same sibling list; the last is
/// always so where the siblings are the roots. After the two steps the file
/// chosen at the start is chosen and open, and nothing else has changed. Where
/// it is the only file that passes the filter, each step lands on it.
pub proof fn law_step_and_step_back<F: Fn(&NodePath) -> bool>(s: Selector<F>, forward: bool)
    requires
        s.selected_file is Some,
        sibling_list(s.roots, s.selected_file->0) is Some,
        distinct_files(sibling_list(s.roots, s.selected_file->0)->0),
        holds_file(sibling_list(s.roots, s.selected_file->0)->0, s.selected_file->0),
        accepts(s.filter, s.selected_file->0),
        has_root_at(s.roots, s.selected_file->0) || sibling_list(s.roots, stepped(s, forward).selected_file->0)
            == sibling_list(s.roots, s.selected_file->0),
    ensures
        stepped(stepped(s, forward), !forward) == s.with_cursor(s.selected_file, s.selected_file),
{
    let cur = s.selected_file->0;
    let list = sibling_list(s.roots, cur)->0;
    let eligible = eligibility(s.filter);
    law_step_there_and_back(list, forward, eligible, cur);
    lemma_step_lands_on_file(list, forward, eligible, cur);
    let to = step_target(list, forward, eligible, cur)->0;
    let there = stepped(s, forward);
    assert(there == s.with_cursor(Some(to), Some(to)));
    if has_root_at(s.roots, cur) {
        let i = choose|i: int| 0 <= i < list.len() && list[i] == Tree::File(to);
        assert(s.roots[i].path() == to);
    }
    assert(sibling_list(there.roots, to) == Some(list));
}

/// Under strict roots, a step to the next file followed by a step to the
/// previous one, or the other way round, comes back to the file that was
/// chosen, where that file is in its sibling list and passes the filter.
pub proof fn law_step_and_step_back_under_strict_roots<F: Fn(&NodePath) -> bool>(
    s: Selector<F>,
    forward: bool,
)
    requires
        strict_forest(s.roots),
        s.selected_file is Some,
        sibling_list(s.roots, s.selected_file->0) is Some,
        holds_file(sibling_list(s.roots, s.selected_file->0)->0, s.selected_file->0),
        accepts(s.filter, s.selected_file->0),
    ensures
        stepped(stepped(s, forward), !forward) == s.with_cursor(s.selected_file, s.selected_file),
{
    let cur = s.selected_file->0;
    let list = sibling_list(s.roots, cur)->0;
    lemma_step_lands_on_file(list, forward, eligibility(s.filter), cur);
    lemma_siblings_share_their_list(s.roots, cur, cur);
    law_step_there_and_back(list, forward, eligibility(s.filter), cur);
    let to = step_target(list, forward, eligibility(s.filter), cur)->0;
    lemma_siblings_share_their_list(s.roots, cur, to);
    law_step_and_step_back(s, forward);
}

/// Where the chosen file is the only file of its sibling list that passes
/// the filter, a step in either direction leaves it chosen, and open.
pub proof fn law_step_alone_stays<F: Fn(&NodePath) -> bool>(s: Selector<F>, forward: bool)
    requires
        s.selected_file is Some,
        sibling_list(s.roots, s.selected_file->0) is Some,
        holds_file(sibling_list(s.roots, s.selected_file->0)->0, s.selected_file->0),
        accepts(s.filter, s.selected_file->0),
        forall|i: int|
            0 <= i < sibling_list(s.roots, s.selected_file->0)->0.len() && (#[trigger] sibling_list(
                s.roots,
                s.selected_file->0,
            )->0[i]) is File && accepts(s.filter, sibling_list(s.roots, s.selected_file->0)->0[i].path())
                ==> sibling_list(s.roots, s.selected_file->0)->0[i].path() == s.selected_file->0,
    ensures
        stepped(s, forward) == s.with_cursor(s.selected_file, s.selected_file),
{
    let cur = s.selected_file->0;
    let list = sibling_list(s.roots, cur)->0;
    law_step_alone(list, forward, eligibility(s.filter), cur);
}

} // verus!
