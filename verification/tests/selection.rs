use egui_directory_combobox::filesystem::PathKind;
use egui_directory_combobox::combobox::DirectoryComboBox;
use egui_directory_combobox::filesystem::Located;
use egui_directory_combobox::node::DirectoryNode;
use egui_directory_combobox::path::NodePath;

type Unfiltered = DirectoryComboBox<fn(&NodePath) -> bool>;

fn loc(parts: &[&str]) -> NodePath {
    NodePath::new(parts.iter().map(|s| s.to_string()).collect())
}

fn roots() -> Vec<DirectoryNode> {
    vec![
        DirectoryNode::File(loc(&["/", "r", "a.txt"])),
        DirectoryNode::Directory(
            loc(&["/", "r", "sub"]),
            vec![DirectoryNode::File(loc(&["/", "r", "sub", "c.txt"]))],
        ),
    ]
}

fn fresh() -> Unfiltered {
    DirectoryComboBox::new_from_nodes(roots())
}

fn file_at(parts: &[&str]) -> Option<Located> {
    Some(Located::At(loc(parts), PathKind::File))
}

fn directory_at(parts: &[&str]) -> Option<Located> {
    Some(Located::At(loc(parts), PathKind::Directory))
}

#[test]
fn default_has_no_roots_and_nothing_selected() {
    let cb: Unfiltered = Default::default();
    assert!(cb.roots.is_empty());
    assert_eq!(cb.selected(), None);
    assert_eq!(cb.selected_path(), None);
    assert!(cb.show_extensions);
    assert!(!cb.select_files_only);
    assert!(cb.back_button);
    assert!(cb.filter.is_none());
    assert!(cb.wrap_mode.is_none());
}

#[test]
fn default_identity_is_the_toolkit_hash_of_the_name() {
    let cb: Unfiltered = Default::default();
    assert!(cb.id == egui::Id::new("directory_combobox"));
    assert!(cb.id != egui::Id::new("something else"));
    assert!(fresh().id == egui::Id::new("directory_combobox"));
}

#[test]
fn builders_set_one_thing_each() {
    let cb = fresh()
        .with_id(egui::Id::new("mine"))
        .with_wrap_mode(egui::TextWrapMode::Truncate)
        .select_files_only(true)
        .show_extensions(false)
        .with_back_button(false);
    assert!(cb.id == egui::Id::new("mine"));
    assert_eq!(cb.wrap_mode, Some(egui::TextWrapMode::Truncate));
    assert!(cb.select_files_only);
    assert!(!cb.show_extensions);
    assert!(!cb.back_button);
    assert_eq!(cb.roots, roots());
    assert_eq!(cb.selected(), None);
    let back = cb.select_files_only(false).show_extensions(true).with_back_button(true);
    assert!(!back.select_files_only);
    assert!(back.show_extensions);
    assert!(back.back_button);
    assert!(back.id == egui::Id::new("mine"));
}

#[test]
fn clone_keeps_roots_cursor_and_configuration() {
    let mut cb = fresh().select_files_only(true).with_id(egui::Id::new("mine")).show_extensions(false);
    cb.set_selection(file_at(&["/", "r", "sub", "c.txt"]));
    let copy = cb.clone();
    assert_eq!(copy.roots, roots());
    assert_eq!(copy.selected(), Some(&loc(&["/", "r", "sub", "c.txt"])));
    assert_eq!(copy.selected_path(), Some(&loc(&["/", "r", "sub", "c.txt"])));
    assert!(copy.id == egui::Id::new("mine"));
    assert!(copy.select_files_only);
    assert!(!copy.show_extensions);
    assert!(copy.back_button);
    assert!(copy.filter.is_none());
    cb.set_selection(None);
    assert_eq!(copy.selected(), Some(&loc(&["/", "r", "sub", "c.txt"])));
}

#[test]
fn with_filter_keeps_the_filter() {
    let cb = DirectoryComboBox::new_from_nodes(roots()).with_filter(|p: &NodePath| p.len() == 3);
    let f = cb.filter.as_ref().unwrap();
    assert!(f(&loc(&["/", "r", "a.txt"])));
    assert!(!f(&loc(&["/", "r", "sub", "c.txt"])));
}

#[test]
fn new_from_nodes_offers_the_roots_in_order() {
    let cb = fresh();
    assert_eq!(cb.roots, roots());
    assert_eq!(cb.selected(), None);
    assert_eq!(cb.selected_path(), None);
}

#[test]
fn new_from_root_unwraps_a_directory() {
    let cb: Unfiltered =
        DirectoryComboBox::new_from_root(DirectoryNode::Directory(loc(&["/", "r"]), roots()));
    assert_eq!(cb.roots, roots());
    let single: Unfiltered =
        DirectoryComboBox::new_from_root(DirectoryNode::File(loc(&["/", "r", "a.txt"])));
    assert_eq!(single.roots, vec![DirectoryNode::File(loc(&["/", "r", "a.txt"]))]);
    let empty: Unfiltered =
        DirectoryComboBox::new_from_root(DirectoryNode::Directory(loc(&["/", "r"]), vec![]));
    assert!(empty.roots.is_empty());
}

#[test]
fn selecting_a_file_sets_both_cursors() {
    let mut cb = fresh();
    cb.set_selection(file_at(&["/", "r", "a.txt"]));
    assert_eq!(cb.selected(), Some(&loc(&["/", "r", "a.txt"])));
    assert_eq!(cb.selected_path(), Some(&loc(&["/", "r", "a.txt"])));
}

#[test]
fn selecting_a_directory_sets_only_the_open_path() {
    let mut cb = fresh();
    cb.set_selection(file_at(&["/", "r", "a.txt"]));
    cb.set_selection(directory_at(&["/", "r", "sub"]));
    assert_eq!(cb.selected(), Some(&loc(&["/", "r", "a.txt"])));
    assert_eq!(cb.selected_path(), Some(&loc(&["/", "r", "sub"])));
    let mut nothing_chosen = fresh();
    nothing_chosen.set_selection(directory_at(&["/", "r", "sub"]));
    assert_eq!(nothing_chosen.selected(), None);
    assert_eq!(nothing_chosen.selected_path(), Some(&loc(&["/", "r", "sub"])));
}

#[test]
fn files_only_ignores_a_directory() {
    let mut cb = fresh().select_files_only(true);
    cb.set_selection(directory_at(&["/", "r", "sub"]));
    assert_eq!(cb.selected(), None);
    assert_eq!(cb.selected_path(), None);
    cb.set_selection(file_at(&["/", "r", "a.txt"]));
    cb.set_selection(directory_at(&["/", "r", "sub"]));
    assert_eq!(cb.selected(), Some(&loc(&["/", "r", "a.txt"])));
    assert_eq!(cb.selected_path(), Some(&loc(&["/", "r", "a.txt"])));
}

#[test]
fn files_only_takes_a_file() {
    let mut cb = fresh().select_files_only(true);
    cb.set_selection(file_at(&["/", "r", "sub", "c.txt"]));
    assert_eq!(cb.selected(), Some(&loc(&["/", "r", "sub", "c.txt"])));
    assert_eq!(cb.selected_path(), Some(&loc(&["/", "r", "sub", "c.txt"])));
}

#[test]
fn clearing_clears_both_cursors() {
    let mut cb = fresh();
    cb.set_selection(None);
    assert_eq!(cb.selected(), None);
    assert_eq!(cb.selected_path(), None);
    cb.set_selection(file_at(&["/", "r", "a.txt"]));
    cb.set_selection(directory_at(&["/", "r", "sub"]));
    cb.set_selection(None);
    assert_eq!(cb.selected(), None);
    assert_eq!(cb.selected_path(), None);
    let mut files_only = fresh().select_files_only(true);
    files_only.set_selection(file_at(&["/", "r", "a.txt"]));
    files_only.set_selection(None);
    assert_eq!(files_only.selected(), None);
    assert_eq!(files_only.selected_path(), None);
}

#[test]
fn a_path_that_does_not_resolve_is_ignored() {
    let mut cb = fresh();
    cb.set_selection(Some(Located::Missing));
    assert_eq!(cb.selected(), None);
    assert_eq!(cb.selected_path(), None);
    cb.set_selection(file_at(&["/", "r", "a.txt"]));
    cb.set_selection(Some(Located::Missing));
    assert_eq!(cb.selected(), Some(&loc(&["/", "r", "a.txt"])));
    assert_eq!(cb.selected_path(), Some(&loc(&["/", "r", "a.txt"])));
}

#[test]
fn what_is_neither_file_nor_directory_is_ignored() {
    let mut cb = fresh();
    cb.set_selection(file_at(&["/", "r", "a.txt"]));
    cb.set_selection(Some(Located::At(loc(&["/", "dev", "null"]), PathKind::Other)));
    assert_eq!(cb.selected(), Some(&loc(&["/", "r", "a.txt"])));
    assert_eq!(cb.selected_path(), Some(&loc(&["/", "r", "a.txt"])));
    let mut files_only = fresh().select_files_only(true);
    files_only.set_selection(Some(Located::At(loc(&["/", "dev", "null"]), PathKind::Other)));
    assert_eq!(files_only.selected(), None);
}

#[test]
fn selection_is_not_held_to_the_filter() {
    let mut cb = DirectoryComboBox::new_from_nodes(roots()).with_filter(|_p: &NodePath| false);
    cb.set_selection(file_at(&["/", "r", "a.txt"]));
    assert_eq!(cb.selected(), Some(&loc(&["/", "r", "a.txt"])));
}

#[test]
fn a_directory_is_expanded_when_the_open_path_lies_in_it() {
    let mut cb = fresh();
    assert!(!cb.is_expanded(&loc(&["/", "r", "sub"])));
    cb.set_selection(file_at(&["/", "r", "sub", "c.txt"]));
    assert!(cb.is_expanded(&loc(&["/", "r", "sub"])));
    assert!(cb.is_expanded(&loc(&["/", "r"])));
    assert!(!cb.is_expanded(&loc(&["/", "r", "other"])));
    cb.set_selection(directory_at(&["/", "r", "sub"]));
    assert!(cb.is_expanded(&loc(&["/", "r", "sub"])));
    assert!(!cb.is_expanded(&loc(&["/", "r", "sub", "c.txt"])));
}

#[test]
fn back_at_the_first_level_closes_everything() {
    let mut cb = fresh();
    cb.set_selection(directory_at(&["/", "r", "sub"]));
    assert_eq!(cb.back(1, PathKind::Directory), None);
    assert_eq!(cb.back(0, PathKind::Directory), None);
    cb.set_selection(file_at(&["/", "r", "sub", "c.txt"]));
    assert_eq!(cb.back(1, PathKind::File), None);
}

#[test]
fn back_from_a_directory_opens_its_parent() {
    let mut cb = fresh();
    cb.set_selection(directory_at(&["/", "r", "sub", "deep"]));
    assert_eq!(cb.back(2, PathKind::Directory), Some(loc(&["/", "r", "sub"])));
    assert_eq!(cb.back(7, PathKind::Directory), Some(loc(&["/", "r", "sub"])));
    cb.set_selection(directory_at(&["/"]));
    assert_eq!(cb.back(2, PathKind::Directory), None);
}

#[test]
fn back_from_a_file_opens_the_parent_of_its_parent() {
    let mut cb = fresh();
    cb.set_selection(file_at(&["/", "r", "sub", "c.txt"]));
    assert_eq!(cb.back(2, PathKind::File), Some(loc(&["/", "r"])));
    cb.set_selection(file_at(&["/", "c.txt"]));
    assert_eq!(cb.back(2, PathKind::File), None);
    cb.set_selection(file_at(&["/", "r", "c.txt"]));
    assert_eq!(cb.back(3, PathKind::File), Some(loc(&["/"])));
}

#[test]
fn back_with_nothing_open_or_something_else_open() {
    let mut cb = fresh();
    assert_eq!(cb.back(2, PathKind::Directory), None);
    assert_eq!(cb.back(1, PathKind::File), None);
    cb.set_selection(directory_at(&["/", "r", "gone"]));
    assert_eq!(cb.back(2, PathKind::Other), Some(loc(&["/", "r", "gone"])));
}

#[test]
fn settle_makes_the_chosen_file_follow_the_open_path() {
    let mut cb = fresh();
    cb.settle(Some(loc(&["/", "r", "sub"])), false);
    assert_eq!(cb.selected_path(), Some(&loc(&["/", "r", "sub"])));
    assert_eq!(cb.selected(), Some(&loc(&["/", "r", "sub"])));
    cb.settle(Some(loc(&["/", "r", "a.txt"])), true);
    assert_eq!(cb.selected_path(), Some(&loc(&["/", "r", "a.txt"])));
    assert_eq!(cb.selected(), Some(&loc(&["/", "r", "a.txt"])));
    cb.settle(None, false);
    assert_eq!(cb.selected_path(), None);
    assert_eq!(cb.selected(), None);
}

#[test]
fn settle_in_files_only_mode_chooses_files_only() {
    let mut cb = fresh().select_files_only(true);
    cb.settle(Some(loc(&["/", "r", "a.txt"])), true);
    assert_eq!(cb.selected(), Some(&loc(&["/", "r", "a.txt"])));
    cb.settle(Some(loc(&["/", "r", "sub"])), false);
    assert_eq!(cb.selected_path(), Some(&loc(&["/", "r", "sub"])));
    assert_eq!(cb.selected(), Some(&loc(&["/", "r", "a.txt"])));
    cb.settle(Some(loc(&["/", "r", "sub", "c.txt"])), true);
    assert_eq!(cb.selected(), Some(&loc(&["/", "r", "sub", "c.txt"])));
    cb.settle(None, false);
    assert_eq!(cb.selected_path(), None);
    assert_eq!(cb.selected(), None);
}

#[test]
fn settle_on_the_path_that_was_open_changes_nothing() {
    let mut cb = fresh();
    cb.set_selection(file_at(&["/", "r", "a.txt"]));
    cb.set_selection(directory_at(&["/", "r", "sub"]));
    cb.settle(Some(loc(&["/", "r", "sub"])), false);
    assert_eq!(cb.selected_path(), Some(&loc(&["/", "r", "sub"])));
    assert_eq!(cb.selected(), Some(&loc(&["/", "r", "a.txt"])));
    let mut empty = fresh();
    empty.settle(None, true);
    assert_eq!(empty.selected_path(), None);
    assert_eq!(empty.selected(), None);
}
