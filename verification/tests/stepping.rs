use egui_directory_combobox::filesystem::PathKind;
use egui_directory_combobox::combobox::DirectoryComboBox;
use egui_directory_combobox::filesystem::Located;
use egui_directory_combobox::navigation::{navigate_nodes, passes};
use egui_directory_combobox::node::DirectoryNode;
use egui_directory_combobox::path::NodePath;

type Unfiltered = DirectoryComboBox<fn(&NodePath) -> bool>;

fn at(parts: &[&str]) -> NodePath {
    NodePath::new(parts.iter().map(|s| s.to_string()).collect())
}

fn in_dir(name: &str) -> NodePath {
    at(&["/", "d", name])
}

fn file_in_dir(name: &str) -> DirectoryNode {
    DirectoryNode::File(in_dir(name))
}

/// the roots are one directory /d that holds the files `names`
fn one_directory(names: &[&str]) -> Vec<DirectoryNode> {
    vec![DirectoryNode::Directory(
        at(&["/", "d"]),
        names.iter().map(|n| file_in_dir(n)).collect(),
    )]
}

fn choose_file<F>(cb: &mut DirectoryComboBox<F>, p: NodePath) {
    cb.set_selection(Some(Located::At(p, PathKind::File)));
}

fn name_ends_with(p: &NodePath, suffix: &str) -> bool {
    p.components.last().map_or(false, |c| c.ends_with(suffix))
}

#[test]
fn next_goes_through_the_siblings_and_wraps() {
    let mut cb: Unfiltered = DirectoryComboBox::new_from_nodes(one_directory(&["a", "b", "c"]));
    choose_file(&mut cb, in_dir("a"));
    cb.select_next_file();
    assert_eq!(cb.selected(), Some(&in_dir("b")));
    assert_eq!(cb.selected_path(), Some(&in_dir("b")));
    cb.select_next_file();
    assert_eq!(cb.selected(), Some(&in_dir("c")));
    cb.select_next_file();
    assert_eq!(cb.selected(), Some(&in_dir("a")));
    assert_eq!(cb.selected_path(), Some(&in_dir("a")));
}

#[test]
fn previous_from_the_first_wraps_to_the_last() {
    let mut cb: Unfiltered = DirectoryComboBox::new_from_nodes(one_directory(&["a", "b", "c"]));
    choose_file(&mut cb, in_dir("a"));
    cb.select_previous_file();
    assert_eq!(cb.selected(), Some(&in_dir("c")));
    assert_eq!(cb.selected_path(), Some(&in_dir("c")));
    cb.select_previous_file();
    assert_eq!(cb.selected(), Some(&in_dir("b")));
    cb.select_previous_file();
    assert_eq!(cb.selected(), Some(&in_dir("a")));
}

#[test]
fn next_skips_what_the_filter_rejects() {
    let mut cb = DirectoryComboBox::new_from_nodes(one_directory(&["a", "b", "c"]))
        .with_filter(|p: &NodePath| !name_ends_with(p, "b"));
    choose_file(&mut cb, in_dir("a"));
    cb.select_next_file();
    assert_eq!(cb.selected(), Some(&in_dir("c")));
    cb.select_next_file();
    assert_eq!(cb.selected(), Some(&in_dir("a")));
    cb.select_previous_file();
    assert_eq!(cb.selected(), Some(&in_dir("c")));
}

#[test]
fn next_then_previous_comes_back() {
    for start in ["a", "b", "c", "d"] {
        let mut cb: Unfiltered =
            DirectoryComboBox::new_from_nodes(one_directory(&["a", "b", "c", "d"]));
        choose_file(&mut cb, in_dir(start));
        cb.select_next_file();
        assert_ne!(cb.selected(), Some(&in_dir(start)));
        cb.select_previous_file();
        assert_eq!(cb.selected(), Some(&in_dir(start)));
        assert_eq!(cb.selected_path(), Some(&in_dir(start)));
        cb.select_previous_file();
        cb.select_next_file();
        assert_eq!(cb.selected(), Some(&in_dir(start)));
    }
}

#[test]
fn next_then_previous_comes_back_under_a_filter() {
    for start in ["a.txt", "c.txt", "e.txt"] {
        let mut cb = DirectoryComboBox::new_from_nodes(one_directory(&[
            "a.txt", "b.bin", "c.txt", "d.bin", "e.txt",
        ]))
        .with_filter(|p: &NodePath| name_ends_with(p, ".txt"));
        choose_file(&mut cb, in_dir(start));
        cb.select_next_file();
        cb.select_previous_file();
        assert_eq!(cb.selected(), Some(&in_dir(start)));
    }
}

#[test]
fn with_one_eligible_file_both_steps_stay() {
    let mut cb = DirectoryComboBox::new_from_nodes(one_directory(&["a.bin", "b.txt", "c.bin"]))
        .with_filter(|p: &NodePath| name_ends_with(p, ".txt"));
    choose_file(&mut cb, in_dir("b.txt"));
    cb.select_next_file();
    assert_eq!(cb.selected(), Some(&in_dir("b.txt")));
    cb.select_previous_file();
    assert_eq!(cb.selected(), Some(&in_dir("b.txt")));

    let mut single: Unfiltered = DirectoryComboBox::new_from_nodes(one_directory(&["only"]));
    choose_file(&mut single, in_dir("only"));
    single.select_next_file();
    assert_eq!(single.selected(), Some(&in_dir("only")));
    single.select_previous_file();
    assert_eq!(single.selected(), Some(&in_dir("only")));
}

#[test]
fn stepping_without_a_chosen_file_does_nothing() {
    let mut cb: Unfiltered = DirectoryComboBox::new_from_nodes(one_directory(&["a", "b"]));
    cb.select_next_file();
    assert_eq!(cb.selected(), None);
    assert_eq!(cb.selected_path(), None);
    cb.select_previous_file();
    assert_eq!(cb.selected(), None);
    cb.set_selection(Some(Located::At(at(&["/", "d"]), PathKind::Directory)));
    cb.select_next_file();
    assert_eq!(cb.selected(), None);
    assert_eq!(cb.selected_path(), Some(&at(&["/", "d"])));
}

#[test]
fn stepping_when_the_filter_rejects_everything_does_nothing() {
    let mut cb = DirectoryComboBox::new_from_nodes(one_directory(&["a", "b", "c"]))
        .with_filter(|_p: &NodePath| false);
    choose_file(&mut cb, in_dir("b"));
    cb.select_next_file();
    assert_eq!(cb.selected(), Some(&in_dir("b")));
    cb.select_previous_file();
    assert_eq!(cb.selected(), Some(&in_dir("b")));
    assert_eq!(cb.selected_path(), Some(&in_dir("b")));
}

#[test]
fn stepping_from_a_rejected_file_lands_on_an_eligible_one() {
    let mut cb = DirectoryComboBox::new_from_nodes(one_directory(&["a", "b", "c"]))
        .with_filter(|p: &NodePath| !name_ends_with(p, "b"));
    choose_file(&mut cb, in_dir("b"));
    assert_eq!(cb.selected(), Some(&in_dir("b")));
    cb.select_next_file();
    assert_eq!(cb.selected(), Some(&in_dir("c")));
    choose_file(&mut cb, in_dir("b"));
    cb.select_previous_file();
    assert_eq!(cb.selected(), Some(&in_dir("a")));
}

#[test]
fn wrapping_lands_on_the_first_eligible_file() {
    let mut cb = DirectoryComboBox::new_from_nodes(one_directory(&["a", "b", "c"]))
        .with_filter(|p: &NodePath| !name_ends_with(p, "a"));
    choose_file(&mut cb, in_dir("c"));
    cb.select_next_file();
    assert_eq!(cb.selected(), Some(&in_dir("b")));
    cb.select_previous_file();
    assert_eq!(cb.selected(), Some(&in_dir("c")));
}

#[test]
fn stepping_from_a_file_that_the_tree_does_not_hold_does_nothing() {
    let mut cb: Unfiltered = DirectoryComboBox::new_from_nodes(one_directory(&["a", "b"]));
    choose_file(&mut cb, in_dir("zzz"));
    cb.select_next_file();
    assert_eq!(cb.selected(), Some(&in_dir("zzz")));
    choose_file(&mut cb, at(&["/", "elsewhere", "a"]));
    cb.select_previous_file();
    assert_eq!(cb.selected(), Some(&at(&["/", "elsewhere", "a"])));
}

#[test]
fn stepping_passes_over_directories() {
    let roots = vec![DirectoryNode::Directory(
        at(&["/", "d"]),
        vec![
            file_in_dir("a"),
            DirectoryNode::Directory(in_dir("sub"), vec![DirectoryNode::File(at(&["/", "d", "sub", "x"]))]),
            file_in_dir("b"),
        ],
    )];
    let mut cb: Unfiltered = DirectoryComboBox::new_from_nodes(roots);
    choose_file(&mut cb, in_dir("a"));
    cb.select_next_file();
    assert_eq!(cb.selected(), Some(&in_dir("b")));
    cb.select_next_file();
    assert_eq!(cb.selected(), Some(&in_dir("a")));
}

#[test]
fn stepping_stays_in_the_directory_of_the_chosen_file() {
    let roots = vec![DirectoryNode::Directory(
        at(&["/", "d"]),
        vec![
            file_in_dir("a"),
            DirectoryNode::Directory(
                in_dir("sub"),
                vec![
                    DirectoryNode::File(at(&["/", "d", "sub", "x"])),
                    DirectoryNode::File(at(&["/", "d", "sub", "y"])),
                ],
            ),
            file_in_dir("b"),
        ],
    )];
    let mut cb: Unfiltered = DirectoryComboBox::new_from_nodes(roots);
    choose_file(&mut cb, at(&["/", "d", "sub", "y"]));
    cb.select_next_file();
    assert_eq!(cb.selected(), Some(&at(&["/", "d", "sub", "x"])));
    cb.select_next_file();
    assert_eq!(cb.selected(), Some(&at(&["/", "d", "sub", "y"])));
    cb.select_previous_file();
    assert_eq!(cb.selected(), Some(&at(&["/", "d", "sub", "x"])));
}

#[test]
fn stepping_among_the_roots() {
    let roots = vec![
        DirectoryNode::File(at(&["/", "r", "one"])),
        DirectoryNode::Directory(at(&["/", "r", "dir"]), vec![]),
        DirectoryNode::File(at(&["/", "r", "two"])),
    ];
    let mut cb: Unfiltered = DirectoryComboBox::new_from_nodes(roots);
    choose_file(&mut cb, at(&["/", "r", "two"]));
    cb.select_next_file();
    assert_eq!(cb.selected(), Some(&at(&["/", "r", "one"])));
    cb.select_previous_file();
    assert_eq!(cb.selected(), Some(&at(&["/", "r", "two"])));
    cb.navigate_folder(false);
    assert_eq!(cb.selected(), Some(&at(&["/", "r", "one"])));
}

#[test]
fn navigate_nodes_gives_the_landing_place() {
    let nodes = vec![file_in_dir("a"), file_in_dir("b"), file_in_dir("c")];
    let none: Option<fn(&NodePath) -> bool> = None;
    assert_eq!(navigate_nodes(&nodes, true, &none, &in_dir("b")), Some(&in_dir("c")));
    assert_eq!(navigate_nodes(&nodes, false, &none, &in_dir("b")), Some(&in_dir("a")));
    assert_eq!(navigate_nodes(&nodes, true, &none, &in_dir("c")), Some(&in_dir("a")));
    assert_eq!(navigate_nodes(&nodes, false, &none, &in_dir("a")), Some(&in_dir("c")));
    assert_eq!(navigate_nodes(&nodes, true, &none, &in_dir("x")), None);
    let empty: Vec<DirectoryNode> = Vec::new();
    assert_eq!(navigate_nodes(&empty, true, &none, &in_dir("a")), None);
    let no_b = Some(|p: &NodePath| !name_ends_with(p, "b"));
    assert_eq!(navigate_nodes(&nodes, true, &no_b, &in_dir("a")), Some(&in_dir("c")));
    assert_eq!(navigate_nodes(&nodes, false, &no_b, &in_dir("c")), Some(&in_dir("a")));
}

#[test]
fn navigate_nodes_with_a_path_that_occurs_twice() {
    let nodes = vec![file_in_dir("a"), file_in_dir("b"), file_in_dir("a"), file_in_dir("c")];
    let none: Option<fn(&NodePath) -> bool> = None;
    assert_eq!(navigate_nodes(&nodes, true, &none, &in_dir("a")), Some(&in_dir("b")));
    assert_eq!(navigate_nodes(&nodes, false, &none, &in_dir("a")), Some(&in_dir("b")));
    assert_eq!(navigate_nodes(&nodes, true, &none, &in_dir("c")), Some(&in_dir("a")));
}

#[test]
fn passes_asks_the_filter() {
    let none: Option<fn(&NodePath) -> bool> = None;
    assert!(passes(&none, &in_dir("a")));
    let txt = Some(|p: &NodePath| name_ends_with(p, ".txt"));
    assert!(passes(&txt, &in_dir("a.txt")));
    assert!(!passes(&txt, &in_dir("a.bin")));
}
