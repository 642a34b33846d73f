//! The toolkit-independent core of a nested directory selector.
//!
//! - `path`: paths as sequences of components.
//! - `tree`, `node`: the tree of files and directories, its model, and the
//!   lookups over it; `tree_laws` holds what is proved of the lookups.
//! - `filesystem`, `builder`, `transcript`: building a tree from what the
//!   filesystem answers, one question at a time.
//! - `navigation`: stepping between the files of one sibling list.
//! - `combobox`: the selector itself, with its selection cursor.
//! - `toolkit`: the toolkit's types that the selector carries.

pub mod path;
pub mod tree;
pub mod tree_laws;
pub mod node;
pub mod navigation;
pub mod filesystem;
pub mod builder;
pub mod transcript;
pub mod toolkit;
pub mod combobox;
