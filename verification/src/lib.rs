//! Reshapes what a schema compiler generates, one file for each package,
//! into a tree of modules, and keeps a committed copy of that tree up to
//! date.
//!
//! The library decides and the caller acts: nothing here touches the file
//! system. A run goes through the phases of [`run::Phase`]. The generated
//! files are sorted into a tree by [`module::clean_up_file_structure`],
//! which hands back the steps that put the tree on disk; the text of each
//! file that is moved comes from [`ops::relocated_content`], which makes
//! documentation comments safe with [`sanitize::hide_doctests`]. The
//! generated tree and the committed one are read into a
//! [`diff::Snapshot`] each and compared by [`diff::run_diff`], and
//! [`commit::commit_plan`] says which files replacing the committed tree
//! copies where.
//!
//! Arguments of the command line that hold a key and a value are taken
//! apart by [`kv::parse_ref`].
//!
//! What is stated of all inputs stands beside the functions: in
//! [`lookup`] and [`placement`] of the tree, in [`diff`] and [`commit`] of
//! the comparison, in [`sanitize`] of the text.

pub mod commit;
pub mod diff;
pub mod error;
pub mod kv;
pub mod lookup;
pub mod module;
pub mod ops;
pub mod path;
pub mod placement;
pub mod run;
pub mod sanitize;
pub mod text;
pub mod tree;
pub mod workspace;
