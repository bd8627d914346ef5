//! Tree differencing and three-way merging over a content-addressed object store.
//!
//! Directory trees are immutable listings of named values (files, symlinks,
//! sub-trees and conflict references).  The crate walks them, compares them
//! and merges them, and every public function carries a contract over the
//! mathematical model of the data it touches.
//!
//! The data: paths, values, listings, stored trees, conflicts, the store and
//! the view of a tree.  The collaborators: matchers of paths and mergers of
//! file contents.  The algorithms: the paired walk of two listings, the walk
//! over the entries of a tree, the walk over the differences between two
//! trees, the simplification of conflicts and the merge of trees.  The laws
//! that hold of them stand beside them, or in modules of their own where
//! they are long.

pub mod repo_path;
pub mod values;
pub mod seqs;
pub mod listing;
pub mod stored_tree;
pub mod conflict;
pub mod store;
pub mod tree;

pub mod matchers;
pub mod files;

pub mod walk;
pub mod paired;
pub mod entries;
pub mod entries_order;
pub mod entries_reach;
pub mod diff;
pub mod diff_order;
pub mod diff_symmetry;
pub mod diff_reach;
pub mod summary;
pub mod simplify;
pub mod merge;
pub mod merge_by_name;
pub mod bounds;
