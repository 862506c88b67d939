//! A keyboard-driven directory-tree browser: the tree store, the selection
//! controller and the line-budgeted renderer, without any terminal or
//! filesystem access of their own.
//!
//! - `listing`: what a read of a directory reports, and the canonical order
//!   of a listing.
//! - `arenatree`: the tree as an arena of nodes, loading and collapsing.
//! - `refresh`: merging a new listing into the children of a directory.
//! - `subtree`: what hangs below a node, and how many nodes that is.
//! - `navigate`: the commands that move the selection or open and close
//!   the selected directory.
//! - `viewport`: the lines that are drawn of the tree within a budget.
//! - `visible`: when the selected node is among these lines.
//! - `ui`: the state of the browser, what a key does to it, and a frame of
//!   the screen.
//! - `nodes`: the tree as nested, owned nodes that are reached by location.
//!
//! Whoever uses the library reads the directories and hands the listings
//! in, reads the keys, and draws the frames.

pub mod arenatree;
pub mod listing;
pub mod navigate;
pub mod nodes;
pub mod refresh;
pub mod subtree;
pub mod ui;
pub mod viewport;
pub mod visible;
