//! An ordered map kept in a height-balanced binary search tree, together with
//! a handful of small, self-contained containers and routines.

pub mod combinations;
pub mod combinations_v2;
pub mod conway;
pub mod entries;
pub mod height;
pub mod min_queue;
pub mod node;
pub mod order;
pub mod pstack;
pub mod tree;

pub use node::{Node, NodeRef};
pub use tree::AVLTreeMap;
