//! A node of a binary tree kept in plain storage, linked by index.

use vstd::prelude::*;

verus! {

/// Index of a node in its storage.
pub type NodeKey = usize;

/// A node: its data, and the nodes it links to.
pub struct Node {
    pub data: u32,
    pub vec: Vec<String>,
    pub parent: Option<NodeKey>,
    pub less: Option<NodeKey>,
    pub greater: Option<NodeKey>,
    pub next: Option<NodeKey>,
}

} // verus!
