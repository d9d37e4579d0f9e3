//! Building blocks for graphs made out of structs: keys that identify items,
//! containers that store them, collections that keep references between
//! them consistent, and orders in which a graph of items can be visited.

pub mod key;
pub mod types;
pub mod allocator;
pub mod error;
pub mod collection;
pub mod mini_alloc;
pub mod container;
pub mod bits;
pub mod table;
pub mod order;
pub mod radix;
pub mod visit;
pub mod isolate;
pub mod permit;
pub mod edge;
pub mod entity;
pub mod any_ref;
pub mod process;
pub mod coders;
pub mod binary_tree;
pub mod any;
pub mod graph_item;
pub mod inline_shell;
