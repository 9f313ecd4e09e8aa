//! An in-memory B-tree map from `i32` keys to values with copy semantics.
//!
//! The tree offers point lookup, insertion with overwrite, and deletion.
//! Every operation is specified against the abstract `Map<i32, V>` view of
//! the tree, and the structural invariants (ordered keys, separation of
//! subtrees, balance, and parallel key/value storage) are captured by
//! well-formedness predicates that the operations preserve.

pub mod laws;
pub mod lookup;
pub mod node;
pub mod node_delete;
pub mod node_insert;
pub mod node_map;
pub mod node_search;
pub mod tree;
