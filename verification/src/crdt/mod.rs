//! Explicit merge-aware datatypes for concurrent offline editing.
//!
//! [`List`] is a replicated growable array with observed tombstones. [`Text`]
//! is its Unicode-scalar text facade. Both accept operations in any order,
//! reject operation-ID collisions, and converge after receiving the same valid
//! operation set.

pub mod laws;
pub mod list;
pub mod merge;
pub mod order;
pub mod text;

pub use list::{Actor, Apply, Element, List, ListOp, OpId};
pub use merge::Merge;
pub use text::{Text, TextOp};
