use vstd::prelude::*;

pub mod key;
pub mod laws;
pub mod tree;

pub use key::OrderedKey;
pub use tree::BTree;

verus! {

} // verus!
