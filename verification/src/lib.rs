//! A compressed radix trie from byte strings to small integers, with exact
//! lookup, longest-prefix lookup, the walk over all stored prefixes of a
//! query, and iteration in the order of the keys: the core of a router.
//!
//! - `order`: the order of the keys.
//! - `node`, `insert`, `remove`, `rax`: the trie.
//! - `position`, `stack`, `moves`, `iterator`: the cursor.
//! - `query`: what the queries ask for, over maps and the order.
//! - `radix_tree`: routes as strings, and the queries of a router.
//! - `laws`: what connects the operations.
//! - `error`: errors and status codes.

pub mod error;
pub mod insert;
pub mod iterator;
pub mod laws;
pub mod moves;
pub mod node;
pub mod order;
pub mod position;
pub mod query;
pub mod radix_tree;
pub mod rax;
pub mod remove;
pub mod stack;

pub use error::RaxError;
pub use iterator::RaxIterator;
pub use node::RaxNode;
pub use radix_tree::{RadixIterator, RadixTree};
pub use rax::Rax;
pub use stack::{RaxFrame, RaxStack};
