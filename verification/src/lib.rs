//! A map from byte strings to byte strings that lives in a growable memory.
//!
//! [`StableBTreeMap`] keeps its entries in a B-tree, whose nodes are stored in chunks of a memory.
//! Everything that the map needs is in the memory, so that the map can be loaded from it again.
//!
//! The modules build on each other:
//!
//! - `codec`, `memory`: integers as bytes, and growable memories,
//! - `order`, `entries`: the order of byte strings, and sorted sequences of entries,
//! - `allocator`: chunks of a memory,
//! - `node`: a node and its layout in a chunk,
//! - `tree`, `rebuild`, `room`, `steps`, `size`: B-trees as mathematical values, how they are
//!   rebuilt, what an insertion splits, what insertions and removals make of them, and how large
//!   they are,
//! - `btree`: the map,
//! - `laws`, `layout`: what holds of maps as a whole, and of the bytes that they are stored in.
pub mod allocator;
pub mod btree;
pub mod codec;
pub mod entries;
pub mod error;
pub mod laws;
pub mod layout;
pub mod memory;
pub mod node;
pub mod order;
pub mod rebuild;
pub mod room;
pub mod size;
pub mod steps;
pub mod tree;

pub use crate::btree::{Range, StableBTreeMap};
pub use crate::error::{LoadError, WriteError};
pub use crate::memory::{Memory64, WASM_PAGE_SIZE};
