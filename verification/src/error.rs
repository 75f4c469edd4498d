//! What can go wrong when a map is created, loaded or changed.
use vstd::prelude::*;

verus! {

/// Why a data structure could not be loaded from a memory.
#[derive(Debug)]
pub enum LoadError {
    /// The memory has no pages.
    MemoryEmpty,
    /// The memory does not start with the expected magic.
    BadMagic([u8; 3]),
    /// The layout has another version than the one that is supported.
    UnsupportedVersion(u8),
}

/// Why bytes could not be written to a memory.
#[derive(Debug, PartialEq, Eq)]
pub enum WriteError {
    /// The memory refused to grow from `current` pages by `delta` pages.
    GrowFailed { current: u64, delta: u64 },
    /// The bytes, or the memory itself, do not fit into a 64-bit address space.
    AddressSpaceOverflow,
}

} // verus!
