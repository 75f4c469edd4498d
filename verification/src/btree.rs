//! A map from keys to values, kept as a B-tree in a memory.
use crate::allocator::{
    chunk_at, lemma_write_in_place, Allocator, ALLOCATOR_HEADER_SIZE, CHUNK_HEADER_SIZE,
};
use crate::codec::{get_u32, get_u64, le_value, u32_bytes, u64_bytes};
use crate::entries::{
    del, find, lemma_del, lemma_find, lemma_gap_operations, lemma_put, lookup, map_of, put, sorted,
};
pub use crate::error::{LoadError, WriteError};
use crate::memory::{
    has_place, missing_pages, overwritten, same_bounds, usable, write_result, Memory64, WASM_PAGE_SIZE,
};
use crate::node::{
    copy_of, decode, entry_fits, lemma_node_at_same, node_at, InternalNode, Key, LeafNode, Node,
    Ptr, Value, B, CAPACITY, LAYOUT_VERSION, MAX_KEY_SIZE, MAX_VALUE_SIZE, NODE_SIZE, NULL,
};
use crate::order::{
    gap_at, lemma_gap_is, lemma_index_is, lemma_total, lemma_transitive, place, search, Place,
};
use crate::rebuild::{
    lemma_collapse, lemma_merge, lemma_merged_child, lemma_neighbours_apart, lemma_new_root,
    lemma_root_stored, lemma_rotate_left, lemma_rotate_right, lemma_rotated_left,
    lemma_rotated_right, lemma_same_kind, lemma_split, sound_below,
};
use crate::room::{
    chunks_needed, is_full, lemma_room_below, lemma_room_found, lemma_room_needed,
    lemma_splits_leaf, lemma_splits_left, lemma_splits_new_root, made_room, splits,
};
use crate::size::{addresses, lemma_addresses, lemma_moved_nodes, nodes, nodes_of};
use crate::steps::{
    grows_to, lemma_inserted_below, lemma_inserted_found, lemma_inserted_leaf, lemma_not_raised,
    lemma_planted, lemma_raised, lemma_shrunk_root, lowered, merged_node, opened_by, raised, shrunk,
    tree_after_remove, tree_grows_to,
};
use crate::tree::{
    count, counts, distinct, entries, height, lemma_child_count, lemma_child_distinct,
    lemma_child_sorted, lemma_descend, lemma_first_entry, lemma_key_absent, lemma_key_below,
    lemma_key_found, lemma_keys_around, lemma_keys_ascending, lemma_last_entry, lemma_leaf_empty,
    lemma_leaf_insert, lemma_leaf_remove, lemma_moved_transitive, lemma_overwrite,
    lemma_replace_by_predecessor, lemma_replace_by_successor, lemma_rewrite, lemma_shape_rekeyed,
    lemma_stored_unique, lemma_unmoved, moved, seps, shape, sound, stored, subs, tops, Heap, Tree,
};
use vstd::prelude::*;

verus! {

/// The number of bytes of the header of a map.
pub const BTREE_HEADER_SIZE: u64 = 20;

/// The number of bytes in the chunks that nodes are stored in.
pub const ALLOCATION_SIZE: u64 = 4096;

/// A map in a memory. Keys and values are sequences of bytes.
///
/// The memory starts with the header of the map. The header of an allocator follows, and then
/// the chunks of the allocator, one for each node of a B-tree.
pub struct StableBTreeMap<M: Memory64> {
    memory: M,
    root_offset: Ptr,
    allocator: Allocator,
    max_key_size: u32,
    max_value_size: u32,
    heap: Ghost<Heap>,
    tree: Ghost<Option<Tree>>,
}

/// A range of entries.
pub struct Range;

/// The bytes of an optional value.
pub open spec fn bytes_of(value: Option<Value>) -> Option<Seq<u8>> {
    match value {
        Some(bytes) => Some(bytes@),
        None => None,
    }
}

/// The bytes that a map starts with: `BTR`.
pub open spec fn btree_magic() -> Seq<u8> {
    seq![66u8, 84u8, 82u8]
}

/// Whether `bytes` start with the header of a map with these fields.
pub open spec fn header_in(
    bytes: Seq<u8>,
    root_offset: Ptr,
    max_key_size: u32,
    max_value_size: u32,
) -> bool {
    &&& bytes.len() >= BTREE_HEADER_SIZE
    &&& bytes.take(3) == btree_magic()
    &&& bytes[3] == LAYOUT_VERSION
    &&& le_value(bytes.subrange(4, 12)) == root_offset
    &&& le_value(bytes.subrange(12, 16)) == max_key_size
    &&& le_value(bytes.subrange(16, 20)) == max_value_size
}

/// The allocator whose header follows that of the map.
pub open spec fn allocator_in(bytes: Seq<u8>) -> Option<Allocator> {
    Allocator::header_in(
        bytes.subrange(
            BTREE_HEADER_SIZE as int,
            BTREE_HEADER_SIZE + ALLOCATOR_HEADER_SIZE,
        ),
        BTREE_HEADER_SIZE,
    )
}

/// Whether `bytes` have the header of an allocator if they have that of a map.
pub open spec fn loadable(bytes: Seq<u8>) -> bool {
    bytes.len() >= WASM_PAGE_SIZE && bytes.take(3) == btree_magic() && bytes[3]
        == LAYOUT_VERSION ==> Allocator::is_header(
        bytes.subrange(
            BTREE_HEADER_SIZE as int,
            BTREE_HEADER_SIZE + ALLOCATOR_HEADER_SIZE,
        ),
    )
}

/// Whether the chunks that are allocated in `bytes` hold the nodes in `heap`.
spec fn heap_in(bytes: Seq<u8>, allocator: Allocator, heap: Heap) -> bool {
    &&& allocator.spec_header_address() == BTREE_HEADER_SIZE
    &&& allocator.spec_allocation_size() == ALLOCATION_SIZE
    &&& allocator.wf(bytes, heap.dom())
    &&& forall|a: Ptr| #[trigger] heap.contains_key(a) ==> node_at(bytes, a) == heap[a]
}

/// Whether the nodes in `heap` form the B-tree `tree`, with its root at `root`.
spec fn tree_in(heap: Heap, root: Ptr, tree: Option<Tree>) -> bool {
    match tree {
        None => {
            &&& root == NULL
            &&& forall|a: Ptr| !#[trigger] heap.contains_key(a)
        },
        Some(t) => {
            &&& root == t.addr
            &&& sound(heap, t)
            &&& shape(t)
            &&& t.keys.len() > 0
            &&& sorted(entries(t))
            &&& forall|a: Ptr| #[trigger] heap.contains_key(a) <==> count(t, a) > 0
        },
    }
}

/// The map that a tree stands for.
spec fn map_in(tree: Option<Tree>) -> Map<Seq<u8>, Seq<u8>> {
    match tree {
        None => Map::empty(),
        Some(t) => map_of(entries(t)),
    }
}

/// Whether the nodes in `bytes` are `heap`, and form the tree `tree`.
spec fn stores_as(bytes: Seq<u8>, heap: Heap, tree: Option<Tree>) -> bool {
    &&& exists|root_offset: Ptr, max_key_size: u32, max_value_size: u32|
        {
            &&& #[trigger] header_in(bytes, root_offset, max_key_size, max_value_size)
            &&& tree_in(heap, root_offset, tree)
        }
    &&& allocator_in(bytes) matches Some(allocator) && heap_in(bytes, allocator, heap)
}

/// Whether `bytes` hold the map `m`.
pub closed spec fn stores(bytes: Seq<u8>, m: Map<Seq<u8>, Seq<u8>>) -> bool {
    exists|heap: Heap, tree: Option<Tree>| #[trigger]
        stores_as(bytes, heap, tree) && map_in(tree) == m
}

/// Whether every node of a tree is stored in `bytes`.
pub open spec fn laid_out(bytes: Seq<u8>, t: Tree) -> bool
    decreases t,
{
    &&& node_at(bytes, t.addr) == Some(t.node())
    &&& forall|i: int| 0 <= i < t.children.len() ==> laid_out(bytes, #[trigger] t.children[i])
}

impl<M: Memory64> View for StableBTreeMap<M> {
    type V = Map<Seq<u8>, Seq<u8>>;

    closed spec fn view(&self) -> Map<Seq<u8>, Seq<u8>> {
        map_in(self.tree@)
    }
}

impl<M: Memory64> StableBTreeMap<M> {
    /// The bytes of the memory.
    pub closed spec fn bytes(&self) -> Seq<u8> {
        self.memory.bytes()
    }

    /// The address of the root of the tree.
    pub closed spec fn spec_root_offset(&self) -> Ptr {
        self.root_offset
    }

    /// The allocator of the chunks that the nodes are stored in.
    pub closed spec fn spec_allocator(&self) -> Allocator {
        self.allocator
    }

    /// The limit on the size of keys that the map was made with.
    pub closed spec fn spec_max_key_size(&self) -> u32 {
        self.max_key_size
    }

    /// The limit on the size of values that the map was made with.
    pub closed spec fn spec_max_value_size(&self) -> u32 {
        self.max_value_size
    }

    /// The tree that the map forms in memory.
    pub closed spec fn spec_tree(&self) -> Option<Tree> {
        self.tree@
    }

    /// The number of levels of the tree below its root.
    pub open spec fn spec_height(&self) -> nat {
        match self.spec_tree() {
            None => 0,
            Some(t) => height(t),
        }
    }

    /// Whether the memory holds a map, and this is it.
    pub closed spec fn wf(&self) -> bool {
        &&& self.holds()
        &&& self.saved()
        &&& tree_in(self.heap@, self.root_offset, self.tree@)
    }

    /// Whether the maps were made with the same limits.
    pub open spec fn same_limits(&self, other: Self) -> bool {
        &&& self.spec_max_key_size() == other.spec_max_key_size()
        &&& self.spec_max_value_size() == other.spec_max_value_size()
    }

    /// Whether the memory can be made to have `len` bytes.
    pub closed spec fn may_grow_to(&self, len: nat) -> bool {
        self.memory.may_grow_to(len)
    }

    /// Whether the memories of two maps can grow to the same sizes.
    pub open spec fn same_bounds(&self, other: Self) -> bool {
        forall|len: nat| #[trigger] other.may_grow_to(len) == self.may_grow_to(len)
    }

    /// Whether the memory can be made large enough for `num` chunks.
    pub open spec fn obtains(&self, num: int) -> bool {
        let len = self.bytes().len();
        let size = self.spec_allocator().size_with(len, num);
        &&& !self.spec_allocator().overflows(num)
        &&& size == len || self.may_grow_to(size as nat)
    }

    /// Whether the memory can be made large enough for each of `chunks` more chunks.
    pub open spec fn obtains_all(&self, chunks: nat) -> bool {
        let num = self.spec_allocator().num_allocations();
        forall|n: int| num < n <= num + chunks ==> #[trigger] self.obtains(n)
    }

    /// Whether `reached` is the number of chunks up to which the memory can be made large enough,
    /// but not for one more.
    pub open spec fn obtains_only(&self, reached: int) -> bool {
        let num = self.spec_allocator().num_allocations();
        &&& num <= reached
        &&& forall|n: int| num < n <= reached ==> #[trigger] self.obtains(n)
        &&& !self.obtains(reached + 1)
    }

    /// The number of chunks that stay allocated by an insertion that fails after `reached` chunks.
    /// A new root is given back if the old one cannot be split.
    pub open spec fn kept_of(&self, reached: int) -> int {
        let num = self.spec_allocator().num_allocations();
        if self.spec_tree() matches Some(t) && is_full(t) && reached == num + 1 {
            num as int
        } else {
            reached
        }
    }

    /// Whether `chunks` more chunks can be allocated before the memory has to grow.
    pub open spec fn has_room(&self, chunks: nat) -> bool {
        self.spec_allocator().num_allocations() + chunks <= self.spec_allocator().capacity(
            self.bytes(),
        )
    }

    /// Whether `error` is that of a memory which has no room for more than `num` chunks, and which
    /// refuses to grow for one more.
    pub open spec fn full(&self, error: WriteError, num: int) -> bool {
        &&& num >= self.spec_allocator().capacity(self.bytes())
        &&& error == self.spec_allocator().growth_error(self.bytes(), num)
    }

    /// Makes an empty map in `memory`.
    pub fn new(memory: M, max_key_size: u32, max_value_size: u32) -> (result: Result<
        Self,
        WriteError,
    >)
        ensures
            ({
                let pages = memory.bytes().len() as int / WASM_PAGE_SIZE as int;
                match missing_pages(
                    pages,
                    BTREE_HEADER_SIZE + ALLOCATOR_HEADER_SIZE,
                    CHUNK_HEADER_SIZE as int,
                ) {
                    None => result == Err::<Self, WriteError>(WriteError::AddressSpaceOverflow),
                    Some(delta) => match result {
                        Ok(map) => map.bytes().len() == memory.bytes().len() + delta
                            * WASM_PAGE_SIZE,
                        Err(error) => delta != 0 && error == (WriteError::GrowFailed {
                            current: pages as u64,
                            delta: delta as u64,
                        }),
                    },
                }
            }),
            result is Ok <==> has_place(
                memory,
                BTREE_HEADER_SIZE + ALLOCATOR_HEADER_SIZE,
                CHUNK_HEADER_SIZE as int,
            ),
            result matches Ok(map) ==> forall|len: nat| #[trigger]
                memory.may_grow_to(len) == map.may_grow_to(len),
            result matches Ok(map) ==> {
                &&& map.wf()
                &&& map@ == Map::<Seq<u8>, Seq<u8>>::empty()
                &&& map.spec_root_offset() == NULL
                &&& map.spec_tree() is None
                &&& map.spec_allocator().num_allocations() == 0
                &&& map.spec_max_key_size() == max_key_size
                &&& map.spec_max_value_size() == max_value_size
            },
    {
        let mut memory = memory;
        let allocator = match Allocator::new(&mut memory, ALLOCATION_SIZE, BTREE_HEADER_SIZE) {
            Ok(allocator) => allocator,
            Err(error) => {
                return Err(error);
            },
        };
        let mut btree = StableBTreeMap {
            memory,
            root_offset: NULL,
            allocator,
            max_key_size,
            max_value_size,
            heap: Ghost(Map::empty()),
            tree: Ghost(None),
        };
        proof {
            assert(btree.heap@.dom() =~= Set::empty());
        }
        match btree.save() {
            Ok(()) => Ok(btree),
            Err(error) => Err(error),
        }
    }

    /// Loads the map in `memory`.
    pub fn load(memory: M) -> (result: Result<Self, LoadError>)
        requires
            loadable(memory.bytes()),
        ensures
            ({
                let bytes = memory.bytes();
                match result {
                    Err(LoadError::MemoryEmpty) => bytes.len() < WASM_PAGE_SIZE,
                    Err(LoadError::BadMagic(magic)) => {
                        &&& bytes.len() >= WASM_PAGE_SIZE
                        &&& magic@ == bytes.take(3)
                        &&& magic@ != btree_magic()
                    },
                    Err(LoadError::UnsupportedVersion(version)) => {
                        &&& bytes.len() >= WASM_PAGE_SIZE
                        &&& bytes.take(3) == btree_magic()
                        &&& version == bytes[3]
                        &&& version != LAYOUT_VERSION
                    },
                    Ok(map) => {
                        &&& bytes.len() >= WASM_PAGE_SIZE
                        &&& map.bytes() == bytes
                        &&& header_in(
                            bytes,
                            map.spec_root_offset(),
                            map.spec_max_key_size(),
                            map.spec_max_value_size(),
                        )
                        &&& allocator_in(bytes) == Some(map.spec_allocator())
                        &&& forall|len: nat| #[trigger]
                            memory.may_grow_to(len) == map.may_grow_to(len)
                        &&& forall|m: Map<Seq<u8>, Seq<u8>>| #[trigger]
                            stores(bytes, m) ==> map.wf() && map@ == m
                    },
                }
            }),
    {
        let ghost bytes = memory.bytes();
        if memory.size() == 0 {
            return Err(LoadError::MemoryEmpty);
        }
        let mut header: [u8; 20] = [0;20];
        memory.read(0, &mut header);
        proof {
            assert(header@ == bytes.subrange(0, 20));
            assert(header@.take(3) =~= bytes.take(3));
        }
        if header[0] != 66 || header[1] != 84 || header[2] != 82 {
            let magic: [u8; 3] = [header[0], header[1], header[2]];
            assert(magic@ =~= bytes.take(3));
            assert(magic@ != btree_magic()) by {
                assert(btree_magic()[0] == 66 && btree_magic()[1] == 84 && btree_magic()[2] == 82);
            }
            return Err(LoadError::BadMagic(magic));
        }
        assert(bytes.take(3) =~= btree_magic());
        if header[3] != LAYOUT_VERSION {
            return Err(LoadError::UnsupportedVersion(header[3]));
        }
        let allocator = match Allocator::load(&memory, BTREE_HEADER_SIZE) {
            Ok(allocator) => allocator,
            Err(error) => {
                return Err(error);
            },
        };
        let root_offset: Ptr = get_u64(&header, 4);
        let max_key_size: u32 = get_u32(&header, 12);
        let max_value_size: u32 = get_u32(&header, 16);
        proof {
            assert(header@.subrange(4, 12) =~= bytes.subrange(4, 12));
            assert(header@.subrange(12, 16) =~= bytes.subrange(12, 16));
            assert(header@.subrange(16, 20) =~= bytes.subrange(16, 20));
        }
        let ghost (heap, tree) = choose|heap: Heap, tree: Option<Tree>|
            stores_as(bytes, heap, tree);
        let map = StableBTreeMap {
            memory,
            root_offset,
            allocator,
            max_key_size,
            max_value_size,
            heap: Ghost(heap),
            tree: Ghost(tree),
        };
        proof {
            assert forall|m: Map<Seq<u8>, Seq<u8>>| #[trigger] stores(bytes, m) implies map.wf()
                && map@ == m by {
                let (heap2, tree2) = choose|heap2: Heap, tree2: Option<Tree>|
                    stores_as(bytes, heap2, tree2) && map_in(tree2) == m;
                assert(stores_as(bytes, heap, tree));
                lemma_stores_unique(bytes, heap, tree, heap2, tree2);
            }
        }
        Ok(map)
    }

    /// Sets the value of `key`, and returns the value that it had before. If the memory has to
    /// grow for it, and refuses to, the map stays as it was.
    pub fn insert(&mut self, key: Key, value: Value) -> (result: Result<Option<Value>, WriteError>)
        requires
            old(self).wf(),
            key@.len() <= MAX_KEY_SIZE,
            value@.len() <= MAX_VALUE_SIZE,
        ensures
            final(self).wf(),
            final(self).same_limits(*old(self)),
            final(self).same_bounds(*old(self)),
            result is Ok <==> old(self).obtains_all(
                chunks_needed(old(self).spec_tree(), key@),
            ),
            old(self).has_room(chunks_needed(old(self).spec_tree(), key@)) ==> result is Ok
                && final(self).bytes().len() == old(self).bytes().len(),
            ({
                let allocator = old(self).spec_allocator();
                let num = allocator.num_allocations();
                let num2 = final(self).spec_allocator().num_allocations();
                let needed = chunks_needed(old(self).spec_tree(), key@);
                &&& allocator.overflows(num + needed) ==> result is Err
                &&& match result {
                    Ok(previous) => {
                        &&& bytes_of(previous) == lookup(old(self)@, key@)
                        &&& previous is Some <==> old(self)@.contains_key(key@)
                        &&& previous matches Some(bytes) ==> bytes@ == old(self)@[key@]
                        &&& final(self)@ == old(self)@.insert(key@, value@)
                        &&& tree_grows_to(
                            old(self).spec_tree(),
                            key@,
                            value@,
                            final(self).spec_tree(),
                        )
                        &&& num2 == num + needed
                        &&& final(self).bytes().len() == allocator.size_with(
                            old(self).bytes().len(),
                            num + needed,
                        )
                    },
                    Err(error) => {
                        &&& final(self)@ == old(self)@
                        &&& num <= num2 < num + needed
                        &&& exists|reached: int|
                            {
                                &&& old(self).obtains_only(reached)
                                &&& num2 == old(self).kept_of(reached)
                                &&& num2 <= reached <= num2 + 1
                                &&& reached < num + needed
                                &&& #[trigger] final(self).full(error, reached)
                                &&& final(self).bytes().len() == allocator.size_with(
                                    old(self).bytes().len(),
                                    reached,
                                )
                            }
                    },
                }
            }),
    {
        let result = self.insert_entry(key, value);
        let ghost entered = *self;
        match &result {
            Ok(_) => {},
            Err(_) => {
                let _ = self.save();
            },
        }
        proof {
            self.allocator.lemma_first(self.memory.bytes(), self.heap@.dom());
            if result is Err {
                let reached = choose|reached: int|
                    reached < old(self).allocator.num_allocations() + chunks_needed(
                        old(self).tree@,
                        key@,
                    ) && #[trigger] old(self).ran_out(entered, result->Err_0, reached);
                assert(self.full(result->Err_0, reached));
            }
        }
        result
    }

    /// The value of `key`, if the map holds it.
    pub fn get(&self, key: &Key) -> (value: Option<Value>)
        requires
            self.wf(),
        ensures
            bytes_of(value) == lookup(self@, key@),
            value is Some <==> self@.contains_key(key@),
            value matches Some(bytes) ==> bytes@ == self@[key@],
    {
        if self.root_offset == NULL {
            proof {
                self.lemma_no_root();
            }
            return None;
        }
        let ghost t = self.tree@->0;
        proof {
            lemma_find(entries(t), key@);
        }
        self.get_helper(self.root_offset, key, Ghost(t))
    }

    /// Removes `key`, and returns its value. No memory is needed for it.
    pub fn remove(&mut self, key: &Key) -> (value: Option<Value>)
        requires
            old(self).wf(),
        ensures
            final(self).wf(),
            final(self).same_limits(*old(self)),
            final(self).same_bounds(*old(self)),
            final(self).bytes().len() == old(self).bytes().len(),
            bytes_of(value) == lookup(old(self)@, key@),
            value is Some <==> old(self)@.contains_key(key@),
            value matches Some(bytes) ==> bytes@ == old(self)@[key@],
            final(self)@ == old(self)@.remove(key@),
            final(self).spec_tree() == tree_after_remove(old(self).spec_tree(), key@),
            final(self).spec_allocator().num_allocations() == nodes_of(final(self).spec_tree()),
    {
        proof {
            self.lemma_no_root();
        }
        if self.root_offset == NULL {
            proof {
                self.lemma_layout();
            }
            assert(self@.remove(key@) =~= self@);
            return None;
        }
        let ghost t = self.tree@->0;
        let (value, Ghost(left)) = self.remove_helper(self.root_offset, key, Ghost(t));
        self.tree = Ghost(left);
        proof {
            lemma_find(entries(t), key@);
            lemma_del(entries(t), key@);
            if left is None {
                assert(map_of(del(entries(t), key@)) =~= Map::empty());
            }
        }
        let _ = self.save();
        proof {
            self.lemma_layout();
        }
        value
    }

    /// Two maps with the same memory are the same map, down to the nodes of the tree.
    pub proof fn lemma_same_memory(&self, other: &Self)
        requires
            self.wf(),
            other.wf(),
            self.bytes() == other.bytes(),
        ensures
            self@ == other@,
            self.spec_tree() == other.spec_tree(),
            self.spec_root_offset() == other.spec_root_offset(),
            self.spec_allocator() == other.spec_allocator(),
            self.same_limits(*other),
    {
        self.lemma_persistent();
        other.lemma_persistent();
        let bytes = self.memory.bytes();
        assert(stores_as(bytes, self.heap@, self.tree@));
        assert(stores_as(bytes, other.heap@, other.tree@));
        lemma_stores_unique(bytes, self.heap@, self.tree@, other.heap@, other.tree@);
    }

    /// The memory that the map is kept in.
    pub fn memory(&self) -> (memory: &M)
        ensures
            memory.bytes() == self.bytes(),
            forall|len: nat| #[trigger] memory.may_grow_to(len) == self.may_grow_to(len),
    {
        &self.memory
    }

    /// Gives back the memory that the map is kept in.
    pub fn into_memory(self) -> (memory: M)
        ensures
            memory.bytes() == self.bytes(),
            forall|len: nat| #[trigger] memory.may_grow_to(len) == self.may_grow_to(len),
    {
        self.memory
    }

    /// The address of the root of the tree, which is [`NULL`] if the map is empty.
    pub fn root_offset(&self) -> (address: Ptr)
        ensures
            address == self.spec_root_offset(),
    {
        self.root_offset
    }

    /// The allocator of the chunks that the nodes are stored in.
    pub fn allocator(&self) -> (allocator: &Allocator)
        ensures
            *allocator == self.spec_allocator(),
    {
        &self.allocator
    }

    /// How a map is laid out in its memory: an empty map has no root and no node, any other is a
    /// B-tree with one chunk for each of its nodes.
    pub proof fn lemma_layout(&self)
        requires
            self.wf(),
        ensures
            self.spec_allocator().spec_header_address() == BTREE_HEADER_SIZE,
            self.spec_allocator().spec_allocation_size() == ALLOCATION_SIZE,
            match self.spec_tree() {
                None => {
                    &&& self.spec_root_offset() == NULL
                    &&& self@ == Map::<Seq<u8>, Seq<u8>>::empty()
                    &&& self.spec_allocator().num_allocations() == 0
                },
                Some(t) => {
                    &&& self.spec_root_offset() == t.addr
                    &&& t.addr != NULL
                    &&& laid_out(self.bytes(), t)
                    &&& distinct(t)
                    &&& shape(t)
                    &&& t.keys.len() > 0
                    &&& sorted(entries(t))
                    &&& self@ == map_of(entries(t))
                    &&& self.spec_allocator().num_allocations() == nodes(t)
                },
            },
    {
        let bytes = self.memory.bytes();
        self.lemma_no_root();
        self.allocator.lemma_first(bytes, self.heap@.dom());
        match self.tree@ {
            None => {
                assert(self.heap@.dom() =~= Set::empty());
            },
            Some(t) => {
                lemma_laid_out(bytes, self.heap@, t);
                lemma_addresses(t);
                assert(self.heap@.dom() =~= addresses(t));
            },
        }
    }

    /// The pages of the memory can be addressed.
    pub proof fn lemma_usable(&self)
        requires
            self.wf(),
        ensures
            usable(self.bytes()) <= u64::MAX,
            !self.spec_allocator().overflows(self.spec_allocator().num_allocations() as int),
    {
        self.allocator.lemma_first(self.memory.bytes(), self.heap@.dom());
    }

    /// How the chunks are laid out: one after the other, with a header that says whether the chunk
    /// is allocated.
    pub proof fn lemma_chunk(&self, a: Ptr)
        requires
            self.wf(),
            self.spec_tree() matches Some(t) && count(t, a) > 0,
        ensures
            a >= self.spec_allocator().first_chunk() + CHUNK_HEADER_SIZE,
            (a - CHUNK_HEADER_SIZE - self.spec_allocator().first_chunk())
                % self.spec_allocator().spec_chunk_size() == 0,
            a + ALLOCATION_SIZE <= usable(self.bytes()),
            chunk_at(self.bytes(), a - CHUNK_HEADER_SIZE) matches Some(chunk) && chunk.allocated,
    {
        assert(self.heap@.contains_key(a));
        self.allocator.lemma_live(self.memory.bytes(), self.heap@.dom(), a);
        self.allocator.lemma_live_header(self.memory.bytes(), self.heap@.dom(), a);
    }

    /// Where the next chunk lies, and that it is not allocated.
    pub proof fn lemma_next_chunk(&self)
        requires
            self.wf(),
        ensures
            self.spec_allocator().spec_next() >= self.spec_allocator().first_chunk()
                + CHUNK_HEADER_SIZE,
            (self.spec_allocator().spec_next() - CHUNK_HEADER_SIZE
                - self.spec_allocator().first_chunk()) % self.spec_allocator().spec_chunk_size()
                == 0,
            chunk_at(
                self.bytes(),
                self.spec_allocator().spec_next() - CHUNK_HEADER_SIZE,
            ) matches Some(chunk) && !chunk.allocated,
    {
        self.allocator.lemma_next_header(self.memory.bytes(), self.heap@.dom());
    }

    /// The memory of a map holds that map, and starts with its header and that of its allocator.
    pub proof fn lemma_persistent(&self)
        requires
            self.wf(),
        ensures
            stores(self.bytes(), self@),
            header_in(
                self.bytes(),
                self.spec_root_offset(),
                self.spec_max_key_size(),
                self.spec_max_value_size(),
            ),
            allocator_in(self.bytes()) == Some(self.spec_allocator()),
    {
        assert(allocator_in(self.memory.bytes()) == Some(self.allocator));
        assert(stores_as(self.memory.bytes(), self.heap@, self.tree@));
    }
}

impl StableBTreeMap<Vec<u8>> {
    /// A map in a vector can grow as long as the vector can.
    pub proof fn lemma_in_vector(&self)
        ensures
            forall|len: nat| #[trigger] self.may_grow_to(len) <==> len <= isize::MAX,
    {
    }
}

// Headers and nodes in memory.

impl<M: Memory64> StableBTreeMap<M> {
    /// Whether the nodes in memory are those of `heap`.
    spec fn holds(&self) -> bool {
        heap_in(self.memory.bytes(), self.allocator, self.heap@)
    }

    /// Whether the header of the map and that of the allocator are stored.
    spec fn saved(&self) -> bool {
        &&& header_in(self.memory.bytes(), self.root_offset, self.max_key_size, self.max_value_size)
        &&& self.allocator.saved(self.memory.bytes())
    }

    /// Whether nothing but the nodes in memory differs.
    spec fn same_apart_from_nodes(&self, other: Self) -> bool {
        &&& self.root_offset == other.root_offset
        &&& self.max_key_size == other.max_key_size
        &&& self.max_value_size == other.max_value_size
        &&& self.tree == other.tree
        &&& same_bounds(other.memory, self.memory)
    }

    /// Whether `error` is that of a memory that refuses to grow when one more chunk is needed.
    spec fn no_room(&self, error: WriteError) -> bool {
        let num = self.allocator.num_allocations() as int;
        &&& num >= self.allocator.capacity(self.memory.bytes())
        &&& error == self.allocator.growth_error(self.memory.bytes(), num)
    }

    /// The chunk of a node lies within the memory.
    proof fn lemma_allocated(&self, a: Ptr)
        requires
            self.holds(),
            self.heap@.contains_key(a),
        ensures
            a != NULL,
            a + ALLOCATION_SIZE <= usable(self.memory.bytes()) <= u64::MAX,
            usable(self.memory.bytes()) <= self.memory.bytes().len(),
    {
        assert(self.heap@.dom().contains(a));
        self.allocator.lemma_live(self.memory.bytes(), self.heap@.dom(), a);
    }

    /// The node at `address`.
    fn fetch(&self, address: Ptr) -> (node: Node)
        requires
            self.holds(),
            self.heap@.contains_key(address),
            self.heap@[address] is Some,
        ensures
            self.heap@[address] == Some(node@),
            node.address() == address,
            node.valid(),
    {
        Node::load(address, &self.memory)
    }

    /// Stores a node in its chunk.
    fn store(&mut self, node: &Node)
        requires
            old(self).holds(),
            old(self).heap@.contains_key(node.address()),
            node.valid(),
        ensures
            final(self).holds(),
            final(self).heap@ == old(self).heap@.insert(node.address(), Some(node@)),
            final(self).same_apart_from_nodes(*old(self)),
            final(self).allocator == old(self).allocator,
            final(self).memory.bytes().len() == old(self).memory.bytes().len(),
    {
        let ghost before = self.memory.bytes();
        let ghost live = self.heap@.dom();
        let ghost a = node.address();
        proof {
            self.lemma_allocated(a);
        }
        let result = node.save(&mut self.memory);
        self.heap = Ghost(self.heap@.insert(node.address(), Some(node@)));
        proof {
            let after = self.memory.bytes();
            let image = choose|image: Seq<u8>|
                {
                    &&& #[trigger] decode(image) == Some(node@)
                    &&& image.len() == NODE_SIZE
                    &&& write_result(before, after, a as int, image, result)
                };
            lemma_write_in_place(before, after, a as int, image, result);
            self.allocator.lemma_body_write(before, after, live, a, image);
            assert(self.heap@.dom() =~= live);
            assert forall|b: Ptr| #[trigger] self.heap@.contains_key(b) implies node_at(after, b)
                == self.heap@[b] by {
                if b != a {
                    assert(old(self).heap@.contains_key(b));
                    old(self).lemma_allocated(b);
                    assert(live.remove(a).contains(b));
                    lemma_node_at_same(before, after, b);
                }
            }
        }
    }

    /// Allocates a chunk for a node.
    fn allocate(&mut self) -> (result: Result<Ptr, WriteError>)
        requires
            old(self).holds(),
        ensures
            final(self).holds(),
            final(self).same_apart_from_nodes(*old(self)),
            final(self).memory.bytes().len() == old(self).allocator.size_with(
                old(self).memory.bytes().len(),
                final(self).allocator.num_allocations() as int,
            ),
            result is Ok <==> old(self).obtains(
                old(self).allocator.num_allocations() + 1,
            ),
            old(self).has_room(1) ==> result is Ok && final(self).memory.bytes().len()
                == old(self).memory.bytes().len(),
            match result {
                Ok(address) => {
                    &&& address != NULL
                    &&& !old(self).heap@.contains_key(address)
                    &&& final(self).heap@.contains_key(address)
                    &&& final(self).heap@.remove(address) == old(self).heap@
                    &&& final(self).allocator.num_allocations()
                        == old(self).allocator.num_allocations() + 1
                },
                Err(error) => {
                    &&& final(self).heap == old(self).heap
                    &&& final(self).allocator == old(self).allocator
                    &&& final(self).memory.bytes() == old(self).memory.bytes()
                    &&& final(self).no_room(error)
                },
            },
    {
        let ghost before = self.memory.bytes();
        let ghost live = self.heap@.dom();
        proof {
            self.allocator.lemma_first(before, live);
            if self.has_room(1) {
                self.allocator.lemma_fits(before, live.len() as int + 1);
            }
        }
        match self.allocator.allocate(&mut self.memory, Ghost(live)) {
            Ok(address) => {
                let ghost after = self.memory.bytes();
                self.heap = Ghost(self.heap@.insert(address, node_at(after, address)));
                proof {
                    let num = live.len() as int + 1;
                    old(self).allocator.lemma_size_with(before.len(), num, num);
                    assert(!live.contains(address));
                    assert(self.heap@.dom() =~= live.insert(address));
                    assert forall|b: Ptr| #[trigger] self.heap@.contains_key(b) implies node_at(
                        after,
                        b,
                    ) == self.heap@[b] by {
                        if b != address {
                            assert(old(self).heap@.contains_key(b));
                            old(self).lemma_allocated(b);
                            assert(live.contains(b));
                            lemma_node_at_same(before, after, b);
                        }
                    }
                    self.lemma_allocated(address);
                    assert(self.heap@.remove(address) =~= old(self).heap@);
                }
                Ok(address)
            },
            Err(error) => Err(error),
        }
    }

    /// Gives back the chunk of a node.
    fn deallocate(&mut self, address: Ptr)
        requires
            old(self).holds(),
            old(self).heap@.contains_key(address),
        ensures
            final(self).holds(),
            final(self).same_apart_from_nodes(*old(self)),
            final(self).heap@ == old(self).heap@.remove(address),
            final(self).allocator.num_allocations() == old(self).allocator.num_allocations() - 1,
            final(self).allocator.same_layout(old(self).allocator),
            final(self).memory.bytes().len() == old(self).memory.bytes().len(),
    {
        let ghost before = self.memory.bytes();
        let ghost live = self.heap@.dom();
        self.allocator.deallocate(&mut self.memory, address, Ghost(live));
        let ghost after = self.memory.bytes();
        self.heap = Ghost(self.heap@.remove(address));
        proof {
            assert(self.heap@.dom() =~= live.remove(address));
            assert forall|b: Ptr| #[trigger] self.heap@.contains_key(b) implies node_at(after, b)
                == self.heap@[b] by {
                assert(old(self).heap@.contains_key(b));
                old(self).lemma_allocated(b);
                assert(live.remove(address).contains(b));
                lemma_node_at_same(before, after, b);
            }
        }
    }

    /// There is no tree if there is no root.
    proof fn lemma_no_root(&self)
        requires
            self.holds(),
            tree_in(self.heap@, self.root_offset, self.tree@),
        ensures
            self.tree@ is None <==> self.root_offset == NULL,
    {
        if self.tree@ is Some {
            self.lemma_allocated((self.tree@->0).addr);
        }
    }

    /// Writing in front of the chunks leaves the nodes as they are.
    proof fn lemma_low_write(&self, before: Seq<u8>, offset: int, src: Seq<u8>)
        requires
            heap_in(before, self.allocator, self.heap@),
            overwritten(before, self.memory.bytes(), offset, src),
            offset + src.len() <= self.allocator.first_chunk(),
            self.memory.bytes().len() == before.len(),
        ensures
            self.holds(),
    {
        let after = self.memory.bytes();
        let live = self.heap@.dom();
        self.allocator.lemma_low_write(before, after, live, offset, src);
        assert forall|a: Ptr| #[trigger] self.heap@.contains_key(a) implies node_at(after, a)
            == self.heap@[a] by {
            assert(live.contains(a));
            self.allocator.lemma_live(before, live, a);
            lemma_node_at_same(before, after, a);
        }
    }

    /// The bytes of the header of the map.
    fn header_image(&self) -> (image: [u8; 20])
        ensures
            header_in(image@, self.root_offset, self.max_key_size, self.max_value_size),
    {
        let r: [u8; 8] = u64_bytes(self.root_offset);
        let k: [u8; 4] = u32_bytes(self.max_key_size);
        let v: [u8; 4] = u32_bytes(self.max_value_size);
        let image: [u8; 20] = [
            66, 84, 82, LAYOUT_VERSION,
            r[0], r[1], r[2], r[3], r[4], r[5], r[6], r[7],
            k[0], k[1], k[2], k[3],
            v[0], v[1], v[2], v[3],
        ];
        assert(image@.take(3) =~= btree_magic());
        assert(image@.subrange(4, 12) =~= r@);
        assert(image@.subrange(12, 16) =~= k@);
        assert(image@.subrange(16, 20) =~= v@);
        image
    }

    /// Stores the header of the map and that of the allocator.
    fn save(&mut self) -> (result: Result<(), WriteError>)
        requires
            old(self).holds(),
        ensures
            result is Ok,
            final(self).holds(),
            final(self).saved(),
            final(self).same_apart_from_nodes(*old(self)),
            final(self).heap == old(self).heap,
            final(self).allocator == old(self).allocator,
            final(self).memory.bytes().len() == old(self).memory.bytes().len(),
    {
        let ghost bytes0 = self.memory.bytes();
        proof {
            self.allocator.lemma_first(bytes0, self.heap@.dom());
        }
        let image: [u8; 20] = self.header_image();
        let result = crate::memory::write(&mut self.memory, 0, image.as_slice());
        let ghost bytes1 = self.memory.bytes();
        proof {
            lemma_write_in_place(bytes0, bytes1, 0, image@, result);
            self.lemma_low_write(bytes0, 0, image@);
            assert(bytes1.subrange(0, 20) == image@);
            assert forall|i: int| 0 <= i < BTREE_HEADER_SIZE implies #[trigger] bytes1[i]
                == image@[i] by {
                assert(bytes1[i] == bytes1.subrange(0, 20)[i]);
            }
            lemma_header_prefix(
                image@,
                bytes1,
                self.root_offset,
                self.max_key_size,
                self.max_value_size,
            );
        }
        match result {
            Ok(()) => {},
            Err(error) => {
                return Err(error);
            },
        }
        let result = self.allocator.save(&mut self.memory);
        proof {
            let bytes2 = self.memory.bytes();
            let at = BTREE_HEADER_SIZE as int;
            let src = choose|src: Seq<u8>|
                {
                    &&& #[trigger] Allocator::header_in(src, self.allocator.spec_header_address())
                        == Some(self.allocator)
                    &&& src.len() == ALLOCATOR_HEADER_SIZE
                    &&& write_result(bytes1, bytes2, at, src, result)
                };
            lemma_write_in_place(bytes1, bytes2, at, src, result);
            self.lemma_low_write(bytes1, at, src);
            lemma_header_prefix(
                bytes1,
                bytes2,
                self.root_offset,
                self.max_key_size,
                self.max_value_size,
            );
        }
        result
    }
}

// Looking up and inserting.

impl<M: Memory64> StableBTreeMap<M> {
    /// The value of `key` in the tree at `node_addr`.
    fn get_helper(&self, node_addr: Ptr, key: &Key, Ghost(t): Ghost<Tree>) -> (value: Option<Value>)
        requires
            self.holds(),
            stored(self.heap@, t),
            shape(t),
            sorted(entries(t)),
            node_addr == t.addr,
        ensures
            bytes_of(value) == find(entries(t), key@),
        decreases height(t),
    {
        let node = self.fetch(node_addr);
        proof {
            lemma_keys_ascending(t);
        }
        match search(node.keys(), key) {
            Ok(idx) => {
                proof {
                    lemma_key_found(t, idx as int);
                }
                let (_, value) = node.entry(idx);
                Some(value)
            },
            Err(idx) => {
                if node.num_children() == 0 {
                    proof {
                        lemma_key_absent(t, key@, idx as int);
                    }
                    None
                } else {
                    proof {
                        lemma_key_below(t, key@, idx as int);
                        assert(stored(self.heap@, t.children[idx as int]));
                        assert(shape(t.children[idx as int]));
                    }
                    self.get_helper(node.child(idx), key, Ghost(t.children[idx as int]))
                }
            },
        }
    }

    /// Whether `error` came when `reached` chunks were allocated, in `after`.
    spec fn ran_out(self, after: Self, error: WriteError, reached: int) -> bool {
        &&& after.full(error, reached)
        &&& self.obtains_only(reached)
        &&& after.allocator.num_allocations() == self.kept_of(reached)
        &&& after.allocator.num_allocations() <= reached <= after.allocator.num_allocations() + 1
        &&& after.memory.bytes().len() == self.allocator.size_with(
            self.memory.bytes().len(),
            reached,
        )
    }

    /// What the memory could be made large enough for before some chunks were allocated, it still
    /// can.
    proof fn lemma_obtains(self, after: Self, num: int)
        requires
            self.holds(),
            after.holds(),
            same_bounds(self.memory, after.memory),
            after.memory.bytes().len() == self.allocator.size_with(
                self.memory.bytes().len(),
                after.allocator.num_allocations() as int,
            ),
            self.allocator.num_allocations() <= after.allocator.num_allocations() < num,
            self.allocator.num_allocations() == after.allocator.num_allocations() || self.obtains(
                after.allocator.num_allocations() as int,
            ),
        ensures
            after.obtains(num) == self.obtains(num),
    {
        let reached = after.allocator.num_allocations() as int;
        self.allocator.lemma_first(self.memory.bytes(), self.heap@.dom());
        assert(after.allocator.overflows(num) == self.allocator.overflows(num));
        if !self.allocator.overflows(num) {
            let len = self.memory.bytes().len();
            self.allocator.lemma_size_with(len, reached, num);
            after.allocator.lemma_first(after.memory.bytes(), after.heap@.dom());
            after.allocator.lemma_size_with(after.memory.bytes().len(), num, num);
            let size = self.allocator.size_with(len, num);
            assert(after.allocator.size_with(after.memory.bytes().len(), num) == size);
            assert(self.memory.may_grow_to(size as nat) == after.memory.may_grow_to(size as nat));
        }
    }

    /// Sets the value of `key`. The headers are stored unless that fails.
    fn insert_entry(&mut self, key: Key, value: Value) -> (result: Result<
        Option<Value>,
        WriteError,
    >)
        requires
            old(self).holds(),
            tree_in(old(self).heap@, old(self).root_offset, old(self).tree@),
            key@.len() <= MAX_KEY_SIZE,
            value@.len() <= MAX_VALUE_SIZE,
        ensures
            final(self).holds(),
            tree_in(final(self).heap@, final(self).root_offset, final(self).tree@),
            final(self).max_key_size == old(self).max_key_size,
            final(self).max_value_size == old(self).max_value_size,
            same_bounds(old(self).memory, final(self).memory),
            result is Ok <==> old(self).obtains_all(chunks_needed(old(self).tree@, key@)),
            old(self).has_room(chunks_needed(old(self).tree@, key@)) ==> result is Ok
                && final(self).memory.bytes().len() == old(self).memory.bytes().len(),
            ({
                let num = old(self).allocator.num_allocations();
                let num2 = final(self).allocator.num_allocations();
                let needed = chunks_needed(old(self).tree@, key@);
                match result {
                    Ok(previous) => {
                        &&& bytes_of(previous) == lookup(old(self)@, key@)
                        &&& final(self)@ == old(self)@.insert(key@, value@)
                        &&& tree_grows_to(old(self).tree@, key@, value@, final(self).tree@)
                        &&& num2 == num + needed
                        &&& final(self).saved()
                        &&& final(self).memory.bytes().len() == old(self).allocator.size_with(
                            old(self).memory.bytes().len(),
                            num2 as int,
                        )
                    },
                    Err(error) => {
                        &&& final(self)@ == old(self)@
                        &&& num <= num2 < num + needed
                        &&& exists|reached: int|
                            reached < num + needed && #[trigger] old(self).ran_out(
                                *final(self),
                                error,
                                reached,
                            )
                    },
                }
            }),
    {
        let ghost heap1 = self.heap@;
        let ghost num = self.allocator.num_allocations() as int;
        let ghost len1 = self.memory.bytes().len();
        proof {
            self.lemma_no_root();
            self.allocator.lemma_first(self.memory.bytes(), heap1.dom());
        }
        if self.root_offset == NULL {
            // The map is empty. Its first node is a leaf.
            let leaf = match self.allocate_leaf_node() {
                Ok(leaf) => leaf,
                Err(error) => {
                    assert(old(self).ran_out(*self, error, num));
                    assert(!old(self).obtains(num + 1));
                    return Err(error);
                },
            };
            let node = Node::Leaf(leaf);
            let address: Ptr = node.address();
            self.store(&node);
            let ghost heap2 = self.heap@;
            let ghost t = Tree {
                addr: address,
                keys: seq![],
                values: seq![],
                children: seq![],
            };
            proof {
                assert(node@.keys =~= t.keys);
                assert(node@.values =~= t.values);
                assert(tops(t.children) =~= node@.children);
                lemma_leaf_empty(t);
                lemma_splits_leaf(t, key@);
                assert forall|a: Ptr| #[trigger] heap2.contains_key(a) implies a == address by {
                    assert(!heap1.contains_key(a));
                }
            }
            let ghost (k, v) = (key@, value@);
            self.root_offset = address;
            let (outcome, Ghost(t2)) = self.insert_nonfull(node, key, value, Ghost(t));
            self.tree = Ghost(Some(t2));
            proof {
                self.allocator.lemma_first(self.memory.bytes(), self.heap@.dom());
                self.allocator.lemma_size_with(len1, num + 1, num + 1);
                lemma_planted(address, k, v, t2);
                lemma_put(entries(t), k, v);
                lemma_find(entries(t), k);
                assert(map_of(entries(t)) =~= Map::empty());
            }
            return outcome;
        }
        let ghost t = self.tree@->0;
        let root = self.fetch(self.root_offset);
        let ghost (k, v) = (key@, value@);
        proof {
            lemma_put(entries(t), k, v);
            lemma_find(entries(t), k);
        }
        if !root.is_full() {
            let (outcome, Ghost(t2)) = self.insert_nonfull(root, key, value, Ghost(t));
            self.tree = Ghost(Some(t2));
            proof {
                if outcome is Err {
                    assert(old(self).ran_out(
                        *self,
                        outcome->Err_0,
                        self.allocator.num_allocations() as int,
                    ));
                } else {
                    lemma_not_raised(t, k, v, t2);
                }
            }
            return outcome;
        }
        // The root is full. Allocate a new node that will be used as the new root.
        let mut new_root = match self.allocate_internal_node() {
            Ok(new_root) => new_root,
            Err(error) => {
                assert(old(self).ran_out(*self, error, num));
                return Err(error);
            },
        };
        new_root.children.push(self.root_offset);
        let mut node = Node::Internal(new_root);
        let address: Ptr = node.address();
        let ghost t1 = raised(t, address);
        proof {
            assert(node@.keys =~= t1.keys);
            assert(node@.values =~= t1.values);
            assert(tops(t1.children) =~= node@.children);
            assert(node@ == t1.node());
        }
        self.store(&node);
        let ghost heap2 = self.heap@;
        proof {
            assert(heap2.remove(address) =~= heap1);
            lemma_new_root(heap1, t, heap2, t1);
        }
        proof {
            old(self).lemma_obtains(*self, num + 2);
        }
        let (split, Ghost(t2)) = self.split_child(&mut node, 0, Ghost(t1));
        match split {
            Ok(()) => {},
            Err(error) => {
                self.deallocate(address);
                assert(old(self).ran_out(*self, error, num + 1));
                assert(!old(self).obtains(num + 2));
                return Err(error);
            },
        }
        self.root_offset = address;
        let ghost heap3 = self.heap@;
        let ghost sibling = choose|sibling: Ptr| t2 == #[trigger] t1.split(0, sibling);
        proof {
            self.allocator.lemma_first(self.memory.bytes(), heap3.dom());
            self.allocator.lemma_size_with(len1, num + 1, num + 2);
            lemma_all_obtained(*old(self), *self, splits(t, key@));
            assert(made_room(t1, t2, key@, 0));
            lemma_splits_left(t1, t2, key@, 0);
            lemma_splits_new_root(t, t1, key@);
        }
        let (outcome, Ghost(t3)) = self.insert_nonfull(node, key, value, Ghost(t2));
        self.tree = Ghost(Some(t3));
        proof {
            lemma_moved_transitive(heap2, t1, heap3, t2, self.heap@, t3);
            let num3 = self.allocator.num_allocations() as int;
            self.allocator.lemma_first(self.memory.bytes(), self.heap@.dom());
            self.allocator.lemma_size_with(len1, num + 2, num3);
            if outcome is Err {
                assert(old(self).ran_out(*self, outcome->Err_0, num3));
            } else {
                lemma_raised(t, address, sibling, k, v, t3);
            }
        }
        outcome
    }

    /// Allocates a leaf.
    fn allocate_leaf_node(&mut self) -> (result: Result<LeafNode, WriteError>)
        requires
            old(self).holds(),
        ensures
            final(self).holds(),
            final(self).same_apart_from_nodes(*old(self)),
            final(self).memory.bytes().len() == old(self).allocator.size_with(
                old(self).memory.bytes().len(),
                final(self).allocator.num_allocations() as int,
            ),
            result is Ok <==> old(self).obtains(
                old(self).allocator.num_allocations() + 1,
            ),
            old(self).has_room(1) ==> result is Ok && final(self).memory.bytes().len()
                == old(self).memory.bytes().len(),
            match result {
                Ok(leaf) => {
                    &&& leaf.address != NULL
                    &&& leaf.keys@.len() == 0
                    &&& leaf.values@.len() == 0
                    &&& !old(self).heap@.contains_key(leaf.address)
                    &&& final(self).heap@.contains_key(leaf.address)
                    &&& final(self).heap@.remove(leaf.address) == old(self).heap@
                    &&& final(self).allocator.num_allocations()
                        == old(self).allocator.num_allocations() + 1
                },
                Err(error) => {
                    &&& final(self).heap == old(self).heap
                    &&& final(self).allocator == old(self).allocator
                    &&& final(self).memory.bytes() == old(self).memory.bytes()
                    &&& final(self).no_room(error)
                },
            },
    {
        match self.allocate() {
            Ok(address) => Ok(LeafNode::new(address)),
            Err(error) => Err(error),
        }
    }

    /// Allocates an internal node.
    fn allocate_internal_node(&mut self) -> (result: Result<InternalNode, WriteError>)
        requires
            old(self).holds(),
        ensures
            final(self).holds(),
            final(self).same_apart_from_nodes(*old(self)),
            final(self).memory.bytes().len() == old(self).allocator.size_with(
                old(self).memory.bytes().len(),
                final(self).allocator.num_allocations() as int,
            ),
            result is Ok <==> old(self).obtains(
                old(self).allocator.num_allocations() + 1,
            ),
            old(self).has_room(1) ==> result is Ok && final(self).memory.bytes().len()
                == old(self).memory.bytes().len(),
            match result {
                Ok(internal) => {
                    &&& internal.address != NULL
                    &&& internal.keys@.len() == 0
                    &&& internal.values@.len() == 0
                    &&& internal.children@.len() == 0
                    &&& !old(self).heap@.contains_key(internal.address)
                    &&& final(self).heap@.contains_key(internal.address)
                    &&& final(self).heap@.remove(internal.address) == old(self).heap@
                    &&& final(self).allocator.num_allocations()
                        == old(self).allocator.num_allocations() + 1
                },
                Err(error) => {
                    &&& final(self).heap == old(self).heap
                    &&& final(self).allocator == old(self).allocator
                    &&& final(self).memory.bytes() == old(self).memory.bytes()
                    &&& final(self).no_room(error)
                },
            },
    {
        match self.allocate() {
            Ok(address) => Ok(Node::new_internal(address)),
            Err(error) => Err(error),
        }
    }

    /// Splits a full child of `parent` in two, and moves the entry in the middle up into `parent`.
    /// Nothing is changed if there is no room for another node.
    fn split_child(
        &mut self,
        parent: &mut Node,
        full_child_idx: usize,
        Ghost(t): Ghost<Tree>,
    ) -> (result: (Result<(), WriteError>, Ghost<Tree>))
        requires
            old(self).holds(),
            old(self).heap@.contains_key(t.addr),
            sound_below(old(self).heap@, t),
            shape(t),
            old(parent)@ == t.node(),
            old(parent).address() == t.addr,
            old(parent).valid(),
            t.keys.len() < CAPACITY,
            full_child_idx < t.children.len(),
            t.children[full_child_idx as int].keys.len() == CAPACITY,
        ensures
            final(self).holds(),
            final(self).same_apart_from_nodes(*old(self)),
            final(self).memory.bytes().len() == old(self).allocator.size_with(
                old(self).memory.bytes().len(),
                final(self).allocator.num_allocations() as int,
            ),
            result.0 is Ok <==> old(self).obtains(
                old(self).allocator.num_allocations() + 1,
            ),
            old(self).has_room(1) ==> result.0 is Ok && final(self).memory.bytes().len()
                == old(self).memory.bytes().len(),
            match result.0 {
                Ok(()) => {
                    let t2 = result.1@;
                    &&& exists|sibling: Ptr| t2 == #[trigger] t.split(full_child_idx as int, sibling)
                    &&& sound(final(self).heap@, t2)
                    &&& moved(old(self).heap@, t, final(self).heap@, t2)
                    &&& shape(t2)
                    &&& height(t2) == height(t)
                    &&& entries(t2) == entries(t)
                    &&& final(parent)@ == t2.node()
                    &&& final(parent).same_place(*old(parent))
                    &&& final(parent).valid()
                    &&& final(self).allocator.num_allocations()
                        == old(self).allocator.num_allocations() + 1
                },
                Err(error) => {
                    &&& *final(parent) == *old(parent)
                    &&& final(self).heap == old(self).heap
                    &&& final(self).allocator == old(self).allocator
                    &&& final(self).memory.bytes() == old(self).memory.bytes()
                    &&& final(self).no_room(error)
                },
            },
    {
        let ghost heap1 = self.heap@;
        let ghost i = full_child_idx as int;
        let ghost child = t.children[i];
        proof {
            assert(stored(heap1, t.children[i]));
            assert(shape(t.children[i]));
            lemma_child_distinct(t, i);
            assert(count(child, child.addr) > 0);
            self.allocator.lemma_first(self.memory.bytes(), heap1.dom());
        }
        let mut full_child = self.fetch(parent.child(full_child_idx));
        let allocated: Result<Node, WriteError> = match &full_child {
            Node::Leaf(_) => match self.allocate_leaf_node() {
                Ok(leaf) => Ok(Node::Leaf(leaf)),
                Err(error) => Err(error),
            },
            Node::Internal(_) => match self.allocate_internal_node() {
                Ok(internal) => Ok(Node::Internal(internal)),
                Err(error) => Err(error),
            },
        };
        let mut sibling: Node = match allocated {
            Ok(sibling) => sibling,
            Err(error) => {
                return (Err(error), Ghost(t));
            },
        };
        let ghost s = sibling.address();
        let ghost heap2 = self.heap@;
        proof {
            assert forall|a: Ptr| #[trigger] heap1.contains_key(a) implies heap2.contains_key(a)
                && a != s by {
                assert(heap2.remove(s).contains_key(a));
            }
        }
        // Move the entries above the median into the new sibling.
        let median = full_child.split(&mut sibling);
        // Add the sibling as a new child of the parent.
        parent.insert_child(full_child_idx + 1, sibling.address());
        parent.insert_entry(full_child_idx, median);
        let ghost t2 = t.split(i, s);
        proof {
            let low = child.lower_half();
            let high = child.upper_half(s);
            assert(tops(low.children) =~= full_child@.children);
            assert(tops(high.children) =~= sibling@.children);
            assert(full_child@ == low.node());
            assert(sibling@ == high.node());
            assert(tops(t2.children) =~= parent@.children);
            assert(parent@ == t2.node());
            assert(parent.valid());
        }
        self.store(&full_child);
        self.store(&sibling);
        self.store(parent);
        proof {
            let low = child.lower_half();
            let high = child.upper_half(s);
            // The node of the parent is written in any case.
            let heap0 = heap1.insert(t.addr, Some(t.node()));
            lemma_root_stored(heap1, t, heap0);
            assert(self.heap@ =~= heap0.insert(s, Some(high.node())).insert(
                child.addr,
                Some(low.node()),
            ).insert(t.addr, Some(t2.node()))) by {
                assert(heap2.remove(s) == heap1);
                assert(heap2 =~= heap1.insert(s, heap2[s]));
                assert(heap1.contains_key(child.addr) && heap1.contains_key(t.addr));
            }
            lemma_split(heap0, t, i, s, self.heap@);
            assert(moved(heap1, t, self.heap@, t2)) by {
                assert forall|a: Ptr| heap0.contains_key(a) <==> #[trigger] heap1.contains_key(
                    a,
                ) by {}
            }
        }
        (Ok(()), Ghost(t2))
    }

    /// Puts an entry into the tree below a node that is not full, and returns the value that the
    /// key had before.
    #[verifier::rlimit(40)]
    fn insert_nonfull(
        &mut self,
        node: Node,
        key: Key,
        value: Value,
        Ghost(t): Ghost<Tree>,
    ) -> (result: (Result<Option<Value>, WriteError>, Ghost<Tree>))
        requires
            old(self).holds(),
            sound(old(self).heap@, t),
            shape(t),
            sorted(entries(t)),
            t.keys.len() < CAPACITY,
            t.children.len() > 0 ==> t.keys.len() > 0,
            node@ == t.node(),
            node.address() == t.addr,
            node.valid(),
            key@.len() <= MAX_KEY_SIZE,
            value@.len() <= MAX_VALUE_SIZE,
        ensures
            final(self).holds(),
            final(self).same_apart_from_nodes(*old(self)),
            final(self).memory.bytes().len() == old(self).allocator.size_with(
                old(self).memory.bytes().len(),
                final(self).allocator.num_allocations() as int,
            ),
            result.0 is Ok <==> old(self).obtains_all(splits(t, key@)),
            old(self).has_room(splits(t, key@)) ==> result.0 is Ok
                && final(self).memory.bytes().len() == old(self).memory.bytes().len(),
            ({
                let t2 = result.1@;
                &&& sound(final(self).heap@, t2)
                &&& moved(old(self).heap@, t, final(self).heap@, t2)
                &&& shape(t2)
                &&& height(t2) == height(t)
                &&& t2.addr == t.addr
                &&& t2.keys.len() >= t.keys.len()
                &&& match result.0 {
                    Ok(previous) => {
                        &&& bytes_of(previous) == find(entries(t), key@)
                        &&& entries(t2) == put(entries(t), key@, value@)
                        &&& t2.keys.len() > 0
                        &&& grows_to(t, key@, value@, splits(t, key@), t2)
                        &&& final(self).saved()
                        &&& final(self).allocator.num_allocations()
                            == old(self).allocator.num_allocations() + splits(t, key@)
                    },
                    Err(error) => {
                        &&& entries(t2) == entries(t)
                        &&& final(self).no_room(error)
                        &&& old(self).obtains_only(final(self).allocator.num_allocations() as int)
                        &&& old(self).allocator.num_allocations()
                            <= final(self).allocator.num_allocations()
                            < old(self).allocator.num_allocations() + splits(t, key@)
                    },
                }
            }),
        decreases height(t),
    {
        let ghost heap1 = self.heap@;
        let mut node = node;
        let ghost mut t1 = t;
        let ghost mut searched: int = 0;
        let ghost mut pre: Seq<Ptr> = seq![];
        let ghost len1 = self.memory.bytes().len();
        proof {
            lemma_keys_ascending(t);
            lemma_unmoved(heap1, t);
            self.allocator.lemma_first(self.memory.bytes(), heap1.dom());
        }
        if node.num_children() > 0 {
            match search(node.keys(), &key) {
                Ok(idx) => {
                    proof {
                        searched = idx as int;
                        lemma_index_is(t.keys, idx as int);
                    }
                },
                Err(idx) => {
                    let ghost i = idx as int;
                    proof {
                        searched = i;
                        lemma_gap_is(t.keys, key@, i);
                        assert(stored(heap1, t.children[i]));
                        assert(shape(t.children[i]));
                    }
                    let child = self.fetch(node.child(idx));
                    if child.is_full() {
                        let (split, Ghost(t2)) = self.split_child(&mut node, idx, Ghost(t));
                        match split {
                            Ok(()) => {
                                proof {
                                    t1 = t2;
                                    let sibling = choose|sibling: Ptr| t2 == #[trigger] t.split(
                                        i,
                                        sibling,
                                    );
                                    pre = seq![sibling];
                                }
                            },
                            Err(error) => {
                                proof {
                                    lemma_room_needed(t, key@, i);
                                    assert(!self.obtains(self.allocator.num_allocations() + 1));
                                }
                                return (Err(error), Ghost(t));
                            },
                        }
                    }
                },
            }
            assert(made_room(t, t1, key@, searched));
        }
        let ghost heap2 = self.heap@;
        let ghost num2 = self.allocator.num_allocations();
        let ghost entered = *self;
        proof {
            lemma_keys_ascending(t1);
            assert(opened_by(t, key@, pre, t1));
        }
        match search(node.keys(), &key) {
            Ok(idx) => {
                let ghost i = idx as int;
                // The key was already in the map. Overwrite and return the previous value.
                let (_, previous) = node.entry(idx);
                let ghost t2 = Tree { values: t1.values.update(i, value@), ..t1 };
                node.set_entry(idx, (key, value));
                proof {
                    if t.children.len() > 0 {
                        lemma_room_found(t, t1, key@, searched, i);
                    } else {
                        lemma_splits_leaf(t, key@);
                    }
                    lemma_inserted_found(t, key@, value@, pre, t1, i);
                    lemma_key_found(t1, i);
                    lemma_overwrite(t1, i, value@);
                    assert(t1.keys.update(i, key@) =~= t1.keys);
                    assert(node@ == t2.node());
                }
                self.store(&node);
                proof {
                    lemma_rewrite(heap2, t1, self.heap@, t2);
                    lemma_moved_transitive(heap1, t, heap2, t1, self.heap@, t2);
                }
                let _ = self.save();
                (Ok(Some(previous)), Ghost(t2))
            },
            Err(idx) => {
                let ghost i = idx as int;
                if node.num_children() == 0 {
                    // The key is not in the map.
                    let ghost t2 = Tree {
                        keys: t1.keys.insert(i, key@),
                        values: t1.values.insert(i, value@),
                        ..t1
                    };
                    let ghost (k, v) = (key@, value@);
                    node.insert_entry(idx, (key, value));
                    proof {
                        lemma_splits_leaf(t, k);
                        lemma_inserted_leaf(t, k, v, i);
                        lemma_key_absent(t1, k, i);
                        lemma_leaf_insert(t1, i, k, v);
                        assert(node@ == t2.node());
                    }
                    self.store(&node);
                    proof {
                        lemma_rewrite(heap2, t1, self.heap@, t2);
                        lemma_moved_transitive(heap1, t, heap2, t1, self.heap@, t2);
                    }
                    let _ = self.save();
                    (Ok(None), Ghost(t2))
                } else {
                    let ghost c = t1.children[i];
                    proof {
                        assert(stored(heap2, t1.children[i]));
                        assert(shape(t1.children[i]));
                        lemma_child_distinct(t1, i);
                        lemma_key_below(t1, key@, i);
                    }
                    let child = self.fetch(node.child(idx));
                    proof {
                        lemma_room_below(t, t1, key@, searched, i);
                    }
                    let ghost (k, v) = (key@, value@);
                    let (outcome, Ghost(c2)) = self.insert_nonfull(child, key, value, Ghost(c));
                    let ghost t2 = t1.with_child(i, c2);
                    proof {
                        lemma_descend(heap2, t1, i, self.heap@, c2);
                        lemma_moved_transitive(heap1, t, heap2, t1, self.heap@, t2);
                        lemma_gap_operations(subs(t1), seps(t1), k, v, i);
                        assert(subs(t1).update(i, entries(c)) =~= subs(t1));
                        if outcome is Ok {
                            lemma_inserted_below(t, k, v, pre, t1, i, splits(c, k), c2);
                        }
                        self.allocator.lemma_first(self.memory.bytes(), self.heap@.dom());
                        lemma_all_obtained(*old(self), entered, splits(c, k));
                        self.allocator.lemma_size_with(
                            len1,
                            num2 as int,
                            self.allocator.num_allocations() as int,
                        );
                    }
                    (outcome, Ghost(t2))
                }
            },
        }
    }
}

// Removing.

impl<M: Memory64> StableBTreeMap<M> {
    /// Whether a key can be removed from the tree `t`: it is the whole tree of the map, or a part
    /// of it whose root can spare an entry.
    spec fn removable(&self, t: Tree) -> bool {
        &&& self.holds()
        &&& sound(self.heap@, t)
        &&& shape(t)
        &&& sorted(entries(t))
        &&& self.heap@.contains_key(self.root_offset)
        &&& if t.addr == self.root_offset {
            t.keys.len() > 0
        } else {
            t.keys.len() >= B && count(t, self.root_offset) == 0
        }
    }

    /// Whether `key` has been removed from the tree `t`, leaving `left`. `before` is the map
    /// before. Only the whole tree of the map can vanish, or get another root or height.
    spec fn removed(&self, before: Self, t: Tree, key: Seq<u8>, left: Option<Tree>) -> bool {
        &&& self.holds()
        &&& self.max_key_size == before.max_key_size
        &&& self.max_value_size == before.max_value_size
        &&& self.tree == before.tree
        &&& same_bounds(before.memory, self.memory)
        &&& self.memory.bytes().len() == before.memory.bytes().len()
        &&& self.allocator.num_allocations() + nodes(t) == before.allocator.num_allocations()
            + nodes_of(left)
        &&& left == if t.addr == before.root_offset {
            lowered(shrunk(t, key))
        } else {
            Some(shrunk(t, key))
        }
        &&& match left {
            None => {
                &&& t.addr == before.root_offset
                &&& self.root_offset == NULL
                &&& del(entries(t), key).len() == 0
                &&& forall|a: Ptr| #[trigger]
                    self.heap@.contains_key(a) ==> before.heap@.contains_key(a) && count(t, a) == 0
            },
            Some(t2) => {
                &&& sound(self.heap@, t2)
                &&& moved(before.heap@, t, self.heap@, t2)
                &&& shape(t2)
                &&& entries(t2) == del(entries(t), key)
                &&& if t.addr == before.root_offset {
                    &&& self.root_offset == t2.addr
                    &&& t2.keys.len() > 0
                } else {
                    &&& self.root_offset == before.root_offset
                    &&& t2.addr == t.addr
                    &&& height(t2) == height(t)
                    &&& t2.keys.len() >= B - 1
                }
            },
        }
    }

    /// A chunk is allocated for each node that a tree gets, and given back for each that it loses.
    proof fn lemma_counted(&self, before: Self, t1: Tree, t2: Tree)
        requires
            before.holds(),
            self.holds(),
            sound(before.heap@, t1),
            sound(self.heap@, t2),
            moved(before.heap@, t1, self.heap@, t2),
        ensures
            self.allocator.num_allocations() + nodes(t1) == before.allocator.num_allocations()
                + nodes(t2),
    {
        before.allocator.lemma_first(before.memory.bytes(), before.heap@.dom());
        self.allocator.lemma_first(self.memory.bytes(), self.heap@.dom());
        lemma_moved_nodes(before.heap@, t1, self.heap@, t2);
    }

    /// A child that can spare an entry is a part of the tree of the map that keys can be removed
    /// from.
    proof fn lemma_child_removable(&self, t: Tree, i: int)
        requires
            self.holds(),
            sound(self.heap@, t),
            shape(t),
            sorted(entries(t)),
            self.heap@.contains_key(self.root_offset),
            t.addr == self.root_offset || count(t, self.root_offset) == 0,
            0 <= i < t.children.len(),
            t.children[i].keys.len() >= B,
        ensures
            self.removable(t.children[i]),
            t.children[i].addr != self.root_offset,
            height(t.children[i]) < height(t),
    {
        let child = t.children[i];
        lemma_child_distinct(t, i);
        lemma_child_count(t, i, self.root_offset);
        lemma_child_sorted(t, i);
        assert(stored(self.heap@, t.children[i]));
        assert(shape(t.children[i]));
        assert(count(child, child.addr) > 0);
    }

    /// Removes a key from the tree at `node_addr`, and returns its value.
    fn remove_helper(
        &mut self,
        node_addr: Ptr,
        key: &Key,
        Ghost(t): Ghost<Tree>,
    ) -> (result: (Option<Value>, Ghost<Option<Tree>>))
        requires
            old(self).removable(t),
            node_addr == t.addr,
        ensures
            bytes_of(result.0) == find(entries(t), key@),
            final(self).removed(*old(self), t, key@, result.1@),
        decreases height(t), 3int,
    {
        let ghost heap1 = self.heap@;
        let mut node = self.fetch(node_addr);
        proof {
            lemma_keys_ascending(t);
            lemma_unmoved(heap1, t);
        }
        match search(node.keys(), key) {
            Ok(idx) => {
                if node.num_children() > 0 {
                    return self.remove_own(node, idx, key, Ghost(t));
                }
                // The node is a leaf and the key exists in it.
                let ghost n = idx as int;
                let ghost t2 = Tree {
                    keys: t.keys.remove(n),
                    values: t.values.remove(n),
                    ..t
                };
                let (_, value) = node.remove_entry(idx);
                proof {
                    lemma_key_found(t, n);
                    lemma_index_is(t.keys, n);
                    lemma_leaf_remove(t, n);
                    assert(node@ == t2.node());
                }
                self.store(&node);
                let ghost heap2 = self.heap@;
                proof {
                    lemma_rewrite(heap1, t, heap2, t2);
                }
                if node.keys().len() == 0 {
                    // A leaf can be empty only if it is the root.
                    self.deallocate(node_addr);
                    self.root_offset = NULL;
                    proof {
                        lemma_leaf_empty(t2);
                        assert forall|a: Ptr| #[trigger] self.heap@.contains_key(a) implies
                            heap1.contains_key(a) && count(t, a) == 0 by {
                            assert(heap2.contains_key(a));
                            assert(counts(t.children, a) == 0);
                        }
                    }
                    return (Some(value), Ghost(None));
                }
                proof {
                    self.lemma_counted(*old(self), t, t2);
                }
                (Some(value), Ghost(Some(t2)))
            },
            Err(idx) => {
                if node.num_children() > 0 {
                    return self.remove_below(node, idx, key, Ghost(t));
                }
                proof {
                    lemma_gap_is(t.keys, key@, idx as int);
                    lemma_key_absent(t, key@, idx as int);
                }
                (None, Ghost(Some(t)))
            },
        }
    }

    /// Removes the key of an entry of `parent`, which is an internal node.
    #[verifier::rlimit(40)]
    fn remove_own(
        &mut self,
        parent: Node,
        idx: usize,
        key: &Key,
        Ghost(t): Ghost<Tree>,
    ) -> (result: (Option<Value>, Ghost<Option<Tree>>))
        requires
            old(self).removable(t),
            t.children.len() > 0,
            parent@ == t.node(),
            parent.address() == t.addr,
            parent.valid(),
            idx < t.keys.len(),
            t.keys[idx as int] == key@,
        ensures
            bytes_of(result.0) == find(entries(t), key@),
            final(self).removed(*old(self), t, key@, result.1@),
        decreases height(t), 2int,
    {
        let ghost heap1 = self.heap@;
        let ghost n = idx as int;
        let mut parent = parent;
        let (_, value) = parent.entry(idx);
        proof {
            lemma_key_found(t, n);
            lemma_keys_ascending(t);
            lemma_index_is(t.keys, n);
            assert(stored(heap1, t.children[n]) && stored(heap1, t.children[n + 1]));
            assert(shape(t.children[n]) && shape(t.children[n + 1]));
        }
        // Check if the child that precedes `key` has at least `B` keys.
        let left_child = self.fetch(parent.child(idx));
        if left_child.keys().len() >= B as usize {
            // Replace the `key` with its predecessor.
            let predecessor = self.get_max(&left_child, Ghost(t.children[n]));
            let predecessor_key = copy_of(&predecessor.0);
            let ghost x = entries(t.children[n]).last();
            parent.set_entry(idx, predecessor);
            // Recursively delete the predecessor.
            proof {
                self.lemma_child_removable(t, n);
            }
            let (_, Ghost(left)) = self.remove_helper(
                parent.child(idx),
                &predecessor_key,
                Ghost(t.children[n]),
            );
            let ghost c2 = left->0;
            let ghost heap2 = self.heap@;
            let ghost t1 = t.with_child(n, c2);
            let ghost t2 = Tree {
                keys: t.keys.update(n, x.0),
                values: t.values.update(n, x.1),
                ..t1
            };
            proof {
                lemma_descend(heap1, t, n, heap2, c2);
                lemma_shape_rekeyed(t1, t2);
                lemma_replace_by_predecessor(t, n, c2);
                assert(tops(t2.children) =~= tops(t.children));
                assert(parent@ == t2.node());
                assert(stored(heap2, t1));
            }
            // Save the parent node.
            self.store(&parent);
            proof {
                lemma_rewrite(heap2, t1, self.heap@, t2);
                lemma_moved_transitive(heap1, t, heap2, t1, self.heap@, t2);
                self.lemma_counted(*old(self), t, t2);
            }
            return (Some(value), Ghost(Some(t2)));
        }
        // Check if the child that succeeds `key` has at least `B` keys.
        let right_child = self.fetch(parent.child(idx + 1));
        if right_child.keys().len() >= B as usize {
            // Replace the `key` with its successor.
            let successor = self.get_min(&right_child, Ghost(t.children[n + 1]));
            let successor_key = copy_of(&successor.0);
            let ghost x = entries(t.children[n + 1])[0];
            parent.set_entry(idx, successor);
            // Recursively delete the successor.
            proof {
                self.lemma_child_removable(t, n + 1);
            }
            let (_, Ghost(left)) = self.remove_helper(
                parent.child(idx + 1),
                &successor_key,
                Ghost(t.children[n + 1]),
            );
            let ghost c2 = left->0;
            let ghost heap2 = self.heap@;
            let ghost t1 = t.with_child(n + 1, c2);
            let ghost t2 = Tree {
                keys: t.keys.update(n, x.0),
                values: t.values.update(n, x.1),
                ..t1
            };
            proof {
                lemma_descend(heap1, t, n + 1, heap2, c2);
                lemma_shape_rekeyed(t1, t2);
                lemma_replace_by_successor(t, n, c2);
                assert(tops(t2.children) =~= tops(t.children));
                assert(parent@ == t2.node());
                assert(stored(heap2, t1));
            }
            // Save the parent node.
            self.store(&parent);
            proof {
                lemma_rewrite(heap2, t1, self.heap@, t2);
                lemma_moved_transitive(heap1, t, heap2, t1, self.heap@, t2);
                self.lemma_counted(*old(self), t, t2);
            }
            return (Some(value), Ghost(Some(t2)));
        }
        // Both children have `B - 1` keys: merge (left child, `key`, right child) into a single
        // node of `2 * B - 1` keys, and delete `key` from that node.
        self.merge_and_remove(parent, idx, left_child, right_child, true, key, Ghost(t))
    }

    /// Removes a key from below `parent`, an internal node without that key.
    #[verifier::rlimit(40)]
    fn remove_below(
        &mut self,
        parent: Node,
        idx: usize,
        key: &Key,
        Ghost(t): Ghost<Tree>,
    ) -> (result: (Option<Value>, Ghost<Option<Tree>>))
        requires
            old(self).removable(t),
            t.children.len() > 0,
            parent@ == t.node(),
            parent.address() == t.addr,
            parent.valid(),
            gap_at(t.keys, key@, idx as int),
        ensures
            bytes_of(result.0) == find(entries(t), key@),
            final(self).removed(*old(self), t, key@, result.1@),
        decreases height(t), 2int,
    {
        let ghost heap1 = self.heap@;
        let ghost n = idx as int;
        proof {
            assert(stored(heap1, t.children[n]));
            assert(shape(t.children[n]));
            lemma_unmoved(heap1, t);
            lemma_gap_is(t.keys, key@, n);
        }
        let child: Ptr = parent.child(idx);
        let subtree = self.fetch(child);
        if subtree.keys().len() >= B as usize {
            let (value, Ghost(t2)) = self.remove_from_child(child, key, Ghost(n), Ghost(t));
            return (value, Ghost(Some(t2)));
        }
        // Does the child have a sibling with at least `B` keys?
        if idx > 0 {
            proof {
                assert(stored(heap1, t.children[n - 1]));
                assert(shape(t.children[n - 1]));
            }
            let left_sibling = self.fetch(parent.child(idx - 1));
            if left_sibling.keys().len() >= B as usize {
                self.rotate_right(parent, idx - 1, left_sibling, subtree, Ghost(t));
                let ghost heap2 = self.heap@;
                let ghost t1 = t.rotate_right(n - 1);
                proof {
                    lemma_rotated_right(t, n - 1, key@);
                }
                let (value, Ghost(t2)) = self.remove_from_child(child, key, Ghost(n), Ghost(t1));
                proof {
                    lemma_moved_transitive(heap1, t, heap2, t1, self.heap@, t2);
                    self.lemma_counted(*old(self), t, t2);
                }
                return (value, Ghost(Some(t2)));
            }
        }
        if idx + 1 < parent.num_children() {
            proof {
                assert(stored(heap1, t.children[n + 1]));
                assert(shape(t.children[n + 1]));
            }
            let right_sibling = self.fetch(parent.child(idx + 1));
            if right_sibling.keys().len() >= B as usize {
                self.rotate_left(parent, idx, subtree, right_sibling, Ghost(t));
                let ghost heap2 = self.heap@;
                let ghost t1 = t.rotate_left(n);
                proof {
                    lemma_rotated_left(t, n, key@);
                }
                let (value, Ghost(t2)) = self.remove_from_child(child, key, Ghost(n), Ghost(t1));
                proof {
                    lemma_moved_transitive(heap1, t, heap2, t1, self.heap@, t2);
                    self.lemma_counted(*old(self), t, t2);
                }
                return (value, Ghost(Some(t2)));
            }
        }
        // All the siblings have `B - 1` keys.
        if idx > 0 {
            // Merge the child into its left sibling.
            let left_sibling = self.fetch(parent.child(idx - 1));
            self.merge_and_remove(parent, idx - 1, left_sibling, subtree, true, key, Ghost(t))
        } else {
            // Merge the child into its right sibling.
            let right_sibling = self.fetch(parent.child(idx + 1));
            self.merge_and_remove(parent, idx, subtree, right_sibling, false, key, Ghost(t))
        }
    }

    /// Removes a key from a child of the tree `t` that can spare an entry.
    fn remove_from_child(
        &mut self,
        child: Ptr,
        key: &Key,
        Ghost(i): Ghost<int>,
        Ghost(t): Ghost<Tree>,
    ) -> (result: (Option<Value>, Ghost<Tree>))
        requires
            old(self).holds(),
            sound(old(self).heap@, t),
            shape(t),
            sorted(entries(t)),
            old(self).heap@.contains_key(old(self).root_offset),
            t.addr == old(self).root_offset || count(t, old(self).root_offset) == 0,
            t.children.len() > 0,
            gap_at(t.keys, key@, i),
            child == t.children[i].addr,
            t.children[i].keys.len() >= B,
        ensures
            bytes_of(result.0) == find(entries(t), key@),
            final(self).holds(),
            final(self).same_apart_from_nodes(*old(self)),
            final(self).memory.bytes().len() == old(self).memory.bytes().len(),
            ({
                let t2 = result.1@;
                &&& sound(final(self).heap@, t2)
                &&& moved(old(self).heap@, t, final(self).heap@, t2)
                &&& shape(t2)
                &&& height(t2) == height(t)
                &&& t2.addr == t.addr
                &&& t2.keys.len() == t.keys.len()
                &&& entries(t2) == del(entries(t), key@)
                &&& t2 == t.with_child(i, shrunk(t.children[i], key@))
                &&& final(self).allocator.num_allocations() + nodes(t)
                    == old(self).allocator.num_allocations() + nodes(t2)
            }),
        decreases height(t), 0int,
    {
        let ghost heap1 = self.heap@;
        let ghost c = t.children[i];
        proof {
            self.lemma_child_removable(t, i);
        }
        let (value, Ghost(left)) = self.remove_helper(child, key, Ghost(c));
        let ghost c2 = left->0;
        proof {
            lemma_descend(heap1, t, i, self.heap@, c2);
            lemma_gap_operations(subs(t), seps(t), key@, seq![], i);
            self.lemma_counted(*old(self), t, t.with_child(i, c2));
        }
        (value, Ghost(t.with_child(i, c2)))
    }

    /// Merges two neighbours among the children of `parent` that have too few entries, and
    /// removes a key from the merged node.
    fn merge_and_remove(
        &mut self,
        parent: Node,
        i: usize,
        left: Node,
        right: Node,
        into_left: bool,
        key: &Key,
        Ghost(t): Ghost<Tree>,
    ) -> (result: (Option<Value>, Ghost<Option<Tree>>))
        requires
            old(self).removable(t),
            i < t.children.len() - 1,
            parent@ == t.node(),
            parent.address() == t.addr,
            parent.valid(),
            left@ == t.children[i as int].node(),
            left.address() == t.children[i as int].addr,
            left.valid(),
            right@ == t.children[i + 1].node(),
            right.address() == t.children[i + 1].addr,
            right.valid(),
            left@.keys.len() + right@.keys.len() < CAPACITY,
            gap_at(t.keys.remove(i as int), key@, i as int),
            ({
                let t2 = t.merge(
                    i as int,
                    if into_left {
                        left.address()
                    } else {
                        right.address()
                    },
                );
                shrunk(t, key@) == t2.with_child(i as int, shrunk(t2.children[i as int], key@))
            }),
        ensures
            bytes_of(result.0) == find(entries(t), key@),
            final(self).removed(*old(self), t, key@, result.1@),
        decreases height(t), 1int,
    {
        let ghost heap1 = self.heap@;
        let ghost n = i as int;
        proof {
            assert(shape(t.children[n]) && shape(t.children[n + 1]));
        }
        let merged: Ptr = self.merge_children(parent, i, left, right, into_left, Ghost(t));
        let ghost heap2 = self.heap@;
        let ghost t2 = t.merge(n, merged);
        if merged == self.root_offset {
            proof {
                lemma_merged_child(t, n, merged);
                assert(t.keys.len() == 1) by {
                    if t.keys.len() > 1 {
                        lemma_child_distinct(t2, n);
                        lemma_child_count(t2, n, merged);
                        assert(count(t2.children[n], merged) > 0);
                    }
                }
            }
            let ghost t3 = t2.children[0];
            proof {
                assert(heap2.contains_key(t3.addr));
            }
            let (value, Ghost(left)) = self.remove_helper(merged, key, Ghost(t3));
            proof {
                lemma_shrunk_root(t3, key@);
                lemma_moved_transitive(heap1, t, heap2, t3, self.heap@, left->0);
                self.lemma_counted(*old(self), t, left->0);
            }
            (value, Ghost(left))
        } else {
            proof {
                lemma_merged_child(t, n, merged);
            }
            let (value, Ghost(t3)) = self.remove_from_child(merged, key, Ghost(n), Ghost(t2));
            proof {
                lemma_moved_transitive(heap1, t, heap2, t2, self.heap@, t3);
                self.lemma_counted(*old(self), t, t3);
            }
            (value, Ghost(Some(t3)))
        }
    }

    /// Merges two neighbours among the children of `parent`, and the entry between them. If
    /// `parent` has no other entries, it is the root: the merged node takes its place.
    fn merge_children(
        &mut self,
        parent: Node,
        i: usize,
        left: Node,
        right: Node,
        into_left: bool,
        Ghost(t): Ghost<Tree>,
    ) -> (merged: Ptr)
        requires
            old(self).holds(),
            sound(old(self).heap@, t),
            shape(t),
            sorted(entries(t)),
            i < t.children.len() - 1,
            parent@ == t.node(),
            parent.address() == t.addr,
            parent.valid(),
            left@ == t.children[i as int].node(),
            left.address() == t.children[i as int].addr,
            left.valid(),
            right@ == t.children[i + 1].node(),
            right.address() == t.children[i + 1].addr,
            right.valid(),
            left@.keys.len() + right@.keys.len() < CAPACITY,
            t.keys.len() == 1 ==> t.addr == old(self).root_offset,
        ensures
            merged == if into_left {
                t.children[i as int].addr
            } else {
                t.children[i + 1].addr
            },
            final(self).holds(),
            final(self).max_key_size == old(self).max_key_size,
            final(self).max_value_size == old(self).max_value_size,
            final(self).tree == old(self).tree,
            same_bounds(old(self).memory, final(self).memory),
            final(self).memory.bytes().len() == old(self).memory.bytes().len(),
            final(self).allocator.num_allocations() == old(self).allocator.num_allocations() - (
            if t.keys.len() == 1 {
                2int
            } else {
                1
            }),
            t.keys.len() > 1 ==> {
                let t2 = t.merge(i as int, merged);
                &&& sound(final(self).heap@, t2)
                &&& moved(old(self).heap@, t, final(self).heap@, t2)
                &&& shape(t2)
                &&& height(t2) == height(t)
                &&& entries(t2) == entries(t)
                &&& final(self).root_offset == old(self).root_offset
            },
            t.keys.len() == 1 ==> {
                let t2 = t.merge(i as int, merged).children[0];
                &&& sound(final(self).heap@, t2)
                &&& moved(old(self).heap@, t, final(self).heap@, t2)
                &&& shape(t2)
                &&& height(t2) < height(t)
                &&& entries(t2) == entries(t)
                &&& t2.addr == merged
                &&& t2.keys.len() > 0
                &&& final(self).root_offset == merged
            },
    {
        let ghost heap1 = self.heap@;
        let ghost n = i as int;
        let ghost l = t.children[n];
        let ghost r = t.children[n + 1];
        proof {
            lemma_same_kind(t, n, n + 1);
            lemma_keys_around(t, n);
            assert(shape(t.children[n]) && shape(t.children[n + 1]));
            assert(stored(heap1, t.children[n]) && stored(heap1, t.children[n + 1]));
            lemma_transitive(l.keys[0], t.keys[n], r.keys[0]);
            lemma_total(l.keys[0], r.keys[0]);
            lemma_neighbours_apart(t, n);
        }
        let mut parent = parent;
        let median = parent.remove_entry(i);
        let merged = if into_left {
            self.merge(right, left, median)
        } else {
            self.merge(left, right, median)
        };
        let address: Ptr = merged.address();
        let ghost joined = l.joined(t.keys[n], t.values[n], r, address);
        let ghost t2 = t.merge(n, address);
        let ghost heap2 = self.heap@;
        let ghost heap3 = heap2.insert(t.addr, Some(t2.node()));
        let _ = parent.remove_child(if into_left {
            i + 1
        } else {
            i
        });
        proof {
            assert(tops(joined.children) =~= tops(l.children) + tops(r.children));
            assert(merged@ == joined.node());
            assert(tops(t2.children) =~= parent@.children);
            assert(parent@ == t2.node());
            lemma_merge(heap1, t, n, address, heap3);
        }
        if parent.keys().len() == 0 {
            self.deallocate(parent.address());
            self.root_offset = address;
            proof {
                assert(self.heap@ =~= heap3.remove(t.addr));
                lemma_collapse(heap3, t2, self.heap@);
                lemma_moved_transitive(heap1, t, heap3, t2, self.heap@, t2.children[0]);
            }
        } else {
            self.store(&parent);
        }
        address
    }

    /// Merges `source`, `median` and `into` into one node, in the chunk of `into`. The chunk of
    /// `source` is given back.
    fn merge(&mut self, source: Node, into: Node, median: (Key, Value)) -> (merged: Node)
        requires
            old(self).holds(),
            old(self).heap@.contains_key(source.address()),
            old(self).heap@.contains_key(into.address()),
            source.address() != into.address(),
            source.valid(),
            into.valid(),
            source.is_leaf() == into.is_leaf(),
            source@.keys.len() > 0,
            into@.keys.len() > 0,
            source@.keys.len() + into@.keys.len() < CAPACITY,
            entry_fits(median.0@, median.1@),
        ensures
            final(self).holds(),
            final(self).same_apart_from_nodes(*old(self)),
            final(self).memory.bytes().len() == old(self).memory.bytes().len(),
            final(self).allocator.num_allocations() == old(self).allocator.num_allocations() - 1,
            final(self).heap@ == old(self).heap@.insert(into.address(), Some(merged@)).remove(
                source.address(),
            ),
            merged.address() == into.address(),
            merged@ == merged_node(source@, into@, median.0@, median.1@),
            merged.is_leaf() == into.is_leaf(),
            merged.valid(),
    {
        let into_address: Ptr = into.address();
        let source_address: Ptr = source.address();
        // Figure out which node contains lower keys than the other.
        let source_is_lower: bool = match place(&source.keys()[0], &into.keys()[0]) {
            Place::Before => true,
            Place::Same => false,
            Place::After => false,
        };
        proof {
            lemma_total(source@.keys[0], into@.keys[0]);
            lemma_total(into@.keys[0], source@.keys[0]);
        }
        let (mut lower, higher) = if source_is_lower {
            (source, into)
        } else {
            (into, source)
        };
        let ghost low = lower@;
        let ghost (k, v) = (median.0@, median.1@);
        let end: usize = lower.keys().len();
        lower.insert_entry(end, median);
        assert(lower@.keys =~= low.keys.push(k));
        assert(lower@.values =~= low.values.push(v));
        lower.append(higher);
        lower.set_address(into_address);
        self.store(&lower);
        self.deallocate(source_address);
        lower
    }

    /// Moves an entry of `parent` down into a child, and the last entry of the child before it up
    /// into `parent`.
    fn rotate_right(
        &mut self,
        parent: Node,
        i: usize,
        left: Node,
        right: Node,
        Ghost(t): Ghost<Tree>,
    )
        requires
            old(self).holds(),
            sound(old(self).heap@, t),
            shape(t),
            i < t.children.len() - 1,
            parent@ == t.node(),
            parent.address() == t.addr,
            parent.valid(),
            left@ == t.children[i as int].node(),
            left.address() == t.children[i as int].addr,
            left.valid(),
            right@ == t.children[i + 1].node(),
            right.address() == t.children[i + 1].addr,
            right.valid(),
            left@.keys.len() >= B,
            right@.keys.len() < CAPACITY,
        ensures
            final(self).holds(),
            final(self).same_apart_from_nodes(*old(self)),
            final(self).memory.bytes().len() == old(self).memory.bytes().len(),
            final(self).allocator.num_allocations() == old(self).allocator.num_allocations(),
            ({
                let t2 = t.rotate_right(i as int);
                &&& sound(final(self).heap@, t2)
                &&& moved(old(self).heap@, t, final(self).heap@, t2)
                &&& shape(t2)
                &&& height(t2) == height(t)
                &&& entries(t2) == entries(t)
            }),
    {
        let ghost heap1 = self.heap@;
        let ghost n = i as int;
        let ghost l = t.children[n];
        let ghost r = t.children[n + 1];
        proof {
            lemma_same_kind(t, n, n + 1);
            assert(shape(t.children[n]) && shape(t.children[n + 1]));
            assert(stored(heap1, t.children[n]) && stored(heap1, t.children[n + 1]));
        }
        let (mut parent, mut left, mut right) = (parent, left, right);
        // Move one entry from the parent into the right child.
        right.insert_entry(0, parent.entry(i));
        // Move one entry from the left child into the parent.
        let last: usize = left.keys().len() - 1;
        let entry = left.remove_entry(last);
        parent.set_entry(i, entry);
        // Move the last child of the left child into the right child.
        let num: usize = left.num_children();
        if num > 0 {
            let child: Ptr = left.remove_child(num - 1);
            right.insert_child(0, child);
        }
        let ghost low = l.without_last();
        let ghost high = r.with_first(t.keys[n], t.values[n], l);
        proof {
            assert(left@.keys =~= low.keys);
            assert(left@.values =~= low.values);
            assert(tops(low.children) =~= left@.children);
            assert(left@ == low.node());
            assert(tops(high.children) =~= right@.children);
            assert(right@ == high.node());
            assert(tops(t.rotate_right(n).children) =~= parent@.children);
            assert(parent@ == t.rotate_right(n).node());
        }
        self.store(&left);
        self.store(&right);
        self.store(&parent);
        proof {
            lemma_rotate_right(heap1, t, n, self.heap@);
        }
    }

    /// Moves an entry of `parent` down into a child, and the first entry of the next child up into
    /// `parent`.
    fn rotate_left(
        &mut self,
        parent: Node,
        i: usize,
        left: Node,
        right: Node,
        Ghost(t): Ghost<Tree>,
    )
        requires
            old(self).holds(),
            sound(old(self).heap@, t),
            shape(t),
            i < t.children.len() - 1,
            parent@ == t.node(),
            parent.address() == t.addr,
            parent.valid(),
            left@ == t.children[i as int].node(),
            left.address() == t.children[i as int].addr,
            left.valid(),
            right@ == t.children[i + 1].node(),
            right.address() == t.children[i + 1].addr,
            right.valid(),
            left@.keys.len() < CAPACITY,
            right@.keys.len() >= B,
        ensures
            final(self).holds(),
            final(self).same_apart_from_nodes(*old(self)),
            final(self).memory.bytes().len() == old(self).memory.bytes().len(),
            final(self).allocator.num_allocations() == old(self).allocator.num_allocations(),
            ({
                let t2 = t.rotate_left(i as int);
                &&& sound(final(self).heap@, t2)
                &&& moved(old(self).heap@, t, final(self).heap@, t2)
                &&& shape(t2)
                &&& height(t2) == height(t)
                &&& entries(t2) == entries(t)
            }),
    {
        let ghost heap1 = self.heap@;
        let ghost n = i as int;
        let ghost l = t.children[n];
        let ghost r = t.children[n + 1];
        proof {
            lemma_same_kind(t, n, n + 1);
            assert(shape(t.children[n]) && shape(t.children[n + 1]));
            assert(stored(heap1, t.children[n]) && stored(heap1, t.children[n + 1]));
        }
        let (mut parent, mut left, mut right) = (parent, left, right);
        // Move one entry from the parent into the left child.
        let end: usize = left.keys().len();
        left.insert_entry(end, parent.entry(i));
        // Move one entry from the right child into the parent.
        let entry = right.remove_entry(0);
        parent.set_entry(i, entry);
        // Move the first child of the right child into the left child.
        let num: usize = left.num_children();
        if num > 0 {
            let child: Ptr = right.remove_child(0);
            left.insert_child(num, child);
        }
        let ghost low = l.with_last(t.keys[n], t.values[n], r);
        let ghost high = r.without_first();
        proof {
            assert(left@.keys =~= low.keys);
            assert(left@.values =~= low.values);
            assert(tops(low.children) =~= left@.children);
            assert(left@ == low.node());
            assert(right@.keys =~= high.keys);
            assert(right@.values =~= high.values);
            assert(tops(high.children) =~= right@.children);
            assert(right@ == high.node());
            assert(tops(t.rotate_left(n).children) =~= parent@.children);
            assert(parent@ == t.rotate_left(n).node());
        }
        self.store(&left);
        self.store(&right);
        self.store(&parent);
        proof {
            lemma_rotate_left(heap1, t, n, self.heap@);
        }
    }

    /// The last entry of the tree below a node.
    fn get_max(&self, node: &Node, Ghost(t): Ghost<Tree>) -> (entry: (Key, Value))
        requires
            self.holds(),
            stored(self.heap@, t),
            shape(t),
            t.keys.len() > 0,
            node@ == t.node(),
            node.valid(),
        ensures
            entries(t).len() > 0,
            (entry.0@, entry.1@) == entries(t).last(),
            entry_fits(entry.0@, entry.1@),
        decreases height(t),
    {
        proof {
            lemma_last_entry(t);
        }
        let num: usize = node.num_children();
        if num == 0 {
            node.entry(node.keys().len() - 1)
        } else {
            let ghost last = t.children[num - 1];
            proof {
                assert(stored(self.heap@, t.children[num - 1]));
                assert(shape(t.children[num - 1]));
            }
            let child = self.fetch(node.child(num - 1));
            self.get_max(&child, Ghost(last))
        }
    }

    /// The first entry of the tree below a node.
    fn get_min(&self, node: &Node, Ghost(t): Ghost<Tree>) -> (entry: (Key, Value))
        requires
            self.holds(),
            stored(self.heap@, t),
            shape(t),
            t.keys.len() > 0,
            node@ == t.node(),
            node.valid(),
        ensures
            entries(t).len() > 0,
            (entry.0@, entry.1@) == entries(t)[0],
            entry_fits(entry.0@, entry.1@),
        decreases height(t),
    {
        proof {
            lemma_first_entry(t);
        }
        if node.num_children() == 0 {
            node.entry(0)
        } else {
            let ghost first = t.children[0];
            proof {
                assert(stored(self.heap@, t.children[0]));
                assert(shape(t.children[0]));
            }
            let child = self.fetch(node.child(0));
            self.get_min(&child, Ghost(first))
        }
    }
}

// What a memory has room for.

/// All chunks can be allocated if those can be that are left.
proof fn lemma_all_obtained<M: Memory64>(
    before: StableBTreeMap<M>,
    after: StableBTreeMap<M>,
    chunks: nat,
)
    requires
        before.holds(),
        after.holds(),
        same_bounds(before.memory, after.memory),
        after.memory.bytes().len() == before.allocator.size_with(
            before.memory.bytes().len(),
            after.allocator.num_allocations() as int,
        ),
        before.allocator.num_allocations() <= after.allocator.num_allocations(),
        forall|n: int|
            before.allocator.num_allocations() < n <= after.allocator.num_allocations()
                ==> #[trigger] before.obtains(n),
    ensures
        after.obtains_all(chunks) <==> before.obtains_all(
            (chunks + (after.allocator.num_allocations() - before.allocator.num_allocations()))
                as nat,
        ),
        forall|n: int| #[trigger] after.obtains_only(n) ==> before.obtains_only(n),
{
    let num = before.allocator.num_allocations() as int;
    let reached = after.allocator.num_allocations() as int;
    let all = (chunks + (reached - num)) as nat;
    assert forall|n: int| reached < n implies #[trigger] after.obtains(n) == before.obtains(n) by {
        if num < reached {
            assert(before.obtains(reached));
        }
        before.lemma_obtains(after, n);
    }
    assert forall|n: int| #[trigger] after.obtains_only(n) implies before.obtains_only(n) by {
        assert forall|i: int| num < i <= n implies #[trigger] before.obtains(i) by {
            if i > reached {
                assert(after.obtains(i));
            }
        }
        assert(!after.obtains(n + 1));
    }
    if before.obtains_all(all) {
        assert forall|n: int| reached < n <= reached + chunks implies #[trigger] after.obtains(
            n,
        ) by {
            assert(before.obtains(n));
        }
    }
    if after.obtains_all(chunks) {
        assert forall|n: int| num < n <= num + all implies #[trigger] before.obtains(n) by {
            if n > reached {
                assert(after.obtains(n));
            }
        }
    }
}

// What a memory holds.

/// A memory holds one map at most.
pub proof fn lemma_stores_one(bytes: Seq<u8>, m1: Map<Seq<u8>, Seq<u8>>, m2: Map<Seq<u8>, Seq<u8>>)
    requires
        stores(bytes, m1),
        stores(bytes, m2),
    ensures
        m1 == m2,
{
    let (heap1, tree1) = choose|heap: Heap, tree: Option<Tree>| #[trigger]
        stores_as(bytes, heap, tree) && map_in(tree) == m1;
    let (heap2, tree2) = choose|heap: Heap, tree: Option<Tree>| #[trigger]
        stores_as(bytes, heap, tree) && map_in(tree) == m2;
    lemma_stores_unique(bytes, heap1, tree1, heap2, tree2);
}

/// A memory that holds a map has the headers that loading it asks for.
pub proof fn lemma_stores_loadable(bytes: Seq<u8>, m: Map<Seq<u8>, Seq<u8>>)
    requires
        stores(bytes, m),
    ensures
        bytes.len() >= WASM_PAGE_SIZE,
        bytes.take(3) == btree_magic(),
        bytes[3] == LAYOUT_VERSION,
        loadable(bytes),
{
    let (heap, tree) = choose|heap: Heap, tree: Option<Tree>| #[trigger]
        stores_as(bytes, heap, tree) && map_in(tree) == m;
    let header = bytes.subrange(
        BTREE_HEADER_SIZE as int,
        BTREE_HEADER_SIZE + ALLOCATOR_HEADER_SIZE,
    );
    Allocator::lemma_header(header, BTREE_HEADER_SIZE);
    (allocator_in(bytes)->0).lemma_first(bytes, heap.dom());
}

proof fn lemma_stores_unique(
    bytes: Seq<u8>,
    heap1: Heap,
    tree1: Option<Tree>,
    heap2: Heap,
    tree2: Option<Tree>,
)
    requires
        stores_as(bytes, heap1, tree1),
        stores_as(bytes, heap2, tree2),
    ensures
        tree1 == tree2,
        heap1 == heap2,
{
    let (r1, k1, v1) = choose|r: Ptr, k: u32, v: u32| #[trigger]
        header_in(bytes, r, k, v) && tree_in(heap1, r, tree1);
    let (r2, k2, v2) = choose|r: Ptr, k: u32, v: u32| #[trigger]
        header_in(bytes, r, k, v) && tree_in(heap2, r, tree2);
    let allocator = allocator_in(bytes)->0;
    assert(r1 == r2);
    if tree1 is Some {
        assert(heap1.dom().contains((tree1->0).addr));
        allocator.lemma_live(bytes, heap1.dom(), (tree1->0).addr);
    }
    if tree2 is Some {
        assert(heap2.dom().contains((tree2->0).addr));
        allocator.lemma_live(bytes, heap2.dom(), (tree2->0).addr);
    }
    if tree1 is Some && tree2 is Some {
        lemma_stored_unique(heap1, tree1->0, heap2, tree2->0);
    }
    assert forall|a: Ptr| heap1.contains_key(a) <==> heap2.contains_key(a) by {}
    assert(heap1 =~= heap2);
}

proof fn lemma_header_prefix(
    a: Seq<u8>,
    b: Seq<u8>,
    root_offset: Ptr,
    max_key_size: u32,
    max_value_size: u32,
)
    requires
        header_in(a, root_offset, max_key_size, max_value_size),
        b.len() >= BTREE_HEADER_SIZE,
        forall|i: int| 0 <= i < BTREE_HEADER_SIZE ==> #[trigger] b[i] == a[i],
    ensures
        header_in(b, root_offset, max_key_size, max_value_size),
{
    assert(b.take(3) =~= a.take(3));
    assert(b.subrange(4, 12) =~= a.subrange(4, 12));
    assert(b.subrange(12, 16) =~= a.subrange(12, 16));
    assert(b.subrange(16, 20) =~= a.subrange(16, 20));
}

proof fn lemma_laid_out(bytes: Seq<u8>, heap: Heap, t: Tree)
    requires
        stored(heap, t),
        forall|a: Ptr| #[trigger] heap.contains_key(a) ==> node_at(bytes, a) == heap[a],
    ensures
        laid_out(bytes, t),
    decreases t,
{
    assert forall|i: int| 0 <= i < t.children.len() implies laid_out(
        bytes,
        #[trigger] t.children[i],
    ) by {
        lemma_laid_out(bytes, heap, t.children[i]);
    }
}

} // verus!
