//! The nodes of a tree, and how a node is laid out in memory.
//!
//! A node takes up `NODE_SIZE` bytes:
//!
//! | bytes            | contents                                                      |
//! |------------------|---------------------------------------------------------------|
//! | 3                | the magic `BTN`                                               |
//! | 1                | the version of the layout                                     |
//! | 1                | the type of the node                                          |
//! | 4                | the number of entries                                         |
//! | 136 per entry    | length and bytes of the key, then length and bytes of the value |
//! | 8 per child      | the address of the child                                      |
//!
//! There is room for `CAPACITY` entries, and for one child more. A key and a value each have
//! room for 64 bytes.
use crate::codec::{get_u32, get_u64, le_value, u32_bytes, u64_bytes};
use crate::error::WriteError;
use crate::memory::{has_place, same_bounds, write_result, Memory64};
use crate::order::views;
use vstd::prelude::*;

verus! {

/// The address of a node.
pub type Ptr = u64;

/// The address of nothing.
pub const NULL: Ptr = 0;

pub type Key = Vec<u8>;

pub type Value = Vec<u8>;

/// The minimum degree of a tree.
pub const B: u64 = 6;

/// The number of entries that a node can hold.
pub const CAPACITY: u64 = 2 * B - 1;

/// The number of bytes that a key can have.
pub const MAX_KEY_SIZE: u32 = 64;

/// The number of bytes that a value can have.
pub const MAX_VALUE_SIZE: u32 = 64;

pub const LAYOUT_VERSION: u8 = 1;

pub const LEAF_NODE_TYPE: u8 = 0;

pub const INTERNAL_NODE_TYPE: u8 = 1;

/// The number of bytes that a node takes up in memory.
pub const NODE_SIZE: u64 = 1601;

/// A node without children.
#[derive(Debug, PartialEq, Eq)]
pub struct LeafNode {
    pub address: Ptr,
    pub keys: Vec<Key>,
    pub values: Vec<Value>,
}

/// A node with children: one before each of its keys, and one after the last key.
#[derive(Debug, PartialEq, Eq)]
pub struct InternalNode {
    pub address: Ptr,
    pub keys: Vec<Key>,
    pub values: Vec<Value>,
    pub children: Vec<Ptr>,
}

#[derive(Debug, PartialEq, Eq)]
pub enum Node {
    Leaf(LeafNode),
    Internal(InternalNode),
}

/// What a node holds. A leaf has no children.
pub struct NodeView {
    pub keys: Seq<Seq<u8>>,
    pub values: Seq<Seq<u8>>,
    pub children: Seq<Ptr>,
}

impl NodeView {
    /// Whether no key and no value is too long.
    pub open spec fn sizes_fit(self) -> bool {
        &&& forall|i: int|
            0 <= i < self.keys.len() ==> (#[trigger] self.keys[i]).len() <= MAX_KEY_SIZE
        &&& forall|i: int|
            0 <= i < self.values.len() ==> (#[trigger] self.values[i]).len() <= MAX_VALUE_SIZE
    }

    /// Whether there is a place for everything that the node holds.
    pub open spec fn fits(self) -> bool {
        &&& self.keys.len() == self.values.len() <= CAPACITY
        &&& self.children.len() == 0 || self.children.len() == self.keys.len() + 1
        &&& self.sizes_fit()
    }
}

// The layout: a header of 9 bytes, then 11 places for an entry, of 136 bytes each, then 12 places
// for the address of a child.

/// The number of entries of a node.
pub open spec fn count_in(image: Seq<u8>) -> nat {
    le_value(image.subrange(5, 9))
}

/// The length of the `i`-th key.
pub open spec fn key_len_in(image: Seq<u8>, i: int) -> nat {
    le_value(image.subrange(9 + 136 * i, 13 + 136 * i))
}

/// The `i`-th key.
pub open spec fn key_in(image: Seq<u8>, i: int) -> Seq<u8> {
    image.subrange(13 + 136 * i, 13 + 136 * i + key_len_in(image, i))
}

/// The length of the `i`-th value.
pub open spec fn value_len_in(image: Seq<u8>, i: int) -> nat {
    le_value(image.subrange(77 + 136 * i, 81 + 136 * i))
}

/// The `i`-th value.
pub open spec fn value_in(image: Seq<u8>, i: int) -> Seq<u8> {
    image.subrange(81 + 136 * i, 81 + 136 * i + value_len_in(image, i))
}

/// The address of the `i`-th child.
pub open spec fn child_in(image: Seq<u8>, i: int) -> Ptr {
    le_value(image.subrange(1505 + 8 * i, 1513 + 8 * i)) as u64
}

/// Whether the `i`-th key and value are no longer than the places that they have.
pub open spec fn entry_valid_in(image: Seq<u8>, i: int) -> bool {
    key_len_in(image, i) <= MAX_KEY_SIZE && value_len_in(image, i) <= MAX_VALUE_SIZE
}

/// Whether there is a node: its magic, its version, its type and the number of its entries.
pub open spec fn header_valid_in(image: Seq<u8>) -> bool {
    &&& image[0] == 66
    &&& image[1] == 84
    &&& image[2] == 78
    &&& image[3] == LAYOUT_VERSION
    &&& image[4] == LEAF_NODE_TYPE || image[4] == INTERNAL_NODE_TYPE
    &&& count_in(image) <= CAPACITY
}

/// The node that is laid out in `image`, if there is one.
pub open spec fn decode(image: Seq<u8>) -> Option<NodeView> {
    if image.len() == NODE_SIZE && header_valid_in(image) && (forall|i: int|
        0 <= i < count_in(image) ==> #[trigger] entry_valid_in(image, i)) {
        Some(
            NodeView {
                keys: Seq::new(count_in(image), |i: int| key_in(image, i)),
                values: Seq::new(count_in(image), |i: int| value_in(image, i)),
                children: if image[4] == LEAF_NODE_TYPE {
                    seq![]
                } else {
                    Seq::new(count_in(image) + 1, |i: int| child_in(image, i))
                },
            },
        )
    } else {
        None
    }
}

/// The node that is stored at `address`, if there is one.
#[verifier::opaque]
pub open spec fn node_at(bytes: Seq<u8>, address: Ptr) -> Option<NodeView> {
    if address + NODE_SIZE <= bytes.len() {
        decode(bytes.subrange(address as int, address + NODE_SIZE))
    } else {
        None
    }
}

/// What is laid out somewhere fits.
pub proof fn lemma_decoded_fits(image: Seq<u8>)
    ensures
        decode(image) matches Some(node) ==> node.fits(),
{
    if let Some(node) = decode(image) {
        assert forall|i: int| 0 <= i < node.keys.len() implies (#[trigger] node.keys[i]).len()
            <= MAX_KEY_SIZE by {
            assert(entry_valid_in(image, i));
        }
        assert forall|i: int| 0 <= i < node.values.len() implies (#[trigger] node.values[i]).len()
            <= MAX_VALUE_SIZE by {
            assert(entry_valid_in(image, i));
        }
    }
}

/// What is stored somewhere fits.
pub proof fn lemma_stored_fits(bytes: Seq<u8>, address: Ptr)
    ensures
        node_at(bytes, address) matches Some(node) ==> node.fits(),
{
    reveal(node_at);
    lemma_decoded_fits(bytes.subrange(address as int, address + NODE_SIZE));
}

/// Which node is stored at an address depends on `NODE_SIZE` bytes only.
pub proof fn lemma_node_at_same(before: Seq<u8>, after: Seq<u8>, address: Ptr)
    requires
        address + NODE_SIZE <= before.len(),
        before.len() <= after.len(),
        forall|i: int| address <= i < address + NODE_SIZE ==> #[trigger] after[i] == before[i],
    ensures
        node_at(after, address) == node_at(before, address),
{
    reveal(node_at);
    assert(after.subrange(address as int, address + NODE_SIZE) =~= before.subrange(
        address as int,
        address + NODE_SIZE,
    ));
}

/// Bytes from `from` up to `to` are the same.
spec fn same_between(a: Seq<u8>, b: Seq<u8>, from: int, to: int) -> bool {
    forall|i: int| from <= i < to ==> #[trigger] a[i] == b[i]
}

spec fn entry_is(image: Seq<u8>, i: int, key: Seq<u8>, value: Seq<u8>) -> bool {
    &&& entry_valid_in(image, i)
    &&& key_in(image, i) == key
    &&& value_in(image, i) == value
}

proof fn lemma_entry_same(a: Seq<u8>, b: Seq<u8>, i: int)
    requires
        a.len() == b.len() == NODE_SIZE,
        0 <= i < CAPACITY,
        same_between(a, b, 9 + 136 * i, 145 + 136 * i),
        entry_valid_in(a, i),
    ensures
        entry_is(b, i, key_in(a, i), value_in(a, i)),
{
    assert(a.subrange(9 + 136 * i, 13 + 136 * i) =~= b.subrange(9 + 136 * i, 13 + 136 * i));
    assert(a.subrange(77 + 136 * i, 81 + 136 * i) =~= b.subrange(77 + 136 * i, 81 + 136 * i));
    assert(key_in(a, i) =~= key_in(b, i));
    assert(value_in(a, i) =~= value_in(b, i));
}

fn write_entry(image: &mut Vec<u8>, i: usize, key: &Vec<u8>, value: &Vec<u8>)
    requires
        old(image)@.len() == NODE_SIZE,
        i < CAPACITY,
        key@.len() <= MAX_KEY_SIZE,
        value@.len() <= MAX_VALUE_SIZE,
    ensures
        final(image)@.len() == NODE_SIZE,
        same_between(old(image)@, final(image)@, 0, 9 + 136 * i),
        same_between(old(image)@, final(image)@, 145 + 136 * i, NODE_SIZE as int),
        entry_is(final(image)@, i as int, key@, value@),
{
    let start: u64 = 9 + 136 * (i as u64);
    let key_len: [u8; 4] = u32_bytes(key.len() as u32);
    let value_len: [u8; 4] = u32_bytes(value.len() as u32);
    image.write(start, key_len.as_slice());
    image.write(start + 4, key.as_slice());
    image.write(start + 68, value_len.as_slice());
    image.write(start + 72, value.as_slice());
    proof {
        assert(image@.subrange(9 + 136 * i, 13 + 136 * i) =~= key_len@);
        assert(image@.subrange(77 + 136 * i, 81 + 136 * i) =~= value_len@);
        assert(key_in(image@, i as int) =~= key@);
        assert(value_in(image@, i as int) =~= value@);
    }
}

fn write_child(image: &mut Vec<u8>, i: usize, child: Ptr)
    requires
        old(image)@.len() == NODE_SIZE,
        i <= CAPACITY,
    ensures
        final(image)@.len() == NODE_SIZE,
        same_between(old(image)@, final(image)@, 0, 1505 + 8 * i),
        same_between(old(image)@, final(image)@, 1513 + 8 * i, NODE_SIZE as int),
        child_in(final(image)@, i as int) == child,
{
    let bytes: [u8; 8] = u64_bytes(child);
    image.write(1505 + 8 * (i as u64), bytes.as_slice());
    assert(image@.subrange(1505 + 8 * i, 1513 + 8 * i) =~= bytes@);
}

/// A copy of `len` bytes at `at`.
fn copy_bytes(bytes: &Vec<u8>, at: usize, len: usize) -> (copy: Vec<u8>)
    requires
        at + len <= bytes@.len(),
    ensures
        copy@ == bytes@.subrange(at as int, at + len),
{
    let mut copy: Vec<u8> = Vec::new();
    let mut i: usize = 0;
    assert(at + len <= bytes.len());
    while i < len
        invariant
            i <= len,
            at + len <= bytes.len(),
            copy@ == bytes@.subrange(at as int, at + i),
        decreases len - i,
    {
        copy.push(bytes[at + i]);
        i += 1;
        assert(copy@ =~= bytes@.subrange(at as int, at + i));
    }
    copy
}

impl LeafNode {
    /// An empty leaf.
    pub fn new(address: Ptr) -> (leaf: LeafNode)
        ensures
            leaf.address == address,
            leaf.keys@ == Seq::<Key>::empty(),
            leaf.values@ == Seq::<Value>::empty(),
    {
        LeafNode { address, keys: Vec::new(), values: Vec::new() }
    }
}

impl View for Node {
    type V = NodeView;

    open spec fn view(&self) -> NodeView {
        match self {
            Node::Leaf(leaf) => NodeView {
                keys: views(leaf.keys@),
                values: views(leaf.values@),
                children: seq![],
            },
            Node::Internal(internal) => NodeView {
                keys: views(internal.keys@),
                values: views(internal.values@),
                children: internal.children@,
            },
        }
    }
}

impl Node {
    /// Whether the node is a leaf.
    pub open spec fn is_leaf(&self) -> bool {
        self is Leaf
    }

    /// The address of the node.
    pub open spec fn spec_address(&self) -> Ptr {
        match self {
            Node::Leaf(leaf) => leaf.address,
            Node::Internal(internal) => internal.address,
        }
    }

    /// Whether the node can be stored: everything that it holds fits, and it has children if and
    /// only if it is internal.
    pub open spec fn valid(&self) -> bool {
        &&& self@.fits()
        &&& self.is_leaf() <==> self@.children.len() == 0
    }

    /// An empty leaf.
    pub fn new_leaf(address: Ptr) -> (node: Node)
        ensures
            node.is_leaf(),
            node.spec_address() == address,
            node@ == (NodeView { keys: seq![], values: seq![], children: seq![] }),
    {
        let node = Node::Leaf(LeafNode::new(address));
        assert(node@.keys =~= seq![]);
        assert(node@.values =~= seq![]);
        node
    }

    /// An internal node with neither entries nor children.
    pub fn new_internal(address: Ptr) -> (internal: InternalNode)
        ensures
            internal.address == address,
            internal.keys@ == Seq::<Key>::empty(),
            internal.values@ == Seq::<Value>::empty(),
            internal.children@ == Seq::<Ptr>::empty(),
    {
        InternalNode { address, keys: Vec::new(), values: Vec::new(), children: Vec::new() }
    }

    /// The address of the node.
    #[verifier::when_used_as_spec(spec_address)]
    pub fn address(&self) -> (address: Ptr)
        ensures
            address == self.spec_address(),
    {
        match self {
            Node::Leaf(leaf) => leaf.address,
            Node::Internal(internal) => internal.address,
        }
    }

    /// The keys of the node.
    pub fn keys(&self) -> (keys: &Vec<Key>)
        ensures
            views(keys@) == self@.keys,
    {
        match self {
            Node::Leaf(leaf) => &leaf.keys,
            Node::Internal(internal) => &internal.keys,
        }
    }

    /// The values of the node.
    pub fn values(&self) -> (values: &Vec<Value>)
        ensures
            views(values@) == self@.values,
    {
        match self {
            Node::Leaf(leaf) => &leaf.values,
            Node::Internal(internal) => &internal.values,
        }
    }

    /// Whether there is no place for another entry.
    pub fn is_full(&self) -> (full: bool)
        ensures
            full == (self@.keys.len() >= CAPACITY),
    {
        self.keys().len() as u64 >= CAPACITY
    }

    /// The bytes that the node is stored as.
    fn image(&self) -> (image: Vec<u8>)
        requires
            self.valid(),
        ensures
            image@.len() == NODE_SIZE,
            decode(image@) == Some(self@),
    {
        let count: usize = self.keys().len();
        let node_type: u8 = match self {
            Node::Leaf(_) => LEAF_NODE_TYPE,
            Node::Internal(_) => INTERNAL_NODE_TYPE,
        };
        let mut image: Vec<u8> = vec![0;NODE_SIZE as usize];
        let header: [u8; 5] = [66, 84, 78, LAYOUT_VERSION, node_type];
        let count_bytes: [u8; 4] = u32_bytes(count as u32);
        image.write(0, header.as_slice());
        image.write(5, count_bytes.as_slice());
        assert(image@.subrange(5, 9) =~= count_bytes@);
        let ghost start = image@;
        assert(start[0] == 66 && start[1] == 84 && start[2] == 78);
        assert(start[3] == LAYOUT_VERSION && start[4] == node_type);
        let mut i: usize = 0;
        while i < count
            invariant
                self.valid(),
                i <= count == self@.keys.len(),
                image@.len() == start.len() == NODE_SIZE,
                same_between(start, image@, 0, 9),
                forall|j: int|
                    0 <= j < i ==> entry_is(
                        image@,
                        j,
                        #[trigger] self@.keys[j],
                        self@.values[j],
                    ),
            decreases count - i,
        {
            let ghost before = image@;
            assert(self@.keys[i as int].len() <= MAX_KEY_SIZE);
            assert(self@.values[i as int].len() <= MAX_VALUE_SIZE);
            write_entry(&mut image, i, &self.keys()[i], &self.values()[i]);
            assert forall|j: int| 0 <= j < i implies entry_is(
                image@,
                j,
                #[trigger] self@.keys[j],
                self@.values[j],
            ) by {
                assert(entry_is(before, j, self@.keys[j], self@.values[j]));
                lemma_entry_same(before, image@, j);
            }
            i += 1;
        }
        let ghost filled = image@;
        match self {
            Node::Leaf(_) => {},
            Node::Internal(internal) => {
                let mut i: usize = 0;
                while i < internal.children.len()
                    invariant
                        self.valid(),
                        *self == Node::Internal(*internal),
                        i <= internal.children@.len(),
                        image@.len() == filled.len() == NODE_SIZE,
                        same_between(filled, image@, 0, 1505),
                        forall|j: int|
                            0 <= j < i ==> #[trigger] child_in(image@, j) == internal.children@[j],
                    decreases internal.children.len() - i,
                {
                    let ghost before = image@;
                    write_child(&mut image, i, internal.children[i]);
                    assert forall|j: int| 0 <= j < i implies #[trigger] child_in(image@, j)
                        == internal.children@[j] by {
                        assert(image@.subrange(1505 + 8 * j, 1513 + 8 * j) =~= before.subrange(
                            1505 + 8 * j,
                            1513 + 8 * j,
                        ));
                        assert(child_in(before, j) == internal.children@[j]);
                    }
                    i += 1;
                }
            },
        }
        proof {
            assert(image@.subrange(5, 9) =~= start.subrange(5, 9));
            assert forall|j: int| 0 <= j < count implies entry_is(
                image@,
                j,
                #[trigger] self@.keys[j],
                self@.values[j],
            ) by {
                assert(entry_is(filled, j, self@.keys[j], self@.values[j]));
                lemma_entry_same(filled, image@, j);
            }
            assert forall|j: int| 0 <= j < count implies #[trigger] entry_valid_in(image@, j) by {
                assert(entry_is(image@, j, self@.keys[j], self@.values[j]));
            }
            assert(forall|j: int| 0 <= j < 9 ==> #[trigger] start[j] == filled[j]);
            assert(forall|j: int| 0 <= j < 9 ==> #[trigger] filled[j] == image@[j]);
            assert(image@[4] == start[4]);
            assert(header_valid_in(image@));
            let node = decode(image@)->0;
            assert forall|j: int| 0 <= j < count implies #[trigger] node.keys[j] == self@.keys[j]
                && node.values[j] == self@.values[j] by {
                assert(entry_is(image@, j, self@.keys[j], self@.values[j]));
            }
            assert(node.keys =~= self@.keys);
            assert(node.values =~= self@.values) by {
                assert forall|j: int| 0 <= j < count implies node.values[j]
                    == #[trigger] self@.values[j] by {
                    assert(node.keys[j] == self@.keys[j]);
                }
            }
            assert(node.children =~= self@.children);
        }
        image
    }

    /// Stores the node at its address. The memory is grown first if it is too small.
    pub fn save<M: Memory64>(&self, memory: &mut M) -> (result: Result<(), WriteError>)
        requires
            self.valid(),
        ensures
            exists|image: Seq<u8>|
                {
                    &&& #[trigger] decode(image) == Some(self@)
                    &&& image.len() == NODE_SIZE
                    &&& write_result(
                        old(memory).bytes(),
                        final(memory).bytes(),
                        self.address() as int,
                        image,
                        result,
                    )
                },
            result is Ok ==> node_at(final(memory).bytes(), self.address()) == Some(self@),
            result is Ok <==> has_place(
                *old(memory),
                self.address() as int,
                NODE_SIZE as int,
            ),
            same_bounds(*old(memory), *final(memory)),
    {
        let image: Vec<u8> = self.image();
        let result = crate::memory::write(memory, self.address(), image.as_slice());
        assert(decode(image@) == Some(self@));
        assert(result is Ok ==> node_at(memory.bytes(), self.address()) == Some(self@)) by {
            reveal(node_at);
        }
        result
    }

    /// Loads the node that is stored at `address`.
    pub fn load<M: Memory64>(address: Ptr, memory: &M) -> (node: Node)
        requires
            node_at(memory.bytes(), address) is Some,
        ensures
            node_at(memory.bytes(), address) == Some(node@),
            node.address() == address,
            node.valid(),
    {
        let mut image: Vec<u8> = vec![0;NODE_SIZE as usize];
        proof {
            reveal(node_at);
            lemma_stored_fits(memory.bytes(), address);
        }
        memory.read(address, image.as_mut_slice());
        let ghost stored = decode(image@)->0;
        let count: usize = get_u32(image.as_slice(), 5) as usize;
        let mut keys: Vec<Key> = Vec::new();
        let mut values: Vec<Value> = Vec::new();
        let mut i: usize = 0;
        while i < count
            invariant
                i <= count == count_in(image@),
                count <= CAPACITY,
                image@.len() == NODE_SIZE,
                decode(image@) == Some(stored),
                keys@.len() == values@.len() == i,
                forall|j: int| 0 <= j < i ==> (#[trigger] keys@[j])@ == stored.keys[j],
                forall|j: int| 0 <= j < i ==> (#[trigger] values@[j])@ == stored.values[j],
            decreases count - i,
        {
            assert(entry_valid_in(image@, i as int));
            let key_len: usize = get_u32(image.as_slice(), 9 + 136 * i) as usize;
            let key: Vec<u8> = copy_bytes(&image, 13 + 136 * i, key_len);
            let value_len: usize = get_u32(image.as_slice(), 77 + 136 * i) as usize;
            let value: Vec<u8> = copy_bytes(&image, 81 + 136 * i, value_len);
            assert(key@ == stored.keys[i as int]);
            assert(value@ == stored.values[i as int]);
            keys.push(key);
            values.push(value);
            i += 1;
        }
        assert(views(keys@) =~= stored.keys);
        assert(views(values@) =~= stored.values);
        if image[4] == LEAF_NODE_TYPE {
            let node = Node::Leaf(LeafNode { address, keys, values });
            assert(node@.children =~= stored.children);
            node
        } else {
            let mut children: Vec<Ptr> = Vec::new();
            let mut i: usize = 0;
            while i <= count
                invariant
                    i <= count + 1,
                    count == count_in(image@) <= CAPACITY,
                    image@.len() == NODE_SIZE,
                    decode(image@) == Some(stored),
                    image@[4] != LEAF_NODE_TYPE,
                    children@.len() == i,
                    forall|j: int| 0 <= j < i ==> #[trigger] children@[j] == stored.children[j],
                decreases count + 1 - i,
            {
                let child: Ptr = get_u64(image.as_slice(), 1505 + 8 * i);
                assert(child == stored.children[i as int]);
                children.push(child);
                i += 1;
            }
            assert(children@ =~= stored.children);
            Node::Internal(InternalNode { address, keys, values, children })
        }
    }
}

/// A copy of some bytes.
pub fn copy_of(bytes: &Vec<u8>) -> (copy: Vec<u8>)
    ensures
        copy@ == bytes@,
{
    let copy: Vec<u8> = bytes.clone();
    assert(copy@ =~= bytes@);
    copy
}

proof fn lemma_all_short_insert(all: Seq<Seq<u8>>, i: int, x: Seq<u8>, limit: nat)
    requires
        0 <= i <= all.len(),
        x.len() <= limit,
        forall|k: int| 0 <= k < all.len() ==> (#[trigger] all[k]).len() <= limit,
    ensures
        forall|k: int| 0 <= k < all.len() + 1 ==> (#[trigger] all.insert(i, x)[k]).len() <= limit,
{
    assert forall|k: int| 0 <= k < all.len() + 1 implies (#[trigger] all.insert(i, x)[k]).len()
        <= limit by {
        if k < i {
            assert(all.insert(i, x)[k] == all[k]);
        } else if k > i {
            assert(all.insert(i, x)[k] == all[k - 1]);
        }
    }
}

/// Whether an entry is not too long.
pub open spec fn entry_fits(key: Seq<u8>, value: Seq<u8>) -> bool {
    key.len() <= MAX_KEY_SIZE && value.len() <= MAX_VALUE_SIZE
}

// Changing a node.

impl Node {
    /// Whether a node is of the same kind as another, and at the same address.
    pub open spec fn same_place(&self, other: Node) -> bool {
        &&& self.address() == other.address()
        &&& self.is_leaf() == other.is_leaf()
    }

    /// Gives the node another address.
    pub fn set_address(&mut self, address: Ptr)
        ensures
            final(self)@ == old(self)@,
            final(self).address() == address,
            final(self).is_leaf() == old(self).is_leaf(),
    {
        match self {
            Node::Leaf(leaf) => {
                leaf.address = address;
            },
            Node::Internal(internal) => {
                internal.address = address;
            },
        }
    }

    /// A copy of the `i`-th entry.
    pub fn entry(&self, i: usize) -> (entry: (Key, Value))
        requires
            i < self@.keys.len(),
            i < self@.values.len(),
        ensures
            entry.0@ == self@.keys[i as int],
            entry.1@ == self@.values[i as int],
            self@.sizes_fit() ==> entry_fits(entry.0@, entry.1@),
    {
        let entry = (copy_of(&self.keys()[i]), copy_of(&self.values()[i]));
        assert(entry.0@ == self@.keys[i as int] && entry.1@ == self@.values[i as int]);
        entry
    }

    /// Puts an entry before the `i`-th.
    pub fn insert_entry(&mut self, i: usize, entry: (Key, Value))
        requires
            i <= old(self)@.keys.len(),
            i <= old(self)@.values.len(),
        ensures
            final(self).same_place(*old(self)),
            final(self)@ == (NodeView {
                keys: old(self)@.keys.insert(i as int, entry.0@),
                values: old(self)@.values.insert(i as int, entry.1@),
                children: old(self)@.children,
            }),
            old(self)@.sizes_fit() && entry_fits(entry.0@, entry.1@) ==> final(self)@.sizes_fit(),
    {
        let ghost before = self@;
        let ghost (key, value) = (entry.0@, entry.1@);
        match self {
            Node::Leaf(leaf) => {
                leaf.keys.insert(i, entry.0);
                leaf.values.insert(i, entry.1);
            },
            Node::Internal(internal) => {
                internal.keys.insert(i, entry.0);
                internal.values.insert(i, entry.1);
            },
        }
        assert(self@.keys =~= before.keys.insert(i as int, key));
        assert(self@.values =~= before.values.insert(i as int, value));
        proof {
            if before.sizes_fit() && entry_fits(key, value) {
                lemma_all_short_insert(before.keys, i as int, key, MAX_KEY_SIZE as nat);
                lemma_all_short_insert(before.values, i as int, value, MAX_VALUE_SIZE as nat);
            }
        }
    }

    /// Puts an entry in place of the `i`-th.
    pub fn set_entry(&mut self, i: usize, entry: (Key, Value))
        requires
            i < old(self)@.keys.len(),
            i < old(self)@.values.len(),
        ensures
            final(self).same_place(*old(self)),
            final(self)@ == (NodeView {
                keys: old(self)@.keys.update(i as int, entry.0@),
                values: old(self)@.values.update(i as int, entry.1@),
                children: old(self)@.children,
            }),
            old(self)@.sizes_fit() && entry_fits(entry.0@, entry.1@) ==> final(self)@.sizes_fit(),
    {
        let ghost before = self@;
        let ghost (key, value) = (entry.0@, entry.1@);
        match self {
            Node::Leaf(leaf) => {
                leaf.keys.set(i, entry.0);
                leaf.values.set(i, entry.1);
            },
            Node::Internal(internal) => {
                internal.keys.set(i, entry.0);
                internal.values.set(i, entry.1);
            },
        }
        assert(self@.keys =~= before.keys.update(i as int, key));
        assert(self@.values =~= before.values.update(i as int, value));
    }

    /// Takes out the `i`-th entry.
    pub fn remove_entry(&mut self, i: usize) -> (entry: (Key, Value))
        requires
            i < old(self)@.keys.len(),
            i < old(self)@.values.len(),
        ensures
            final(self).same_place(*old(self)),
            final(self)@ == (NodeView {
                keys: old(self)@.keys.remove(i as int),
                values: old(self)@.values.remove(i as int),
                children: old(self)@.children,
            }),
            entry.0@ == old(self)@.keys[i as int],
            entry.1@ == old(self)@.values[i as int],
            old(self)@.sizes_fit() ==> final(self)@.sizes_fit() && entry_fits(entry.0@, entry.1@),
    {
        let ghost before = self@;
        let entry = match self {
            Node::Leaf(leaf) => {
                let key: Key = leaf.keys.remove(i);
                let value: Value = leaf.values.remove(i);
                (key, value)
            },
            Node::Internal(internal) => {
                let key: Key = internal.keys.remove(i);
                let value: Value = internal.values.remove(i);
                (key, value)
            },
        };
        assert(self@.keys =~= before.keys.remove(i as int));
        assert(self@.values =~= before.values.remove(i as int));
        assert(entry.0@ == before.keys[i as int] && entry.1@ == before.values[i as int]);
        entry
    }

    /// The number of children.
    pub fn num_children(&self) -> (num: usize)
        ensures
            num == self@.children.len(),
    {
        match self {
            Node::Leaf(_) => 0,
            Node::Internal(internal) => internal.children.len(),
        }
    }

    /// The address of the `i`-th child.
    pub fn child(&self, i: usize) -> (child: Ptr)
        requires
            i < self@.children.len(),
        ensures
            child == self@.children[i as int],
    {
        match self {
            Node::Leaf(_) => NULL,
            Node::Internal(internal) => internal.children[i],
        }
    }

    /// Puts a child before the `i`-th.
    pub fn insert_child(&mut self, i: usize, child: Ptr)
        requires
            !old(self).is_leaf(),
            i <= old(self)@.children.len(),
        ensures
            final(self).same_place(*old(self)),
            final(self)@ == (NodeView {
                children: old(self)@.children.insert(i as int, child),
                ..old(self)@
            }),
    {
        match self {
            Node::Leaf(_) => {},
            Node::Internal(internal) => {
                internal.children.insert(i, child);
            },
        }
    }

    /// Takes out the `i`-th child.
    pub fn remove_child(&mut self, i: usize) -> (child: Ptr)
        requires
            !old(self).is_leaf(),
            i < old(self)@.children.len(),
        ensures
            final(self).same_place(*old(self)),
            final(self)@ == (NodeView {
                children: old(self)@.children.remove(i as int),
                ..old(self)@
            }),
            child == old(self)@.children[i as int],
    {
        match self {
            Node::Leaf(_) => NULL,
            Node::Internal(internal) => internal.children.remove(i),
        }
    }

    /// Moves everything that `other` holds to the end of the node.
    pub fn append(&mut self, other: Node)
        requires
            old(self).is_leaf() == other.is_leaf(),
        ensures
            final(self).same_place(*old(self)),
            final(self)@ == (NodeView {
                keys: old(self)@.keys + other@.keys,
                values: old(self)@.values + other@.values,
                children: old(self)@.children + other@.children,
            }),
            old(self)@.sizes_fit() && other@.sizes_fit() ==> final(self)@.sizes_fit(),
    {
        let ghost before = self@;
        match (&mut *self, other) {
            (Node::Leaf(leaf), Node::Leaf(mut higher)) => {
                leaf.keys.append(&mut higher.keys);
                leaf.values.append(&mut higher.values);
            },
            (Node::Internal(internal), Node::Internal(mut higher)) => {
                internal.keys.append(&mut higher.keys);
                internal.values.append(&mut higher.values);
                internal.children.append(&mut higher.children);
            },
            _ => {},
        }
        assert(self@.keys =~= before.keys + other@.keys);
        assert(self@.values =~= before.values + other@.values);
        assert(self@.children =~= before.children + other@.children);
    }

    /// Moves the upper half of a full node into an empty node of the same kind, and takes out the
    /// entry in the middle.
    pub fn split(&mut self, sibling: &mut Node) -> (median: (Key, Value))
        requires
            old(self).valid(),
            old(self)@.keys.len() == CAPACITY,
            old(self).is_leaf() == old(sibling).is_leaf(),
        ensures
            final(self).same_place(*old(self)),
            final(sibling).same_place(*old(sibling)),
            median.0@ == old(self)@.keys[B - 1],
            median.1@ == old(self)@.values[B - 1],
            final(self)@.keys == old(self)@.keys.take(B - 1),
            final(self)@.values == old(self)@.values.take(B - 1),
            final(sibling)@.keys == old(self)@.keys.skip(B as int),
            final(sibling)@.values == old(self)@.values.skip(B as int),
            !old(self).is_leaf() ==> {
                &&& final(self)@.children == old(self)@.children.take(B as int)
                &&& final(sibling)@.children == old(self)@.children.skip(B as int)
            },
            final(self).valid(),
            final(sibling).valid(),
    {
        let ghost before = self@;
        let median = match (&mut *self, &mut *sibling) {
            (Node::Leaf(full), Node::Leaf(upper)) => {
                let mut keys_to_move: Vec<Key> = full.keys.split_off(B as usize - 1);
                let mut values_to_move: Vec<Value> = full.values.split_off(B as usize - 1);
                let median_key: Key = keys_to_move.remove(0);
                let median_value: Value = values_to_move.remove(0);
                upper.keys = keys_to_move;
                upper.values = values_to_move;
                (median_key, median_value)
            },
            (Node::Internal(full), Node::Internal(upper)) => {
                let mut keys_to_move: Vec<Key> = full.keys.split_off(B as usize - 1);
                let mut values_to_move: Vec<Value> = full.values.split_off(B as usize - 1);
                let children_to_move: Vec<Ptr> = full.children.split_off(B as usize);
                let median_key: Key = keys_to_move.remove(0);
                let median_value: Value = values_to_move.remove(0);
                upper.keys = keys_to_move;
                upper.values = values_to_move;
                upper.children = children_to_move;
                (median_key, median_value)
            },
            _ => (Vec::new(), Vec::new()),
        };
        proof {
            assert(self@.keys =~= before.keys.take(B - 1));
            assert(self@.values =~= before.values.take(B - 1));
            assert(sibling@.keys =~= before.keys.skip(B as int));
            assert(sibling@.values =~= before.values.skip(B as int));
            if !self.is_leaf() {
                assert(self@.children =~= before.children.take(B as int));
                assert(sibling@.children =~= before.children.skip(B as int));
            }
        }
        median
    }
}

} // verus!
