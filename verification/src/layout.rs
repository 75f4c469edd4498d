//! How a map is laid out in its memory, byte by byte.
use crate::allocator::{chunk_at, Allocator, Chunk};
use crate::btree::{allocator_in, StableBTreeMap};
use crate::codec::{le_bytes, le_value, lemma_le_back, lemma_le_digit};
use crate::laws::{reloading, tree_in_memory};
use crate::memory::Memory64;
use crate::node::{
    child_in, count_in, decode, entry_valid_in, key_in, key_len_in, node_at, value_in,
    value_len_in, NodeView, Ptr,
};
use crate::tree::count;
use vstd::arithmetic::power::pow;
use vstd::prelude::*;

verus! {

// Integers.

/// Four bytes are an integer, the least significant byte first.
pub proof fn four_bytes(bytes: Seq<u8>)
    requires
        bytes.len() == 4,
    ensures
        le_value(bytes) == bytes[0] + 256 * bytes[1] + 65536 * bytes[2] + 16777216 * bytes[3],
{
    reveal_with_fuel(le_value, 5);
    assert(bytes.skip(1).skip(1) =~= bytes.skip(2));
    assert(bytes.skip(2).skip(1) =~= bytes.skip(3));
    assert(bytes.skip(3).skip(1) =~= bytes.skip(4));
}

/// Eight bytes are the integers in the lower four bytes and in the upper four bytes.
pub proof fn eight_bytes(bytes: Seq<u8>)
    requires
        bytes.len() == 8,
    ensures
        le_value(bytes) == le_value(bytes.take(4)) + 4294967296 * le_value(bytes.skip(4)),
{
    reveal_with_fuel(le_value, 5);
    let low = bytes.take(4);
    four_bytes(low);
    assert(bytes.skip(1).skip(1) =~= bytes.skip(2));
    assert(bytes.skip(2).skip(1) =~= bytes.skip(3));
    assert(bytes.skip(3).skip(1) =~= bytes.skip(4));
}

/// Each byte of an integer is a digit to the base 256, the least significant one first.
pub proof fn bytes_of_integer(value: nat, count: nat, i: int)
    requires
        0 <= i < count,
    ensures
        le_bytes(value, count).len() == count,
        le_bytes(value, count)[i] as int == value as int / pow(256, i as nat) % 256,
{
    lemma_le_digit(value, count, i);
}

/// The bytes of the integer that some bytes are, are these bytes.
pub proof fn integer_of_bytes(bytes: Seq<u8>)
    ensures
        le_bytes(le_value(bytes), bytes.len()) == bytes,
{
    lemma_le_back(bytes);
}

// Nodes.

/// Whether the `i`-th entry of a node at the address `a` is this one. A place for an entry has 136
/// bytes: 4 for the length of the key, 64 for the key, 4 for the length of the value, 64 for the
/// value.
pub open spec fn entry_at(bytes: Seq<u8>, a: int, i: int, key: Seq<u8>, value: Seq<u8>) -> bool {
    let at = a + 9 + 136 * i;
    &&& key.len() <= 64
    &&& value.len() <= 64
    &&& le_value(bytes.subrange(at, at + 4)) == key.len()
    &&& bytes.subrange(at + 4, at + 4 + key.len()) == key
    &&& le_value(bytes.subrange(at + 68, at + 72)) == value.len()
    &&& bytes.subrange(at + 72, at + 72 + value.len()) == value
}

/// Whether `node` is stored in the 1601 bytes from `a` on: the letters `BTN`, the version 1, 0 for
/// a leaf and 1 for an internal node, the number of entries in 4 bytes, the entries, and from byte
/// 1505 on the addresses of the children in 8 bytes each.
pub open spec fn stored_as(bytes: Seq<u8>, a: int, node: NodeView) -> bool {
    &&& a + 1601 <= bytes.len()
    &&& bytes[a] == 66
    &&& bytes[a + 1] == 84
    &&& bytes[a + 2] == 78
    &&& bytes[a + 3] == 1
    &&& bytes[a + 4] == if node.children.len() == 0 {
        0u8
    } else {
        1u8
    }
    &&& le_value(bytes.subrange(a + 5, a + 9)) == node.keys.len()
    &&& node.keys.len() == node.values.len() <= 11
    &&& node.children.len() == 0 || node.children.len() == node.keys.len() + 1
    &&& forall|i: int|
        0 <= i < node.keys.len() ==> entry_at(
            bytes,
            a,
            i,
            #[trigger] node.keys[i],
            node.values[i],
        )
    &&& forall|i: int|
        0 <= i < node.children.len() ==> #[trigger] node.children[i] == le_value(
            bytes.subrange(a + 1505 + 8 * i, a + 1513 + 8 * i),
        )
}

/// A node is found where, and only where, its bytes are.
pub proof fn node_layout(bytes: Seq<u8>, a: Ptr, node: NodeView)
    ensures
        node_at(bytes, a) == Some(node) <==> stored_as(bytes, a as int, node),
{
    reveal(node_at);
    if a + 1601 <= bytes.len() {
        let image = bytes.subrange(a as int, a + 1601);
        assert(image.subrange(5, 9) =~= bytes.subrange(a + 5, a + 9));
        assert forall|i: int| 0 <= i < 11 implies {
            &&& #[trigger] key_len_in(image, i) == le_value(
                bytes.subrange(a + 9 + 136 * i, a + 13 + 136 * i),
            )
            &&& value_len_in(image, i) == le_value(
                bytes.subrange(a + 77 + 136 * i, a + 81 + 136 * i),
            )
        } by {
            assert(image.subrange(9 + 136 * i, 13 + 136 * i) =~= bytes.subrange(
                a + 9 + 136 * i,
                a + 13 + 136 * i,
            ));
            assert(image.subrange(77 + 136 * i, 81 + 136 * i) =~= bytes.subrange(
                a + 77 + 136 * i,
                a + 81 + 136 * i,
            ));
        }
        assert forall|i: int| 0 <= i < 12 implies #[trigger] child_in(image, i) == le_value(
            bytes.subrange(a + 1505 + 8 * i, a + 1513 + 8 * i),
        ) by {
            let child = bytes.subrange(a + 1505 + 8 * i, a + 1513 + 8 * i);
            assert(image.subrange(1505 + 8 * i, 1513 + 8 * i) =~= child);
            lemma_u64_fits(child);
        }
        assert forall|i: int| 0 <= i < 11 && #[trigger] entry_valid_in(image, i) implies {
            &&& key_in(image, i) == bytes.subrange(
                a + 13 + 136 * i,
                a + 13 + 136 * i + key_len_in(image, i),
            )
            &&& value_in(image, i) == bytes.subrange(
                a + 81 + 136 * i,
                a + 81 + 136 * i + value_len_in(image, i),
            )
        } by {
            assert(key_in(image, i) =~= bytes.subrange(
                a + 13 + 136 * i,
                a + 13 + 136 * i + key_len_in(image, i),
            ));
            assert(value_in(image, i) =~= bytes.subrange(
                a + 81 + 136 * i,
                a + 81 + 136 * i + value_len_in(image, i),
            ));
        }
        if let Some(found) = decode(image) {
            assert(forall|i: int| 0 <= i < found.keys.len() ==> entry_valid_in(image, i));
            assert forall|i: int| 0 <= i < found.keys.len() implies entry_at(
                bytes,
                a as int,
                i,
                #[trigger] found.keys[i],
                found.values[i],
            ) by {
                assert(entry_valid_in(image, i));
                assert(key_len_in(image, i) <= 64);
            }
            assert forall|i: int| 0 <= i < found.children.len() implies #[trigger] found.children[i]
                == le_value(bytes.subrange(a + 1505 + 8 * i, a + 1513 + 8 * i)) by {
                assert(found.children[i] == child_in(image, i));
            }
        }
        if stored_as(bytes, a as int, node) {
            assert forall|i: int| 0 <= i < count_in(image) implies {
                &&& #[trigger] entry_valid_in(image, i)
                &&& key_in(image, i) == node.keys[i]
                &&& value_in(image, i) == node.values[i]
            } by {
                assert(entry_at(bytes, a as int, i, node.keys[i], node.values[i]));
                assert(key_len_in(image, i) == node.keys[i].len());
                assert(value_len_in(image, i) == node.values[i].len());
                assert(entry_valid_in(image, i));
            }
            let found = decode(image)->0;
            assert forall|i: int| 0 <= i < node.keys.len() implies found.keys[i] == node.keys[i]
                && found.values[i] == node.values[i] by {
                assert(entry_valid_in(image, i));
            }
            assert forall|i: int| 0 <= i < node.children.len() implies found.children[i]
                == node.children[i] by {
                assert(child_in(image, i) == node.children[i]);
            }
            assert(found.keys =~= node.keys);
            assert(found.values =~= node.values);
            assert(found.children =~= node.children);
        }
    }
}

/// Eight bytes are an integer of 64 bits.
proof fn lemma_u64_fits(bytes: Seq<u8>)
    requires
        bytes.len() == 8,
    ensures
        le_value(bytes) <= u64::MAX,
{
    eight_bytes(bytes);
    four_bytes(bytes.take(4));
    four_bytes(bytes.skip(4));
}

// Headers.

/// A map starts with the letters `BTR`, the version 1, the address of its root, which is 0 if the
/// map is empty, and its limits. The header of its allocator follows at byte 20: the letters `BTA`,
/// the version 1, the size of the chunks, the number of chunks that are allocated, and the address
/// of the next chunk.
pub proof fn map_layout<M: Memory64>(map: StableBTreeMap<M>)
    requires
        map.wf(),
    ensures
        ({
            let bytes = map.bytes();
            &&& bytes.len() >= 65536
            &&& bytes.take(4) == seq![66u8, 84u8, 82u8, 1u8]
            &&& le_value(bytes.subrange(4, 12)) == map.spec_root_offset()
            &&& map.spec_root_offset() == 0 <==> map@ == Map::<Seq<u8>, Seq<u8>>::empty()
            &&& le_value(bytes.subrange(12, 16)) == map.spec_max_key_size()
            &&& le_value(bytes.subrange(16, 20)) == map.spec_max_value_size()
            &&& bytes.subrange(20, 24) == seq![66u8, 84u8, 65u8, 1u8]
            &&& le_value(bytes.subrange(24, 32)) == 4096
            &&& le_value(bytes.subrange(32, 40)) == map.spec_allocator().num_allocations()
            &&& le_value(bytes.subrange(40, 48)) + 13 == map.spec_allocator().spec_next()
        }),
{
    let bytes = map.bytes();
    map.lemma_persistent();
    map.lemma_layout();
    reloading(map);
    tree_in_memory(map);
    let allocator = map.spec_allocator();
    Allocator::lemma_header(bytes.subrange(20, 48), 20);
    assert(allocator_in(bytes) == Some(allocator));
    allocator_layout(allocator, bytes);
    assert(bytes.take(3)[0] == 66 && bytes.take(3)[1] == 84 && bytes.take(3)[2] == 82);
    assert(bytes.take(4) =~= seq![66u8, 84u8, 82u8, 1u8]);
}

/// The chunks are 4109 bytes apart, from byte 48 on. Each starts with a header of 13 bytes: the
/// letters `CHK`, the version 1, and 1 for a chunk that is allocated. The 4096 bytes after the
/// header belong to a node.
pub proof fn chunk_layout<M: Memory64>(map: StableBTreeMap<M>, a: Ptr)
    requires
        map.wf(),
        map.spec_tree() matches Some(t) && count(t, a) > 0,
    ensures
        a >= 61,
        (a - 61) % 4109 == 0,
        a + 4096 <= map.bytes().len(),
        map.bytes().subrange(a - 13, a - 8) == seq![67u8, 72u8, 75u8, 1u8, 1u8],
{
    map.lemma_layout();
    map.lemma_chunk(a);
    chunk_header_layout(map.bytes(), a - 13, chunk_at(map.bytes(), a - 13)->0);
}

/// The chunk that is allocated next has the same header as those that are allocated, with 0 in
/// place of 1, and the address of the chunk after it, or 0 if there is none.
pub proof fn next_chunk_layout<M: Memory64>(map: StableBTreeMap<M>)
    requires
        map.wf(),
    ensures
        ({
            let a = map.spec_allocator().spec_next();
            &&& a >= 61
            &&& (a - 61) % 4109 == 0
            &&& a <= map.bytes().len()
            &&& map.bytes().subrange(a - 13, a - 8) == seq![67u8, 72u8, 75u8, 1u8, 0u8]
            &&& chunk_at(map.bytes(), a - 13)->0.next == le_value(map.bytes().subrange(a - 8, a))
        }),
{
    map.lemma_layout();
    map.lemma_next_chunk();
    let a = map.spec_allocator().spec_next();
    chunk_header_layout(map.bytes(), a - 13, chunk_at(map.bytes(), a - 13)->0);
}

/// The header of a chunk is found where, and only where, its 13 bytes are: the letters `CHK`, the
/// version 1, 1 for a chunk that is allocated and 0 for another, and the address of the next chunk
/// in 8 bytes.
pub proof fn chunk_header_layout(bytes: Seq<u8>, a: int, chunk: Chunk)
    ensures
        chunk_at(bytes, a) == Some(chunk) <==> {
            &&& 0 <= a
            &&& a + 13 <= bytes.len()
            &&& bytes.subrange(a, a + 5) == seq![
                67u8,
                72u8,
                75u8,
                1u8,
                if chunk.allocated {
                    1u8
                } else {
                    0u8
                },
            ]
            &&& le_value(bytes.subrange(a + 5, a + 13)) == chunk.next
        },
{
    reveal(chunk_at);
    if 0 <= a && a + 13 <= bytes.len() {
        let header = bytes.subrange(a, a + 13);
        let start = bytes.subrange(a, a + 5);
        assert(header.subrange(5, 13) =~= bytes.subrange(a + 5, a + 13));
        assert(forall|i: int| 0 <= i < 5 ==> header[i] == #[trigger] start[i]);
        lemma_u64_fits(bytes.subrange(a + 5, a + 13));
        let flag: u8 = if chunk.allocated {
            1
        } else {
            0
        };
        let expected = seq![67u8, 72u8, 75u8, 1u8, flag];
        if chunk_at(bytes, a) == Some(chunk) {
            assert(start[0] == 67 && start[1] == 72 && start[2] == 75 && start[3] == 1);
            assert(start[4] == flag);
            assert(start =~= expected);
        }
        if start == expected {
            assert(start[0] == 67 && start[1] == 72 && start[2] == 75 && start[3] == 1);
            assert(start[4] == flag);
        }
    }
}

/// The header of an allocator has 28 bytes: the letters `BTA`, the version 1, and in 8 bytes each
/// the size of the chunks, the number of chunks that are allocated, and the address of the header
/// of the next chunk.
pub proof fn allocator_layout(allocator: Allocator, bytes: Seq<u8>)
    requires
        allocator.saved(bytes),
    ensures
        ({
            let a = allocator.spec_header_address() as int;
            &&& a + 28 <= bytes.len()
            &&& bytes.subrange(a, a + 4) == seq![66u8, 84u8, 65u8, 1u8]
            &&& le_value(bytes.subrange(a + 4, a + 12)) == allocator.spec_allocation_size()
            &&& le_value(bytes.subrange(a + 12, a + 20)) == allocator.num_allocations()
            &&& le_value(bytes.subrange(a + 20, a + 28)) + 13 == allocator.spec_next()
        }),
{
    let a = allocator.spec_header_address() as int;
    let header = bytes.subrange(a, a + 28);
    Allocator::lemma_header(header, allocator.spec_header_address());
    assert(header.take(3)[0] == 66 && header.take(3)[1] == 84 && header.take(3)[2] == 65);
    assert(bytes.subrange(a, a + 4) =~= seq![66u8, 84u8, 65u8, 1u8]);
    assert(header.subrange(4, 12) =~= bytes.subrange(a + 4, a + 12));
    assert(header.subrange(12, 20) =~= bytes.subrange(a + 12, a + 20));
    assert(header.subrange(20, 28) =~= bytes.subrange(a + 20, a + 28));
    lemma_u64_fits(bytes.subrange(a + 4, a + 12));
    lemma_u64_fits(bytes.subrange(a + 12, a + 20));
    lemma_u64_fits(bytes.subrange(a + 20, a + 28));
}

} // verus!
