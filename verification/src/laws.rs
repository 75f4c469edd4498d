//! What holds of maps as a whole.
use crate::allocator::{
    chunks_within, error_for, size_for, Allocator, ALLOCATOR_HEADER_SIZE, CHUNK_HEADER_SIZE,
};
use crate::btree::{
    allocator_in, btree_magic, header_in, laid_out, lemma_stores_loadable, lemma_stores_one,
    loadable, stores, StableBTreeMap, BTREE_HEADER_SIZE,
};
use crate::codec::{le_bytes, le_limit, le_value, lemma_le_round_trip};
use crate::entries::{
    del, find, lemma_del, lemma_del_len, lemma_find, lemma_find_entries, lemma_flat_pair, lemma_put,
    lemma_sorted_part, lookup, map_of, prefix, put, sorted, suffix, Entry,
};
use crate::error::WriteError;
use crate::memory::{
    has_place, missing_pages, usable, write_result, Memory64, WASM_PAGE_SIZE,
};
use crate::node::{node_at, NodeView, Ptr, B, CAPACITY, LAYOUT_VERSION, NULL};
use crate::order::{
    ascending, gap_at, lemma_common_front, lemma_front, lemma_gap_is, lemma_index_is,
    lemma_irreflexive, lemma_total, precedes,
};
use crate::rebuild::{lemma_merge_shape, lemma_same_kind, lemma_split_entries, lemma_split_shape};
use crate::room::{chunks_needed, is_full, lemma_splits_bound};
use crate::size::{addresses, lemma_addresses, lemma_map_size, lemma_tree_size, nodes_of, power};
use crate::steps::{
    inserted, lemma_inserted, lemma_lent, lemma_lowered, lemma_not_split_again, lemma_raised_root,
    lemma_shrunk, lemma_shrunk_root, lent, merged_node, raised, shrunk, tree_after_insert,
    tree_after_remove, tree_grows_to,
};
use crate::tree::{
    distinct, entries, height, lemma_child_sorted, lemma_keys_ascending, seps, shape, subs, tops,
    Tree,
};
use vstd::arithmetic::power::pow;
use vstd::prelude::*;

verus! {

/// A key that was inserted has the value that it was inserted with, and every other key has the
/// value that it had before.
pub proof fn get_after_insert(
    m: Map<Seq<u8>, Seq<u8>>,
    key: Seq<u8>,
    value: Seq<u8>,
    other: Seq<u8>,
)
    ensures
        lookup(m.insert(key, value), key) == Some(value),
        other != key ==> lookup(m.insert(key, value), other) == lookup(m, other),
{
}

/// A key that was removed has no value, and every other key has the value that it had before.
pub proof fn get_after_remove(m: Map<Seq<u8>, Seq<u8>>, key: Seq<u8>, other: Seq<u8>)
    ensures
        lookup(m.remove(key), key) is None,
        other != key ==> lookup(m.remove(key), other) == lookup(m, other),
{
}

/// Inserting a key again overwrites its value, and returns the value from the first time.
pub proof fn insert_overwrites(
    m: Map<Seq<u8>, Seq<u8>>,
    key: Seq<u8>,
    first: Seq<u8>,
    second: Seq<u8>,
)
    ensures
        lookup(m.insert(key, first), key) == Some(first),
        m.insert(key, first).insert(key, second) == m.insert(key, second),
{
    assert(m.insert(key, first).insert(key, second) =~= m.insert(key, second));
}

/// Insertions of different keys can be exchanged.
pub proof fn insertions_commute(
    m: Map<Seq<u8>, Seq<u8>>,
    key1: Seq<u8>,
    value1: Seq<u8>,
    key2: Seq<u8>,
    value2: Seq<u8>,
)
    requires
        key1 != key2,
    ensures
        m.insert(key1, value1).insert(key2, value2) == m.insert(key2, value2).insert(key1, value1),
{
    assert(m.insert(key1, value1).insert(key2, value2) =~= m.insert(key2, value2).insert(
        key1,
        value1,
    ));
}

/// Removing a key that was inserted gives back the map from before, if the key was not in it.
pub proof fn remove_undoes_insert(m: Map<Seq<u8>, Seq<u8>>, key: Seq<u8>, value: Seq<u8>)
    requires
        lookup(m, key) is None,
    ensures
        lookup(m.insert(key, value), key) == Some(value),
        m.insert(key, value).remove(key) == m,
{
    assert(m.insert(key, value).remove(key) =~= m);
}

/// Removing a key that is not there changes nothing.
pub proof fn remove_absent(m: Map<Seq<u8>, Seq<u8>>, key: Seq<u8>)
    requires
        lookup(m, key) is None,
    ensures
        m.remove(key) == m,
{
    assert(m.remove(key) =~= m);
}

/// A map can be loaded from its memory: the memory holds the map and no other, and has the
/// headers that loading asks for.
pub proof fn reloading<M: Memory64>(map: StableBTreeMap<M>)
    requires
        map.wf(),
    ensures
        stores(map.bytes(), map@),
        forall|m: Map<Seq<u8>, Seq<u8>>| #[trigger] stores(map.bytes(), m) ==> m == map@,
        map.bytes().len() >= WASM_PAGE_SIZE,
        map.bytes().take(3) == btree_magic(),
        map.bytes()[3] == LAYOUT_VERSION,
        loadable(map.bytes()),
        header_in(
            map.bytes(),
            map.spec_root_offset(),
            map.spec_max_key_size(),
            map.spec_max_value_size(),
        ),
        allocator_in(map.bytes()) == Some(map.spec_allocator()),
{
    map.lemma_persistent();
    lemma_stores_loadable(map.bytes(), map@);
    assert forall|m: Map<Seq<u8>, Seq<u8>>| #[trigger] stores(map.bytes(), m) implies m
        == map@ by {
        lemma_stores_one(map.bytes(), m, map@);
    }
}

/// A memory determines the map in it, down to the nodes of its tree, its root, its allocator and
/// its limits. So a map that is loaded from the memory of another is the same map.
pub proof fn memory_determines_map<M: Memory64>(map: StableBTreeMap<M>, other: StableBTreeMap<M>)
    requires
        map.wf(),
        other.wf(),
        map.bytes() == other.bytes(),
    ensures
        map@ == other@,
        map.spec_tree() == other.spec_tree(),
        map.spec_root_offset() == other.spec_root_offset(),
        map.spec_allocator() == other.spec_allocator(),
        map.same_limits(other),
{
    map.lemma_same_memory(&other);
}

/// A map that is not empty is a B-tree, whose entries are in order. Each of its nodes is stored
/// in memory at an address of its own.
pub proof fn tree_in_memory<M: Memory64>(map: StableBTreeMap<M>)
    requires
        map.wf(),
    ensures
        map.spec_tree() is None <==> map@ == Map::<Seq<u8>, Seq<u8>>::empty(),
        map.spec_tree() is None <==> map.spec_root_offset() == NULL,
        map.spec_tree() matches Some(t) ==> {
            &&& map.spec_root_offset() == t.addr
            &&& laid_out(map.bytes(), t)
            &&& node_at(map.bytes(), t.addr) == Some(t.node())
            &&& distinct(t)
            &&& shape(t)
            &&& sorted(entries(t))
            &&& map@ == map_of(entries(t))
        },
{
    map.lemma_layout();
    if let Some(t) = map.spec_tree() {
        lemma_tree_size(t);
        lemma_map_size(entries(t));
    }
}

/// A chunk is allocated for each node, and for nothing else. Only an empty map has no chunk.
pub proof fn chunks_are_nodes<M: Memory64>(map: StableBTreeMap<M>)
    requires
        map.wf(),
    ensures
        map.spec_allocator().num_allocations() == nodes_of(map.spec_tree()),
        map.spec_tree() matches Some(t) ==> {
            &&& addresses(t).finite()
            &&& addresses(t).len() == map.spec_allocator().num_allocations()
        },
        map.spec_allocator().num_allocations() == 0 <==> map@ == Map::<
            Seq<u8>,
            Seq<u8>,
        >::empty(),
{
    map.lemma_layout();
    tree_in_memory(map);
    if let Some(t) = map.spec_tree() {
        lemma_addresses(t);
    }
}

/// No chunk is wasted: all but one of the chunks hold at least `B - 1` entries, and no chunk holds
/// more than `CAPACITY`.
pub proof fn chunks_are_filled<M: Memory64>(map: StableBTreeMap<M>)
    requires
        map.wf(),
    ensures
        map@.dom().finite(),
        ({
            let num = map.spec_allocator().num_allocations();
            let len = map@.dom().len();
            &&& num > 0 ==> 1 + (B - 1) * (num - 1) <= len
            &&& num > 0 ==> 1 + 5 * (num - 1) <= len
            &&& len <= CAPACITY * num
            &&& len <= 11 * num
        }),
{
    map.lemma_layout();
    if let Some(t) = map.spec_tree() {
        lemma_tree_size(t);
        lemma_map_size(entries(t));
    }
}

proof fn lemma_power(h: nat)
    ensures
        power(h) == pow(6, h),
    decreases h,
{
    reveal(pow);
    if h > 0 {
        lemma_power((h - 1) as nat);
    }
}

/// The tree is balanced: a tree with `h` levels below its root has at least `2 * power(h) - 1`
/// entries, where the powers are those of 6.
pub proof fn height_is_logarithmic<M: Memory64>(map: StableBTreeMap<M>)
    requires
        map.wf(),
        map@ != Map::<Seq<u8>, Seq<u8>>::empty(),
    ensures
        map@.dom().len() >= 2 * power(map.spec_height()) - 1,
        map@.dom().len() >= 2 * pow(6, map.spec_height()) - 1,
{
    map.lemma_layout();
    lemma_power(map.spec_height());
    if let Some(t) = map.spec_tree() {
        lemma_tree_size(t);
        lemma_map_size(entries(t));
    }
}

/// An insertion takes one chunk for each level of the tree at most, and one more for a new root.
pub proof fn insertion_takes_few_chunks<M: Memory64>(map: StableBTreeMap<M>, key: Seq<u8>)
    requires
        map.wf(),
    ensures
        chunks_needed(map.spec_tree(), key) <= map.spec_height() + 2,
{
    map.lemma_layout();
    if let Some(t) = map.spec_tree() {
        lemma_splits_bound(t, key);
    }
}

/// In a B-tree, every node but the root has between 5 and 11 entries, one child more than entries
/// unless it is a leaf, and all paths down to a leaf are equally long.
pub proof fn balanced(t: Tree, i: int)
    requires
        shape(t),
        0 <= i < t.children.len(),
    ensures
        B - 1 <= t.children[i].keys.len() <= CAPACITY,
        5 <= t.children[i].keys.len() <= 11,
        t.keys.len() <= 11,
        is_full(t) <==> t.keys.len() == 11,
        t.children.len() == t.keys.len() + 1,
        height(t.children[i]) == height(t) - 1,
        shape(t.children[i]),
{
    assert(shape(t.children[i]));
}

/// Only a leaf has no level below it.
pub proof fn leaf_has_no_height(t: Tree)
    ensures
        t.children.len() == 0 <==> height(t) == 0,
{
}

// The order of keys.

/// Of two keys, the one with the smaller byte comes first where they differ for the first time.
pub proof fn order_by_first_difference(
    front: Seq<u8>,
    x: u8,
    a: Seq<u8>,
    y: u8,
    b: Seq<u8>,
)
    requires
        x != y,
    ensures
        precedes(front + seq![x] + a, front + seq![y] + b) <==> x < y,
{
    lemma_common_front(front, seq![x] + a, seq![y] + b);
    lemma_front(x, a, y, b);
    assert(front + seq![x] + a =~= front + (seq![x] + a));
    assert(front + seq![y] + b =~= front + (seq![y] + b));
}

/// A key comes before those that it is a proper prefix of, and after none of them.
pub proof fn order_of_prefixes(front: Seq<u8>, rest: Seq<u8>)
    ensures
        precedes(front, front + rest) <==> rest.len() > 0,
        !precedes(front + rest, front),
{
    lemma_common_front(front, seq![], rest);
    lemma_common_front(front, rest, seq![]);
    assert(front + seq![] =~= front);
    lemma_irreflexive(rest);
    if rest.len() > 0 {
        assert(rest =~= seq![rest[0]] + rest.skip(1));
        lemma_front(rest[0], rest.skip(1), 0, seq![]);
    }
    lemma_front(0, rest, 0, seq![]);
}

/// One key comes before another if and only if they agree up to some byte, where the first key
/// ends or has the smaller byte.
pub proof fn order_is_lexicographic(a: Seq<u8>, b: Seq<u8>)
    ensures
        precedes(a, b) <==> exists|i: int|
            {
                &&& 0 <= i <= a.len()
                &&& i < b.len()
                &&& #[trigger] a.take(i) == b.take(i)
                &&& i == a.len() || a[i] < b[i]
            },
{
    if precedes(a, b) {
        let i = first_difference(a, b);
        let (front, x, y) = (a.take(i), a.skip(i), b.skip(i));
        assert(a =~= front + x);
        assert(b =~= front + y);
        lemma_common_front(front, x, y);
        if i == b.len() {
            assert(y =~= seq![]);
            lemma_front(0, x, 0, seq![]);
        } else if i < a.len() {
            assert(x =~= seq![a[i]] + x.skip(1));
            assert(y =~= seq![b[i]] + y.skip(1));
            lemma_front(a[i], x.skip(1), b[i], y.skip(1));
        }
        assert(a.take(i) == b.take(i));
    }
    assert forall|i: int|
        {
            &&& 0 <= i <= a.len()
            &&& i < b.len()
            &&& #[trigger] a.take(i) == b.take(i)
            &&& i == a.len() || a[i] < b[i]
        } implies precedes(a, b) by {
        let front = a.take(i);
        assert(b =~= front + b.skip(i));
        if i == a.len() {
            assert(a =~= front);
            order_of_prefixes(front, b.skip(i));
        } else {
            assert(a =~= front + seq![a[i]] + a.skip(i + 1));
            assert(b =~= front + seq![b[i]] + b.skip(i + 1));
            order_by_first_difference(front, a[i], a.skip(i + 1), b[i], b.skip(i + 1));
        }
    }
}

/// How far two keys agree.
proof fn first_difference(a: Seq<u8>, b: Seq<u8>) -> (i: int)
    ensures
        0 <= i <= a.len(),
        i <= b.len(),
        a.take(i) == b.take(i),
        i == a.len() || i == b.len() || a[i] != b[i],
    decreases a.len(),
{
    if a.len() == 0 || b.len() == 0 || a[0] != b[0] {
        assert(a.take(0) =~= b.take(0));
        0
    } else {
        let j = first_difference(a.skip(1), b.skip(1));
        assert(a.take(j + 1) =~= seq![a[0]] + a.skip(1).take(j));
        assert(b.take(j + 1) =~= seq![b[0]] + b.skip(1).take(j));
        j + 1
    }
}

// What a memory holds.

/// What was written is read back, and everything else is as it was.
pub proof fn read_after_write(
    before: Seq<u8>,
    after: Seq<u8>,
    offset: int,
    src: Seq<u8>,
    result: Result<(), WriteError>,
)
    requires
        write_result(before, after, offset, src, result),
    ensures
        result is Ok ==> {
            &&& after.subrange(offset, offset + src.len()) == src
            &&& forall|i: int|
                0 <= i < before.len() && !(offset <= i < offset + src.len()) ==> #[trigger] after[i]
                    == before[i]
        },
        result is Err ==> after == before,
{
}

/// An integer of `count` bytes that was written is read back.
pub proof fn integer_after_write(
    before: Seq<u8>,
    after: Seq<u8>,
    offset: int,
    value: nat,
    count: nat,
)
    requires
        value < le_limit(count),
        write_result(before, after, offset, le_bytes(value, count), Ok(())),
    ensures
        le_value(after.subrange(offset, offset + count)) == value,
{
    lemma_le_round_trip(value, count);
}

/// Writing the same bytes again succeeds, and changes nothing, unless the memory has grown to the
/// end of the address space.
pub proof fn writing_twice(
    before: Seq<u8>,
    after: Seq<u8>,
    offset: int,
    src: Seq<u8>,
    after2: Seq<u8>,
    result: Result<(), WriteError>,
)
    requires
        write_result(before, after, offset, src, Ok(())),
        write_result(after, after2, offset, src, result),
        usable(after) <= u64::MAX,
    ensures
        result is Ok,
        after2 == after,
{
    assert forall|i: int| 0 <= i < after.len() implies after2[i] == after[i] by {
        if offset <= i < offset + src.len() {
            assert(after2.subrange(offset, offset + src.len())[i - offset] == src[i - offset]);
            assert(after.subrange(offset, offset + src.len())[i - offset] == src[i - offset]);
        }
    }
    assert(after2 =~= after);
}

// How a memory grows.

/// The pages that are missing are the fewest that suffice. They can be counted unless the bytes or
/// the memory cannot be addressed, or the bytes end within a page of the end of the address space.
pub proof fn missing_pages_are_fewest(pages: int, offset: int, len: int)
    requires
        0 <= pages,
        0 <= offset,
        0 <= len,
    ensures
        missing_pages(pages, offset, len) matches Some(delta) ==> {
            &&& 0 <= delta
            &&& offset + len <= (pages + delta) * 65536
            &&& delta > 0 ==> offset + len > (pages + delta - 1) * 65536
        },
        missing_pages(pages, offset, len) is None <==> {
            ||| offset + len > u64::MAX
            ||| pages * 65536 > u64::MAX
            ||| offset + len > pages * 65536 && offset + len - pages * 65536 + 65535 > u64::MAX
        },
{
}

/// What comes of writing `src` at `offset`. The memory grows by the fewest pages that suffice, and
/// only if it has too few. If it refuses, the error names the pages that it has and the fewest that
/// would have sufficed.
pub proof fn outcome_of_writing(
    before: Seq<u8>,
    after: Seq<u8>,
    offset: int,
    src: Seq<u8>,
    result: Result<(), WriteError>,
)
    requires
        0 <= offset,
        write_result(before, after, offset, src, result),
    ensures
        ({
            let end = offset + src.len();
            let pages = before.len() as int / 65536;
            match result {
                Ok(()) => {
                    let pages2 = after.len() as int / 65536;
                    &&& after.len() - before.len() == (pages2 - pages) * 65536
                    &&& end <= pages2 * 65536
                    &&& end <= pages * 65536 ==> pages2 == pages
                    &&& end > pages * 65536 ==> pages2 > pages && end > (pages2 - 1) * 65536
                },
                Err(WriteError::GrowFailed { current, delta }) => {
                    &&& after == before
                    &&& current == pages
                    &&& delta > 0
                    &&& end > (pages + delta - 1) * 65536
                    &&& end <= (pages + delta) * 65536
                },
                Err(WriteError::AddressSpaceOverflow) => {
                    &&& after == before
                    &&& {
                        ||| end > u64::MAX
                        ||| pages * 65536 > u64::MAX
                        ||| end > pages * 65536 && end - pages * 65536 + 65535 > u64::MAX
                    }
                },
            }
        }),
{
    missing_pages_are_fewest(before.len() as int / 65536, offset, src.len() as int);
}

/// There is a place for bytes that lie within the pages of a memory.
pub proof fn place_without_growth<M: Memory64>(memory: M, offset: int, len: int)
    requires
        0 <= offset,
        0 <= len,
        offset + len <= memory.bytes().len() as int / 65536 * 65536 <= u64::MAX,
    ensures
        has_place(memory, offset, len),
{
}

/// There is a place for other bytes if and only if the memory grants the fewest pages that
/// suffice.
pub proof fn place_by_growth<M: Memory64>(memory: M, offset: int, len: int, delta: int)
    requires
        0 <= offset,
        0 <= len,
        offset + len + 65535 <= u64::MAX,
        memory.bytes().len() as int / 65536 * 65536 <= u64::MAX,
        delta > 0,
        offset + len <= (memory.bytes().len() as int / 65536 + delta) * 65536,
        offset + len > (memory.bytes().len() as int / 65536 + delta - 1) * 65536,
    ensures
        has_place(memory, offset, len) <==> memory.may_grow_to(
            (memory.bytes().len() + delta * 65536) as nat,
        ),
{
}

/// A map can be made in a memory if and only if the memory has a page, or grants its first one.
pub proof fn place_for_new_map<M: Memory64>(memory: M)
    requires
        memory.bytes().len() as int / 65536 * 65536 <= u64::MAX,
    ensures
        has_place(
            memory,
            BTREE_HEADER_SIZE + ALLOCATOR_HEADER_SIZE,
            CHUNK_HEADER_SIZE as int,
        ) <==> memory.bytes().len() >= 65536 || memory.may_grow_to(memory.bytes().len() + 65536),
{
}

/// A vector grants every page that keeps its length within `isize::MAX`.
pub proof fn vector_grants_pages(memory: Vec<u8>, len: nat)
    ensures
        memory.may_grow_to(len) <==> len <= isize::MAX,
{
}

/// A map can be made in a vector that has a page, or can have one more.
pub proof fn place_in_vector(memory: Vec<u8>)
    requires
        memory@.len() / 65536 * 65536 <= u64::MAX,
    ensures
        has_place(
            memory,
            BTREE_HEADER_SIZE + ALLOCATOR_HEADER_SIZE,
            CHUNK_HEADER_SIZE as int,
        ) <==> memory@.len() >= 65536 || memory@.len() + 65536 <= isize::MAX,
{
    place_for_new_map(memory);
}

/// The header of an allocator has 28 bytes, and that of a chunk 13. The chunks lie one after the
/// other behind the header of the allocator. As many can be allocated without growth as leave room
/// for the header of one more within the pages of the memory.
pub proof fn chunks_without_growth(allocator: Allocator, bytes: Seq<u8>, num: int)
    ensures
        ({
            let first = allocator.spec_header_address() + 28;
            let size = allocator.spec_allocation_size() + 13;
            num <= allocator.capacity(bytes) <==> first + num * size + 13 <= bytes.len() as int
                / 65536 * 65536
        }),
{
    reveal(chunks_within);
    let size = allocator.spec_allocation_size() + 13;
    let room = bytes.len() as int / 65536 * 65536 - allocator.first_chunk() - 13;
    assert(num <= room / size <==> num * size <= room) by (nonlinear_arith)
        requires
            size > 0,
    ;
}

/// For `num` chunks, a memory has the fewest pages that suffice, or those that it had if these
/// suffice. The chunks overflow if and only if they end within a page of the end of the address
/// space.
pub proof fn growth_for_chunks(allocator: Allocator, bytes: Seq<u8>, num: int)
    requires
        usable(bytes) <= u64::MAX,
        num >= 0,
    ensures
        ({
            let first = allocator.spec_header_address() + 28;
            let size = allocator.spec_allocation_size() + 13;
            let end = first + num * size + 13;
            let pages = bytes.len() as int / 65536;
            let len2 = allocator.size_with(bytes.len(), num);
            let pages2 = len2 / 65536;
            &&& allocator.overflows(num) <==> end + 65535 > u64::MAX
            &&& end + 65535 <= u64::MAX ==> {
                &&& len2 - bytes.len() == (pages2 - pages) * 65536
                &&& end <= pages2 * 65536
                &&& end <= pages * 65536 ==> len2 == bytes.len()
                &&& end > pages * 65536 ==> pages2 > pages && end > (pages2 - 1) * 65536
            }
        }),
{
    reveal(size_for);
    let size = allocator.spec_allocation_size() + 13;
    assert(num * size >= 0) by (nonlinear_arith)
        requires
            num >= 0,
            size > 0,
    ;
    missing_pages_are_fewest(
        bytes.len() as int / 65536,
        allocator.first_chunk() + num * size,
        13,
    );
}

/// A memory can be made large enough for `num` chunks if and only if they can be addressed, and
/// lie within its pages already or within those that it grants.
pub proof fn chunks_are_granted<M: Memory64>(
    allocator: Allocator,
    memory: M,
    num: int,
    delta: int,
)
    requires
        usable(memory.bytes()) <= u64::MAX,
        num >= 0,
    ensures
        ({
            let first = allocator.spec_header_address() + 28;
            let size = allocator.spec_allocation_size() + 13;
            let end = first + num * size + 13;
            let pages = memory.bytes().len() as int / 65536;
            let len2 = memory.bytes().len() + delta * 65536;
            &&& end + 65535 > u64::MAX ==> !allocator.obtains(memory, num)
            &&& end + 65535 <= u64::MAX ==> {
                &&& end <= pages * 65536 ==> allocator.obtains(memory, num)
                &&& delta > 0 && (pages + delta - 1) * 65536 < end <= (pages + delta) * 65536 ==> (
                allocator.obtains(memory, num) <==> memory.may_grow_to(len2 as nat))
            }
        }),
{
    growth_for_chunks(allocator, memory.bytes(), num);
}

/// The error of an allocator names the pages that the memory has, and the fewest more that would
/// have sufficed for one more chunk.
pub proof fn error_of_allocator(allocator: Allocator, bytes: Seq<u8>, num: int)
    requires
        usable(bytes) <= u64::MAX,
        num >= 0,
        num >= allocator.capacity(bytes),
    ensures
        ({
            let first = allocator.spec_header_address() + 28;
            let size = allocator.spec_allocation_size() + 13;
            let end = first + (num + 1) * size + 13;
            let pages = bytes.len() as int / 65536;
            match allocator.growth_error(bytes, num) {
                WriteError::GrowFailed { current, delta } => {
                    &&& end + 65535 <= u64::MAX
                    &&& current == pages
                    &&& delta > 0
                    &&& end <= (pages + delta) * 65536
                    &&& end > (pages + delta - 1) * 65536
                },
                WriteError::AddressSpaceOverflow => end + 65535 > u64::MAX,
            }
        }),
{
    reveal(error_for);
    let size = allocator.spec_allocation_size() + 13;
    let above = allocator.first_chunk() + (num + 1) * size;
    assert((num + 1) * size >= 0) by (nonlinear_arith)
        requires
            num >= 0,
            size > 0,
    ;
    chunks_without_growth(allocator, bytes, num + 1);
    missing_pages_are_fewest(bytes.len() as int / 65536, above, 13);
}

/// Where the header of the chunk ends that follows `num` chunks.
proof fn lemma_chunk_end<M: Memory64>(map: StableBTreeMap<M>, num: int)
    requires
        map.wf(),
    ensures
        map.spec_allocator().first_chunk() == 48,
        map.spec_allocator().spec_chunk_size() == 4109,
        map.spec_allocator().chunk_above(num - 1) == 48 + num * 4109,
{
    map.lemma_layout();
}

/// Chunks of 4109 bytes lie behind the 48 bytes of the headers, and 13 bytes are kept for the
/// header of one more. There is room for as many chunks as fit within the pages of the memory.
pub proof fn room_in_memory<M: Memory64>(map: StableBTreeMap<M>, chunks: nat)
    requires
        map.wf(),
    ensures
        ({
            let num = map.spec_allocator().num_allocations();
            let end = 48 + (num + chunks) * 4109 + 13;
            &&& map.has_room(chunks) <==> end <= map.bytes().len() as int / 65536 * 65536
            &&& map.has_room(chunks) ==> map.obtains_all(chunks)
        }),
{
    let num = map.spec_allocator().num_allocations();
    let pages = map.bytes().len() as int / 65536;
    lemma_chunk_end(map, num as int);
    reveal(chunks_within);
    map.lemma_usable();
    if map.has_room(chunks) {
        assert forall|n: int| num < n <= num + chunks implies #[trigger] map.obtains(n) by {
            lemma_chunk_end(map, n);
            reveal(size_for);
        }
    }
}

/// The memory has the fewest pages that suffice for `num` chunks, or those that it had if these
/// suffice.
pub proof fn size_for_chunks<M: Memory64>(map: StableBTreeMap<M>, num: int)
    requires
        map.wf(),
        num >= 0,
        !map.spec_allocator().overflows(num),
    ensures
        ({
            let len = map.bytes().len();
            let size = map.spec_allocator().size_with(len, num);
            let end = 48 + num * 4109 + 13;
            &&& size - len == (size / 65536 - len as int / 65536) * 65536
            &&& end <= size / 65536 * 65536
            &&& end <= len as int / 65536 * 65536 ==> size == len
            &&& end > len as int / 65536 * 65536 ==> size > len && end > (size / 65536 - 1) * 65536
        }),
{
    lemma_chunk_end(map, num);
    map.lemma_usable();
    reveal(size_for);
    missing_pages_are_fewest(map.bytes().len() as int / 65536, 48 + num * 4109, 13);
}

/// Chunks overflow if and only if they end within a page of the end of the address space.
pub proof fn chunks_overflow<M: Memory64>(map: StableBTreeMap<M>, num: int)
    requires
        map.wf(),
    ensures
        map.spec_allocator().overflows(num) <==> 48 + num * 4109 + 13 + 65535 > u64::MAX,
{
    lemma_chunk_end(map, num);
}

/// An insertion succeeds if the memory grants every page that its chunks need, and the chunks can
/// be addressed.
pub proof fn insertion_is_granted<M: Memory64>(map: StableBTreeMap<M>, key: Seq<u8>)
    requires
        map.wf(),
        ({
            let num = map.spec_allocator().num_allocations() + chunks_needed(map.spec_tree(), key);
            let end = 48 + num * 4109 + 13;
            &&& end + 65535 <= u64::MAX
            &&& forall|len: nat|
                map.bytes().len() < len < end + 131072 ==> #[trigger] map.may_grow_to(len)
        }),
    ensures
        map.obtains_all(chunks_needed(map.spec_tree(), key)),
{
    let num = map.spec_allocator().num_allocations();
    let needed = chunks_needed(map.spec_tree(), key);
    assert forall|n: int| num < n <= num + needed implies #[trigger] map.obtains(n) by {
        chunks_overflow(map, n);
        size_for_chunks(map, n);
        let size = map.spec_allocator().size_with(map.bytes().len(), n);
        if size != map.bytes().len() {
            assert(map.may_grow_to(size as nat));
        }
    }
}

/// An insertion fails only if its chunks cannot be addressed, or the memory refuses to grow.
pub proof fn insertion_is_refused<M: Memory64>(map: StableBTreeMap<M>, key: Seq<u8>) -> (len: nat)
    requires
        map.wf(),
        !map.obtains_all(chunks_needed(map.spec_tree(), key)),
        ({
            let num = map.spec_allocator().num_allocations() + chunks_needed(map.spec_tree(), key);
            48 + num * 4109 + 13 + 65535 <= u64::MAX
        }),
    ensures
        len > map.bytes().len(),
        !map.may_grow_to(len),
{
    let num = map.spec_allocator().num_allocations();
    let needed = chunks_needed(map.spec_tree(), key);
    let n = choose|n: int| num < n <= num + needed && !(#[trigger] map.obtains(n));
    chunks_overflow(map, n);
    size_for_chunks(map, n);
    map.spec_allocator().size_with(map.bytes().len(), n) as nat
}

/// An insertion into a map in a vector succeeds as long as the memory that its chunks need stays
/// within `isize::MAX` bytes.
pub proof fn insertion_into_vector(map: StableBTreeMap<Vec<u8>>, key: Seq<u8>)
    requires
        map.wf(),
    ensures
        ({
            let num = map.spec_allocator().num_allocations() + chunks_needed(map.spec_tree(), key);
            &&& !map.spec_allocator().overflows(num) && map.spec_allocator().size_with(
                map.bytes().len(),
                num,
            ) <= isize::MAX ==> map.obtains_all(chunks_needed(map.spec_tree(), key))
            &&& 48 + num * 4109 + 13 + 131072 <= isize::MAX ==> map.obtains_all(
                chunks_needed(map.spec_tree(), key),
            )
        }),
{
    let num = map.spec_allocator().num_allocations();
    let needed = chunks_needed(map.spec_tree(), key);
    let last = num + needed;
    map.lemma_in_vector();
    if !map.spec_allocator().overflows(last) && map.spec_allocator().size_with(
        map.bytes().len(),
        last,
    ) <= isize::MAX {
        chunks_overflow(map, last);
        size_for_chunks(map, last);
        assert forall|n: int| num < n <= num + needed implies #[trigger] map.obtains(n) by {
            chunks_overflow(map, n);
            size_for_chunks(map, n);
        }
    }
    if 48 + last * 4109 + 13 + 131072 <= isize::MAX {
        insertion_is_granted(map, key);
    }
}

/// The error of a memory that refuses to grow names the pages that it has, and the fewest more that
/// would have sufficed for one more chunk.
pub proof fn error_of_refusal<M: Memory64>(map: StableBTreeMap<M>, error: WriteError, num: int)
    requires
        map.wf(),
        num >= 0,
        map.full(error, num),
    ensures
        ({
            let pages = map.bytes().len() as int / 65536;
            let end = 48 + (num + 1) * 4109 + 13;
            match error {
                WriteError::GrowFailed { current, delta } => {
                    &&& current == pages
                    &&& delta > 0
                    &&& end <= (pages + delta) * 65536
                    &&& end > (pages + delta - 1) * 65536
                },
                WriteError::AddressSpaceOverflow => end + 65535 > u64::MAX,
            }
        }),
{
    lemma_chunk_end(map, num + 1);
    map.lemma_usable();
    reveal(error_for);
    reveal(chunks_within);
    missing_pages_are_fewest(map.bytes().len() as int / 65536, 48 + (num + 1) * 4109, 13);
}

// What becomes of the tree.

/// The tree after an insertion is a B-tree with the entries from before and the new one.
pub proof fn insertion_into_tree(t: Tree, key: Seq<u8>, value: Seq<u8>, fresh: Seq<Ptr>)
    requires
        shape(t),
        !is_full(t),
        sorted(entries(t)),
    ensures
        entries(inserted(t, key, value, fresh)) == put(entries(t), key, value),
        shape(inserted(t, key, value, fresh)),
        height(inserted(t, key, value, fresh)) == height(t),
        inserted(t, key, value, fresh).addr == t.addr,
{
    lemma_inserted(t, key, value, fresh);
}

/// A key that the root holds is overwritten there.
pub proof fn insertion_overwrites(
    t: Tree,
    value: Seq<u8>,
    fresh: Seq<Ptr>,
    i: int,
)
    requires
        shape(t),
        !is_full(t),
        ascending(t.keys),
        0 <= i < t.keys.len(),
    ensures
        inserted(t, t.keys[i], value, fresh) == (Tree {
            values: t.values.update(i, value),
            ..t
        }),
{
    lemma_index_is(t.keys, i);
}

/// A new key is put into a leaf at its place.
pub proof fn insertion_into_leaf(
    t: Tree,
    key: Seq<u8>,
    value: Seq<u8>,
    fresh: Seq<Ptr>,
    i: int,
)
    requires
        shape(t),
        !is_full(t),
        t.children.len() == 0,
        gap_at(t.keys, key, i),
    ensures
        inserted(t, key, value, fresh) == (Tree {
            keys: t.keys.insert(i, key),
            values: t.values.insert(i, value),
            ..t
        }),
{
    lemma_gap_is(t.keys, key, i);
}

/// A new key goes down into a child that is not full.
pub proof fn insertion_below(
    t: Tree,
    key: Seq<u8>,
    value: Seq<u8>,
    fresh: Seq<Ptr>,
    i: int,
)
    requires
        shape(t),
        !is_full(t),
        gap_at(t.keys, key, i),
        i < t.children.len(),
        !is_full(t.children[i]),
    ensures
        inserted(t, key, value, fresh) == t.with_child(
            i,
            inserted(t.children[i], key, value, fresh),
        ),
{
    lemma_gap_is(t.keys, key, i);
    assert(shape(t.children[i]));
}

/// A full child is split before a key goes down into it: the lower `B - 1` entries stay, the
/// entry in the middle moves up, the upper `B - 1` entries move into a new node.
pub proof fn insertion_splits(
    t: Tree,
    key: Seq<u8>,
    value: Seq<u8>,
    fresh: Seq<Ptr>,
    i: int,
)
    requires
        shape(t),
        !is_full(t),
        sorted(entries(t)),
        gap_at(t.keys, key, i),
        i < t.children.len(),
        is_full(t.children[i]),
        fresh.len() > 0,
        !is_full(t.split(i, fresh[0])),
    ensures
        inserted(t, key, value, fresh) == inserted(
            t.split(i, fresh[0]),
            key,
            value,
            fresh.skip(1),
        ),
        t.split(i, fresh[0]).keys == t.keys.insert(i, t.children[i].keys[B - 1]),
        t.split(i, fresh[0]).children[i].keys == t.children[i].keys.take(B - 1),
        t.split(i, fresh[0]).children[i + 1].keys == t.children[i].keys.skip(B as int),
        t.split(i, fresh[0]).children[i].addr == t.children[i].addr,
        t.split(i, fresh[0]).children[i + 1].addr == fresh[0],
{
    lemma_gap_is(t.keys, key, i);
    lemma_not_split_again(t, key, fresh[0]);
}

/// After a full child was split, the key goes down into the child that it belongs in then.
pub proof fn insertion_after_split(
    t: Tree,
    key: Seq<u8>,
    value: Seq<u8>,
    fresh: Seq<Ptr>,
    i: int,
    j: int,
)
    requires
        shape(t),
        !is_full(t),
        gap_at(t.keys, key, i),
        i < t.children.len(),
        is_full(t.children[i]),
        gap_at(t.split(i, fresh[0]).keys, key, j),
    ensures
        ({
            let t1 = t.split(i, fresh[0]);
            &&& inserted(t, key, value, fresh) == t1.with_child(
                j,
                inserted(t1.children[j], key, value, fresh.skip(1)),
            )
            &&& i <= j <= i + 1
            &&& j == i <==> precedes(key, t.children[i].keys[5])
        }),
{
    let t1 = t.split(i, fresh[0]);
    let median = t.children[i].keys[5];
    lemma_gap_is(t.keys, key, i);
    lemma_gap_is(t1.keys, key, j);
    lemma_split_shape(t, i, fresh[0]);
    assert(shape(t1.children[j]));
    assert(t1.keys[i] == median);
    lemma_total(key, median);
    if i > 0 {
        assert(t1.keys[i - 1] == t.keys[i - 1]);
        lemma_total(t.keys[i - 1], key);
    }
    if i < t.keys.len() {
        assert(t1.keys[i + 1] == t.keys[i]);
        lemma_total(key, t.keys[i]);
    }
    lemma_total(median, key);
}

/// A key that moves up in a split is overwritten where it has moved to.
pub proof fn insertion_of_middle(t: Tree, value: Seq<u8>, fresh: Seq<Ptr>, i: int)
    requires
        shape(t),
        !is_full(t),
        sorted(entries(t)),
        0 <= i < t.children.len(),
        is_full(t.children[i]),
        gap_at(t.keys, t.children[i].keys[5], i),
    ensures
        ({
            let t1 = t.split(i, fresh[0]);
            inserted(t, t.children[i].keys[5], value, fresh) == (Tree {
                values: t1.values.update(i, value),
                ..t1
            })
        }),
{
    let key = t.children[i].keys[5];
    let t1 = t.split(i, fresh[0]);
    lemma_gap_is(t.keys, key, i);
    lemma_split_entries(t, i, fresh[0]);
    lemma_keys_ascending(t1);
    assert(t1.keys[i] == key);
    lemma_index_is(t1.keys, i);
}

/// The first insertion makes a leaf with one entry. A root that is not full stays.
pub proof fn insertion_at_root(t: Tree, key: Seq<u8>, value: Seq<u8>, fresh: Seq<Ptr>)
    requires
        !is_full(t),
    ensures
        tree_after_insert(None, key, value, fresh) == (Tree {
            addr: fresh[0],
            keys: seq![key],
            values: seq![value],
            children: seq![],
        }),
        tree_after_insert(Some(t), key, value, fresh) == inserted(t, key, value, fresh),
{
}

/// The tree of a map after an insertion holds the new entry, the entries from before that have
/// other keys, and nothing else. It is a B-tree, and no lower than before.
pub proof fn insertion_into_whole_tree(
    tree: Option<Tree>,
    key: Seq<u8>,
    value: Seq<u8>,
    tree2: Option<Tree>,
    x: Entry,
)
    requires
        tree matches Some(t) ==> shape(t) && t.keys.len() > 0 && sorted(entries(t)),
        tree_grows_to(tree, key, value, tree2),
    ensures
        tree2 matches Some(t2) && {
            &&& shape(t2)
            &&& t2.keys.len() > 0
            &&& sorted(entries(t2))
            &&& entries(t2).contains(x) <==> x == (key, value) || {
                &&& tree matches Some(t)
                &&& entries(t).contains(x)
                &&& x.0 != key
            }
            &&& tree matches Some(t) ==> height(t) <= height(t2) <= height(t) + 1
            &&& tree is None ==> height(t2) == 0
        },
{
    let fresh = choose|fresh: Seq<Ptr>|
        {
            &&& fresh.len() == chunks_needed(tree, key)
            &&& tree2 == Some(#[trigger] tree_after_insert(tree, key, value, fresh))
        };
    let t2 = tree2->0;
    match tree {
        None => {
            entries_of_leaf(t2);
            assert(entries(t2)[0] == (key, value));
        },
        Some(t) => {
            if is_full(t) {
                lemma_raised_root(t, fresh[0]);
                lemma_inserted(raised(t, fresh[0]), key, value, fresh.skip(1));
            } else {
                lemma_inserted(t, key, value, fresh);
            }
            entries_after_insertion(entries(t), key, value, x);
        },
    }
}

/// A full root is split below a new root: the lower `B - 1` entries stay, the entry in the middle
/// moves up, the upper `B - 1` entries move into another new node. The key then goes down.
pub proof fn insertion_raises_root(t: Tree, key: Seq<u8>, value: Seq<u8>, fresh: Seq<Ptr>)
    requires
        shape(t),
        is_full(t),
        sorted(entries(t)),
        fresh.len() >= 2,
    ensures
        ({
            let t1 = Tree {
                addr: fresh[0],
                keys: seq![t.keys[B - 1]],
                values: seq![t.values[B - 1]],
                children: seq![t.lower_half(), t.upper_half(fresh[1])],
            };
            &&& tree_after_insert(Some(t), key, value, fresh) == inserted(
                t1,
                key,
                value,
                fresh.skip(2),
            )
            &&& shape(t1)
            &&& sorted(entries(t1))
            &&& t1.children[0].keys == t.keys.take(B - 1)
            &&& t1.children[1].keys == t.keys.skip(B as int)
        }),
{
    let r = raised(t, fresh[0]);
    lemma_raised_root(t, fresh[0]);
    assert(gap_at(r.keys, key, 0));
    assert(fresh.skip(1)[0] == fresh[1]);
    assert(fresh.skip(1).skip(1) =~= fresh.skip(2));
    insertion_splits(r, key, value, fresh.skip(1), 0);
    lemma_split_shape(r, 0, fresh[1]);
    lemma_split_entries(r, 0, fresh[1]);
    let t1 = r.split(0, fresh[1]);
    assert(t1.keys =~= seq![t.keys[B - 1]]);
    assert(t1.values =~= seq![t.values[B - 1]]);
    assert(t1.children =~= seq![t.lower_half(), t.upper_half(fresh[1])]);
}

/// The tree after a removal holds the entries from before without that of the key. All but its
/// root is that of a B-tree, and the root loses one entry at most.
pub proof fn removal_from_tree(t: Tree, key: Seq<u8>)
    requires
        shape(t),
        t.keys.len() > 0,
        sorted(entries(t)),
    ensures
        entries(shrunk(t, key)) == del(entries(t), key),
        shape(shrunk(t, key)),
        height(shrunk(t, key)) == height(t),
        shrunk(t, key).addr == t.addr,
        shrunk(t, key).keys.len() >= t.keys.len() - 1,
        find(entries(shrunk(t, key)), key) is None,
{
    lemma_shrunk(t, key);
    lemma_shrunk_root(t, key);
    lemma_del(entries(t), key);
    lemma_find(del(entries(t), key), key);
}

/// A key in a leaf is taken out.
pub proof fn removal_from_leaf(t: Tree, i: int)
    requires
        shape(t),
        ascending(t.keys),
        t.children.len() == 0,
        0 <= i < t.keys.len(),
    ensures
        shrunk(t, t.keys[i]) == (Tree {
            keys: t.keys.remove(i),
            values: t.values.remove(i),
            ..t
        }),
{
    lemma_index_is(t.keys, i);
}

/// A leaf without the key stays as it is.
pub proof fn removal_from_other_leaf(t: Tree, key: Seq<u8>, i: int)
    requires
        shape(t),
        t.children.len() == 0,
        t.keys.len() > 0,
        gap_at(t.keys, key, i),
    ensures
        shrunk(t, key) == t,
{
    lemma_gap_is(t.keys, key, i);
}

/// A key in an internal node is replaced by its predecessor, if the child before it can spare an
/// entry. The other entries of the node and the addresses of its children stay, and the child no
/// longer holds the predecessor.
pub proof fn predecessor_takes_place(t: Tree, i: int)
    requires
        shape(t),
        sorted(entries(t)),
        0 <= i < t.children.len() - 1,
        t.children[i].keys.len() >= B,
    ensures
        ({
            let x = entries(t.children[i]).last();
            let t2 = shrunk(t, t.keys[i]);
            &&& t2 == t.with_entry(i, x).with_child(i, shrunk(t.children[i], x.0))
            &&& t2.keys == t.keys.update(i, x.0)
            &&& t2.values == t.values.update(i, x.1)
            &&& tops(t2.children) == tops(t.children)
            &&& entries(t2.children[i]) == del(entries(t.children[i]), x.0)
            &&& find(entries(t2.children[i]), x.0) is None
        }),
{
    lemma_keys_ascending(t);
    lemma_index_is(t.keys, i);
    assert(shape(t.children[i]));
    lemma_child_sorted(t, i);
    let x = entries(t.children[i]).last();
    removal_from_tree(t.children[i], x.0);
    assert(tops(shrunk(t, t.keys[i]).children) =~= tops(t.children));
}

/// A key in an internal node is replaced by its successor, if the child before it cannot spare an
/// entry and the child after it can. The other entries of the node and the addresses of its
/// children stay, and the child no longer holds the successor.
pub proof fn successor_takes_place(t: Tree, i: int)
    requires
        shape(t),
        sorted(entries(t)),
        0 <= i < t.children.len() - 1,
        t.children[i].keys.len() < B,
        t.children[i + 1].keys.len() >= B,
    ensures
        ({
            let x = entries(t.children[i + 1])[0];
            let t2 = shrunk(t, t.keys[i]);
            &&& t2 == t.with_entry(i, x).with_child(i + 1, shrunk(t.children[i + 1], x.0))
            &&& t2.keys == t.keys.update(i, x.0)
            &&& t2.values == t.values.update(i, x.1)
            &&& tops(t2.children) == tops(t.children)
            &&& entries(t2.children[i + 1]) == del(entries(t.children[i + 1]), x.0)
            &&& find(entries(t2.children[i + 1]), x.0) is None
        }),
{
    lemma_keys_ascending(t);
    lemma_index_is(t.keys, i);
    assert(shape(t.children[i + 1]));
    lemma_child_sorted(t, i + 1);
    let x = entries(t.children[i + 1])[0];
    removal_from_tree(t.children[i + 1], x.0);
    assert(tops(shrunk(t, t.keys[i]).children) =~= tops(t.children));
}

/// If neither child next to a key can spare an entry, both are merged around the key, and the key
/// is removed from the merged node.
pub proof fn children_merge_around_key(t: Tree, i: int)
    requires
        shape(t),
        ascending(t.keys),
        0 <= i < t.children.len() - 1,
        t.children[i].keys.len() < B,
        t.children[i + 1].keys.len() < B,
    ensures
        ({
            let t1 = t.merge(i, t.children[i].addr);
            shrunk(t, t.keys[i]) == t1.with_child(i, shrunk(t1.children[i], t.keys[i]))
        }),
{
    lemma_index_is(t.keys, i);
    lemma_merge_shape(t, i, t.children[i].addr);
    assert(shape(t.merge(i, t.children[i].addr).children[i]));
}

/// A key that is not in the root is removed from the child that it belongs in, after that child
/// has got an entry to spare: it has one already, or gets it from its left neighbour, or from its
/// right one, or is merged into its left neighbour, or, as the first child, into its right one.
pub proof fn removal_below(t: Tree, key: Seq<u8>, i: int)
    requires
        shape(t),
        t.keys.len() > 0,
        gap_at(t.keys, key, i),
        i < t.children.len(),
    ensures
        ({
            let (t1, j) = lent(t, i);
            shrunk(t, key) == t1.with_child(j, shrunk(t1.children[j], key))
        }),
        ({
            let spares = |k: int| 0 <= k < t.children.len() && t.children[k].keys.len() >= B;
            lent(t, i) == if spares(i) {
                (t, i)
            } else if spares(i - 1) {
                (t.rotate_right(i - 1), i)
            } else if spares(i + 1) {
                (t.rotate_left(i), i)
            } else if i > 0 {
                (t.merge(i - 1, t.children[i - 1].addr), i - 1)
            } else {
                (t.merge(i, t.children[i + 1].addr), i)
            }
        }),
{
    lemma_gap_is(t.keys, key, i);
    lemma_lent(t, i);
    assert(shape(lent(t, i).0.children[lent(t, i).1]));
}

/// The tree of a map after a removal is missing if and only if the key was that of the only entry.
/// Otherwise it is a B-tree again, with at least one entry in its root, and holds the entries from
/// before without that of the key.
pub proof fn removal_from_whole_tree(t: Tree, key: Seq<u8>)
    requires
        shape(t),
        t.keys.len() > 0,
        sorted(entries(t)),
    ensures
        tree_after_remove(Some(t), key) is None <==> entries(t).len() == 1 && entries(t)[0].0
            == key,
        tree_after_remove(Some(t), key) matches Some(t2) ==> {
            &&& shape(t2)
            &&& t2.keys.len() > 0
            &&& entries(t2) == del(entries(t), key)
            &&& sorted(entries(t2))
            &&& height(t2) <= height(t)
        },
{
    let t1 = shrunk(t, key);
    removal_from_tree(t, key);
    lemma_del(entries(t), key);
    lemma_lowered(t1);
    lemma_tree_size(t);
    lemma_del_len(entries(t), key);
}

/// A key is found in sorted entries with a value if and only if one of them has this key and this
/// value, and it is not found if and only if none has this key.
pub proof fn lookup_in_entries(e: Seq<Entry>, key: Seq<u8>, value: Seq<u8>)
    requires
        sorted(e),
    ensures
        find(e, key) == Some(value) <==> e.contains((key, value)),
        find(e, key) is None <==> forall|i: int| 0 <= i < e.len() ==> (#[trigger] e[i]).0 != key,
{
    lemma_find_entries(e, key, value);
}

/// Putting a key into sorted entries adds its entry, takes out the entry that the key had, and
/// leaves the others.
pub proof fn entries_after_insertion(e: Seq<Entry>, key: Seq<u8>, value: Seq<u8>, x: Entry)
    requires
        sorted(e),
    ensures
        sorted(put(e, key, value)),
        put(e, key, value).contains(x) <==> x == (key, value) || e.contains(x) && x.0 != key,
{
    lemma_put(e, key, value);
    map_holds_entries(e, x.0, x.1);
    map_holds_entries(put(e, key, value), x.0, x.1);
}

/// A map holds the entries that it is made of, and no others.
pub proof fn map_holds_entries(e: Seq<Entry>, key: Seq<u8>, value: Seq<u8>)
    requires
        sorted(e),
    ensures
        map_of(e).contains_key(key) && map_of(e)[key] == value <==> e.contains((key, value)),
        map_of(e).contains_key(key) <==> exists|i: int|
            0 <= i < e.len() && (#[trigger] e[i]).0 == key,
{
    lemma_find(e, key);
    lemma_find_entries(e, key, value);
}

/// A map holds the entries of its tree, and no others.
pub proof fn map_holds_tree<M: Memory64>(map: StableBTreeMap<M>, key: Seq<u8>, value: Seq<u8>)
    requires
        map.wf(),
    ensures
        map@.contains_key(key) && map@[key] == value <==> {
            &&& map.spec_tree() matches Some(t)
            &&& entries(t).contains((key, value))
        },
{
    map.lemma_layout();
    if let Some(t) = map.spec_tree() {
        map_holds_entries(entries(t), key, value);
    }
}

/// The entries of a tree are those of its root and those of its subtrees.
pub proof fn entries_of_tree(t: Tree, x: Entry)
    requires
        shape(t),
    ensures
        entries(t).contains(x) <==> {
            ||| exists|i: int|
                0 <= i < t.keys.len() && #[trigger] t.keys[i] == x.0 && t.values[i] == x.1
            ||| exists|i: int|
                0 <= i < t.children.len() && entries(#[trigger] t.children[i]).contains(x)
        },
{
    let n = t.keys.len() as int;
    let (front, back) = (prefix(subs(t), seps(t), n), subs(t)[n]);
    lemma_prefix_entries(subs(t), seps(t), n, x);
    lemma_joined(front, back, x);
    assert(entries(t) == front + back);
    if exists|i: int| 0 <= i < n && #[trigger] t.keys[i] == x.0 && t.values[i] == x.1 {
        let i = choose|i: int| 0 <= i < n && #[trigger] t.keys[i] == x.0 && t.values[i] == x.1;
        assert(seps(t)[i] == x);
    }
    if exists|i: int| 0 <= i < t.children.len() && entries(#[trigger] t.children[i]).contains(x) {
        let i = choose|i: int|
            0 <= i < t.children.len() && entries(#[trigger] t.children[i]).contains(x);
        assert(subs(t)[i].contains(x));
    }
    if front.contains(x) {
        let i = choose|i: int|
            #![trigger subs(t)[i]]
            #![trigger seps(t)[i]]
            0 <= i < n && (subs(t)[i].contains(x) || seps(t)[i] == x);
        if seps(t)[i] == x {
            assert(t.keys[i] == x.0);
        } else {
            lemma_in_subtree(t, i, x);
        }
    } else if back.contains(x) {
        lemma_in_subtree(t, n, x);
    }
}

proof fn lemma_in_subtree(t: Tree, i: int, x: Entry)
    requires
        shape(t),
        0 <= i <= t.keys.len(),
        subs(t)[i].contains(x),
    ensures
        i < t.children.len(),
        entries(t.children[i]).contains(x),
{
    if t.children.len() == 0 {
        assert(subs(t)[i] == Seq::<Entry>::empty());
        assert(false);
    }
}

proof fn lemma_joined(a: Seq<Entry>, b: Seq<Entry>, x: Entry)
    ensures
        (a + b).contains(x) <==> a.contains(x) || b.contains(x),
{
    if a.contains(x) {
        let i = choose|i: int| 0 <= i < a.len() && a[i] == x;
        assert((a + b)[i] == x);
    }
    if b.contains(x) {
        let i = choose|i: int| 0 <= i < b.len() && b[i] == x;
        assert((a + b)[a.len() + i] == x);
    }
    if (a + b).contains(x) {
        let i = choose|i: int| 0 <= i < (a + b).len() && (a + b)[i] == x;
        if i < a.len() {
            assert(a[i] == x);
        } else {
            assert(b[i - a.len()] == x);
        }
    }
}

proof fn lemma_prefix_entries(subs: Seq<Seq<Entry>>, seps: Seq<Entry>, n: int, x: Entry)
    ensures
        prefix(subs, seps, n).contains(x) <==> exists|i: int|
            #![trigger subs[i]]
            #![trigger seps[i]]
            0 <= i < n && (subs[i].contains(x) || seps[i] == x),
    decreases n,
{
    if n > 0 {
        let front = prefix(subs, seps, n - 1);
        lemma_prefix_entries(subs, seps, n - 1, x);
        lemma_joined(front, subs[n - 1], x);
        lemma_joined(front + subs[n - 1], seq![seps[n - 1]], x);
        assert(seq![seps[n - 1]].contains(x) <==> seps[n - 1] == x) by {
            assert(seq![seps[n - 1]][0] == seps[n - 1]);
        }
        if prefix(subs, seps, n).contains(x) && !front.contains(x) {
            assert(subs[n - 1].contains(x) || seps[n - 1] == x);
        }
    }
}

/// The entries of a leaf are its own, one after the other.
pub proof fn entries_of_leaf(t: Tree)
    requires
        t.children.len() == 0,
    ensures
        entries(t).len() == t.keys.len(),
        forall|i: int|
            0 <= i < t.keys.len() ==> #[trigger] entries(t)[i] == (t.keys[i], t.values[i]),
{
    lemma_prefix_of_leaf(t, t.keys.len() as int);
}

proof fn lemma_prefix_of_leaf(t: Tree, n: int)
    requires
        t.children.len() == 0,
        0 <= n <= t.keys.len(),
    ensures
        prefix(subs(t), seps(t), n) == seps(t).take(n),
    decreases n,
{
    if n > 0 {
        lemma_prefix_of_leaf(t, n - 1);
    }
    assert(prefix(subs(t), seps(t), n) =~= seps(t).take(n));
}

/// The entries of a subtree lie between the keys around it.
pub proof fn entries_between_keys(t: Tree, i: int, x: Entry)
    requires
        shape(t),
        sorted(entries(t)),
        0 <= i < t.children.len(),
        entries(t.children[i]).contains(x),
    ensures
        i > 0 ==> precedes(t.keys[i - 1], x.0),
        i < t.keys.len() ==> precedes(x.0, t.keys[i]),
{
    let mid = entries(t.children[i]);
    let k = choose|k: int| 0 <= k < mid.len() && mid[k] == x;
    if i > 0 {
        let (low, front) = (subs(t)[i - 1], prefix(subs(t), seps(t), i - 1));
        let part = low + seq![seps(t)[i - 1]] + mid;
        lemma_flat_pair(subs(t), seps(t), i - 1);
        lemma_sorted_part(front, part, suffix(subs(t), seps(t), i));
        assert(part[low.len() as int] == seps(t)[i - 1]);
        assert(part[low.len() + 1 + k] == x);
    }
    if i < t.keys.len() {
        let part = mid + seq![seps(t)[i]] + subs(t)[i + 1];
        lemma_flat_pair(subs(t), seps(t), i);
        lemma_sorted_part(
            prefix(subs(t), seps(t), i),
            part,
            suffix(subs(t), seps(t), i + 1),
        );
        assert(part[k] == x);
        assert(part[mid.len() as int] == seps(t)[i]);
    }
}

/// Removing a key from sorted entries takes out its entry and no other.
pub proof fn entries_after_removal(e: Seq<Entry>, key: Seq<u8>, x: Entry)
    requires
        sorted(e),
    ensures
        sorted(del(e, key)),
        del(e, key).contains(x) <==> e.contains(x) && x.0 != key,
{
    lemma_del(e, key);
    lemma_find(e, x.0);
    lemma_find(del(e, key), x.0);
    lookup_in_entries(e, x.0, x.1);
    lookup_in_entries(del(e, key), x.0, x.1);
}

/// A split moves one entry up: of the 11 entries of the child, 5 stay in it with the children
/// around them, and 5 move into the new node with the children around them.
pub proof fn split_in_halves(t: Tree, i: int, sibling: Ptr)
    requires
        shape(t),
        0 <= i < t.children.len(),
        t.children[i].keys.len() == 11,
    ensures
        ({
            let c = t.children[i];
            let t2 = t.split(i, sibling);
            let (low, high) = (t2.children[i], t2.children[i + 1]);
            &&& t2.addr == t.addr
            &&& t2.keys == t.keys.take(i) + seq![c.keys[5]] + t.keys.skip(i)
            &&& t2.values == t.values.take(i) + seq![c.values[5]] + t.values.skip(i)
            &&& t2.children == t.children.take(i) + seq![low, high] + t.children.skip(i + 1)
            &&& low.addr == c.addr
            &&& high.addr == sibling
            &&& low.keys.len() == 5
            &&& high.keys.len() == 5
            &&& c.keys == low.keys + seq![c.keys[5]] + high.keys
            &&& c.values == low.values + seq![c.values[5]] + high.values
            &&& c.children == low.children + high.children
            &&& c.children.len() > 0 ==> low.children.len() == 6
        }),
{
    let c = t.children[i];
    assert(shape(t.children[i]));
    let t2 = t.split(i, sibling);
    let (low, high) = (t2.children[i], t2.children[i + 1]);
    assert(t2.keys =~= t.keys.take(i) + seq![c.keys[5]] + t.keys.skip(i));
    assert(t2.values =~= t.values.take(i) + seq![c.values[5]] + t.values.skip(i));
    assert(t2.children =~= t.children.take(i) + seq![low, high] + t.children.skip(i + 1));
    assert(c.keys =~= low.keys + seq![c.keys[5]] + high.keys);
    assert(c.values =~= low.values + seq![c.values[5]] + high.values);
    assert(c.children =~= low.children + high.children);
}

/// Passing an entry to the right moves the last entry of the left child up, and the entry between
/// the children down to the front of the right child. The last child of the left one goes along.
pub proof fn passed_to_right(t: Tree, i: int)
    requires
        shape(t),
        0 <= i < t.children.len() - 1,
    ensures
        ({
            let (l, r) = (t.children[i], t.children[i + 1]);
            let t2 = t.rotate_right(i);
            let (l2, r2) = (t2.children[i], t2.children[i + 1]);
            &&& t2.addr == t.addr
            &&& l2.addr == l.addr
            &&& r2.addr == r.addr
            &&& t2.children == t.children.update(i, l2).update(i + 1, r2)
            &&& t2.keys.len() == t.keys.len()
            &&& forall|j: int|
                0 <= j < t.keys.len() && j != i ==> #[trigger] t2.keys[j] == t.keys[j]
                    && t2.values[j] == t.values[j]
            &&& l.keys == l2.keys + seq![t2.keys[i]]
            &&& l.values == l2.values + seq![t2.values[i]]
            &&& r2.keys == seq![t.keys[i]] + r.keys
            &&& r2.values == seq![t.values[i]] + r.values
            &&& l.children.len() == 0 ==> l2.children.len() == 0 && r2.children.len() == 0
            &&& l.children.len() > 0 ==> {
                &&& l.children == l2.children + seq![r2.children[0]]
                &&& r2.children == seq![l.children.last()] + r.children
            }
        }),
{
    let (l, r) = (t.children[i], t.children[i + 1]);
    assert(shape(t.children[i]) && shape(t.children[i + 1]));
    lemma_same_kind(t, i, i + 1);
    let t2 = t.rotate_right(i);
    let (l2, r2) = (t2.children[i], t2.children[i + 1]);
    assert(l.keys =~= l2.keys + seq![t2.keys[i]]);
    assert(l.values =~= l2.values + seq![t2.values[i]]);
    assert(r2.keys =~= seq![t.keys[i]] + r.keys);
    assert(r2.values =~= seq![t.values[i]] + r.values);
    assert(t2.children =~= t.children.update(i, l2).update(i + 1, r2));
    if l.children.len() > 0 {
        assert(l.children =~= l2.children + seq![r2.children[0]]);
        assert(r2.children =~= seq![l.children.last()] + r.children);
    }
}

/// Passing an entry to the left moves the first entry of the right child up, and the entry between
/// the children down to the end of the left child. The first child of the right one goes along.
pub proof fn passed_to_left(t: Tree, i: int)
    requires
        shape(t),
        0 <= i < t.children.len() - 1,
    ensures
        ({
            let (l, r) = (t.children[i], t.children[i + 1]);
            let t2 = t.rotate_left(i);
            let (l2, r2) = (t2.children[i], t2.children[i + 1]);
            &&& t2.addr == t.addr
            &&& l2.addr == l.addr
            &&& r2.addr == r.addr
            &&& t2.children == t.children.update(i, l2).update(i + 1, r2)
            &&& t2.keys.len() == t.keys.len()
            &&& forall|j: int|
                0 <= j < t.keys.len() && j != i ==> #[trigger] t2.keys[j] == t.keys[j]
                    && t2.values[j] == t.values[j]
            &&& r.keys == seq![t2.keys[i]] + r2.keys
            &&& r.values == seq![t2.values[i]] + r2.values
            &&& l2.keys == l.keys + seq![t.keys[i]]
            &&& l2.values == l.values + seq![t.values[i]]
            &&& r.children.len() == 0 ==> l2.children.len() == 0 && r2.children.len() == 0
            &&& r.children.len() > 0 ==> {
                &&& r.children == seq![l2.children.last()] + r2.children
                &&& l2.children == l.children + seq![r.children[0]]
            }
        }),
{
    let (l, r) = (t.children[i], t.children[i + 1]);
    assert(shape(t.children[i]) && shape(t.children[i + 1]));
    lemma_same_kind(t, i, i + 1);
    let t2 = t.rotate_left(i);
    let (l2, r2) = (t2.children[i], t2.children[i + 1]);
    assert(r.keys =~= seq![t2.keys[i]] + r2.keys);
    assert(r.values =~= seq![t2.values[i]] + r2.values);
    assert(l2.keys =~= l.keys + seq![t.keys[i]]);
    assert(l2.values =~= l.values + seq![t.values[i]]);
    assert(t2.children =~= t.children.update(i, l2).update(i + 1, r2));
    if r.children.len() > 0 {
        assert(r.children =~= seq![l2.children.last()] + r2.children);
        assert(l2.children =~= l.children + seq![r.children[0]]);
    }
}

/// Passing an entry to the left and back to the right changes nothing.
pub proof fn passing_back(t: Tree, i: int)
    requires
        shape(t),
        0 <= i < t.children.len() - 1,
    ensures
        t.rotate_left(i).rotate_right(i) == t,
{
    let (l, r) = (t.children[i], t.children[i + 1]);
    assert(shape(t.children[i]) && shape(t.children[i + 1]));
    lemma_same_kind(t, i, i + 1);
    let t1 = t.rotate_left(i);
    let t2 = t1.rotate_right(i);
    assert(t2.children[i].keys =~= l.keys);
    assert(t2.children[i].values =~= l.values);
    assert(t2.children[i].children =~= l.children);
    assert(t2.children[i + 1].keys =~= r.keys);
    assert(t2.children[i + 1].values =~= r.values);
    assert(t2.children[i + 1].children =~= r.children);
    assert(t2.keys =~= t.keys);
    assert(t2.values =~= t.values);
    assert(t2.children =~= t.children);
}

/// A merge takes one entry down: the merged child has the entries and the children of both.
pub proof fn merged_children(t: Tree, i: int, addr: Ptr)
    requires
        shape(t),
        0 <= i < t.children.len() - 1,
    ensures
        ({
            let (l, r) = (t.children[i], t.children[i + 1]);
            let t2 = t.merge(i, addr);
            let c = t2.children[i];
            &&& t2.addr == t.addr
            &&& t.keys == t2.keys.take(i) + seq![t.keys[i]] + t2.keys.skip(i)
            &&& t.values == t2.values.take(i) + seq![t.values[i]] + t2.values.skip(i)
            &&& t2.children == t.children.take(i) + seq![c] + t.children.skip(i + 2)
            &&& c.addr == addr
            &&& c.keys == l.keys + seq![t.keys[i]] + r.keys
            &&& c.values == l.values + seq![t.values[i]] + r.values
            &&& c.children == l.children + r.children
        }),
{
    let (l, r) = (t.children[i], t.children[i + 1]);
    let t2 = t.merge(i, addr);
    let c = t2.children[i];
    assert(t.keys =~= t2.keys.take(i) + seq![t.keys[i]] + t2.keys.skip(i));
    assert(t.values =~= t2.values.take(i) + seq![t.values[i]] + t2.values.skip(i));
    assert(t2.children =~= t.children.take(i) + seq![c] + t.children.skip(i + 2));
    assert(c.keys =~= l.keys + seq![t.keys[i]] + r.keys);
    assert(c.values =~= l.values + seq![t.values[i]] + r.values);
}

/// A root that is left without entries by a removal gives way to its only child, or to nothing.
/// Any other root stays.
pub proof fn removal_lowers_root(t: Tree, key: Seq<u8>)
    requires
        shape(t),
        t.keys.len() > 0,
        sorted(entries(t)),
    ensures
        ({
            let t1 = shrunk(t, key);
            let t2 = tree_after_remove(Some(t), key);
            &&& t1.keys.len() > 0 ==> t2 == Some(t1)
            &&& t1.keys.len() == 0 && t.children.len() == 0 ==> t2 is None
            &&& t1.keys.len() == 0 && t.children.len() > 0 ==> t1.children.len() == 1 && t2
                == Some(t1.children[0])
        }),
{
    removal_from_tree(t, key);
}

/// The two halves of a full node and the entry in its middle are merged into that node, whichever
/// half is merged into the other.
pub proof fn merge_rejoins_halves(c: Tree, sibling: Ptr)
    requires
        shape(c),
        is_full(c),
        ascending(c.keys),
    ensures
        merged_node(
            c.lower_half().node(),
            c.upper_half(sibling).node(),
            c.keys[B - 1],
            c.values[B - 1],
        ) == c.node(),
        merged_node(
            c.upper_half(sibling).node(),
            c.lower_half().node(),
            c.keys[B - 1],
            c.values[B - 1],
        ) == c.node(),
{
    let (low, high) = (c.lower_half().node(), c.upper_half(sibling).node());
    assert(low.keys[0] == c.keys[0] && high.keys[0] == c.keys[B as int]);
    assert(precedes(c.keys[0], c.keys[B as int]));
    lemma_total(low.keys[0], high.keys[0]);
    let merged = merged_node(low, high, c.keys[B - 1], c.values[B - 1]);
    assert(merged.keys =~= c.keys);
    assert(merged.values =~= c.values);
    assert(merged.children =~= tops(c.children));
    merge_is_symmetric(low, high, c.keys[B - 1], c.values[B - 1]);
}

/// Two nodes become the same node whichever of them is merged into the other.
pub proof fn merge_is_symmetric(a: NodeView, b: NodeView, key: Seq<u8>, value: Seq<u8>)
    requires
        a.keys[0] != b.keys[0],
    ensures
        merged_node(a, b, key, value) == merged_node(b, a, key, value),
{
    lemma_total(a.keys[0], b.keys[0]);
    lemma_total(b.keys[0], a.keys[0]);
}

/// Merging the halves of a child that was split gives back the tree from before.
pub proof fn merge_undoes_split(t: Tree, i: int, sibling: Ptr)
    requires
        shape(t),
        0 <= i < t.children.len(),
        is_full(t.children[i]),
    ensures
        t.split(i, sibling).merge(i, t.children[i].addr) == t,
{
    let c = t.children[i];
    assert(shape(t.children[i]));
    let t1 = t.split(i, sibling);
    let merged = t1.children[i].joined(t1.keys[i], t1.values[i], t1.children[i + 1], c.addr);
    assert(merged.keys =~= c.keys);
    assert(merged.values =~= c.values);
    assert(merged.children =~= c.children);
    let t2 = t1.merge(i, c.addr);
    assert(t2.keys =~= t.keys);
    assert(t2.values =~= t.values);
    assert(t2.children =~= t.children);
}

/// Splitting a child that two children without an entry to spare were merged into gives back the
/// tree from before.
pub proof fn split_undoes_merge(t: Tree, i: int)
    requires
        shape(t),
        0 <= i < t.children.len() - 1,
        t.children[i].keys.len() == B - 1,
        t.children[i + 1].keys.len() == B - 1,
    ensures
        t.merge(i, t.children[i].addr).split(i, t.children[i + 1].addr) == t,
{
    let (l, r) = (t.children[i], t.children[i + 1]);
    assert(shape(t.children[i]) && shape(t.children[i + 1]));
    lemma_same_kind(t, i, i + 1);
    let t1 = t.merge(i, l.addr);
    let m = t1.children[i];
    assert(m.lower_half().keys =~= l.keys);
    assert(m.lower_half().values =~= l.values);
    assert(m.lower_half().children =~= l.children);
    assert(m.upper_half(r.addr).keys =~= r.keys);
    assert(m.upper_half(r.addr).values =~= r.values);
    assert(m.upper_half(r.addr).children =~= r.children);
    let t2 = t1.split(i, r.addr);
    assert(t2.keys =~= t.keys);
    assert(t2.values =~= t.values);
    assert(t2.children =~= t.children);
}

} // verus!
