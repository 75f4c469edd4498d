use stable_btree::btree::{Range, StableBTreeMap};
use stable_btree::error::{LoadError, WriteError};
use stable_btree::memory::{Memory64, WASM_PAGE_SIZE};
use stable_btree::node::{Node, B, CAPACITY, MAX_KEY_SIZE, MAX_VALUE_SIZE, NULL};

/// A memory that refuses to grow beyond a number of pages.
struct LimitedMemory {
    bytes: Vec<u8>,
    limit: u64,
}

impl LimitedMemory {
    fn new(limit: u64) -> LimitedMemory {
        LimitedMemory {
            bytes: Vec::new(),
            limit,
        }
    }
}

impl Memory64 for LimitedMemory {
    fn bytes(&self) -> vstd::seq::Seq<u8> {
        unreachable!()
    }

    fn size(&self) -> u64 {
        self.bytes.size()
    }

    fn grow(&mut self, pages: u64) -> i64 {
        if self.size() + pages > self.limit {
            return -1;
        }
        self.bytes.grow(pages)
    }

    fn read(&self, offset: u64, dst: &mut [u8]) {
        self.bytes.read(offset, dst)
    }

    fn write(&mut self, offset: u64, src: &[u8]) {
        self.bytes.write(offset, src)
    }
}

/// A memory of more pages than can be addressed.
struct HugeMemory;

impl Memory64 for HugeMemory {
    fn bytes(&self) -> vstd::seq::Seq<u8> {
        unreachable!()
    }

    fn size(&self) -> u64 {
        u64::MAX / WASM_PAGE_SIZE + 1
    }

    fn grow(&mut self, _pages: u64) -> i64 {
        -1
    }

    fn read(&self, _offset: u64, _dst: &mut [u8]) {}

    fn write(&mut self, _offset: u64, _src: &[u8]) {}
}

fn empty_map() -> StableBTreeMap<Vec<u8>> {
    StableBTreeMap::new(Vec::new(), 0, 0).unwrap()
}

/// The keys of the tree at `address` from left to right, its height, and the number of its nodes.
fn check_tree(
    map: &StableBTreeMap<Vec<u8>>,
    address: u64,
    is_root: bool,
) -> (Vec<Vec<u8>>, u32, u64) {
    let node = Node::load(address, map.memory());
    let num = node.keys().len() as u64;
    assert!(num <= CAPACITY);
    assert!(num >= if is_root { 1 } else { B - 1 });
    match node {
        Node::Leaf(leaf) => (leaf.keys, 0, 1),
        Node::Internal(internal) => {
            assert_eq!(internal.children.len(), internal.keys.len() + 1);
            let mut keys = Vec::new();
            let mut heights = Vec::new();
            let mut nodes = 1;
            for (i, child) in internal.children.iter().enumerate() {
                let (below, height, count) = check_tree(map, *child, false);
                keys.extend(below);
                heights.push(height);
                nodes += count;
                if i < internal.keys.len() {
                    keys.push(internal.keys[i].clone());
                }
            }
            assert!(heights.iter().all(|h| *h == heights[0]));
            (keys, heights[0] + 1, nodes)
        }
    }
}

fn check_map(map: &StableBTreeMap<Vec<u8>>, len: usize) {
    if len == 0 {
        assert_eq!(map.root_offset(), NULL);
        assert_eq!(map.allocator().num_allocations(), 0);
        return;
    }
    let (keys, height, nodes) = check_tree(map, map.root_offset(), true);
    assert_eq!(keys.len(), len);
    assert!(len >= 2 * (B as usize).pow(height) - 1);
    assert!(keys.windows(2).all(|pair| pair[0] < pair[1]));
    assert_eq!(map.allocator().num_allocations(), nodes);
    assert!(1 + (B - 1) * (nodes - 1) <= len as u64);
    assert!(len as u64 <= CAPACITY * nodes);
}

#[test]
fn empty_map_holds_nothing() {
    let mut map = empty_map();
    assert_eq!(map.get(&vec![]), None);
    assert_eq!(map.get(&vec![1]), None);
    assert_eq!(map.remove(&vec![1]), None);
    check_map(&map, 0);
}

#[test]
fn header_of_a_new_map() {
    let map = StableBTreeMap::new(Vec::new(), 7, 260).unwrap();
    let bytes = map.memory();
    assert_eq!(bytes.len(), 65536);
    assert_eq!(
        bytes[0..20].to_vec(),
        vec![66, 84, 82, 1, 0, 0, 0, 0, 0, 0, 0, 0, 7, 0, 0, 0, 4, 1, 0, 0]
    );
    assert_eq!(
        bytes[20..48].to_vec(),
        vec![
            66, 84, 65, 1, 0, 16, 0, 0, 0, 0, 0, 0, 0, 0, 0, 0, 0, 0, 0, 0, 48, 0, 0, 0, 0, 0, 0,
            0
        ]
    );
    assert_eq!(
        bytes[48..61].to_vec(),
        vec![67, 72, 75, 1, 0, 0, 0, 0, 0, 0, 0, 0, 0]
    );
}

#[test]
fn header_after_an_insertion() {
    let mut map = StableBTreeMap::new(Vec::new(), 7, 260).unwrap();
    assert_eq!(map.insert(vec![1], vec![2]), Ok(None));
    assert_eq!(map.root_offset(), 61);
    let bytes = map.memory();
    assert_eq!(bytes[4..12].to_vec(), vec![61, 0, 0, 0, 0, 0, 0, 0]);
    // One chunk is allocated, and the next one starts behind it.
    assert_eq!(bytes[32..40].to_vec(), vec![1, 0, 0, 0, 0, 0, 0, 0]);
    assert_eq!(bytes[40..48].to_vec(), vec![61, 16, 0, 0, 0, 0, 0, 0]);
    assert_eq!(
        bytes[48..61].to_vec(),
        vec![67, 72, 75, 1, 1, 0, 0, 0, 0, 0, 0, 0, 0]
    );
}

#[test]
fn other_keys_keep_their_values() {
    let mut map = empty_map();
    for i in 0..50 {
        assert_eq!(map.insert(vec![i], vec![i, i]), Ok(None));
    }
    assert_eq!(map.insert(vec![20], vec![99]), Ok(Some(vec![20, 20])));
    assert_eq!(map.remove(&vec![30]), Some(vec![30, 30]));
    for i in 0..50 {
        let expected = match i {
            20 => Some(vec![99]),
            30 => None,
            _ => Some(vec![i, i]),
        };
        assert_eq!(map.get(&vec![i]), expected);
    }
    check_map(&map, 49);
}

#[test]
fn remove_after_insert_gives_back_the_map() {
    let mut map = empty_map();
    for i in 0..40 {
        assert_eq!(map.insert(vec![2 * i], vec![i]), Ok(None));
    }
    assert_eq!(map.insert(vec![31], vec![1]), Ok(None));
    assert_eq!(map.remove(&vec![31]), Some(vec![1]));
    for i in 0..80 {
        let expected = if i % 2 == 0 { Some(vec![i / 2]) } else { None };
        assert_eq!(map.get(&vec![i]), expected);
    }
    check_map(&map, 40);
}

#[test]
fn removing_an_absent_key_changes_nothing() {
    let mut map = empty_map();
    for i in 0..40 {
        assert_eq!(map.insert(vec![i, 0], vec![i]), Ok(None));
    }
    for i in 0..40 {
        assert_eq!(map.remove(&vec![i]), None);
        assert_eq!(map.remove(&vec![i, 1]), None);
    }
    for i in 0..40 {
        assert_eq!(map.get(&vec![i, 0]), Some(vec![i]));
    }
    check_map(&map, 40);
}

#[test]
fn a_key_in_an_internal_node_is_overwritten() {
    let mut map = empty_map();
    for i in 1..=12 {
        assert_eq!(map.insert(vec![i], vec![2]), Ok(None));
    }
    // The root holds the key 6.
    let root = Node::load(map.root_offset(), map.memory());
    assert_eq!(*root.keys(), vec![vec![6]]);
    assert_eq!(map.insert(vec![6], vec![3]), Ok(Some(vec![2])));
    assert_eq!(map.get(&vec![6]), Some(vec![3]));
    check_map(&map, 12);
    assert_eq!(map.remove(&vec![6]), Some(vec![3]));
    assert_eq!(map.get(&vec![6]), None);
    check_map(&map, 11);
}

#[test]
fn a_key_that_moves_up_is_overwritten() {
    let mut map = empty_map();
    for i in 1..=11 {
        assert_eq!(map.insert(vec![i], vec![2]), Ok(None));
    }
    // The root is full. It is split, and the key in its middle moves up.
    assert_eq!(map.insert(vec![6], vec![3]), Ok(Some(vec![2])));
    assert_eq!(map.get(&vec![6]), Some(vec![3]));
    check_map(&map, 11);
    assert_eq!(map.allocator().num_allocations(), 3);
}

#[test]
fn keys_are_in_lexicographic_order() {
    let mut map = empty_map();
    let keys = vec![vec![2], vec![], vec![1, 0], vec![1], vec![1, 255], vec![255]];
    for key in keys {
        assert_eq!(map.insert(key, vec![]), Ok(None));
    }
    let root = Node::load(map.root_offset(), map.memory());
    assert_eq!(
        *root.keys(),
        vec![vec![], vec![1], vec![1, 0], vec![1, 255], vec![2], vec![255]]
    );
}

#[test]
fn longest_keys_and_values() {
    let mut map = empty_map();
    for i in 0..30 {
        let key = vec![i; MAX_KEY_SIZE as usize];
        let value = vec![255 - i; MAX_VALUE_SIZE as usize];
        assert_eq!(map.insert(key, value), Ok(None));
    }
    let map = StableBTreeMap::load(map.into_memory()).unwrap();
    for i in 0..30 {
        let value = vec![255 - i; MAX_VALUE_SIZE as usize];
        assert_eq!(map.get(&vec![i; MAX_KEY_SIZE as usize]), Some(value));
    }
    check_map(&map, 30);
}

#[test]
fn the_tree_stays_balanced() {
    let mut map = empty_map();
    let mut state: u64 = 1;
    let mut held: Vec<Option<u8>> = vec![None; 700];
    for step in 0..4000u64 {
        state = state.wrapping_mul(6364136223846793005).wrapping_add(1442695040888963407);
        let i = (state >> 33) as usize % held.len();
        let key = vec![(i / 256) as u8, (i % 256) as u8];
        // Mostly insertions at first, mostly removals later.
        let inserts = (state >> 20) % 4 < if step < 2000 { 3 } else { 1 };
        let before = held[i].map(|v| vec![v]);
        assert_eq!(map.get(&key), before);
        if inserts {
            let value = (step % 251) as u8;
            assert_eq!(map.insert(key, vec![value]), Ok(before));
            held[i] = Some(value);
        } else {
            assert_eq!(map.remove(&key), before);
            held[i] = None;
        }
        if step % 100 == 0 {
            check_map(&map, held.iter().filter(|v| v.is_some()).count());
        }
    }
    check_map(&map, held.iter().filter(|v| v.is_some()).count());
    for i in 0..held.len() {
        map.remove(&vec![(i / 256) as u8, (i % 256) as u8]);
    }
    check_map(&map, 0);
}

#[test]
fn a_freed_chunk_is_used_again() {
    let mut map = empty_map();
    assert_eq!(map.insert(vec![1, 2, 3], vec![4, 5, 6]), Ok(None));
    let first = map.root_offset();
    assert_eq!(map.remove(&vec![1, 2, 3]), Some(vec![4, 5, 6]));
    assert_eq!(map.root_offset(), NULL);
    assert_eq!(map.insert(vec![7], vec![8]), Ok(None));
    assert_eq!(map.root_offset(), first);
}

#[test]
fn removing_never_grows_the_memory() {
    let mut map = empty_map();
    for i in 0..=255 {
        assert_eq!(map.insert(vec![i], vec![i]), Ok(None));
    }
    let len = map.memory().len();
    for i in 0..=255 {
        assert_eq!(map.remove(&vec![i]), Some(vec![i]));
        assert_eq!(map.memory().len(), len);
    }
}

#[test]
fn loading_keeps_everything() {
    let mut map = StableBTreeMap::new(Vec::new(), 3, 4).unwrap();
    for i in 0..=255 {
        assert_eq!(map.insert(vec![i], vec![i]), Ok(None));
    }
    let root = map.root_offset();
    let num = map.allocator().num_allocations();
    let bytes = map.memory().clone();
    let mut map = StableBTreeMap::load(bytes.clone()).unwrap();
    assert_eq!(*map.memory(), bytes);
    assert_eq!(map.root_offset(), root);
    assert_eq!(map.allocator().num_allocations(), num);
    check_map(&map, 256);
    assert_eq!(map.insert(vec![1, 1], vec![]), Ok(None));
    assert_eq!(map.memory()[12..20].to_vec(), vec![3, 0, 0, 0, 4, 0, 0, 0]);
}

#[test]
fn loading_from_an_empty_memory() {
    let result = StableBTreeMap::load(Vec::<u8>::new());
    assert!(matches!(result, Err(LoadError::MemoryEmpty)));
    // A memory with less than a page has no page.
    let result = StableBTreeMap::load(vec![66u8; 1000]);
    assert!(matches!(result, Err(LoadError::MemoryEmpty)));
}

#[test]
fn loading_something_else() {
    let mut bytes = empty_map().into_memory();
    bytes[2] = 88;
    let result = StableBTreeMap::load(bytes);
    assert!(matches!(result, Err(LoadError::BadMagic([66, 84, 88]))));
}

#[test]
fn loading_another_version() {
    let mut bytes = empty_map().into_memory();
    bytes[3] = 2;
    let result = StableBTreeMap::load(bytes);
    assert!(matches!(result, Err(LoadError::UnsupportedVersion(2))));
}

#[test]
fn a_memory_that_refuses_to_grow() {
    let result = StableBTreeMap::new(LimitedMemory::new(0), 0, 0);
    assert!(matches!(
        result,
        Err(WriteError::GrowFailed {
            current: 0,
            delta: 1
        })
    ));
}

#[test]
fn a_failed_insertion_changes_nothing() {
    let mut map = StableBTreeMap::new(LimitedMemory::new(1), 0, 0).unwrap();
    // A page has room for the headers and 15 chunks.
    let mut inserted: Vec<Vec<u8>> = Vec::new();
    let mut failed = None;
    for i in 0..=255u8 {
        match map.insert(vec![i], vec![i]) {
            Ok(previous) => {
                assert_eq!(previous, None);
                inserted.push(vec![i]);
            }
            Err(error) => {
                failed = Some((vec![i], error));
                break;
            }
        }
    }
    let (key, error) = failed.unwrap();
    assert_eq!(
        error,
        WriteError::GrowFailed {
            current: 1,
            delta: 1
        }
    );
    assert_eq!(map.get(&key), None);
    for key in inserted.iter() {
        assert_eq!(map.get(key), Some(key.clone()));
    }
    // It can be loaded, and used again once there is room.
    let mut memory = map.into_memory();
    memory.limit = 2;
    let mut map = StableBTreeMap::load(memory).unwrap();
    for key in inserted.iter() {
        assert_eq!(map.get(key), Some(key.clone()));
    }
    assert_eq!(map.insert(key.clone(), vec![7]), Ok(None));
    assert_eq!(map.get(&key), Some(vec![7]));
    assert_eq!(map.memory().size(), 2);
}

#[test]
fn chunks_are_taken_as_nodes_are_split() {
    let mut map = empty_map();
    let mut counts = Vec::new();
    for i in 1..=30 {
        assert_eq!(map.insert(vec![i], vec![]), Ok(None));
        counts.push(map.allocator().num_allocations());
    }
    // The root is split by the 12th key, and a child by each sixth key after that.
    let mut expected = vec![1; 11];
    expected.extend(vec![3; 6]);
    expected.extend(vec![4; 6]);
    expected.extend(vec![5; 6]);
    expected.push(6);
    assert_eq!(counts, expected);
    // Overwriting takes no chunk unless a full node is passed.
    assert_eq!(map.insert(vec![3], vec![1]), Ok(Some(vec![])));
    assert_eq!(map.allocator().num_allocations(), 6);
}

#[test]
fn an_insertion_takes_few_chunks() {
    let mut map = empty_map();
    for j in 0..4 {
        for i in 0..=255 {
            let num = map.allocator().num_allocations();
            let height = if num == 0 {
                0
            } else {
                check_tree(&map, map.root_offset(), true).1
            };
            assert_eq!(map.insert(vec![i, j], vec![]), Ok(None));
            assert!(map.allocator().num_allocations() <= num + height as u64 + 2);
        }
    }
    check_map(&map, 1024);
}

#[test]
fn the_room_in_one_page() {
    let mut map = StableBTreeMap::new(LimitedMemory::new(1), 0, 0).unwrap();
    let mut i: u8 = 0;
    while map.insert(vec![i], vec![i]).is_ok() {
        i += 1;
    }
    // There is room for 15 chunks behind the headers.
    assert_eq!(map.allocator().num_allocations(), 15);
    // Overwriting needs no room, unless the key is in the last leaf, which is full.
    for key in 0..i {
        if key < i - 11 {
            assert_eq!(map.insert(vec![key], vec![]), Ok(Some(vec![key])));
        } else {
            assert_eq!(
                map.insert(vec![key], vec![]),
                Err(WriteError::GrowFailed {
                    current: 1,
                    delta: 1
                })
            );
            assert_eq!(map.get(&vec![key]), Some(vec![key]));
        }
    }
}

#[test]
fn a_failed_split_of_the_root_changes_nothing() {
    let mut map = StableBTreeMap::new(LimitedMemory::new(1), 0, 0).unwrap();
    let mut i: u8 = 0;
    while map.insert(vec![i], vec![]).is_ok() {
        i += 1;
    }
    let num = map.allocator().num_allocations();
    assert!(num <= 15);
    assert!(map.insert(vec![i], vec![]).is_err());
    assert_eq!(map.allocator().num_allocations(), num);
    for key in 0..i {
        assert_eq!(map.remove(&vec![key]), Some(vec![]));
    }
    assert_eq!(map.allocator().num_allocations(), 0);
    assert_eq!(map.root_offset(), NULL);
}

#[test]
fn an_address_space_that_is_too_small() {
    let result = StableBTreeMap::new(HugeMemory, 0, 0);
    assert!(matches!(result, Err(WriteError::AddressSpaceOverflow)));
}

#[test]
fn a_range_can_be_named() {
    let Range = Range;
}

/// The keys of the node at `address`, as single bytes.
fn keys_at(map: &StableBTreeMap<Vec<u8>>, address: u64) -> Vec<u8> {
    Node::load(address, map.memory())
        .keys()
        .iter()
        .map(|key| key[0])
        .collect()
}

/// The addresses of the children of the root.
fn children_of_root(map: &StableBTreeMap<Vec<u8>>) -> Vec<u64> {
    match Node::load(map.root_offset(), map.memory()) {
        Node::Internal(internal) => internal.children,
        _ => Vec::new(),
    }
}

#[test]
fn merging_below_a_root_that_stays() {
    let mut map = empty_map();
    for i in 1..=18 {
        assert_eq!(map.insert(vec![i], vec![i]), Ok(None));
    }
    assert_eq!(map.remove(&vec![18]), Some(vec![18]));
    assert_eq!(keys_at(&map, map.root_offset()), vec![6, 12]);
    let before = children_of_root(&map);
    assert_eq!(map.remove(&vec![3]), Some(vec![3]));
    assert_eq!(keys_at(&map, map.root_offset()), vec![12]);
    let after = children_of_root(&map);
    // The first child is merged into the second.
    assert_eq!(after, vec![before[1], before[2]]);
    assert_eq!(keys_at(&map, after[0]), vec![1, 2, 4, 5, 6, 7, 8, 9, 10, 11]);
    assert_eq!(keys_at(&map, after[1]), vec![13, 14, 15, 16, 17]);
    assert_eq!(map.allocator().num_allocations(), 3);
    for j in 1..=17 {
        let expected = if j == 3 { None } else { Some(vec![j]) };
        assert_eq!(map.get(&vec![j]), expected);
    }
}

#[test]
fn the_predecessor_is_preferred() {
    let mut map = empty_map();
    for i in 1..=12 {
        assert_eq!(map.insert(vec![i], vec![2]), Ok(None));
    }
    assert_eq!(map.insert(vec![0], vec![3]), Ok(None));
    // Both children can spare an entry.
    let before = children_of_root(&map);
    assert_eq!(map.remove(&vec![6]), Some(vec![2]));
    assert_eq!(keys_at(&map, map.root_offset()), vec![5]);
    assert_eq!(children_of_root(&map), before);
    assert_eq!(keys_at(&map, before[0]), vec![0, 1, 2, 3, 4]);
    assert_eq!(keys_at(&map, before[1]), vec![7, 8, 9, 10, 11, 12]);
}

#[test]
fn the_left_neighbour_is_preferred() {
    let mut map = empty_map();
    for i in 1..=24 {
        assert_eq!(map.insert(vec![10 * i], vec![]), Ok(None));
    }
    assert_eq!(keys_at(&map, map.root_offset()), vec![60, 120, 180]);
    assert_eq!(map.insert(vec![11], vec![]), Ok(None));
    assert_eq!(map.insert(vec![131], vec![]), Ok(None));
    // Both neighbours of the second child can spare an entry.
    assert_eq!(map.remove(&vec![80]), Some(vec![]));
    assert_eq!(keys_at(&map, map.root_offset()), vec![50, 120, 180]);
    let children = children_of_root(&map);
    assert_eq!(keys_at(&map, children[0]), vec![10, 11, 20, 30, 40]);
    assert_eq!(keys_at(&map, children[1]), vec![60, 70, 90, 100, 110]);
    assert_eq!(keys_at(&map, children[2]), vec![130, 131, 140, 150, 160, 170]);
}

#[test]
fn merging_undoes_a_split() {
    // An absent key is looked for in the first child, or in the second: the result is the same.
    for absent in [0, 255] {
        let mut map = empty_map();
        for i in 1..=11 {
            assert_eq!(map.insert(vec![i], vec![i]), Ok(None));
        }
        // Overwriting splits the full root.
        assert_eq!(map.insert(vec![6], vec![6]), Ok(Some(vec![6])));
        assert_eq!(map.allocator().num_allocations(), 3);
        assert_eq!(keys_at(&map, map.root_offset()), vec![6]);
        // Removing merges the two halves.
        assert_eq!(map.remove(&vec![absent]), None);
        assert_eq!(map.allocator().num_allocations(), 1);
        assert_eq!(
            keys_at(&map, map.root_offset()),
            vec![1, 2, 3, 4, 5, 6, 7, 8, 9, 10, 11]
        );
    }
}

#[test]
fn the_memory_grows_as_chunks_need_it() {
    let mut map = empty_map();
    for j in 0..3 {
        for i in 0..=255 {
            assert_eq!(map.insert(vec![i, j], vec![]), Ok(None));
            // The headers, the chunks, and the header of one more chunk.
            let end = 48 + map.allocator().num_allocations() * (13 + 4096) + 13;
            assert_eq!(map.memory().size(), (end + WASM_PAGE_SIZE - 1) / WASM_PAGE_SIZE);
        }
    }
}

#[test]
fn insertions_can_be_exchanged() {
    let mut map1 = empty_map();
    let mut map2 = empty_map();
    for i in 0..100 {
        assert_eq!(map1.insert(vec![i], vec![i]), Ok(None));
        assert_eq!(map2.insert(vec![99 - i], vec![99 - i]), Ok(None));
    }
    for i in 0..=255 {
        assert_eq!(map1.get(&vec![i]), map2.get(&vec![i]));
    }
    check_map(&map1, 100);
    check_map(&map2, 100);
}

#[test]
fn only_the_last_entry_takes_the_root_along() {
    let mut map = empty_map();
    assert_eq!(map.insert(vec![5], vec![1]), Ok(None));
    assert_eq!(map.insert(vec![6], vec![2]), Ok(None));
    assert_eq!(map.remove(&vec![6]), Some(vec![2]));
    let root = map.root_offset();
    assert_eq!(keys_at(&map, root), vec![5]);
    assert_eq!(map.remove(&vec![6]), None);
    assert_eq!(map.root_offset(), root);
    assert_eq!(keys_at(&map, root), vec![5]);
    assert_eq!(map.remove(&vec![5]), Some(vec![1]));
    assert_eq!(map.root_offset(), NULL);
    check_map(&map, 0);
}
