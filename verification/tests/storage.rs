use stable_btree::allocator::Allocator;
use stable_btree::codec::{get_u32, get_u64, u32_bytes, u64_bytes};
use stable_btree::error::{LoadError, WriteError};
use stable_btree::memory::{
    grow_outcome, growth_needed, read_u32, read_u64, Memory64, WASM_PAGE_SIZE,
};
use stable_btree::node::{InternalNode, Node, MAX_KEY_SIZE, MAX_VALUE_SIZE, NODE_SIZE};
use stable_btree::order::{place, search, Place};

#[test]
fn integers_are_little_endian() {
    assert_eq!(u32_bytes(0x01020304), [4, 3, 2, 1]);
    assert_eq!(u64_bytes(0x0102030405060708), [8, 7, 6, 5, 4, 3, 2, 1]);
    assert_eq!(get_u32(&[9, 4, 3, 2, 1], 1), 0x01020304);
    assert_eq!(get_u64(&[9, 8, 7, 6, 5, 4, 3, 2, 1], 1), 0x0102030405060708);
    for value in [0u64, 1, 255, 256, 65535, u64::MAX - 1, u64::MAX] {
        assert_eq!(get_u64(&u64_bytes(value), 0), value);
    }
    for value in [0u32, 1, 255, 256, 65535, u32::MAX - 1, u32::MAX] {
        assert_eq!(get_u32(&u32_bytes(value), 0), value);
    }
}

#[test]
fn integers_in_memory() {
    let mut memory: Vec<u8> = Vec::new();
    stable_btree::memory::write(&mut memory, 100, &u64_bytes(0x0102030405060708)).unwrap();
    assert_eq!(read_u64(&memory, 100), 0x0102030405060708);
    assert_eq!(read_u32(&memory, 100), 0x05060708);
    assert_eq!(read_u32(&memory, 104), 0x01020304);
}

#[test]
fn writing_grows_the_memory_by_whole_pages() {
    let mut memory: Vec<u8> = Vec::new();
    assert_eq!(stable_btree::memory::write(&mut memory, 0, &[]), Ok(()));
    assert_eq!(memory.size(), 0);
    assert_eq!(stable_btree::memory::write(&mut memory, 0, &[1, 2, 3]), Ok(()));
    assert_eq!(memory.len(), 65536);
    assert_eq!(stable_btree::memory::write(&mut memory, 65534, &[4, 5]), Ok(()));
    assert_eq!(memory.len(), 65536);
    assert_eq!(stable_btree::memory::write(&mut memory, 65534, &[6, 7, 8]), Ok(()));
    assert_eq!(memory.len(), 2 * 65536);
    assert_eq!(memory[0..4].to_vec(), vec![1, 2, 3, 0]);
    assert_eq!(memory[65533..65538].to_vec(), vec![0, 6, 7, 8, 0]);
    let mut buf = [0; 3];
    memory.read(65534, &mut buf);
    assert_eq!(buf, [6, 7, 8]);
}

#[test]
fn missing_pages_are_counted() {
    assert_eq!(growth_needed(0, 0, 0), Ok(0));
    assert_eq!(growth_needed(0, 0, 1), Ok(1));
    assert_eq!(growth_needed(1, 0, 65536), Ok(0));
    assert_eq!(growth_needed(1, 0, 65537), Ok(1));
    assert_eq!(growth_needed(1, 5 * WASM_PAGE_SIZE, 1), Ok(5));
    assert_eq!(
        growth_needed(0, u64::MAX, 1),
        Err(WriteError::AddressSpaceOverflow)
    );
    assert_eq!(
        growth_needed(u64::MAX / WASM_PAGE_SIZE + 1, 0, 1),
        Err(WriteError::AddressSpaceOverflow)
    );
    assert_eq!(
        growth_needed(0, u64::MAX - 1, 1),
        Err(WriteError::AddressSpaceOverflow)
    );
}

#[test]
fn a_refusal_to_grow_is_an_error() {
    assert_eq!(grow_outcome(3, 3, 2), Ok(()));
    assert_eq!(
        grow_outcome(-1, 3, 2),
        Err(WriteError::GrowFailed {
            current: 3,
            delta: 2
        })
    );
}

#[test]
fn a_vector_does_not_grow_beyond_its_limit() {
    let mut memory: Vec<u8> = vec![1; 10];
    assert_eq!(memory.grow(u64::MAX), -1);
    assert_eq!(memory.len(), 10);
    assert_eq!(memory.grow(1), 0);
    assert_eq!(memory.len(), 10 + 65536);
    assert_eq!(memory.size(), 1);
    assert_eq!(memory.grow(0), 1);
    assert_eq!(
        stable_btree::memory::write(&mut memory, 1 << 63, &[1]),
        Err(WriteError::GrowFailed {
            current: 1,
            delta: 140737488355328
        })
    );
    assert_eq!(memory.len(), 10 + 65536);
    assert_eq!(memory[0..11].to_vec(), vec![1, 1, 1, 1, 1, 1, 1, 1, 1, 1, 0]);
}

#[test]
fn byte_strings_are_ordered() {
    assert!(matches!(place(&vec![], &vec![0]), Place::Before));
    assert!(matches!(place(&vec![0], &vec![]), Place::After));
    assert!(matches!(place(&vec![1, 2], &vec![1, 2]), Place::Same));
    assert!(matches!(place(&vec![1, 2], &vec![1, 2, 0]), Place::Before));
    assert!(matches!(place(&vec![1, 255], &vec![2]), Place::Before));
    assert!(matches!(place(&vec![200], &vec![100, 1]), Place::After));
    let strings: Vec<Vec<u8>> = vec![vec![], vec![0], vec![0, 0], vec![0, 1], vec![1], vec![255]];
    for a in strings.iter() {
        for b in strings.iter() {
            let expected = a < b;
            assert_eq!(matches!(place(a, b), Place::Before), expected);
            assert_eq!(matches!(place(b, a), Place::After), expected);
        }
    }
}

#[test]
fn searching_for_a_key() {
    let keys: Vec<Vec<u8>> = vec![vec![2], vec![4], vec![4, 0], vec![9]];
    assert_eq!(search(&keys, &vec![2]), Ok(0));
    assert_eq!(search(&keys, &vec![4, 0]), Ok(2));
    assert_eq!(search(&keys, &vec![9]), Ok(3));
    assert_eq!(search(&keys, &vec![]), Err(0));
    assert_eq!(search(&keys, &vec![3]), Err(1));
    assert_eq!(search(&keys, &vec![5]), Err(3));
    assert_eq!(search(&keys, &vec![10]), Err(4));
    assert_eq!(search(&Vec::new(), &vec![1]), Err(0));
}

#[test]
fn an_internal_node_is_loaded_as_it_was_saved() {
    let mut memory: Vec<u8> = Vec::new();
    let mut keys = Vec::new();
    let mut values = Vec::new();
    let mut children = vec![7];
    for i in 0..11u8 {
        keys.push(vec![i; i as usize]);
        values.push(vec![255; MAX_VALUE_SIZE as usize - i as usize]);
        children.push(1000 + i as u64);
    }
    keys[10] = vec![3; MAX_KEY_SIZE as usize];
    let node = Node::Internal(InternalNode {
        address: 70000,
        keys,
        values,
        children,
    });
    assert_eq!(node.save(&mut memory), Ok(()));
    assert_eq!(memory.size(), 2);
    assert_eq!(Node::load(70000, &memory), node);
}

#[test]
fn the_bytes_of_a_node() {
    let mut memory: Vec<u8> = Vec::new();
    let node = Node::Internal(InternalNode {
        address: 0,
        keys: vec![vec![1, 2]],
        values: vec![vec![3]],
        children: vec![258, 5],
    });
    assert_eq!(node.save(&mut memory), Ok(()));
    assert_eq!(memory[0..9].to_vec(), vec![66, 84, 78, 1, 1, 1, 0, 0, 0]);
    assert_eq!(memory[9..16].to_vec(), vec![2, 0, 0, 0, 1, 2, 0]);
    assert_eq!(memory[77..83].to_vec(), vec![1, 0, 0, 0, 3, 0]);
    assert_eq!(memory[1505..1515].to_vec(), vec![2, 1, 0, 0, 0, 0, 0, 0, 5, 0]);
    assert_eq!(NODE_SIZE, 1601);
}

#[test]
fn an_allocator_is_loaded_as_it_was_saved() {
    let mut memory: Vec<u8> = Vec::new();
    let allocator = Allocator::new(&mut memory, 100, 16).unwrap();
    assert_eq!(allocator.num_allocations(), 0);
    assert_eq!(
        memory[16..44].to_vec(),
        vec![66, 84, 65, 1, 100, 0, 0, 0, 0, 0, 0, 0, 0, 0, 0, 0, 0, 0, 0, 0, 44, 0, 0, 0, 0, 0, 0, 0]
    );
    let before = memory.clone();
    let loaded = Allocator::load(&memory, 16).unwrap();
    assert_eq!(loaded.num_allocations(), 0);
    loaded.save(&mut memory).unwrap();
    assert_eq!(memory, before);
}

#[test]
fn loading_no_allocator() {
    let mut memory: Vec<u8> = Vec::new();
    Allocator::new(&mut memory, 100, 16).unwrap();
    memory[19] = 9;
    assert!(matches!(
        Allocator::load(&memory, 16),
        Err(LoadError::UnsupportedVersion(9))
    ));
    memory[16] = 1;
    assert!(matches!(
        Allocator::load(&memory, 16),
        Err(LoadError::BadMagic([1, 84, 65]))
    ));
}

#[test]
fn writing_the_same_bytes_again_changes_nothing() {
    let mut memory: Vec<u8> = vec![9; 100];
    assert_eq!(stable_btree::memory::write(&mut memory, 98, &[1, 2, 3]), Ok(()));
    let before = memory.clone();
    assert_eq!(before[97..102].to_vec(), vec![9, 1, 2, 3, 0]);
    assert_eq!(stable_btree::memory::write(&mut memory, 98, &[1, 2, 3]), Ok(()));
    assert_eq!(memory, before);
}
