use stable_btree::btree::StableBTreeMap;
use stable_btree::node::{Node, CAPACITY};

fn make_memory() -> Vec<u8> {
    Vec::new()
}

#[test]
fn node_save_load_is_noop() {
    let mut mem = make_memory();
    let mut node = Node::new_leaf(0);

    if let Node::Leaf(ref mut leaf) = node {
        leaf.keys.push(vec![1, 2, 3]);
        leaf.values.push(vec![4, 5, 6]);
    }

    node.save(&mut mem).unwrap();

    let node_2 = Node::load(0, &mem);

    assert_eq!(node, node_2);
}

#[test]
fn insert_get() {
    let mut btree = StableBTreeMap::new(make_memory(), 0, 0).unwrap();

    assert_eq!(btree.insert(vec![1, 2, 3], vec![4, 5, 6]), Ok(None));
    assert_eq!(btree.get(&vec![1, 2, 3]), Some(vec![4, 5, 6]));
}

#[test]
fn insert_overwrites_previous_value() {
    let mut btree = StableBTreeMap::new(make_memory(), 0, 0).unwrap();

    assert_eq!(btree.insert(vec![1, 2, 3], vec![4, 5, 6]), Ok(None));
    assert_eq!(
        btree.insert(vec![1, 2, 3], vec![7, 8, 9]),
        Ok(Some(vec![4, 5, 6]))
    );
    assert_eq!(btree.get(&vec![1, 2, 3]), Some(vec![7, 8, 9]));
}

#[test]
fn insert_get_multiple() {
    let mut btree = StableBTreeMap::new(make_memory(), 0, 0).unwrap();

    assert_eq!(btree.insert(vec![1, 2, 3], vec![4, 5, 6]), Ok(None));
    assert_eq!(btree.insert(vec![4, 5], vec![7, 8, 9, 10]), Ok(None));
    assert_eq!(btree.insert(vec![], vec![11]), Ok(None));
    assert_eq!(btree.get(&vec![1, 2, 3]), Some(vec![4, 5, 6]));
    assert_eq!(btree.get(&vec![4, 5]), Some(vec![7, 8, 9, 10]));
    assert_eq!(btree.get(&vec![]), Some(vec![11]));
}

#[test]
fn allocations() {
    let mut btree = StableBTreeMap::new(make_memory(), 0, 0).unwrap();

    for i in 0..CAPACITY as u8 {
        assert_eq!(btree.insert(vec![i], vec![]), Ok(None));
    }

    // Only need a single allocation to store up to `CAPACITY` elements.
    assert_eq!(btree.allocator().num_allocations(), 1);

    assert_eq!(btree.insert(vec![255], vec![]), Ok(None));

    // The node had to be split into three nodes.
    assert_eq!(btree.allocator().num_allocations(), 3);
}

#[test]
fn allocations_2() {
    let mut btree = StableBTreeMap::new(make_memory(), 0, 0).unwrap();
    assert_eq!(btree.allocator().num_allocations(), 0);

    assert_eq!(btree.insert(vec![], vec![]), Ok(None));
    assert_eq!(btree.allocator().num_allocations(), 1);

    assert_eq!(btree.remove(&vec![]), Some(vec![]));
    assert_eq!(btree.allocator().num_allocations(), 0);
}

#[test]
fn insert_same_key_multiple() {
    let mut btree = StableBTreeMap::new(make_memory(), 0, 0).unwrap();

    assert_eq!(btree.insert(vec![1], vec![2]), Ok(None));

    for i in 2..100 {
        assert_eq!(btree.insert(vec![1], vec![i + 1]), Ok(Some(vec![i])));
    }
}

#[test]
fn insert_split_node() {
    let mut btree = StableBTreeMap::new(make_memory(), 0, 0).unwrap();

    assert_eq!(btree.insert(vec![1], vec![2]), Ok(None));
    assert_eq!(btree.insert(vec![2], vec![2]), Ok(None));
    assert_eq!(btree.insert(vec![3], vec![2]), Ok(None));
    assert_eq!(btree.insert(vec![4], vec![2]), Ok(None));
    assert_eq!(btree.insert(vec![5], vec![2]), Ok(None));
    assert_eq!(btree.insert(vec![6], vec![2]), Ok(None));
    assert_eq!(btree.insert(vec![7], vec![2]), Ok(None));
    assert_eq!(btree.insert(vec![8], vec![2]), Ok(None));
    assert_eq!(btree.insert(vec![9], vec![2]), Ok(None));
    assert_eq!(btree.insert(vec![10], vec![2]), Ok(None));
    assert_eq!(btree.insert(vec![11], vec![2]), Ok(None));
    // Should now split a node.
    assert_eq!(btree.insert(vec![12], vec![2]), Ok(None));

    // The result should look like this:
    //                [6]
    //               /   \
    // [1, 2, 3, 4, 5]   [7, 8, 9, 10, 11, 12]

    for i in 1..=12 {
        assert_eq!(btree.get(&vec![i]), Some(vec![2]));
    }
}

#[test]
fn insert_split_multiple_nodes() {
    let mut btree = StableBTreeMap::new(make_memory(), 0, 0).unwrap();

    assert_eq!(btree.insert(vec![1], vec![2]), Ok(None));
    assert_eq!(btree.insert(vec![2], vec![2]), Ok(None));
    assert_eq!(btree.insert(vec![3], vec![2]), Ok(None));
    assert_eq!(btree.insert(vec![4], vec![2]), Ok(None));
    assert_eq!(btree.insert(vec![5], vec![2]), Ok(None));
    assert_eq!(btree.insert(vec![6], vec![2]), Ok(None));
    assert_eq!(btree.insert(vec![7], vec![2]), Ok(None));
    assert_eq!(btree.insert(vec![8], vec![2]), Ok(None));
    assert_eq!(btree.insert(vec![9], vec![2]), Ok(None));
    assert_eq!(btree.insert(vec![10], vec![2]), Ok(None));
    assert_eq!(btree.insert(vec![11], vec![2]), Ok(None));
    // Should now split a node.
    assert_eq!(btree.insert(vec![12], vec![2]), Ok(None));

    // The result should look like this:
    //                [6]
    //               /   \
    // [1, 2, 3, 4, 5]   [7, 8, 9, 10, 11, 12]

    let root = Node::load(btree.root_offset(), btree.memory());
    match root {
        Node::Internal(internal) => {
            assert_eq!(internal.keys, vec![vec![6]]);
            assert_eq!(internal.values, vec![vec![2]]);
            assert_eq!(internal.children.len(), 2);

            let child_0 = Node::load(internal.children[0], btree.memory());
            match child_0 {
                Node::Leaf(leaf) => {
                    assert_eq!(leaf.keys, vec![vec![1], vec![2], vec![3], vec![4], vec![5]]);
                    assert_eq!(
                        leaf.values,
                        vec![vec![2], vec![2], vec![2], vec![2], vec![2]]
                    );
                }
                _ => panic!("child should be leaf"),
            }

            let child_1 = Node::load(internal.children[1], btree.memory());
            match child_1 {
                Node::Leaf(leaf) => {
                    assert_eq!(
                        leaf.keys,
                        vec![vec![7], vec![8], vec![9], vec![10], vec![11], vec![12]]
                    );
                    assert_eq!(
                        leaf.values,
                        vec![vec![2], vec![2], vec![2], vec![2], vec![2], vec![2]]
                    );
                }
                _ => panic!("child should be leaf"),
            }
        }
        _ => panic!("root should be internal"),
    }

    for i in 1..=12 {
        assert_eq!(btree.get(&vec![i]), Some(vec![2]));
    }

    // Insert more to cause more splitting.
    assert_eq!(btree.insert(vec![13], vec![2]), Ok(None));
    assert_eq!(btree.insert(vec![14], vec![2]), Ok(None));
    assert_eq!(btree.insert(vec![15], vec![2]), Ok(None));
    assert_eq!(btree.insert(vec![16], vec![2]), Ok(None));
    assert_eq!(btree.insert(vec![17], vec![2]), Ok(None));
    // Should cause another split
    assert_eq!(btree.insert(vec![18], vec![2]), Ok(None));

    for i in 1..=18 {
        assert_eq!(btree.get(&vec![i]), Some(vec![2]));
    }

    let root = Node::load(btree.root_offset(), btree.memory());
    match root {
        Node::Internal(internal) => {
            assert_eq!(internal.keys, vec![vec![6], vec![12]]);
            assert_eq!(internal.values, vec![vec![2], vec![2]]);
            assert_eq!(internal.children.len(), 3);

            let child_0 = Node::load(internal.children[0], btree.memory());
            match child_0 {
                Node::Leaf(leaf) => {
                    assert_eq!(leaf.keys, vec![vec![1], vec![2], vec![3], vec![4], vec![5]]);
                    assert_eq!(
                        leaf.values,
                        vec![vec![2], vec![2], vec![2], vec![2], vec![2]]
                    );
                }
                _ => panic!("child should be leaf"),
            }

            let child_1 = Node::load(internal.children[1], btree.memory());
            match child_1 {
                Node::Leaf(leaf) => {
                    assert_eq!(
                        leaf.keys,
                        vec![vec![7], vec![8], vec![9], vec![10], vec![11]]
                    );
                    assert_eq!(
                        leaf.values,
                        vec![vec![2], vec![2], vec![2], vec![2], vec![2]]
                    );
                }
                _ => panic!("child should be leaf"),
            }

            let child_2 = Node::load(internal.children[2], btree.memory());
            match child_2 {
                Node::Leaf(leaf) => {
                    assert_eq!(
                        leaf.keys,
                        vec![vec![13], vec![14], vec![15], vec![16], vec![17], vec![18]]
                    );
                    assert_eq!(
                        leaf.values,
                        vec![vec![2], vec![2], vec![2], vec![2], vec![2], vec![2]]
                    );
                }
                _ => panic!("child should be leaf"),
            }
        }
        _ => panic!("root should be internal"),
    }
}

#[test]
fn remove_simple() {
    let mut btree = StableBTreeMap::new(make_memory(), 0, 0).unwrap();

    assert_eq!(btree.insert(vec![1, 2, 3], vec![4, 5, 6]), Ok(None));
    assert_eq!(btree.get(&vec![1, 2, 3]), Some(vec![4, 5, 6]));
    assert_eq!(btree.remove(&vec![1, 2, 3]), Some(vec![4, 5, 6]));
    assert_eq!(btree.get(&vec![1, 2, 3]), None);
}

#[test]
fn remove_split_node() {
    let mut btree = StableBTreeMap::new(make_memory(), 0, 0).unwrap();

    assert_eq!(btree.insert(vec![1], vec![2]), Ok(None));
    assert_eq!(btree.insert(vec![2], vec![2]), Ok(None));
    assert_eq!(btree.insert(vec![3], vec![2]), Ok(None));
    assert_eq!(btree.insert(vec![4], vec![2]), Ok(None));
    assert_eq!(btree.insert(vec![5], vec![2]), Ok(None));
    assert_eq!(btree.insert(vec![6], vec![2]), Ok(None));
    assert_eq!(btree.insert(vec![7], vec![2]), Ok(None));
    assert_eq!(btree.insert(vec![8], vec![2]), Ok(None));
    assert_eq!(btree.insert(vec![9], vec![2]), Ok(None));
    assert_eq!(btree.insert(vec![10], vec![2]), Ok(None));
    assert_eq!(btree.insert(vec![11], vec![2]), Ok(None));
    // Should now split a node.
    assert_eq!(btree.insert(vec![12], vec![2]), Ok(None));

    // The result should look like this:
    //                [6]
    //               /   \
    // [1, 2, 3, 4, 5]   [7, 8, 9, 10, 11, 12]

    for i in 1..=12 {
        assert_eq!(btree.get(&vec![i]), Some(vec![2]));
    }

    // Remove key 6. Its successor takes its place.
    assert_eq!(btree.remove(&vec![6]), Some(vec![2]));

    // The result should look like this:
    //                [7]
    //               /   \
    // [1, 2, 3, 4, 5]   [8, 9, 10, 11, 12]
    let root = Node::load(btree.root_offset(), btree.memory());
    match root {
        Node::Internal(internal) => {
            assert_eq!(internal.keys, vec![vec![7]]);
            assert_eq!(internal.values, vec![vec![2]]);
            assert_eq!(internal.children.len(), 2);

            let child_0 = Node::load(internal.children[0], btree.memory());
            match child_0 {
                Node::Leaf(leaf) => {
                    assert_eq!(leaf.keys, vec![vec![1], vec![2], vec![3], vec![4], vec![5]]);
                    assert_eq!(
                        leaf.values,
                        vec![vec![2], vec![2], vec![2], vec![2], vec![2]]
                    );
                }
                _ => panic!("child should be leaf"),
            }

            let child_1 = Node::load(internal.children[1], btree.memory());
            match child_1 {
                Node::Leaf(leaf) => {
                    assert_eq!(
                        leaf.keys,
                        vec![vec![8], vec![9], vec![10], vec![11], vec![12]]
                    );
                    assert_eq!(
                        leaf.values,
                        vec![vec![2], vec![2], vec![2], vec![2], vec![2]]
                    );
                }
                _ => panic!("child should be leaf"),
            }
        }
        _ => panic!("root should be internal"),
    }

    // Remove key 7. The two children are merged.
    assert_eq!(btree.remove(&vec![7]), Some(vec![2]));
    // The result should look like this:
    //
    // [1, 2, 3, 4, 5, 8, 9, 10, 11, 12]
    let root = Node::load(btree.root_offset(), btree.memory());
    match root {
        Node::Leaf(leaf) => {
            assert_eq!(
                leaf.keys,
                vec![
                    vec![1],
                    vec![2],
                    vec![3],
                    vec![4],
                    vec![5],
                    vec![8],
                    vec![9],
                    vec![10],
                    vec![11],
                    vec![12]
                ]
            );
            assert_eq!(leaf.values, vec![vec![2]; 10]);
        }
        _ => panic!("root should be leaf"),
    }
}

#[test]
fn remove_split_node_2() {
    let mut btree = StableBTreeMap::new(make_memory(), 0, 0).unwrap();

    assert_eq!(btree.insert(vec![1], vec![2]), Ok(None));
    assert_eq!(btree.insert(vec![2], vec![2]), Ok(None));
    assert_eq!(btree.insert(vec![3], vec![2]), Ok(None));
    assert_eq!(btree.insert(vec![4], vec![2]), Ok(None));
    assert_eq!(btree.insert(vec![5], vec![2]), Ok(None));
    assert_eq!(btree.insert(vec![6], vec![2]), Ok(None));
    assert_eq!(btree.insert(vec![7], vec![2]), Ok(None));
    assert_eq!(btree.insert(vec![8], vec![2]), Ok(None));
    assert_eq!(btree.insert(vec![9], vec![2]), Ok(None));
    assert_eq!(btree.insert(vec![10], vec![2]), Ok(None));
    assert_eq!(btree.insert(vec![11], vec![2]), Ok(None));
    // Should now split a node.
    assert_eq!(btree.insert(vec![0], vec![2]), Ok(None));

    // The result should look like this:
    //                    [6]
    //                   /   \
    // [0, 1, 2, 3, 4, 5]     [7, 8, 9, 10, 11]

    for i in 0..=11 {
        assert_eq!(btree.get(&vec![i]), Some(vec![2]));
    }

    // Remove key 6. Its predecessor takes its place.
    assert_eq!(btree.remove(&vec![6]), Some(vec![2]));

    // The result should look like this:
    //                [5]
    //               /   \
    // [0, 1, 2, 3, 4]   [7, 8, 9, 10, 11]
    let root = Node::load(btree.root_offset(), btree.memory());
    match root {
        Node::Internal(internal) => {
            assert_eq!(internal.keys, vec![vec![5]]);
            assert_eq!(internal.values, vec![vec![2]]);
            assert_eq!(internal.children.len(), 2);

            let child_0 = Node::load(internal.children[0], btree.memory());
            match child_0 {
                Node::Leaf(leaf) => {
                    assert_eq!(leaf.keys, vec![vec![0], vec![1], vec![2], vec![3], vec![4]]);
                    assert_eq!(
                        leaf.values,
                        vec![vec![2], vec![2], vec![2], vec![2], vec![2]]
                    );
                }
                _ => panic!("child should be leaf"),
            }

            let child_1 = Node::load(internal.children[1], btree.memory());
            match child_1 {
                Node::Leaf(leaf) => {
                    assert_eq!(
                        leaf.keys,
                        vec![vec![7], vec![8], vec![9], vec![10], vec![11]]
                    );
                    assert_eq!(
                        leaf.values,
                        vec![vec![2], vec![2], vec![2], vec![2], vec![2]]
                    );
                }
                _ => panic!("child should be leaf"),
            }
        }
        _ => panic!("root should be internal"),
    }
}

#[test]
fn reloading() {
    let mut btree = StableBTreeMap::new(make_memory(), 0, 0).unwrap();

    assert_eq!(btree.insert(vec![1, 2, 3], vec![4, 5, 6]), Ok(None));

    let btree = StableBTreeMap::load(btree.into_memory()).unwrap();
    assert_eq!(btree.get(&vec![1, 2, 3]), Some(vec![4, 5, 6]));

    let mut btree = StableBTreeMap::load(btree.into_memory()).unwrap();
    assert_eq!(btree.remove(&vec![1, 2, 3]), Some(vec![4, 5, 6]));

    let btree = StableBTreeMap::load(btree.into_memory()).unwrap();
    assert_eq!(btree.get(&vec![1, 2, 3]), None);
}

#[test]
fn remove_3a_right() {
    let mut btree = StableBTreeMap::new(make_memory(), 0, 0).unwrap();

    assert_eq!(btree.insert(vec![1], vec![2]), Ok(None));
    assert_eq!(btree.insert(vec![2], vec![2]), Ok(None));
    assert_eq!(btree.insert(vec![3], vec![2]), Ok(None));
    assert_eq!(btree.insert(vec![4], vec![2]), Ok(None));
    assert_eq!(btree.insert(vec![5], vec![2]), Ok(None));
    assert_eq!(btree.insert(vec![6], vec![2]), Ok(None));
    assert_eq!(btree.insert(vec![7], vec![2]), Ok(None));
    assert_eq!(btree.insert(vec![8], vec![2]), Ok(None));
    assert_eq!(btree.insert(vec![9], vec![2]), Ok(None));
    assert_eq!(btree.insert(vec![10], vec![2]), Ok(None));
    assert_eq!(btree.insert(vec![11], vec![2]), Ok(None));
    // Should now split a node.
    assert_eq!(btree.insert(vec![12], vec![2]), Ok(None));

    // The result should look like this:
    //                [6]
    //               /   \
    // [1, 2, 3, 4, 5]   [7, 8, 9, 10, 11, 12]

    // Remove key 3. An entry comes over from the right sibling.
    assert_eq!(btree.remove(&vec![3]), Some(vec![2]));

    // The result should look like this:
    //                [7]
    //               /   \
    // [1, 2, 4, 5, 6]   [8, 9, 10, 11, 12]
    let root = Node::load(btree.root_offset(), btree.memory());
    match root {
        Node::Internal(internal) => {
            assert_eq!(internal.keys, vec![vec![7]]);
            assert_eq!(internal.values, vec![vec![2]]);
            assert_eq!(internal.children.len(), 2);

            let child_0 = Node::load(internal.children[0], btree.memory());
            match child_0 {
                Node::Leaf(leaf) => {
                    assert_eq!(leaf.keys, vec![vec![1], vec![2], vec![4], vec![5], vec![6]]);
                    assert_eq!(
                        leaf.values,
                        vec![vec![2], vec![2], vec![2], vec![2], vec![2]]
                    );
                }
                _ => panic!("child should be leaf"),
            }

            let child_1 = Node::load(internal.children[1], btree.memory());
            match child_1 {
                Node::Leaf(leaf) => {
                    assert_eq!(
                        leaf.keys,
                        vec![vec![8], vec![9], vec![10], vec![11], vec![12]]
                    );
                    assert_eq!(
                        leaf.values,
                        vec![vec![2], vec![2], vec![2], vec![2], vec![2]]
                    );
                }
                _ => panic!("child should be leaf"),
            }
        }
        _ => panic!("root should be internal"),
    }
}

#[test]
fn remove_3a_left() {
    let mut btree = StableBTreeMap::new(make_memory(), 0, 0).unwrap();

    assert_eq!(btree.insert(vec![1], vec![2]), Ok(None));
    assert_eq!(btree.insert(vec![2], vec![2]), Ok(None));
    assert_eq!(btree.insert(vec![3], vec![2]), Ok(None));
    assert_eq!(btree.insert(vec![4], vec![2]), Ok(None));
    assert_eq!(btree.insert(vec![5], vec![2]), Ok(None));
    assert_eq!(btree.insert(vec![6], vec![2]), Ok(None));
    assert_eq!(btree.insert(vec![7], vec![2]), Ok(None));
    assert_eq!(btree.insert(vec![8], vec![2]), Ok(None));
    assert_eq!(btree.insert(vec![9], vec![2]), Ok(None));
    assert_eq!(btree.insert(vec![10], vec![2]), Ok(None));
    assert_eq!(btree.insert(vec![11], vec![2]), Ok(None));
    // Should now split a node.
    assert_eq!(btree.insert(vec![0], vec![2]), Ok(None));

    // The result should look like this:
    //                   [6]
    //                  /   \
    // [0, 1, 2, 3, 4, 5]   [7, 8, 9, 10, 11]

    // Remove key 8. An entry comes over from the left sibling.
    assert_eq!(btree.remove(&vec![8]), Some(vec![2]));

    // The result should look like this:
    //                [5]
    //               /   \
    // [0, 1, 2, 3, 4]   [6, 7, 9, 10, 11]
    let root = Node::load(btree.root_offset(), btree.memory());
    match root {
        Node::Internal(internal) => {
            assert_eq!(internal.keys, vec![vec![5]]);
            assert_eq!(internal.values, vec![vec![2]]);
            assert_eq!(internal.children.len(), 2);

            let child_0 = Node::load(internal.children[0], btree.memory());
            match child_0 {
                Node::Leaf(leaf) => {
                    assert_eq!(leaf.keys, vec![vec![0], vec![1], vec![2], vec![3], vec![4]]);
                    assert_eq!(
                        leaf.values,
                        vec![vec![2], vec![2], vec![2], vec![2], vec![2]]
                    );
                }
                _ => panic!("child should be leaf"),
            }

            let child_1 = Node::load(internal.children[1], btree.memory());
            match child_1 {
                Node::Leaf(leaf) => {
                    assert_eq!(
                        leaf.keys,
                        vec![vec![6], vec![7], vec![9], vec![10], vec![11]]
                    );
                    assert_eq!(
                        leaf.values,
                        vec![vec![2], vec![2], vec![2], vec![2], vec![2]]
                    );
                }
                _ => panic!("child should be leaf"),
            }
        }
        _ => panic!("root should be internal"),
    }
}

#[test]
fn remove_3b_merge_into_right() {
    let mut btree = StableBTreeMap::new(make_memory(), 0, 0).unwrap();

    assert_eq!(btree.insert(vec![1], vec![2]), Ok(None));
    assert_eq!(btree.insert(vec![2], vec![2]), Ok(None));
    assert_eq!(btree.insert(vec![3], vec![2]), Ok(None));
    assert_eq!(btree.insert(vec![4], vec![2]), Ok(None));
    assert_eq!(btree.insert(vec![5], vec![2]), Ok(None));
    assert_eq!(btree.insert(vec![6], vec![2]), Ok(None));
    assert_eq!(btree.insert(vec![7], vec![2]), Ok(None));
    assert_eq!(btree.insert(vec![8], vec![2]), Ok(None));
    assert_eq!(btree.insert(vec![9], vec![2]), Ok(None));
    assert_eq!(btree.insert(vec![10], vec![2]), Ok(None));
    assert_eq!(btree.insert(vec![11], vec![2]), Ok(None));
    // Should now split a node.
    assert_eq!(btree.insert(vec![12], vec![2]), Ok(None));

    // The result should look like this:
    //                [6]
    //               /   \
    // [1, 2, 3, 4, 5]   [7, 8, 9, 10, 11, 12]

    for i in 1..=12 {
        assert_eq!(btree.get(&vec![i]), Some(vec![2]));
    }

    // Remove key 6. Its successor takes its place.
    assert_eq!(btree.remove(&vec![6]), Some(vec![2]));
    // The result should look like this:
    //                [7]
    //               /   \
    // [1, 2, 3, 4, 5]   [8, 9, 10, 11, 12]
    let root = Node::load(btree.root_offset(), btree.memory());
    assert_eq!(*root.keys(), vec![vec![7]]);

    // Remove key 3. The child is merged into its right sibling.
    assert_eq!(btree.remove(&vec![3]), Some(vec![2]));

    // The result should look like this:
    //
    // [1, 2, 4, 5, 7, 8, 9, 10, 11, 12]
    let root = Node::load(btree.root_offset(), btree.memory());
    assert_eq!(
        *root.keys(),
        vec![
            vec![1],
            vec![2],
            vec![4],
            vec![5],
            vec![7],
            vec![8],
            vec![9],
            vec![10],
            vec![11],
            vec![12]
        ]
    );
    assert!(matches!(root, Node::Leaf(_)));
}

#[test]
fn remove_3b_merge_into_left() {
    let mut btree = StableBTreeMap::new(make_memory(), 0, 0).unwrap();

    for i in 1..=11 {
        assert_eq!(btree.insert(vec![i], vec![2]), Ok(None));
    }

    // Should now split a node.
    assert_eq!(btree.insert(vec![12], vec![2]), Ok(None));

    // The result should look like this:
    //                [6]
    //               /   \
    // [1, 2, 3, 4, 5]   [7, 8, 9, 10, 11, 12]

    for i in 1..=12 {
        assert_eq!(btree.get(&vec![i]), Some(vec![2]));
    }

    // Remove key 6. Its successor takes its place.
    assert_eq!(btree.remove(&vec![6]), Some(vec![2]));

    // The result should look like this:
    //                [7]
    //               /   \
    // [1, 2, 3, 4, 5]   [8, 9, 10, 11, 12]
    let root = Node::load(btree.root_offset(), btree.memory());
    assert_eq!(*root.keys(), vec![vec![7]]);

    // Remove key 10. The child is merged into its left sibling.
    assert_eq!(btree.remove(&vec![10]), Some(vec![2]));

    // The result should look like this:
    //
    // [1, 2, 3, 4, 5, 7, 8, 9, 11, 12]
    let root = Node::load(btree.root_offset(), btree.memory());
    assert_eq!(
        *root.keys(),
        vec![
            vec![1],
            vec![2],
            vec![3],
            vec![4],
            vec![5],
            vec![7],
            vec![8],
            vec![9],
            vec![11],
            vec![12]
        ]
    );
    assert!(matches!(root, Node::Leaf(_)));
}

#[test]
fn many_insertions() {
    let mut btree = StableBTreeMap::new(make_memory(), 0, 0).unwrap();

    for j in 0..=10 {
        for i in 0..=255 {
            assert_eq!(btree.insert(vec![i, j], vec![i, j]), Ok(None));
        }
    }

    for j in 0..=10 {
        for i in 0..=255 {
            assert_eq!(btree.get(&vec![i, j]), Some(vec![i, j]));
        }
    }

    let mut btree = StableBTreeMap::load(btree.into_memory()).unwrap();

    for j in 0..=10 {
        for i in 0..=255 {
            assert_eq!(btree.remove(&vec![i, j]), Some(vec![i, j]));
        }
    }

    for j in 0..=10 {
        for i in 0..=255 {
            assert_eq!(btree.get(&vec![i, j]), None);
        }
    }

    // We've deallocated everything we allocated.
    assert_eq!(btree.allocator().num_allocations(), 0);
}

#[test]
fn many_insertions_2() {
    let mut btree = StableBTreeMap::new(make_memory(), 0, 0).unwrap();

    for j in (0..=10).rev() {
        for i in (0..=255).rev() {
            assert_eq!(btree.insert(vec![i, j], vec![i, j]), Ok(None));
        }
    }

    for j in 0..=10 {
        for i in 0..=255 {
            assert_eq!(btree.get(&vec![i, j]), Some(vec![i, j]));
        }
    }

    let mut btree = StableBTreeMap::load(btree.into_memory()).unwrap();

    for j in (0..=10).rev() {
        for i in (0..=255).rev() {
            assert_eq!(btree.remove(&vec![i, j]), Some(vec![i, j]));
        }
    }

    for j in 0..=10 {
        for i in 0..=255 {
            assert_eq!(btree.get(&vec![i, j]), None);
        }
    }

    // We've deallocated everything we allocated.
    assert_eq!(btree.allocator().num_allocations(), 0);
}
