//! How many chunks an insertion needs.
use crate::entries::sorted;
use crate::node::{Ptr, B, CAPACITY};
use crate::order::{
    ascending, gap, gap_at, lemma_gap_split, lemma_gap_unique, lemma_irreflexive, lemma_total,
    lemma_transitive, precedes,
};
use crate::tree::{entries, height, lemma_child_sorted, lemma_keys_ascending, shape, Tree};
use vstd::prelude::*;

verus! {

/// Whether there is no place for another entry in the root of a tree.
pub open spec fn is_full(t: Tree) -> bool {
    t.keys.len() == CAPACITY
}

/// The number of full nodes below the root of a tree that are passed on the way down to `key`, or
/// to the leaf that it belongs in. Each of them is split.
pub open spec fn splits(t: Tree, key: Seq<u8>) -> nat
    decreases t,
{
    let i = gap(t.keys, key);
    if t.keys.contains(key) || !(0 <= i < t.children.len()) {
        0
    } else {
        (if is_full(t.children[i]) {
            1nat
        } else {
            0
        }) + splits(t.children[i], key)
    }
}

/// The number of chunks that inserting `key` takes. A new root takes one more than a split.
pub open spec fn chunks_needed(tree: Option<Tree>, key: Seq<u8>) -> nat {
    match tree {
        None => 1,
        Some(t) => splits(t, key) + (if is_full(t) {
            2nat
        } else {
            0
        }),
    }
}

/// One node is split on each level at most.
pub proof fn lemma_splits_bound(t: Tree, key: Seq<u8>)
    requires
        shape(t),
    ensures
        splits(t, key) <= height(t),
    decreases t,
{
    let i = gap(t.keys, key);
    if !t.keys.contains(key) && 0 <= i < t.children.len() {
        assert(shape(t.children[i]));
        lemma_splits_bound(t.children[i], key);
    }
}

/// Nothing is split below a node that holds the key.
proof fn lemma_splits_found(t: Tree, key: Seq<u8>, i: int)
    requires
        0 <= i < t.keys.len(),
        t.keys[i] == key,
    ensures
        splits(t, key) == 0,
{
    assert(t.keys.contains(key));
}

/// Nothing is split below a leaf.
pub proof fn lemma_splits_leaf(t: Tree, key: Seq<u8>)
    requires
        t.children.len() == 0,
    ensures
        splits(t, key) == 0,
{
}

/// What is split below a node that does not hold the key.
proof fn lemma_splits_below(t: Tree, key: Seq<u8>, i: int)
    requires
        gap_at(t.keys, key, i),
        i < t.children.len(),
    ensures
        splits(t, key) == splits(t.children[i], key) + (if is_full(t.children[i]) {
            1nat
        } else {
            0
        }),
{
    lemma_irreflexive(key);
    if t.keys.contains(key) {
        let j = choose|j: int| 0 <= j < t.keys.len() && t.keys[j] == key;
        assert(precedes(t.keys[j], key) || precedes(key, t.keys[j]));
    }
    lemma_gap_unique(t.keys, key, i, gap(t.keys, key));
}

/// A key that is not among keys in order has its gap between them.
pub proof fn lemma_gap_exists(keys: Seq<Seq<u8>>, key: Seq<u8>) -> (i: int)
    requires
        ascending(keys),
        !keys.contains(key),
    ensures
        gap_at(keys, key, i),
    decreases keys.len(),
{
    if keys.len() == 0 {
        0
    } else {
        let n = keys.len() - 1;
        lemma_total(keys[n], key);
        assert(keys.contains(keys[n]));
        if precedes(keys[n], key) {
            assert forall|j: int| 0 <= j <= n implies precedes(#[trigger] keys[j], key) by {
                if j < n {
                    lemma_transitive(keys[j], keys[n], key);
                }
            }
            n + 1
        } else {
            let front = keys.take(n);
            assert forall|j: int| 0 <= j < n implies front[j] != key by {
                assert(keys.contains(keys[j]));
            }
            let i = lemma_gap_exists(front, key);
            assert forall|j: int| 0 <= j < i implies precedes(#[trigger] keys[j], key) by {
                assert(front[j] == keys[j]);
            }
            assert forall|j: int| i <= j < keys.len() implies precedes(key, #[trigger] keys[j]) by {
                if j < n {
                    assert(front[j] == keys[j]);
                }
            }
            i
        }
    }
}

/// The half of a full node that a key goes to is passed in place of the whole.
proof fn lemma_splits_half(c: Tree, half: Tree, sibling: Ptr, key: Seq<u8>)
    requires
        shape(c),
        is_full(c),
        ascending(c.keys),
        ({
            ||| half == c.lower_half() && precedes(key, c.keys[B - 1])
            ||| half == c.upper_half(sibling) && precedes(c.keys[B - 1], key)
        }),
    ensures
        splits(half, key) == splits(c, key),
{
    let middle = c.keys[B - 1];
    lemma_total(key, middle);
    lemma_total(middle, key);
    if c.children.len() == 0 {
    } else if c.keys.contains(key) {
        let j = choose|j: int| 0 <= j < c.keys.len() && c.keys[j] == key;
        if j < B - 1 {
            assert(precedes(c.keys[j], middle));
            assert(c.lower_half().keys[j] == key);
        } else if j > B - 1 {
            assert(precedes(middle, c.keys[j]));
            assert(c.upper_half(sibling).keys[j - B] == key);
        }
        assert(half.keys.contains(key));
    } else {
        let g = lemma_gap_exists(c.keys, key);
        lemma_splits_below(c, key, g);
        if precedes(key, middle) {
            assert(g <= B - 1);
            assert forall|j: int| 0 <= j < half.keys.len() implies half.keys[j] == c.keys[j] by {}
            assert(gap_at(half.keys, key, g));
            assert(half.children[g] == c.children[g]);
            lemma_splits_below(half, key, g);
        } else {
            assert(g > B - 1);
            assert forall|j: int| 0 <= j < half.keys.len() implies half.keys[j] == c.keys[j
                + B] by {}
            assert(gap_at(half.keys, key, g - B));
            assert(half.children[g - B] == c.children[g]);
            lemma_splits_below(half, key, g - B);
        }
    }
}

/// Whether a full child that `key` goes to has been split, `t` having become `t1`. `j` is where
/// `key` was searched for.
pub open spec fn made_room(t: Tree, t1: Tree, key: Seq<u8>, j: int) -> bool {
    ||| t1 == t && 0 <= j < t.keys.len() && t.keys[j] == key
    ||| t1 == t && gap_at(t.keys, key, j) && !is_full(t.children[j])
    ||| {
        &&& gap_at(t.keys, key, j)
        &&& is_full(t.children[j])
        &&& exists|sibling: Ptr| t1 == #[trigger] t.split(j, sibling)
    }
}

/// The child that a key goes to is not full, if a full child was split before. What is left to be
/// split is below it.
pub proof fn lemma_room_below(t: Tree, t1: Tree, key: Seq<u8>, j: int, i: int)
    requires
        shape(t),
        sorted(entries(t)),
        t.children.len() > 0,
        made_room(t, t1, key, j),
        gap_at(t1.keys, key, i),
    ensures
        !is_full(t1.children[i]),
        splits(t, key) == splits(t1.children[i], key) + (t1.keys.len() - t.keys.len()),
{
    if t1 == t {
        if 0 <= j < t.keys.len() && t.keys[j] == key {
            lemma_irreflexive(key);
            assert(precedes(t.keys[j], key) || precedes(key, t.keys[j]));
        } else {
            lemma_gap_unique(t.keys, key, i, j);
        }
        lemma_splits_below(t, key, i);
    } else {
        let sibling = choose|sibling: Ptr| t1 == #[trigger] t.split(j, sibling);
        let c = t.children[j];
        lemma_gap_split(t.keys, c.keys[B - 1], key, j, i);
        assert(shape(t.children[j]));
        lemma_child_sorted(t, j);
        lemma_keys_ascending(c);
        lemma_splits_below(t, key, j);
        assert(t1.keys[j] == c.keys[B - 1]);
        lemma_splits_half(c, t1.children[i], sibling, key);
    }
}

/// Nothing is left to be split if the key has moved up.
pub proof fn lemma_room_found(t: Tree, t1: Tree, key: Seq<u8>, j: int, i: int)
    requires
        shape(t),
        t.children.len() > 0,
        made_room(t, t1, key, j),
        0 <= i < t1.keys.len(),
        t1.keys[i] == key,
    ensures
        splits(t, key) == t1.keys.len() - t.keys.len(),
{
    if t1 == t {
        lemma_splits_found(t, key, i);
    } else {
        let sibling = choose|sibling: Ptr| t1 == #[trigger] t.split(j, sibling);
        let c = t.children[j];
        assert(shape(t.children[j]));
        lemma_splits_below(t, key, j);
        lemma_irreflexive(key);
        if i != j {
            let k = if i < j {
                i
            } else {
                i - 1
            };
            assert(t.keys[k] == key);
        }
        lemma_splits_found(c, key, B - 1);
    }
}

/// Something is split if the child that the key goes to is full.
pub proof fn lemma_room_needed(t: Tree, key: Seq<u8>, j: int)
    requires
        gap_at(t.keys, key, j),
        j < t.children.len(),
        is_full(t.children[j]),
    ensures
        splits(t, key) > 0,
{
    lemma_splits_below(t, key, j);
}

/// A split that was made does not have to be made again.
pub proof fn lemma_splits_left(t: Tree, t1: Tree, key: Seq<u8>, j: int)
    requires
        shape(t),
        sorted(entries(t)),
        t.children.len() > 0,
        made_room(t, t1, key, j),
        shape(t1),
        sorted(entries(t1)),
    ensures
        splits(t, key) == splits(t1, key) + (t1.keys.len() - t.keys.len()),
{
    lemma_keys_ascending(t1);
    if t1.keys.contains(key) {
        let i = choose|i: int| 0 <= i < t1.keys.len() && t1.keys[i] == key;
        lemma_room_found(t, t1, key, j, i);
        lemma_splits_found(t1, key, i);
    } else {
        let i = lemma_gap_exists(t1.keys, key);
        lemma_room_below(t, t1, key, j, i);
        lemma_splits_below(t1, key, i);
    }
}

/// A new root without entries is passed on the way down.
pub proof fn lemma_splits_new_root(t: Tree, t1: Tree, key: Seq<u8>)
    requires
        is_full(t),
        t1.keys.len() == 0,
        t1.children == seq![t],
    ensures
        splits(t1, key) == splits(t, key) + 1,
{
    assert(gap_at(t1.keys, key, 0));
    lemma_splits_below(t1, key, 0);
}

} // verus!
