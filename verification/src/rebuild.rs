//! The steps that move entries between a node and its children: a full child is split, an entry
//! is passed from one child to its neighbour, two children are merged.
use crate::entries::{
    flat, lemma_flat_join, lemma_flat_merge, lemma_flat_pair, lemma_flat_rotate, lemma_flat_split,
    prefix, sorted, Entry,
};
use crate::node::{Ptr, B, CAPACITY};
use crate::order::{gap_at, lemma_transitive, precedes};
use crate::tree::{
    count, counts, distinct, entries, height, lemma_child_count, lemma_child_distinct,
    lemma_children_apart, lemma_counts_concat, lemma_counts_insert, lemma_counts_remove,
    lemma_counts_update, lemma_keys_around, lemma_stored_allocated, lemma_stored_frame, moved, seps,
    shape, sound, stored, subs, Heap, Tree,
};
use vstd::prelude::*;

verus! {

impl Tree {
    /// The lower half of a full node.
    pub open spec fn lower_half(self) -> Tree {
        Tree {
            addr: self.addr,
            keys: self.keys.take(B - 1),
            values: self.values.take(B - 1),
            children: if self.children.len() == 0 {
                seq![]
            } else {
                self.children.take(B as int)
            },
        }
    }

    /// The upper half of a full node, without its middle entry.
    pub open spec fn upper_half(self, addr: Ptr) -> Tree {
        Tree {
            addr,
            keys: self.keys.skip(B as int),
            values: self.values.skip(B as int),
            children: if self.children.len() == 0 {
                seq![]
            } else {
                self.children.skip(B as int)
            },
        }
    }

    /// The tree with its full `i`-th child split in two, the upper half at the address `sibling`.
    pub open spec fn split(self, i: int, sibling: Ptr) -> Tree {
        let child = self.children[i];
        Tree {
            addr: self.addr,
            keys: self.keys.insert(i, child.keys[B - 1]),
            values: self.values.insert(i, child.values[B - 1]),
            children: self.children.update(i, child.lower_half()).insert(
                i + 1,
                child.upper_half(sibling),
            ),
        }
    }

    /// The tree without its last entry and the subtree behind it.
    pub open spec fn without_last(self) -> Tree {
        Tree {
            addr: self.addr,
            keys: self.keys.drop_last(),
            values: self.values.drop_last(),
            children: if self.children.len() == 0 {
                seq![]
            } else {
                self.children.drop_last()
            },
        }
    }

    /// The tree without its first entry and the subtree before it.
    pub open spec fn without_first(self) -> Tree {
        Tree {
            addr: self.addr,
            keys: self.keys.skip(1),
            values: self.values.skip(1),
            children: if self.children.len() == 0 {
                seq![]
            } else {
                self.children.skip(1)
            },
        }
    }

    /// The tree with another entry at its front, and the last subtree of `from` before it.
    pub open spec fn with_first(self, key: Seq<u8>, value: Seq<u8>, from: Tree) -> Tree {
        Tree {
            addr: self.addr,
            keys: self.keys.insert(0, key),
            values: self.values.insert(0, value),
            children: if self.children.len() == 0 {
                seq![]
            } else {
                self.children.insert(0, from.children.last())
            },
        }
    }

    /// The tree with another entry at its end, and the first subtree of `from` behind it.
    pub open spec fn with_last(self, key: Seq<u8>, value: Seq<u8>, from: Tree) -> Tree {
        Tree {
            addr: self.addr,
            keys: self.keys.push(key),
            values: self.values.push(value),
            children: if self.children.len() == 0 {
                seq![]
            } else {
                self.children.push(from.children[0])
            },
        }
    }

    /// The tree with the last entry of its `i`-th child moved up, and its own `i`-th entry moved
    /// down into the next child.
    pub open spec fn rotate_right(self, i: int) -> Tree {
        let left = self.children[i];
        let right = self.children[i + 1];
        Tree {
            addr: self.addr,
            keys: self.keys.update(i, left.keys.last()),
            values: self.values.update(i, left.values.last()),
            children: self.children.update(i, left.without_last()).update(
                i + 1,
                right.with_first(self.keys[i], self.values[i], left),
            ),
        }
    }

    /// The tree with its own `i`-th entry moved down into its `i`-th child, and the first entry of
    /// the next child moved up.
    pub open spec fn rotate_left(self, i: int) -> Tree {
        let left = self.children[i];
        let right = self.children[i + 1];
        Tree {
            addr: self.addr,
            keys: self.keys.update(i, right.keys[0]),
            values: self.values.update(i, right.values[0]),
            children: self.children.update(
                i,
                left.with_last(self.keys[i], self.values[i], right),
            ).update(i + 1, right.without_first()),
        }
    }

    /// Two trees as one at the address `addr`, with an entry between them.
    pub open spec fn joined(self, key: Seq<u8>, value: Seq<u8>, right: Tree, addr: Ptr) -> Tree {
        Tree {
            addr,
            keys: self.keys.push(key) + right.keys,
            values: self.values.push(value) + right.values,
            children: self.children + right.children,
        }
    }

    /// The tree with its `i`-th child, its `i`-th entry and its next child merged into one child
    /// at the address `addr`.
    pub open spec fn merge(self, i: int, addr: Ptr) -> Tree {
        let merged = self.children[i].joined(
            self.keys[i],
            self.values[i],
            self.children[i + 1],
            addr,
        );
        Tree {
            addr: self.addr,
            keys: self.keys.remove(i),
            values: self.values.remove(i),
            children: self.children.update(i, merged).remove(i + 1),
        }
    }
}

// Where the nodes are.

/// Whether `x` is a subtree of `t`, but neither the `i`-th nor the `j`-th.
spec fn kept(t: Tree, i: int, j: int, x: Tree) -> bool {
    exists|k: int|
        0 <= k < t.children.len() && k != i && k != j && x == #[trigger] t.children[k]
}

/// Whether `x` is a subtree of a subtree of `t`.
spec fn grandchild(t: Tree, x: Tree) -> bool {
    exists|k: int, l: int|
        0 <= k < t.children.len() && 0 <= l < t.children[k].children.len() && x
            == #[trigger] t.children[k].children[l]
}

/// Whether the root of `x` is stored, and all else of it is from `t`.
spec fn regrouped(heap: Heap, t: Tree, x: Tree) -> bool {
    &&& heap.contains_key(x.addr)
    &&& heap[x.addr] == Some(x.node())
    &&& forall|l: int| 0 <= l < x.children.len() ==> grandchild(t, #[trigger] x.children[l])
}

/// Two children of a tree are rebuilt from what was below them.
proof fn lemma_regroup(heap1: Heap, t1: Tree, i: int, j: int, heap2: Heap, t2: Tree)
    requires
        sound(heap1, t1),
        0 <= i < t1.children.len(),
        0 <= j < t1.children.len(),
        t2.addr == t1.addr,
        heap2.contains_key(t1.addr),
        heap2[t1.addr] == Some(t2.node()),
        forall|a: Ptr| #[trigger]
            heap1.contains_key(a) && a != t1.addr && a != t1.children[i].addr && a
                != t1.children[j].addr ==> heap2.contains_key(a) && heap2[a] == heap1[a],
        forall|k: int|
            0 <= k < t2.children.len() ==> kept(t1, i, j, #[trigger] t2.children[k]) || regrouped(
                heap2,
                t1,
                t2.children[k],
            ),
    ensures
        stored(heap2, t2),
{
    assert forall|k: int| 0 <= k < t2.children.len() implies stored(
        heap2,
        #[trigger] t2.children[k],
    ) by {
        let x = t2.children[k];
        if kept(t1, i, j, x) {
            let n = choose|n: int|
                0 <= n < t1.children.len() && n != i && n != j && x == #[trigger] t1.children[n];
            lemma_child_distinct(t1, n);
            assert(distinct(t1));
            assert forall|a: Ptr| #[trigger] count(x, a) > 0 implies heap2.contains_key(a)
                && heap2[a] == heap1[a] by {
                assert(stored(heap1, t1.children[n]));
                lemma_stored_allocated(heap1, x, a);
                lemma_children_apart(t1, i, n, a);
                lemma_children_apart(t1, j, n, a);
                assert(count(t1, a) <= 1);
                lemma_root_counted(t1.children[i]);
                lemma_root_counted(t1.children[j]);
            }
            assert(stored(heap1, t1.children[n]));
            lemma_stored_frame(heap1, heap2, x);
        } else {
            assert(regrouped(heap2, t1, x));
            assert forall|l: int| 0 <= l < x.children.len() implies stored(
                heap2,
                #[trigger] x.children[l],
            ) by {
                lemma_grandchild_stored(heap1, t1, i, j, heap2, x.children[l]);
            }
        }
    }
}

proof fn lemma_root_counted(t: Tree)
    ensures
        count(t, t.addr) > 0,
{
}

proof fn lemma_grandchild_stored(heap1: Heap, t1: Tree, i: int, j: int, heap2: Heap, x: Tree)
    requires
        sound(heap1, t1),
        0 <= i < t1.children.len(),
        0 <= j < t1.children.len(),
        forall|a: Ptr| #[trigger]
            heap1.contains_key(a) && a != t1.addr && a != t1.children[i].addr && a
                != t1.children[j].addr ==> heap2.contains_key(a) && heap2[a] == heap1[a],
        grandchild(t1, x),
    ensures
        stored(heap2, x),
{
    let (k, l) = choose|k: int, l: int|
        0 <= k < t1.children.len() && 0 <= l < t1.children[k].children.len() && x
            == #[trigger] t1.children[k].children[l];
    let c = t1.children[k];
    assert(stored(heap1, t1.children[k]));
    assert(stored(heap1, c.children[l]));
    lemma_child_distinct(t1, k);
    lemma_child_distinct(c, l);
    assert forall|a: Ptr| #[trigger] count(x, a) > 0 implies heap2.contains_key(a) && heap2[a]
        == heap1[a] by {
        lemma_stored_allocated(heap1, x, a);
        lemma_child_count(c, l, a);
        if k != i {
            lemma_children_apart(t1, i, k, a);
        }
        if k != j {
            lemma_children_apart(t1, j, k, a);
        }
        assert(count(t1, a) <= 1);
        assert(count(c, t1.addr) == 0);
        lemma_root_counted(t1.children[i]);
        lemma_root_counted(t1.children[j]);
    }
    lemma_stored_frame(heap1, heap2, x);
}

/// What changes when the nodes of a tree keep their addresses.
proof fn lemma_moved_same(heap1: Heap, t1: Tree, heap2: Heap, t2: Tree)
    requires
        sound(heap1, t1),
        forall|a: Ptr| #[trigger] count(t2, a) == count(t1, a),
        heap2.dom() == heap1.dom(),
        forall|a: Ptr| #[trigger]
            heap1.contains_key(a) && count(t1, a) == 0 ==> heap2[a] == heap1[a],
    ensures
        distinct(t2),
        moved(heap1, t1, heap2, t2),
{
    assert forall|a: Ptr| #[trigger] heap2.contains_key(a) == heap1.contains_key(a) by {
        assert(heap2.dom().contains(a) == heap1.dom().contains(a));
    }
    assert forall|a: Ptr| #[trigger] heap2.contains_key(a) <==> (heap1.contains_key(a) && count(
        t1,
        a,
    ) == 0) || count(t2, a) > 0 by {
        assert(count(t2, a) == count(t1, a));
        if count(t1, a) > 0 {
            lemma_stored_allocated(heap1, t1, a);
        }
    }
    assert forall|a: Ptr| #[trigger] count(t2, a) <= 1 by {
        assert(count(t1, a) <= 1);
    }
}

// The lowest common facts about children.

/// All children of a tree are leaves, or none is.
pub proof fn lemma_same_kind(t: Tree, i: int, j: int)
    requires
        shape(t),
        0 <= i < t.children.len(),
        0 <= j < t.children.len(),
    ensures
        height(t.children[i]) == height(t.children[j]),
        t.children[i].children.len() == 0 <==> t.children[j].children.len() == 0,
{
    assert(shape(t.children[i]));
    assert(shape(t.children[j]));
}

proof fn lemma_levels(t: Tree, n: nat)
    requires
        t.children.len() > 0,
        forall|i: int| 0 <= i < t.children.len() ==> height(#[trigger] t.children[i]) == n,
    ensures
        height(t) == n + 1,
{
    assert(height(t.children[0]) == n);
}

// Splitting.

/// What splitting a full child does.
pub proof fn lemma_split(heap1: Heap, t: Tree, i: int, sibling: Ptr, heap2: Heap)
    requires
        sound(heap1, t),
        shape(t),
        t.keys.len() < CAPACITY,
        0 <= i < t.children.len(),
        t.children[i].keys.len() == CAPACITY,
        !heap1.contains_key(sibling),
        ({
            let child = t.children[i];
            heap2 == heap1.insert(sibling, Some(child.upper_half(sibling).node())).insert(
                child.addr,
                Some(child.lower_half().node()),
            ).insert(t.addr, Some(t.split(i, sibling).node()))
        }),
    ensures
        sound(heap2, t.split(i, sibling)),
        moved(heap1, t, heap2, t.split(i, sibling)),
        shape(t.split(i, sibling)),
        height(t.split(i, sibling)) == height(t),
        entries(t.split(i, sibling)) == entries(t),
{
    let child = t.children[i];
    let low = child.lower_half();
    let high = child.upper_half(sibling);
    let t2 = t.split(i, sibling);
    assert(shape(t.children[i]));
    assert(stored(heap1, t.children[i]));
    lemma_stored_allocated(heap1, t, t.addr);
    lemma_root_counted(child);
    lemma_child_distinct(t, i);
    assert(child.children =~= low.children + high.children);
    // Addresses.
    assert forall|a: Ptr| #[trigger] count(t2, a) == count(t, a) + (if a == sibling {
        1nat
    } else {
        0
    }) by {
        lemma_counts_concat(low.children, high.children, a);
        lemma_counts_update(t.children, i, low, a);
        lemma_counts_insert(t.children.update(i, low), i + 1, high, a);
    }
    assert(stored(heap2, t2)) by {
        assert forall|k: int| 0 <= k < t2.children.len() implies kept(
            t,
            i,
            i,
            #[trigger] t2.children[k],
        ) || regrouped(heap2, t, t2.children[k]) by {
            if k == i {
                assert(t2.children[k] == low);
                assert forall|l: int| 0 <= l < low.children.len() implies grandchild(
                    t,
                    #[trigger] low.children[l],
                ) by {
                    assert(low.children[l] == t.children[i].children[l]);
                }
            } else if k == i + 1 {
                assert(t2.children[k] == high);
                assert forall|l: int| 0 <= l < high.children.len() implies grandchild(
                    t,
                    #[trigger] high.children[l],
                ) by {
                    assert(high.children[l] == t.children[i].children[l + B]);
                }
            } else if k < i {
                assert(t2.children[k] == t.children[k]);
            } else {
                assert(t2.children[k] == t.children[k - 1]);
            }
        }
        lemma_regroup(heap1, t, i, i, heap2, t2);
    }
    assert forall|a: Ptr| #[trigger] count(t2, a) <= 1 by {
        assert(count(t, a) <= 1);
        if a == sibling && count(t, a) > 0 {
            lemma_stored_allocated(heap1, t, a);
        }
    }
    assert(moved(heap1, t, heap2, t2)) by {
        assert forall|a: Ptr| #[trigger] heap2.contains_key(a) <==> (heap1.contains_key(a) && count(
            t,
            a,
        ) == 0) || count(t2, a) > 0 by {
            assert(count(t2, a) >= count(t, a));
            if count(t, a) > 0 {
                lemma_stored_allocated(heap1, t, a);
            }
        }
        assert forall|a: Ptr| #[trigger] heap1.contains_key(a) && count(t, a) == 0 implies heap2[a]
            == heap1[a] && count(t2, a) == 0 by {
            lemma_child_count(t, i, a);
            assert(count(t2, a) == count(t, a));
        }
    }
    lemma_split_shape(t, i, sibling);
    lemma_split_entries(t, i, sibling);
}

/// Splitting a full child keeps the entries of a tree.
pub proof fn lemma_split_entries(t: Tree, i: int, sibling: Ptr)
    requires
        shape(t),
        0 <= i < t.children.len(),
        t.children[i].keys.len() == CAPACITY,
    ensures
        entries(t.split(i, sibling)) == entries(t),
{
    let child = t.children[i];
    let low = child.lower_half();
    let high = child.upper_half(sibling);
    let t2 = t.split(i, sibling);
    assert(shape(t.children[i]));
    assert(subs(child) =~= subs(low) + subs(high));
    assert(seps(child) =~= seps(low) + seq![seps(child)[B - 1]] + seps(high));
    lemma_flat_join(subs(low), seps(low), seps(child)[B - 1], subs(high), seps(high));
    assert(subs(t2) =~= subs(t).update(i, entries(low)).insert(i + 1, entries(high)));
    assert(seps(t2) =~= seps(t).insert(i, seps(child)[B - 1]));
    lemma_flat_split(subs(t), seps(t), i, entries(low), seps(child)[B - 1], entries(high));
}

/// Splitting a full child keeps the shape of a tree.
pub proof fn lemma_split_shape(t: Tree, i: int, sibling: Ptr)
    requires
        shape(t),
        t.keys.len() < CAPACITY,
        0 <= i < t.children.len(),
        t.children[i].keys.len() == CAPACITY,
    ensures
        shape(t.split(i, sibling)),
        shape(t.children[i].lower_half()),
        shape(t.children[i].upper_half(sibling)),
        height(t.split(i, sibling)) == height(t),
{
    let child = t.children[i];
    let low = child.lower_half();
    let high = child.upper_half(sibling);
    let t2 = t.split(i, sibling);
    assert(shape(t.children[i]));
    if child.children.len() > 0 {
        assert forall|l: int| 0 <= l < low.children.len() implies height(
            #[trigger] low.children[l],
        ) == height(child) - 1 && shape(low.children[l]) && low.children[l].keys.len() >= B
            - 1 by {
            assert(low.children[l] == child.children[l]);
        }
        assert forall|l: int| 0 <= l < high.children.len() implies height(
            #[trigger] high.children[l],
        ) == height(child) - 1 && shape(high.children[l]) && high.children[l].keys.len() >= B
            - 1 by {
            assert(high.children[l] == child.children[l + B]);
        }
        lemma_levels(low, (height(child) - 1) as nat);
        lemma_levels(high, (height(child) - 1) as nat);
    }
    assert(height(low) == height(child) && height(high) == height(child));
    assert forall|k: int| 0 <= k < t2.children.len() implies height(#[trigger] t2.children[k])
        == height(t) - 1 && shape(t2.children[k]) && t2.children[k].keys.len() >= B - 1 by {
        if k < i {
            assert(t2.children[k] == t.children[k]);
        } else if k > i + 1 {
            assert(t2.children[k] == t.children[k - 1]);
        }
    }
    lemma_levels(t2, (height(t) - 1) as nat);
}

// Passing an entry from a child to its neighbour.

/// What a rotation to the right does.
pub proof fn lemma_rotate_right(heap1: Heap, t: Tree, i: int, heap2: Heap)
    requires
        sound(heap1, t),
        shape(t),
        0 <= i < t.children.len() - 1,
        t.children[i].keys.len() >= B,
        t.children[i + 1].keys.len() < CAPACITY,
        ({
            let left = t.children[i];
            let right = t.children[i + 1];
            heap2 == heap1.insert(left.addr, Some(left.without_last().node())).insert(
                right.addr,
                Some(right.with_first(t.keys[i], t.values[i], left).node()),
            ).insert(t.addr, Some(t.rotate_right(i).node()))
        }),
    ensures
        sound(heap2, t.rotate_right(i)),
        moved(heap1, t, heap2, t.rotate_right(i)),
        shape(t.rotate_right(i)),
        height(t.rotate_right(i)) == height(t),
        entries(t.rotate_right(i)) == entries(t),
{
    let left = t.children[i];
    let right = t.children[i + 1];
    let low = left.without_last();
    let high = right.with_first(t.keys[i], t.values[i], left);
    let t2 = t.rotate_right(i);
    assert(shape(t.children[i]) && shape(t.children[i + 1]));
    lemma_same_kind(t, i, i + 1);
    lemma_rotation_addresses(heap1, t, i);
    // Addresses.
    assert forall|a: Ptr| #[trigger] count(t2, a) == count(t, a) by {
        if left.children.len() > 0 {
            let last = left.children.len() - 1;
            lemma_counts_remove(left.children, last, a);
            assert(left.children.remove(last) =~= low.children);
            lemma_counts_insert(right.children, 0, left.children.last(), a);
        }
        lemma_counts_update(t.children, i, low, a);
        lemma_counts_update(t.children.update(i, low), i + 1, high, a);
    }
    assert(stored(heap2, t2)) by {
        assert forall|k: int| 0 <= k < t2.children.len() implies kept(
            t,
            i,
            i + 1,
            #[trigger] t2.children[k],
        ) || regrouped(heap2, t, t2.children[k]) by {
            if k == i {
                assert(t2.children[k] == low);
                assert forall|l: int| 0 <= l < low.children.len() implies grandchild(
                    t,
                    #[trigger] low.children[l],
                ) by {
                    assert(low.children[l] == t.children[i].children[l]);
                }
            } else if k == i + 1 {
                assert(t2.children[k] == high);
                assert forall|l: int| 0 <= l < high.children.len() implies grandchild(
                    t,
                    #[trigger] high.children[l],
                ) by {
                    if l == 0 {
                        assert(high.children[l] == t.children[i].children[left.children.len()
                            - 1]);
                    } else {
                        assert(high.children[l] == t.children[i + 1].children[l - 1]);
                    }
                }
            } else {
                assert(t2.children[k] == t.children[k]);
            }
        }
        lemma_regroup(heap1, t, i, i + 1, heap2, t2);
    }
    assert(heap2.dom() =~= heap1.dom());
    assert forall|a: Ptr| #[trigger] heap1.contains_key(a) && count(t, a) == 0 implies heap2[a]
        == heap1[a] by {
        lemma_child_count(t, i, a);
        lemma_child_count(t, i + 1, a);
    }
    lemma_moved_same(heap1, t, heap2, t2);
    lemma_rotate_right_shape(t, i);
    lemma_rotate_right_entries(t, i);
}

/// A rotation to the right keeps the entries of a tree.
pub proof fn lemma_rotate_right_entries(t: Tree, i: int)
    requires
        shape(t),
        0 <= i < t.children.len() - 1,
        t.children[i].keys.len() >= B,
    ensures
        entries(t.rotate_right(i)) == entries(t),
{
    let left = t.children[i];
    let right = t.children[i + 1];
    let low = left.without_last();
    let high = right.with_first(t.keys[i], t.values[i], left);
    let t2 = t.rotate_right(i);
    assert(shape(t.children[i]) && shape(t.children[i + 1]));
    lemma_same_kind(t, i, i + 1);
    let x = seps(left)[left.keys.len() - 1];
    let between = subs(left).last();
    assert(subs(left) =~= subs(low) + seq![between]);
    assert(seps(left) =~= seps(low) + seq![x] + seq![]);
    lemma_flat_join(subs(low), seps(low), x, seq![between], seq![]);
    lemma_flat_single(between);
    assert(subs(high) =~= seq![between] + subs(right));
    assert(seps(high) =~= seq![] + seq![seps(t)[i]] + seps(right));
    lemma_flat_join(seq![between], seq![], seps(t)[i], subs(right), seps(right));
    assert(entries(low) + seq![x] + entries(high) =~= entries(left) + seq![seps(t)[i]] + entries(
        right,
    ));
    lemma_rotation_entries(t, i, low, x, high, t2);
}

/// A rotation to the right keeps the shape of a tree.
pub proof fn lemma_rotate_right_shape(t: Tree, i: int)
    requires
        shape(t),
        0 <= i < t.children.len() - 1,
        t.children[i].keys.len() >= B,
        t.children[i + 1].keys.len() < CAPACITY,
    ensures
        shape(t.rotate_right(i)),
        height(t.rotate_right(i)) == height(t),
{
    let left = t.children[i];
    let right = t.children[i + 1];
    let low = left.without_last();
    let high = right.with_first(t.keys[i], t.values[i], left);
    let t2 = t.rotate_right(i);
    assert(shape(t.children[i]) && shape(t.children[i + 1]));
    lemma_same_kind(t, i, i + 1);
    if left.children.len() > 0 {
        assert forall|l: int| 0 <= l < low.children.len() implies height(
            #[trigger] low.children[l],
        ) == height(left) - 1 && shape(low.children[l]) && low.children[l].keys.len() >= B - 1 by {
            assert(low.children[l] == left.children[l]);
        }
        assert forall|l: int| 0 <= l < high.children.len() implies height(
            #[trigger] high.children[l],
        ) == height(left) - 1 && shape(high.children[l]) && high.children[l].keys.len() >= B
            - 1 by {
            if l == 0 {
                assert(high.children[l] == left.children[left.children.len() - 1]);
            } else {
                assert(high.children[l] == right.children[l - 1]);
            }
        }
        lemma_levels(low, (height(left) - 1) as nat);
        lemma_levels(high, (height(left) - 1) as nat);
    }
    lemma_rotation_shape(t, i, low, high, t2);
}

/// What a rotation to the left does.
pub proof fn lemma_rotate_left(heap1: Heap, t: Tree, i: int, heap2: Heap)
    requires
        sound(heap1, t),
        shape(t),
        0 <= i < t.children.len() - 1,
        t.children[i].keys.len() < CAPACITY,
        t.children[i + 1].keys.len() >= B,
        ({
            let left = t.children[i];
            let right = t.children[i + 1];
            heap2 == heap1.insert(
                left.addr,
                Some(left.with_last(t.keys[i], t.values[i], right).node()),
            ).insert(right.addr, Some(right.without_first().node())).insert(
                t.addr,
                Some(t.rotate_left(i).node()),
            )
        }),
    ensures
        sound(heap2, t.rotate_left(i)),
        moved(heap1, t, heap2, t.rotate_left(i)),
        shape(t.rotate_left(i)),
        height(t.rotate_left(i)) == height(t),
        entries(t.rotate_left(i)) == entries(t),
{
    let left = t.children[i];
    let right = t.children[i + 1];
    let low = left.with_last(t.keys[i], t.values[i], right);
    let high = right.without_first();
    let t2 = t.rotate_left(i);
    assert(shape(t.children[i]) && shape(t.children[i + 1]));
    lemma_same_kind(t, i, i + 1);
    lemma_rotation_addresses(heap1, t, i);
    // Addresses.
    assert forall|a: Ptr| #[trigger] count(t2, a) == count(t, a) by {
        if left.children.len() > 0 {
            lemma_counts_remove(right.children, 0, a);
            assert(right.children.remove(0) =~= high.children);
            lemma_counts_insert(left.children, left.children.len() as int, right.children[0], a);
            assert(left.children.insert(left.children.len() as int, right.children[0])
                =~= low.children);
        }
        lemma_counts_update(t.children, i, low, a);
        lemma_counts_update(t.children.update(i, low), i + 1, high, a);
    }
    assert(stored(heap2, t2)) by {
        assert forall|k: int| 0 <= k < t2.children.len() implies kept(
            t,
            i,
            i + 1,
            #[trigger] t2.children[k],
        ) || regrouped(heap2, t, t2.children[k]) by {
            if k == i {
                assert(t2.children[k] == low);
                assert forall|l: int| 0 <= l < low.children.len() implies grandchild(
                    t,
                    #[trigger] low.children[l],
                ) by {
                    if l < left.children.len() {
                        assert(low.children[l] == t.children[i].children[l]);
                    } else {
                        assert(low.children[l] == t.children[i + 1].children[0]);
                    }
                }
            } else if k == i + 1 {
                assert(t2.children[k] == high);
                assert forall|l: int| 0 <= l < high.children.len() implies grandchild(
                    t,
                    #[trigger] high.children[l],
                ) by {
                    assert(high.children[l] == t.children[i + 1].children[l + 1]);
                }
            } else {
                assert(t2.children[k] == t.children[k]);
            }
        }
        lemma_regroup(heap1, t, i, i + 1, heap2, t2);
    }
    assert(heap2.dom() =~= heap1.dom());
    assert forall|a: Ptr| #[trigger] heap1.contains_key(a) && count(t, a) == 0 implies heap2[a]
        == heap1[a] by {
        lemma_child_count(t, i, a);
        lemma_child_count(t, i + 1, a);
    }
    lemma_moved_same(heap1, t, heap2, t2);
    lemma_rotate_left_shape(t, i);
    lemma_rotate_left_entries(t, i);
}

/// A rotation to the left keeps the entries of a tree.
pub proof fn lemma_rotate_left_entries(t: Tree, i: int)
    requires
        shape(t),
        0 <= i < t.children.len() - 1,
        t.children[i + 1].keys.len() >= B,
    ensures
        entries(t.rotate_left(i)) == entries(t),
{
    let left = t.children[i];
    let right = t.children[i + 1];
    let low = left.with_last(t.keys[i], t.values[i], right);
    let high = right.without_first();
    let t2 = t.rotate_left(i);
    assert(shape(t.children[i]) && shape(t.children[i + 1]));
    lemma_same_kind(t, i, i + 1);
    let x = seps(right)[0];
    let between = subs(right)[0];
    assert(subs(right) =~= seq![between] + subs(high));
    assert(seps(right) =~= seq![] + seq![x] + seps(high));
    lemma_flat_join(seq![between], seq![], x, subs(high), seps(high));
    lemma_flat_single(between);
    assert(subs(low) =~= subs(left) + seq![between]);
    assert(seps(low) =~= seps(left) + seq![seps(t)[i]] + seq![]);
    lemma_flat_join(subs(left), seps(left), seps(t)[i], seq![between], seq![]);
    assert(entries(low) + seq![x] + entries(high) =~= entries(left) + seq![seps(t)[i]] + entries(
        right,
    ));
    lemma_rotation_entries(t, i, low, x, high, t2);
}

/// A rotation to the left keeps the shape of a tree.
pub proof fn lemma_rotate_left_shape(t: Tree, i: int)
    requires
        shape(t),
        0 <= i < t.children.len() - 1,
        t.children[i].keys.len() < CAPACITY,
        t.children[i + 1].keys.len() >= B,
    ensures
        shape(t.rotate_left(i)),
        height(t.rotate_left(i)) == height(t),
{
    let left = t.children[i];
    let right = t.children[i + 1];
    let low = left.with_last(t.keys[i], t.values[i], right);
    let high = right.without_first();
    let t2 = t.rotate_left(i);
    assert(shape(t.children[i]) && shape(t.children[i + 1]));
    lemma_same_kind(t, i, i + 1);
    if left.children.len() > 0 {
        assert forall|l: int| 0 <= l < low.children.len() implies height(
            #[trigger] low.children[l],
        ) == height(left) - 1 && shape(low.children[l]) && low.children[l].keys.len() >= B - 1 by {
            if l < left.children.len() {
                assert(low.children[l] == left.children[l]);
            } else {
                assert(low.children[l] == right.children[0]);
            }
        }
        assert forall|l: int| 0 <= l < high.children.len() implies height(
            #[trigger] high.children[l],
        ) == height(left) - 1 && shape(high.children[l]) && high.children[l].keys.len() >= B
            - 1 by {
            assert(high.children[l] == right.children[l + 1]);
        }
        lemma_levels(low, (height(left) - 1) as nat);
        lemma_levels(high, (height(left) - 1) as nat);
    }
    lemma_rotation_shape(t, i, low, high, t2);
}

proof fn lemma_flat_single(sub: Seq<Entry>)
    ensures
        flat(seq![sub], seq![]) == sub,
{
    assert(prefix(seq![sub], seq![], 0) =~= seq![]);
    assert(flat(seq![sub], seq![]) =~= sub);
}

proof fn lemma_rotation_addresses(heap: Heap, t: Tree, i: int)
    requires
        sound(heap, t),
        0 <= i < t.children.len() - 1,
    ensures
        heap.contains_key(t.addr),
        heap.contains_key(t.children[i].addr),
        heap.contains_key(t.children[i + 1].addr),
        t.addr != t.children[i].addr,
        t.addr != t.children[i + 1].addr,
        t.children[i].addr != t.children[i + 1].addr,
        count(t, t.addr) == 1,
        count(t, t.children[i].addr) == 1,
        count(t, t.children[i + 1].addr) == 1,
{
    let left = t.children[i];
    let right = t.children[i + 1];
    lemma_root_counted(t);
    lemma_root_counted(left);
    lemma_root_counted(right);
    lemma_child_distinct(t, i);
    lemma_child_distinct(t, i + 1);
    lemma_children_apart(t, i, i + 1, left.addr);
    lemma_children_apart(t, i, i + 1, right.addr);
    assert(count(t, t.addr) <= 1);
    assert(count(t, left.addr) <= 1);
    assert(count(t, right.addr) <= 1);
    lemma_stored_allocated(heap, t, t.addr);
    lemma_stored_allocated(heap, t, left.addr);
    lemma_stored_allocated(heap, t, right.addr);
}

proof fn lemma_rotation_shape(t: Tree, i: int, low: Tree, high: Tree, t2: Tree)
    requires
        shape(t),
        0 <= i < t.children.len() - 1,
        shape(low),
        shape(high),
        height(low) == height(t.children[i]),
        height(high) == height(t.children[i]),
        low.keys.len() >= B - 1,
        high.keys.len() >= B - 1,
        t2.keys.len() == t.keys.len(),
        t2.values.len() == t.keys.len(),
        t2.children == t.children.update(i, low).update(i + 1, high),
    ensures
        shape(t2),
        height(t2) == height(t),
{
    assert forall|k: int| 0 <= k < t2.children.len() implies height(#[trigger] t2.children[k])
        == height(t) - 1 && shape(t2.children[k]) && t2.children[k].keys.len() >= B - 1 by {
        assert(shape(t.children[k]));
        assert(shape(t.children[i]));
    }
    lemma_levels(t2, (height(t) - 1) as nat);
}

proof fn lemma_rotation_entries(t: Tree, i: int, low: Tree, x: Entry, high: Tree, t2: Tree)
    requires
        shape(t),
        0 <= i < t.children.len() - 1,
        t2.keys == t.keys.update(i, x.0),
        t2.values == t.values.update(i, x.1),
        t2.children == t.children.update(i, low).update(i + 1, high),
        entries(low) + seq![x] + entries(high) == entries(t.children[i]) + seq![seps(t)[i]]
            + entries(t.children[i + 1]),
    ensures
        entries(t2) == entries(t),
{
    assert(subs(t2) =~= subs(t).update(i, entries(low)).update(i + 1, entries(high)));
    assert(seps(t2) =~= seps(t).update(i, x));
    lemma_flat_rotate(subs(t), seps(t), i, entries(low), x, entries(high));
    lemma_flat_pair(subs(t), seps(t), i);
}

// Merging.

/// What merging two children does.
pub proof fn lemma_merge(heap1: Heap, t: Tree, i: int, addr: Ptr, heap2: Heap)
    requires
        sound(heap1, t),
        shape(t),
        0 <= i < t.children.len() - 1,
        t.children[i].keys.len() + t.children[i + 1].keys.len() < CAPACITY,
        addr == t.children[i].addr || addr == t.children[i + 1].addr,
        ({
            let left = t.children[i];
            let right = t.children[i + 1];
            let source = if addr == left.addr {
                right.addr
            } else {
                left.addr
            };
            heap2 == heap1.insert(
                addr,
                Some(left.joined(t.keys[i], t.values[i], right, addr).node()),
            ).remove(source).insert(t.addr, Some(t.merge(i, addr).node()))
        }),
    ensures
        sound(heap2, t.merge(i, addr)),
        moved(heap1, t, heap2, t.merge(i, addr)),
        shape(t.merge(i, addr)),
        height(t.merge(i, addr)) == height(t),
        entries(t.merge(i, addr)) == entries(t),
{
    lemma_merge_stored(heap1, t, i, addr, heap2);
    lemma_merge_shape(t, i, addr);
    lemma_merge_entries(t, i, addr);
}

proof fn lemma_merge_stored(heap1: Heap, t: Tree, i: int, addr: Ptr, heap2: Heap)
    requires
        sound(heap1, t),
        shape(t),
        0 <= i < t.children.len() - 1,
        t.children[i].keys.len() + t.children[i + 1].keys.len() < CAPACITY,
        addr == t.children[i].addr || addr == t.children[i + 1].addr,
        ({
            let left = t.children[i];
            let right = t.children[i + 1];
            let source = if addr == left.addr {
                right.addr
            } else {
                left.addr
            };
            heap2 == heap1.insert(
                addr,
                Some(left.joined(t.keys[i], t.values[i], right, addr).node()),
            ).remove(source).insert(t.addr, Some(t.merge(i, addr).node()))
        }),
    ensures
        sound(heap2, t.merge(i, addr)),
        moved(heap1, t, heap2, t.merge(i, addr)),
{
    let left = t.children[i];
    let right = t.children[i + 1];
    let source = if addr == left.addr {
        right.addr
    } else {
        left.addr
    };
    let merged = left.joined(t.keys[i], t.values[i], right, addr);
    let t2 = t.merge(i, addr);
    assert(shape(t.children[i]) && shape(t.children[i + 1]));
    lemma_same_kind(t, i, i + 1);
    lemma_rotation_addresses(heap1, t, i);
    assert forall|a: Ptr| #[trigger] count(t2, a) + (if a == source {
        1nat
    } else {
        0
    }) == count(t, a) by {
        lemma_counts_concat(left.children, right.children, a);
        lemma_counts_update(t.children, i, merged, a);
        lemma_counts_remove(t.children.update(i, merged), i + 1, a);
    }
    assert(stored(heap2, t2)) by {
        assert forall|k: int| 0 <= k < t2.children.len() implies kept(
            t,
            i,
            i + 1,
            #[trigger] t2.children[k],
        ) || regrouped(heap2, t, t2.children[k]) by {
            if k == i {
                assert(t2.children[k] == merged);
                assert forall|l: int| 0 <= l < merged.children.len() implies grandchild(
                    t,
                    #[trigger] merged.children[l],
                ) by {
                    if l < left.children.len() {
                        assert(merged.children[l] == t.children[i].children[l]);
                    } else {
                        assert(merged.children[l] == t.children[i + 1].children[l
                            - left.children.len()]);
                    }
                }
            } else if k < i {
                assert(t2.children[k] == t.children[k]);
            } else {
                assert(t2.children[k] == t.children[k + 1]);
            }
        }
        lemma_regroup(heap1, t, i, i + 1, heap2, t2);
    }
    assert forall|a: Ptr| #[trigger] count(t2, a) <= 1 by {
        assert(count(t, a) <= 1);
    }
    assert(moved(heap1, t, heap2, t2)) by {
        assert forall|a: Ptr| #[trigger] heap2.contains_key(a) <==> (heap1.contains_key(a) && count(
            t,
            a,
        ) == 0) || count(t2, a) > 0 by {
            assert(count(t2, a) <= count(t, a));
            assert(count(t2, source) == 0);
            if count(t, a) > 0 {
                lemma_stored_allocated(heap1, t, a);
            }
        }
        assert forall|a: Ptr| #[trigger] heap1.contains_key(a) && count(t, a) == 0 implies heap2[a]
            == heap1[a] && count(t2, a) == 0 by {
            assert(count(t2, a) <= count(t, a));
        }
    }
}

/// Merging two children keeps the shape of a tree.
pub proof fn lemma_merge_shape(t: Tree, i: int, addr: Ptr)
    requires
        shape(t),
        0 <= i < t.children.len() - 1,
        t.children[i].keys.len() + t.children[i + 1].keys.len() < CAPACITY,
    ensures
        shape(t.merge(i, addr)),
        height(t.merge(i, addr)) == height(t),
{
    let left = t.children[i];
    let right = t.children[i + 1];
    let merged = left.joined(t.keys[i], t.values[i], right, addr);
    let t2 = t.merge(i, addr);
    assert(shape(t.children[i]) && shape(t.children[i + 1]));
    lemma_same_kind(t, i, i + 1);
    assert(shape(merged) && height(merged) == height(left)) by {
        if left.children.len() > 0 {
            assert forall|l: int| 0 <= l < merged.children.len() implies height(
                #[trigger] merged.children[l],
            ) == height(left) - 1 && shape(merged.children[l]) && merged.children[l].keys.len()
                >= B - 1 by {
                if l < left.children.len() {
                    assert(merged.children[l] == left.children[l]);
                } else {
                    assert(merged.children[l] == right.children[l - left.children.len()]);
                }
            }
            lemma_levels(merged, (height(left) - 1) as nat);
        }
    }
    assert forall|k: int| 0 <= k < t2.children.len() implies height(#[trigger] t2.children[k])
        == height(t) - 1 && shape(t2.children[k]) && t2.children[k].keys.len() >= B - 1 by {
        if k < i {
            assert(t2.children[k] == t.children[k]);
        } else if k > i {
            assert(t2.children[k] == t.children[k + 1]);
        }
    }
    lemma_levels(t2, (height(t) - 1) as nat);
}

/// Merging two children keeps the entries of a tree.
pub proof fn lemma_merge_entries(t: Tree, i: int, addr: Ptr)
    requires
        shape(t),
        0 <= i < t.children.len() - 1,
        t.children[i].keys.len() + t.children[i + 1].keys.len() < CAPACITY,
    ensures
        entries(t.merge(i, addr)) == entries(t),
{
    let left = t.children[i];
    let right = t.children[i + 1];
    let merged = left.joined(t.keys[i], t.values[i], right, addr);
    let t2 = t.merge(i, addr);
    assert(shape(t.children[i]) && shape(t.children[i + 1]));
    lemma_same_kind(t, i, i + 1);
    assert(subs(merged) =~= subs(left) + subs(right));
    assert(seps(merged) =~= seps(left) + seq![seps(t)[i]] + seps(right));
    lemma_flat_join(subs(left), seps(left), seps(t)[i], subs(right), seps(right));
    assert(subs(t2) =~= subs(t).update(
        i,
        entries(left) + seq![seps(t)[i]] + entries(right),
    ).remove(i + 1));
    assert(seps(t2) =~= seps(t).remove(i));
    lemma_flat_merge(subs(t), seps(t), i);
}

/// A root without entries is replaced by its only child.
pub proof fn lemma_collapse(heap1: Heap, t: Tree, heap2: Heap)
    requires
        sound(heap1, t),
        shape(t),
        t.keys.len() == 0,
        t.children.len() == 1,
        heap2 == heap1.remove(t.addr),
    ensures
        sound(heap2, t.children[0]),
        moved(heap1, t, heap2, t.children[0]),
        shape(t.children[0]),
        height(t.children[0]) < height(t),
        entries(t.children[0]) == entries(t),
        t.children[0].addr != t.addr,
{
    let child = t.children[0];
    lemma_child_distinct(t, 0);
    lemma_root_counted(child);
    assert(stored(heap1, t.children[0]));
    assert forall|a: Ptr| #[trigger] count(t, a) == count(child, a) + (if a == t.addr {
        1nat
    } else {
        0
    }) by {
        lemma_counts_remove(t.children, 0, a);
        assert(t.children.remove(0) =~= Seq::empty());
    }
    assert forall|a: Ptr| #[trigger] count(child, a) > 0 implies heap2.contains_key(a) && heap2[a]
        == heap1[a] by {
        lemma_stored_allocated(heap1, child, a);
    }
    lemma_stored_frame(heap1, heap2, child);
    assert forall|a: Ptr| #[trigger] heap2.contains_key(a) <==> (heap1.contains_key(a) && count(
        t,
        a,
    ) == 0) || count(child, a) > 0 by {
        assert(count(t, a) == count(child, a) + (if a == t.addr {
            1nat
        } else {
            0
        }));
        if count(t, a) > 0 {
            lemma_stored_allocated(heap1, t, a);
        }
    }
    assert forall|a: Ptr| #[trigger] heap1.contains_key(a) && count(t, a) == 0 implies heap2[a]
        == heap1[a] && count(child, a) == 0 by {
        lemma_child_count(t, 0, a);
    }
    assert(subs(t) =~= seq![entries(child)]);
    assert(seps(t) =~= seq![]);
    lemma_flat_single(entries(child));
}

/// The two neighbours that were merged are one child.
pub proof fn lemma_merged_child(t: Tree, i: int, addr: Ptr)
    requires
        shape(t),
        0 <= i < t.children.len() - 1,
    ensures
        ({
            let child = t.merge(i, addr).children[i];
            &&& child.addr == addr
            &&& child.keys.len() >= B
        }),
        t.merge(i, addr).keys == t.keys.remove(i),
        t.merge(i, addr).children.len() == t.children.len() - 1,
{
    assert(shape(t.children[i]) && shape(t.children[i + 1]));
}

/// A key that goes to the right one of two neighbours still goes there after a rotation to the
/// right.
pub proof fn lemma_rotated_right(t: Tree, i: int, key: Seq<u8>)
    requires
        shape(t),
        sorted(entries(t)),
        0 <= i < t.children.len() - 1,
        t.children[i].keys.len() > 0,
        gap_at(t.keys, key, i + 1),
    ensures
        gap_at(t.rotate_right(i).keys, key, i + 1),
        t.rotate_right(i).children[i + 1].addr == t.children[i + 1].addr,
        t.rotate_right(i).children[i + 1].keys.len() == t.children[i + 1].keys.len() + 1,
{
    let up = t.children[i].keys.last();
    lemma_keys_around(t, i);
    assert(precedes(t.keys[i], key));
    lemma_transitive(up, t.keys[i], key);
    let keys = t.rotate_right(i).keys;
    assert forall|k: int| 0 <= k < i + 1 implies precedes(#[trigger] keys[k], key) by {
        if k != i {
            assert(precedes(t.keys[k], key));
        }
    }
    assert forall|k: int| i + 1 <= k < keys.len() implies precedes(key, #[trigger] keys[k]) by {
        assert(precedes(key, t.keys[k]));
    }
}

/// A key that goes to the left one of two neighbours still goes there after a rotation to the
/// left.
pub proof fn lemma_rotated_left(t: Tree, i: int, key: Seq<u8>)
    requires
        shape(t),
        sorted(entries(t)),
        0 <= i < t.children.len() - 1,
        t.children[i + 1].keys.len() > 0,
        gap_at(t.keys, key, i),
    ensures
        gap_at(t.rotate_left(i).keys, key, i),
        t.rotate_left(i).children[i].addr == t.children[i].addr,
        t.rotate_left(i).children[i].keys.len() == t.children[i].keys.len() + 1,
{
    let up = t.children[i + 1].keys[0];
    lemma_keys_around(t, i);
    assert(precedes(key, t.keys[i]));
    lemma_transitive(key, t.keys[i], up);
    let keys = t.rotate_left(i).keys;
    assert forall|k: int| 0 <= k < i implies precedes(#[trigger] keys[k], key) by {
        assert(precedes(t.keys[k], key));
    }
    assert forall|k: int| i <= k < keys.len() implies precedes(key, #[trigger] keys[k]) by {
        if k != i {
            assert(precedes(key, t.keys[k]));
        }
    }
}

/// Two neighbours and their parent are in different chunks.
pub proof fn lemma_neighbours_apart(t: Tree, i: int)
    requires
        distinct(t),
        0 <= i < t.children.len() - 1,
    ensures
        t.addr != t.children[i].addr,
        t.addr != t.children[i + 1].addr,
        t.children[i].addr != t.children[i + 1].addr,
{
    lemma_child_distinct(t, i);
    lemma_child_distinct(t, i + 1);
    assert(count(t.children[i], t.children[i].addr) > 0);
    assert(count(t.children[i + 1], t.children[i + 1].addr) > 0);
    lemma_children_apart(t, i, i + 1, t.children[i].addr);
    assert(count(t, t.children[i].addr) <= 1);
}

/// A new root without entries, above the root of a tree.
pub proof fn lemma_new_root(heap1: Heap, t: Tree, heap2: Heap, t1: Tree)
    requires
        sound(heap1, t),
        shape(t),
        t.keys.len() >= B - 1,
        t1.keys.len() == 0,
        t1.values.len() == 0,
        t1.children == seq![t],
        heap2.contains_key(t1.addr),
        heap2[t1.addr] == Some(t1.node()),
        !heap1.contains_key(t1.addr),
        heap2.remove(t1.addr) == heap1,
    ensures
        sound(heap2, t1),
        shape(t1),
        height(t1) == height(t) + 1,
        entries(t1) == entries(t),
        forall|a: Ptr| #[trigger] count(t1, a) > 0 <==> a == t1.addr || count(t, a) > 0,
{
    assert(t1.children.subrange(0, 0) =~= Seq::empty());
    assert forall|a: Ptr| #[trigger] count(t1, a) == count(t, a) + (if a == t1.addr {
        1nat
    } else {
        0
    }) by {
        assert(counts(t1.children, a) == counts(t1.children.subrange(0, 0), a) + count(t, a));
    }
    assert forall|a: Ptr| #[trigger] count(t, a) > 0 implies heap2.contains_key(a) && heap2[a]
        == heap1[a] by {
        lemma_stored_allocated(heap1, t, a);
        assert(heap2.remove(t1.addr).contains_key(a));
    }
    lemma_stored_frame(heap1, heap2, t);
    assert forall|a: Ptr| #[trigger] count(t1, a) <= 1 by {
        assert(count(t, a) <= 1);
        if count(t, t1.addr) > 0 {
            lemma_stored_allocated(heap1, t, t1.addr);
        }
    }
    assert(stored(heap2, t1));
    lemma_collapse(heap2, t1, heap1);
}

/// Whether the children of a tree are stored, and no address occurs twice in the tree.
pub open spec fn sound_below(heap: Heap, t: Tree) -> bool {
    &&& distinct(t)
    &&& forall|i: int| 0 <= i < t.children.len() ==> stored(heap, #[trigger] t.children[i])
}

/// A tree whose children are stored is stored once its root is.
pub proof fn lemma_root_stored(heap1: Heap, t: Tree, heap2: Heap)
    requires
        heap1.contains_key(t.addr),
        sound_below(heap1, t),
        heap2 == heap1.insert(t.addr, Some(t.node())),
    ensures
        sound(heap2, t),
        moved(heap1, t, heap2, t),
{
    assert forall|i: int| 0 <= i < t.children.len() implies stored(
        heap2,
        #[trigger] t.children[i],
    ) by {
        let child = t.children[i];
        lemma_child_distinct(t, i);
        assert forall|a: Ptr| #[trigger] count(child, a) > 0 implies heap2.contains_key(a)
            && heap2[a] == heap1[a] by {
            lemma_stored_allocated(heap1, child, a);
        }
        lemma_stored_frame(heap1, heap2, child);
    }
    assert(stored(heap2, t));
    assert forall|a: Ptr| #[trigger] heap2.contains_key(a) <==> (heap1.contains_key(a) && count(
        t,
        a,
    ) == 0) || count(t, a) > 0 by {
        if count(t, a) > 0 {
            lemma_stored_allocated(heap2, t, a);
        }
    }
}

} // verus!
