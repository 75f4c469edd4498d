//! The tree that a map forms in memory, as a mathematical value, and the steps by which it is
//! rebuilt.
use crate::entries::{
    del, find, flat, keys_of, lemma_flat_at, lemma_flat_pair, lemma_flat_rotate,
    lemma_flat_split, lemma_gap_operations, lemma_hit, lemma_prefix_same, lemma_separator_in_prefix,
    lemma_separator_operations, lemma_separators_ascending, lemma_sorted_part, lemma_suffix_same,
    prefix, put, sorted, suffix, Entry,
};
use crate::node::{NodeView, Ptr, B, CAPACITY};
use crate::order::{ascending, gap_at, precedes};
use vstd::prelude::*;

verus! {

/// The nodes that are stored at the addresses of all allocated chunks. A chunk that has just been
/// allocated need not hold a node.
pub type Heap = Map<Ptr, Option<NodeView>>;

/// A node with its subtrees.
pub struct Tree {
    pub addr: Ptr,
    pub keys: Seq<Seq<u8>>,
    pub values: Seq<Seq<u8>>,
    pub children: Seq<Tree>,
}

/// The addresses of the roots of the trees.
pub open spec fn tops(trees: Seq<Tree>) -> Seq<Ptr> {
    Seq::new(trees.len(), |i: int| trees[i].addr)
}

/// The entries in the root of a tree.
pub open spec fn seps(t: Tree) -> Seq<Entry> {
    Seq::new(t.keys.len(), |i: int| (t.keys[i], t.values[i]))
}

/// The entries in each of the subtrees of a tree. Those of a leaf are empty.
pub open spec fn subs(t: Tree) -> Seq<Seq<Entry>>
    decreases t, 0nat,
{
    if t.children.len() == 0 {
        Seq::new(t.keys.len() + 1, |i: int| seq![])
    } else {
        Seq::new(
            t.children.len(),
            |i: int|
                if 0 <= i < t.children.len() {
                    entries(t.children[i])
                } else {
                    seq![]
                },
        )
    }
}

/// All entries of a tree, from left to right.
pub open spec fn entries(t: Tree) -> Seq<Entry>
    decreases t, 1nat,
{
    flat(subs(t), seps(t))
}

/// The number of nodes of a tree at the address `a`.
pub open spec fn count(t: Tree, a: Ptr) -> nat
    decreases t,
{
    (if t.addr == a {
        1nat
    } else {
        0
    }) + counts(t.children, a)
}

/// The number of nodes of some trees at the address `a`.
pub open spec fn counts(trees: Seq<Tree>, a: Ptr) -> nat
    decreases trees,
{
    if trees.len() == 0 {
        0
    } else {
        counts(trees.subrange(0, trees.len() - 1), a) + count(trees[trees.len() - 1], a)
    }
}

/// The number of steps from the root of a tree down to its leftmost leaf.
pub open spec fn height(t: Tree) -> nat
    decreases t,
{
    if t.children.len() == 0 {
        0
    } else {
        1 + height(t.children[0])
    }
}

/// Whether a tree is a B-tree but for the number of entries in its root: no node has too many
/// entries, none but the root too few, and all leaves are at the same depth.
pub open spec fn shape(t: Tree) -> bool
    decreases t,
{
    &&& t.keys.len() == t.values.len() <= CAPACITY
    &&& t.children.len() == 0 || t.children.len() == t.keys.len() + 1
    &&& forall|i: int|
        0 <= i < t.children.len() ==> {
            &&& shape(#[trigger] t.children[i])
            &&& t.children[i].keys.len() >= B - 1
            &&& height(t.children[i]) + 1 == height(t)
        }
}

impl Tree {
    /// What the root holds.
    pub open spec fn node(self) -> NodeView {
        NodeView { keys: self.keys, values: self.values, children: tops(self.children) }
    }

    /// The tree with another tree as its `i`-th subtree.
    pub open spec fn with_child(self, i: int, child: Tree) -> Tree {
        Tree { children: self.children.update(i, child), ..self }
    }
}

/// Whether no two nodes of a tree have the same address.
pub open spec fn distinct(t: Tree) -> bool {
    forall|a: Ptr| #[trigger] count(t, a) <= 1
}

/// Whether each node of a tree is stored.
pub open spec fn stored(heap: Heap, t: Tree) -> bool
    decreases t,
{
    &&& heap.contains_key(t.addr)
    &&& heap[t.addr] == Some(t.node())
    &&& forall|i: int| 0 <= i < t.children.len() ==> stored(heap, #[trigger] t.children[i])
}

/// Whether a tree is stored, each node in a chunk of its own.
pub open spec fn sound(heap: Heap, t: Tree) -> bool {
    stored(heap, t) && distinct(t)
}

/// Whether the only change is that the chunks of one tree have become those of another.
pub open spec fn moved(heap1: Heap, t1: Tree, heap2: Heap, t2: Tree) -> bool {
    &&& forall|a: Ptr| #[trigger]
        heap2.contains_key(a) <==> (heap1.contains_key(a) && count(t1, a) == 0) || count(t2, a) > 0
    &&& forall|a: Ptr| #[trigger]
        heap1.contains_key(a) && count(t1, a) == 0 ==> heap2[a] == heap1[a] && count(t2, a) == 0
}

// Counting.

proof fn lemma_counts_push(trees: Seq<Tree>, t: Tree, a: Ptr)
    ensures
        counts(trees.push(t), a) == counts(trees, a) + count(t, a),
{
    assert(trees.push(t).subrange(0, trees.len() as int) =~= trees);
}

pub proof fn lemma_counts_concat(left: Seq<Tree>, right: Seq<Tree>, a: Ptr)
    ensures
        counts(left + right, a) == counts(left, a) + counts(right, a),
    decreases right.len(),
{
    if right.len() == 0 {
        assert(left + right =~= left);
    } else {
        let rest = right.subrange(0, right.len() - 1);
        lemma_counts_concat(left, rest, a);
        assert(left + right =~= (left + rest).push(right.last()));
        lemma_counts_push(left + rest, right.last(), a);
    }
}

proof fn lemma_counts_one(t: Tree, a: Ptr)
    ensures
        counts(seq![t], a) == count(t, a),
{
    assert(seq![t] =~= Seq::<Tree>::empty().push(t));
    lemma_counts_push(Seq::empty(), t, a);
}

pub proof fn lemma_counts_insert(trees: Seq<Tree>, i: int, t: Tree, a: Ptr)
    requires
        0 <= i <= trees.len(),
    ensures
        counts(trees.insert(i, t), a) == counts(trees, a) + count(t, a),
{
    let left = trees.take(i);
    let right = trees.skip(i);
    assert(trees =~= left + right);
    assert(trees.insert(i, t) =~= left + seq![t] + right);
    lemma_counts_concat(left, right, a);
    lemma_counts_concat(left + seq![t], right, a);
    lemma_counts_concat(left, seq![t], a);
    lemma_counts_one(t, a);
}

pub proof fn lemma_counts_remove(trees: Seq<Tree>, i: int, a: Ptr)
    requires
        0 <= i < trees.len(),
    ensures
        counts(trees, a) == counts(trees.remove(i), a) + count(trees[i], a),
{
    assert(trees =~= trees.remove(i).insert(i, trees[i]));
    lemma_counts_insert(trees.remove(i), i, trees[i], a);
}

pub proof fn lemma_counts_update(trees: Seq<Tree>, i: int, t: Tree, a: Ptr)
    requires
        0 <= i < trees.len(),
    ensures
        counts(trees.update(i, t), a) + count(trees[i], a) == counts(trees, a) + count(t, a),
{
    lemma_counts_remove(trees, i, a);
    lemma_counts_remove(trees.update(i, t), i, a);
    assert(trees.update(i, t).remove(i) =~= trees.remove(i));
}

/// An address that occurs in a subtree occurs in the tree.
pub proof fn lemma_child_count(t: Tree, i: int, a: Ptr)
    requires
        0 <= i < t.children.len(),
    ensures
        count(t.children[i], a) <= counts(t.children, a) <= count(t, a),
{
    lemma_counts_remove(t.children, i, a);
}

/// No address occurs in two subtrees of a tree without repetitions.
pub proof fn lemma_children_apart(t: Tree, i: int, j: int, a: Ptr)
    requires
        0 <= i < t.children.len(),
        0 <= j < t.children.len(),
        i != j,
    ensures
        count(t.children[i], a) + count(t.children[j], a) <= counts(t.children, a) <= count(t, a),
{
    lemma_counts_remove(t.children, i, a);
    let k = if j < i {
        j
    } else {
        j - 1
    };
    assert(t.children.remove(i)[k] == t.children[j]);
    lemma_counts_remove(t.children.remove(i), k, a);
}

/// Subtrees of a tree without repetitions have none.
pub proof fn lemma_child_distinct(t: Tree, i: int)
    requires
        distinct(t),
        0 <= i < t.children.len(),
    ensures
        distinct(t.children[i]),
        count(t.children[i], t.addr) == 0,
{
    assert forall|a: Ptr| #[trigger] count(t.children[i], a) <= 1 by {
        lemma_child_count(t, i, a);
        assert(count(t, a) <= 1);
    }
    lemma_child_count(t, i, t.addr);
    assert(count(t, t.addr) <= 1);
}

// Trees in memory.

/// A tree stays stored as long as its own chunks are left alone.
pub proof fn lemma_stored_frame(heap1: Heap, heap2: Heap, t: Tree)
    requires
        stored(heap1, t),
        forall|a: Ptr| #[trigger]
            count(t, a) > 0 ==> heap2.contains_key(a) && heap2[a] == heap1[a],
    ensures
        stored(heap2, t),
    decreases t,
{
    assert(count(t, t.addr) > 0);
    assert forall|i: int| 0 <= i < t.children.len() implies stored(
        heap2,
        #[trigger] t.children[i],
    ) by {
        assert forall|a: Ptr| #[trigger] count(t.children[i], a) > 0 implies heap2.contains_key(a)
            && heap2[a] == heap1[a] by {
            lemma_child_count(t, i, a);
            assert(count(t, a) > 0);
        }
        lemma_stored_frame(heap1, heap2, t.children[i]);
    }
}

/// The nodes of a stored tree are in allocated chunks.
pub proof fn lemma_stored_allocated(heap: Heap, t: Tree, a: Ptr)
    requires
        stored(heap, t),
        count(t, a) > 0,
    ensures
        heap.contains_key(a),
    decreases t,
{
    if a != t.addr {
        let i = lemma_counts_witness(t.children, a);
        lemma_stored_allocated(heap, t.children[i], a);
    }
}

proof fn lemma_counts_witness(trees: Seq<Tree>, a: Ptr) -> (i: int)
    requires
        counts(trees, a) > 0,
    ensures
        0 <= i < trees.len(),
        count(trees[i], a) > 0,
    decreases trees.len(),
{
    if count(trees[trees.len() - 1], a) > 0 {
        trees.len() - 1
    } else {
        lemma_counts_witness(trees.subrange(0, trees.len() - 1), a)
    }
}

/// What is stored determines the tree.
pub proof fn lemma_stored_unique(heap1: Heap, t1: Tree, heap2: Heap, t2: Tree)
    requires
        stored(heap1, t1),
        stored(heap2, t2),
        t1.addr == t2.addr,
        forall|a: Ptr| #[trigger]
            heap1.contains_key(a) && heap2.contains_key(a) ==> heap1[a] == heap2[a],
    ensures
        t1 == t2,
    decreases t1,
{
    assert(heap1.contains_key(t1.addr) && heap2.contains_key(t1.addr));
    assert(t1.node() == t2.node());
    assert(t1.children.len() == tops(t1.children).len());
    assert(t2.children.len() == tops(t2.children).len());
    assert forall|i: int| 0 <= i < t1.children.len() implies t1.children[i] == t2.children[i] by {
        assert(tops(t1.children)[i] == tops(t2.children)[i]);
        lemma_stored_unique(heap1, t1.children[i], heap2, t2.children[i]);
    }
    assert(t1.children =~= t2.children);
}

/// Changes follow one another.
pub proof fn lemma_moved_transitive(
    heap1: Heap,
    t1: Tree,
    heap2: Heap,
    t2: Tree,
    heap3: Heap,
    t3: Tree,
)
    requires
        moved(heap1, t1, heap2, t2),
        moved(heap2, t2, heap3, t3),
        stored(heap1, t1),
    ensures
        moved(heap1, t1, heap3, t3),
{
    assert forall|a: Ptr| #[trigger] heap1.contains_key(a) && count(t1, a) == 0 implies heap3[a]
        == heap1[a] && count(t3, a) == 0 by {
        assert(heap2.contains_key(a));
    }
    assert forall|a: Ptr| #[trigger] heap3.contains_key(a) <==> (heap1.contains_key(a) && count(
        t1,
        a,
    ) == 0) || count(t3, a) > 0 by {
        assert(heap2.contains_key(a) <==> (heap1.contains_key(a) && count(t1, a) == 0) || count(
            t2,
            a,
        ) > 0);
    }
}

pub proof fn lemma_unmoved(heap: Heap, t: Tree)
    requires
        stored(heap, t),
    ensures
        moved(heap, t, heap, t),
{
    assert forall|a: Ptr| #[trigger] heap.contains_key(a) <==> (heap.contains_key(a) && count(t, a)
        == 0) || count(t, a) > 0 by {
        if count(t, a) > 0 {
            lemma_stored_allocated(heap, t, a);
        }
    }
}

// Steps.

/// The root of a tree is rewritten, its subtrees are left alone.
pub proof fn lemma_rewrite(heap1: Heap, t1: Tree, heap2: Heap, t2: Tree)
    requires
        sound(heap1, t1),
        t2.addr == t1.addr,
        t2.children == t1.children,
        heap2 == heap1.insert(t1.addr, Some(t2.node())),
    ensures
        sound(heap2, t2),
        moved(heap1, t1, heap2, t2),
{
    assert forall|a: Ptr| #[trigger] count(t2, a) == count(t1, a) by {}
    assert forall|i: int| 0 <= i < t2.children.len() implies stored(
        heap2,
        #[trigger] t2.children[i],
    ) by {
        assert(stored(heap1, t1.children[i]));
        lemma_child_distinct(t1, i);
        assert forall|a: Ptr| #[trigger] count(t1.children[i], a) > 0 implies heap2.contains_key(a)
            && heap2[a] == heap1[a] by {
            lemma_stored_allocated(heap1, t1.children[i], a);
        }
        lemma_stored_frame(heap1, heap2, t1.children[i]);
    }
    assert forall|a: Ptr| #[trigger] heap2.contains_key(a) <==> (heap1.contains_key(a) && count(
        t1,
        a,
    ) == 0) || count(t2, a) > 0 by {
        if count(t1, a) > 0 {
            lemma_stored_allocated(heap1, t1, a);
        }
    }
}

/// A subtree of a tree is changed.
pub proof fn lemma_descend(heap1: Heap, t1: Tree, i: int, heap2: Heap, child: Tree)
    requires
        sound(heap1, t1),
        shape(t1),
        0 <= i < t1.children.len(),
        sound(heap2, child),
        moved(heap1, t1.children[i], heap2, child),
        child.addr == t1.children[i].addr,
        shape(child),
        height(child) == height(t1.children[i]),
        child.keys.len() >= B - 1,
    ensures
        sound(heap2, t1.with_child(i, child)),
        moved(heap1, t1, heap2, t1.with_child(i, child)),
        shape(t1.with_child(i, child)),
        height(t1.with_child(i, child)) == height(t1),
        entries(t1.with_child(i, child)) == flat(subs(t1).update(i, entries(child)), seps(t1)),
{
    let t2 = t1.with_child(i, child);
    let old_child = t1.children[i];
    lemma_child_distinct(t1, i);
    assert(tops(t2.children) =~= tops(t1.children));
    assert forall|a: Ptr| #[trigger] count(t2, a) + count(old_child, a) == count(t1, a) + count(
        child,
        a,
    ) by {
        lemma_counts_update(t1.children, i, child, a);
    }
    assert(stored(heap2, t2)) by {
        lemma_stored_allocated(heap1, t1, t1.addr);
        assert(heap1.contains_key(t1.addr) && count(old_child, t1.addr) == 0);
        assert forall|j: int| 0 <= j < t2.children.len() implies stored(
            heap2,
            #[trigger] t2.children[j],
        ) by {
            if j != i {
                assert(stored(heap1, t1.children[j]));
                assert forall|a: Ptr| #[trigger]
                    count(t1.children[j], a) > 0 implies heap2.contains_key(a) && heap2[a]
                    == heap1[a] by {
                    lemma_children_apart(t1, i, j, a);
                    assert(count(t1, a) <= 1);
                    lemma_stored_allocated(heap1, t1.children[j], a);
                    assert(heap1.contains_key(a) && count(old_child, a) == 0);
                }
                lemma_stored_frame(heap1, heap2, t1.children[j]);
            }
        }
    }
    assert forall|a: Ptr| #[trigger] count(t2, a) <= 1 by {
        assert(count(t2, a) + count(old_child, a) == count(t1, a) + count(child, a));
        assert(count(t1, a) <= 1);
        assert(count(child, a) <= 1);
        lemma_child_count(t1, i, a);
        if count(t1, a) > 0 && count(old_child, a) == 0 {
            lemma_stored_allocated(heap1, t1, a);
            assert(heap1.contains_key(a) && count(old_child, a) == 0);
        }
    }
    assert forall|a: Ptr| #[trigger] heap2.contains_key(a) <==> (heap1.contains_key(a) && count(
        t1,
        a,
    ) == 0) || count(t2, a) > 0 by {
        assert(count(t2, a) + count(old_child, a) == count(t1, a) + count(child, a));
        lemma_child_count(t1, i, a);
        lemma_child_count(t2, i, a);
        if count(t1, a) > 0 {
            lemma_stored_allocated(heap1, t1, a);
        }
    }
    assert forall|a: Ptr| #[trigger] heap1.contains_key(a) && count(t1, a) == 0 implies heap2[a]
        == heap1[a] && count(t2, a) == 0 by {
        assert(count(t2, a) + count(old_child, a) == count(t1, a) + count(child, a));
        lemma_child_count(t1, i, a);
    }
    assert(shape(t2)) by {
        assert(height(t2) == height(t1)) by {
            assert(shape(t1.children[0]));
        }
        assert forall|j: int| 0 <= j < t2.children.len() implies {
            &&& shape(#[trigger] t2.children[j])
            &&& t2.children[j].keys.len() >= B - 1
            &&& height(t2.children[j]) + 1 == height(t2)
        } by {
            assert(shape(t1.children[j]));
            assert(shape(t1.children[i]));
        }
    }
    assert(subs(t2) =~= subs(t1).update(i, entries(child)));
    assert(seps(t2) =~= seps(t1));
}

// Searching.

/// The keys of the root are in order.
pub proof fn lemma_keys_ascending(t: Tree)
    requires
        sorted(entries(t)),
    ensures
        ascending(t.keys),
        keys_of(seps(t)) == t.keys,
{
    assert(keys_of(seps(t)) =~= t.keys);
    lemma_separators_ascending(subs(t), seps(t));
}

/// A subtree is in order if the tree is.
pub proof fn lemma_child_sorted(t: Tree, i: int)
    requires
        shape(t),
        sorted(entries(t)),
        0 <= i < t.children.len(),
    ensures
        sorted(entries(t.children[i])),
{
    lemma_flat_at(subs(t), seps(t), i);
    lemma_sorted_part(prefix(subs(t), seps(t), i), subs(t)[i], suffix(subs(t), seps(t), i));
}

/// An entry of the root is among the entries of the tree.
pub proof fn lemma_root_entry(t: Tree, i: int) -> (k: int)
    requires
        0 <= i < t.keys.len(),
    ensures
        0 <= k < entries(t).len(),
        entries(t)[k] == seps(t)[i],
{
    let n = t.keys.len() as int;
    let k = lemma_separator_in_prefix(subs(t), seps(t), i, n);
    assert(entries(t)[k] == prefix(subs(t), seps(t), n)[k]);
    k
}

/// The keys of two neighbours lie around the key between them.
pub proof fn lemma_keys_around(t: Tree, i: int)
    requires
        shape(t),
        sorted(entries(t)),
        0 <= i < t.children.len() - 1,
    ensures
        forall|j: int|
            0 <= j < t.children[i].keys.len() ==> precedes(
                #[trigger] t.children[i].keys[j],
                t.keys[i],
            ),
        forall|j: int|
            0 <= j < t.children[i + 1].keys.len() ==> precedes(
                t.keys[i],
                #[trigger] t.children[i + 1].keys[j],
            ),
{
    let left = entries(t.children[i]);
    let right = entries(t.children[i + 1]);
    let part = left + seq![seps(t)[i]] + right;
    lemma_flat_pair(subs(t), seps(t), i);
    lemma_sorted_part(prefix(subs(t), seps(t), i), part, suffix(subs(t), seps(t), i + 1));
    assert(part[left.len() as int] == seps(t)[i]);
    assert forall|j: int| 0 <= j < t.children[i].keys.len() implies precedes(
        #[trigger] t.children[i].keys[j],
        t.keys[i],
    ) by {
        let k = lemma_root_entry(t.children[i], j);
        assert(part[k] == left[k]);
    }
    assert forall|j: int| 0 <= j < t.children[i + 1].keys.len() implies precedes(
        t.keys[i],
        #[trigger] t.children[i + 1].keys[j],
    ) by {
        let k = lemma_root_entry(t.children[i + 1], j);
        assert(part[left.len() + 1 + k] == right[k]);
    }
}

/// A key of the root is found.
pub proof fn lemma_key_found(t: Tree, i: int)
    requires
        shape(t),
        sorted(entries(t)),
        0 <= i < t.keys.len(),
    ensures
        find(entries(t), t.keys[i]) == Some(t.values[i]),
{
    lemma_separator_operations(subs(t), seps(t), t.values[i], i);
}

/// A key between two keys of an internal root is looked for in one subtree.
pub proof fn lemma_key_below(t: Tree, key: Seq<u8>, i: int)
    requires
        shape(t),
        t.children.len() > 0,
        sorted(entries(t)),
        gap_at(t.keys, key, i),
    ensures
        sorted(entries(t.children[i])),
        find(entries(t), key) == find(entries(t.children[i]), key),
{
    lemma_keys_ascending(t);
    lemma_gap_operations(subs(t), seps(t), key, key, i);
}

/// A key between two keys of a leaf is not there.
pub proof fn lemma_key_absent(t: Tree, key: Seq<u8>, i: int)
    requires
        shape(t),
        t.children.len() == 0,
        sorted(entries(t)),
        gap_at(t.keys, key, i),
    ensures
        find(entries(t), key) is None,
        del(entries(t), key) == entries(t),
{
    lemma_keys_ascending(t);
    lemma_gap_operations(subs(t), seps(t), key, key, i);
    assert(subs(t)[i] =~= seq![]);
    assert(find(subs(t)[i], key) is None);
}

/// What putting a key does if the root has it.
pub proof fn lemma_overwrite(t: Tree, i: int, value: Seq<u8>)
    requires
        shape(t),
        sorted(entries(t)),
        0 <= i < t.keys.len(),
    ensures
        ({
            let t2 = Tree { values: t.values.update(i, value), ..t };
            &&& shape(t2)
            &&& height(t2) == height(t)
            &&& entries(t2) == put(entries(t), t.keys[i], value)
        }),
{
    let t2 = Tree { values: t.values.update(i, value), ..t };
    lemma_separator_operations(subs(t), seps(t), value, i);
    assert(subs(t2) =~= subs(t));
    assert(seps(t2) =~= seps(t).update(i, (t.keys[i], value)));
    assert forall|k: int| 0 <= k < t2.children.len() implies {
        &&& shape(#[trigger] t2.children[k])
        &&& t2.children[k].keys.len() >= B - 1
        &&& height(t2.children[k]) + 1 == height(t2)
    } by {
        assert(shape(t.children[k]));
    }
}

/// What putting a key does if the key is new to a leaf.
pub proof fn lemma_leaf_insert(t: Tree, i: int, key: Seq<u8>, value: Seq<u8>)
    requires
        shape(t),
        t.children.len() == 0,
        t.keys.len() < CAPACITY,
        sorted(entries(t)),
        gap_at(t.keys, key, i),
    ensures
        ({
            let t2 = Tree { keys: t.keys.insert(i, key), values: t.values.insert(i, value), ..t };
            &&& shape(t2)
            &&& height(t2) == height(t)
            &&& entries(t2) == put(entries(t), key, value)
        }),
{
    let t2 = Tree { keys: t.keys.insert(i, key), values: t.values.insert(i, value), ..t };
    let x = (key, value);
    lemma_keys_ascending(t);
    lemma_gap_operations(subs(t), seps(t), key, value, i);
    assert(subs(t)[i] =~= seq![]);
    assert(put(subs(t)[i], key, value) =~= seq![x]);
    let widened = subs(t).update(i, seq![x]);
    assert(seq![x] =~= Seq::<Entry>::empty() + seq![x] + Seq::<Entry>::empty());
    lemma_flat_split(widened, seps(t), i, seq![], x, seq![]);
    assert(subs(t2) =~= widened.update(i, seq![]).insert(i + 1, seq![]));
    assert(seps(t2) =~= seps(t).insert(i, x));
}

/// What deleting a key does if a leaf has it.
pub proof fn lemma_leaf_remove(t: Tree, i: int)
    requires
        shape(t),
        t.children.len() == 0,
        sorted(entries(t)),
        0 <= i < t.keys.len(),
    ensures
        ({
            let t2 = Tree { keys: t.keys.remove(i), values: t.values.remove(i), ..t };
            &&& shape(t2)
            &&& height(t2) == height(t)
            &&& entries(t2) == del(entries(t), t.keys[i])
        }),
{
    let t2 = Tree { keys: t.keys.remove(i), values: t.values.remove(i), ..t };
    lemma_separator_operations(subs(t), seps(t), t.values[i], i);
    assert(subs(t)[i] + subs(t)[i + 1] =~= subs(t2)[i]);
    lemma_flat_at(subs(t2), seps(t2), i);
    assert(seps(t2) =~= seps(t).remove(i));
    lemma_prefix_same(subs(t), seps(t), subs(t2), seps(t2), i);
    lemma_suffix_same(subs(t), seps(t), i + 1, subs(t2), seps(t2), i);
}

/// A leaf without keys has no entries.
pub proof fn lemma_leaf_empty(t: Tree)
    requires
        t.children.len() == 0,
        t.keys.len() == 0,
    ensures
        entries(t) == Seq::<Entry>::empty(),
{
    assert(entries(t) =~= Seq::<Entry>::empty());
}

// The entries next to a key of the root.

/// Where the last entry of a tree is.
pub proof fn lemma_last_entry(t: Tree)
    requires
        shape(t),
        t.keys.len() > 0,
    ensures
        entries(t).len() > 0,
        t.children.len() == 0 ==> entries(t).last() == (t.keys.last(), t.values.last()),
        t.children.len() > 0 ==> entries(t.children.last()).len() > 0 && entries(t).last()
            == entries(t.children.last()).last(),
{
    let n = t.keys.len() as int;
    if t.children.len() == 0 {
        assert(subs(t)[n] =~= seq![]);
        let p = prefix(subs(t), seps(t), n);
        assert(p[p.len() - 1] == seps(t)[n - 1]);
        assert(entries(t) =~= p);
    } else {
        assert(shape(t.children[n]));
        let k = lemma_root_entry(t.children[n], 0);
        assert(subs(t)[n] == entries(t.children[n]));
    }
}

/// Where the first entry of a tree is.
pub proof fn lemma_first_entry(t: Tree)
    requires
        shape(t),
        t.keys.len() > 0,
    ensures
        entries(t).len() > 0,
        t.children.len() == 0 ==> entries(t)[0] == (t.keys[0], t.values[0]),
        t.children.len() > 0 ==> entries(t.children[0]).len() > 0 && entries(t)[0] == entries(
            t.children[0],
        )[0],
{
    lemma_flat_at(subs(t), seps(t), 0);
    assert(prefix(subs(t), seps(t), 0) =~= seq![]);
    if t.children.len() == 0 {
        assert(subs(t)[0] =~= seq![]);
        assert(suffix(subs(t), seps(t), 0)[0] == seps(t)[0]);
    } else {
        assert(shape(t.children[0]));
        let k = lemma_root_entry(t.children[0], 0);
        assert(subs(t)[0] == entries(t.children[0]));
    }
}

/// A key of the root is deleted by putting the entry before it in its place.
pub proof fn lemma_replace_by_predecessor(t: Tree, i: int, child: Tree)
    requires
        shape(t),
        sorted(entries(t)),
        0 <= i < t.children.len() - 1,
        entries(t.children[i]).len() > 0,
        entries(child) == del(entries(t.children[i]), entries(t.children[i]).last().0),
    ensures
        ({
            let x = entries(t.children[i]).last();
            let t2 = Tree {
                keys: t.keys.update(i, x.0),
                values: t.values.update(i, x.1),
                ..t.with_child(i, child)
            };
            entries(t2) == del(entries(t), t.keys[i])
        }),
{
    let left = entries(t.children[i]);
    let right = entries(t.children[i + 1]);
    let x = left.last();
    let t2 = Tree {
        keys: t.keys.update(i, x.0),
        values: t.values.update(i, x.1),
        ..t.with_child(i, child)
    };
    lemma_child_sorted(t, i);
    assert(left =~= left.drop_last() + seq![x] + Seq::<Entry>::empty());
    lemma_hit(left.drop_last(), x, seq![], x.1);
    assert(entries(child) =~= left.drop_last());
    lemma_separator_operations(subs(t), seps(t), x.1, i);
    assert(subs(t2) =~= subs(t).update(i, entries(child)).update(i + 1, right));
    assert(seps(t2) =~= seps(t).update(i, x));
    lemma_flat_rotate(subs(t), seps(t), i, entries(child), x, right);
    assert(entries(child) + seq![x] + right =~= left + right);
}

/// A key of the root is deleted by putting the entry after it in its place.
pub proof fn lemma_replace_by_successor(t: Tree, i: int, child: Tree)
    requires
        shape(t),
        sorted(entries(t)),
        0 <= i < t.children.len() - 1,
        entries(t.children[i + 1]).len() > 0,
        entries(child) == del(entries(t.children[i + 1]), entries(t.children[i + 1])[0].0),
    ensures
        ({
            let x = entries(t.children[i + 1])[0];
            let t2 = Tree {
                keys: t.keys.update(i, x.0),
                values: t.values.update(i, x.1),
                ..t.with_child(i + 1, child)
            };
            entries(t2) == del(entries(t), t.keys[i])
        }),
{
    let left = entries(t.children[i]);
    let right = entries(t.children[i + 1]);
    let x = right[0];
    let t2 = Tree {
        keys: t.keys.update(i, x.0),
        values: t.values.update(i, x.1),
        ..t.with_child(i + 1, child)
    };
    lemma_child_sorted(t, i + 1);
    assert(right =~= Seq::<Entry>::empty() + seq![x] + right.skip(1));
    lemma_hit(seq![], x, right.skip(1), x.1);
    assert(entries(child) =~= right.skip(1));
    lemma_separator_operations(subs(t), seps(t), x.1, i);
    assert(subs(t2) =~= subs(t).update(i, left).update(i + 1, entries(child)));
    assert(seps(t2) =~= seps(t).update(i, x));
    lemma_flat_rotate(subs(t), seps(t), i, left, x, entries(child));
    assert(left + seq![x] + entries(child) =~= left + right);
}

/// A B-tree stays one if its root holds other entries.
pub proof fn lemma_shape_rekeyed(t: Tree, t2: Tree)
    requires
        shape(t),
        t2.children == t.children,
        t2.keys.len() == t.keys.len(),
        t2.values.len() == t.values.len(),
    ensures
        shape(t2),
        height(t2) == height(t),
{
    assert forall|k: int| 0 <= k < t2.children.len() implies {
        &&& shape(#[trigger] t2.children[k])
        &&& t2.children[k].keys.len() >= B - 1
        &&& height(t2.children[k]) + 1 == height(t2)
    } by {
        assert(shape(t.children[k]));
    }
}

} // verus!
