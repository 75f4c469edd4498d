//! What an insertion and a removal make of a tree, node by node.
use crate::entries::{del, flat, lemma_gap_operations, prefix, put, sorted, Entry};
use crate::node::{NodeView, Ptr, B};
use crate::order::{ascending, gap, gap_at, lemma_gap_is, lemma_index_is, precedes};
use crate::rebuild::{
    lemma_merge_entries, lemma_merge_shape, lemma_rotate_left_entries, lemma_rotate_left_shape,
    lemma_rotate_right_entries, lemma_rotate_right_shape, lemma_rotated_left, lemma_rotated_right,
    lemma_split_entries, lemma_split_shape,
};
use crate::room::{chunks_needed, is_full, lemma_gap_exists, lemma_room_below, made_room, splits};
use crate::tree::{
    entries, height, lemma_child_sorted, lemma_first_entry, lemma_key_absent, lemma_keys_ascending,
    lemma_last_entry, lemma_leaf_empty, lemma_leaf_insert, lemma_leaf_remove, lemma_overwrite,
    lemma_replace_by_predecessor, lemma_replace_by_successor, lemma_shape_rekeyed, seps, shape,
    subs, Tree,
};
use vstd::prelude::*;

verus! {

impl Tree {
    /// The tree with another entry in place of its `i`-th.
    pub open spec fn with_entry(self, i: int, x: Entry) -> Tree {
        Tree { keys: self.keys.update(i, x.0), values: self.values.update(i, x.1), ..self }
    }
}

/// Two nodes and an entry as one node. The node with the lower keys comes first.
pub open spec fn merged_node(a: NodeView, b: NodeView, key: Seq<u8>, value: Seq<u8>) -> NodeView {
    let (lower, higher) = if precedes(a.keys[0], b.keys[0]) {
        (a, b)
    } else {
        (b, a)
    };
    NodeView {
        keys: lower.keys.push(key) + higher.keys,
        values: lower.values.push(value) + higher.values,
        children: lower.children + higher.children,
    }
}

// Inserting.

/// Whether the child that `key` goes to is full.
pub open spec fn splits_child(t: Tree, key: Seq<u8>) -> bool {
    let i = gap(t.keys, key);
    !t.keys.contains(key) && 0 <= i < t.children.len() && is_full(t.children[i])
}

/// The tree with the child that `key` goes to split, if it is full. The upper half is then at the
/// address `sibling`.
pub open spec fn opened(t: Tree, key: Seq<u8>, sibling: Ptr) -> Tree {
    if splits_child(t, key) {
        t.split(gap(t.keys, key), sibling)
    } else {
        t
    }
}

/// The tree after an insertion, if its root is not full. On the way down to `key`, every full node
/// is split before it is entered. The new nodes are at the addresses `fresh`.
pub open spec fn inserted(t: Tree, key: Seq<u8>, value: Seq<u8>, fresh: Seq<Ptr>) -> Tree
    decreases height(t),
    when shape(t) && !is_full(t)
{
    let t1 = opened(t, key, fresh[0]);
    let rest = if splits_child(t, key) {
        fresh.skip(1)
    } else {
        fresh
    };
    let i = gap(t1.keys, key);
    if t1.keys.contains(key) {
        Tree { values: t1.values.update(t1.keys.index_of(key), value), ..t1 }
    } else if 0 <= i < t1.children.len() {
        proof {
            lemma_opened(t, key, fresh[0]);
            assert(shape(t1.children[i]));
        }
        t1.with_child(i, inserted(t1.children[i], key, value, rest))
    } else {
        Tree { keys: t1.keys.insert(i, key), values: t1.values.insert(i, value), ..t1 }
    }
}

/// A root without entries above a tree.
pub open spec fn raised(t: Tree, addr: Ptr) -> Tree {
    Tree { addr, keys: seq![], values: seq![], children: seq![t] }
}

/// The tree of a map after an insertion. An empty map gets a leaf, a full root a root above it.
pub open spec fn tree_after_insert(
    tree: Option<Tree>,
    key: Seq<u8>,
    value: Seq<u8>,
    fresh: Seq<Ptr>,
) -> Tree {
    match tree {
        None => Tree { addr: fresh[0], keys: seq![key], values: seq![value], children: seq![] },
        Some(t) => if is_full(t) {
            inserted(raised(t, fresh[0]), key, value, fresh.skip(1))
        } else {
            inserted(t, key, value, fresh)
        },
    }
}

/// Splitting the child that a key goes to keeps the shape of a tree.
pub proof fn lemma_opened(t: Tree, key: Seq<u8>, sibling: Ptr)
    requires
        shape(t),
        !is_full(t),
    ensures
        shape(opened(t, key, sibling)),
        height(opened(t, key, sibling)) == height(t),
{
    if splits_child(t, key) {
        lemma_split_shape(t, gap(t.keys, key), sibling);
    }
}

/// Whether `t2` is the tree after an insertion that has split `num` nodes.
pub open spec fn grows_to(t: Tree, key: Seq<u8>, value: Seq<u8>, num: nat, t2: Tree) -> bool {
    exists|fresh: Seq<Ptr>| fresh.len() == num && t2 == #[trigger] inserted(t, key, value, fresh)
}

/// Whether `tree2` is the tree of a map after an insertion. Where the new nodes are is left to the
/// allocator.
pub open spec fn tree_grows_to(
    tree: Option<Tree>,
    key: Seq<u8>,
    value: Seq<u8>,
    tree2: Option<Tree>,
) -> bool {
    exists|fresh: Seq<Ptr>|
        {
            &&& fresh.len() == chunks_needed(tree, key)
            &&& tree2 == Some(#[trigger] tree_after_insert(tree, key, value, fresh))
        }
}

/// Whether `t1` is `t` with the child that `key` goes to split, if it is full. `pre` is then the
/// address of its upper half.
pub open spec fn opened_by(t: Tree, key: Seq<u8>, pre: Seq<Ptr>, t1: Tree) -> bool {
    &&& pre.len() == if splits_child(t, key) {
        1nat
    } else {
        0
    }
    &&& t1 == opened(t, key, pre[0])
}

/// The key is in the root, or has moved up into it.
pub proof fn lemma_inserted_found(
    t: Tree,
    key: Seq<u8>,
    value: Seq<u8>,
    pre: Seq<Ptr>,
    t1: Tree,
    i: int,
)
    requires
        shape(t),
        !is_full(t),
        opened_by(t, key, pre, t1),
        ascending(t1.keys),
        0 <= i < t1.keys.len(),
        t1.keys[i] == key,
    ensures
        grows_to(
            t,
            key,
            value,
            pre.len(),
            Tree { values: t1.values.update(i, value), ..t1 },
        ),
{
    lemma_index_is(t1.keys, i);
    assert(inserted(t, key, value, pre) == Tree { values: t1.values.update(i, value), ..t1 });
}

/// The root is a leaf, and the key is not in it.
pub proof fn lemma_inserted_leaf(t: Tree, key: Seq<u8>, value: Seq<u8>, i: int)
    requires
        shape(t),
        !is_full(t),
        t.children.len() == 0,
        gap_at(t.keys, key, i),
    ensures
        grows_to(
            t,
            key,
            value,
            0,
            Tree { keys: t.keys.insert(i, key), values: t.values.insert(i, value), ..t },
        ),
{
    lemma_gap_is(t.keys, key, i);
    assert(inserted(t, key, value, seq![]) == Tree {
        keys: t.keys.insert(i, key),
        values: t.values.insert(i, value),
        ..t
    });
}

/// The key goes to a child.
pub proof fn lemma_inserted_below(
    t: Tree,
    key: Seq<u8>,
    value: Seq<u8>,
    pre: Seq<Ptr>,
    t1: Tree,
    i: int,
    num: nat,
    child: Tree,
)
    requires
        shape(t),
        !is_full(t),
        opened_by(t, key, pre, t1),
        gap_at(t1.keys, key, i),
        i < t1.children.len(),
        !is_full(t1.children[i]),
        grows_to(t1.children[i], key, value, num, child),
    ensures
        grows_to(t, key, value, pre.len() + num, t1.with_child(i, child)),
{
    let rest = choose|rest: Seq<Ptr>|
        rest.len() == num && child == #[trigger] inserted(t1.children[i], key, value, rest);
    lemma_gap_is(t1.keys, key, i);
    let fresh = pre + rest;
    if splits_child(t, key) {
        assert(fresh[0] == pre[0]);
        assert(fresh.skip(1) =~= rest);
    } else {
        assert(fresh =~= rest);
    }
    assert(opened(t, key, fresh[0]) == t1);
    lemma_opened(t, key, fresh[0]);
    assert(shape(t1.children[i]));
    assert(inserted(t, key, value, fresh) == t1.with_child(i, child));
}

/// A child that was split before is not split again.
pub proof fn lemma_not_split_again(t: Tree, key: Seq<u8>, sibling: Ptr)
    requires
        shape(t),
        !is_full(t),
        sorted(entries(t)),
        splits_child(t, key),
        !is_full(opened(t, key, sibling)),
    ensures
        !splits_child(opened(t, key, sibling), key),
        forall|value: Seq<u8>, fresh: Seq<Ptr>|
            fresh.len() > 0 && fresh[0] == sibling ==> #[trigger] inserted(t, key, value, fresh)
                == inserted(opened(t, key, sibling), key, value, fresh.skip(1)),
{
    let t1 = opened(t, key, sibling);
    lemma_keys_ascending(t);
    lemma_opened(t, key, sibling);
    lemma_split_entries(t, gap(t.keys, key), sibling);
    let g = lemma_gap_exists(t.keys, key);
    lemma_gap_is(t.keys, key, g);
    if !t1.keys.contains(key) {
        lemma_keys_ascending(t1);
        let i = lemma_gap_exists(t1.keys, key);
        lemma_gap_is(t1.keys, key, i);
        assert(t1 == t.split(g, sibling));
        assert(made_room(t, t1, key, g));
        lemma_room_below(t, t1, key, g, i);
    }
    assert forall|value: Seq<u8>, fresh: Seq<Ptr>|
        fresh.len() > 0 && fresh[0] == sibling implies #[trigger] inserted(t, key, value, fresh)
        == inserted(t1, key, value, fresh.skip(1)) by {
        assert(opened(t1, key, fresh.skip(1)[0]) == t1);
    }
}

/// The tree of an empty map after an insertion.
pub proof fn lemma_planted(addr: Ptr, key: Seq<u8>, value: Seq<u8>, t2: Tree)
    requires
        grows_to(
            Tree { addr, keys: seq![], values: seq![], children: seq![] },
            key,
            value,
            0,
            t2,
        ),
    ensures
        tree_grows_to(None, key, value, Some(t2)),
{
    let t = Tree { addr, keys: seq![], values: seq![], children: seq![] };
    let none = choose|fresh: Seq<Ptr>|
        fresh.len() == 0 && t2 == #[trigger] inserted(t, key, value, fresh);
    assert(gap_at(t.keys, key, 0));
    lemma_gap_is(t.keys, key, 0);
    assert(seq![].insert(0, key) =~= seq![key]);
    assert(seq![].insert(0, value) =~= seq![value]);
    assert(Some(tree_after_insert(None, key, value, seq![addr])) == Some(t2));
}

/// The tree of a map whose root is not full after an insertion.
pub proof fn lemma_not_raised(t: Tree, key: Seq<u8>, value: Seq<u8>, t2: Tree)
    requires
        !is_full(t),
        grows_to(t, key, value, splits(t, key), t2),
    ensures
        tree_grows_to(Some(t), key, value, Some(t2)),
{
    let fresh = choose|fresh: Seq<Ptr>|
        fresh.len() == splits(t, key) && t2 == #[trigger] inserted(t, key, value, fresh);
    assert(Some(tree_after_insert(Some(t), key, value, fresh)) == Some(t2));
}

/// A root without entries adds nothing to the tree below it.
pub proof fn lemma_raised_root(t: Tree, addr: Ptr)
    requires
        shape(t),
        t.keys.len() >= B - 1,
    ensures
        shape(raised(t, addr)),
        height(raised(t, addr)) == height(t) + 1,
        entries(raised(t, addr)) == entries(t),
{
    let r = raised(t, addr);
    assert(r.children[0] == t);
    assert forall|i: int| 0 <= i < r.children.len() implies {
        &&& shape(#[trigger] r.children[i])
        &&& r.children[i].keys.len() >= B - 1
        &&& height(r.children[i]) + 1 == height(r)
    } by {}
    assert(subs(r) =~= seq![entries(t)]);
    assert(seps(r) =~= seq![]);
    assert(prefix(subs(r), seps(r), 0) =~= seq![]);
    assert(entries(r) =~= entries(t));
}

/// The tree of a map with a full root after an insertion.
pub proof fn lemma_raised(
    t: Tree,
    addr: Ptr,
    sibling: Ptr,
    key: Seq<u8>,
    value: Seq<u8>,
    t2: Tree,
)
    requires
        shape(t),
        is_full(t),
        sorted(entries(t)),
        grows_to(raised(t, addr).split(0, sibling), key, value, splits(t, key), t2),
    ensures
        tree_grows_to(Some(t), key, value, Some(t2)),
{
    let r = raised(t, addr);
    lemma_raised_root(t, addr);
    assert(gap_at(r.keys, key, 0));
    lemma_gap_is(r.keys, key, 0);
    let r1 = opened(r, key, sibling);
    assert(r1 == r.split(0, sibling));
    lemma_not_split_again(r, key, sibling);
    let rest = choose|rest: Seq<Ptr>|
        rest.len() == splits(t, key) && t2 == #[trigger] inserted(r1, key, value, rest);
    assert((seq![sibling] + rest).skip(1) =~= rest);
    assert(inserted(r, key, value, seq![sibling] + rest) == t2);
    let fresh = seq![addr] + (seq![sibling] + rest);
    assert(fresh.skip(1) =~= seq![sibling] + rest);
    assert(Some(tree_after_insert(Some(t), key, value, fresh)) == Some(t2));
}

// Removing.

/// The tree with at least `B` entries in a child, and where this child is. An entry is passed to
/// the `i`-th child from a neighbour that can spare one, the left one first. If there is none, the
/// child is merged with its left neighbour, or with the right one if it is the first child.
pub open spec fn lent(t: Tree, i: int) -> (Tree, int) {
    if t.children[i].keys.len() >= B {
        (t, i)
    } else if i > 0 && t.children[i - 1].keys.len() >= B {
        (t.rotate_right(i - 1), i)
    } else if i + 1 < t.children.len() && t.children[i + 1].keys.len() >= B {
        (t.rotate_left(i), i)
    } else if i > 0 {
        (t.merge(i - 1, t.children[i - 1].addr), i - 1)
    } else {
        (t.merge(i, t.children[i + 1].addr), i)
    }
}

/// The tree after the removal of `key`. Its root may be left without entries.
///
/// A key in a leaf is taken out. A key in another node is replaced by the entry before it, if the
/// child before it can spare an entry, or else by the entry after it, if the child after it can.
/// Otherwise both children are merged around it.
pub open spec fn shrunk(t: Tree, key: Seq<u8>) -> Tree
    decreases height(t),
    when shape(t) && t.keys.len() > 0
{
    let n = t.keys.index_of(key);
    let i = gap(t.keys, key);
    if t.keys.contains(key) {
        if t.children.len() == 0 {
            Tree { keys: t.keys.remove(n), values: t.values.remove(n), ..t }
        } else if t.children[n].keys.len() >= B {
            proof {
                assert(shape(t.children[n]));
            }
            let x = entries(t.children[n]).last();
            t.with_entry(n, x).with_child(n, shrunk(t.children[n], x.0))
        } else if t.children[n + 1].keys.len() >= B {
            proof {
                assert(shape(t.children[n + 1]));
            }
            let x = entries(t.children[n + 1])[0];
            t.with_entry(n, x).with_child(n + 1, shrunk(t.children[n + 1], x.0))
        } else {
            let t1 = t.merge(n, t.children[n].addr);
            proof {
                lemma_merge_shape(t, n, t.children[n].addr);
                assert(shape(t1.children[n]));
            }
            t1.with_child(n, shrunk(t1.children[n], key))
        }
    } else if 0 <= i < t.children.len() {
        let (t1, j) = lent(t, i);
        proof {
            lemma_lent(t, i);
            assert(shape(t1.children[j]));
        }
        t1.with_child(j, shrunk(t1.children[j], key))
    } else {
        t
    }
}

/// The tree without a root that has no entries.
pub open spec fn lowered(t: Tree) -> Option<Tree> {
    if t.keys.len() > 0 {
        Some(t)
    } else if t.children.len() > 0 {
        Some(t.children[0])
    } else {
        None
    }
}

/// The tree of a map after the removal of `key`.
pub open spec fn tree_after_remove(tree: Option<Tree>, key: Seq<u8>) -> Option<Tree> {
    match tree {
        None => None,
        Some(t) => lowered(shrunk(t, key)),
    }
}

/// A child that has been lent an entry, or was merged, can spare one.
pub proof fn lemma_lent(t: Tree, i: int)
    requires
        shape(t),
        t.keys.len() > 0,
        0 <= i < t.children.len(),
    ensures
        ({
            let (t1, j) = lent(t, i);
            &&& shape(t1)
            &&& height(t1) == height(t)
            &&& t1.addr == t.addr
            &&& t1.keys.len() >= t.keys.len() - 1
            &&& 0 <= j < t1.children.len()
            &&& t1.children[j].keys.len() >= B
        }),
{
    assert(shape(t.children[i]));
    if t.children[i].keys.len() < B {
        if i > 0 {
            assert(shape(t.children[i - 1]));
        }
        if i + 1 < t.children.len() {
            assert(shape(t.children[i + 1]));
        }
        if i > 0 && t.children[i - 1].keys.len() >= B {
            lemma_rotate_right_shape(t, i - 1);
        } else if i + 1 < t.children.len() && t.children[i + 1].keys.len() >= B {
            lemma_rotate_left_shape(t, i);
        } else if i > 0 {
            lemma_merge_shape(t, i - 1, t.children[i - 1].addr);
        } else {
            lemma_merge_shape(t, i, t.children[i + 1].addr);
        }
    }
}

/// The root stays where it is, and loses one entry at most.
pub proof fn lemma_shrunk_root(t: Tree, key: Seq<u8>)
    requires
        shape(t),
        t.keys.len() > 0,
    ensures
        shrunk(t, key).addr == t.addr,
        shrunk(t, key).keys.len() >= t.keys.len() - 1,
{
    let i = gap(t.keys, key);
    if !t.keys.contains(key) && 0 <= i < t.children.len() {
        lemma_lent(t, i);
    }
}

// What the trees hold.

/// A tree with another child is a B-tree if that child fits.
proof fn lemma_with_child(t: Tree, i: int, child: Tree)
    requires
        shape(t),
        0 <= i < t.children.len(),
        shape(child),
        child.keys.len() >= B - 1,
        height(child) == height(t.children[i]),
    ensures
        shape(t.with_child(i, child)),
        height(t.with_child(i, child)) == height(t),
        entries(t.with_child(i, child)) == flat(subs(t).update(i, entries(child)), seps(t)),
{
    let t2 = t.with_child(i, child);
    assert(shape(t.children[i]));
    assert(height(t2) == height(t)) by {
        assert(shape(t.children[0]));
    }
    assert forall|k: int| 0 <= k < t2.children.len() implies {
        &&& shape(#[trigger] t2.children[k])
        &&& t2.children[k].keys.len() >= B - 1
        &&& height(t2.children[k]) + 1 == height(t2)
    } by {
        assert(shape(t.children[k]));
    }
    assert(subs(t2) =~= subs(t).update(i, entries(child)));
    assert(seps(t2) =~= seps(t));
}

/// The tree after an insertion is a B-tree. It holds the entries from before and the new one.
pub proof fn lemma_inserted(t: Tree, key: Seq<u8>, value: Seq<u8>, fresh: Seq<Ptr>)
    requires
        shape(t),
        !is_full(t),
        sorted(entries(t)),
    ensures
        entries(inserted(t, key, value, fresh)) == put(entries(t), key, value),
        shape(inserted(t, key, value, fresh)),
        height(inserted(t, key, value, fresh)) == height(t),
        inserted(t, key, value, fresh).addr == t.addr,
        inserted(t, key, value, fresh).keys.len() >= t.keys.len(),
    decreases height(t),
{
    let t1 = opened(t, key, fresh[0]);
    let rest = if splits_child(t, key) {
        fresh.skip(1)
    } else {
        fresh
    };
    lemma_opened(t, key, fresh[0]);
    lemma_keys_ascending(t);
    if splits_child(t, key) {
        lemma_split_entries(t, gap(t.keys, key), fresh[0]);
    }
    lemma_keys_ascending(t1);
    if t1.keys.contains(key) {
        lemma_overwrite(t1, t1.keys.index_of(key), value);
    } else {
        let i = lemma_gap_exists(t1.keys, key);
        lemma_gap_is(t1.keys, key, i);
        if t1.children.len() == 0 {
            lemma_leaf_insert(t1, i, key, value);
        } else {
            if !t.keys.contains(key) {
                let g = lemma_gap_exists(t.keys, key);
                lemma_gap_is(t.keys, key, g);
                assert(splits_child(t, key) ==> t1 == t.split(g, fresh[0]));
                assert(made_room(t, t1, key, g));
                lemma_room_below(t, t1, key, g, i);
            }
            let child = t1.children[i];
            assert(shape(t1.children[i]));
            lemma_child_sorted(t1, i);
            lemma_inserted(child, key, value, rest);
            lemma_with_child(t1, i, inserted(child, key, value, rest));
            lemma_gap_operations(subs(t1), seps(t1), key, value, i);
        }
    }
}

/// The tree after a removal is a B-tree but for the number of entries in its root. It holds the
/// entries from before without that of the key.
pub proof fn lemma_shrunk(t: Tree, key: Seq<u8>)
    requires
        shape(t),
        t.keys.len() > 0,
        sorted(entries(t)),
    ensures
        entries(shrunk(t, key)) == del(entries(t), key),
        shape(shrunk(t, key)),
        height(shrunk(t, key)) == height(t),
    decreases height(t), 1int,
{
    lemma_keys_ascending(t);
    if t.keys.contains(key) {
        let n = t.keys.index_of(key);
        if t.children.len() == 0 {
            lemma_leaf_remove(t, n);
        } else {
            let (left, right) = (t.children[n], t.children[n + 1]);
            assert(shape(t.children[n]) && shape(t.children[n + 1]));
            lemma_child_sorted(t, n);
            lemma_child_sorted(t, n + 1);
            if left.keys.len() >= B {
                lemma_last_entry(left);
                let x = entries(left).last();
                let child = shrunk(left, x.0);
                lemma_shrunk(left, x.0);
                lemma_shrunk_root(left, x.0);
                lemma_with_child(t, n, child);
                lemma_shape_rekeyed(t.with_child(n, child), shrunk(t, key));
                lemma_replace_by_predecessor(t, n, child);
            } else if right.keys.len() >= B {
                lemma_first_entry(right);
                let x = entries(right)[0];
                let child = shrunk(right, x.0);
                lemma_shrunk(right, x.0);
                lemma_shrunk_root(right, x.0);
                lemma_with_child(t, n + 1, child);
                lemma_shape_rekeyed(t.with_child(n + 1, child), shrunk(t, key));
                lemma_replace_by_successor(t, n, child);
            } else {
                lemma_merge_shape(t, n, left.addr);
                lemma_merge_entries(t, n, left.addr);
                let t1 = t.merge(n, left.addr);
                assert forall|k: int| 0 <= k < n implies precedes(#[trigger] t1.keys[k], key) by {
                    assert(t1.keys[k] == t.keys[k]);
                }
                assert forall|k: int| n <= k < t1.keys.len() implies precedes(
                    key,
                    #[trigger] t1.keys[k],
                ) by {
                    assert(t1.keys[k] == t.keys[k + 1]);
                }
                lemma_shrunk_below(t1, key, n);
            }
        }
    } else {
        let i = lemma_gap_exists(t.keys, key);
        lemma_gap_is(t.keys, key, i);
        if t.children.len() == 0 {
            lemma_key_absent(t, key, i);
        } else {
            let (t1, j) = lent(t, i);
            lemma_lent(t, i);
            lemma_lent_entries(t, key, i);
            lemma_shrunk_below(t1, key, j);
        }
    }
}

/// What a removal from a child leaves.
proof fn lemma_shrunk_below(t: Tree, key: Seq<u8>, i: int)
    requires
        shape(t),
        sorted(entries(t)),
        gap_at(t.keys, key, i),
        i < t.children.len(),
        t.children[i].keys.len() >= B,
    ensures
        ({
            let t2 = t.with_child(i, shrunk(t.children[i], key));
            &&& entries(t2) == del(entries(t), key)
            &&& shape(t2)
            &&& height(t2) == height(t)
        }),
    decreases height(t), 0int,
{
    let child = t.children[i];
    assert(shape(t.children[i]));
    lemma_child_sorted(t, i);
    lemma_keys_ascending(t);
    lemma_shrunk(child, key);
    lemma_shrunk_root(child, key);
    lemma_with_child(t, i, shrunk(child, key));
    lemma_gap_operations(subs(t), seps(t), key, seq![], i);
}

/// Passing an entry to a child, or merging it, keeps the entries of a tree. The key still goes to
/// that child.
proof fn lemma_lent_entries(t: Tree, key: Seq<u8>, i: int)
    requires
        shape(t),
        t.keys.len() > 0,
        sorted(entries(t)),
        gap_at(t.keys, key, i),
        i < t.children.len(),
    ensures
        ({
            let (t1, j) = lent(t, i);
            &&& entries(t1) == entries(t)
            &&& gap_at(t1.keys, key, j)
        }),
{
    if t.children[i].keys.len() < B {
        if i > 0 && t.children[i - 1].keys.len() >= B {
            lemma_rotate_right_entries(t, i - 1);
            lemma_rotated_right(t, i - 1, key);
        } else if i + 1 < t.children.len() && t.children[i + 1].keys.len() >= B {
            lemma_rotate_left_entries(t, i);
            lemma_rotated_left(t, i, key);
        } else if i > 0 {
            lemma_merge_entries(t, i - 1, t.children[i - 1].addr);
        } else {
            lemma_merge_entries(t, i, t.children[i + 1].addr);
        }
    }
}

/// A root without entries adds nothing to the tree below it, and a tree without it has entries in
/// its root.
pub proof fn lemma_lowered(t: Tree)
    requires
        shape(t),
    ensures
        lowered(t) is None <==> entries(t).len() == 0,
        lowered(t) matches Some(t2) ==> {
            &&& shape(t2)
            &&& t2.keys.len() > 0
            &&& entries(t2) == entries(t)
            &&& height(t2) <= height(t)
        },
{
    if t.keys.len() > 0 {
        lemma_last_entry(t);
    } else if t.children.len() > 0 {
        let child = t.children[0];
        assert(shape(t.children[0]));
        lemma_last_entry(child);
        assert(subs(t) =~= seq![entries(child)]);
        assert(seps(t) =~= seq![]);
        assert(prefix(subs(t), seps(t), 0) =~= seq![]);
        assert(entries(t) =~= entries(child));
    } else {
        lemma_leaf_empty(t);
    }
}

} // verus!
