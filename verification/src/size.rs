//! How many nodes and entries trees have.
use crate::entries::{map_of, prefix, sorted, Entry};
use crate::node::{Ptr, B, CAPACITY};
use crate::order::lemma_irreflexive;
use crate::tree::{
    count, counts, distinct, entries, height, lemma_stored_allocated, moved, seps, shape, sound,
    subs, Heap, Tree,
};
use vstd::prelude::*;

verus! {

/// The number of nodes of a tree.
pub open spec fn nodes(t: Tree) -> nat
    decreases t,
{
    1 + nodes_in(t.children)
}

/// The number of nodes of some trees.
pub open spec fn nodes_in(trees: Seq<Tree>) -> nat
    decreases trees,
{
    if trees.len() == 0 {
        0
    } else {
        nodes_in(trees.subrange(0, trees.len() - 1)) + nodes(trees[trees.len() - 1])
    }
}

/// The number of nodes of a tree that may be missing.
pub open spec fn nodes_of(tree: Option<Tree>) -> nat {
    match tree {
        Some(t) => nodes(t),
        None => 0,
    }
}

/// The minimum degree of a B-tree to the power of `h`.
pub open spec fn power(h: nat) -> nat
    decreases h,
{
    if h == 0 {
        1
    } else {
        B as nat * power((h - 1) as nat)
    }
}

/// The addresses of the nodes of a tree.
pub open spec fn addresses(t: Tree) -> Set<Ptr> {
    Set::new(|a: Ptr| count(t, a) > 0)
}

spec fn addresses_in(trees: Seq<Tree>) -> Set<Ptr> {
    Set::new(|a: Ptr| counts(trees, a) > 0)
}

/// A tree without an address that occurs twice has as many addresses as nodes.
pub proof fn lemma_addresses(t: Tree)
    requires
        distinct(t),
    ensures
        addresses(t).finite(),
        addresses(t).len() == nodes(t),
    decreases t,
{
    assert forall|a: Ptr| #[trigger] counts(t.children, a) <= 1 by {
        assert(count(t, a) <= 1);
    }
    lemma_addresses_in(t.children);
    assert(count(t, t.addr) <= 1);
    assert(addresses(t) =~= addresses_in(t.children).insert(t.addr));
}

proof fn lemma_addresses_in(trees: Seq<Tree>)
    requires
        forall|a: Ptr| #[trigger] counts(trees, a) <= 1,
    ensures
        addresses_in(trees).finite(),
        addresses_in(trees).len() == nodes_in(trees),
    decreases trees,
{
    if trees.len() == 0 {
        assert(addresses_in(trees) =~= Set::empty());
    } else {
        let init = trees.subrange(0, trees.len() - 1);
        let last = trees[trees.len() - 1];
        assert forall|a: Ptr| #[trigger] counts(init, a) <= 1 by {
            assert(counts(trees, a) <= 1);
        }
        assert forall|a: Ptr| #[trigger] count(last, a) <= 1 by {
            assert(counts(trees, a) <= 1);
        }
        lemma_addresses_in(init);
        lemma_addresses(last);
        assert(addresses_in(trees) =~= addresses_in(init) + addresses(last));
        assert(addresses_in(init).disjoint(addresses(last))) by {
            assert forall|a: Ptr| addresses_in(init).contains(a) implies !addresses(
                last,
            ).contains(a) by {
                assert(counts(trees, a) <= 1);
            }
        }
        vstd::set_lib::lemma_set_disjoint_lens(addresses_in(init), addresses(last));
    }
}

/// When a tree is rebuilt, the number of chunks changes as the number of its nodes does.
pub proof fn lemma_moved_nodes(heap1: Heap, t1: Tree, heap2: Heap, t2: Tree)
    requires
        sound(heap1, t1),
        sound(heap2, t2),
        moved(heap1, t1, heap2, t2),
        heap1.dom().finite(),
    ensures
        heap2.dom().finite(),
        heap2.dom().len() + nodes(t1) == heap1.dom().len() + nodes(t2),
{
    let rest = heap1.dom().difference(addresses(t1));
    lemma_addresses(t1);
    lemma_addresses(t2);
    assert forall|a: Ptr| addresses(t1).contains(a) implies heap1.dom().contains(a) by {
        lemma_stored_allocated(heap1, t1, a);
    }
    assert(heap1.dom() =~= rest + addresses(t1));
    vstd::set_lib::lemma_set_disjoint_lens(rest, addresses(t1));
    assert forall|a: Ptr| heap2.dom().contains(a) <==> rest.contains(a) || addresses(
        t2,
    ).contains(a) by {
        assert(heap2.contains_key(a) <==> (heap1.contains_key(a) && count(t1, a) == 0) || count(
            t2,
            a,
        ) > 0);
    }
    assert forall|a: Ptr| rest.contains(a) implies !addresses(t2).contains(a) by {
        assert(heap1.contains_key(a) && count(t1, a) == 0);
    }
    assert(heap2.dom() =~= rest + addresses(t2));
    vstd::set_lib::lemma_set_disjoint_lens(rest, addresses(t2));
}

/// The number of entries in the first `i` subtrees.
spec fn entries_below(t: Tree, i: int) -> nat
    decreases i,
{
    if i <= 0 {
        0
    } else {
        entries_below(t, i - 1) + subs(t)[i - 1].len()
    }
}

proof fn lemma_prefix_len(t: Tree, i: int)
    requires
        0 <= i <= t.keys.len(),
    ensures
        prefix(subs(t), seps(t), i).len() == i + entries_below(t, i),
    decreases i,
{
    if i > 0 {
        lemma_prefix_len(t, i - 1);
    }
}

/// A node has its own entries and those of its subtrees.
proof fn lemma_entries_len(t: Tree)
    requires
        shape(t),
    ensures
        entries(t).len() == t.keys.len() + entries_below(t, t.keys.len() as int + 1),
{
    lemma_prefix_len(t, t.keys.len() as int);
}

/// The first `i` subtrees.
proof fn lemma_below(t: Tree, i: int)
    requires
        shape(t),
        t.children.len() > 0,
        0 <= i <= t.children.len(),
    ensures
        5 * nodes_in(t.children.subrange(0, i)) <= entries_below(t, i) <= 11 * nodes_in(
            t.children.subrange(0, i),
        ),
        entries_below(t, i) >= i * (power(height(t)) - 1),
    decreases t, 0int, i,
{
    if i > 0 {
        let child = t.children[i - 1];
        lemma_below(t, i - 1);
        assert(shape(child));
        lemma_bounds(child);
        let init = t.children.subrange(0, i);
        assert(init.subrange(0, i - 1) =~= t.children.subrange(0, i - 1));
        assert(nodes_in(init) == nodes_in(init.subrange(0, i - 1)) + nodes(child));
        assert(i * (power(height(t)) - 1) == (i - 1) * (power(height(t)) - 1) + (power(height(t))
            - 1)) by (nonlinear_arith);
    } else {
        assert(t.children.subrange(0, 0).len() == 0);
    }
}

/// How many entries a tree has that is part of a larger tree.
proof fn lemma_bounds(t: Tree)
    requires
        shape(t),
        t.keys.len() >= B - 1,
    ensures
        5 * nodes(t) <= entries(t).len() <= 11 * nodes(t),
        entries(t).len() >= power(height(t) + 1) - 1,
    decreases t, 1int, 0int,
{
    lemma_entries_len(t);
    let n = t.children.len() as int;
    if n == 0 {
        lemma_leaf_below(t, t.keys.len() as int + 1);
        assert(power(1) == 6) by {
            reveal_with_fuel(power, 2);
        }
    } else {
        lemma_below(t, n);
        assert(t.children.subrange(0, n) =~= t.children);
        let p = power(height(t)) as int;
        lemma_power(height(t));
        assert(n * (p - 1) >= 6 * (p - 1)) by (nonlinear_arith)
            requires
                n >= 6,
                p >= 1,
        ;
        assert(power(height(t) + 1) == 6 * p);
    }
}

proof fn lemma_power(h: nat)
    ensures
        power(h) >= 1,
    decreases h,
{
    if h > 0 {
        lemma_power((h - 1) as nat);
    }
}

proof fn lemma_leaf_below(t: Tree, i: int)
    requires
        t.children.len() == 0,
        0 <= i <= t.keys.len() + 1,
    ensures
        entries_below(t, i) == 0,
    decreases i,
{
    if i > 0 {
        lemma_leaf_below(t, i - 1);
    }
}

/// How many entries a tree has: at least one in the root and `B - 1` in every other node, at most
/// `CAPACITY` in each node, and at least as many as its height demands.
pub proof fn lemma_tree_size(t: Tree)
    requires
        shape(t),
        t.keys.len() > 0,
    ensures
        1 + (B - 1) * (nodes(t) - 1) <= entries(t).len() <= CAPACITY * nodes(t),
        entries(t).len() >= 2 * power(height(t)) - 1,
{
    lemma_entries_len(t);
    let others = nodes(t) - 1;
    assert((B - 1) * others == 5 * others) by (nonlinear_arith)
        requires
            B == 6,
    ;
    assert(CAPACITY * nodes(t) == 11 * nodes(t)) by (nonlinear_arith)
        requires
            CAPACITY == 11,
    ;
    let n = t.children.len() as int;
    if n == 0 {
        lemma_leaf_below(t, t.keys.len() as int + 1);
    } else {
        lemma_below(t, n);
        assert(t.children.subrange(0, n) =~= t.children);
        let p = power(height(t)) as int;
        lemma_power(height(t));
        assert(n * (p - 1) >= 2 * (p - 1)) by (nonlinear_arith)
            requires
                n >= 2,
                p >= 1,
        ;
    }
}

/// A sorted sequence of entries stands for a map of the same size.
pub proof fn lemma_map_size(e: Seq<Entry>)
    requires
        sorted(e),
    ensures
        map_of(e).dom().finite(),
        map_of(e).dom().len() == e.len(),
{
    let keys = Seq::new(e.len(), |i: int| e[i].0);
    assert forall|i: int, j: int| 0 <= i < j < keys.len() implies keys[i] != keys[j] by {
        if e[i].0 == e[j].0 {
            lemma_irreflexive(e[i].0);
        }
    }
    keys.unique_seq_to_set();
    assert(map_of(e).dom() =~= keys.to_set()) by {
        assert forall|key: Seq<u8>| map_of(e).dom().contains(key) implies keys.to_set().contains(
            key,
        ) by {
            let i = choose|i: int| 0 <= i < e.len() && (#[trigger] e[i]).0 == key;
            assert(keys[i] == key);
        }
        assert forall|key: Seq<u8>| keys.to_set().contains(key) implies map_of(e).dom().contains(
            key,
        ) by {
            let i = choose|i: int| 0 <= i < keys.len() && keys[i] == key;
            assert(e[i].0 == key);
        }
    }
}

} // verus!
