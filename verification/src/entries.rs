//! Sequences of entries in the order of their keys, and how the sequence of a node is put
//! together from those of its children.
use crate::order::{
    ascending, gap_at, lemma_irreflexive, lemma_total, lemma_transitive, precedes,
};
use vstd::prelude::*;

verus! {

/// A key with its value.
pub type Entry = (Seq<u8>, Seq<u8>);

/// Whether the key of each entry comes before that of the next.
pub open spec fn sorted(e: Seq<Entry>) -> bool {
    forall|i: int, j: int|
        0 <= i < j < e.len() ==> precedes((#[trigger] e[i]).0, (#[trigger] e[j]).0)
}

/// Whether all entries come before `key`.
pub open spec fn below(e: Seq<Entry>, key: Seq<u8>) -> bool {
    forall|i: int| 0 <= i < e.len() ==> precedes((#[trigger] e[i]).0, key)
}

/// Whether all entries come after `key`.
pub open spec fn above(e: Seq<Entry>, key: Seq<u8>) -> bool {
    forall|i: int| 0 <= i < e.len() ==> precedes(key, (#[trigger] e[i]).0)
}

/// The number of entries up to the last one that comes before `key`.
pub open spec fn rank(e: Seq<Entry>, key: Seq<u8>) -> int
    decreases e.len(),
{
    if e.len() == 0 {
        0
    } else if precedes(e.last().0, key) {
        e.len() as int
    } else {
        rank(e.drop_last(), key)
    }
}

/// Whether `key` stands at its rank.
pub open spec fn present(e: Seq<Entry>, key: Seq<u8>) -> bool {
    rank(e, key) < e.len() && e[rank(e, key)].0 == key
}

/// The value of `key`.
pub open spec fn find(e: Seq<Entry>, key: Seq<u8>) -> Option<Seq<u8>> {
    if present(e, key) {
        Some(e[rank(e, key)].1)
    } else {
        None
    }
}

/// The entries with `value` as the value of `key`.
pub open spec fn put(e: Seq<Entry>, key: Seq<u8>, value: Seq<u8>) -> Seq<Entry> {
    if present(e, key) {
        e.update(rank(e, key), (key, value))
    } else {
        e.insert(rank(e, key), (key, value))
    }
}

/// The entries without `key`.
pub open spec fn del(e: Seq<Entry>, key: Seq<u8>) -> Seq<Entry> {
    if present(e, key) {
        e.remove(rank(e, key))
    } else {
        e
    }
}

/// Whether some entry has the key `key`.
pub open spec fn has_key(e: Seq<Entry>, key: Seq<u8>) -> bool {
    exists|i: int| 0 <= i < e.len() && (#[trigger] e[i]).0 == key
}

/// The map from the keys of the entries to their values.
pub open spec fn map_of(e: Seq<Entry>) -> Map<Seq<u8>, Seq<u8>> {
    Map::new(
        |key: Seq<u8>| has_key(e, key),
        |key: Seq<u8>| e[choose|i: int| 0 <= i < e.len() && (#[trigger] e[i]).0 == key].1,
    )
}

/// The value of `key` in a map.
pub open spec fn lookup(m: Map<Seq<u8>, Seq<u8>>, key: Seq<u8>) -> Option<Seq<u8>> {
    if m.contains_key(key) {
        Some(m[key])
    } else {
        None
    }
}

proof fn lemma_rank_is(e: Seq<Entry>, key: Seq<u8>, p: int)
    requires
        0 <= p <= e.len(),
        p > 0 ==> precedes(e[p - 1].0, key),
        forall|i: int| p <= i < e.len() ==> !precedes((#[trigger] e[i]).0, key),
    ensures
        rank(e, key) == p,
    decreases e.len(),
{
    if e.len() > p {
        assert(!precedes(e[e.len() - 1].0, key));
        lemma_rank_is(e.drop_last(), key, p);
    }
}

/// In sorted entries, what stands before the rank of a key comes before the key, and what stands
/// from there on does not.
proof fn lemma_rank_splits(e: Seq<Entry>, key: Seq<u8>)
    requires
        sorted(e),
    ensures
        0 <= rank(e, key) <= e.len(),
        forall|i: int| 0 <= i < rank(e, key) ==> precedes((#[trigger] e[i]).0, key),
        forall|i: int| rank(e, key) <= i < e.len() ==> !precedes((#[trigger] e[i]).0, key),
    decreases e.len(),
{
    if e.len() > 0 {
        if precedes(e.last().0, key) {
            assert forall|i: int| 0 <= i < e.len() implies precedes((#[trigger] e[i]).0, key) by {
                if i < e.len() - 1 {
                    lemma_transitive(e[i].0, e[e.len() - 1].0, key);
                }
            }
        } else {
            let d = e.drop_last();
            lemma_rank_splits(d, key);
            assert forall|i: int| 0 <= i < rank(e, key) implies precedes(
                (#[trigger] e[i]).0,
                key,
            ) by {
                assert(d[i] == e[i]);
            }
            assert forall|i: int| rank(e, key) <= i < e.len() implies !precedes(
                (#[trigger] e[i]).0,
                key,
            ) by {
                if i < d.len() {
                    assert(d[i] == e[i]);
                }
            }
        }
    }
}

proof fn lemma_above_not_below(e: Seq<Entry>, key: Seq<u8>)
    requires
        above(e, key),
    ensures
        forall|i: int|
            0 <= i < e.len() ==> !precedes((#[trigger] e[i]).0, key) && e[i].0 != key,
{
    assert forall|i: int| 0 <= i < e.len() implies !precedes((#[trigger] e[i]).0, key) && e[i].0
        != key by {
        lemma_total(key, e[i].0);
    }
}

/// Operations on a key that lies strictly between `a` and `c` touch only what is in the middle.
pub proof fn lemma_middle(a: Seq<Entry>, b: Seq<Entry>, c: Seq<Entry>, key: Seq<u8>, value: Seq<u8>)
    requires
        sorted(a + b + c),
        below(a, key),
        above(c, key),
    ensures
        find(a + b + c, key) == find(b, key),
        put(a + b + c, key, value) == a + put(b, key, value) + c,
        del(a + b + c, key) == a + del(b, key) + c,
{
    let e = a + b + c;
    let p = rank(b, key);
    assert(sorted(b)) by {
        assert forall|i: int, j: int| 0 <= i < j < b.len() implies precedes(
            (#[trigger] b[i]).0,
            (#[trigger] b[j]).0,
        ) by {
            assert(b[i] == e[a.len() + i]);
            assert(b[j] == e[a.len() + j]);
        }
    }
    lemma_rank_splits(b, key);
    lemma_above_not_below(c, key);
    assert forall|i: int| a.len() + p <= i < e.len() implies !precedes(
        (#[trigger] e[i]).0,
        key,
    ) by {
        if i < a.len() + b.len() {
            assert(e[i] == b[i - a.len()]);
        } else {
            assert(e[i] == c[i - a.len() - b.len()]);
        }
    }
    if p > 0 {
        assert(e[a.len() + p - 1] == b[p - 1]);
    } else if a.len() > 0 {
        assert(e[a.len() - 1] == a[a.len() - 1]);
    }
    lemma_rank_is(e, key, a.len() + p);
    if p < b.len() {
        assert(e[a.len() + p] == b[p]);
    } else if p < b.len() + c.len() {
        assert(e[a.len() + p] == c[p - b.len()]);
    }
    if present(b, key) {
        assert(e.update(a.len() + p, (key, value)) =~= a + b.update(p, (key, value)) + c);
        assert(e.remove(a.len() + p) =~= a + b.remove(p) + c);
    } else {
        assert(e.insert(a.len() + p, (key, value)) =~= a + b.insert(p, (key, value)) + c);
    }
}

/// Operations on a key that stands between `a` and `c`.
pub proof fn lemma_hit(a: Seq<Entry>, x: Entry, c: Seq<Entry>, value: Seq<u8>)
    requires
        sorted(a + seq![x] + c),
    ensures
        find(a + seq![x] + c, x.0) == Some(x.1),
        put(a + seq![x] + c, x.0, value) == a + seq![(x.0, value)] + c,
        del(a + seq![x] + c, x.0) == a + c,
{
    let e = a + seq![x] + c;
    let p = a.len() as int;
    assert(e[p] == x);
    lemma_irreflexive(x.0);
    assert forall|i: int| p <= i < e.len() implies !precedes((#[trigger] e[i]).0, x.0) by {
        if i > p {
            lemma_total(e[p].0, e[i].0);
        }
    }
    if p > 0 {
        assert(precedes(e[p - 1].0, e[p].0));
    }
    lemma_rank_is(e, x.0, p);
    assert(e.update(p, (x.0, value)) =~= a + seq![(x.0, value)] + c);
    assert(e.remove(p) =~= a + c);
}

/// A part of sorted entries is sorted.
pub proof fn lemma_sorted_part(a: Seq<Entry>, b: Seq<Entry>, c: Seq<Entry>)
    requires
        sorted(a + b + c),
    ensures
        sorted(b),
{
    let e = a + b + c;
    assert forall|i: int, j: int| 0 <= i < j < b.len() implies precedes(
        (#[trigger] b[i]).0,
        (#[trigger] b[j]).0,
    ) by {
        assert(b[i] == e[a.len() + i]);
        assert(b[j] == e[a.len() + j]);
    }
}

/// A key has a value in the map of sorted entries if and only if it stands at its rank.
pub proof fn lemma_find(e: Seq<Entry>, key: Seq<u8>)
    requires
        sorted(e),
    ensures
        lookup(map_of(e), key) == find(e, key),
{
    lemma_rank_splits(e, key);
    let p = rank(e, key);
    if has_key(e, key) {
        let i = choose|i: int| 0 <= i < e.len() && (#[trigger] e[i]).0 == key;
        lemma_irreflexive(key);
        assert(i >= p);
        if i > p {
            assert(precedes(e[p].0, e[i].0));
        }
        assert(i == p);
    } else if present(e, key) {
        assert(e[p].0 == key);
    }
}

/// A key is found with the value of its entry.
pub proof fn lemma_find_entries(e: Seq<Entry>, key: Seq<u8>, value: Seq<u8>)
    requires
        sorted(e),
    ensures
        find(e, key) == Some(value) <==> e.contains((key, value)),
        find(e, key) is None <==> !has_key(e, key),
{
    lemma_find(e, key);
    lemma_rank_splits(e, key);
    let p = rank(e, key);
    if e.contains((key, value)) {
        let i = choose|i: int| 0 <= i < e.len() && e[i] == (key, value);
        lemma_irreflexive(key);
        assert(i >= p);
        if i > p {
            assert(precedes(e[p].0, e[i].0));
        }
    }
    if find(e, key) == Some(value) {
        assert(e[p] == (key, value));
    }
}

/// Removing a key takes out one entry or none.
pub proof fn lemma_del_len(e: Seq<Entry>, key: Seq<u8>)
    requires
        sorted(e),
    ensures
        e.len() > 0 ==> (del(e, key).len() == 0 <==> e.len() == 1 && e[0].0 == key),
{
    lemma_rank_splits(e, key);
    if e.len() == 1 && e[0].0 == key {
        lemma_irreflexive(key);
        assert(rank(e, key) == 0);
    }
}

/// Putting an entry keeps entries sorted, and changes their map at one key.
pub proof fn lemma_put(e: Seq<Entry>, key: Seq<u8>, value: Seq<u8>)
    requires
        sorted(e),
    ensures
        sorted(put(e, key, value)),
        map_of(put(e, key, value)) == map_of(e).insert(key, value),
{
    let f = put(e, key, value);
    let p = rank(e, key);
    lemma_rank_splits(e, key);
    assert forall|i: int, j: int| 0 <= i < j < f.len() implies precedes(
        (#[trigger] f[i]).0,
        (#[trigger] f[j]).0,
    ) by {
        if !present(e, key) {
            let x = if i < p { i } else { i - 1 };
            let y = if j < p { j } else { j - 1 };
            if i != p && j != p {
                assert(f[i] == e[x] && f[j] == e[y]);
            } else if i == p {
                assert(f[j] == e[y]);
                assert(!precedes(e[y].0, key));
                lemma_total(e[y].0, key);
                if e[y].0 == key && y > p {
                    assert(precedes(e[p].0, e[y].0));
                }
            } else {
                assert(f[i] == e[x]);
            }
        }
    }
    assert forall|k: Seq<u8>| lookup(map_of(f), k) == lookup(map_of(e).insert(key, value), k) by {
        lemma_find(f, k);
        lemma_find(e, k);
        if k == key {
            if present(e, key) {
                assert(f =~= e.take(p) + seq![(key, value)] + e.skip(p + 1));
                lemma_hit(e.take(p), (key, value), e.skip(p + 1), value);
            } else {
                assert(f =~= e.take(p) + seq![(key, value)] + e.skip(p));
                lemma_hit(e.take(p), (key, value), e.skip(p), value);
            }
        } else {
            lemma_has_key_put(e, key, value, k);
        }
    }
    assert(map_of(f) =~= map_of(e).insert(key, value)) by {
        assert forall|k: Seq<u8>| #![trigger map_of(f).contains_key(k)]
            map_of(f).contains_key(k) == map_of(e).insert(key, value).contains_key(k)
            && (map_of(f).contains_key(k) ==> map_of(f)[k] == map_of(e).insert(
            key,
            value,
        )[k]) by {
            assert(lookup(map_of(f), k) == lookup(map_of(e).insert(key, value), k));
        }
    }
}

proof fn lemma_find_at(e: Seq<Entry>, i: int)
    requires
        sorted(e),
        0 <= i < e.len(),
    ensures
        find(e, e[i].0) == Some(e[i].1),
{
    assert(e =~= e.take(i) + seq![e[i]] + e.skip(i + 1));
    lemma_hit(e.take(i), e[i], e.skip(i + 1), e[i].1);
}

proof fn lemma_has_key_put(e: Seq<Entry>, key: Seq<u8>, value: Seq<u8>, k: Seq<u8>)
    requires
        sorted(e),
        sorted(put(e, key, value)),
        k != key,
    ensures
        find(put(e, key, value), k) == find(e, k),
{
    let f = put(e, key, value);
    let p = rank(e, key);
    lemma_rank_splits(e, key);
    lemma_find(e, k);
    lemma_find(f, k);
    if has_key(e, k) {
        let i = choose|i: int| 0 <= i < e.len() && (#[trigger] e[i]).0 == k;
        let j = if present(e, key) || i < p { i } else { i + 1 };
        assert(f[j] == e[i]);
        lemma_find_at(e, i);
        lemma_find_at(f, j);
    } else if has_key(f, k) {
        let j = choose|j: int| 0 <= j < f.len() && (#[trigger] f[j]).0 == k;
        let i = if present(e, key) || j < p { j } else { j - 1 };
        assert(j != p);
        assert(f[j] == e[i]);
    }
}

/// Deleting a key keeps entries sorted, and takes the key out of their map.
pub proof fn lemma_del(e: Seq<Entry>, key: Seq<u8>)
    requires
        sorted(e),
    ensures
        sorted(del(e, key)),
        map_of(del(e, key)) == map_of(e).remove(key),
{
    let f = del(e, key);
    let p = rank(e, key);
    lemma_rank_splits(e, key);
    assert forall|i: int, j: int| 0 <= i < j < f.len() implies precedes(
        (#[trigger] f[i]).0,
        (#[trigger] f[j]).0,
    ) by {
        if present(e, key) {
            let x = if i < p { i } else { i + 1 };
            let y = if j < p { j } else { j + 1 };
            assert(f[i] == e[x] && f[j] == e[y]);
        }
    }
    assert forall|k: Seq<u8>| lookup(map_of(f), k) == lookup(map_of(e).remove(key), k) by {
        lemma_find(f, k);
        lemma_find(e, k);
        if has_key(f, k) {
            let j = choose|j: int| 0 <= j < f.len() && (#[trigger] f[j]).0 == k;
            let i = if !present(e, key) || j < p { j } else { j + 1 };
            assert(f[j] == e[i]);
            lemma_find_at(e, i);
            lemma_find_at(f, j);
            if present(e, key) && k == key {
                lemma_irreflexive(key);
                assert(precedes(e[i].0, e[p].0) || precedes(e[p].0, e[i].0));
            }
        } else if has_key(e, k) && k != key {
            let i = choose|i: int| 0 <= i < e.len() && (#[trigger] e[i]).0 == k;
            let j = if !present(e, key) || i < p { i } else { i - 1 };
            assert(f[j] == e[i]);
        }
    }
    assert(map_of(f) =~= map_of(e).remove(key)) by {
        assert forall|k: Seq<u8>| #![trigger map_of(f).contains_key(k)]
            map_of(f).contains_key(k) == map_of(e).remove(key).contains_key(k) && (map_of(
            f,
        ).contains_key(k) ==> map_of(f)[k] == map_of(e).remove(key)[k]) by {
            assert(lookup(map_of(f), k) == lookup(map_of(e).remove(key), k));
        }
    }
}

// Sequences with separators.

/// The first `i` of `subs`, each followed by its separator.
pub open spec fn prefix(subs: Seq<Seq<Entry>>, seps: Seq<Entry>, i: int) -> Seq<Entry>
    decreases i,
{
    if i <= 0 {
        seq![]
    } else {
        prefix(subs, seps, i - 1) + subs[i - 1] + seq![seps[i - 1]]
    }
}

/// What follows the `i`-th of `subs`: separators, each followed by one of `subs`.
pub open spec fn suffix(subs: Seq<Seq<Entry>>, seps: Seq<Entry>, i: int) -> Seq<Entry>
    decreases seps.len() - i,
{
    if i >= seps.len() {
        seq![]
    } else {
        seq![seps[i]] + subs[i + 1] + suffix(subs, seps, i + 1)
    }
}

/// All of `subs`, with the separators between them.
pub open spec fn flat(subs: Seq<Seq<Entry>>, seps: Seq<Entry>) -> Seq<Entry> {
    prefix(subs, seps, seps.len() as int) + subs[seps.len() as int]
}

/// What stands before and after the `i`-th of `subs`.
pub proof fn lemma_flat_at(subs: Seq<Seq<Entry>>, seps: Seq<Entry>, i: int)
    requires
        0 <= i <= seps.len(),
    ensures
        flat(subs, seps) == prefix(subs, seps, i) + subs[i] + suffix(subs, seps, i),
    decreases seps.len() - i,
{
    if i < seps.len() {
        lemma_flat_at(subs, seps, i + 1);
        assert(prefix(subs, seps, i + 1) == prefix(subs, seps, i) + subs[i] + seq![seps[i]]);
        assert(suffix(subs, seps, i) == seq![seps[i]] + subs[i + 1] + suffix(subs, seps, i + 1));
        assert(flat(subs, seps) =~= prefix(subs, seps, i) + subs[i] + suffix(subs, seps, i));
    } else {
        assert(suffix(subs, seps, i) =~= seq![]);
        assert(flat(subs, seps) =~= prefix(subs, seps, i) + subs[i] + suffix(subs, seps, i));
    }
}

/// What stands before and after two neighbours of `subs`.
pub proof fn lemma_flat_pair(subs: Seq<Seq<Entry>>, seps: Seq<Entry>, i: int)
    requires
        0 <= i < seps.len(),
    ensures
        flat(subs, seps) == prefix(subs, seps, i) + (subs[i] + seq![seps[i]] + subs[i + 1])
            + suffix(subs, seps, i + 1),
{
    lemma_flat_at(subs, seps, i);
    assert(suffix(subs, seps, i) == seq![seps[i]] + subs[i + 1] + suffix(subs, seps, i + 1));
    assert(flat(subs, seps) =~= prefix(subs, seps, i) + (subs[i] + seq![seps[i]] + subs[i + 1])
        + suffix(subs, seps, i + 1));
}

pub proof fn lemma_prefix_same(
    subs1: Seq<Seq<Entry>>,
    seps1: Seq<Entry>,
    subs2: Seq<Seq<Entry>>,
    seps2: Seq<Entry>,
    i: int,
)
    requires
        forall|j: int| 0 <= j < i ==> #[trigger] subs1[j] == subs2[j],
        forall|j: int| 0 <= j < i ==> #[trigger] seps1[j] == seps2[j],
    ensures
        prefix(subs1, seps1, i) == prefix(subs2, seps2, i),
    decreases i,
{
    if i > 0 {
        lemma_prefix_same(subs1, seps1, subs2, seps2, i - 1);
        assert(subs1[i - 1] == subs2[i - 1]);
        assert(seps1[i - 1] == seps2[i - 1]);
    }
}

pub proof fn lemma_suffix_same(
    subs1: Seq<Seq<Entry>>,
    seps1: Seq<Entry>,
    i1: int,
    subs2: Seq<Seq<Entry>>,
    seps2: Seq<Entry>,
    i2: int,
)
    requires
        seps1.len() - i1 == seps2.len() - i2,
        forall|j: int|
            i1 < j <= seps1.len() ==> #[trigger] subs1[j] == subs2[j - i1 + i2],
        forall|j: int|
            i1 <= j < seps1.len() ==> #[trigger] seps1[j] == seps2[j - i1 + i2],
    ensures
        suffix(subs1, seps1, i1) == suffix(subs2, seps2, i2),
    decreases seps1.len() - i1,
{
    if i1 < seps1.len() {
        lemma_suffix_same(subs1, seps1, i1 + 1, subs2, seps2, i2 + 1);
        assert(subs1[i1 + 1] == subs2[i2 + 1]);
        assert(seps1[i1] == seps2[i2]);
    }
}

/// Two sequences with separators, joined by one more separator.
pub proof fn lemma_flat_join(
    subs1: Seq<Seq<Entry>>,
    seps1: Seq<Entry>,
    x: Entry,
    subs2: Seq<Seq<Entry>>,
    seps2: Seq<Entry>,
)
    requires
        subs1.len() == seps1.len() + 1,
        subs2.len() == seps2.len() + 1,
    ensures
        flat(subs1 + subs2, seps1 + seq![x] + seps2) == flat(subs1, seps1) + seq![x] + flat(
            subs2,
            seps2,
        ),
{
    let subs = subs1 + subs2;
    let seps = seps1 + seq![x] + seps2;
    let n = seps1.len() as int;
    lemma_flat_pair(subs, seps, n);
    lemma_flat_at(subs2, seps2, 0);
    lemma_prefix_same(subs, seps, subs1, seps1, n);
    lemma_suffix_same(subs, seps, n + 1, subs2, seps2, 0);
    assert(subs[n] == subs1[n]);
    assert(subs[n + 1] == subs2[0]);
    assert(seps[n] == x);
    assert(flat(subs, seps) =~= flat(subs1, seps1) + seq![x] + flat(subs2, seps2));
}

/// One of `subs` replaced.
pub proof fn lemma_flat_update(subs: Seq<Seq<Entry>>, seps: Seq<Entry>, i: int, sub: Seq<Entry>)
    requires
        subs.len() == seps.len() + 1,
        0 <= i < subs.len(),
    ensures
        flat(subs.update(i, sub), seps) == prefix(subs, seps, i) + sub + suffix(subs, seps, i),
{
    let new_subs = subs.update(i, sub);
    lemma_flat_at(new_subs, seps, i);
    lemma_prefix_same(subs, seps, new_subs, seps, i);
    lemma_suffix_same(subs, seps, i, new_subs, seps, i);
}

/// Entries move between two neighbours and the separator between them.
pub proof fn lemma_flat_rotate(
    subs: Seq<Seq<Entry>>,
    seps: Seq<Entry>,
    i: int,
    left: Seq<Entry>,
    x: Entry,
    right: Seq<Entry>,
)
    requires
        subs.len() == seps.len() + 1,
        0 <= i < seps.len(),
    ensures
        flat(subs.update(i, left).update(i + 1, right), seps.update(i, x)) == prefix(subs, seps, i)
            + (left + seq![x] + right) + suffix(subs, seps, i + 1),
{
    let new_subs = subs.update(i, left).update(i + 1, right);
    let new_seps = seps.update(i, x);
    lemma_flat_pair(new_subs, new_seps, i);
    lemma_prefix_same(subs, seps, new_subs, new_seps, i);
    lemma_suffix_same(subs, seps, i + 1, new_subs, new_seps, i + 1);
}

/// Two neighbours and the separator between them become one.
pub proof fn lemma_flat_merge(subs: Seq<Seq<Entry>>, seps: Seq<Entry>, i: int)
    requires
        subs.len() == seps.len() + 1,
        0 <= i < seps.len(),
    ensures
        flat(
            subs.update(i, subs[i] + seq![seps[i]] + subs[i + 1]).remove(i + 1),
            seps.remove(i),
        ) == flat(subs, seps),
{
    let merged = subs[i] + seq![seps[i]] + subs[i + 1];
    let new_subs = subs.update(i, merged).remove(i + 1);
    let new_seps = seps.remove(i);
    lemma_flat_pair(subs, seps, i);
    lemma_flat_at(new_subs, new_seps, i);
    lemma_prefix_same(subs, seps, new_subs, new_seps, i);
    lemma_suffix_same(subs, seps, i + 1, new_subs, new_seps, i);
}

/// One of `subs` is split into two neighbours with a separator between them.
pub proof fn lemma_flat_split(
    subs: Seq<Seq<Entry>>,
    seps: Seq<Entry>,
    i: int,
    left: Seq<Entry>,
    x: Entry,
    right: Seq<Entry>,
)
    requires
        subs.len() == seps.len() + 1,
        0 <= i < subs.len(),
        subs[i] == left + seq![x] + right,
    ensures
        flat(subs.update(i, left).insert(i + 1, right), seps.insert(i, x)) == flat(subs, seps),
{
    let new_subs = subs.update(i, left).insert(i + 1, right);
    let new_seps = seps.insert(i, x);
    lemma_flat_at(subs, seps, i);
    lemma_flat_pair(new_subs, new_seps, i);
    lemma_prefix_same(subs, seps, new_subs, new_seps, i);
    lemma_suffix_same(subs, seps, i, new_subs, new_seps, i + 1);
}

/// The keys of the entries.
pub open spec fn keys_of(e: Seq<Entry>) -> Seq<Seq<u8>> {
    Seq::new(e.len(), |i: int| e[i].0)
}

/// Separators of sorted entries are sorted.
pub proof fn lemma_separators_ascending(subs: Seq<Seq<Entry>>, seps: Seq<Entry>)
    requires
        sorted(flat(subs, seps)),
    ensures
        ascending(keys_of(seps)),
{
    assert forall|i: int, j: int| 0 <= i < j < seps.len() implies precedes(
        #[trigger] keys_of(seps)[i],
        #[trigger] keys_of(seps)[j],
    ) by {
        let e = flat(subs, seps);
        lemma_flat_at(subs, seps, j + 1);
        let p = prefix(subs, seps, j + 1);
        let q = prefix(subs, seps, j);
        assert(p == q + subs[j] + seq![seps[j]]);
        assert(p[p.len() - 1] == seps[j]);
        assert(e[p.len() - 1] == seps[j]);
        let k = lemma_separator_in_prefix(subs, seps, i, j);
        assert(e[k] == q[k]);
    }
}

/// Where a separator stands.
pub proof fn lemma_separator_in_prefix(
    subs: Seq<Seq<Entry>>,
    seps: Seq<Entry>,
    i: int,
    j: int,
) -> (k: int)
    requires
        0 <= i < j <= seps.len(),
    ensures
        0 <= k < prefix(subs, seps, j).len(),
        prefix(subs, seps, j)[k] == seps[i],
    decreases j,
{
    if i == j - 1 {
        prefix(subs, seps, j).len() - 1
    } else {
        lemma_separator_in_prefix(subs, seps, i, j - 1)
    }
}

/// A key that lies in the gap between two separators comes after all that stands before the gap,
/// and before all that stands after it.
pub proof fn lemma_gap(subs: Seq<Seq<Entry>>, seps: Seq<Entry>, key: Seq<u8>, i: int)
    requires
        sorted(flat(subs, seps)),
        gap_at(keys_of(seps), key, i),
    ensures
        below(prefix(subs, seps, i), key),
        above(suffix(subs, seps, i), key),
{
    let e = flat(subs, seps);
    let p = prefix(subs, seps, i);
    let s = suffix(subs, seps, i);
    lemma_flat_at(subs, seps, i);
    if i > 0 {
        let last = p.len() - 1;
        assert(p[last] == seps[i - 1]);
        assert(precedes(keys_of(seps)[i - 1], key));
        assert forall|j: int| 0 <= j < p.len() implies precedes((#[trigger] p[j]).0, key) by {
            assert(e[j] == p[j]);
            assert(e[last] == p[last]);
            if j < last {
                lemma_transitive(e[j].0, e[last].0, key);
            }
        }
    }
    if i < seps.len() {
        assert(s[0] == seps[i]);
        assert(precedes(key, keys_of(seps)[i]));
        let start: int = p.len() + subs[i].len() as int;
        assert forall|j: int| 0 <= j < s.len() implies precedes(key, (#[trigger] s[j]).0) by {
            assert(e[start + j] == s[j]);
            assert(e[start] == s[0]);
            if j > 0 {
                lemma_transitive(key, e[start].0, e[start + j].0);
            }
        }
    }
}

/// What an operation on a key in the gap between two separators does.
pub proof fn lemma_gap_operations(
    subs: Seq<Seq<Entry>>,
    seps: Seq<Entry>,
    key: Seq<u8>,
    value: Seq<u8>,
    i: int,
)
    requires
        subs.len() == seps.len() + 1,
        sorted(flat(subs, seps)),
        gap_at(keys_of(seps), key, i),
    ensures
        sorted(subs[i]),
        find(flat(subs, seps), key) == find(subs[i], key),
        put(flat(subs, seps), key, value) == flat(subs.update(i, put(subs[i], key, value)), seps),
        del(flat(subs, seps), key) == flat(subs.update(i, del(subs[i], key)), seps),
{
    lemma_gap(subs, seps, key, i);
    lemma_flat_at(subs, seps, i);
    let p = prefix(subs, seps, i);
    let s = suffix(subs, seps, i);
    lemma_sorted_part(p, subs[i], s);
    lemma_middle(p, subs[i], s, key, value);
    lemma_flat_update(subs, seps, i, put(subs[i], key, value));
    lemma_flat_update(subs, seps, i, del(subs[i], key));
}

/// What an operation on the key of a separator does.
pub proof fn lemma_separator_operations(
    subs: Seq<Seq<Entry>>,
    seps: Seq<Entry>,
    value: Seq<u8>,
    i: int,
)
    requires
        subs.len() == seps.len() + 1,
        sorted(flat(subs, seps)),
        0 <= i < seps.len(),
    ensures
        find(flat(subs, seps), seps[i].0) == Some(seps[i].1),
        put(flat(subs, seps), seps[i].0, value) == flat(
            subs,
            seps.update(i, (seps[i].0, value)),
        ),
        del(flat(subs, seps), seps[i].0) == prefix(subs, seps, i) + (subs[i] + subs[i + 1])
            + suffix(subs, seps, i + 1),
{
    let a = prefix(subs, seps, i) + subs[i];
    let c = subs[i + 1] + suffix(subs, seps, i + 1);
    lemma_flat_pair(subs, seps, i);
    assert(flat(subs, seps) =~= a + seq![seps[i]] + c);
    lemma_hit(a, seps[i], c, value);
    lemma_flat_rotate(subs, seps, i, subs[i], (seps[i].0, value), subs[i + 1]);
    assert(subs.update(i, subs[i]).update(i + 1, subs[i + 1]) =~= subs);
    assert(a + seq![(seps[i].0, value)] + c =~= prefix(subs, seps, i) + (subs[i] + seq![
        (seps[i].0, value),
    ] + subs[i + 1]) + suffix(subs, seps, i + 1));
    assert(a + c =~= prefix(subs, seps, i) + (subs[i] + subs[i + 1]) + suffix(subs, seps, i + 1));
}

} // verus!
